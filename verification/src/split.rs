//! Chunking a borrowed byte slice.

use crate::laws::{
    lemma_count_bound, lemma_coverage, lemma_delimiter_alignment, lemma_target_size_is_ceiling,
};
use crate::model::{
    chunk_end, chunk_views, chunking, delimiter_byte, delimiter_of, ranges_from, scan_stop,
    slices_of, target_size,
};
use vstd::prelude::*;
use vstd::slice::slice_subrange;

verus! {

/// Why a request for chunks is refused.
#[derive(Debug, Clone, Copy, PartialEq, Eq, Structural)]
pub enum ChunkError {
    /// The requested number of chunks is zero.
    InvalidArgument,
}

/// Computes the nominal chunk length for `file_size` bytes cut into `count`
/// chunks: the quotient rounded up.
pub fn chunk_size(file_size: usize, count: usize) -> (size: usize)
    requires
        count > 0,
    ensures
        size == target_size(file_size as nat, count as nat),
{
    let quotient: usize = file_size / count;
    if file_size % count == 0 {
        quotient
    } else {
        assert(quotient < file_size) by (nonlinear_arith)
            requires
                quotient == file_size / count,
                count > 0,
                file_size % count != 0,
        ;
        quotient + 1
    }
}

/// Narrows a delimiter character to the byte it is compared with.
pub fn delimiter_to_byte(c: char) -> (b: u8)
    ensures
        b == delimiter_byte(c),
{
    (c as u32 % 256) as u8
}

/// Finds the exclusive end of the chunk that starts at `offset`.
///
/// The chunk runs to the end of `bytes` if fewer than `size` bytes would be
/// left behind it. Otherwise it ends `size` bytes on, or, with a delimiter,
/// just behind the first delimiter from there, or at the end of `bytes` if
/// none follows.
pub fn next_boundary(bytes: &[u8], offset: usize, size: usize, delimiter: Option<u8>) -> (end: usize)
    requires
        offset < bytes@.len(),
        size > 0,
    ensures
        end == chunk_end(bytes@, offset as int, size as int, delimiter),
        offset < end <= bytes@.len(),
{
    let len: usize = bytes.len();
    if size >= len - offset {
        return len;
    }
    let mut end: usize = offset + size;
    if let Some(d) = delimiter {
        while end < len - 1 && bytes[end] != d
            invariant
                len == bytes@.len(),
                offset + size <= end < len,
                scan_stop(bytes@, offset + size, d) == scan_stop(bytes@, end as int, d),
            decreases len - end,
        {
            end += 1;
        }
        end += 1;
    }
    end
}

/// Divides `bytes` into at most `count` chunks of about the same length and
/// returns them in order, each a view into `bytes`.
///
/// With a delimiter, every cut is moved forward to just behind the next
/// occurrence of the delimiter's byte; where none follows, the rest of the
/// data joins the current chunk. A request for zero chunks is refused.
pub fn split_chunks<'a>(bytes: &'a [u8], count: usize, delimiter: Option<char>) -> (result: Result<
    Vec<&'a [u8]>,
    ChunkError,
>)
    ensures
        count == 0 <==> result == Err::<Vec<&'a [u8]>, ChunkError>(ChunkError::InvalidArgument),
        count > 0 ==> result is Ok && chunk_views(result.unwrap()@) == chunking(
            bytes@,
            count as nat,
            delimiter_of(delimiter),
        ),
        result matches Ok(chunks) ==> {
            &&& chunk_views(chunks@).flatten() == bytes@
            &&& chunks@.len() <= count
            &&& chunks@.len() == 0 <==> bytes@.len() == 0
            &&& forall|i: int| 0 <= i < chunks@.len() ==> (#[trigger] chunks@[i])@.len() > 0
            &&& forall|i: int|
                delimiter is Some && 0 <= i < chunks@.len() - 1 ==> (#[trigger] chunks@[i])@.last()
                    == delimiter_byte(delimiter.unwrap())
        },
{
    if count == 0 {
        return Err(ChunkError::InvalidArgument);
    }
    let d: Option<u8> = match delimiter {
        Some(c) => Some(delimiter_to_byte(c)),
        None => None,
    };
    let len: usize = bytes.len();
    let size: usize = chunk_size(len, count);
    proof {
        lemma_target_size_is_ceiling(len as nat, count as nat);
    }
    let mut chunks: Vec<&'a [u8]> = Vec::new();
    let mut offset: usize = 0;
    let ghost mut done: Seq<(int, int)> = Seq::empty();
    while offset < len
        invariant
            len == bytes@.len(),
            offset <= len,
            len > 0 ==> size > 0,
            ranges_from(bytes@, 0, size as int, d) == done + ranges_from(
                bytes@,
                offset as int,
                size as int,
                d,
            ),
            chunk_views(chunks@) == slices_of(bytes@, done),
        decreases len - offset,
    {
        let end: usize = next_boundary(bytes, offset, size, d);
        let chunk: &'a [u8] = slice_subrange(bytes, offset, end);
        proof {
            let rest = ranges_from(bytes@, end as int, size as int, d);
            let grown = done.push((offset as int, end as int));
            assert(grown + rest =~= done + (seq![(offset as int, end as int)] + rest));
            assert(chunk_views(chunks@).len() == slices_of(bytes@, done).len());
            assert forall|i: int| 0 <= i < grown.len() implies chunk_views(chunks@.push(chunk))[i]
                == slices_of(bytes@, grown)[i] by {
                if i < done.len() {
                    assert(chunk_views(chunks@)[i] == slices_of(bytes@, done)[i]);
                }
            }
            assert(chunk_views(chunks@.push(chunk)) =~= slices_of(bytes@, grown));
            done = grown;
        }
        chunks.push(chunk);
        offset = end;
    }
    proof {
        assert(done =~= ranges_from(bytes@, 0, size as int, d));
        let views = chunk_views(chunks@);
        lemma_coverage(bytes@, count as nat, d);
        lemma_count_bound(bytes@, count as nat, d);
        assert forall|i: int| 0 <= i < chunks@.len() implies (#[trigger] chunks@[i])@.len() > 0 by {
            assert(views[i].len() > 0);
        }
        if let Some(c) = delimiter {
            lemma_delimiter_alignment(bytes@, count as nat, delimiter_byte(c));
            assert forall|i: int| 0 <= i < chunks@.len() - 1 implies (#[trigger] chunks@[i])@.last()
                == delimiter_byte(c) by {
                assert(views[i].last() == delimiter_byte(c));
            }
        }
    }
    Ok(chunks)
}

} // verus!
