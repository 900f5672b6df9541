//! The mathematical model: where the cuts fall in a byte sequence.

use vstd::prelude::*;

verus! {

/// The nominal chunk length: `len / count`, rounded up.
pub open spec fn target_size(len: nat, count: nat) -> nat
    recommends
        count > 0,
{
    if len % count == 0 {
        len / count
    } else {
        len / count + 1
    }
}

/// The byte that a delimiter character stands for: the low eight bits of its
/// code point.
pub open spec fn delimiter_byte(c: char) -> u8 {
    (c as u32 % 256) as u8
}

/// The delimiter of a request as a byte, if there is one.
pub open spec fn delimiter_of(delimiter: Option<char>) -> Option<u8> {
    match delimiter {
        Some(c) => Some(delimiter_byte(c)),
        None => None,
    }
}

/// Where a forward scan that starts at `from` comes to rest: the first index
/// at or after `from` that holds `d`, or the last index of `data` if `d` does
/// not occur before it.
pub open spec fn scan_stop(data: Seq<u8>, from: int, d: u8) -> int
    decreases data.len() - from,
{
    if from + 1 < data.len() && data[from] != d {
        scan_stop(data, from + 1, d)
    } else {
        from
    }
}

/// The scan never moves backwards and never leaves the sequence; it passes
/// over no delimiter, and it rests on a delimiter unless it has reached the
/// last index.
pub proof fn lemma_scan_stop_bounds(data: Seq<u8>, from: int, d: u8)
    requires
        from < data.len(),
    ensures
        from <= scan_stop(data, from, d) < data.len(),
        data[scan_stop(data, from, d)] == d || scan_stop(data, from, d) == data.len() - 1,
        forall|j: int| from <= j < scan_stop(data, from, d) ==> data[j] != d,
    decreases data.len() - from,
{
    if from + 1 < data.len() && data[from] != d {
        lemma_scan_stop_bounds(data, from + 1, d);
    }
}

/// The exclusive end of the chunk that starts at `offset`.
///
/// A chunk whose nominal end reaches the end of the data takes all that is
/// left. Otherwise it ends at the nominal end, or, with a delimiter, one past
/// the place where the scan from the nominal end stops.
pub open spec fn chunk_end(data: Seq<u8>, offset: int, size: int, delimiter: Option<u8>) -> int {
    if offset + size >= data.len() {
        data.len() as int
    } else {
        match delimiter {
            None => offset + size,
            Some(d) => scan_stop(data, offset + size, d) + 1,
        }
    }
}

/// A chunk of positive nominal size that starts inside the data is not empty
/// and ends inside the data.
pub proof fn lemma_chunk_end_bounds(data: Seq<u8>, offset: int, size: int, delimiter: Option<u8>)
    requires
        0 <= offset < data.len(),
        size > 0,
    ensures
        offset + size <= chunk_end(data, offset, size, delimiter) || chunk_end(
            data,
            offset,
            size,
            delimiter,
        ) == data.len(),
        offset < chunk_end(data, offset, size, delimiter) <= data.len(),
{
    if offset + size < data.len() {
        if let Some(d) = delimiter {
            lemma_scan_stop_bounds(data, offset + size, d);
        }
    }
}

/// The offset ranges `(start, end)` of the chunks that cover `data` from
/// `offset` on, in ascending order.
pub open spec fn ranges_from(data: Seq<u8>, offset: int, size: int, delimiter: Option<u8>) -> Seq<
    (int, int),
>
    decreases data.len() - offset,
{
    if 0 <= offset < data.len() && size > 0 {
        let end = chunk_end(data, offset, size, delimiter);
        proof {
            lemma_chunk_end_bounds(data, offset, size, delimiter);
        }
        seq![(offset, end)] + ranges_from(data, end, size, delimiter)
    } else {
        Seq::empty()
    }
}

/// Whether `ranges` cut the stretch from `from` to `to` into pieces that are
/// not empty, follow one another without a gap or an overlap, and leave
/// nothing out.
pub open spec fn tiles(ranges: Seq<(int, int)>, from: int, to: int) -> bool {
    if ranges.len() == 0 {
        from == to
    } else {
        &&& ranges.first().0 == from
        &&& ranges.last().1 == to
        &&& forall|i: int|
            0 <= i < ranges.len() ==> from <= (#[trigger] ranges[i]).0 < ranges[i].1 <= to
        &&& forall|i: int| 0 <= i < ranges.len() - 1 ==> (#[trigger] ranges[i]).1 == ranges[i + 1].0
    }
}

/// The offset ranges of the chunks of `data` for a request of `count` chunks.
pub open spec fn chunk_ranges(data: Seq<u8>, count: nat, delimiter: Option<u8>) -> Seq<(int, int)> {
    ranges_from(data, 0, target_size(data.len(), count) as int, delimiter)
}

/// The bytes of each range, in the order of the ranges.
pub open spec fn slices_of(data: Seq<u8>, ranges: Seq<(int, int)>) -> Seq<Seq<u8>> {
    Seq::new(ranges.len(), |i: int| data.subrange(ranges[i].0, ranges[i].1))
}

/// The chunks of `data` for a request of `count` chunks: what a chunking
/// returns, as byte sequences.
pub open spec fn chunking(data: Seq<u8>, count: nat, delimiter: Option<u8>) -> Seq<Seq<u8>> {
    slices_of(data, chunk_ranges(data, count, delimiter))
}

/// The chunks of a result as byte sequences.
pub open spec fn chunk_views(chunks: Seq<&[u8]>) -> Seq<Seq<u8>> {
    Seq::new(chunks.len(), |i: int| chunks[i]@)
}

} // verus!
