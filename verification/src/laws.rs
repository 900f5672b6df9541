//! What holds of every chunking.

use crate::model::{
    chunk_end, chunk_ranges, chunk_views, chunking, delimiter_of, lemma_chunk_end_bounds,
    lemma_scan_stop_bounds, ranges_from, slices_of, target_size, tiles,
};
use vstd::prelude::*;

verus! {

/// The nominal chunk length is the least length of which `count` chunks hold
/// `len` bytes.
pub proof fn lemma_target_size_is_ceiling(len: nat, count: nat)
    requires
        count > 0,
    ensures
        len <= count * target_size(len, count),
        len > 0 ==> count * (target_size(len, count) - 1) < len,
        len > 0 ==> 0 < target_size(len, count) <= len,
        len == 0 ==> target_size(len, count) == 0,
{
    let q = len / count;
    let r = len % count;
    assert(len == count * q + r && 0 <= r < count) by (nonlinear_arith)
        requires
            count > 0,
            q == len / count,
            r == len % count,
    ;
    assert(count * (q + 1) == count * q + count) by (nonlinear_arith);
    assert(count * (q - 1) == count * q - count) by (nonlinear_arith);
    if len > 0 && r == 0 {
        assert(q > 0) by (nonlinear_arith)
            requires
                len == count * q,
                len > 0,
                count > 0,
        ;
    }
    assert(q <= len) by (nonlinear_arith)
        requires
            len == count * q + r,
            0 <= r,
            count > 0,
            q >= 0,
    ;
    if r != 0 {
        if q == len {
            assert(count * q >= q) by (nonlinear_arith)
                requires
                    count > 0,
                    q >= 0,
            ;
        }
    }
}

/// From any offset on, the ranges tile what is left of the data.
pub proof fn lemma_ranges_tile(data: Seq<u8>, offset: int, size: int, delimiter: Option<u8>)
    requires
        0 <= offset <= data.len(),
        size > 0,
    ensures
        tiles(ranges_from(data, offset, size, delimiter), offset, data.len() as int),
    decreases data.len() - offset,
{
    if offset < data.len() {
        let end = chunk_end(data, offset, size, delimiter);
        lemma_chunk_end_bounds(data, offset, size, delimiter);
        lemma_ranges_tile(data, end, size, delimiter);
        let rest = ranges_from(data, end, size, delimiter);
        let all = ranges_from(data, offset, size, delimiter);
        assert(all == seq![(offset, end)] + rest);
        assert forall|i: int| 0 < i < all.len() implies #[trigger] all[i] == rest[i - 1] by {}
    }
}

/// From any offset on, the chunks put end to end are what is left of the
/// data.
pub proof fn lemma_ranges_cover(data: Seq<u8>, offset: int, size: int, delimiter: Option<u8>)
    requires
        0 <= offset <= data.len(),
        size > 0,
    ensures
        slices_of(data, ranges_from(data, offset, size, delimiter)).flatten() == data.subrange(
            offset,
            data.len() as int,
        ),
    decreases data.len() - offset,
{
    let all = ranges_from(data, offset, size, delimiter);
    if offset < data.len() {
        let end = chunk_end(data, offset, size, delimiter);
        lemma_chunk_end_bounds(data, offset, size, delimiter);
        lemma_ranges_cover(data, end, size, delimiter);
        let rest = ranges_from(data, end, size, delimiter);
        assert(slices_of(data, all).drop_first() =~= slices_of(data, rest));
    }
}

/// With a delimiter, every chunk that stops short of the end of the data ends
/// with the delimiter, and no chunk holds the delimiter between its nominal
/// end and its last byte.
pub proof fn lemma_ranges_end_on_delimiter(data: Seq<u8>, offset: int, size: int, d: u8)
    requires
        0 <= offset <= data.len(),
        size > 0,
    ensures
        forall|i: int|
            #![trigger ranges_from(data, offset, size, Some(d))[i]]
            0 <= i < ranges_from(data, offset, size, Some(d)).len() && ranges_from(
                data,
                offset,
                size,
                Some(d),
            )[i].1 < data.len() ==> data[ranges_from(data, offset, size, Some(d))[i].1 - 1] == d,
        forall|i: int, j: int|
            #![trigger ranges_from(data, offset, size, Some(d))[i], data[j]]
            0 <= i < ranges_from(data, offset, size, Some(d)).len() && ranges_from(
                data,
                offset,
                size,
                Some(d),
            )[i].0 + size <= j < ranges_from(data, offset, size, Some(d))[i].1 - 1 ==> data[j] != d,
    decreases data.len() - offset,
{
    if offset < data.len() {
        let end = chunk_end(data, offset, size, Some(d));
        lemma_chunk_end_bounds(data, offset, size, Some(d));
        lemma_ranges_end_on_delimiter(data, end, size, d);
        if offset + size < data.len() {
            lemma_scan_stop_bounds(data, offset + size, d);
        }
        let rest = ranges_from(data, end, size, Some(d));
        let all = ranges_from(data, offset, size, Some(d));
        assert(all == seq![(offset, end)] + rest);
        assert forall|i: int| 0 < i < all.len() implies #[trigger] all[i] == rest[i - 1] by {}
    }
}

/// Every chunk that stops short of the end of the data has the nominal length
/// if there is no delimiter, and more than that if there is one; without a
/// delimiter no chunk is longer than the nominal length.
pub proof fn lemma_ranges_lengths(data: Seq<u8>, offset: int, size: int, delimiter: Option<u8>)
    requires
        0 <= offset <= data.len(),
        size > 0,
    ensures
        forall|i: int|
            #![trigger ranges_from(data, offset, size, delimiter)[i]]
            0 <= i < ranges_from(data, offset, size, delimiter).len() ==> {
                let range = ranges_from(data, offset, size, delimiter)[i];
                &&& delimiter is None ==> range.1 - range.0 <= size
                &&& delimiter is None && range.1 < data.len() ==> range.1 - range.0 == size
                &&& delimiter is Some && range.1 < data.len() ==> range.1 - range.0 > size
            },
    decreases data.len() - offset,
{
    if offset < data.len() {
        let end = chunk_end(data, offset, size, delimiter);
        lemma_chunk_end_bounds(data, offset, size, delimiter);
        lemma_ranges_lengths(data, end, size, delimiter);
        if offset + size < data.len() {
            if let Some(d) = delimiter {
                lemma_scan_stop_bounds(data, offset + size, d);
            }
        }
        let rest = ranges_from(data, end, size, delimiter);
        let all = ranges_from(data, offset, size, delimiter);
        assert(all == seq![(offset, end)] + rest);
        assert forall|i: int| 0 < i < all.len() implies #[trigger] all[i] == rest[i - 1] by {}
    }
}

/// If `k` chunks of the nominal length hold what is left of the data, there
/// are at most `k` chunks from there on.
pub proof fn lemma_ranges_len_at_most(
    data: Seq<u8>,
    offset: int,
    size: int,
    delimiter: Option<u8>,
    k: int,
)
    requires
        0 <= offset <= data.len(),
        size > 0,
        k >= 0,
        data.len() - offset <= k * size,
    ensures
        ranges_from(data, offset, size, delimiter).len() <= k,
    decreases data.len() - offset,
{
    if offset < data.len() {
        let end = chunk_end(data, offset, size, delimiter);
        lemma_chunk_end_bounds(data, offset, size, delimiter);
        assert(k >= 1 && (k - 1) * size == k * size - size) by (nonlinear_arith)
            requires
                k >= 0,
                size > 0,
                k * size > 0,
        ;
        lemma_ranges_len_at_most(data, end, size, delimiter, k - 1);
    }
}

/// Without a delimiter there are exactly as many chunks from an offset on as
/// it takes chunks of the nominal length to hold what is left of the data.
pub proof fn lemma_ranges_len_exact(data: Seq<u8>, offset: int, size: int, k: int)
    requires
        0 <= offset <= data.len(),
        size > 0,
        k >= 0,
        (k - 1) * size < data.len() - offset <= k * size,
    ensures
        ranges_from(data, offset, size, None).len() == k,
    decreases data.len() - offset,
{
    let left = data.len() - offset;
    if offset < data.len() {
        let end = chunk_end(data, offset, size, None);
        assert(k >= 1 && (k - 1) * size == k * size - size && (k - 2) * size == k * size - 2 * size)
            by (nonlinear_arith)
            requires
                k >= 0,
                size > 0,
                k * size > 0,
        ;
        if offset + size >= data.len() {
            assert(k == 1) by (nonlinear_arith)
                requires
                    k >= 1,
                    size > 0,
                    (k - 1) * size < left <= size,
            ;
            assert(ranges_from(data, end, size, None).len() == 0);
        } else {
            assert(k >= 2) by (nonlinear_arith)
                requires
                    k >= 1,
                    size > 0,
                    size < left <= k * size,
            ;
            lemma_ranges_len_exact(data, end, size, k - 1);
        }
    } else {
        assert(k == 0) by (nonlinear_arith)
            requires
                k >= 0,
                size > 0,
                (k - 1) * size < 0,
        ;
    }
}

/// Coverage: the chunks are not empty, lie in ascending order without a gap
/// or an overlap, and put end to end they are the data, byte for byte.
pub proof fn lemma_coverage(data: Seq<u8>, count: nat, delimiter: Option<u8>)
    requires
        count > 0,
    ensures
        tiles(chunk_ranges(data, count, delimiter), 0, data.len() as int),
        chunking(data, count, delimiter).flatten() == data,
        chunking(data, count, delimiter).len() == 0 <==> data.len() == 0,
        forall|i: int|
            0 <= i < chunking(data, count, delimiter).len() ==> (#[trigger] chunking(
                data,
                count,
                delimiter,
            )[i]).len() > 0,
{
    lemma_target_size_is_ceiling(data.len(), count);
    let size = target_size(data.len(), count) as int;
    if data.len() > 0 {
        lemma_ranges_tile(data, 0, size, delimiter);
        lemma_ranges_cover(data, 0, size, delimiter);
        assert(data.subrange(0, data.len() as int) =~= data);
    }
}

/// Count bound: there are never more chunks than were asked for, and none
/// for empty data. Without a delimiter there are as many as it takes chunks
/// of the nominal length to hold the data, which is the number asked for
/// exactly when one chunk fewer of that length would not hold the data.
pub proof fn lemma_count_bound(data: Seq<u8>, count: nat, delimiter: Option<u8>)
    requires
        count > 0,
    ensures
        chunking(data, count, delimiter).len() <= count,
        data.len() == 0 ==> chunking(data, count, delimiter).len() == 0,
        delimiter is None && data.len() > 0 ==> chunking(data, count, delimiter).len()
            == target_size(data.len(), target_size(data.len(), count)),
        delimiter is None && data.len() > 0 ==> (chunking(data, count, delimiter).len() == count
            <==> (count - 1) * target_size(data.len(), count) < data.len()),
{
    lemma_target_size_is_ceiling(data.len(), count);
    let len = data.len() as int;
    let size = target_size(data.len(), count) as int;
    if len > 0 {
        lemma_ranges_len_at_most(data, 0, size, delimiter, count as int);
        if delimiter is None {
            let k = target_size(data.len(), size as nat) as int;
            lemma_target_size_is_ceiling(data.len(), size as nat);
            lemma_ranges_len_exact(data, 0, size, k);
            if (count - 1) * size < len {
                assert(k == count) by (nonlinear_arith)
                    requires
                        size > 0,
                        k >= 0,
                        (count - 1) * size < len <= count * size,
                        (k - 1) * size < len <= k * size,
                ;
            }
        }
    }
}

/// Delimiter alignment: with a delimiter, every chunk but the last ends with
/// the delimiter, and it is the first one at or behind the chunk's nominal
/// length: no chunk holds the delimiter between there and its last byte.
pub proof fn lemma_delimiter_alignment(data: Seq<u8>, count: nat, d: u8)
    requires
        count > 0,
    ensures
        forall|i: int|
            0 <= i < chunking(data, count, Some(d)).len() - 1 ==> (#[trigger] chunking(
                data,
                count,
                Some(d),
            )[i]).last() == d,
        forall|i: int, j: int|
            0 <= i < chunking(data, count, Some(d)).len() && target_size(data.len(), count) <= j
                < chunking(data, count, Some(d))[i].len() - 1 ==> (#[trigger] chunking(
                data,
                count,
                Some(d),
            )[i][j]) != d,
{
    lemma_target_size_is_ceiling(data.len(), count);
    let size = target_size(data.len(), count) as int;
    let ranges = chunk_ranges(data, count, Some(d));
    let chunks = chunking(data, count, Some(d));
    if data.len() > 0 {
        lemma_ranges_tile(data, 0, size, Some(d));
        lemma_ranges_end_on_delimiter(data, 0, size, d);
        assert forall|i: int| 0 <= i < chunks.len() - 1 implies (#[trigger] chunks[i]).last() == d by {
            assert(ranges[i].1 == ranges[i + 1].0 < data.len());
            assert(chunks[i].last() == data[ranges[i].1 - 1]);
        }
        assert forall|i: int, j: int|
            0 <= i < chunks.len() && size <= j < chunks[i].len() - 1 implies (#[trigger] chunks[i][j])
            != d by {
            assert(chunks[i][j] == data[ranges[i].0 + j]);
        }
    }
}

/// Chunk lengths: without a delimiter every chunk but the last has the
/// nominal length and the last is no longer; with a delimiter every chunk but
/// the last is longer than the nominal length.
pub proof fn lemma_chunk_lengths(data: Seq<u8>, count: nat, delimiter: Option<u8>)
    requires
        count > 0,
    ensures
        forall|i: int|
            0 <= i < chunking(data, count, delimiter).len() ==> {
                let chunk = #[trigger] chunking(data, count, delimiter)[i];
                let last = i == chunking(data, count, delimiter).len() - 1;
                &&& delimiter is None ==> chunk.len() <= target_size(data.len(), count)
                &&& delimiter is None && !last ==> chunk.len() == target_size(data.len(), count)
                &&& delimiter is Some && !last ==> chunk.len() > target_size(data.len(), count)
            },
{
    lemma_target_size_is_ceiling(data.len(), count);
    let size = target_size(data.len(), count) as int;
    let chunks = chunking(data, count, delimiter);
    if data.len() > 0 {
        lemma_ranges_tile(data, 0, size, delimiter);
        lemma_ranges_lengths(data, 0, size, delimiter);
        assert forall|i: int| 0 <= i < chunks.len() implies {
            let chunk = #[trigger] chunks[i];
            let last = i == chunks.len() - 1;
            &&& delimiter is None ==> chunk.len() <= size
            &&& delimiter is None && !last ==> chunk.len() == size
            &&& delimiter is Some && !last ==> chunk.len() > size
        } by {
            let ranges = chunk_ranges(data, count, delimiter);
            assert(chunks[i].len() == ranges[i].1 - ranges[i].0);
            if i < chunks.len() - 1 {
                assert(ranges[i].1 == ranges[i + 1].0 < data.len());
            }
        }
    }
}

/// Repeatability: two answers to the same request on the same data are the
/// same, chunk for chunk and byte for byte.
pub proof fn lemma_same_request_same_chunks(
    data: Seq<u8>,
    count: nat,
    delimiter: Option<char>,
    first: Seq<&[u8]>,
    second: Seq<&[u8]>,
)
    requires
        chunk_views(first) == chunking(data, count, delimiter_of(delimiter)),
        chunk_views(second) == chunking(data, count, delimiter_of(delimiter)),
    ensures
        first.len() == second.len(),
        forall|i: int| 0 <= i < first.len() ==> (#[trigger] first[i])@ == second[i]@,
{
    assert(chunk_views(first).len() == first.len());
    assert(chunk_views(second).len() == second.len());
    assert forall|i: int| 0 <= i < first.len() implies (#[trigger] first[i])@ == second[i]@ by {
        assert(chunk_views(first)[i] == first[i]@);
        assert(chunk_views(second)[i] == second[i]@);
    }
}

} // verus!
