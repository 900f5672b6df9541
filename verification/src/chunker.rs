//! Chunking a memory-mapped file.

use crate::model::{chunk_views, chunking, delimiter_byte, delimiter_of};
use crate::split::{split_chunks, ChunkError};
use memmap2::Mmap;
use std::ops::Deref;
use vstd::prelude::*;

verus! {

/// `memmap2::Mmap`, a read-only memory map, taken as an opaque value.
#[verifier::external_type_specification]
#[verifier::external_body]
pub struct ExMmap(memmap2::Mmap);

/// The bytes that a memory map holds, first to last.
///
/// A map is made under the promise that the mapped file is left alone for as
/// long as the map lives, so a map has the same bytes whenever it is read.
pub uninterp spec fn mapped_bytes(map: Mmap) -> Seq<u8>;

/// Borrows the whole of a memory map as a byte slice, through the `deref` of
/// `memmap2::Mmap`, which builds the slice from the map's pointer and length.
/// The contract claims only that this slice is what the map holds.
#[verifier::external_body]
fn mapped_slice(map: &Mmap) -> (bytes: &[u8])
    ensures
        bytes@ == mapped_bytes(*map),
{
    map.deref()
}

/// Cuts a memory-mapped file into chunks that can be read independently.
///
/// The chunker owns the map; the chunks it hands out borrow from it and are
/// never copies.
pub struct FileChunker {
    mmap: Mmap,
}

impl View for FileChunker {
    type V = Seq<u8>;

    /// The contents of the mapped file.
    closed spec fn view(&self) -> Seq<u8> {
        mapped_bytes(self.mmap)
    }
}

impl FileChunker {
    /// Makes a chunker over the contents of `mmap`.
    pub fn new(mmap: Mmap) -> (chunker: FileChunker)
        ensures
            chunker@ == mapped_bytes(mmap),
    {
        FileChunker { mmap }
    }

    /// Divides the file into at most `count` chunks of about the same length
    /// and returns them in order, each a view into the map.
    ///
    /// With a delimiter, every cut is moved forward to just behind the next
    /// occurrence of the delimiter's byte, so that each chunk but the last
    /// ends with the delimiter; where none follows, the rest of the file joins
    /// the current chunk. Without one, every chunk but the last has the same
    /// length. An empty file has no chunks. A request for zero chunks is
    /// refused.
    pub fn chunks(&self, count: usize, delimiter: Option<char>) -> (result: Result<
        Vec<&[u8]>,
        ChunkError,
    >)
        ensures
            count == 0 <==> result == Err::<Vec<&[u8]>, ChunkError>(ChunkError::InvalidArgument),
            count > 0 ==> result is Ok && chunk_views(result.unwrap()@) == chunking(
                self@,
                count as nat,
                delimiter_of(delimiter),
            ),
            result matches Ok(chunks) ==> {
                &&& chunk_views(chunks@).flatten() == self@
                &&& chunks@.len() <= count
                &&& chunks@.len() == 0 <==> self@.len() == 0
                &&& forall|i: int| 0 <= i < chunks@.len() ==> (#[trigger] chunks@[i])@.len() > 0
                &&& forall|i: int|
                    delimiter is Some && 0 <= i < chunks@.len() - 1 ==> (
                    #[trigger] chunks@[i])@.last() == delimiter_byte(delimiter.unwrap())
            },
    {
        split_chunks(mapped_slice(&self.mmap), count, delimiter)
    }
}

} // verus!
