use file_chunker::split::{delimiter_to_byte, next_boundary, split_chunks};
use file_chunker::{chunk_size, ChunkError, FileChunker};
use memmap2::MmapMut;

fn mapped(contents: &[u8]) -> FileChunker {
    let mut map = MmapMut::map_anon(contents.len()).unwrap();
    map.copy_from_slice(contents);
    FileChunker::new(map.make_read_only().unwrap())
}

fn strings(chunks: &[&[u8]]) -> Vec<String> {
    chunks
        .iter()
        .map(|c| String::from_utf8_lossy(c).into_owned())
        .collect()
}

#[test]
fn chunk_size_rounds_up() {
    assert_eq!(chunk_size(10, 2), 5);
    assert_eq!(chunk_size(10, 3), 4);
    assert_eq!(chunk_size(10, 4), 3);
    assert_eq!(chunk_size(10, 6), 2);
    assert_eq!(chunk_size(10, 10), 1);
    assert_eq!(chunk_size(10, 11), 1);
    assert_eq!(chunk_size(14, 2), 7);
    assert_eq!(chunk_size(1, 2), 1);
}

#[test]
fn chunk_size_of_nothing_is_zero() {
    assert_eq!(chunk_size(0, 1), 0);
    assert_eq!(chunk_size(0, 7), 0);
}

#[test]
fn chunk_size_at_the_machine_limit() {
    assert_eq!(chunk_size(usize::MAX, 1), usize::MAX);
    assert_eq!(chunk_size(usize::MAX, 2), usize::MAX / 2 + 1);
    assert_eq!(chunk_size(usize::MAX, usize::MAX), 1);
    assert_eq!(chunk_size(usize::MAX - 1, usize::MAX), 1);
}

#[test]
fn delimiter_keeps_the_low_byte() {
    assert_eq!(delimiter_to_byte('\n'), 10);
    assert_eq!(delimiter_to_byte('a'), 97);
    assert_eq!(delimiter_to_byte('\u{ff}'), 255);
    assert_eq!(delimiter_to_byte('\u{100}'), 0);
    assert_eq!(delimiter_to_byte('\u{20ac}'), 0xac);
}

#[test]
fn next_boundary_without_delimiter() {
    let data = b"0123456789";
    assert_eq!(next_boundary(data, 0, 3, None), 3);
    assert_eq!(next_boundary(data, 3, 3, None), 6);
    assert_eq!(next_boundary(data, 6, 3, None), 9);
    assert_eq!(next_boundary(data, 9, 3, None), 10);
    assert_eq!(next_boundary(data, 7, 3, None), 10);
    assert_eq!(next_boundary(data, 0, usize::MAX, None), 10);
}

#[test]
fn next_boundary_stops_behind_the_delimiter() {
    let data = b"01\n23\n45\n67\n89";
    assert_eq!(next_boundary(data, 0, 7, Some(b'\n')), 9);
    assert_eq!(next_boundary(data, 0, 2, Some(b'\n')), 3);
    assert_eq!(next_boundary(data, 0, 1, Some(b'\n')), 3);
    assert_eq!(next_boundary(data, 9, 7, Some(b'\n')), 14);
    assert_eq!(next_boundary(data, 9, 3, Some(b'\n')), 14);
    assert_eq!(next_boundary(data, 0, 3, Some(b'x')), 14);
}

#[test]
fn next_boundary_on_a_single_byte() {
    assert_eq!(next_boundary(b"\n", 0, 1, Some(b'\n')), 1);
    assert_eq!(next_boundary(b"a", 0, 1, Some(b'\n')), 1);
    assert_eq!(next_boundary(b"a", 0, 1, None), 1);
}

#[test]
fn split_two_chunks_at_newlines() {
    let chunks = split_chunks(b"01\n23\n45\n67\n89", 2, Some('\n')).unwrap();
    assert_eq!(strings(&chunks), vec!["01\n23\n45\n", "67\n89"]);
}

#[test]
fn split_ten_single_bytes() {
    let chunks = split_chunks(b"0123456789", 10, None).unwrap();
    assert_eq!(
        strings(&chunks),
        vec!["0", "1", "2", "3", "4", "5", "6", "7", "8", "9"]
    );
}

#[test]
fn split_nothing_gives_no_chunks() {
    assert_eq!(split_chunks(b"", 2, Some('\n')).unwrap().len(), 0);
    assert_eq!(split_chunks(b"", 2, None).unwrap().len(), 0);
    assert_eq!(split_chunks(b"", 1, None).unwrap().len(), 0);
}

#[test]
fn split_with_delimiter_at_both_ends() {
    let chunks = split_chunks(b"\n01\n23\n45\n67\n89\n", 2, Some('\n')).unwrap();
    assert_eq!(strings(&chunks), vec!["\n01\n23\n45\n", "67\n89\n"]);
}

#[test]
fn split_with_absent_delimiter_gives_one_chunk() {
    let chunks = split_chunks(b"0123456789", 10, Some('\n')).unwrap();
    assert_eq!(strings(&chunks), vec!["0123456789"]);
}

#[test]
fn split_ten_newlines_in_two() {
    let chunks = split_chunks(b"\n\n\n\n\n\n\n\n\n\n", 2, Some('\n')).unwrap();
    assert_eq!(strings(&chunks), vec!["\n\n\n\n\n\n", "\n\n\n\n"]);
}

#[test]
fn split_ends_when_the_nominal_end_meets_the_end_of_data() {
    let chunks = split_chunks(b"abc\nef", 3, Some('\n')).unwrap();
    assert_eq!(strings(&chunks), vec!["abc\n", "ef"]);
    let chunks = split_chunks(b"abcdef", 3, None).unwrap();
    assert_eq!(strings(&chunks), vec!["ab", "cd", "ef"]);
}

#[test]
fn split_a_single_byte() {
    assert_eq!(strings(&split_chunks(b"\n", 1, Some('\n')).unwrap()), vec!["\n"]);
    assert_eq!(strings(&split_chunks(b"\n", 3, Some('\n')).unwrap()), vec!["\n"]);
    assert_eq!(strings(&split_chunks(b"a", 3, Some('\n')).unwrap()), vec!["a"]);
    assert_eq!(strings(&split_chunks(b"a", 3, None).unwrap()), vec!["a"]);
}

#[test]
fn split_folds_a_trailing_partial_record_into_the_last_chunk() {
    let chunks = split_chunks(b"aa\nbb\ncc", 4, Some('\n')).unwrap();
    assert_eq!(strings(&chunks), vec!["aa\n", "bb\n", "cc"]);
    let chunks = split_chunks(b"aa\nbbbbbb", 3, Some('\n')).unwrap();
    assert_eq!(strings(&chunks), vec!["aa\nbbbbbb"]);
}

#[test]
fn split_with_a_wide_delimiter_compares_its_low_byte() {
    let chunks = split_chunks(b"ab\x00cd\x00ef", 4, Some('\u{100}')).unwrap();
    assert_eq!(strings(&chunks), vec!["ab\0", "cd\0", "ef"]);
}

#[test]
fn split_may_give_fewer_chunks_than_asked_for() {
    assert_eq!(split_chunks(b"0123456789", 6, None).unwrap().len(), 5);
    assert_eq!(split_chunks(b"0123456789", 7, None).unwrap().len(), 5);
    assert_eq!(split_chunks(b"0123456789", 100, None).unwrap().len(), 10);
    assert_eq!(split_chunks(b"a", 2, None).unwrap().len(), 1);
}

#[test]
fn split_without_delimiter_gives_equal_lengths_but_for_the_last() {
    let chunks = split_chunks(b"0123456789", 4, None).unwrap();
    assert_eq!(strings(&chunks), vec!["012", "345", "678", "9"]);
    let chunks = split_chunks(b"0123456789", 3, None).unwrap();
    assert_eq!(strings(&chunks), vec!["0123", "4567", "89"]);
    let chunks = split_chunks(b"0123456789", 1, None).unwrap();
    assert_eq!(strings(&chunks), vec!["0123456789"]);
}

#[test]
fn zero_chunks_are_refused() {
    assert_eq!(
        split_chunks(b"0123456789", 0, None),
        Err(ChunkError::InvalidArgument)
    );
    assert_eq!(
        split_chunks(b"0123456789", 0, Some('\n')),
        Err(ChunkError::InvalidArgument)
    );
    assert_eq!(split_chunks(b"", 0, None), Err(ChunkError::InvalidArgument));
}

#[test]
fn zero_chunks_of_a_map_are_refused() {
    let chunker = mapped(b"01\n23\n");
    assert_eq!(chunker.chunks(0, None), Err(ChunkError::InvalidArgument));
    assert_eq!(
        chunker.chunks(0, Some('\n')),
        Err(ChunkError::InvalidArgument)
    );
    assert_eq!(mapped(b"").chunks(0, None), Err(ChunkError::InvalidArgument));
}

#[test]
fn chunks_put_end_to_end_are_the_data() {
    let data = b"one\ntwo\nthree\nfour\nfive\nsix\nseven";
    for count in 1..40 {
        for delimiter in [None, Some('\n'), Some('e'), Some('x')] {
            let chunks = split_chunks(data, count, delimiter).unwrap();
            assert_eq!(chunks.concat(), data.to_vec());
            assert!(chunks.iter().all(|c| !c.is_empty()));
            let mut offset = 0;
            for chunk in &chunks {
                assert_eq!(*chunk, &data[offset..offset + chunk.len()]);
                offset += chunk.len();
            }
            assert_eq!(offset, data.len());
        }
    }
}

#[test]
fn chunks_never_outnumber_the_request() {
    let data = b"one\ntwo\nthree\nfour\nfive\nsix\nseven";
    for count in 1..40 {
        for delimiter in [None, Some('\n'), Some('e'), Some('x')] {
            let chunks = split_chunks(data, count, delimiter).unwrap();
            assert!(chunks.len() <= count);
            assert!(chunks.len() >= 1);
        }
        let size = chunk_size(data.len(), count);
        let plain = split_chunks(data, count, None).unwrap();
        assert_eq!(plain.len(), chunk_size(data.len(), size));
        assert_eq!(plain.len() == count, (count - 1) * size < data.len());
    }
}

#[test]
fn chunks_but_the_last_end_with_the_delimiter() {
    let data = b"one\ntwo\nthree\nfour\nfive\nsix\nseven";
    for count in 1..40 {
        for delimiter in ['\n', 'e', 'o', 'x'] {
            let chunks = split_chunks(data, count, Some(delimiter)).unwrap();
            for chunk in &chunks[..chunks.len() - 1] {
                assert_eq!(*chunk.last().unwrap(), delimiter as u8);
            }
        }
    }
}

#[test]
fn chunking_twice_gives_the_same_chunks() {
    let data = b"one\ntwo\nthree\nfour\nfive\nsix\nseven";
    let chunker = mapped(data);
    for count in 1..12 {
        for delimiter in [None, Some('\n')] {
            let first = chunker.chunks(count, delimiter).unwrap();
            let second = chunker.chunks(count, delimiter).unwrap();
            assert_eq!(first, second);
            assert_eq!(first, split_chunks(data, count, delimiter).unwrap());
        }
    }
}

#[test]
fn chunks_of_a_map_are_views_into_it() {
    let chunker = mapped(b"ab\ncd\nef\n");
    let chunks = chunker.chunks(9, Some('\n')).unwrap();
    assert_eq!(strings(&chunks), vec!["ab\n", "cd\n", "ef\n"]);
    let chunks = chunker.chunks(3, Some('\n')).unwrap();
    assert_eq!(strings(&chunks), vec!["ab\ncd\n", "ef\n"]);
    let chunks = chunker.chunks(3, None).unwrap();
    assert_eq!(strings(&chunks), vec!["ab\n", "cd\n", "ef\n"]);
    let first = chunks[0].as_ptr() as usize;
    assert_eq!(chunks[1].as_ptr() as usize, first + 3);
    assert_eq!(chunks[2].as_ptr() as usize, first + 6);
}

#[test]
fn chunks_but_the_last_have_the_nominal_length_without_delimiter() {
    let data = b"one\ntwo\nthree\nfour\nfive\nsix\nseven";
    for count in 1..40 {
        let size = chunk_size(data.len(), count);
        let chunks = split_chunks(data, count, None).unwrap();
        let (last, others) = chunks.split_last().unwrap();
        assert!(others.iter().all(|c| c.len() == size));
        assert!(last.len() <= size);
    }
}

#[test]
fn chunks_are_cut_behind_the_first_delimiter_past_the_nominal_length() {
    let data = b"one\ntwo\nthree\nfour\nfive\nsix\nseven";
    for count in 1..40 {
        let size = chunk_size(data.len(), count);
        for delimiter in [b'\n', b'e', b'o', b'x'] {
            let chunks = split_chunks(data, count, Some(delimiter as char)).unwrap();
            let (_, others) = chunks.split_last().unwrap();
            assert!(others.iter().all(|c| c.len() > size));
            for chunk in &chunks {
                if chunk.len() > size {
                    assert!(!chunk[size..chunk.len() - 1].contains(&delimiter));
                }
            }
        }
    }
}
