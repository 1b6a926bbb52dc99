use sparse::posting_format::{decode_postings, encode_postings, PostingBlockError};
use sparse::posting_list::PostingList;

#[test]
fn posting_block_is_little_endian() {
    let mut list = PostingList::new();
    list.insert_or_replace(0x0102_0304, 1.0f32.to_bits());
    let bytes = encode_postings(&list);
    assert_eq!(bytes, vec![0x04, 0x03, 0x02, 0x01, 0x00, 0x00, 0x80, 0x3f]);
}

#[test]
fn posting_block_round_trip() {
    let mut list = PostingList::new();
    for (id, w) in [(9u32, 0.5f32), (3, 2.5), (300, -1.0), (70000, 4.0)] {
        list.insert_or_replace(id, w.to_bits());
    }
    let back = decode_postings(&encode_postings(&list)).unwrap();
    assert_eq!(back.elements(), list.elements());
    assert_eq!(back.max_weight(), list.max_weight());
    assert_eq!(f32::from_bits(back.max_weight()), 4.0);
}

#[test]
fn corrupt_posting_blocks() {
    assert_eq!(decode_postings(&vec![]).unwrap_err(), PostingBlockError::Empty);
    assert_eq!(decode_postings(&vec![1, 2, 3]).unwrap_err(), PostingBlockError::Truncated);
    let unsorted = vec![2, 0, 0, 0, 0, 0, 128, 63, 1, 0, 0, 0, 0, 0, 128, 63];
    assert_eq!(decode_postings(&unsorted).unwrap_err(), PostingBlockError::NotSorted);
    let repeated = vec![1, 0, 0, 0, 0, 0, 128, 63, 1, 0, 0, 0, 0, 0, 0, 64];
    assert_eq!(decode_postings(&repeated).unwrap_err(), PostingBlockError::NotSorted);
}

use sparse::index_format::{decode_index, encode_index};
use sparse::inverted_index::InvertedIndexRam;
use sparse::sparse_index::{CorruptReason, SparseIndexError};
use sparse::sparse_vector::SparseVector;

fn small_index() -> InvertedIndexRam {
    let mut index = InvertedIndexRam::empty();
    let v = |pairs: &[(u32, f32)]| {
        SparseVector::new(pairs.iter().map(|p| p.0).collect(), pairs.iter().map(|p| p.1.to_bits()).collect())
            .unwrap()
    };
    index.upsert(1, v(&[(1, 1.0), (2, 2.0), (3, 3.0)]));
    index.upsert(2, v(&[(2, 2.0), (3, 3.0), (4, 4.0)]));
    index
}

fn lists(index: &InvertedIndexRam, dim: u32) -> Option<Vec<(u32, u32)>> {
    index.get(dim).map(|l| l.elements().iter().map(|e| (e.record_id, e.weight)).collect())
}

#[test]
fn index_files_round_trip() {
    let index = small_index();
    let files = encode_index(&index);
    assert_eq!(files.header.len(), 20);
    assert_eq!(files.offsets.len(), 20 * 4);
    assert_eq!(files.postings.len(), 8 * 6);
    let back = decode_index(&files.header, &files.offsets, &files.postings).unwrap();
    for d in 0..6u32 {
        assert_eq!(lists(&back, d), lists(&index, d));
    }
}

#[test]
fn corrupt_index_files() {
    let files = encode_index(&small_index());
    let corrupt = |h: &Vec<u8>, o: &Vec<u8>, p: &Vec<u8>| match decode_index(h, o, p) {
        Err(SparseIndexError::IndexCorrupt(reason)) => reason,
        other => panic!("expected corruption, got {other:?}"),
    };
    let mut bad_magic = files.header.clone();
    bad_magic[0] ^= 0xff;
    assert_eq!(corrupt(&bad_magic, &files.offsets, &files.postings), CorruptReason::BadMagic);
    let mut bad_version = files.header.clone();
    bad_version[4] = 9;
    assert_eq!(corrupt(&bad_version, &files.offsets, &files.postings), CorruptReason::BadVersion);
    assert_eq!(corrupt(&files.header[..10].to_vec(), &files.offsets, &files.postings), CorruptReason::Truncated);
    let short = files.postings[..40].to_vec();
    assert_eq!(corrupt(&files.header, &files.offsets, &short), CorruptReason::Truncated);
    let mut far = files.offsets.clone();
    far[4] = 200;
    assert_eq!(corrupt(&files.header, &far, &files.postings), CorruptReason::OffsetOutOfRange);
    let mut twice = files.offsets.clone();
    let first_dim = twice[0];
    twice[20] = first_dim;
    twice[21] = 0;
    twice[22] = 0;
    twice[23] = 0;
    assert_eq!(corrupt(&files.header, &twice, &files.postings), CorruptReason::DuplicateDimension);
}
