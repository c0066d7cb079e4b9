use sdat2img::builder::{build_image, BLOCK_SIZE};
use sdat2img::transfer_list::{ByteSegments, Command, TransferList};

fn block(fill: u8) -> Vec<u8> {
    vec![fill; BLOCK_SIZE]
}

fn blocks(fills: &[u8]) -> Vec<u8> {
    let mut out = Vec::new();
    for &f in fills {
        out.extend_from_slice(&block(f));
    }
    out
}

#[test]
fn s1_minimal_v1_copies_whole_input() {
    let tl = TransferList::parse(b"1\n4\nnew 2,0,4\n").unwrap();
    let mut input = blocks(&[0, 0, 0, 0]);
    input[2 * BLOCK_SIZE] = 0xAB;
    input[2 * BLOCK_SIZE + 17] = 0xCD;
    let img = build_image(&tl, &input).unwrap();
    assert_eq!(img.len(), 16384);
    assert_eq!(img, input);
}

#[test]
fn s2_v2_header_skip_places_blocks() {
    let tl = TransferList::parse(b"2\n8\n0\n0\nnew 4,0,2,6,8\n").unwrap();
    let input = blocks(&[b'A', b'B', b'C', b'D']);
    let img = build_image(&tl, &input).unwrap();
    assert_eq!(img.len(), 32768);
    assert_eq!(&img[0..BLOCK_SIZE], &block(b'A')[..]);
    assert_eq!(&img[BLOCK_SIZE..2 * BLOCK_SIZE], &block(b'B')[..]);
    assert!(img[2 * BLOCK_SIZE..6 * BLOCK_SIZE].iter().all(|&b| b == 0));
    assert_eq!(&img[6 * BLOCK_SIZE..7 * BLOCK_SIZE], &block(b'C')[..]);
    assert_eq!(&img[7 * BLOCK_SIZE..8 * BLOCK_SIZE], &block(b'D')[..]);
}

#[test]
fn s3_erase_records_are_ignored() {
    let tl = TransferList::parse(b"2\n4\n0\n0\nerase 2,0,4\nnew 2,0,4\n").unwrap();
    let input = blocks(&[0x5A, 0x5A, 0x5A, 0x5A]);
    let img = build_image(&tl, &input).unwrap();
    assert_eq!(img.len(), 16384);
    assert_eq!(img, input);
}

#[test]
fn s6_truncated_input_fails() {
    let tl = TransferList::parse(b"1\n4\nnew 2,0,4\n").unwrap();
    let input = blocks(&[1, 2, 3]);
    let r = build_image(&tl, &input);
    assert!(r.is_err());
    let e = r.err().unwrap();
    assert_eq!(e.message(), "Truncated input stream");
    assert!(e.fragment().is_empty());
}

#[test]
fn output_size_is_max_end_blocks() {
    let tl = TransferList::parse(b"1\n8\nnew 2,0,2\nzero 2,6,8\n").unwrap();
    assert_eq!(tl.max(), 8);
    let input = blocks(&[9, 9]);
    let img = build_image(&tl, &input).unwrap();
    assert_eq!(img.len(), 8 * 4096);
}

#[test]
fn uncovered_bytes_are_zero() {
    let tl = TransferList::parse(b"1\n8\nnew 2,1,2\nzero 2,6,8\n").unwrap();
    let input = blocks(&[0xFF]);
    let img = build_image(&tl, &input).unwrap();
    assert!(img[0..BLOCK_SIZE].iter().all(|&b| b == 0));
    assert_eq!(&img[BLOCK_SIZE..2 * BLOCK_SIZE], &block(0xFF)[..]);
    assert!(img[2 * BLOCK_SIZE..].iter().all(|&b| b == 0));
}

#[test]
fn round_trip_extracting_new_ranges_restores_input() {
    let tl = TransferList::parse(b"1\n10\nnew 4,7,9,1,3\nnew 2,4,5\n").unwrap();
    let input = blocks(&[10, 20, 30, 40, 50]);
    let img = build_image(&tl, &input).unwrap();
    let mut extracted = Vec::new();
    for s in &tl.new {
        extracted.extend_from_slice(&img[s.begin * BLOCK_SIZE..s.end * BLOCK_SIZE]);
    }
    assert_eq!(extracted, input);
}

#[test]
fn building_twice_is_identical() {
    let tl = TransferList::parse(b"2\n8\n0\n0\nnew 4,0,2,6,8\nerase 2,2,4\n").unwrap();
    let input = blocks(&[1, 2, 3, 4]);
    let img1 = build_image(&tl, &input).unwrap();
    let img2 = build_image(&tl, &input).unwrap();
    assert_eq!(img1, img2);
}

#[test]
fn longer_input_than_needed_is_accepted() {
    let tl = TransferList::parse(b"1\n2\nnew 2,0,2\n").unwrap();
    let input = blocks(&[7, 8, 9]);
    let img = build_image(&tl, &input).unwrap();
    assert_eq!(img, blocks(&[7, 8]));
}

#[test]
fn empty_command_set_builds_empty_image() {
    let tl = TransferList::parse(b"1\n0\n").unwrap();
    let img = build_image(&tl, &[]).unwrap();
    assert!(img.is_empty());
}

#[test]
fn for_each_command_orders_kinds_fixed_and_ranges_by_manifest() {
    let tl =
        TransferList::parse(b"1\n10\nnew 2,4,6\nzero 2,0,2\nnew 2,8,10\nerase 2,2,4\n").unwrap();
    let flat = tl.for_each_command();
    let expected = vec![
        (Command::Erase, ByteSegments { begin: 2, end: 4 }),
        (Command::New, ByteSegments { begin: 4, end: 6 }),
        (Command::New, ByteSegments { begin: 8, end: 10 }),
        (Command::Zero, ByteSegments { begin: 0, end: 2 }),
    ];
    assert_eq!(flat, expected);
}

#[test]
fn max_spans_all_kinds() {
    let tl = TransferList::parse(b"1\n12\nnew 2,0,2\nerase 2,10,12\nzero 2,4,6\n").unwrap();
    assert_eq!(tl.max(), 12);
}
