use sdat2img::transfer_list::{ByteSegments, Command, TextFileError, TransferList};

fn seg(begin: usize, end: usize) -> ByteSegments {
    ByteSegments { begin, end }
}

#[test]
fn parse_minimal_v1() {
    let tl = TransferList::parse(b"1\n4\nnew 2,0,4\n").unwrap();
    assert_eq!(tl.version, 1);
    assert_eq!(tl.new, vec![seg(0, 4)]);
    assert!(tl.erase.is_empty());
    assert!(tl.zero.is_empty());
}

#[test]
fn parse_v2_header_skip() {
    let tl = TransferList::parse(b"2\n8\n0\n0\nnew 4,0,2,6,8\n").unwrap();
    assert_eq!(tl.version, 2);
    assert_eq!(tl.new, vec![seg(0, 2), seg(6, 8)]);
}

#[test]
fn parse_mixed_kinds() {
    let tl = TransferList::parse(b"2\n4\n0\n0\nerase 2,0,4\nnew 2,0,4\n").unwrap();
    assert_eq!(tl.erase, vec![seg(0, 4)]);
    assert_eq!(tl.new, vec![seg(0, 4)]);
    assert!(tl.zero.is_empty());
}

#[test]
fn parse_groups_by_kind_keeping_order() {
    let tl =
        TransferList::parse(b"1\n10\nnew 2,4,6\nzero 2,0,2\nnew 2,8,10\nerase 2,2,4\n").unwrap();
    assert_eq!(tl.new, vec![seg(4, 6), seg(8, 10)]);
    assert_eq!(tl.zero, vec![seg(0, 2)]);
    assert_eq!(tl.erase, vec![seg(2, 4)]);
}

#[test]
fn parse_rejects_count_mismatch() {
    let e = TransferList::parse(b"1\n4\nnew 3,0,4\n").err().unwrap();
    assert_eq!(e.message(), "Range size mismatch");
    assert_eq!(e.fragment(), b"3,0,4");
}

#[test]
fn parse_rejects_odd_count() {
    assert!(TransferList::parse(b"1\n4\nnew 3,0,4,8\n").is_err());
}

#[test]
fn parse_rejects_unknown_kind_naming_it() {
    let e = TransferList::parse(b"1\n4\nmove 2,0,4\n").err().unwrap();
    assert_eq!(e.message(), "Invalid operation");
    assert_eq!(e.fragment(), b"move");
}

#[test]
fn parse_rejects_wrong_token_count_with_the_line() {
    let e = TransferList::parse(b"1\n4\nnew 2,0,4 extra\n").err().unwrap();
    assert_eq!(e.message(), "Invalid command format");
    assert_eq!(e.fragment(), b"new 2,0,4 extra");
    assert!(TransferList::parse(b"1\n4\nnew\n").is_err());
}

#[test]
fn parse_rejects_bad_version() {
    assert!(TransferList::parse(b"0\n4\n").is_err());
    assert!(TransferList::parse(b"5\n4\n").is_err());
    assert!(TransferList::parse(b"x\n4\n").is_err());
    assert!(TransferList::parse(b"\n4\n").is_err());
}

#[test]
fn parse_rejects_reversed_or_empty_range() {
    assert!(TransferList::parse(b"1\n4\nnew 2,4,0\n").is_err());
    assert!(TransferList::parse(b"1\n4\nnew 2,3,3\n").is_err());
}

#[test]
fn parse_skips_blank_lines_between_commands() {
    let tl = TransferList::parse(b"1\n4\n\nnew 2,0,4\n\n\n").unwrap();
    assert_eq!(tl.new, vec![seg(0, 4)]);
}

#[test]
fn parse_empty_manifest_is_error() {
    assert!(TransferList::parse(b"").is_err());
}

#[test]
fn parse_version_only_gives_empty_command_set() {
    let tl = TransferList::parse(b"1\n").unwrap();
    assert_eq!(tl.version, 1);
    assert!(tl.new.is_empty());
    assert!(tl.erase.is_empty());
    assert!(tl.zero.is_empty());
    assert_eq!(tl.max(), 0);
}

#[test]
fn parse_tolerates_surrounding_whitespace() {
    let tl = TransferList::parse(b" 1 \n4\n  new\t2,0,4  \n").unwrap();
    assert_eq!(tl.version, 1);
    assert_eq!(tl.new, vec![seg(0, 4)]);
}

#[test]
fn parse_v3_and_v4_skip_stash_headers() {
    let tl3 = TransferList::parse(b"3\n4\n0\n0\nnew 2,0,4\n").unwrap();
    assert_eq!(tl3.version, 3);
    assert_eq!(tl3.new, vec![seg(0, 4)]);
    let tl4 = TransferList::parse(b"4\n4\n0\n0\nnew 2,0,4\n").unwrap();
    assert_eq!(tl4.version, 4);
    assert_eq!(tl4.new, vec![seg(0, 4)]);
}

#[test]
fn parse_tolerates_crlf_line_ends() {
    let tl = TransferList::parse(b"1\r\n4\r\nnew 2,0,4\r\n").unwrap();
    assert_eq!(tl.new, vec![seg(0, 4)]);
}

#[test]
fn parse_ranges_returns_trailing_values() {
    assert_eq!(sdat2img::parse_ranges(b"2,0,4").unwrap(), vec![0, 4]);
    assert_eq!(sdat2img::parse_ranges(b"4,0,2,6,8").unwrap(), vec![0, 2, 6, 8]);
    assert_eq!(sdat2img::parse_ranges(b"0").unwrap(), Vec::<usize>::new());
}

#[test]
fn parse_ranges_rejects_bad_tokens() {
    assert!(sdat2img::parse_ranges(b"3,0,4").is_err());
    assert!(sdat2img::parse_ranges(b"2,0").is_err());
    assert!(sdat2img::parse_ranges(b"1,7").is_err());
    assert!(sdat2img::parse_ranges(b"2,a,b").is_err());
    assert!(sdat2img::parse_ranges(b"").is_err());
    assert!(sdat2img::parse_ranges(b"2,0,4,").is_err());
}

#[test]
fn parse_ranges_names_the_offending_fragment() {
    let e = sdat2img::parse_ranges(b"2,a,b").err().unwrap();
    assert_eq!(e.message(), "Invalid number in ranges");
    assert_eq!(e.fragment(), b"a");
    let e = sdat2img::parse_ranges(b"1,7").err().unwrap();
    assert_eq!(e.message(), "Range length is not even");
    assert_eq!(e.fragment(), b"1,7");
}

#[test]
fn to_operations_recognizes_the_three_kinds() {
    assert_eq!(TransferList::to_operations(b"erase").unwrap(), Command::Erase);
    assert_eq!(TransferList::to_operations(b"new").unwrap(), Command::New);
    assert_eq!(TransferList::to_operations(b"zero").unwrap(), Command::Zero);
    assert!(TransferList::to_operations(b"NEW").is_err());
    assert!(TransferList::to_operations(b"").is_err());
    let e = TransferList::to_operations(b"move").err().unwrap();
    assert_eq!(e.message(), "Invalid operation");
    assert_eq!(e.fragment(), b"move");
}

#[test]
fn segment_size_is_block_count() {
    assert_eq!(seg(2, 5).size(), 3);
    assert_eq!(seg(0, 1).size(), 1);
}

#[test]
fn error_keeps_its_message_and_fragment() {
    let e = TextFileError::new("Range size mismatch");
    assert_eq!(e.message(), "Range size mismatch");
    assert!(e.fragment().is_empty());
    let e = TextFileError::with_fragment("Invalid operation", b"imgdiff");
    assert_eq!(e.message(), "Invalid operation");
    assert_eq!(e.fragment(), b"imgdiff");
}

#[test]
fn well_formed_accepts_parse_output_and_rejects_bad_ranges() {
    let tl = TransferList::parse(b"1\n4\nnew 2,0,4\n").unwrap();
    assert!(tl.well_formed());
    let bad = TransferList { version: 1, erase: vec![], new: vec![seg(4, 4)], zero: vec![] };
    assert!(!bad.well_formed());
}
