use intelhexlib::loader::{detect_file_kind, format_from_extension, FileKind, SaveFormat};
use intelhexlib::search::search_bmh;
use intelhexlib::{IntelHex, IntelHexError, IntelHexErrorKind, RecordType};

fn load(text: &str) -> IntelHex {
    IntelHex::from_hex_str(text).unwrap()
}

fn written(ih: &IntelHex) -> String {
    String::from_utf8(ih.to_hex_bytes().unwrap()).unwrap()
}

fn parse_err(text: &str) -> IntelHexError {
    IntelHex::from_hex_str(text).unwrap_err()
}

#[test]
fn empty_text_gives_empty_image() {
    let ih = load("");
    assert_eq!(ih.get_min_addr(), None);
    assert_eq!(ih.get_max_addr(), None);
    assert!(ih.to_btree_map().is_empty());
    assert!(ih.start_addr.is_empty());
}

#[test]
fn crlf_line_endings_are_accepted() {
    let ih = load(":0300300002337A1E\r\n:00000001FF\r\n");
    assert_eq!(ih.get_byte(0x30), Some(0x02));
    assert_eq!(ih.get_byte(0x32), Some(0x7A));
    assert_eq!(ih.get_byte(0x33), None);
}

#[test]
fn checksum_error_names_its_line() {
    let text = ":0300300002337A1E\n:020000040001F9\n:0100100000FF\n:00000001FF";
    assert_eq!(
        parse_err(text),
        IntelHexError::ParseRecordError(IntelHexErrorKind::RecordChecksumMismatch(0xEF, 0xFF), 3)
    );
}

#[test]
fn syntax_error_names_its_line() {
    let text = ":0300300002337A1E\n\n:00000001FF";
    assert_eq!(parse_err(text), IntelHexError::ParseRecordError(IntelHexErrorKind::MissingStartCode, 2));
}

#[test]
fn overlap_between_two_data_records() {
    let text = ":0300300002337A1E\n:01003200AB22\n:00000001FF";
    assert_eq!(
        parse_err(text),
        IntelHexError::ParseRecordError(IntelHexErrorKind::RecordAddressOverlap(0x32), 2)
    );
}

#[test]
fn overlap_through_an_extended_address() {
    // 0x10010 written directly through segment 1, then again through segment 0x1000 * 16.
    let text = ":020000040001F9\n:01001000AB44\n:020000021000EC\n:01001000CD22\n:00000001FF";
    assert_eq!(
        parse_err(text),
        IntelHexError::ParseRecordError(IntelHexErrorKind::RecordAddressOverlap(0x10010), 4)
    );
}

#[test]
fn extended_linear_address_offsets_data() {
    let ih = load(":020000040001F9\n:01001000AB44\n:00000001FF");
    assert_eq!(ih.get_byte(0x10010), Some(0xAB));
    assert_eq!(ih.get_byte(0x10), None);
    assert_eq!(ih.get_min_addr(), Some(0x10010));
}

#[test]
fn extended_segment_address_offsets_data() {
    let ih = load(":020000021000EC\n:01000100AB53\n:00000001FF");
    assert_eq!(ih.get_byte(0x10001), Some(0xAB));
}

#[test]
fn duplicate_start_linear_address() {
    let text = ":0400000500000100F6\n:0400000500000200F5\n:00000001FF";
    assert_eq!(
        parse_err(text),
        IntelHexError::ParseRecordError(IntelHexErrorKind::DuplicateStartAddress, 2)
    );
}

#[test]
fn duplicate_start_segment_address() {
    let text = ":0400000300000100F8\n:0100000042BD\n:0400000300000100F8\n:00000001FF";
    assert_eq!(
        parse_err(text),
        IntelHexError::ParseRecordError(IntelHexErrorKind::DuplicateStartAddress, 3)
    );
}

#[test]
fn start_address_is_kept() {
    let ih = load(":0400000300000100F8\n:0100000042BD\n:00000001FF");
    assert_eq!(ih.start_addr.rtype, Some(RecordType::StartSegmentAddress));
    assert_eq!(ih.start_addr.bytes, vec![0, 0, 1, 0]);
    assert_eq!(written(&ih), ":0400000300000100F8\n:0100000042BD\n:00000001FF");
}

#[test]
fn failed_load_leaves_image_unchanged() {
    let mut ih = load(":0100000042BD\n:00000001FF");
    let before = ih.size;
    let res = ih.load_hex_str(":0100000042BD\n:01000000FF00\n");
    assert!(res.is_err());
    assert_eq!(ih.size, before);
    assert_eq!(ih.get_byte(0), Some(0x42));
}

#[test]
fn reads_and_updates_bytes() {
    let mut ih = load(":0300300002337A1E\n:00000001FF");
    assert_eq!(ih.get_buffer_slice(&[0x30, 0x31, 0x32]), Some(vec![0x02, 0x33, 0x7A]));
    assert_eq!(ih.get_buffer_slice(&[0x30, 0x40]), None);
    assert_eq!(ih.get_buffer_slice(&[]), Some(vec![]));
    assert_eq!(ih.update_byte(0x31, 0xFF), Ok(()));
    assert_eq!(ih.get_byte(0x31), Some(0xFF));
    assert_eq!(
        ih.update_byte(0x40, 0xFF),
        Err(IntelHexError::UpdateError(IntelHexErrorKind::InvalidAddress(0x40)))
    );
}

#[test]
fn slice_update_stops_at_first_missing_address() {
    let mut ih = load(":0300300002337A1E\n:00000001FF");
    assert_eq!(ih.update_buffer_slice(&[(0x30, 1), (0x31, 2)]), Ok(()));
    assert_eq!(ih.get_buffer_slice(&[0x30, 0x31, 0x32]), Some(vec![1, 2, 0x7A]));
    assert_eq!(
        ih.update_buffer_slice(&[(0x32, 3), (0x99, 4), (0x30, 5)]),
        Err(IntelHexError::UpdateError(IntelHexErrorKind::InvalidAddress(0x99)))
    );
    assert_eq!(ih.get_buffer_slice(&[0x30, 0x31, 0x32]), Some(vec![1, 2, 3]));
}

#[test]
fn relocation_shifts_every_address() {
    let mut ih = load(":0300300002337A1E\n:01004000AA15\n:00000001FF");
    let old_min = ih.get_min_addr().unwrap();
    let old_max = ih.get_max_addr().unwrap();
    assert_eq!(ih.relocate(old_min + 0x100), Ok(()));
    assert_eq!(ih.get_min_addr(), Some(old_min + 0x100));
    assert_eq!(ih.get_max_addr(), Some(old_max + 0x100));
    assert_eq!(ih.get_buffer_slice(&[0x130, 0x131, 0x132, 0x140]), Some(vec![0x02, 0x33, 0x7A, 0xAA]));
    assert_eq!(ih.get_byte(0x30), None);
    assert_eq!(ih.to_btree_map().len(), 4);
}

#[test]
fn relocation_downwards_and_its_errors() {
    let mut ih = load(":0300300002337A1E\n:00000001FF");
    assert_eq!(ih.relocate(0), Ok(()));
    assert_eq!(ih.get_buffer_slice(&[0, 1, 2]), Some(vec![0x02, 0x33, 0x7A]));
    assert_eq!(
        ih.relocate(usize::MAX),
        Err(IntelHexError::UpdateError(IntelHexErrorKind::InvalidAddress(usize::MAX)))
    );
    let mut empty = IntelHex::new();
    assert_eq!(
        empty.relocate(5),
        Err(IntelHexError::UpdateError(IntelHexErrorKind::IntelHexInstanceEmpty))
    );
}

#[test]
fn search_reports_overlapping_matches() {
    let ih = load(":0600000011DEADBEDEAD15\n:00000001FF");
    assert_eq!(ih.search(&[0xDE, 0xAD]), vec![1, 4]);
    let ih = load(":0400000000DEDEDE62\n:00000001FF");
    assert_eq!(ih.search(&[0xDE, 0xDE]), vec![1, 2]);
}

#[test]
fn search_spans_gaps_between_addresses() {
    let ih = load(":01001000DE11\n:01002000AD32\n:00000001FF");
    assert_eq!(ih.search(&[0xDE, 0xAD]), vec![0x10]);
}

#[test]
fn search_edge_patterns() {
    let hay: Vec<(usize, u8)> = vec![(0, 1), (1, 2), (2, 3)];
    assert_eq!(search_bmh(&hay, &[]), Vec::<usize>::new());
    assert_eq!(search_bmh(&hay, &[1, 2, 3, 4]), Vec::<usize>::new());
    assert_eq!(search_bmh(&hay, &vec![1u8; 256]), Vec::<usize>::new());
    assert_eq!(search_bmh(&hay, &[3]), vec![2]);
    assert_eq!(search_bmh(&hay, &[1, 2, 3]), vec![0]);
    assert_eq!(search_bmh(&hay, &[2, 9]), Vec::<usize>::new());
}

#[test]
fn twenty_bytes_make_two_data_records() {
    let ih = IntelHex::from_bin_bytes(&(0..20u8).collect::<Vec<u8>>(), 0).unwrap();
    let text = written(&ih);
    assert_eq!(
        text,
        ":10000000000102030405060708090A0B0C0D0E0F78\n:0400100010111213A6\n:00000001FF"
    );
    assert_eq!(text.lines().filter(|l| &l[7..9] == "00").count(), 2);
}

#[test]
fn segment_crossing_emits_extended_linear_address() {
    let ih = load(":01FFFF000100\n:020000040001F9\n:0100000002FD\n:00000001FF");
    assert_eq!(ih.get_byte(0xFFFF), Some(1));
    assert_eq!(ih.get_byte(0x10000), Some(2));
    assert_eq!(written(&ih), ":01FFFF000100\n:020000040001F9\n:0100000002FD\n:00000001FF");
}

#[test]
fn gaps_split_data_records() {
    let ih = load(":020000000102FB\n:01000500AA50\n:00000001FF");
    assert_eq!(written(&ih), ":020000000102FB\n:01000500AA50\n:00000001FF");
}

#[test]
fn data_beyond_the_first_segment_starts_with_extended_address() {
    let ih = IntelHex::from_bin_bytes(&[0xAB], 0x10010).unwrap();
    assert_eq!(written(&ih), ":020000040001F9\n:01001000AB44\n:00000001FF");
}

#[test]
fn writer_errors() {
    assert_eq!(
        IntelHex::new().to_hex_bytes(),
        Err(IntelHexError::CreateRecordError(IntelHexErrorKind::IntelHexInstanceEmpty))
    );
    let ih = IntelHex::from_bin_bytes(&[1], 0x1_0000_0000).unwrap();
    assert_eq!(
        ih.to_hex_bytes(),
        Err(IntelHexError::CreateRecordError(IntelHexErrorKind::InvalidAddress(0x1_0000_0000)))
    );
}

#[test]
fn binary_images() {
    let ih = IntelHex::from_bin_bytes(&[5, 6, 7], 0x200).unwrap();
    assert_eq!(ih.get_buffer_slice(&[0x200, 0x201, 0x202]), Some(vec![5, 6, 7]));
    assert_eq!(ih.size, 3);
    assert!(ih.start_addr.is_empty());
    assert_eq!(
        IntelHex::from_bin_bytes(&[5, 6], usize::MAX).unwrap_err(),
        IntelHexError::UpdateError(IntelHexErrorKind::InvalidAddress(usize::MAX))
    );
}

#[test]
fn file_kinds() {
    assert_eq!(detect_file_kind(b""), FileKind::Unknown);
    assert_eq!(detect_file_kind(b"\x7FELF\x02\x01"), FileKind::Elf);
    assert_eq!(detect_file_kind(b":0100000042BD"), FileKind::Hex);
    assert_eq!(detect_file_kind(b"\x7FEL"), FileKind::Bin);
    assert_eq!(detect_file_kind(b"MZ"), FileKind::Bin);
}

#[test]
fn binary_dump_fills_gaps() {
    let ih = load(":020010000102EB\n:01001300AA42\n:00000001FF");
    assert_eq!(ih.to_bin_bytes(0xFF), Some(vec![0x01, 0x02, 0xFF, 0xAA]));
    assert_eq!(IntelHex::new().to_bin_bytes(0), None);
}

#[test]
fn save_formats() {
    assert_eq!(format_from_extension("bin"), Some(SaveFormat::Bin));
    assert_eq!(format_from_extension("HeX"), Some(SaveFormat::Hex));
    assert_eq!(format_from_extension("elf"), None);
    assert_eq!(format_from_extension("hexx"), None);
    assert_eq!(format_from_extension(""), None);
}
