use intelhexlib::{IntelHex, IntelHexError, IntelHexErrorKind};

/// A hex file in the canonical layout: a start address, data records of at
/// most 16 bytes, and segment crossings announced by extended linear
/// address records.
const VALID_HEX: &str = ":0400000500000100F6\n\
:10010000030A11181F262D343B424950575E656C77\n\
:04011000737A8188F5\n\
:020000040001F9\n\
:02FFFE00A0A1C0\n\
:020000040002F8\n\
:03000000A2A3A414\n\
:020000040003F7\n\
:0100000042BD\n\
:00000001FF";

/// The first record's checksum reads FF where 55 is due.
const BAD_CHECKSUM_HEX: &str = ":01000000AAFF\n:00000001FF";

#[test]
fn test_loading_and_writing_hex_1() {
    // Load hex and check the result
    let res = IntelHex::from_hex_str(VALID_HEX);
    assert!(res.is_ok());

    // If loaded Ok -> write it back
    if let Ok(ih) = res {
        let res = ih.to_hex_bytes();
        assert!(res.is_ok());

        let f1 = VALID_HEX.as_bytes().to_vec();
        let f2 = res.unwrap();
        assert_eq!(f1, f2);
    }
}

#[test]
fn test_loading_and_writing_hex_2() {
    let mut ih = IntelHex::new();
    let res = ih.load_hex_str(VALID_HEX);
    assert!(res.is_ok());
    assert_eq!(ih.size, VALID_HEX.len());

    let res = ih.to_hex_bytes();
    assert!(res.is_ok());
    assert_eq!(VALID_HEX.as_bytes().to_vec(), res.unwrap());
}

#[test]
fn test_hex_parsing_returns_error() {
    let res = IntelHex::from_hex_str(BAD_CHECKSUM_HEX);
    match res {
        Err(ih_err) => {
            assert_eq!(
                ih_err,
                IntelHexError::ParseRecordError(IntelHexErrorKind::RecordChecksumMismatch(0x55, 0xFF), 1)
            );
        }
        Ok(_) => panic!("Expected an error, but got Ok"),
    }
}
