use intelhexlib::{IntelHexError, IntelHexErrorKind, Record, RecordType};

fn parse(line: &str) -> Result<Record, IntelHexErrorKind> {
    Record::parse(line.as_bytes())
}

#[test]
fn parses_a_data_record() {
    let rec = parse(":0300300002337A1E").unwrap();
    assert_eq!(rec.length, 3);
    assert_eq!(rec.address, 0x0030);
    assert_eq!(rec.rtype, RecordType::Data);
    assert_eq!(rec.data, vec![0x02, 0x33, 0x7A]);
    assert_eq!(rec.checksum, 0x1E);
    assert_eq!(rec.calculate_checksum_from_self(), 0x1E);
}

#[test]
fn parses_lowercase_digits() {
    let rec = parse(":0300300002337a1e").unwrap();
    assert_eq!(rec.data, vec![0x02, 0x33, 0x7A]);
    assert_eq!(rec.checksum, 0x1E);
}

#[test]
fn parse_keeps_a_wrong_checksum_for_the_caller() {
    let rec = parse(":01000000AAFF").unwrap();
    assert_eq!(rec.checksum, 0xFF);
    assert_eq!(rec.calculate_checksum_from_self(), 0x55);
}

#[test]
fn parse_errors_for_each_kind() {
    assert_eq!(parse("0300300002337A1E").unwrap_err(), IntelHexErrorKind::MissingStartCode);
    assert_eq!(parse("").unwrap_err(), IntelHexErrorKind::MissingStartCode);
    assert_eq!(parse(":03003000G2337A1E").unwrap_err(), IntelHexErrorKind::ContainsInvalidCharacters);
    assert_eq!(parse(":0000000").unwrap_err(), IntelHexErrorKind::RecordTooShort);
    let long = format!(":FF000000{}00", "00".repeat(256));
    assert_eq!(parse(&long).unwrap_err(), IntelHexErrorKind::RecordTooLong);
    assert_eq!(parse(":00000001FFF").unwrap_err(), IntelHexErrorKind::RecordNotEvenLength);
    assert_eq!(parse(":0500000001020304").unwrap_err(), IntelHexErrorKind::RecordInvalidPayloadLength);
    assert_eq!(parse(":00000006FA").unwrap_err(), IntelHexErrorKind::InvalidRecordType);
    assert_eq!(
        parse(":0100000100FE").unwrap_err(),
        IntelHexErrorKind::RecordLengthInvalidForType(RecordType::EndOfFile, 0, 1)
    );
    assert_eq!(
        parse(":0100000401FA").unwrap_err(),
        IntelHexErrorKind::RecordLengthInvalidForType(RecordType::ExtendedLinearAddress, 2, 1)
    );
    assert_eq!(
        parse(":020010040001E9").unwrap_err(),
        IntelHexErrorKind::RecordAddressInvalidForType(RecordType::ExtendedLinearAddress, 0, 0x10)
    );
}

#[test]
fn record_type_field() {
    assert_eq!(RecordType::parse(b"00"), Ok(RecordType::Data));
    assert_eq!(RecordType::parse(b"03"), Ok(RecordType::StartSegmentAddress));
    assert_eq!(RecordType::parse(b"05"), Ok(RecordType::StartLinearAddress));
    assert_eq!(RecordType::parse(b"06"), Err(IntelHexErrorKind::InvalidRecordType));
    assert_eq!(RecordType::parse(b"0"), Err(IntelHexErrorKind::InvalidRecordType));
    assert_eq!(RecordType::StartLinearAddress.code(), 5);
}

#[test]
fn checksum_is_twos_complement_of_the_sum() {
    assert_eq!(Record::calculate_checksum(&[0x03, 0x00, 0x30, 0x00, 0x02, 0x33, 0x7A]), 0x1E);
    assert_eq!(Record::calculate_checksum(&[]), 0x00);
    assert_eq!(Record::calculate_checksum(&[0x00, 0x00, 0x00, 0x01]), 0xFF);
    assert_eq!(Record::calculate_checksum(&[0xFF, 0xFF]), 0x02);
}

fn create(address: u16, rtype: RecordType, data: &[u8]) -> Result<String, IntelHexError> {
    Record::create(address, rtype, &data.to_vec()).map(|v| String::from_utf8(v).unwrap())
}

#[test]
fn creates_records() {
    assert_eq!(create(0x0030, RecordType::Data, &[0x02, 0x33, 0x7A]).unwrap(), ":0300300002337A1E");
    assert_eq!(create(0x1234, RecordType::EndOfFile, &[1, 2]).unwrap(), ":00000001FF");
    assert_eq!(create(0, RecordType::ExtendedLinearAddress, &[0x00, 0x01]).unwrap(), ":020000040001F9");
    assert_eq!(create(0, RecordType::StartLinearAddress, &[0, 0, 1, 0]).unwrap(), ":0400000500000100F6");
    assert_eq!(create(0, RecordType::StartSegmentAddress, &[0, 0, 1, 0]).unwrap(), ":0400000300000100F8");
}

#[test]
fn create_errors_for_each_kind() {
    let big = vec![0u8; 256];
    assert_eq!(
        create(0, RecordType::Data, &big).unwrap_err(),
        IntelHexError::CreateRecordError(IntelHexErrorKind::RecordTooLong)
    );
    assert_eq!(
        create(0, RecordType::ExtendedSegmentAddress, &[0, 1]).unwrap_err(),
        IntelHexError::CreateRecordError(IntelHexErrorKind::RecordNotSupported)
    );
    assert_eq!(
        create(0, RecordType::ExtendedLinearAddress, &[1]).unwrap_err(),
        IntelHexError::CreateRecordError(IntelHexErrorKind::RecordLengthInvalidForType(
            RecordType::ExtendedLinearAddress,
            2,
            1
        ))
    );
    assert_eq!(
        create(5, RecordType::StartLinearAddress, &[0, 0, 0, 0]).unwrap_err(),
        IntelHexError::CreateRecordError(IntelHexErrorKind::RecordAddressInvalidForType(
            RecordType::StartLinearAddress,
            0,
            5
        ))
    );
}

#[test]
fn created_record_parses_back() {
    let text = create(0xABCD, RecordType::Data, &[9, 8, 7, 6, 5]).unwrap();
    let rec = parse(&text).unwrap();
    assert_eq!(rec.address, 0xABCD);
    assert_eq!(rec.data, vec![9, 8, 7, 6, 5]);
    assert_eq!(rec.checksum, rec.calculate_checksum_from_self());
}
