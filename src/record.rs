//! One record of the Intel HEX format: `:LLAAAATT[DD...]CC`.
//!
//! [`Record::parse`] reads one line into a structured record and
//! [`Record::create`] renders a structured record as a line. Both are
//! specified against the grammar below, written over the bytes of the line.
use crate::error::{IntelHexError, IntelHexErrorKind};
use vstd::prelude::*;

verus! {

/// The byte `:` that starts every record.
pub const START_CODE: u8 = 0x3A;

/// Hex digits in a record without payload: length, address, type and checksum.
pub const SMALLEST_RECORD: usize = 10;

/// Hex digits in a record with the largest payload (255 bytes).
pub const LARGEST_RECORD: usize = 520;

/// The six record types of the format.
#[derive(Copy, Clone, Debug, PartialEq, Eq, Hash, Structural)]
pub enum RecordType {
    Data,
    EndOfFile,
    ExtendedSegmentAddress,
    StartSegmentAddress,
    ExtendedLinearAddress,
    StartLinearAddress,
}

// ------------------------------------------------------------------------
// The grammar, over bytes.
// ------------------------------------------------------------------------

pub open spec fn is_hex_digit(b: u8) -> bool {
    (0x30 <= b <= 0x39) || (0x41 <= b <= 0x46) || (0x61 <= b <= 0x66)
}

/// The value of a hex digit, either case.
pub open spec fn hex_value(b: u8) -> nat {
    if 0x30 <= b <= 0x39 {
        (b - 0x30) as nat
    } else if 0x41 <= b <= 0x46 {
        (b - 0x41 + 10) as nat
    } else {
        (b - 0x61 + 10) as nat
    }
}

/// The byte spelled by the two hex digits at `i` and `i + 1`.
pub open spec fn hex_byte_at(s: Seq<u8>, i: int) -> u8 {
    (hex_value(s[i]) * 16 + hex_value(s[i + 1])) as u8
}

/// The uppercase hex digit of a value below 16.
pub open spec fn hex_digit(v: nat) -> u8 {
    if v < 10 {
        (0x30 + v) as u8
    } else {
        (0x41 + v - 10) as u8
    }
}

/// Two uppercase hex digits for a byte.
pub open spec fn hex2(b: u8) -> Seq<u8> {
    seq![hex_digit(b as nat / 16), hex_digit(b as nat % 16)]
}

/// Two uppercase hex digits for each byte.
pub open spec fn hex_bytes(d: Seq<u8>) -> Seq<u8>
    decreases d.len(),
{
    if d.len() == 0 {
        seq![]
    } else {
        hex_bytes(d.drop_last()) + hex2(d.last())
    }
}

pub open spec fn byte_sum(s: Seq<u8>) -> nat
    decreases s.len(),
{
    if s.len() == 0 {
        0
    } else {
        byte_sum(s.drop_last()) + s.last() as nat
    }
}

/// Two's complement of the byte sum, modulo 256.
pub open spec fn checksum_of(s: Seq<u8>) -> u8 {
    ((256 - byte_sum(s) % 256) % 256) as u8
}

impl RecordType {
    /// The two-digit code of the type in a record.
    pub open spec fn spec_code(self) -> u8 {
        match self {
            RecordType::Data => 0,
            RecordType::EndOfFile => 1,
            RecordType::ExtendedSegmentAddress => 2,
            RecordType::StartSegmentAddress => 3,
            RecordType::ExtendedLinearAddress => 4,
            RecordType::StartLinearAddress => 5,
        }
    }

    pub open spec fn from_code(c: u8) -> Option<RecordType> {
        if c == 0 {
            Some(RecordType::Data)
        } else if c == 1 {
            Some(RecordType::EndOfFile)
        } else if c == 2 {
            Some(RecordType::ExtendedSegmentAddress)
        } else if c == 3 {
            Some(RecordType::StartSegmentAddress)
        } else if c == 4 {
            Some(RecordType::ExtendedLinearAddress)
        } else if c == 5 {
            Some(RecordType::StartLinearAddress)
        } else {
            None
        }
    }

    /// The type field must read exactly `00` to `05`.
    pub open spec fn spec_parse(field: Seq<u8>) -> Result<RecordType, IntelHexErrorKind> {
        if field.len() == 2 && field[0] == 0x30 && 0x30 <= field[1] <= 0x35 {
            Ok(RecordType::from_code((field[1] - 0x30) as u8).unwrap())
        } else {
            Err(IntelHexErrorKind::InvalidRecordType)
        }
    }

    pub open spec fn is_start_address(self) -> bool {
        self == RecordType::StartSegmentAddress || self == RecordType::StartLinearAddress
    }

    pub open spec fn is_extended_address(self) -> bool {
        self == RecordType::ExtendedSegmentAddress || self == RecordType::ExtendedLinearAddress
    }

    /// The payload length that the type demands, if it demands one.
    pub open spec fn required_length(self) -> Option<nat> {
        match self {
            RecordType::Data => None,
            RecordType::EndOfFile => Some(0),
            RecordType::ExtendedSegmentAddress => Some(2),
            RecordType::ExtendedLinearAddress => Some(2),
            RecordType::StartSegmentAddress => Some(4),
            RecordType::StartLinearAddress => Some(4),
        }
    }

    pub fn code(&self) -> (r: u8)
        ensures
            r == self.spec_code(),
    {
        match self {
            RecordType::Data => 0,
            RecordType::EndOfFile => 1,
            RecordType::ExtendedSegmentAddress => 2,
            RecordType::StartSegmentAddress => 3,
            RecordType::ExtendedLinearAddress => 4,
            RecordType::StartLinearAddress => 5,
        }
    }

    /// Reads the two-character type field of a record.
    pub fn parse(field: &[u8]) -> (r: Result<RecordType, IntelHexErrorKind>)
        ensures
            r == RecordType::spec_parse(field@),
    {
        if field.len() == 2 && field[0] == 0x30 && 0x30 <= field[1] && field[1] <= 0x35 {
            let c = field[1] - 0x30;
            if c == 0 {
                Ok(RecordType::Data)
            } else if c == 1 {
                Ok(RecordType::EndOfFile)
            } else if c == 2 {
                Ok(RecordType::ExtendedSegmentAddress)
            } else if c == 3 {
                Ok(RecordType::StartSegmentAddress)
            } else if c == 4 {
                Ok(RecordType::ExtendedLinearAddress)
            } else {
                Ok(RecordType::StartLinearAddress)
            }
        } else {
            Err(IntelHexErrorKind::InvalidRecordType)
        }
    }
}

/// The abstract content of a record.
pub struct RecordView {
    pub length: u8,
    pub address: u16,
    pub rtype: RecordType,
    pub data: Seq<u8>,
    pub checksum: u8,
}

/// Length, address (high byte first) and type: the bytes that precede the payload.
pub open spec fn header_bytes(length: u8, address: u16, rtype: RecordType) -> Seq<u8> {
    seq![length, (address / 256) as u8, (address % 256) as u8, rtype.spec_code()]
}

/// The bytes that the checksum of a record covers.
pub open spec fn checksummed_bytes(address: u16, rtype: RecordType, data: Seq<u8>) -> Seq<u8> {
    header_bytes(data.len() as u8, address, rtype) + data
}

impl RecordView {
    /// The payload length fits the type and the length field.
    pub open spec fn fits_type(self) -> bool {
        &&& self.data.len() == self.length
        &&& self.rtype.required_length() is Some ==> self.data.len()
            == self.rtype.required_length()->0
    }

    /// The checksum that the record's other fields call for.
    pub open spec fn expected_checksum(self) -> u8 {
        checksum_of(header_bytes(self.length, self.address, self.rtype) + self.data)
    }
}

/// What parsing one line yields.
#[verifier::opaque]
pub open spec fn spec_parse_record(line: Seq<u8>) -> Result<RecordView, IntelHexErrorKind> {
    let n = line.len() - 1;
    if line.len() == 0 || line[0] != START_CODE {
        Err(IntelHexErrorKind::MissingStartCode)
    } else if !(forall|j: int| 1 <= j < line.len() ==> is_hex_digit(#[trigger] line[j])) {
        Err(IntelHexErrorKind::ContainsInvalidCharacters)
    } else if n < SMALLEST_RECORD {
        Err(IntelHexErrorKind::RecordTooShort)
    } else if n > LARGEST_RECORD {
        Err(IntelHexErrorKind::RecordTooLong)
    } else if n % 2 != 0 {
        Err(IntelHexErrorKind::RecordNotEvenLength)
    } else {
        let length = hex_byte_at(line, 1);
        let data_end = 9 + 2 * length;
        if data_end + 2 > line.len() {
            Err(IntelHexErrorKind::RecordInvalidPayloadLength)
        } else {
            match RecordType::spec_parse(line.subrange(7, 9)) {
                Err(e) => Err(e),
                Ok(rtype) => {
                    let address = (hex_byte_at(line, 3) as nat * 256 + hex_byte_at(
                        line,
                        5,
                    ) as nat) as u16;
                    if rtype.required_length() is Some && length != rtype.required_length()->0 {
                        Err(
                            IntelHexErrorKind::RecordLengthInvalidForType(
                                rtype,
                                rtype.required_length()->0 as usize,
                                length as usize,
                            ),
                        )
                    } else if (rtype.is_start_address() || rtype.is_extended_address()) && address
                        != 0 {
                        Err(
                            IntelHexErrorKind::RecordAddressInvalidForType(
                                rtype,
                                0,
                                address as usize,
                            ),
                        )
                    } else {
                        Ok(
                            RecordView {
                                length,
                                address,
                                rtype,
                                data: Seq::new(length as nat, |k: int| hex_byte_at(line, 9 + 2 * k)),
                                checksum: hex_byte_at(line, data_end),
                            },
                        )
                    }
                },
            }
        }
    }
}

/// The text of a record: start code, then uppercase hex for length,
/// address, type, payload and checksum.
pub open spec fn render(address: u16, rtype: RecordType, data: Seq<u8>) -> Seq<u8> {
    let h = checksummed_bytes(address, rtype, data);
    seq![START_CODE] + hex2(h[0]) + hex2(h[1]) + hex2(h[2]) + hex2(h[3]) + hex_bytes(data) + hex2(
        checksum_of(h),
    )
}

/// What building a record for output yields.
pub open spec fn spec_create(address: u16, rtype: RecordType, data: Seq<u8>) -> Result<
    Seq<u8>,
    IntelHexErrorKind,
> {
    match rtype {
        RecordType::Data => {
            if data.len() > 255 {
                Err(IntelHexErrorKind::RecordTooLong)
            } else {
                Ok(render(address, rtype, data))
            }
        },
        RecordType::EndOfFile => Ok(render(0, rtype, seq![])),
        RecordType::ExtendedSegmentAddress => Err(IntelHexErrorKind::RecordNotSupported),
        _ => {
            let want: nat = if rtype == RecordType::ExtendedLinearAddress {
                2
            } else {
                4
            };
            if data.len() != want {
                Err(
                    IntelHexErrorKind::RecordLengthInvalidForType(
                        rtype,
                        want as usize,
                        data.len() as usize,
                    ),
                )
            } else if address != 0 {
                Err(IntelHexErrorKind::RecordAddressInvalidForType(rtype, 0, address as usize))
            } else {
                Ok(render(address, rtype, data))
            }
        },
    }
}

// ------------------------------------------------------------------------
// Executable codec.
// ------------------------------------------------------------------------

pub fn is_hex_digit_byte(b: u8) -> (r: bool)
    ensures
        r == is_hex_digit(b),
{
    (0x30 <= b && b <= 0x39) || (0x41 <= b && b <= 0x46) || (0x61 <= b && b <= 0x66)
}

fn hex_value_of(b: u8) -> (r: u8)
    requires
        is_hex_digit(b),
    ensures
        r as nat == hex_value(b),
        r < 16,
{
    if b <= 0x39 {
        b - 0x30
    } else if b <= 0x46 {
        b - 0x41 + 10
    } else {
        b - 0x61 + 10
    }
}

/// Decodes the two hex digits at `i` and `i + 1`.
fn decode_byte(s: &[u8], i: usize) -> (r: u8)
    requires
        i + 1 < s@.len(),
        is_hex_digit(s@[i as int]),
        is_hex_digit(s@[i + 1]),
    ensures
        r == hex_byte_at(s@, i as int),
{
    let hi = hex_value_of(s[i]);
    let lo = hex_value_of(s[i + 1]);
    hi * 16 + lo
}

fn hex_digit_of(v: u8) -> (r: u8)
    requires
        v < 16,
    ensures
        r == hex_digit(v as nat),
{
    if v < 10 {
        0x30 + v
    } else {
        0x41 + v - 10
    }
}

fn push_hex2(out: &mut Vec<u8>, b: u8)
    ensures
        final(out)@ == old(out)@ + hex2(b),
{
    out.push(hex_digit_of(b / 16));
    out.push(hex_digit_of(b % 16));
    assert(final(out)@ =~= old(out)@ + hex2(b));
}

pub broadcast proof fn lemma_byte_sum_push(s: Seq<u8>, b: u8)
    ensures
        #[trigger] byte_sum(s.push(b)) == byte_sum(s) + b,
{
    assert(s.push(b).drop_last() =~= s);
}

impl Record {
    /// Two's complement of the byte sum of `data`, modulo 256.
    pub fn calculate_checksum(data: &[u8]) -> (r: u8)
        ensures
            r == checksum_of(data@),
    {
        broadcast use lemma_byte_sum_push;

        let mut sum: u8 = 0;
        let mut i: usize = 0;
        while i < data.len()
            invariant
                i <= data@.len(),
                sum as nat == byte_sum(data@.subrange(0, i as int)) % 256,
            decreases data@.len() - i,
        {
            assert(data@.subrange(0, i + 1) =~= data@.subrange(0, i as int).push(data@[i as int]));
            proof {
                lemma_byte_sum_push(data@.subrange(0, i as int), data@[i as int]);
                vstd::arithmetic::div_mod::lemma_add_mod_noop(
                    byte_sum(data@.subrange(0, i as int)) as int,
                    data@[i as int] as int,
                    256,
                );
            }
            sum = ((sum as u16 + data[i] as u16) % 256) as u8;
            i += 1;
        }
        assert(data@.subrange(0, i as int) =~= data@);
        ((256 - sum as u16) % 256) as u8
    }

    /// The checksum that the record's length, address, type and payload call for.
    pub fn calculate_checksum_from_self(&self) -> (r: u8)
        requires
            self.wf(),
        ensures
            r == self@.expected_checksum(),
    {
        let mut v: Vec<u8> = Vec::new();
        v.push(self.length);
        v.push((self.address / 256) as u8);
        v.push((self.address % 256) as u8);
        v.push(self.rtype.code());
        let mut i: usize = 0;
        while i < self.data.len()
            invariant
                i <= self.data@.len(),
                v@ =~= header_bytes(self.length, self.address, self.rtype) + self.data@.subrange(
                    0,
                    i as int,
                ),
            decreases self.data@.len() - i,
        {
            v.push(self.data[i]);
            i += 1;
        }
        assert(self.data@.subrange(0, i as int) =~= self.data@);
        Self::calculate_checksum(v.as_slice())
    }
}

/// One parsed record.
#[derive(Debug)]
pub struct Record {
    pub length: u8,
    pub address: u16,
    pub rtype: RecordType,
    pub data: Vec<u8>,
    pub checksum: u8,
}

impl View for Record {
    type V = RecordView;

    open spec fn view(&self) -> RecordView {
        RecordView {
            length: self.length,
            address: self.address,
            rtype: self.rtype,
            data: self.data@,
            checksum: self.checksum,
        }
    }
}

impl Record {
    pub open spec fn wf(&self) -> bool {
        self.data@.len() == self.length
    }

    /// Parses one line of a hex file. The checksum is read, not checked.
    pub fn parse(line: &[u8]) -> (r: Result<Record, IntelHexErrorKind>)
        ensures
            match r {
                Ok(rec) => rec.wf() && rec@.fits_type() && spec_parse_record(line@) == Ok::<
                    RecordView,
                    IntelHexErrorKind,
                >(rec@),
                Err(e) => spec_parse_record(line@) == Err::<RecordView, IntelHexErrorKind>(e),
            },
    {
        reveal(spec_parse_record);
        if line.len() == 0 || line[0] != START_CODE {
            return Err(IntelHexErrorKind::MissingStartCode);
        }
        let mut i: usize = 1;
        while i < line.len()
            invariant
                1 <= i <= line@.len(),
                line@[0] == START_CODE,
                forall|j: int| 1 <= j < i ==> is_hex_digit(#[trigger] line@[j]),
            decreases line@.len() - i,
        {
            if !is_hex_digit_byte(line[i]) {
                assert(!is_hex_digit(line@[i as int]));
                reveal(spec_parse_record);
                return Err(IntelHexErrorKind::ContainsInvalidCharacters);
            }
            i += 1;
        }
        let n = line.len() - 1;
        if n < SMALLEST_RECORD {
            return Err(IntelHexErrorKind::RecordTooShort);
        } else if n > LARGEST_RECORD {
            return Err(IntelHexErrorKind::RecordTooLong);
        } else if n % 2 != 0 {
            return Err(IntelHexErrorKind::RecordNotEvenLength);
        }
        let length = decode_byte(line, 1);
        let data_end: usize = 9 + 2 * (length as usize);
        if data_end + 2 > line.len() {
            return Err(IntelHexErrorKind::RecordInvalidPayloadLength);
        }
        let rtype = match RecordType::parse(&line[7..9]) {
            Ok(t) => t,
            Err(e) => {
                return Err(e);
            },
        };
        let address: u16 = (decode_byte(line, 3) as u16) * 256 + decode_byte(line, 5) as u16;
        let required: Option<usize> = match rtype {
            RecordType::Data => None,
            RecordType::EndOfFile => Some(0),
            RecordType::ExtendedSegmentAddress => Some(2),
            RecordType::ExtendedLinearAddress => Some(2),
            RecordType::StartSegmentAddress => Some(4),
            RecordType::StartLinearAddress => Some(4),
        };
        if let Some(want) = required {
            if length as usize != want {
                return Err(
                    IntelHexErrorKind::RecordLengthInvalidForType(rtype, want, length as usize),
                );
            }
            if rtype != RecordType::EndOfFile && address != 0 {
                return Err(
                    IntelHexErrorKind::RecordAddressInvalidForType(rtype, 0, address as usize),
                );
            }
        }
        let mut data: Vec<u8> = Vec::new();
        let mut k: usize = 0;
        while k < length as usize
            invariant
                k <= length,
                data_end == 9 + 2 * length,
                data_end + 2 <= line@.len(),
                forall|j: int| 1 <= j < line@.len() ==> is_hex_digit(#[trigger] line@[j]),
                data@.len() == k,
                forall|j: int| 0 <= j < k ==> data@[j] == hex_byte_at(line@, 9 + 2 * j),
            decreases length - k,
        {
            data.push(decode_byte(line, 9 + 2 * k));
            k += 1;
        }
        let checksum = decode_byte(line, data_end);
        let rec = Record { length, address, rtype, data, checksum };
        assert(rec@.data =~= Seq::new(length as nat, |k: int| hex_byte_at(line@, 9 + 2 * k)));
        Ok(rec)
    }

    /// Renders a record for output: uppercase hex, checksum computed.
    pub fn create(address: u16, rtype: RecordType, data: &Vec<u8>) -> (r: Result<
        Vec<u8>,
        IntelHexError,
    >)
        ensures
            match spec_create(address, rtype, data@) {
                Ok(text) => r matches Ok(v) && v@ == text,
                Err(k) => r == Err::<Vec<u8>, IntelHexError>(IntelHexError::CreateRecordError(k)),
            },
    {
        let length = data.len();
        match rtype {
            RecordType::Data => {
                if length > 255 {
                    return Err(IntelHexError::CreateRecordError(IntelHexErrorKind::RecordTooLong));
                }
                Ok(render_record(address, rtype, data))
            },
            RecordType::EndOfFile => {
                let empty: Vec<u8> = Vec::new();
                Ok(render_record(0, rtype, &empty))
            },
            RecordType::ExtendedSegmentAddress => {
                Err(IntelHexError::CreateRecordError(IntelHexErrorKind::RecordNotSupported))
            },
            _ => {
                let want: usize = if rtype == RecordType::ExtendedLinearAddress {
                    2
                } else {
                    4
                };
                if length != want {
                    return Err(
                        IntelHexError::CreateRecordError(
                            IntelHexErrorKind::RecordLengthInvalidForType(rtype, want, length),
                        ),
                    );
                }
                if address != 0 {
                    return Err(
                        IntelHexError::CreateRecordError(
                            IntelHexErrorKind::RecordAddressInvalidForType(
                                rtype,
                                0,
                                address as usize,
                            ),
                        ),
                    );
                }
                Ok(render_record(address, rtype, data))
            },
        }
    }
}

/// The text of a record whose payload fits its length field.
pub(crate) fn render_record(address: u16, rtype: RecordType, data: &Vec<u8>) -> (r: Vec<u8>)
    requires
        data@.len() <= 255,
    ensures
        r@ == render(address, rtype, data@),
{
    let mut h: Vec<u8> = Vec::new();
    h.push(data.len() as u8);
    h.push((address / 256) as u8);
    h.push((address % 256) as u8);
    h.push(rtype.code());
    assert(h@ =~= header_bytes(data@.len() as u8, address, rtype));
    let mut out: Vec<u8> = Vec::new();
    out.push(START_CODE);
    push_hex2(&mut out, h[0]);
    push_hex2(&mut out, h[1]);
    push_hex2(&mut out, h[2]);
    push_hex2(&mut out, h[3]);
    let ghost prefix = out@;
    let mut i: usize = 0;
    while i < data.len()
        invariant
            i <= data@.len(),
            data@.len() <= 255,
            h@ =~= header_bytes(data@.len() as u8, address, rtype) + data@.subrange(0, i as int),
            out@ == prefix + hex_bytes(data@.subrange(0, i as int)),
        decreases data@.len() - i,
    {
        let b = data[i];
        assert(data@.subrange(0, i + 1).drop_last() =~= data@.subrange(0, i as int));
        push_hex2(&mut out, b);
        h.push(b);
        i += 1;
        assert(out@ =~= prefix + hex_bytes(data@.subrange(0, i as int)));
    }
    assert(data@.subrange(0, i as int) =~= data@);
    let c = Record::calculate_checksum(h.as_slice());
    push_hex2(&mut out, c);
    assert(out@ =~= render(address, rtype, data@));
    out
}

} // verus!
