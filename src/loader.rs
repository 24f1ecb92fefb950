//! Telling file kinds apart by their first bytes, and images of raw binary
//! files.
use crate::error::{IntelHexError, IntelHexErrorKind};
use crate::image::{is_ascending_listing, IntelHex};
use crate::store::{lemma_listing_empty, lemma_listing_ends, lemma_min_max_unique, max_key, min_key};
use vstd::string::StringSliceAdditionalSpecFns;
use std::collections::BTreeMap;
use vstd::prelude::*;

verus! {

broadcast use vstd::std_specs::btree::group_btree_axioms;

/// The kind of a file, judged by its first bytes.
#[derive(Debug, Clone, Copy, PartialEq, Eq, Structural)]
pub enum FileKind {
    Hex,
    Bin,
    Elf,
    Unknown,
}

/// Empty: unknown; the ELF magic `7F 45 4C 46`: ELF; a leading `:`: Intel
/// HEX; anything else: raw binary.
pub open spec fn spec_file_kind(head: Seq<u8>) -> FileKind {
    if head.len() == 0 {
        FileKind::Unknown
    } else if head.len() >= 4 && head[0] == 0x7F && head[1] == 0x45 && head[2] == 0x4C && head[3]
        == 0x46 {
        FileKind::Elf
    } else if head[0] == crate::record::START_CODE {
        FileKind::Hex
    } else {
        FileKind::Bin
    }
}

/// Judges the kind of a file from its first bytes (32 are enough).
pub fn detect_file_kind(head: &[u8]) -> (r: FileKind)
    ensures
        r == spec_file_kind(head@),
{
    if head.len() == 0 {
        return FileKind::Unknown;
    }
    if head.len() >= 4 && head[0] == 0x7F && head[1] == 0x45 && head[2] == 0x4C && head[3] == 0x46 {
        return FileKind::Elf;
    }
    if head[0] == crate::record::START_CODE {
        return FileKind::Hex;
    }
    FileKind::Bin
}

/// The bytes of a raw binary file placed from address `base` on.
pub open spec fn bin_store(data: Seq<u8>, base: nat) -> Map<usize, u8> {
    Map::new(|a: usize| base <= a < base + data.len(), |a: usize| data[a - base])
}

impl IntelHex {
    /// An image holding the bytes of a raw binary file from address `base`
    /// on, with no start address.
    pub fn from_bin_bytes(data: &[u8], base: usize) -> (r: Result<IntelHex, IntelHexError>)
        ensures
            if base + data@.len() > usize::MAX + 1 {
                r == Err::<IntelHex, IntelHexError>(
                    IntelHexError::UpdateError(IntelHexErrorKind::InvalidAddress(base)),
                )
            } else {
                r matches Ok(ih) && ih.wf() && ih.store() == bin_store(data@, base as nat)
                    && ih.start() is None && ih.size == data@.len()
            },
    {
        if data.len() > 0 && usize::MAX - base < data.len() - 1 {
            return Err(IntelHexError::UpdateError(IntelHexErrorKind::InvalidAddress(base)));
        }
        let mut ih = IntelHex::new();
        let mut buffer: BTreeMap<usize, u8> = BTreeMap::new();
        let mut i: usize = 0;
        while i < data.len()
            invariant
                i <= data@.len(),
                base + data@.len() <= usize::MAX + 1,
                buffer@ == bin_store(data@.take(i as int), base as nat),
            decreases data@.len() - i,
        {
            buffer.insert(base + i, data[i]);
            i += 1;
            assert(buffer@ =~= bin_store(data@.take(i as int), base as nat));
        }
        assert(data@.take(i as int) =~= data@);
        ih.buffer = buffer;
        ih.size = data.len();
        Ok(ih)
    }
}

/// The byte at `a`, or `fill` where the store holds none.
pub open spec fn byte_or(m: Map<usize, u8>, a: int, fill: u8) -> u8 {
    if 0 <= a <= usize::MAX && m.contains_key(a as usize) {
        m[a as usize]
    } else {
        fill
    }
}

impl IntelHex {
    /// The bytes from the lowest to the highest address, `gap_fill` where
    /// the store holds none; `None` for an empty store.
    pub fn to_bin_bytes(&self, gap_fill: u8) -> (r: Option<Vec<u8>>)
        ensures
            match r {
                None => self.store().dom() == Set::<usize>::empty(),
                Some(v) => self.store().dom() != Set::<usize>::empty() && v@.len() == max_key(
                    self.store(),
                ) - min_key(self.store()) + 1 && forall|i: int|
                    0 <= i < v@.len() ==> #[trigger] v@[i] == byte_or(
                        self.store(),
                        min_key(self.store()) + i,
                        gap_fill,
                    ),
            },
    {
        let e = self.entries();
        let ghost m = self.store();
        if e.len() == 0 {
            proof {
                assert(e@ =~= Seq::<(usize, u8)>::empty());
                lemma_listing_empty(m);
            }
            return None;
        }
        let min = e[0].0;
        proof {
            lemma_listing_ends(e@, m);
            lemma_min_max_unique(m, min, e@.last().0);
            assert(m.contains_key(min));
        }
        let mut out: Vec<u8> = Vec::new();
        let mut j: usize = 0;
        while j < e.len()
            invariant
                is_ascending_listing(e@, m),
                m == self.store(),
                min == e@[0].0,
                min == min_key(m),
                e@.last().0 == max_key(m),
                j <= e@.len(),
                j == 0 ==> out@.len() == 0,
                j > 0 ==> out@.len() == e@[j - 1].0 - min + 1,
                forall|i: int| 0 <= i < out@.len() ==> #[trigger] out@[i] == byte_or(m, min + i, gap_fill),
            decreases e@.len() - j,
        {
            let (a, b) = e[j];
            proof {
                assert(m.contains_key(e@[j as int].0));
                if j > 0 {
                    assert(e@[j - 1].0 < e@[j as int].0);
                }
            }
            while min + out.len() < a
                invariant
                    is_ascending_listing(e@, m),
                    min <= a,
                    j < e@.len(),
                    a == e@[j as int].0,
                    min + out@.len() <= a,
                    j > 0 ==> out@.len() >= e@[j - 1].0 - min + 1,
                    forall|i: int| 0 <= i < out@.len() ==> #[trigger] out@[i] == byte_or(m, min + i, gap_fill),
                    forall|k: int| 0 <= k < j ==> #[trigger] e@[k].0 < min + out@.len() || j == 0,
                decreases a - (min + out@.len()),
            {
                proof {
                    let addr = (min + out@.len()) as usize;
                    if m.contains_key(addr) {
                        let k = choose|k: int| 0 <= k < e@.len() && e@[k].0 == addr;
                        if k < j {
                        } else if k > j {
                            assert(e@[j as int].0 < e@[k].0);
                        }
                    }
                }
                out.push(gap_fill);
            }
            out.push(b);
            j += 1;
        }
        Some(out)
    }
}

/// The format a file is saved in.
#[derive(Debug, Clone, Copy, PartialEq, Eq, Structural)]
pub enum SaveFormat {
    Bin,
    Hex,
}

pub open spec fn ascii_lower(b: u8) -> u8 {
    if 0x41 <= b <= 0x5A {
        (b + 0x20) as u8
    } else {
        b
    }
}

/// `bin` or `hex` in any case picks the format; anything else picks none.
pub open spec fn spec_format_from_extension(ext: Seq<u8>) -> Option<SaveFormat> {
    let lower = ext.map_values(|b: u8| ascii_lower(b));
    if lower == seq![0x62u8, 0x69u8, 0x6Eu8] {
        Some(SaveFormat::Bin)
    } else if lower == seq![0x68u8, 0x65u8, 0x78u8] {
        Some(SaveFormat::Hex)
    } else {
        None
    }
}

fn lower_byte(b: u8) -> (r: u8)
    ensures
        r == ascii_lower(b),
{
    if 0x41 <= b && b <= 0x5A {
        b + 0x20
    } else {
        b
    }
}

/// The save format named by a file extension.
pub fn format_from_extension(ext: &str) -> (r: Option<SaveFormat>)
    ensures
        r == spec_format_from_extension(ext.spec_bytes()),
{
    let s = ext.as_bytes();
    let ghost lower = s@.map_values(|b: u8| ascii_lower(b));
    if s.len() != 3 {
        assert(lower.len() != 3);
        assert(seq![0x62u8, 0x69u8, 0x6Eu8].len() == 3);
        assert(seq![0x68u8, 0x65u8, 0x78u8].len() == 3);
        assert(lower != seq![0x62u8, 0x69u8, 0x6Eu8]);
        assert(lower != seq![0x68u8, 0x65u8, 0x78u8]);
        return None;
    }
    let a = lower_byte(s[0]);
    let b = lower_byte(s[1]);
    let c = lower_byte(s[2]);
    assert(lower[0] == a && lower[1] == b && lower[2] == c);
    if a == 0x62 && b == 0x69 && c == 0x6E {
        assert(lower =~= seq![0x62u8, 0x69u8, 0x6Eu8]);
        Some(SaveFormat::Bin)
    } else if a == 0x68 && b == 0x65 && c == 0x78 {
        assert(lower =~= seq![0x68u8, 0x65u8, 0x78u8]);
        Some(SaveFormat::Hex)
    } else {
        assert(lower != seq![0x62u8, 0x69u8, 0x6Eu8]) by {
            if lower == seq![0x62u8, 0x69u8, 0x6Eu8] {
                assert(lower[0] == 0x62 && lower[1] == 0x69 && lower[2] == 0x6E);
            }
        }
        assert(lower != seq![0x68u8, 0x65u8, 0x78u8]) by {
            if lower == seq![0x68u8, 0x65u8, 0x78u8] {
                assert(lower[0] == 0x68 && lower[1] == 0x65 && lower[2] == 0x78);
            }
        }
        None
    }
}

} // verus!
