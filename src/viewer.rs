//! The state a hex viewer keeps around an image: the selected bytes, the
//! byte being typed in, the address range on show, the search and jump-to
//! boxes, and the pop-up in front. Only state and its rules live here; the
//! widgets that draw them do not.
use crate::image::{ascending_listing, IntelHex};
use crate::search::spec_search;
use crate::record::{hex_value, is_hex_digit};
use crate::store::{is_max_key, is_min_key};
use vstd::prelude::*;
use vstd::string::StringSliceAdditionalSpecFns;
use vstd::utf8::encode_utf8;

verus! {

// ------------------------------------------------------------------------
// Hex text typed by the user.
// ------------------------------------------------------------------------

/// The value of a run of hex digits, most significant first.
pub open spec fn hex_number(s: Seq<u8>) -> nat
    decreases s.len(),
{
    if s.len() == 0 {
        0
    } else {
        hex_number(s.drop_last()) * 16 + hex_value(s.last())
    }
}

/// The text without one leading `+`.
pub open spec fn strip_plus(s: Seq<u8>) -> Seq<u8> {
    if s.len() > 0 && s[0] == 0x2B {
        s.drop_first()
    } else {
        s
    }
}

/// A hex number with an optional leading `+`, as `usize::from_str_radix(_, 16)` reads it.
pub open spec fn parse_hex_usize(s: Seq<u8>) -> Option<usize> {
    parse_hex_digits(strip_plus(s))
}

/// A non-empty run of hex digits whose value fits a `usize`.
pub open spec fn parse_hex_digits(digits: Seq<u8>) -> Option<usize> {
    if digits.len() == 0 {
        None
    } else if !(forall|i: int| 0 <= i < digits.len() ==> is_hex_digit(#[trigger] digits[i])) {
        None
    } else if hex_number(digits) > usize::MAX {
        None
    } else {
        Some(hex_number(digits) as usize)
    }
}

/// Bytes written as pairs of hex digits; `None` for an odd length or a non-hex digit.
pub open spec fn parse_hex_pairs(s: Seq<u8>) -> Option<Seq<u8>> {
    if s.len() % 2 != 0 {
        None
    } else if !(forall|i: int| 0 <= i < s.len() ==> is_hex_digit(#[trigger] s[i])) {
        None
    } else {
        Some(Seq::new(s.len() / 2, |k: int| crate::record::hex_byte_at(s, 2 * k)))
    }
}

fn hex_digit_value(b: u8) -> (r: u8)
    requires
        is_hex_digit(b),
    ensures
        r as nat == hex_value(b),
        r < 16,
{
    if b <= 0x39 {
        b - 0x30
    } else if b <= 0x46 {
        b - 0x41 + 10
    } else {
        b - 0x61 + 10
    }
}

/// Reads a hex number with an optional leading `+`.
pub fn parse_hex_usize_bytes(s: &[u8]) -> (r: Option<usize>)
    ensures
        r == parse_hex_usize(s@),
{
    let start: usize = if s.len() > 0 && s[0] == 0x2B {
        1
    } else {
        0
    };
    let ghost digits = strip_plus(s@);
    assert(digits =~= s@.subrange(start as int, s@.len() as int));
    if start == s.len() {
        return None;
    }
    let mut value: usize = 0;
    let mut i: usize = start;
    while i < s.len()
        invariant
            start <= i <= s@.len(),
            start < s@.len(),
            digits == s@.subrange(start as int, s@.len() as int),
            parse_hex_usize(s@) == parse_hex_digits(digits),
            forall|j: int| start <= j < i ==> is_hex_digit(#[trigger] s@[j]),
            value as nat == hex_number(s@.subrange(start as int, i as int)),
        decreases s@.len() - i,
    {
        if !crate::record::is_hex_digit_byte(s[i]) {
            assert(digits[i - start] == s@[i as int]);
            return None;
        }
        let d = hex_digit_value(s[i]);
        let ghost prefix = s@.subrange(start as int, i + 1);
        assert(prefix.drop_last() =~= s@.subrange(start as int, i as int));
        assert(hex_number(prefix) == value as nat * 16 + d as nat);
        if value > (usize::MAX - d as usize) / 16 {
            proof {
                assert(hex_number(prefix) > usize::MAX) by (nonlinear_arith)
                    requires
                        hex_number(prefix) == value as nat * 16 + d as nat,
                        value > (usize::MAX - d as usize) / 16,
                        d < 16,
                ;
                assert(digits.subrange(0, prefix.len() as int) =~= prefix);
                lemma_hex_number_grows(prefix, digits);
            }
            return None;
        }
        assert(value * 16 + d <= usize::MAX) by (nonlinear_arith)
            requires
                value <= (usize::MAX - d as usize) / 16,
                d < 16,
        ;
        value = value * 16 + d as usize;
        i += 1;
    }
    assert(s@.subrange(start as int, i as int) =~= digits);
    Some(value)
}

/// A longer run of hex digits is worth at least as much as its prefix.
proof fn lemma_hex_number_grows(prefix: Seq<u8>, whole: Seq<u8>)
    requires
        prefix.len() <= whole.len(),
        prefix == whole.subrange(0, prefix.len() as int),
    ensures
        hex_number(prefix) <= hex_number(whole),
    decreases whole.len(),
{
    if whole.len() > prefix.len() {
        assert(whole.drop_last().subrange(0, prefix.len() as int) =~= prefix);
        lemma_hex_number_grows(prefix, whole.drop_last());
    } else {
        assert(prefix =~= whole);
    }
}

/// Parses hex text such as `DEAD` into bytes; `None` if its length is odd or
/// it holds anything but hex digits.
pub fn parse_hex_str_into_vec(input: &str) -> (r: Option<Vec<u8>>)
    ensures
        match parse_hex_pairs(input.spec_bytes()) {
            Some(b) => r matches Some(v) && v@ == b,
            None => r is None,
        },
{
    let s = input.as_bytes();
    if s.len() % 2 != 0 {
        return None;
    }
    let mut i: usize = 0;
    while i < s.len()
        invariant
            i <= s@.len(),
            s@ == input.spec_bytes(),
            forall|j: int| 0 <= j < i ==> is_hex_digit(#[trigger] s@[j]),
        decreases s@.len() - i,
    {
        if !crate::record::is_hex_digit_byte(s[i]) {
            return None;
        }
        i += 1;
    }
    let mut out: Vec<u8> = Vec::new();
    let mut k: usize = 0;
    while k < s.len() / 2
        invariant
            k <= s@.len() / 2,
            s@.len() % 2 == 0,
            s@ == input.spec_bytes(),
            forall|j: int| 0 <= j < s@.len() ==> is_hex_digit(#[trigger] s@[j]),
            out@ =~= Seq::new(k as nat, |q: int| crate::record::hex_byte_at(s@, 2 * q)),
        decreases s@.len() / 2 - k,
    {
        let hi = hex_digit_value(s[2 * k]);
        let lo = hex_digit_value(s[2 * k + 1]);
        out.push(hi * 16 + lo);
        k += 1;
    }
    Some(out)
}

// ------------------------------------------------------------------------
// Selection.
// ------------------------------------------------------------------------

/// Byte order in which multi-byte values are shown.
#[derive(Debug, Clone, Copy, PartialEq, Eq, Structural)]
pub enum Endianness {
    Little,
    Big,
}

pub open spec fn range_lo(r: [usize; 2]) -> usize {
    if r[0] <= r[1] {
        r[0]
    } else {
        r[1]
    }
}

pub open spec fn range_hi(r: [usize; 2]) -> usize {
    if r[0] <= r[1] {
        r[1]
    } else {
        r[0]
    }
}

/// The bytes selected with the pointer.
#[derive(Debug, Default)]
pub struct Selection {
    /// Start and end address of the selection; reversed when it was dragged
    /// right to left.
    pub range: Option<[usize; 2]>,
    /// The pointer was released since the selection was made.
    pub released: bool,
}

impl Selection {
    /// `addr` lies between the two ends of the selection.
    pub fn is_addr_within_range(&self, addr: usize) -> (r: bool)
        ensures
            r == match self.range {
                Some(rg) => range_lo(rg) <= addr <= range_hi(rg),
                None => false,
            },
    {
        if let Some(range) = self.range {
            if range[0] < range[1] {
                return range[0] <= addr && range[1] >= addr;
            }
            return range[1] <= addr && range[0] >= addr;
        }
        false
    }

    /// Extends the selection to `addr`; after a release it starts anew at `addr`.
    pub fn update(&mut self, addr: usize)
        ensures
            !final(self).released,
            final(self).range == Some(
                [
                    if old(self).released || old(self).range is None {
                        addr
                    } else {
                        old(self).range->0[0]
                    },
                    addr,
                ],
            ),
    {
        if self.released {
            self.released = false;
            self.range = None;
        }
        let first = match self.range {
            Some(r) => r[0],
            None => addr,
        };
        self.range = Some([first, addr]);
    }

    pub fn clear(&mut self)
        ensures
            final(self).range is None,
            !final(self).released,
    {
        self.range = None;
        self.released = false;
    }
}

/// The two optional ranges are equal.
pub fn same_range(a: Option<[usize; 2]>, b: Option<[usize; 2]>) -> (r: bool)
    ensures
        r == (a == b),
{
    match (a, b) {
        (Some(x), Some(y)) => {
            let eq = x[0] == y[0] && x[1] == y[1];
            proof {
                if eq {
                    assert(x =~= y);
                }
            }
            eq
        },
        (None, None) => true,
        _ => false,
    }
}

// ------------------------------------------------------------------------
// Address range on show.
// ------------------------------------------------------------------------

/// The address range of the image on show, and the text of a new start address.
#[derive(Debug, Default)]
pub struct Address {
    pub min: usize,
    pub max: usize,
    pub new_start: String,
}

impl Address {
    pub fn clear(&mut self)
        ensures
            final(self).min == 0,
            final(self).max == 0,
            final(self).new_start@ == Seq::<char>::empty(),
    {
        self.min = 0;
        self.max = 0;
        self.new_start = String::new();
    }

    /// Takes the lowest and highest address of the image (0 where it is empty).
    pub fn update_range(&mut self, ih: &IntelHex)
        ensures
            if ih.store().dom() == Set::<usize>::empty() {
                final(self).min == 0 && final(self).max == 0
            } else {
                is_min_key(ih.store(), final(self).min) && is_max_key(ih.store(), final(self).max)
            },
            final(self).new_start == old(self).new_start,
    {
        self.min = match ih.get_min_addr() {
            Some(a) => a,
            None => 0,
        };
        self.max = match ih.get_max_addr() {
            Some(a) => a,
            None => 0,
        };
    }

    /// Takes the typed start address as the new lowest address, if it reads
    /// as a hex number.
    pub fn set_new_start_addr(&mut self)
        ensures
            final(self).new_start == old(self).new_start,
            final(self).max == old(self).max,
            final(self).min == match parse_hex_usize(encode_utf8(old(self).new_start@)) {
                Some(a) => a,
                None => old(self).min,
            },
    {
        let text = self.new_start.as_str();
        if let Some(addr) = parse_hex_usize_bytes(text.as_bytes()) {
            self.min = addr;
        }
    }
}

// ------------------------------------------------------------------------
// Typing a byte over the selection.
// ------------------------------------------------------------------------

pub open spec fn is_hex_char(c: char) -> bool {
    ('0' <= c <= '9') || ('A' <= c <= 'F') || ('a' <= c <= 'f')
}

/// The ASCII byte of a hex digit character, upper case.
pub open spec fn upper_hex_byte(c: char) -> u8 {
    if 'a' <= c <= 'f' {
        (c as u32 - 0x20) as u8
    } else {
        c as u32 as u8
    }
}

/// The ASCII byte of a hex digit character.
pub open spec fn hex_byte_of_char(c: char) -> u8 {
    c as u32 as u8
}

fn is_hex_char_exec(c: char) -> (r: bool)
    ensures
        r == is_hex_char(c),
{
    ('0' <= c && c <= '9') || ('A' <= c && c <= 'F') || ('a' <= c && c <= 'f')
}

/// A byte being typed over the selected addresses.
#[derive(Debug, Default)]
pub struct ByteEdit {
    /// A byte is being typed.
    pub in_progress: bool,
    /// The hex digits typed so far.
    pub buffer: Vec<u8>,
    /// The selection the byte will be written over.
    pub addr: Option<[usize; 2]>,
    /// Addresses whose byte an edit changed.
    pub modified: Vec<usize>,
}

impl ByteEdit {
    /// One digit is typed while editing, none otherwise.
    pub open spec fn wf(&self) -> bool {
        &&& self.in_progress ==> self.buffer@.len() == 1 && is_hex_digit(self.buffer@[0])
            && self.addr is Some
        &&& !self.in_progress ==> self.buffer@.len() == 0
    }

    /// Ends the edit, typed or cancelled.
    pub fn clear(&mut self)
        ensures
            !final(self).in_progress,
            final(self).addr is None,
            final(self).buffer@ == Seq::<u8>::empty(),
            final(self).modified == old(self).modified,
    {
        self.in_progress = false;
        self.addr = None;
        self.buffer = Vec::new();
    }

    /// Forgets the edit and the record of modified bytes, as when another image is loaded.
    pub fn reset(&mut self)
        ensures
            !final(self).in_progress,
            final(self).addr is None,
            final(self).buffer@ == Seq::<u8>::empty(),
            final(self).modified@ == Seq::<usize>::empty(),
    {
        self.clear();
        self.modified = Vec::new();
    }

    /// `addr` is the range being edited.
    pub fn is_addr_same(&self, addr: Option<[usize; 2]>) -> (r: bool)
        ensures
            r == (addr == self.addr),
    {
        same_range(addr, self.addr)
    }
}

/// `m` with every address in `lo..end` that holds a byte set to `v`.
pub open spec fn fill_range(m: Map<usize, u8>, lo: nat, end: nat, v: u8) -> Map<usize, u8> {
    Map::new(
        |a: usize| m.contains_key(a),
        |a: usize|
            if lo <= a < end {
                v
            } else {
                m[a]
            },
    )
}

/// The addresses in `lo..lo + n` that hold a byte other than `v`, ascending.
pub open spec fn changed_addresses(m: Map<usize, u8>, lo: nat, n: nat, v: u8) -> Seq<usize>
    decreases n,
{
    if n == 0 {
        seq![]
    } else {
        let a = (lo + n - 1) as usize;
        let before = changed_addresses(m, lo, (n - 1) as nat, v);
        if m.contains_key(a) && m[a] != v {
            before.push(a)
        } else {
            before
        }
    }
}

/// The viewer's state around one image.
pub struct HexViewer {
    /// The image on show.
    pub ih: IntelHex,
    /// Its address range.
    pub addr: Address,
    /// Bytes shown per row.
    pub bytes_per_row: usize,
    /// Byte order of multi-byte values.
    pub endianness: Endianness,
    /// The last error to report.
    pub error: Option<String>,
    /// The byte being typed.
    pub editor: ByteEdit,
    /// The selected bytes.
    pub selection: Selection,
    /// The search box.
    pub search: Search,
    /// The jump-to box.
    pub jump_to: JumpTo,
    /// The pop-up in front, if any.
    pub popup: Popup,
}

impl Default for HexViewer {
    fn default() -> (r: Self)
        ensures
            r.wf(),
            r.ih.store() == Map::<usize, u8>::empty(),
            !r.editor.in_progress,
            r.bytes_per_row == 32,
    {
        Self::new()
    }
}

impl HexViewer {
    pub open spec fn wf(&self) -> bool {
        self.ih.wf() && self.editor.wf()
    }

    /// A viewer with an empty image, 32 bytes per row, little endian.
    pub fn new() -> (r: Self)
        ensures
            r.wf(),
            r.ih.store() == Map::<usize, u8>::empty(),
            !r.editor.in_progress,
            r.selection.range is None,
            r.bytes_per_row == 32,
            r.endianness == Endianness::Little,
            r.error is None,
            !r.popup.active,
            r.popup.ptype is None,
    {
        HexViewer {
            ih: IntelHex::new(),
            addr: Address { min: 0, max: 0, new_start: String::new() },
            bytes_per_row: 32,
            endianness: Endianness::Little,
            error: None,
            editor: ByteEdit { in_progress: false, buffer: Vec::new(), addr: None, modified: Vec::new() },
            selection: Selection { range: None, released: false },
            search: Search::new(),
            jump_to: JumpTo { has_focus: false, addr: None, input: String::new(), loose_focus: false },
            popup: Popup { active: false, ptype: None },
        }
    }

    /// Writes `value` over every address of `lo..=hi` that holds a byte, and
    /// records each address whose byte changed.
    fn write_range(&mut self, lo: usize, hi: usize, value: u8)
        requires
            lo <= hi,
        ensures
            final(self).ih.store() == fill_range(old(self).ih.store(), lo as nat, (hi + 1) as nat, value),
            final(self).ih.start_addr == old(self).ih.start_addr,
            final(self).ih.size == old(self).ih.size,
            final(self).ih.filepath == old(self).ih.filepath,
            final(self).editor.modified@ == old(self).editor.modified@ + changed_addresses(
                old(self).ih.store(),
                lo as nat,
                (hi - lo + 1) as nat,
                value,
            ),
            final(self).editor.in_progress == old(self).editor.in_progress,
            final(self).editor.buffer == old(self).editor.buffer,
            final(self).editor.addr == old(self).editor.addr,
            final(self).selection == old(self).selection,
            final(self).addr == old(self).addr,
            final(self).search == old(self).search,
    {
        let ghost m0 = self.ih.store();
        let ghost mod0 = self.editor.modified@;
        let span: u128 = (hi - lo) as u128 + 1;
        let mut k: u128 = 0;
        assert(self.ih.store() =~= fill_range(m0, lo as nat, lo as nat, value));
        assert(self.editor.modified@ =~= mod0 + changed_addresses(m0, lo as nat, 0, value));
        while k < span
            invariant
                span == hi - lo + 1,
                k <= span,
                m0 == old(self).ih.store(),
                mod0 == old(self).editor.modified@,
                self.ih.store() == fill_range(m0, lo as nat, (lo + k) as nat, value),
                self.ih.start_addr == old(self).ih.start_addr,
                self.ih.size == old(self).ih.size,
                self.ih.filepath == old(self).ih.filepath,
                self.editor.modified@ == mod0 + changed_addresses(m0, lo as nat, k as nat, value),
                self.editor.in_progress == old(self).editor.in_progress,
                self.editor.buffer == old(self).editor.buffer,
                self.editor.addr == old(self).editor.addr,
                self.selection == old(self).selection,
                self.addr == old(self).addr,
                self.search == old(self).search,
            decreases span - k,
        {
            let a = lo + k as usize;
            let ghost before = self.ih.store();
            assert(before.contains_key(a) == m0.contains_key(a));
            assert(before.contains_key(a) ==> before[a] == m0[a]);
            let prev = self.ih.get_byte(a);
            let res = self.ih.update_byte(a, value);
            let changed = match prev {
                Some(p) => p != value,
                None => false,
            };
            if res.is_ok() && changed {
                self.editor.modified.push(a);
            }
            k += 1;
            assert(self.ih.store() =~= fill_range(m0, lo as nat, (lo + k) as nat, value));
            assert(self.editor.modified@ =~= mod0 + changed_addresses(
                m0,
                lo as nat,
                k as nat,
                value,
            ));
        }

    }

    /// Takes one typed character (or none) into the byte edit. A hex digit
    /// typed over a released selection starts an edit; a second one writes
    /// the byte over the selection. Changing the selection cancels the edit.
    pub fn update_edit_buffer(&mut self, typed_char: Option<char>)
        requires
            old(self).wf(),
        ensures
            final(self).wf(),
            final(self).selection == old(self).selection,
            ({
                let sel = old(self).selection;
                let ed = old(self).editor;
                if sel.range is Some && sel.released && !ed.in_progress && typed_char is Some {
                    let ch = typed_char->0;
                    if is_hex_char(ch) {
                        &&& final(self).editor.in_progress
                        &&& final(self).editor.addr == sel.range
                        &&& final(self).editor.buffer@ == seq![upper_hex_byte(ch)]
                        &&& final(self).editor.modified == ed.modified
                        &&& final(self).ih == old(self).ih
                    } else {
                        final(self).editor == ed && final(self).ih == old(self).ih
                    }
                } else if ed.in_progress {
                    if ed.addr != sel.range {
                        &&& !final(self).editor.in_progress
                        &&& final(self).editor.addr is None
                        &&& final(self).editor.buffer@.len() == 0
                        &&& final(self).editor.modified == ed.modified
                        &&& final(self).ih == old(self).ih
                    } else if typed_char is Some && is_hex_char(typed_char->0) {
                        let r = ed.addr->0;
                        let v = (hex_value(ed.buffer@[0]) * 16 + hex_value(
                            hex_byte_of_char(typed_char->0),
                        )) as u8;
                        &&& !final(self).editor.in_progress
                        &&& final(self).ih.store() == fill_range(
                            old(self).ih.store(),
                            range_lo(r) as nat,
                            (range_hi(r) + 1) as nat,
                            v,
                        )
                        &&& final(self).ih.start_addr == old(self).ih.start_addr
                        &&& final(self).editor.modified@ == ed.modified@ + changed_addresses(
                            old(self).ih.store(),
                            range_lo(r) as nat,
                            (range_hi(r) - range_lo(r) + 1) as nat,
                            v,
                        )
                    } else {
                        final(self).editor == ed && final(self).ih == old(self).ih
                    }
                } else {
                    final(self).editor == ed && final(self).ih == old(self).ih
                }
            }),
    {
        if self.selection.range.is_some() && self.selection.released && !self.editor.in_progress
            && typed_char.is_some() {
            let ch = typed_char.unwrap();
            if is_hex_char_exec(ch) {
                let b: u8 = if 'a' <= ch && ch <= 'f' {
                    (ch as u32 - 0x20) as u8
                } else {
                    ch as u32 as u8
                };
                self.editor.in_progress = true;
                self.editor.addr = self.selection.range;
                let mut buf: Vec<u8> = Vec::new();
                buf.push(b);
                self.editor.buffer = buf;
            }
        } else if self.editor.in_progress {
            if !self.editor.is_addr_same(self.selection.range) {
                self.editor.clear();
                return;
            }
            if let Some(ch) = typed_char {
                if is_hex_char_exec(ch) {
                    let first = self.editor.buffer[0];
                    let hi = hex_digit_value(first);
                    let lo = hex_digit_value(ch as u32 as u8);
                    let value = hi * 16 + lo;
                    if let Some(r) = self.editor.addr {
                        let (s, e) = if r[0] <= r[1] {
                            (r[0], r[1])
                        } else {
                            (r[1], r[0])
                        };
                        self.write_range(s, e, value);
                    }
                    self.editor.clear();
                }
            }
        }
    }
}

// ------------------------------------------------------------------------
// Search and jump-to boxes, pop-ups.
// ------------------------------------------------------------------------

/// The search box and its results.
#[derive(Debug, Default, Clone)]
pub struct Search {
    pub has_focus: bool,
    /// Address to scroll to.
    pub addr: Option<usize>,
    /// Match start addresses.
    pub results: Vec<usize>,
    /// Length of the pattern searched for.
    pub length: usize,
    /// Text in the box.
    pub input: String,
    /// Text of the last search.
    pub last_input: String,
    /// Index of the current result.
    pub idx: usize,
    /// Search again on the next frame even without Enter.
    pub force: bool,
    /// Give up keyboard focus on the next frame.
    pub loose_focus: bool,
}

impl Search {
    pub fn new() -> (r: Self)
        ensures
            r.results@ == Seq::<usize>::empty(),
            r.addr is None,
            !r.force,
    {
        Search {
            has_focus: false,
            addr: None,
            results: Vec::new(),
            length: 0,
            input: String::new(),
            last_input: String::new(),
            idx: 0,
            force: false,
            loose_focus: false,
        }
    }

    /// Forgets the results; the typed text stays in the box.
    pub fn clear(&mut self)
        ensures
            !final(self).has_focus,
            final(self).addr is None,
            final(self).results@ == Seq::<usize>::empty(),
            final(self).length == 0,
            final(self).input == old(self).input,
            final(self).last_input@ == Seq::<char>::empty(),
            final(self).idx == 0,
            !final(self).force,
            final(self).loose_focus == old(self).loose_focus,
    {
        self.has_focus = false;
        self.addr = None;
        self.results = Vec::new();
        self.length = 0;
        self.last_input = String::new();
        self.idx = 0;
        self.force = false;
    }

    /// Runs the last search again on the next frame (after the bytes changed).
    pub fn redo(&mut self)
        ensures
            final(self).input@ == old(self).last_input@,
            final(self).results@ == Seq::<usize>::empty(),
            final(self).last_input@ == Seq::<char>::empty(),
            final(self).addr is None,
            final(self).idx == 0,
            final(self).force,
    {
        self.input = self.last_input.clone();
        self.clear();
        self.force = true;
    }

    pub fn loose_focus(&mut self)
        ensures
            final(self).loose_focus,
            final(self).input == old(self).input,
            final(self).results == old(self).results,
    {
        self.loose_focus = true;
    }

    /// Acts on Enter (or on a forced search): the same text moves to the
    /// next result; new text is read as hex bytes and searched for (no
    /// results if it is not hex bytes). Unless the search was forced, the
    /// current result becomes the address to scroll to.
    pub fn submit(&mut self, ih: &IntelHex)
        ensures
            final(self).input == old(self).input,
            !final(self).force,
            if old(self).input@ == old(self).last_input@ {
                &&& final(self).results == old(self).results
                &&& final(self).last_input == old(self).last_input
                &&& final(self).length == old(self).length
                &&& final(self).idx == if old(self).results@.len() > 0 {
                    ((old(self).idx + 1) % old(self).results@.len() as int) as usize
                } else {
                    old(self).idx
                }
            } else {
                &&& final(self).idx == 0
                &&& final(self).last_input@ == old(self).input@
                &&& match parse_hex_pairs(encode_utf8(old(self).input@)) {
                    Some(p) => final(self).results@ == spec_search(ascending_listing(ih.store()), p)
                        && final(self).length == p.len(),
                    None => final(self).results@ == Seq::<usize>::empty() && final(self).length
                        == old(self).length,
                }
            },
            old(self).force ==> final(self).addr == old(self).addr,
            !old(self).force ==> final(self).addr == if final(self).idx < final(self).results@.len() {
                Some(final(self).results@[final(self).idx as int])
            } else {
                None
            },
    {
        if self.input == self.last_input {
            let n = self.results.len();
            if n > 0 {
                proof {
                    vstd::arithmetic::div_mod::lemma_add_mod_noop(self.idx as int, 1, n as int);
                    vstd::arithmetic::div_mod::lemma_mod_bound(self.idx as int, n as int);
                    if n > 1 {
                        vstd::arithmetic::div_mod::lemma_small_mod(1, n as nat);
                    }
                }
                self.idx = (self.idx % n + 1) % n;
            }
        } else {
            match parse_hex_str_into_vec(self.input.as_str()) {
                Some(p) => {
                    self.results = ih.search(p.as_slice());
                    self.length = p.len();
                },
                None => {
                    self.results = Vec::new();
                },
            }
            self.idx = 0;
            self.last_input = self.input.clone();
        }
        if !self.force {
            self.addr = if self.idx < self.results.len() {
                Some(self.results[self.idx])
            } else {
                None
            };
        }
        self.force = false;
    }
}

/// The jump-to box.
#[derive(Debug, Default)]
pub struct JumpTo {
    pub has_focus: bool,
    /// Address to jump to.
    pub addr: Option<usize>,
    /// Text in the box.
    pub input: String,
    /// Give up keyboard focus on the next frame.
    pub loose_focus: bool,
}

impl JumpTo {
    pub fn loose_focus(&mut self)
        ensures
            final(self).loose_focus,
            final(self).addr == old(self).addr,
            final(self).input == old(self).input,
    {
        self.loose_focus = true;
    }

    /// Reads the typed text as the hex address to jump to (`None` if it is not one).
    pub fn take_input(&mut self)
        ensures
            final(self).addr == parse_hex_usize(encode_utf8(old(self).input@)),
            final(self).input == old(self).input,
    {
        let text = self.input.as_str();
        self.addr = parse_hex_usize_bytes(text.as_bytes());
    }
}

/// The kinds of pop-up.
#[derive(Debug, Clone, Copy, PartialEq, Eq, Structural)]
pub enum PopupType {
    Error,
    About,
    ReAddr,
}

impl PopupType {
    /// The window title of the pop-up.
    pub fn title(&self) -> (r: &'static str)
        ensures
            r@ == match self {
                PopupType::Error => "Error"@,
                PopupType::About => "About"@,
                PopupType::ReAddr => "Re-Address"@,
            },
    {
        match self {
            PopupType::Error => "Error",
            PopupType::About => "About",
            PopupType::ReAddr => "Re-Address",
        }
    }
}

/// The pop-up in front, if any.
#[derive(Debug, Default)]
pub struct Popup {
    pub active: bool,
    pub ptype: Option<PopupType>,
}

impl Popup {
    pub fn clear(&mut self)
        ensures
            !final(self).active,
            final(self).ptype is None,
    {
        self.active = false;
        self.ptype = None;
    }
}

} // verus!
