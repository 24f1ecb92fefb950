//! The sparse byte image behind a hex file, and the parse pipeline that
//! fills it: records are read line by line and folded into a running
//! address offset, a store of absolute addresses, and an optional start
//! address.
use crate::error::{IntelHexError, IntelHexErrorKind};
use crate::record::{spec_parse_record, Record, RecordType, RecordView};
use std::collections::BTreeMap;
use vstd::prelude::*;
use vstd::std_specs::btree::{increasing_seq, spec_btree_map_iter};
use vstd::std_specs::cmp::OrdSpec;
use vstd::std_specs::iter::IteratorSpec;
use vstd::string::StringSliceAdditionalSpecFns;

verus! {

broadcast use vstd::std_specs::btree::group_btree_axioms;

pub const LINE_FEED: u8 = 0x0A;

pub const CARRIAGE_RETURN: u8 = 0x0D;

// ------------------------------------------------------------------------
// Lines of a text.
// ------------------------------------------------------------------------

/// A line that ended in a line feed loses one carriage return before it.
pub open spec fn strip_cr(line: Seq<u8>) -> Seq<u8> {
    if line.len() > 0 && line.last() == CARRIAGE_RETURN {
        line.drop_last()
    } else {
        line
    }
}

/// The lines of `text[start..]`, where `text[start..pos]` holds no line feed.
/// Lines end at a line feed (with an optional carriage return before it);
/// the last line needs no terminator, and a final terminator adds no line.
pub open spec fn lines_from(text: Seq<u8>, start: int, pos: int) -> Seq<Seq<u8>>
    decreases text.len() - pos,
{
    if pos >= text.len() {
        if start < text.len() {
            seq![text.subrange(start, text.len() as int)]
        } else {
            seq![]
        }
    } else if text[pos] == LINE_FEED {
        seq![strip_cr(text.subrange(start, pos))] + lines_from(text, pos + 1, pos + 1)
    } else {
        lines_from(text, start, pos + 1)
    }
}

pub open spec fn lines_of(text: Seq<u8>) -> Seq<Seq<u8>> {
    lines_from(text, 0, 0)
}

// ------------------------------------------------------------------------
// The parse pipeline, as a fold over the lines.
// ------------------------------------------------------------------------

/// The state that the records of a file are folded into.
pub struct ParseState {
    /// Base added to the address of each Data record.
    pub offset: nat,
    /// Absolute address to byte.
    pub store: Map<usize, u8>,
    /// The start address record's type and four bytes, once seen.
    pub start: Option<(RecordType, Seq<u8>)>,
}

pub open spec fn initial_state() -> ParseState {
    ParseState { offset: 0, store: Map::empty(), start: None }
}

/// `store` with `data[k]` written at `base + k`.
pub open spec fn insert_run(store: Map<usize, u8>, base: nat, data: Seq<u8>) -> Map<usize, u8>
    decreases data.len(),
{
    if data.len() == 0 {
        store
    } else {
        insert_run(store, base, data.drop_last()).insert(
            (base + data.len() - 1) as usize,
            data.last(),
        )
    }
}

/// The first `k` in `from..n` with `base + k` already in `store`.
pub open spec fn first_overlap(store: Map<usize, u8>, base: nat, n: nat, from: nat) -> Option<nat>
    decreases n - from,
{
    if from >= n {
        None
    } else if store.contains_key((base + from) as usize) {
        Some(from)
    } else {
        first_overlap(store, base, n, from + 1)
    }
}

/// The value of the two bytes of an extended address record.
pub open spec fn segment_value(data: Seq<u8>) -> nat {
    (data[0] as nat * 256 + data[1] as nat) as nat
}

/// Folds one well-formed record, read at line `line_no`, into the state.
pub open spec fn spec_apply_record(s: ParseState, rec: RecordView, line_no: nat) -> Result<
    ParseState,
    IntelHexError,
> {
    if rec.checksum != rec.expected_checksum() {
        Err(
            IntelHexError::ParseRecordError(
                IntelHexErrorKind::RecordChecksumMismatch(rec.expected_checksum(), rec.checksum),
                line_no as usize,
            ),
        )
    } else {
        match rec.rtype {
            RecordType::Data => {
                let base = s.offset + rec.address as nat;
                if base + rec.data.len() > usize::MAX + 1 {
                    Err(
                        IntelHexError::ParseRecordError(
                            IntelHexErrorKind::InvalidAddress(s.offset as usize),
                            line_no as usize,
                        ),
                    )
                } else {
                    match first_overlap(s.store, base, rec.data.len(), 0) {
                        Some(k) => Err(
                            IntelHexError::ParseRecordError(
                                IntelHexErrorKind::RecordAddressOverlap((base + k) as usize),
                                line_no as usize,
                            ),
                        ),
                        None => Ok(ParseState { store: insert_run(s.store, base, rec.data), ..s }),
                    }
                }
            },
            RecordType::EndOfFile => Ok(s),
            RecordType::ExtendedSegmentAddress => Ok(
                ParseState { offset: segment_value(rec.data) * 16, ..s },
            ),
            RecordType::ExtendedLinearAddress => Ok(
                ParseState { offset: segment_value(rec.data) * 65536, ..s },
            ),
            _ => {
                if s.start is Some {
                    Err(
                        IntelHexError::ParseRecordError(
                            IntelHexErrorKind::DuplicateStartAddress,
                            line_no as usize,
                        ),
                    )
                } else {
                    Ok(ParseState { start: Some((rec.rtype, rec.data)), ..s })
                }
            },
        }
    }
}

/// Parses line `line_no` and folds it into the state.
#[verifier::opaque]
pub open spec fn spec_parse_line(s: ParseState, line: Seq<u8>, line_no: nat) -> Result<
    ParseState,
    IntelHexError,
> {
    match spec_parse_record(line) {
        Err(k) => Err(IntelHexError::ParseRecordError(k, line_no as usize)),
        Ok(rec) => spec_apply_record(s, rec, line_no),
    }
}

/// Folds the lines, numbered from 1, into the initial state; the first error wins.
pub open spec fn spec_parse_lines(lines: Seq<Seq<u8>>) -> Result<ParseState, IntelHexError>
    decreases lines.len(),
{
    if lines.len() == 0 {
        Ok(initial_state())
    } else {
        match spec_parse_lines(lines.drop_last()) {
            Err(e) => Err(e),
            Ok(s) => spec_parse_line(s, lines.last(), lines.len()),
        }
    }
}

/// What parsing the text of a hex file yields.
pub open spec fn spec_parse_hex(text: Seq<u8>) -> Result<ParseState, IntelHexError> {
    spec_parse_lines(lines_of(text))
}

// ------------------------------------------------------------------------
// The image.
// ------------------------------------------------------------------------

/// The start address record of an image, if it has one.
#[derive(Debug, Clone)]
pub struct StartAddress {
    /// Type of the start address record.
    pub rtype: Option<RecordType>,
    /// Its four data bytes.
    pub bytes: Vec<u8>,
}

impl View for StartAddress {
    type V = Option<(RecordType, Seq<u8>)>;

    open spec fn view(&self) -> Option<(RecordType, Seq<u8>)> {
        match self.rtype {
            Some(t) => Some((t, self.bytes@)),
            None => None,
        }
    }
}

/// A start address as a parse records it: a start address type and four bytes.
pub open spec fn start_wf(start: Option<(RecordType, Seq<u8>)>) -> bool {
    match start {
        Some((t, b)) => t.is_start_address() && b.len() == 4,
        None => true,
    }
}

impl StartAddress {
    pub open spec fn wf(&self) -> bool {
        &&& start_wf(self@)
        &&& self.rtype is None ==> self.bytes@.len() == 0
    }

    /// No start address has been recorded.
    pub fn is_empty(&self) -> (r: bool)
        requires
            self.wf(),
        ensures
            r == (self@ is None),
    {
        self.rtype.is_none() && self.bytes.len() == 0
    }
}

/// A sparse byte image: absolute address to byte, with an optional start address.
#[derive(Debug, Clone)]
pub struct IntelHex {
    /// Where the image was loaded from.
    pub filepath: String,
    /// Size in bytes of the text it was loaded from.
    pub size: usize,
    /// The start address record, if any.
    pub start_addr: StartAddress,
    /// Absolute address to byte, in ascending order of address.
    pub buffer: BTreeMap<usize, u8>,
}

impl Default for IntelHex {
    fn default() -> (r: Self)
        ensures
            r.wf(),
            r.store() == Map::<usize, u8>::empty(),
            r.start() is None,
            r.size == 0,
    {
        Self::new()
    }
}

impl IntelHex {
    /// Absolute address to byte.
    pub open spec fn store(&self) -> Map<usize, u8> {
        self.buffer@
    }

    /// The start address record's type and bytes, if any.
    pub open spec fn start(&self) -> Option<(RecordType, Seq<u8>)> {
        self.start_addr@
    }

    pub open spec fn wf(&self) -> bool {
        self.start_addr.wf()
    }

    /// An empty image.
    pub fn new() -> (r: Self)
        ensures
            r.wf(),
            r.store() == Map::<usize, u8>::empty(),
            r.start() is None,
            r.size == 0,
            r.filepath@ == Seq::<char>::empty(),
    {
        IntelHex {
            filepath: String::new(),
            size: 0,
            start_addr: StartAddress { rtype: None, bytes: Vec::new() },
            buffer: BTreeMap::new(),
        }
    }
}


// ------------------------------------------------------------------------
// Executable parse.
// ------------------------------------------------------------------------

/// The largest offset an extended address record can set.
pub const MAX_OFFSET: usize = 0xFFFF_0000;

pub open spec fn state_of(offset: usize, ih: &IntelHex) -> ParseState {
    ParseState { offset: offset as nat, store: ih.store(), start: ih.start() }
}

pub(crate) proof fn lemma_insert_run_contains(store: Map<usize, u8>, base: nat, data: Seq<u8>, a: usize)
    requires
        base + data.len() <= usize::MAX + 1,
    ensures
        insert_run(store, base, data).contains_key(a) <==> (store.contains_key(a) || (base <= a
            < base + data.len())),
    decreases data.len(),
{
    if data.len() > 0 {
        lemma_insert_run_contains(store, base, data.drop_last(), a);
    }
}

pub(crate) proof fn lemma_parse_error_persists(a: Seq<Seq<u8>>, b: Seq<Seq<u8>>)
    requires
        spec_parse_lines(a) is Err,
    ensures
        spec_parse_lines(a + b) == spec_parse_lines(a),
    decreases b.len(),
{
    if b.len() == 0 {
        assert(a + b =~= a);
    } else {
        lemma_parse_error_persists(a, b.drop_last());
        assert((a + b).drop_last() =~= a + b.drop_last());
    }
}

pub(crate) proof fn lemma_lines_step(text: Seq<u8>, start: int, pos: int)
    requires
        0 <= start <= pos < text.len(),
    ensures
        text[pos] == LINE_FEED ==> lines_from(text, start, pos) == seq![
            strip_cr(text.subrange(start, pos)),
        ] + lines_from(text, pos + 1, pos + 1),
        text[pos] != LINE_FEED ==> lines_from(text, start, pos) == lines_from(text, start, pos + 1),
{
}

pub(crate) proof fn lemma_parse_line_record(s: ParseState, line: Seq<u8>, n: nat)
    requires
        spec_parse_record(line) is Ok,
    ensures
        spec_parse_line(s, line, n) == spec_apply_record(s, spec_parse_record(line)->Ok_0, n),
{
    reveal(spec_parse_line);
}

pub(crate) proof fn lemma_parse_lines_push(done: Seq<Seq<u8>>, line: Seq<u8>)
    ensures
        spec_parse_lines(done.push(line)) == match spec_parse_lines(done) {
            Err(e) => Err(e),
            Ok(s) => spec_parse_line(s, line, done.len() + 1),
        },
{
    assert(done.push(line).drop_last() =~= done);
}

impl IntelHex {
    /// Writes the bytes of a Data record at `base`, refusing any address
    /// that already holds data.
    fn insert_data(&mut self, base: usize, data: &Vec<u8>, line_no: usize) -> (r: Result<
        (),
        IntelHexError,
    >)
        requires
            base as nat + data@.len() <= usize::MAX + 1,
        ensures
            final(self).start_addr == old(self).start_addr,
            match first_overlap(old(self).store(), base as nat, data@.len(), 0) {
                Some(k) => r == Err::<(), IntelHexError>(
                    IntelHexError::ParseRecordError(
                        IntelHexErrorKind::RecordAddressOverlap((base + k) as usize),
                        line_no,
                    ),
                ),
                None => r is Ok && final(self).store() == insert_run(
                    old(self).store(),
                    base as nat,
                    data@,
                ),
            },
    {
        let ghost old_store = self.buffer@;
        let mut k: usize = 0;
        while k < data.len()
            invariant
                k <= data@.len(),
                base as nat + data@.len() <= usize::MAX + 1,
                self.start_addr == old(self).start_addr,
                old_store == old(self).store(),
                self.buffer@ == insert_run(old_store, base as nat, data@.subrange(0, k as int)),
                first_overlap(old_store, base as nat, data@.len(), 0) == first_overlap(
                    old_store,
                    base as nat,
                    data@.len(),
                    k as nat,
                ),
            decreases data@.len() - k,
        {
            let addr = base + k;
            proof {
                lemma_insert_run_contains(
                    old_store,
                    base as nat,
                    data@.subrange(0, k as int),
                    addr,
                );
            }
            if self.buffer.contains_key(&addr) {
                return Err(
                    IntelHexError::ParseRecordError(
                        IntelHexErrorKind::RecordAddressOverlap(addr),
                        line_no,
                    ),
                );
            }
            self.buffer.insert(addr, data[k]);
            assert(data@.subrange(0, k + 1).drop_last() =~= data@.subrange(0, k as int));
            k += 1;
        }
        assert(data@.subrange(0, k as int) =~= data@);
        Ok(())
    }

    /// Folds one record into the image being built; `offset` is the
    /// running base of Data records.
    fn apply_record(&mut self, rec: &Record, offset: &mut usize, line_no: usize) -> (r: Result<
        (),
        IntelHexError,
    >)
        requires
            old(self).wf(),
            rec.wf(),
            rec@.fits_type(),
            *old(offset) <= MAX_OFFSET,
        ensures
            match spec_apply_record(state_of(*old(offset), old(self)), rec@, line_no as nat) {
                Ok(s) => r is Ok && final(self).wf() && *final(offset) <= MAX_OFFSET && s
                    == state_of(*final(offset), final(self)),
                Err(e) => r == Err::<(), IntelHexError>(e),
            },
    {
        let expected = rec.calculate_checksum_from_self();
        if rec.checksum != expected {
            return Err(
                IntelHexError::ParseRecordError(
                    IntelHexErrorKind::RecordChecksumMismatch(expected, rec.checksum),
                    line_no,
                ),
            );
        }
        match rec.rtype {
            RecordType::Data => {
                let base: usize = *offset + rec.address as usize;
                let n = rec.data.len();
                if n > 0 && usize::MAX - base < n - 1 {
                    return Err(
                        IntelHexError::ParseRecordError(
                            IntelHexErrorKind::InvalidAddress(*offset),
                            line_no,
                        ),
                    );
                }
                self.insert_data(base, &rec.data, line_no)
            },
            RecordType::EndOfFile => Ok(()),
            RecordType::ExtendedSegmentAddress => {
                *offset = (rec.data[0] as usize * 256 + rec.data[1] as usize) * 16;
                Ok(())
            },
            RecordType::ExtendedLinearAddress => {
                *offset = (rec.data[0] as usize * 256 + rec.data[1] as usize) * 65536;
                Ok(())
            },
            _ => {
                if !self.start_addr.is_empty() {
                    return Err(
                        IntelHexError::ParseRecordError(
                            IntelHexErrorKind::DuplicateStartAddress,
                            line_no,
                        ),
                    );
                }
                let bytes = rec.data.clone();
                assert(bytes@ =~= rec.data@);
                self.start_addr = StartAddress { rtype: Some(rec.rtype), bytes };
                Ok(())
            },
        }
    }

    /// Parses one line and folds it into the image being built.
    fn apply_line(&mut self, line: &[u8], offset: &mut usize, line_no: usize) -> (r: Result<
        (),
        IntelHexError,
    >)
        requires
            old(self).wf(),
            *old(offset) <= MAX_OFFSET,
        ensures
            match spec_parse_line(state_of(*old(offset), old(self)), line@, line_no as nat) {
                Ok(s) => r is Ok && final(self).wf() && *final(offset) <= MAX_OFFSET && s
                    == state_of(*final(offset), final(self)),
                Err(e) => r == Err::<(), IntelHexError>(e),
            },
    {
        reveal(spec_parse_line);
        match Record::parse(line) {
            Err(k) => Err(IntelHexError::ParseRecordError(k, line_no)),
            Ok(rec) => self.apply_record(&rec, offset, line_no),
        }
    }

    /// Parses the text of a hex file into this image, replacing its bytes and
    /// start address. On error the image is left as it was.
    pub fn parse(&mut self, raw_contents: &[u8]) -> (r: Result<(), IntelHexError>)
        requires
            old(self).wf(),
        ensures
            match spec_parse_hex(raw_contents@) {
                Ok(s) => r is Ok && final(self).wf() && final(self).store() == s.store
                    && final(self).start() == s.start && final(self).size == old(self).size
                    && final(self).filepath == old(self).filepath,
                Err(e) => r == Err::<(), IntelHexError>(e) && *final(self) == *old(self),
            },
    {
        let raw = raw_contents;
        let mut fresh = IntelHex::new();
        let mut offset: usize = 0;
        let mut start: usize = 0;
        let mut pos: usize = 0;
        let mut line_no: usize = 0;
        let ghost mut done: Seq<Seq<u8>> = seq![];
        while pos < raw.len()
            invariant
                start <= pos <= raw@.len(),
                line_no <= start,
                lines_of(raw@) == done + lines_from(raw@, start as int, pos as int),
                line_no == done.len(),
                spec_parse_lines(done) == Ok::<ParseState, IntelHexError>(
                    state_of(offset, &fresh),
                ),
                fresh.wf(),
                offset <= MAX_OFFSET,
                *self == *old(self),
                raw@ == raw_contents@,
            decreases raw@.len() - pos,
        {
            proof {
                lemma_lines_step(raw@, start as int, pos as int);
            }
            if raw[pos] == LINE_FEED {
                let mut end = pos;
                if end > start && raw[end - 1] == CARRIAGE_RETURN {
                    end = end - 1;
                }
                let line = &raw[start..end];
                assert(line@ =~= strip_cr(raw@.subrange(start as int, pos as int)));
                line_no = line_no + 1;
                let ghost before = state_of(offset, &fresh);
                let res = fresh.apply_line(line, &mut offset, line_no);
                let ghost next = done.push(line@);
                proof {
                    lemma_parse_lines_push(done, line@);
                    assert(lines_of(raw@) =~= next + lines_from(raw@, pos + 1, pos + 1));
                }
                if let Err(e) = res {
                    assert(spec_parse_line(before, line@, line_no as nat) == Err::<
                        ParseState,
                        IntelHexError,
                    >(e));
                    proof {
                        lemma_parse_error_persists(next, lines_from(raw@, pos + 1, pos + 1));
                    }
                    return Err(e);
                }
                proof {
                    done = next;
                }
                start = pos + 1;
            }
            pos = pos + 1;
        }
        if start < raw.len() {
            let line = &raw[start..raw.len()];
            line_no = line_no + 1;
            let ghost before = state_of(offset, &fresh);
            let res = fresh.apply_line(line, &mut offset, line_no);
            proof {
                lemma_parse_lines_push(done, line@);
                assert(lines_of(raw@) =~= done.push(line@));
            }
            if let Err(e) = res {
                assert(spec_parse_line(before, line@, line_no as nat) == Err::<
                    ParseState,
                    IntelHexError,
                >(e));
                return Err(e);
            }
        } else {
            assert(lines_of(raw@) =~= done);
        }
        self.buffer = fresh.buffer;
        self.start_addr = fresh.start_addr;
        Ok(())
    }

    /// Replaces the bytes and start address with those of the hex text, and
    /// records its size. On error the image is left as it was.
    pub fn load_hex_str(&mut self, contents: &str) -> (r: Result<(), IntelHexError>)
        requires
            old(self).wf(),
        ensures
            match spec_parse_hex(contents.spec_bytes()) {
                Ok(s) => r is Ok && final(self).wf() && final(self).store() == s.store
                    && final(self).start() == s.start && final(self).size
                    == contents.spec_bytes().len() && final(self).filepath == old(self).filepath,
                Err(e) => r == Err::<(), IntelHexError>(e) && *final(self) == *old(self),
            },
    {
        let bytes = contents.as_bytes();
        assert(bytes@ == contents.spec_bytes());
        match self.parse(bytes) {
            Ok(()) => {
                self.size = bytes.len();
                Ok(())
            },
            Err(e) => Err(e),
        }
    }

    /// A new image holding the bytes and start address of the hex text.
    pub fn from_hex_str(contents: &str) -> (r: Result<IntelHex, IntelHexError>)
        ensures
            match spec_parse_hex(contents.spec_bytes()) {
                Ok(s) => r matches Ok(ih) && ih.wf() && ih.store() == s.store && ih.start()
                    == s.start && ih.size == contents.spec_bytes().len(),
                Err(e) => r == Err::<IntelHex, IntelHexError>(e),
            },
    {
        let mut ih = IntelHex::new();
        match ih.load_hex_str(contents) {
            Ok(()) => Ok(ih),
            Err(e) => Err(e),
        }
    }
}

// ------------------------------------------------------------------------
// The store in ascending order.
// ------------------------------------------------------------------------

/// `s` lists the pairs of `m`, each once, by ascending address.
pub open spec fn is_ascending_listing(s: Seq<(usize, u8)>, m: Map<usize, u8>) -> bool {
    &&& forall|i: int, j: int| 0 <= i < j < s.len() ==> s[i].0 < s[j].0
    &&& forall|i: int|
        0 <= i < s.len() ==> m.contains_key(#[trigger] s[i].0) && m[s[i].0] == s[i].1
    &&& forall|a: usize| #[trigger]
        m.contains_key(a) ==> exists|i: int| 0 <= i < s.len() && s[i].0 == a
}

/// The pairs of `m` by ascending address.
pub open spec fn ascending_listing(m: Map<usize, u8>) -> Seq<(usize, u8)> {
    choose|s: Seq<(usize, u8)>| is_ascending_listing(s, m)
}

proof fn lemma_listing_prefix(s1: Seq<(usize, u8)>, s2: Seq<(usize, u8)>, m: Map<usize, u8>, i: int)
    requires
        is_ascending_listing(s1, m),
        is_ascending_listing(s2, m),
        0 <= i <= s1.len(),
        i <= s2.len(),
    ensures
        forall|k: int| 0 <= k < i ==> s1[k] == s2[k],
    decreases i,
{
    if i > 0 {
        let n = i - 1;
        lemma_listing_prefix(s1, s2, m, n);
        let a = s1[n].0;
        let b = s2[n].0;
        assert(m.contains_key(a));
        assert(m.contains_key(b));
        let j = choose|j: int| 0 <= j < s2.len() && s2[j].0 == a;
        let j2 = choose|j: int| 0 <= j < s1.len() && s1[j].0 == b;
        if j < n {
            assert(s1[j] == s2[j]);
        }
        if j2 < n {
            assert(s1[j2] == s2[j2]);
        }
        if j > n {
            assert(s2[n].0 < s2[j].0);
            assert(j2 >= n);
            if j2 > n {
                assert(s1[n].0 < s1[j2].0);
            }
        }
        assert(a == b);
    }
}

/// A map has at most one listing by ascending address.
pub proof fn lemma_listing_unique(s1: Seq<(usize, u8)>, s2: Seq<(usize, u8)>, m: Map<usize, u8>)
    requires
        is_ascending_listing(s1, m),
        is_ascending_listing(s2, m),
    ensures
        s1 == s2,
{
    if s1.len() > s2.len() {
        lemma_listing_prefix(s1, s2, m, s2.len() as int);
        let a = s1[s2.len() as int].0;
        assert(m.contains_key(a));
        let j = choose|j: int| 0 <= j < s2.len() && s2[j].0 == a;
        assert(s1[j] == s2[j]);
    } else if s2.len() > s1.len() {
        lemma_listing_prefix(s2, s1, m, s1.len() as int);
        let a = s2[s1.len() as int].0;
        assert(m.contains_key(a));
        let j = choose|j: int| 0 <= j < s1.len() && s1[j].0 == a;
        assert(s1[j] == s2[j]);
    } else {
        lemma_listing_prefix(s1, s2, m, s1.len() as int);
        assert(s1 =~= s2);
    }
}

impl IntelHex {
    /// The (address, byte) pairs of the store, by ascending address.
    pub fn entries(&self) -> (r: Vec<(usize, u8)>)
        ensures
            is_ascending_listing(r@, self.store()),
            r@ == ascending_listing(self.store()),
    {
        let it0 = self.buffer.iter();
        let ghost all = it0.remaining();
        assert(increasing_seq(all.map_values(|kv: (&usize, &u8)| *kv.0)));
        let mut v: Vec<(usize, u8)> = Vec::new();
        for p in it: it0
            invariant
                it.seq() == all,
                v@ == all.take(it.index() as int).map_values(|q: (&usize, &u8)| (*q.0, *q.1)),
        {
            let (k, b) = p;
            v.push((*k, *b));
            assert(v@ =~= all.take(it.index() as int + 1).map_values(
                |q: (&usize, &u8)| (*q.0, *q.1),
            ));
        }
        assert(v@ =~= all.map_values(|q: (&usize, &u8)| (*q.0, *q.1)));
        proof {
            let m = self.buffer@;
            let keys = all.map_values(|kv: (&usize, &u8)| *kv.0);
            assert(all == spec_btree_map_iter(&self.buffer).remaining());
            assert forall|i: int, j: int| 0 <= i < j < v@.len() implies v@[i].0 < v@[j].0 by {
                assert(keys[i].cmp_spec(&keys[j]) is Less);
            }
            assert forall|a: usize| #[trigger] m.contains_key(a) implies exists|i: int|
                0 <= i < v@.len() && v@[i].0 == a by {
                assert(all.contains((&a, &m[a])));
                let i = choose|i: int| 0 <= i < all.len() && all[i] == (&a, &m[a]);
                assert(v@[i].0 == a);
            }
            lemma_listing_unique(v@, ascending_listing(m), m);
        }
        v
    }
}

// ------------------------------------------------------------------------
// What a parse refuses, whatever surrounds the offending line.
// ------------------------------------------------------------------------

proof fn lemma_first_overlap(store: Map<usize, u8>, base: nat, n: nat, from: nat)
    requires
        exists|k: nat| from <= k < n && store.contains_key(#[trigger] ((base + k) as usize)),
    ensures
        first_overlap(store, base, n, from) matches Some(k) && from <= k < n
            && store.contains_key((base + k) as usize),
    decreases n - from,
{
    if !store.contains_key((base + from) as usize) {
        let k = choose|k: nat| from <= k < n && store.contains_key(#[trigger] ((base + k) as usize));
        assert(from + 1 <= k);
        lemma_first_overlap(store, base, n, from + 1);
    }
}

/// The state after the lines in `done`, or the initial state if they fail.
pub open spec fn state_after(done: Seq<Seq<u8>>) -> ParseState {
    match spec_parse_lines(done) {
        Ok(s) => s,
        Err(_) => initial_state(),
    }
}

/// A record whose checksum does not match its other fields stops the parse
/// at its line, whatever follows: the error gives the expected checksum,
/// the one found, and the 1-based line number.
pub proof fn law_checksum_mismatch(done: Seq<Seq<u8>>, line: Seq<u8>, rest: Seq<Seq<u8>>)
    requires
        spec_parse_lines(done) is Ok,
        spec_parse_record(line) is Ok,
        spec_parse_record(line)->Ok_0.checksum != spec_parse_record(line)->Ok_0.expected_checksum(),
    ensures
        spec_parse_lines(done.push(line) + rest) == Err::<ParseState, IntelHexError>(
            IntelHexError::ParseRecordError(
                IntelHexErrorKind::RecordChecksumMismatch(
                    spec_parse_record(line)->Ok_0.expected_checksum(),
                    spec_parse_record(line)->Ok_0.checksum,
                ),
                (done.len() + 1) as usize,
            ),
        ),
{
    reveal(spec_parse_line);
    lemma_parse_lines_push(done, line);
    lemma_parse_error_persists(done.push(line), rest);
}

/// A Data record that writes an address already holding data (directly or
/// through the current offset) stops the parse at its line with an overlap
/// error naming that address.
pub proof fn law_overlap(done: Seq<Seq<u8>>, line: Seq<u8>, rest: Seq<Seq<u8>>, k: nat)
    requires
        spec_parse_lines(done) is Ok,
        spec_parse_record(line) is Ok,
        spec_parse_record(line)->Ok_0.rtype == RecordType::Data,
        spec_parse_record(line)->Ok_0.checksum == spec_parse_record(line)->Ok_0.expected_checksum(),
        k < spec_parse_record(line)->Ok_0.data.len(),
        state_after(done).offset + spec_parse_record(line)->Ok_0.address
            + spec_parse_record(line)->Ok_0.data.len() <= usize::MAX + 1,
        state_after(done).store.contains_key(
            (state_after(done).offset + spec_parse_record(line)->Ok_0.address + k) as usize,
        ),
    ensures
        spec_parse_lines(done.push(line) + rest) matches Err(
            IntelHexError::ParseRecordError(IntelHexErrorKind::RecordAddressOverlap(a), n),
        ) && n == (done.len() + 1) as usize && state_after(done).store.contains_key(a) && state_after(
            done,
        ).offset + spec_parse_record(line)->Ok_0.address <= a < state_after(done).offset
            + spec_parse_record(line)->Ok_0.address + spec_parse_record(line)->Ok_0.data.len(),
{
    let s = state_after(done);
    lemma_parse_line_record(s, line, done.len() + 1);
    let rec = spec_parse_record(line)->Ok_0;
    let base = s.offset + rec.address as nat;
    assert(s.store.contains_key(((base + k) as usize)));
    lemma_first_overlap(s.store, base, rec.data.len(), 0);
    let j = first_overlap(s.store, base, rec.data.len(), 0)->0;
    let e = IntelHexError::ParseRecordError(
        IntelHexErrorKind::RecordAddressOverlap((base + j) as usize),
        (done.len() + 1) as usize,
    );
    assert(spec_apply_record(s, rec, done.len() + 1) == Err::<ParseState, IntelHexError>(e));
    lemma_parse_lines_push(done, line);
    assert(spec_parse_lines(done.push(line)) == Err::<ParseState, IntelHexError>(e));
    lemma_parse_error_persists(done.push(line), rest);
}

/// A second start address record stops the parse at its line.
pub proof fn law_duplicate_start(done: Seq<Seq<u8>>, line: Seq<u8>, rest: Seq<Seq<u8>>)
    requires
        spec_parse_lines(done) is Ok,
        state_after(done).start is Some,
        spec_parse_record(line) is Ok,
        spec_parse_record(line)->Ok_0.rtype.is_start_address(),
        spec_parse_record(line)->Ok_0.checksum == spec_parse_record(line)->Ok_0.expected_checksum(),
    ensures
        spec_parse_lines(done.push(line) + rest) == Err::<ParseState, IntelHexError>(
            IntelHexError::ParseRecordError(
                IntelHexErrorKind::DuplicateStartAddress,
                (done.len() + 1) as usize,
            ),
        ),
{
    reveal(spec_parse_line);
    lemma_parse_lines_push(done, line);
    lemma_parse_error_persists(done.push(line), rest);
}

} // verus!
