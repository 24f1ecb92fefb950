//! Writing and then parsing an image gives it back, so that a text in the
//! canonical layout is reproduced exactly by parsing and writing it.
use crate::image::{
    ascending_listing, first_overlap, insert_run, is_ascending_listing, lemma_listing_unique,
    lemma_parse_line_record, lemma_parse_lines_push, lines_from, lines_of, segment_value,
    spec_apply_record, spec_parse_hex, spec_parse_lines, start_wf, ParseState,
    CARRIAGE_RETURN, LINE_FEED,
};
use crate::record::{
    checksum_of, checksummed_bytes, hex2, hex_byte_at, hex_bytes, hex_digit, hex_value,
    is_hex_digit, render, spec_parse_record, RecordType, RecordView, START_CODE,
};
use crate::writer::{
    ela_record, flush_run, hex_records, join_lines, render_all, spec_hex_text, start_records,
    step_break, step_segment, step_take, writer_fold, RecordSpec, CHUNK_SIZE, MAX_ADDRESS,
};
use vstd::prelude::*;

verus! {

// ------------------------------------------------------------------------
// One record.
// ------------------------------------------------------------------------

proof fn lemma_hex2(b: u8)
    ensures
        hex2(b).len() == 2,
        is_hex_digit(hex2(b)[0]),
        is_hex_digit(hex2(b)[1]),
        hex_value(hex2(b)[0]) * 16 + hex_value(hex2(b)[1]) == b,
        hex2(b)[0] != LINE_FEED && hex2(b)[0] != CARRIAGE_RETURN,
        hex2(b)[1] != LINE_FEED && hex2(b)[1] != CARRIAGE_RETURN,
{
    let hi = b as nat / 16;
    let lo = b as nat % 16;
    assert(hex_value(hex_digit(hi)) == hi);
    assert(hex_value(hex_digit(lo)) == lo);
}

proof fn lemma_hex_bytes(d: Seq<u8>)
    ensures
        hex_bytes(d).len() == 2 * d.len(),
        forall|k: int|
            0 <= k < d.len() ==> hex_bytes(d)[2 * k] == hex2(d[k])[0] && hex_bytes(d)[2 * k + 1]
                == hex2(d[k])[1],
    decreases d.len(),
{
    if d.len() > 0 {
        lemma_hex_bytes(d.drop_last());
        lemma_hex2(d.last());
        assert forall|k: int| 0 <= k < d.len() implies hex_bytes(d)[2 * k] == hex2(d[k])[0]
            && hex_bytes(d)[2 * k + 1] == hex2(d[k])[1] by {
            if k < d.len() - 1 {
                assert(d.drop_last()[k] == d[k]);
            }
        }
    }
}

/// A record the writer may emit: payload and address fit its type.
pub open spec fn record_ok(r: RecordSpec) -> bool {
    &&& r.2.len() <= 255
    &&& r.1.required_length() is Some ==> r.2.len() == r.1.required_length()->0
    &&& (r.1.is_start_address() || r.1.is_extended_address()) ==> r.0 == 0
}

/// What parsing the text of a record gives back.
pub open spec fn view_of(r: RecordSpec) -> RecordView {
    RecordView {
        length: r.2.len() as u8,
        address: r.0,
        rtype: r.1,
        data: r.2,
        checksum: checksum_of(checksummed_bytes(r.0, r.1, r.2)),
    }
}

/// Every byte of a record's text after the start code is a hex digit.
pub open spec fn clean_line(l: Seq<u8>) -> bool {
    &&& l.len() > 0
    &&& forall|j: int| 0 <= j < l.len() ==> #[trigger] l[j] != LINE_FEED
    &&& l.last() != CARRIAGE_RETURN
}

proof fn lemma_render_layout(a: u16, t: RecordType, d: Seq<u8>)
    requires
        d.len() <= 255,
    ensures
        ({
            let h = checksummed_bytes(a, t, d);
            let line = render(a, t, d);
            &&& line.len() == 11 + 2 * d.len()
            &&& line[0] == START_CODE
            &&& forall|j: int| 1 <= j < line.len() ==> is_hex_digit(#[trigger] line[j])
            &&& hex_byte_at(line, 1) == h[0]
            &&& hex_byte_at(line, 3) == h[1]
            &&& hex_byte_at(line, 5) == h[2]
            &&& line.subrange(7, 9) == hex2(h[3])
            &&& forall|k: int| 0 <= k < d.len() ==> hex_byte_at(line, 9 + 2 * k) == d[k]
            &&& hex_byte_at(line, 9 + 2 * d.len() as int) == checksum_of(h)
            &&& clean_line(line)
        }),
{
    let h = checksummed_bytes(a, t, d);
    let c = checksum_of(h);
    let p = seq![START_CODE] + hex2(h[0]) + hex2(h[1]) + hex2(h[2]) + hex2(h[3]);
    let line = render(a, t, d);
    lemma_hex2(h[0]);
    lemma_hex2(h[1]);
    lemma_hex2(h[2]);
    lemma_hex2(h[3]);
    lemma_hex2(c);
    lemma_hex_bytes(d);
    assert(line == p + hex_bytes(d) + hex2(c));
    assert(p.len() == 9);
    assert(p[1] == hex2(h[0])[0] && p[2] == hex2(h[0])[1]);
    assert(p[3] == hex2(h[1])[0] && p[4] == hex2(h[1])[1]);
    assert(p[5] == hex2(h[2])[0] && p[6] == hex2(h[2])[1]);
    assert(p[7] == hex2(h[3])[0] && p[8] == hex2(h[3])[1]);
    let n: int = 9 + 2 * d.len() as int;
    assert forall|j: int| 1 <= j < line.len() implies is_hex_digit(#[trigger] line[j]) && line[j]
        != LINE_FEED by {
        if j < 9 {
            assert(line[j] == p[j]);
        } else if j < n {
            assert(line[j] == hex_bytes(d)[j - 9]);
            let k = (j - 9) / 2;
            if (j - 9) % 2 == 0 {
                assert(j - 9 == 2 * k);
            } else {
                assert(j - 9 == 2 * k + 1);
            }
            lemma_hex2(d[k]);
        } else {
            assert(line[j] == hex2(c)[j - n]);
        }
    }
    assert forall|k: int| 0 <= k < d.len() implies hex_byte_at(line, 9 + 2 * k) == d[k] by {
        assert(line[9 + 2 * k] == hex_bytes(d)[2 * k]);
        assert(line[9 + 2 * k + 1] == hex_bytes(d)[2 * k + 1]);
        lemma_hex2(d[k]);
    }
    assert(line[n] == hex2(c)[0]);
    assert(line[n + 1] == hex2(c)[1]);
    assert(line.subrange(7, 9) =~= hex2(h[3]));
    assert(line.last() == hex2(c)[1]);
    assert forall|j: int| 0 <= j < line.len() implies #[trigger] line[j] != LINE_FEED by {
        if j == 0 {
        } else {
            assert(is_hex_digit(line[j]));
        }
    }
}

proof fn lemma_type_field(t: RecordType)
    ensures
        RecordType::spec_parse(hex2(t.spec_code())) == Ok::<
            RecordType,
            crate::error::IntelHexErrorKind,
        >(t),
{
    let c = t.spec_code();
    assert(hex2(c) =~= seq![0x30u8, (0x30 + c) as u8]);
}

/// The text of a record the writer may emit parses back to it, with a
/// checksum that matches.
#[verifier::rlimit(50)]
pub proof fn lemma_parse_render(r: RecordSpec)
    requires
        record_ok(r),
    ensures
        spec_parse_record(render(r.0, r.1, r.2)) == Ok::<RecordView, crate::error::IntelHexErrorKind>(
            view_of(r),
        ),
        view_of(r).checksum == view_of(r).expected_checksum(),
        clean_line(render(r.0, r.1, r.2)),
{
    reveal(spec_parse_record);
    let (a, t, d) = r;
    lemma_render_layout(a, t, d);
    lemma_type_field(t);
    let line = render(a, t, d);
    let h = checksummed_bytes(a, t, d);
    assert(h[0] == d.len() as u8);
    assert(h[1] == (a / 256) as u8);
    assert(h[2] == (a % 256) as u8);
    assert(h[3] == t.spec_code());
    let length = hex_byte_at(line, 1);
    assert(length == d.len());
    let address = (hex_byte_at(line, 3) as nat * 256 + hex_byte_at(line, 5) as nat) as u16;
    assert(address == a);
    assert(RecordType::spec_parse(line.subrange(7, 9)) == Ok::<
        RecordType,
        crate::error::IntelHexErrorKind,
    >(t));
    let data = Seq::new(length as nat, |k: int| hex_byte_at(line, 9 + 2 * k));
    assert(data =~= d);
    assert(crate::record::header_bytes(d.len() as u8, a, t) + d == checksummed_bytes(a, t, d));
}

// ------------------------------------------------------------------------
// Lines joined by line feeds split back into the same lines.
// ------------------------------------------------------------------------

proof fn lemma_lines_skip(text: Seq<u8>, start: int, pos: int, end: int)
    requires
        0 <= start <= pos <= end <= text.len(),
        forall|j: int| pos <= j < end ==> text[j] != LINE_FEED,
    ensures
        lines_from(text, start, pos) == lines_from(text, start, end),
    decreases end - pos,
{
    if pos < end {
        lemma_lines_skip(text, start, pos + 1, end);
    }
}

proof fn lemma_lines_shift(p: Seq<u8>, b: Seq<u8>, i: int, j: int)
    requires
        0 <= i <= j <= b.len(),
    ensures
        lines_from(p + b, p.len() + i, p.len() + j) == lines_from(b, i, j),
    decreases b.len() - j,
{
    let t = p + b;
    let n = p.len() as int;
    if j >= b.len() {
        assert(t.subrange(n + i, t.len() as int) =~= b.subrange(i, b.len() as int));
    } else {
        assert(t[n + j] == b[j]);
        if b[j] == LINE_FEED {
            assert(t.subrange(n + i, n + j) =~= b.subrange(i, j));
            lemma_lines_shift(p, b, j + 1, j + 1);
        } else {
            lemma_lines_shift(p, b, i, j + 1);
        }
    }
}

proof fn lemma_join_front(lines: Seq<Seq<u8>>)
    requires
        lines.len() >= 2,
    ensures
        join_lines(lines) == lines[0] + seq![LINE_FEED] + join_lines(lines.drop_first()),
    decreases lines.len(),
{
    let lf = seq![LINE_FEED];
    if lines.len() == 2 {
        assert(lines.drop_first() =~= seq![lines[1]]);
        assert(lines.drop_last() =~= seq![lines[0]]);
        assert(join_lines(lines.drop_first()) == lines[1]);
        assert(join_lines(lines.drop_last()) == lines[0]);
        assert(join_lines(lines) == lines[0] + lf + lines[1]);
    } else {
        let x = lines.drop_last().drop_first();
        lemma_join_front(lines.drop_last());
        assert(x =~= lines.drop_first().drop_last());
        assert(lines.drop_last()[0] == lines[0]);
        assert(lines.drop_first().last() == lines.last());
        assert(join_lines(lines.drop_first()) == join_lines(x) + lf + lines.last());
        assert(join_lines(lines) == (lines[0] + lf + join_lines(x)) + lf + lines.last());
        assert((lines[0] + lf + join_lines(x)) + lf + lines.last() =~= lines[0] + lf + (
        join_lines(x) + lf + lines.last()));
    }
}

/// Lines without line feeds, none empty and none ending in a carriage
/// return, are split back out of their join.
pub proof fn lemma_lines_of_join(lines: Seq<Seq<u8>>)
    requires
        lines.len() >= 1,
        forall|i: int| 0 <= i < lines.len() ==> clean_line(#[trigger] lines[i]),
    ensures
        lines_of(join_lines(lines)) == lines,
    decreases lines.len(),
{
    let l = lines[0];
    assert(clean_line(l));
    if lines.len() == 1 {
        lemma_lines_skip(l, 0, 0, l.len() as int);
        assert(l.subrange(0, l.len() as int) =~= l);
        assert(lines =~= seq![l]);
    } else {
        let rest = lines.drop_first();
        assert forall|i: int| 0 <= i < rest.len() implies clean_line(#[trigger] rest[i]) by {
            assert(rest[i] == lines[i + 1]);
        }
        lemma_lines_of_join(rest);
        lemma_join_front(lines);
        let q = l + seq![LINE_FEED];
        let j = join_lines(rest);
        let text = q + j;
        assert(join_lines(lines) =~= text);
        assert forall|k: int| 0 <= k < l.len() implies text[k] != LINE_FEED by {
            assert(text[k] == l[k]);
        }
        lemma_lines_skip(text, 0, 0, l.len() as int);
        assert(text[l.len() as int] == LINE_FEED);
        crate::image::lemma_lines_step(text, 0, l.len() as int);
        assert(text.subrange(0, l.len() as int) =~= l);
        lemma_lines_shift(q, j, 0, 0);
        assert(lines =~= seq![l] + rest);
    }
}

// ------------------------------------------------------------------------
// The records of the canonical layout fold back into the image.
// ------------------------------------------------------------------------

/// The map of a listing, later pairs overriding earlier ones.
pub open spec fn listing_map(s: Seq<(usize, u8)>) -> Map<usize, u8>
    decreases s.len(),
{
    if s.len() == 0 {
        Map::empty()
    } else {
        listing_map(s.drop_last()).insert(s.last().0, s.last().1)
    }
}

pub open spec fn strictly_ascending(s: Seq<(usize, u8)>) -> bool {
    forall|i: int, j: int| 0 <= i < j < s.len() ==> s[i].0 < s[j].0
}

proof fn lemma_listing_map_keys(s: Seq<(usize, u8)>)
    requires
        strictly_ascending(s),
    ensures
        forall|a: usize| #[trigger]
            listing_map(s).contains_key(a) ==> exists|j: int| 0 <= j < s.len() && s[j].0 == a,
        forall|j: int|
            0 <= j < s.len() ==> #[trigger] listing_map(s).contains_key(s[j].0) && listing_map(
                s,
            )[s[j].0] == s[j].1,
    decreases s.len(),
{
    if s.len() > 0 {
        let t = s.drop_last();
        assert forall|i: int, j: int| 0 <= i < j < t.len() implies t[i].0 < t[j].0 by {
            assert(t[i] == s[i] && t[j] == s[j]);
        }
        lemma_listing_map_keys(t);
        assert forall|a: usize| #[trigger] listing_map(s).contains_key(a) implies exists|j: int|
            0 <= j < s.len() && s[j].0 == a by {
            if a != s.last().0 {
                assert(listing_map(t).contains_key(a));
                let j = choose|j: int| 0 <= j < t.len() && t[j].0 == a;
                assert(s[j] == t[j]);
            } else {
                assert(s[s.len() - 1].0 == a);
            }
        }
        assert forall|j: int| 0 <= j < s.len() implies #[trigger] listing_map(s).contains_key(
            s[j].0,
        ) && listing_map(s)[s[j].0] == s[j].1 by {
            if j < s.len() - 1 {
                assert(s[j] == t[j]);
                assert(s[j].0 < s.last().0);
            }
        }
    }
}

proof fn lemma_listing_map_eq(s: Seq<(usize, u8)>, m: Map<usize, u8>)
    requires
        is_ascending_listing(s, m),
    ensures
        listing_map(s) == m,
{
    lemma_listing_map_keys(s);
    assert forall|a: usize| #[trigger] listing_map(s).contains_key(a) <==> m.contains_key(a) by {
        if m.contains_key(a) {
            let j = choose|j: int| 0 <= j < s.len() && s[j].0 == a;
            assert(listing_map(s).contains_key(s[j].0));
        }
        if listing_map(s).contains_key(a) {
            let j = choose|j: int| 0 <= j < s.len() && s[j].0 == a;
            assert(m.contains_key(s[j].0));
        }
    }
    assert forall|a: usize| #[trigger] listing_map(s).contains_key(a) implies listing_map(s)[a]
        == m[a] by {
        let j = choose|j: int| 0 <= j < s.len() && s[j].0 == a;
        assert(listing_map(s).contains_key(s[j].0));
        assert(m.contains_key(s[j].0));
    }
    assert(listing_map(s) =~= m);
}

proof fn lemma_insert_run_listing(es: Seq<(usize, u8)>, j: int, base: nat, d: Seq<u8>)
    requires
        0 <= j,
        j + d.len() <= es.len(),
        base + d.len() <= usize::MAX + 1,
        forall|k: int| 0 <= k < d.len() ==> #[trigger] es[j + k] == ((base + k) as usize, d[k]),
    ensures
        insert_run(listing_map(es.take(j)), base, d) == listing_map(es.take(j + d.len())),
    decreases d.len(),
{
    if d.len() > 0 {
        let d0 = d.drop_last();
        assert forall|k: int| 0 <= k < d0.len() implies #[trigger] es[j + k] == (
        (base + k) as usize, d0[k]) by {
            assert(es[j + k] == ((base + k) as usize, d[k]));
        }
        lemma_insert_run_listing(es, j, base, d0);
        let n = j + d.len();
        assert(es.take(n).drop_last() =~= es.take(n - 1));
        assert(es[j + (d.len() - 1)] == ((base + d.len() - 1) as usize, d.last()));
        assert(es.take(n).last() == es[n - 1]);
    }
}

proof fn lemma_no_overlap(store: Map<usize, u8>, base: nat, n: nat, from: nat)
    requires
        forall|k: nat| from <= k < n ==> !store.contains_key(#[trigger] ((base + k) as usize)),
    ensures
        first_overlap(store, base, n, from) is None,
    decreases n - from,
{
    if from < n {
        lemma_no_overlap(store, base, n, from + 1);
    }
}

proof fn lemma_parse_push_record(recs: Seq<RecordSpec>, r: RecordSpec, s: ParseState)
    requires
        spec_parse_lines(render_all(recs)) == Ok::<ParseState, crate::error::IntelHexError>(s),
        record_ok(r),
    ensures
        spec_parse_lines(render_all(recs.push(r))) == spec_apply_record(
            s,
            view_of(r),
            recs.len() + 1,
        ),
{
    assert(render_all(recs.push(r)) =~= render_all(recs).push(render(r.0, r.1, r.2)));
    lemma_parse_lines_push(render_all(recs), render(r.0, r.1, r.2));
    lemma_parse_render(r);
    lemma_parse_line_record(s, render(r.0, r.1, r.2), recs.len() + 1);
}

/// The Data record that flushing a run emits.
pub open spec fn run_record(run: Option<(u16, nat, Seq<u8>)>) -> RecordSpec {
    match run {
        Some((lo, _p, d)) => (lo, RecordType::Data, d),
        None => (0u16, RecordType::Data, Seq::empty()),
    }
}

pub open spec fn run_len(run: Option<(u16, nat, Seq<u8>)>) -> nat {
    match run {
        Some((_lo, _p, d)) => d.len(),
        None => 0,
    }
}

/// The open run holds the last `run_len` listed bytes, contiguous in segment `high`.
pub open spec fn run_ok(
    es: Seq<(usize, u8)>,
    i: int,
    high: nat,
    run: Option<(u16, nat, Seq<u8>)>,
) -> bool {
    match run {
        None => true,
        Some((lo, prev, d)) => {
            &&& 1 <= d.len() <= CHUNK_SIZE
            &&& d.len() <= i
            &&& lo + d.len() <= 65536
            &&& prev == es[i - 1].0
            &&& forall|k: int|
                0 <= k < d.len() ==> #[trigger] es[i - d.len() + k] == (
                    (high * 65536 + lo + k) as usize,
                    d[k],
                )
        },
    }
}

pub open spec fn well_sorted(es: Seq<(usize, u8)>) -> bool {
    &&& strictly_ascending(es)
    &&& forall|i: int| 0 <= i < es.len() ==> #[trigger] es[i].0 <= MAX_ADDRESS
}

pub open spec fn fold_inv(start: Option<(RecordType, Seq<u8>)>, es: Seq<(usize, u8)>, i: int) -> bool {
    let st = writer_fold(es.take(i));
    &&& run_len(st.run) <= i
    &&& st.high <= 0xFFFF
    &&& i > 0 ==> st.run is Some && st.high == es[i - 1].0 as nat / 65536
    &&& i == 0 ==> st.run is None && st.high == 0
    &&& run_ok(es, i, st.high, st.run)
    &&& forall|k: int| 0 <= k < st.out.len() ==> record_ok(#[trigger] st.out[k])
    &&& spec_parse_lines(render_all(start_records(start) + st.out)) == Ok::<
        ParseState,
        crate::error::IntelHexError,
    >(
        ParseState {
            offset: st.high * 65536,
            store: listing_map(es.take(i - run_len(st.run))),
            start,
        },
    )
}

proof fn lemma_flush(
    start: Option<(RecordType, Seq<u8>)>,
    es: Seq<(usize, u8)>,
    i: int,
    recs: Seq<RecordSpec>,
    high: nat,
    run: Option<(u16, nat, Seq<u8>)>,
)
    requires
        well_sorted(es),
        0 < i <= es.len(),
        high <= 0xFFFF,
        run is Some,
        run_ok(es, i, high, run),
        spec_parse_lines(render_all(recs)) == Ok::<ParseState, crate::error::IntelHexError>(
            ParseState { offset: high * 65536, store: listing_map(es.take(i - run_len(run))), start },
        ),
    ensures
        spec_parse_lines(render_all(flush_run(recs, run))) == Ok::<
            ParseState,
            crate::error::IntelHexError,
        >(ParseState { offset: high * 65536, store: listing_map(es.take(i)), start }),
        record_ok(run_record(run)),
{
    let (lo, prev, d) = run->0;
    let j = i - d.len();
    let r = (lo, RecordType::Data, d);
    let s = ParseState { offset: high * 65536, store: listing_map(es.take(j)), start };
    lemma_parse_push_record(recs, r, s);
    let base: nat = high * 65536 + lo as nat;
    assert(es[j + (d.len() - 1)] == ((base + d.len() - 1) as usize, d[d.len() - 1]));
    assert(es[i - 1].0 <= MAX_ADDRESS);
    assert(base + d.len() <= usize::MAX + 1);
    let pre = es.take(j);
    assert(strictly_ascending(pre));
    lemma_listing_map_keys(pre);
    assert forall|k: nat| 0 <= k < d.len() implies !listing_map(pre).contains_key(
        #[trigger] ((base + k) as usize),
    ) by {
        assert(es[j + k] == ((base + k) as usize, d[k as int]));
        if listing_map(pre).contains_key((base + k) as usize) {
            let q = choose|q: int| 0 <= q < pre.len() && pre[q].0 == (base + k) as usize;
            assert(es[q].0 < es[j + k].0);
        }
    }
    lemma_no_overlap(listing_map(pre), base, d.len(), 0);
    assert forall|k: int| 0 <= k < d.len() implies #[trigger] es[j + k] == (
    (base + k) as usize, d[k]) by {
        assert(es[i - d.len() + k] == ((high * 65536 + lo + k) as usize, d[k]));
    }
    lemma_insert_run_listing(es, j, base, d);
}

proof fn lemma_ela(high: nat, recs: Seq<RecordSpec>, s: ParseState)
    requires
        high <= 0xFFFF,
        spec_parse_lines(render_all(recs)) == Ok::<ParseState, crate::error::IntelHexError>(s),
    ensures
        spec_parse_lines(render_all(recs.push(ela_record(high)))) == Ok::<
            ParseState,
            crate::error::IntelHexError,
        >(ParseState { offset: high * 65536, ..s }),
        record_ok(ela_record(high)),
{
    lemma_parse_push_record(recs, ela_record(high), s);
    assert(segment_value(ela_record(high).2) == high);
}

/// Opening a run at the listed byte `i` after everything before it is stored.
proof fn lemma_open_run(es: Seq<(usize, u8)>, i: int, high: nat)
    requires
        well_sorted(es),
        0 <= i < es.len(),
        high == es[i].0 as nat / 65536,
    ensures
        run_ok(
            es,
            i + 1,
            high,
            Some(((es[i].0 as nat % 65536) as u16, es[i].0 as nat, seq![es[i].1])),
        ),
{
    let run = Some(((es[i].0 as nat % 65536) as u16, es[i].0 as nat, seq![es[i].1]));
    assert(es[i + 1 - 1 + 0] == es[i]);
}

#[verifier::rlimit(80)]
proof fn lemma_fold_step(start: Option<(RecordType, Seq<u8>)>, es: Seq<(usize, u8)>, i: int)
    requires
        well_sorted(es),
        0 <= i < es.len(),
        fold_inv(start, es, i),
    ensures
        fold_inv(start, es, i + 1),
{
    let head = start_records(start);
    let st = writer_fold(es.take(i));
    let e = es[i];
    let a = e.0;
    let seg = a as nat / 65536;
    assert(es.take(i + 1).drop_last() =~= es.take(i));
    assert(es.take(i + 1).last() == e);
    let st1 = step_segment(st, e);
    let st2 = step_break(st1, e);
    let st3 = step_take(st2, e);
    assert(writer_fold(es.take(i + 1)) == st3);
    assert(a <= MAX_ADDRESS);
    assert(seg <= 0xFFFF);
    if i > 0 {
        assert(es[i - 1].0 < es[i].0);
    }
    let parsed = ParseState {
        offset: st.high * 65536,
        store: listing_map(es.take(i - run_len(st.run))),
        start,
    };
    // After the segment step and the break step, everything before `i` is stored
    // unless the run continues.
    if seg != st.high {
        let flushed = flush_run(st.out, st.run);
        assert(head + flushed =~= flush_run(head + st.out, st.run));
        if st.run is Some {
            lemma_flush(start, es, i, head + st.out, st.high, st.run);
        } else {
            assert(head + flushed =~= head + st.out);
        }
        let stored = ParseState { offset: st.high * 65536, store: listing_map(es.take(i)), start };
        assert(spec_parse_lines(render_all(head + flushed)) == Ok::<
            ParseState,
            crate::error::IntelHexError,
        >(stored));
        lemma_ela(seg, head + flushed, stored);
        assert(head + flushed.push(ela_record(seg)) =~= (head + flushed).push(ela_record(seg)));
        assert(st1.out == flushed.push(ela_record(seg)));
        assert(st2 == st1);
        lemma_open_run(es, i, seg);
        assert(forall|k: int| 0 <= k < st3.out.len() ==> record_ok(#[trigger] st3.out[k])) by {
            assert forall|k: int| 0 <= k < st3.out.len() implies record_ok(
                #[trigger] st3.out[k],
            ) by {
                if k < st.out.len() {
                    assert(st3.out[k] == st.out[k]);
                } else if k < flushed.len() {
                    assert(st3.out[k] == run_record(st.run));
                }
            }
        }
    } else {
        assert(st1 == st);
        match st.run {
            Some((lo, prev, d)) => {
                if a != prev + 1 || d.len() >= CHUNK_SIZE {
                    lemma_flush(start, es, i, head + st.out, st.high, st.run);
                    assert(head + st.out.push(run_record(st.run)) =~= (head + st.out).push(
                        run_record(st.run),
                    ));
                    assert(st2.out == st.out.push(run_record(st.run)));
                    assert(st2.run is None);
                    lemma_open_run(es, i, seg);
                    assert(forall|k: int| 0 <= k < st3.out.len() ==> record_ok(
                        #[trigger] st3.out[k],
                    )) by {
                        assert forall|k: int| 0 <= k < st3.out.len() implies record_ok(
                            #[trigger] st3.out[k],
                        ) by {
                            if k < st.out.len() {
                                assert(st3.out[k] == st.out[k]);
                            }
                        }
                    }
                } else {
                    assert(st2 == st);
                    let d2 = d.push(e.1);
                    assert(st3.run == Some((lo, a as nat, d2)));
                    assert(es[i - d.len() + (d.len() - 1)] == (
                        (st.high * 65536 + lo + (d.len() - 1)) as usize,
                        d[d.len() - 1],
                    ));
                    assert(a == st.high * 65536 + lo + d.len());
                    assert forall|k: int| 0 <= k < d2.len() implies #[trigger] es[i + 1 - d2.len()
                        + k] == ((st.high * 65536 + lo + k) as usize, d2[k]) by {
                        if k < d.len() {
                            assert(es[i - d.len() + k] == (
                                (st.high * 65536 + lo + k) as usize,
                                d[k],
                            ));
                        }
                    }
                    assert(i + 1 - run_len(st3.run) == i - run_len(st.run));
                }
            },
            None => {
                assert(i == 0);
                assert(st2 == st);
                lemma_open_run(es, i, seg);
                assert(es.take(0) =~= es.take(i - run_len(st.run)));
            },
        }
    }
}

proof fn lemma_fold_all(start: Option<(RecordType, Seq<u8>)>, es: Seq<(usize, u8)>, i: int)
    requires
        well_sorted(es),
        start_wf(start),
        0 <= i <= es.len(),
    ensures
        fold_inv(start, es, i),
    decreases i,
{
    if i == 0 {
        let head = start_records(start);
        assert(es.take(0) =~= Seq::<(usize, u8)>::empty());
        let st = writer_fold(es.take(0));
        assert(head + st.out =~= head);
        assert(listing_map(es.take(0)) == Map::<usize, u8>::empty());
        match start {
            Some((t, b)) => {
                let r = (0u16, t, b);
                assert(head =~= Seq::<RecordSpec>::empty().push(r));
                assert(render_all(Seq::<RecordSpec>::empty()) =~= Seq::<Seq<u8>>::empty());
                lemma_parse_push_record(
                    Seq::<RecordSpec>::empty(),
                    r,
                    crate::image::initial_state(),
                );
            },
            None => {
                assert(render_all(head) =~= Seq::<Seq<u8>>::empty());
            },
        }
    } else {
        lemma_fold_all(start, es, i - 1);
        lemma_fold_step(start, es, i - 1);
    }
}

// ------------------------------------------------------------------------
// The round trip.
// ------------------------------------------------------------------------

/// Parsing the canonical text of a start address and of the bytes of a
/// non-empty store (every address within reach of Extended Linear Address
/// records) gives back that store and that start address.
pub proof fn law_parse_of_written(
    start: Option<(RecordType, Seq<u8>)>,
    m: Map<usize, u8>,
    es: Seq<(usize, u8)>,
)
    requires
        start_wf(start),
        is_ascending_listing(es, m),
        es.len() > 0,
        forall|i: int| 0 <= i < es.len() ==> #[trigger] es[i].0 <= MAX_ADDRESS,
    ensures
        spec_parse_hex(spec_hex_text(start, es)) matches Ok(s) && s.store == m && s.start == start,
{
    let n = es.len() as int;
    lemma_fold_all(start, es, n);
    assert(es.take(n) =~= es);
    let head = start_records(start);
    let st = writer_fold(es);
    lemma_flush(start, es, n, head + st.out, st.high, st.run);
    let body = flush_run(head + st.out, st.run);
    assert(body =~= head + flush_run(st.out, st.run));
    let p = ParseState { offset: st.high * 65536, store: listing_map(es), start };
    let eof: RecordSpec = (0u16, RecordType::EndOfFile, Seq::<u8>::empty());
    lemma_parse_push_record(body, eof, p);
    let recs = hex_records(start, es);
    assert(recs =~= body.push(eof));
    lemma_listing_map_eq(es, m);
    assert forall|k: int| 0 <= k < recs.len() implies record_ok(#[trigger] recs[k]) by {
        if k < head.len() {
            assert(recs[k] == head[k]);
        } else if k < head.len() + st.out.len() {
            assert(recs[k] == st.out[k - head.len()]);
        } else if k < body.len() {
            assert(recs[k] == run_record(st.run));
        }
    }
    let lines = render_all(recs);
    assert forall|k: int| 0 <= k < lines.len() implies clean_line(#[trigger] lines[k]) by {
        lemma_parse_render(recs[k]);
    }
    lemma_lines_of_join(lines);
}

/// A text in the canonical layout, parsed and then written again, comes
/// back byte for byte.
pub proof fn law_canonical_round_trip(
    text: Seq<u8>,
    start: Option<(RecordType, Seq<u8>)>,
    m: Map<usize, u8>,
    es: Seq<(usize, u8)>,
)
    requires
        start_wf(start),
        is_ascending_listing(es, m),
        es.len() > 0,
        forall|i: int| 0 <= i < es.len() ==> #[trigger] es[i].0 <= MAX_ADDRESS,
        text == spec_hex_text(start, es),
    ensures
        spec_parse_hex(text) matches Ok(s) && spec_hex_text(s.start, ascending_listing(s.store))
            == text,
{
    law_parse_of_written(start, m, es);
    lemma_listing_unique(es, ascending_listing(m), m);
}

} // verus!
