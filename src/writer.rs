//! The canonical layout of an image as hex text.
//!
//! The start address record (if any) comes first. Then the stored bytes, by
//! ascending address, go into Data records of at most 16 contiguous bytes;
//! a run breaks at every address gap and at every 64 KiB segment crossing,
//! where an Extended Linear Address record announces the new segment. The
//! End Of File record comes last, with no line feed after it.
use crate::error::{IntelHexError, IntelHexErrorKind};
use crate::image::{ascending_listing, is_ascending_listing, IntelHex, LINE_FEED};
use crate::record::{render, render_record, RecordType};
use crate::store::{lemma_listing_ends, lemma_listing_empty, lemma_min_max_unique, max_key};
use vstd::prelude::*;

verus! {

/// Bytes per Data record in the canonical layout.
pub const CHUNK_SIZE: usize = 16;

/// The largest address that Extended Linear Address records can reach.
pub const MAX_ADDRESS: usize = 0xFFFF_FFFF;

/// A record to emit: address field, type and payload.
pub type RecordSpec = (u16, RecordType, Seq<u8>);

/// The writer between two stored bytes.
pub struct WriterState {
    /// Records emitted so far.
    pub out: Seq<RecordSpec>,
    /// The current segment (address bits 16 and up).
    pub high: nat,
    /// The open run: its first low address, the last address taken, its bytes.
    pub run: Option<(u16, nat, Seq<u8>)>,
}

pub open spec fn flush_run(out: Seq<RecordSpec>, run: Option<(u16, nat, Seq<u8>)>) -> Seq<
    RecordSpec,
> {
    match run {
        Some((lo, _p, d)) => out.push((lo, RecordType::Data, d)),
        None => out,
    }
}

pub open spec fn ela_record(high: nat) -> RecordSpec {
    (0u16, RecordType::ExtendedLinearAddress, seq![(high / 256) as u8, (high % 256) as u8])
}

/// At a segment crossing: flush the open run and announce the new segment.
pub open spec fn step_segment(st: WriterState, e: (usize, u8)) -> WriterState {
    let high = e.0 as nat / 65536;
    if high != st.high {
        WriterState { out: flush_run(st.out, st.run).push(ela_record(high)), high, run: None }
    } else {
        st
    }
}

/// At an address gap or a full run: flush the open run.
pub open spec fn step_break(st: WriterState, e: (usize, u8)) -> WriterState {
    match st.run {
        Some((lo, prev, d)) => {
            if e.0 != prev + 1 || d.len() >= CHUNK_SIZE {
                WriterState { out: st.out.push((lo, RecordType::Data, d)), high: st.high, run: None }
            } else {
                st
            }
        },
        None => st,
    }
}

/// Append the byte to the open run, opening one at its low address if none is open.
pub open spec fn step_take(st: WriterState, e: (usize, u8)) -> WriterState {
    match st.run {
        Some((lo, _p, d)) => WriterState {
            out: st.out,
            high: st.high,
            run: Some((lo, e.0 as nat, d.push(e.1))),
        },
        None => WriterState {
            out: st.out,
            high: st.high,
            run: Some(((e.0 as nat % 65536) as u16, e.0 as nat, seq![e.1])),
        },
    }
}

/// Takes one stored byte into the writer.
pub open spec fn writer_step(st: WriterState, e: (usize, u8)) -> WriterState {
    step_take(step_break(step_segment(st, e), e), e)
}

pub open spec fn writer_fold(entries: Seq<(usize, u8)>) -> WriterState
    decreases entries.len(),
{
    if entries.len() == 0 {
        WriterState { out: seq![], high: 0, run: None }
    } else {
        writer_step(writer_fold(entries.drop_last()), entries.last())
    }
}

pub open spec fn start_records(start: Option<(RecordType, Seq<u8>)>) -> Seq<RecordSpec> {
    match start {
        Some((t, b)) => seq![(0u16, t, b)],
        None => seq![],
    }
}

/// Every record of the canonical layout, in order.
pub open spec fn hex_records(start: Option<(RecordType, Seq<u8>)>, entries: Seq<(usize, u8)>) -> Seq<
    RecordSpec,
> {
    let st = writer_fold(entries);
    start_records(start) + flush_run(st.out, st.run) + seq![
        (0u16, RecordType::EndOfFile, Seq::<u8>::empty()),
    ]
}

/// Lines joined by line feeds, with none after the last.
pub open spec fn join_lines(lines: Seq<Seq<u8>>) -> Seq<u8>
    decreases lines.len(),
{
    if lines.len() == 0 {
        seq![]
    } else if lines.len() == 1 {
        lines[0]
    } else {
        join_lines(lines.drop_last()) + seq![LINE_FEED] + lines.last()
    }
}

pub open spec fn render_all(recs: Seq<RecordSpec>) -> Seq<Seq<u8>> {
    recs.map_values(|r: RecordSpec| render(r.0, r.1, r.2))
}

/// The canonical hex text of a start address and an ascending listing of bytes.
pub open spec fn spec_hex_text(start: Option<(RecordType, Seq<u8>)>, entries: Seq<(usize, u8)>) -> Seq<
    u8,
> {
    join_lines(render_all(hex_records(start, entries)))
}

pub open spec fn texts(v: Seq<Vec<u8>>) -> Seq<Seq<u8>> {
    v.map_values(|x: Vec<u8>| x@)
}

fn append_bytes(out: &mut Vec<u8>, src: &Vec<u8>)
    ensures
        final(out)@ == old(out)@ + src@,
{
    let mut i: usize = 0;
    while i < src.len()
        invariant
            i <= src@.len(),
            out@ == old(out)@ + src@.take(i as int),
        decreases src@.len() - i,
    {
        out.push(src[i]);
        i += 1;
        assert(out@ =~= old(out)@ + src@.take(i as int));
    }
    assert(src@.take(i as int) =~= src@);
}

fn join_with_line_feeds(lines: &Vec<Vec<u8>>) -> (r: Vec<u8>)
    ensures
        r@ == join_lines(texts(lines@)),
{
    let mut out: Vec<u8> = Vec::new();
    let mut k: usize = 0;
    while k < lines.len()
        invariant
            k <= lines@.len(),
            out@ == join_lines(texts(lines@).take(k as int)),
        decreases lines@.len() - k,
    {
        let ghost before = texts(lines@).take(k as int);
        if k > 0 {
            out.push(LINE_FEED);
        }
        append_bytes(&mut out, &lines[k]);
        k += 1;
        proof {
            let now = texts(lines@).take(k as int);
            assert(now.drop_last() =~= before);
            if k == 1 {
                assert(out@ =~= now[0]);
            } else {
                assert(out@ =~= join_lines(before) + seq![LINE_FEED] + now.last());
            }
        }
    }
    assert(texts(lines@).take(k as int) =~= texts(lines@));
    out
}

proof fn lemma_emit(
    recs: Seq<Vec<u8>>,
    x: Vec<u8>,
    head: Seq<RecordSpec>,
    out: Seq<RecordSpec>,
    r: RecordSpec,
)
    requires
        texts(recs) == render_all(head + out),
        x@ == render(r.0, r.1, r.2),
    ensures
        texts(recs.push(x)) == render_all(head + out.push(r)),
{
    assert(texts(recs.push(x)) =~= texts(recs).push(x@));
    assert(head + out.push(r) =~= (head + out).push(r));
    assert(render_all((head + out).push(r)) =~= render_all(head + out).push(
        render(r.0, r.1, r.2),
    ));
}

pub open spec fn run_of(run_start: Option<u16>, prev: usize, chunk: Seq<u8>) -> Option<
    (u16, nat, Seq<u8>),
> {
    match run_start {
        Some(lo) => Some((lo, prev as nat, chunk)),
        None => None,
    }
}

impl IntelHex {
    /// The image as hex text in the canonical layout.
    pub fn to_hex_bytes(&self) -> (r: Result<Vec<u8>, IntelHexError>)
        requires
            self.wf(),
        ensures
            if self.store().dom() == Set::<usize>::empty() {
                r == Err::<Vec<u8>, IntelHexError>(
                    IntelHexError::CreateRecordError(IntelHexErrorKind::IntelHexInstanceEmpty),
                )
            } else if max_key(self.store()) > MAX_ADDRESS {
                r == Err::<Vec<u8>, IntelHexError>(
                    IntelHexError::CreateRecordError(
                        IntelHexErrorKind::InvalidAddress(max_key(self.store())),
                    ),
                )
            } else {
                r matches Ok(v) && v@ == spec_hex_text(
                    self.start(),
                    ascending_listing(self.store()),
                )
            },
    {
        let e = self.entries();
        let ghost es = e@;
        if e.len() == 0 {
            proof {
                assert(e@ =~= Seq::<(usize, u8)>::empty());
                lemma_listing_empty(self.store());
            }
            return Err(IntelHexError::CreateRecordError(IntelHexErrorKind::IntelHexInstanceEmpty));
        }
        let max = e[e.len() - 1].0;
        proof {
            lemma_listing_ends(es, self.store());
            lemma_min_max_unique(self.store(), es[0].0, max);
            assert(self.store().contains_key(max));
        }
        if max > MAX_ADDRESS {
            return Err(
                IntelHexError::CreateRecordError(IntelHexErrorKind::InvalidAddress(max)),
            );
        }
        let mut recs: Vec<Vec<u8>> = Vec::new();
        if let Some(t) = self.start_addr.rtype {
            recs.push(render_record(0, t, &self.start_addr.bytes));
        }
        let ghost head = start_records(self.start());
        assert(texts(recs@) =~= render_all(head));
        let mut high: usize = 0;
        let mut run_start: Option<u16> = None;
        let mut prev: usize = 0;
        let mut chunk: Vec<u8> = Vec::new();
        let mut i: usize = 0;
        while i < e.len()
            invariant
                es == e@,
                is_ascending_listing(es, self.store()),
                max == es.last().0,
                max <= MAX_ADDRESS,
                i <= es.len(),
                high <= 0xFFFF,
                chunk@.len() <= CHUNK_SIZE,
                run_start is None ==> chunk@.len() == 0,
                i > 0 ==> run_start is Some && prev == es[i - 1].0,
                writer_fold(es.take(i as int)).high == high,
                writer_fold(es.take(i as int)).run == run_of(run_start, prev, chunk@),
                texts(recs@) == render_all(head + writer_fold(es.take(i as int)).out),
            decreases es.len() - i,
        {
            let ghost st = writer_fold(es.take(i as int));
            proof {
                assert(es.take(i + 1).drop_last() =~= es.take(i as int));
                if i < es.len() - 1 {
                    assert(es[i as int].0 < es[es.len() - 1].0);
                }
                if i > 0 {
                    assert(es[i - 1].0 < es[i as int].0);
                }
            }
            let (addr, byte) = e[i];
            let ghost ent = es[i as int];
            let seg = addr / 65536;
            let low = (addr % 65536) as u16;
            if seg != high {
                let ghost st_out = flush_run(st.out, st.run);
                if let Some(lo) = run_start {
                    let t = render_record(lo, RecordType::Data, &chunk);
                    proof {
                        lemma_emit(recs@, t, head, st.out, (lo, RecordType::Data, chunk@));
                    }
                    recs.push(t);
                }
                assert(texts(recs@) == render_all(head + st_out));
                let mut ela: Vec<u8> = Vec::new();
                ela.push((seg / 256) as u8);
                ela.push((seg % 256) as u8);
                let t = render_record(0, RecordType::ExtendedLinearAddress, &ela);
                proof {
                    assert(ela@ =~= ela_record(seg as nat).2);
                    lemma_emit(recs@, t, head, st_out, ela_record(seg as nat));
                }
                recs.push(t);
                high = seg;
                run_start = None;
                chunk = Vec::new();
            }
            let ghost st1 = step_segment(st, ent);
            assert(texts(recs@) == render_all(head + st1.out));
            assert(run_of(run_start, prev, chunk@) == st1.run);
            if let Some(lo) = run_start {
                if addr != prev + 1 || chunk.len() >= CHUNK_SIZE {
                    let t = render_record(lo, RecordType::Data, &chunk);
                    proof {
                        lemma_emit(recs@, t, head, st1.out, (lo, RecordType::Data, chunk@));
                    }
                    recs.push(t);
                    run_start = None;
                    chunk = Vec::new();
                }
            }
            let ghost st2 = step_break(st1, ent);
            assert(texts(recs@) == render_all(head + st2.out));
            assert(run_of(run_start, prev, chunk@) == st2.run);
            if run_start.is_none() {
                run_start = Some(low);
                assert(chunk@ =~= Seq::<u8>::empty());
            }
            chunk.push(byte);
            prev = addr;
            i += 1;
            assert(run_of(run_start, prev, chunk@) == step_take(st2, ent).run);
        }
        let ghost st = writer_fold(es);
        assert(es.take(i as int) =~= es);
        let ghost st_out = flush_run(st.out, st.run);
        if let Some(lo) = run_start {
            let t = render_record(lo, RecordType::Data, &chunk);
            proof {
                lemma_emit(recs@, t, head, st.out, (lo, RecordType::Data, chunk@));
            }
            recs.push(t);
        }
        assert(texts(recs@) == render_all(head + st_out));
        let empty: Vec<u8> = Vec::new();
        let t = render_record(0, RecordType::EndOfFile, &empty);
        proof {
            assert(empty@ =~= Seq::<u8>::empty());
            lemma_emit(recs@, t, head, st_out, (0u16, RecordType::EndOfFile, Seq::<u8>::empty()));
        }
        recs.push(t);
        proof {
            let all = hex_records(self.start(), es);
            assert(all =~= head + st_out.push((0u16, RecordType::EndOfFile, Seq::<u8>::empty())));
        }
        Ok(join_with_line_feeds(&recs))
    }
}

} // verus!
