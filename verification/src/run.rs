//! One whole run: resolve the payload, read records one at a time, count
//! each into the summary, and optionally echo it back out.

use vstd::prelude::*;
use crate::gzip::{payload_of, decode_payload, has_gzip_magic, gunzip_of};
use crate::reader::{
    Reader, ReadStep, Step, step_of, parse_all, good_prefix, MalformKind, lemma_step_shrinks,
    lemma_parse_all_ok,
};
use crate::record::{RecView, render, render_all, emit_record, rec_wf, HEADER_MARK, SEP_MARK};
use crate::lines::{NL, first_line, after_line, lemma_line_split};
use crate::stats::{RunSummary, lemma_summarizes_push};

verus! {

/// Why a run failed. Both conditions are fatal: nothing is skipped or
/// repaired, and the partial statistics are discarded.
#[derive(Clone, Copy, Debug, PartialEq, Eq, Structural)]
pub enum RunError {
    /// The input began with the gzip magic but could not be decompressed.
    BadGzip,
    /// A malformed record was met.
    Malformed(MalformKind),
}

/// The outcome a run is specified to have on input `s`: the record stream
/// of its payload, or the first error that stops the run.
pub open spec fn outcome_of(s: Seq<u8>) -> Result<Seq<RecView>, RunError> {
    match payload_of(s) {
        Option::None => Err(RunError::BadGzip),
        Option::Some(p) => match parse_all(p) {
            Ok(rs) => Ok(rs),
            Err(k) => Err(RunError::Malformed(k)),
        },
    }
}

/// Rendering a stream and then one more record is rendering the extended
/// stream.
pub proof fn lemma_render_all_push(rs: Seq<RecView>, r: RecView)
    ensures
        render_all(rs.push(r)) == render_all(rs) + render(r),
    decreases rs.len(),
{
    if rs.len() == 0 {
        assert(rs.push(r)[0] == r);
        assert(rs.push(r).skip(1) =~= Seq::<RecView>::empty());
        assert(render(r) + render_all(Seq::<RecView>::empty()) =~= render(r));
        assert(render_all(rs) + render(r) =~= render(r));
    } else {
        assert(rs.push(r)[0] == rs[0]);
        assert(rs.push(r).skip(1) =~= rs.skip(1).push(r));
        lemma_render_all_push(rs.skip(1), r);
        assert(render(rs[0]) + (render_all(rs.skip(1)) + render(r)) =~= (render(rs[0])
            + render_all(rs.skip(1))) + render(r));
    }
}

/// Compute the run statistics of one input stream, decompressing it first
/// when it carries the gzip magic.
///
/// The first component is the run's summary, or the error that aborted it;
/// the second is the passthrough echo: when `passthrough` is set, the
/// re-rendered bytes of every record read before the stream's end or its
/// first malformed record, and empty otherwise.
#[verifier::loop_isolation(false)]
pub fn calc_read_stats(data: Vec<u8>, passthrough: bool) -> (r: (
    Result<RunSummary, RunError>,
    Vec<u8>,
))
    ensures
        match r.0 {
            Ok(summary) => {
                &&& outcome_of(data@) matches Ok(rs) && summary.summarizes(rs)
                &&& summary.wf()
            },
            Err(e) => outcome_of(data@) == Err::<Seq<RecView>, RunError>(e),
        },
        match payload_of(data@) {
            Option::Some(p) => r.1@ == if passthrough {
                render_all(good_prefix(p))
            } else {
                Seq::<u8>::empty()
            },
            Option::None => r.1@ == Seq::<u8>::empty(),
        },
{
    let ghost input = data@;
    let mut echo: Vec<u8> = Vec::new();
    let payload = match decode_payload(data) {
        Option::Some(v) => v,
        Option::None => {
            return (Err(RunError::BadGzip), echo);
        },
    };
    let payload_len = payload.len();
    let ghost p = payload@;
    let mut rdr = Reader::new(payload);
    let mut summary = RunSummary::new();
    let ghost mut done: Seq<RecView> = Seq::empty();
    proof {
        if let Ok(t) = parse_all(p) {
            assert(Seq::<RecView>::empty() + t =~= t);
        }
        assert(Seq::<RecView>::empty() + good_prefix(p) =~= good_prefix(p));
    }
    loop
        invariant
            rdr.wf(),
            rdr.stream() == p,
            payload_of(input) == Option::Some(p),
            p.len() == payload_len as int,
            summary.wf(),
            summary.summarizes(done),
            summary.total as int == done.len(),
            done.len() + rdr.remaining().len() <= p.len(),
            match parse_all(rdr.remaining()) {
                Ok(t) => parse_all(p) == Ok::<Seq<RecView>, MalformKind>(done + t),
                Err(k) => parse_all(p) == Err::<Seq<RecView>, MalformKind>(k),
            },
            good_prefix(p) == done + good_prefix(rdr.remaining()),
            echo@ == if passthrough {
                render_all(done)
            } else {
                Seq::<u8>::empty()
            },
        decreases rdr.remaining().len(),
    {
        let ghost pre_rem = rdr.remaining();
        let step = rdr.read_next();
        match step {
            ReadStep::EndOfStream => {
                proof {
                    assert(parse_all(pre_rem) == Ok::<Seq<RecView>, MalformKind>(Seq::empty()));
                    assert(good_prefix(pre_rem) =~= Seq::<RecView>::empty());
                    assert(done + Seq::<RecView>::empty() =~= done);
                }
                return (Ok(summary), echo);
            },
            ReadStep::Malformed(k) => {
                proof {
                    assert(parse_all(pre_rem) == Err::<Seq<RecView>, MalformKind>(k));
                    assert(good_prefix(pre_rem) =~= Seq::<RecView>::empty());
                    assert(done + Seq::<RecView>::empty() =~= done);
                }
                return (Err(RunError::Malformed(k)), echo);
            },
            ReadStep::Rec(rec) => {
                let ghost new_rem = rdr.remaining();
                proof {
                    lemma_step_shrinks(pre_rem);
                    assert(pre_rem.len() > 0);
                    assert(parse_all(pre_rem) == match parse_all(new_rem) {
                        Ok(tail) => Ok::<Seq<RecView>, MalformKind>(seq![rec@] + tail),
                        Err(k) => Err::<Seq<RecView>, MalformKind>(k),
                    });
                    assert(good_prefix(pre_rem) == seq![rec@] + good_prefix(new_rem));
                }
                if passthrough {
                    emit_record(&rec, &mut echo);
                }
                let ghost pre_summary = summary;
                summary.observe(&rec);
                proof {
                    lemma_summarizes_push(pre_summary, summary, done, rec@);
                    if let Ok(t2) = parse_all(new_rem) {
                        assert(done + (seq![rec@] + t2) =~= done.push(rec@) + t2);
                    }
                    assert(done + (seq![rec@] + good_prefix(new_rem)) =~= done.push(rec@)
                        + good_prefix(new_rem));
                    if passthrough {
                        lemma_render_all_push(done, rec@);
                    }
                    done = done.push(rec@);
                }
            },
        }
    }
}

/// Every record counts once in each distribution: in any run summary the
/// length counts and the GC counts each sum to the number of records.
pub proof fn lemma_summary_totals(summary: RunSummary, rs: Seq<RecView>)
    requires
        summary.wf(),
        summary.summarizes(rs),
    ensures
        summary.len_distrib.total() == rs.len(),
        summary.gc_distrib.total() == rs.len(),
        summary.total as int == rs.len(),
{
}

/// Rendering one well-formed record in front of any trailing bytes reads
/// back as exactly that record, leaving exactly those bytes.
proof fn lemma_step_render(r: RecView, t: Seq<u8>)
    requires
        rec_wf(r),
    ensures
        step_of(render(r) + t) == Step::Next(r, t),
{
    let s = render(r) + t;
    let a1 = seq![HEADER_MARK] + r.head;
    let b1 = r.bases + seq![NL] + seq![SEP_MARK] + seq![NL] + r.quals + seq![NL] + t;
    assert(s =~= a1 + seq![NL] + b1);
    assert(forall|i: int| 0 <= i < a1.len() ==> #[trigger] a1[i] != NL);
    lemma_line_split(a1, b1);
    assert(first_line(s) == a1 && after_line(s) == b1);
    assert(a1[0] == HEADER_MARK);
    assert(a1.skip(1) =~= r.head);
    let a2 = r.bases;
    let b2 = seq![SEP_MARK] + seq![NL] + r.quals + seq![NL] + t;
    assert(b1 =~= a2 + seq![NL] + b2);
    lemma_line_split(a2, b2);
    let a3 = seq![SEP_MARK];
    let b3 = r.quals + seq![NL] + t;
    assert(b2 =~= a3 + seq![NL] + b3);
    assert(forall|i: int| 0 <= i < a3.len() ==> #[trigger] a3[i] != NL);
    lemma_line_split(a3, b3);
    assert(a3[0] == SEP_MARK);
    let a4 = r.quals;
    assert(b3 =~= a4 + seq![NL] + t);
    lemma_line_split(a4, t);
    assert(step_of(s) == Step::Next(RecView { head: a1.skip(1), bases: a2, quals: a4 }, t));
    assert(RecView { head: a1.skip(1), bases: a2, quals: a4 } == r);
}

/// Round-trip stability: the passthrough rendering of any stream of
/// well-formed records parses back to exactly those records — so running
/// the emitter's output through the reader again yields an identical run
/// summary.
pub proof fn lemma_round_trip(rs: Seq<RecView>)
    requires
        forall|i: int| 0 <= i < rs.len() ==> rec_wf(#[trigger] rs[i]),
    ensures
        parse_all(render_all(rs)) == Ok::<Seq<RecView>, MalformKind>(rs),
        outcome_of(render_all(rs)) == Ok::<Seq<RecView>, RunError>(rs),
    decreases rs.len(),
{
    if rs.len() == 0 {
        assert(render_all(rs) =~= Seq::<u8>::empty());
        assert(rs =~= Seq::<RecView>::empty());
    } else {
        let r0 = rs[0];
        let tail = rs.skip(1);
        let rest = render_all(tail);
        lemma_step_render(r0, rest);
        lemma_round_trip(tail);
        let s = render_all(rs);
        assert(s == render(r0) + rest);
        assert(render(r0).len() > 0);
        assert(rest.len() < s.len());
        assert(parse_all(s) == Ok::<Seq<RecView>, MalformKind>(seq![r0] + tail));
        assert(seq![r0] + tail =~= rs);
        assert(s[0] == HEADER_MARK);
        assert(!has_gzip_magic(s));
    }
}

/// Feeding a successful run's passthrough output back through the same
/// pipeline yields the identical outcome, hence an identical run summary.
pub proof fn lemma_passthrough_round_trip(s: Seq<u8>)
    requires
        outcome_of(s) is Ok,
    ensures
        outcome_of(render_all(outcome_of(s)->Ok_0)) == outcome_of(s),
{
    let p = payload_of(s)->Some_0;
    let rs = outcome_of(s)->Ok_0;
    assert(parse_all(p) == Ok::<Seq<RecView>, MalformKind>(rs));
    lemma_parse_all_ok(p);
    lemma_round_trip(rs);
}

/// Gzip transparency: a gzip-compressed stream and its decompressed
/// equivalent have identical run outcomes, hence identical summaries.
pub proof fn lemma_gzip_transparent(gz: Seq<u8>, plain: Seq<u8>)
    requires
        has_gzip_magic(gz),
        gunzip_of(gz) == Option::Some(plain),
        !has_gzip_magic(plain),
    ensures
        outcome_of(gz) == outcome_of(plain),
{
}

} // verus!
