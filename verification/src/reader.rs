//! The FASTQ record reader: four lines per record, with end-of-stream and
//! malformed-record disambiguation.

use vstd::prelude::*;
use crate::lines::{
    NL, line_len, first_line, after_line, lemma_line_len, lemma_line_len_is,
    lemma_after_line_shrinks, lemma_line_append, lemma_line_split,
};
use crate::record::{HEADER_MARK, SEP_MARK, RecView, Record, rec_wf};

verus! {

/// Why a record could not be read.
#[derive(Clone, Copy, Debug, PartialEq, Eq, Structural)]
pub enum MalformKind {
    /// A line stands where a header is expected but does not begin with `@`.
    MissingHeaderMarker,
    /// A line stands where the separator is expected but does not begin
    /// with `+`.
    MissingSeparatorMarker,
    /// The quality line's length differs from the sequence line's.
    LengthMismatch,
    /// The stream ended with some but not all four lines of a record.
    IncompleteRecord,
}

/// What one reading step yields: a clean end of stream, a malformed record,
/// or one record together with the bytes that remain after it.
pub ghost enum Step {
    Fin,
    Bad(MalformKind),
    Next(RecView, Seq<u8>),
}

/// One step of the reader on the remaining bytes `s`.
///
/// An empty stream, an empty line where a header is expected, and an empty
/// sequence line all end the stream cleanly; the last two absorb trailing
/// blank lines that some producers append.
pub open spec fn step_of(s: Seq<u8>) -> Step {
    if s.len() == 0 {
        Step::Fin
    } else {
        let hline = first_line(s);
        let r1 = after_line(s);
        if hline.len() == 0 {
            Step::Fin
        } else if hline[0] != HEADER_MARK {
            Step::Bad(MalformKind::MissingHeaderMarker)
        } else if r1.len() == 0 {
            Step::Bad(MalformKind::IncompleteRecord)
        } else {
            let sline = first_line(r1);
            let r2 = after_line(r1);
            if sline.len() == 0 {
                Step::Fin
            } else if r2.len() == 0 {
                Step::Bad(MalformKind::IncompleteRecord)
            } else {
                let pline = first_line(r2);
                let r3 = after_line(r2);
                if pline.len() == 0 || pline[0] != SEP_MARK {
                    Step::Bad(MalformKind::MissingSeparatorMarker)
                } else if r3.len() == 0 {
                    Step::Bad(MalformKind::IncompleteRecord)
                } else {
                    let qline = first_line(r3);
                    let r4 = after_line(r3);
                    if qline.len() != sline.len() {
                        Step::Bad(MalformKind::LengthMismatch)
                    } else {
                        Step::Next(
                            RecView { head: hline.skip(1), bases: sline, quals: qline },
                            r4,
                        )
                    }
                }
            }
        }
    }
}

/// A reading step that yields a record consumes at least one byte, and the
/// record it yields is well formed.
pub proof fn lemma_step_shrinks(s: Seq<u8>)
    ensures
        step_of(s) matches Step::Next(r, rest) ==> rest.len() < s.len() && rec_wf(r),
{
    if s.len() > 0 {
        lemma_line_len(s);
        lemma_after_line_shrinks(s);
        let r1 = after_line(s);
        if r1.len() > 0 {
            lemma_line_len(r1);
            lemma_after_line_shrinks(r1);
            let r2 = after_line(r1);
            if r2.len() > 0 {
                lemma_line_len(r2);
                lemma_after_line_shrinks(r2);
                let r3 = after_line(r2);
                if r3.len() > 0 {
                    lemma_line_len(r3);
                    lemma_after_line_shrinks(r3);
                }
            }
        }
    }
}

/// The whole stream's parse: the records of every complete four-line group,
/// or the first malformed-record condition met.
pub open spec fn parse_all(s: Seq<u8>) -> Result<Seq<RecView>, MalformKind>
    decreases s.len(),
{
    match step_of(s) {
        Step::Fin => Ok(Seq::empty()),
        Step::Bad(k) => Err(k),
        Step::Next(r, rest) => {
            if rest.len() < s.len() {
                match parse_all(rest) {
                    Ok(tail) => Ok(seq![r] + tail),
                    Err(k) => Err(k),
                }
            } else {
                Err(MalformKind::IncompleteRecord)
            }
        },
    }
}

/// The records that stand before the stream's end or before its first
/// malformed record: what a single pass hands out before it stops.
pub open spec fn good_prefix(s: Seq<u8>) -> Seq<RecView>
    decreases s.len(),
{
    match step_of(s) {
        Step::Next(r, rest) => {
            if rest.len() < s.len() {
                seq![r] + good_prefix(rest)
            } else {
                seq![r]
            }
        },
        _ => Seq::empty(),
    }
}

/// A parse that succeeds yields only well-formed records, no more of them
/// than the stream has bytes, and exactly the records of `good_prefix`.
pub proof fn lemma_parse_all_ok(s: Seq<u8>)
    ensures
        parse_all(s) matches Ok(rs) ==> {
            &&& forall|i: int| 0 <= i < rs.len() ==> rec_wf(#[trigger] rs[i])
            &&& rs.len() <= s.len()
            &&& rs == good_prefix(s)
        },
    decreases s.len(),
{
    lemma_step_shrinks(s);
    if let Step::Next(r, rest) = step_of(s) {
        lemma_parse_all_ok(rest);
        if let Ok(tail) = parse_all(rest) {
            assert(seq![r] + tail == good_prefix(s));
            assert forall|i: int| 0 <= i < (seq![r] + tail).len() implies rec_wf(
                #[trigger] (seq![r] + tail)[i],
            ) by {
                if i > 0 {
                    assert((seq![r] + tail)[i] == tail[i - 1]);
                }
            }
        }
    }
}

/// A run of empty lines: `k` terminator bytes.
pub open spec fn blanks(k: nat) -> Seq<u8> {
    Seq::new(k, |i: int| NL)
}

/// A stream of empty lines alone parses as a clean, empty stream.
pub proof fn lemma_parse_blanks(k: nat)
    ensures
        parse_all(blanks(k)) == Ok::<Seq<RecView>, MalformKind>(Seq::<RecView>::empty()),
{
    let s = blanks(k);
    if k > 0 {
        assert(s[0] == NL);
        assert(line_len(s) == 0);
        assert(first_line(s) =~= Seq::<u8>::empty());
        assert(step_of(s) == Step::Fin);
    }
}

/// A stream truncated immediately after a header line — no sequence,
/// separator or quality line — is a malformed record, never a silently
/// shorter clean run.
pub proof fn lemma_truncated_after_header(h: Seq<u8>)
    requires
        h.len() > 0,
        h[0] == HEADER_MARK,
        forall|i: int| 0 <= i < h.len() ==> h[i] != NL,
    ensures
        parse_all(h) == Err::<Seq<RecView>, MalformKind>(MalformKind::IncompleteRecord),
        parse_all(h + seq![NL]) == Err::<Seq<RecView>, MalformKind>(MalformKind::IncompleteRecord),
{
    lemma_line_len_is(h, h.len() as int);
    assert(first_line(h) =~= h);
    assert(step_of(h) == Step::Bad(MalformKind::IncompleteRecord));
    lemma_line_split(h, Seq::empty());
    assert(h + seq![NL] + Seq::<u8>::empty() =~= h + seq![NL]);
    assert(step_of(h + seq![NL]) == Step::Bad(MalformKind::IncompleteRecord));
}

/// Trailing blank lines change nothing: a stream that parses cleanly,
/// followed by any number of empty lines, parses to the same records —
/// hence to the same run summary.
pub proof fn lemma_trailing_blanks(s: Seq<u8>, k: nat)
    requires
        parse_all(s) is Ok,
    ensures
        parse_all(s + blanks(k)) == parse_all(s),
    decreases s.len(),
{
    let t = blanks(k);
    let st = s + t;
    if k == 0 {
        assert(st =~= s);
        return ;
    }
    assert(t[0] == NL);
    if s.len() == 0 {
        assert(st =~= t);
        lemma_parse_blanks(k);
        return ;
    }
    lemma_line_len(s);
    lemma_line_append(s, t);
    let hline = first_line(s);
    let r1 = after_line(s);
    if hline.len() == 0 {
        assert(line_len(s) == 0);
        assert(first_line(st) == hline);
        assert(step_of(st) == Step::Fin);
        return ;
    }
    // parse_all(s) is Ok, so the header marker is present and bytes remain.
    assert(hline[0] == HEADER_MARK);
    assert(r1.len() > 0);
    assert(line_len(s) < s.len());
    assert(after_line(st) == r1 + t);
    lemma_line_len(r1);
    lemma_line_append(r1, t);
    let sline = first_line(r1);
    let r2 = after_line(r1);
    if sline.len() == 0 {
        assert(line_len(r1) == 0);
        assert(first_line(r1 + t) == sline);
        assert(step_of(st) == Step::Fin);
        return ;
    }
    assert(r2.len() > 0);
    assert(line_len(r1) < r1.len());
    assert(after_line(r1 + t) == r2 + t);
    lemma_line_len(r2);
    lemma_line_append(r2, t);
    let pline = first_line(r2);
    let r3 = after_line(r2);
    assert(pline.len() > 0 && pline[0] == SEP_MARK);
    assert(r3.len() > 0);
    assert(line_len(r2) < r2.len());
    assert(first_line(r2 + t) == pline);
    assert(after_line(r2 + t) == r3 + t);
    lemma_line_len(r3);
    lemma_line_append(r3, t);
    let qline = first_line(r3);
    let r4 = after_line(r3);
    assert(qline.len() == sline.len());
    let rec = RecView { head: hline.skip(1), bases: sline, quals: qline };
    assert(step_of(s) == Step::Next(rec, r4));
    lemma_step_shrinks(s);
    assert(r4.len() < s.len());
    let tail = parse_all(r4)->Ok_0;
    assert(parse_all(s) == Ok::<Seq<RecView>, MalformKind>(seq![rec] + tail));
    if line_len(r3) < r3.len() {
        assert(first_line(r3 + t) == qline);
        assert(after_line(r3 + t) == r4 + t);
        assert(step_of(st) == Step::Next(rec, r4 + t));
        lemma_trailing_blanks(r4, k);
        assert((r4 + t).len() < st.len());
        assert(parse_all(st) == Ok::<Seq<RecView>, MalformKind>(seq![rec] + tail));
    } else {
        // The quality line was the stream's last, unterminated: nothing
        // follows it in `s`, and only blank lines follow it in `st`.
        assert(r4 =~= Seq::<u8>::empty());
        assert(first_line(r3 + t) == r3);
        assert(r3 == qline);
        assert(after_line(r3 + t) == t.skip(1));
        assert(t.skip(1) =~= blanks((k - 1) as nat));
        assert(step_of(st) == Step::Next(rec, blanks((k - 1) as nat)));
        lemma_parse_blanks((k - 1) as nat);
        assert(blanks((k - 1) as nat).len() < st.len());
        assert(parse_all(r4) == Ok::<Seq<RecView>, MalformKind>(Seq::<RecView>::empty()));
        assert(tail =~= Seq::<RecView>::empty());
        assert(parse_all(st) == Ok::<Seq<RecView>, MalformKind>(seq![rec] + Seq::<
            RecView,
        >::empty()));
        assert(seq![rec] + Seq::<RecView>::empty() =~= seq![rec] + tail);
    }
}

/// What reading one record returns.
pub enum ReadStep {
    /// One complete record.
    Rec(Record),
    /// The stream ended cleanly between records.
    EndOfStream,
    /// The stream is malformed; the run must stop.
    Malformed(MalformKind),
}

/// The record reader: a position over a fully buffered byte stream.
pub struct Reader {
    data: Vec<u8>,
    pos: usize,
}

impl Reader {
    /// The reader's position never passes the end of its stream.
    pub closed spec fn wf(self) -> bool {
        self.pos <= self.data.len()
    }

    /// The bytes not yet consumed.
    pub closed spec fn remaining(self) -> Seq<u8> {
        self.data@.skip(self.pos as int)
    }

    /// The whole stream the reader was built over.
    pub closed spec fn stream(self) -> Seq<u8> {
        self.data@
    }

    /// A reader at the start of `data`.
    pub fn new(data: Vec<u8>) -> (r: Reader)
        ensures
            r.wf(),
            r.stream() == data@,
            r.remaining() == data@,
    {
        let r = Reader { data, pos: 0 };
        proof {
            assert(r.remaining() =~= r.data@);
        }
        r
    }

    /// Consume the first remaining line, without its terminator.
    fn next_line(&mut self) -> (line: Vec<u8>)
        requires
            old(self).wf(),
        ensures
            final(self).wf(),
            final(self).stream() == old(self).stream(),
            line@ == first_line(old(self).remaining()),
            final(self).remaining() == after_line(old(self).remaining()),
    {
        let ghost rem = self.remaining();
        let start = self.pos;
        let n = self.data.len();
        let mut j = start;
        while j < n && self.data[j] != NL
            invariant
                start <= j <= n,
                n == self.data.len(),
                forall|i: int| start <= i < j ==> self.data@[i] != NL,
            decreases n - j,
        {
            j = j + 1;
        }
        proof {
            assert forall|i: int| 0 <= i < j - start implies rem[i] != NL by {
                assert(rem[i] == self.data@[start + i]);
            }
            if j < n {
                assert(rem[j - start] == self.data@[j as int]);
            }
            crate::lines::lemma_line_len_is(rem, j - start);
        }
        let mut line: Vec<u8> = Vec::new();
        let mut i = start;
        while i < j
            invariant
                start <= i <= j <= n,
                n == self.data.len(),
                line@ == self.data@.subrange(start as int, i as int),
            decreases j - i,
        {
            line.push(self.data[i]);
            i = i + 1;
            assert(line@ =~= self.data@.subrange(start as int, i as int));
        }
        if j < n {
            self.pos = j + 1;
        } else {
            self.pos = j;
        }
        proof {
            assert(line@ =~= first_line(rem));
            assert(self.remaining() =~= after_line(rem));
        }
        line
    }

    /// Whether the stream is exhausted.
    fn at_end(&self) -> (r: bool)
        requires
            self.wf(),
        ensures
            r == (self.remaining().len() == 0),
    {
        self.pos == self.data.len()
    }

    /// Read the next record, or report why none can be read.
    ///
    /// The result is exactly one step of the stream grammar: a record when a
    /// complete well-formed four-line group stands next, `EndOfStream` on a
    /// clean end (including a blank header or sequence line), and otherwise
    /// the malformed-record condition that was met.
    pub fn read_next(&mut self) -> (r: ReadStep)
        requires
            old(self).wf(),
        ensures
            final(self).wf(),
            final(self).stream() == old(self).stream(),
            match r {
                ReadStep::Rec(rec) => step_of(old(self).remaining()) == Step::Next(
                    rec@,
                    final(self).remaining(),
                ),
                ReadStep::EndOfStream => step_of(old(self).remaining()) == Step::Fin,
                ReadStep::Malformed(k) => step_of(old(self).remaining()) == Step::Bad(k),
            },
    {
        if self.at_end() {
            return ReadStep::EndOfStream;
        }
        let hline = self.next_line();
        if hline.len() == 0 {
            return ReadStep::EndOfStream;
        }
        if hline[0] != HEADER_MARK {
            return ReadStep::Malformed(MalformKind::MissingHeaderMarker);
        }
        if self.at_end() {
            return ReadStep::Malformed(MalformKind::IncompleteRecord);
        }
        let sline = self.next_line();
        if sline.len() == 0 {
            return ReadStep::EndOfStream;
        }
        if self.at_end() {
            return ReadStep::Malformed(MalformKind::IncompleteRecord);
        }
        let pline = self.next_line();
        if pline.len() == 0 || pline[0] != SEP_MARK {
            return ReadStep::Malformed(MalformKind::MissingSeparatorMarker);
        }
        if self.at_end() {
            return ReadStep::Malformed(MalformKind::IncompleteRecord);
        }
        let qline = self.next_line();
        if qline.len() != sline.len() {
            return ReadStep::Malformed(MalformKind::LengthMismatch);
        }
        let head = tail_of(&hline);
        let rec = Record { head, bases: sline, quals: qline };
        ReadStep::Rec(rec)
    }
}

/// All of `v` but its first byte.
fn tail_of(v: &Vec<u8>) -> (r: Vec<u8>)
    requires
        v@.len() >= 1,
    ensures
        r@ == v@.skip(1),
{
    let mut r: Vec<u8> = Vec::new();
    let mut i: usize = 1;
    while i < v.len()
        invariant
            1 <= i <= v@.len(),
            r@ == v@.subrange(1, i as int),
        decreases v@.len() - i,
    {
        r.push(v[i]);
        i = i + 1;
        assert(r@ =~= v@.subrange(1, i as int));
    }
    assert(r@ =~= v@.skip(1));
    r
}

} // verus!
