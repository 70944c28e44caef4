//! One sequencing read: header text, bases and per-base qualities.

use vstd::prelude::*;
use crate::lines::NL;

verus! {

/// The header-line marker byte (`@`).
pub const HEADER_MARK: u8 = 64;

/// The separator-line marker byte (`+`).
pub const SEP_MARK: u8 = 43;

/// Mathematical view of one record: the header text after its marker, the
/// nucleotide bytes, and the quality bytes.
pub ghost struct RecView {
    pub head: Seq<u8>,
    pub bases: Seq<u8>,
    pub quals: Seq<u8>,
}

/// A record as the reader produces it: the sequence is non-empty, the
/// quality line has the same length, and no field holds a line terminator.
pub open spec fn rec_wf(r: RecView) -> bool {
    &&& r.bases.len() > 0
    &&& r.quals.len() == r.bases.len()
    &&& forall|i: int| 0 <= i < r.head.len() ==> r.head[i] != NL
    &&& forall|i: int| 0 <= i < r.bases.len() ==> r.bases[i] != NL
    &&& forall|i: int| 0 <= i < r.quals.len() ==> r.quals[i] != NL
}

/// One sequencing read. `head` is the header line's content after the `@`
/// marker, kept verbatim; `bases` and `quals` are the sequence and quality
/// lines, without terminators.
pub struct Record {
    pub head: Vec<u8>,
    pub bases: Vec<u8>,
    pub quals: Vec<u8>,
}

impl View for Record {
    type V = RecView;

    open spec fn view(&self) -> RecView {
        RecView { head: self.head@, bases: self.bases@, quals: self.quals@ }
    }
}

/// The four output lines of one record: `@` plus the header text, the
/// bases, the bare separator marker, and the qualities, each terminated.
pub open spec fn render(r: RecView) -> Seq<u8> {
    seq![HEADER_MARK] + r.head + seq![NL] + r.bases + seq![NL] + seq![SEP_MARK] + seq![NL]
        + r.quals + seq![NL]
}

/// The rendering of a whole stream of records, in order.
pub open spec fn render_all(rs: Seq<RecView>) -> Seq<u8>
    decreases rs.len(),
{
    if rs.len() == 0 {
        Seq::empty()
    } else {
        render(rs[0]) + render_all(rs.skip(1))
    }
}

/// Append the byte `b` to `out`.
fn push_byte(out: &mut Vec<u8>, b: u8)
    ensures
        final(out)@ == old(out)@.push(b),
{
    out.push(b);
}

/// Append all of `src` to `out`.
fn push_bytes(out: &mut Vec<u8>, src: &Vec<u8>)
    ensures
        final(out)@ == old(out)@ + src@,
{
    let mut i: usize = 0;
    while i < src.len()
        invariant
            i <= src.len(),
            out@ == old(out)@ + src@.take(i as int),
        decreases src.len() - i,
    {
        out.push(src[i]);
        i = i + 1;
        assert(out@ =~= old(out)@ + src@.take(i as int));
    }
    assert(out@ =~= old(out)@ + src@);
}

/// Serialize `rec` back to its four FASTQ lines, appended to `out`.
pub fn emit_record(rec: &Record, out: &mut Vec<u8>)
    ensures
        final(out)@ == old(out)@ + render(rec@),
{
    push_byte(out, HEADER_MARK);
    push_bytes(out, &rec.head);
    push_byte(out, NL);
    push_bytes(out, &rec.bases);
    push_byte(out, NL);
    push_byte(out, SEP_MARK);
    push_byte(out, NL);
    push_bytes(out, &rec.quals);
    push_byte(out, NL);
    assert(out@ =~= old(out)@ + render(rec@));
}

} // verus!
