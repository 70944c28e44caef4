//! Splitting a byte stream into terminator-delimited lines.

use vstd::prelude::*;

verus! {

/// The line terminator byte (`\n`).
pub const NL: u8 = 10;

/// Number of bytes of `s` before its first line terminator, or all of `s`
/// when no terminator is present.
pub open spec fn line_len(s: Seq<u8>) -> int
    decreases s.len(),
{
    if s.len() == 0 {
        0
    } else if s[0] == NL {
        0
    } else {
        1 + line_len(s.skip(1))
    }
}

/// The first line of `s`, without its terminator.
pub open spec fn first_line(s: Seq<u8>) -> Seq<u8> {
    s.take(line_len(s))
}

/// What remains of `s` after its first line and that line's terminator, if
/// any, are removed.
pub open spec fn after_line(s: Seq<u8>) -> Seq<u8> {
    if line_len(s) < s.len() {
        s.skip(line_len(s) + 1)
    } else {
        Seq::empty()
    }
}

/// `line_len` points at the first terminator: everything before it is an
/// ordinary byte, and the byte there, if within bounds, is the terminator.
pub proof fn lemma_line_len(s: Seq<u8>)
    ensures
        0 <= line_len(s) <= s.len(),
        forall|i: int| 0 <= i < line_len(s) ==> s[i] != NL,
        line_len(s) < s.len() ==> s[line_len(s)] == NL,
    decreases s.len(),
{
    if s.len() == 0 {
    } else if s[0] == NL {
    } else {
        lemma_line_len(s.skip(1));
        assert forall|i: int| 0 <= i < line_len(s) implies s[i] != NL by {
            if i > 0 {
                assert(s.skip(1)[i - 1] != NL);
            }
        }
        if line_len(s) < s.len() {
            assert(s[line_len(s)] == s.skip(1)[line_len(s.skip(1))]);
        }
    }
}

/// A position with only ordinary bytes before it and a terminator (or the
/// end of the stream) at it is exactly `line_len`.
pub proof fn lemma_line_len_is(s: Seq<u8>, k: int)
    requires
        0 <= k <= s.len(),
        forall|i: int| 0 <= i < k ==> s[i] != NL,
        k < s.len() ==> s[k] == NL,
    ensures
        line_len(s) == k,
    decreases s.len(),
{
    if s.len() == 0 {
    } else if s[0] == NL {
        assert(k == 0);
    } else {
        assert(k >= 1);
        assert forall|i: int| 0 <= i < k - 1 implies s.skip(1)[i] != NL by {
            assert(s[i + 1] != NL);
        }
        lemma_line_len_is(s.skip(1), k - 1);
    }
}

/// The first line shrinks the stream: removing it always consumes at least
/// one byte of a non-empty stream.
pub proof fn lemma_after_line_shrinks(s: Seq<u8>)
    requires
        s.len() > 0,
    ensures
        after_line(s).len() < s.len(),
{
    lemma_line_len(s);
}

/// Reading the first line of `a ++ [NL] ++ b`, where `a` holds no
/// terminator, yields exactly `a` and leaves exactly `b`.
pub proof fn lemma_line_split(a: Seq<u8>, b: Seq<u8>)
    requires
        forall|i: int| 0 <= i < a.len() ==> a[i] != NL,
    ensures
        line_len(a + seq![NL] + b) == a.len(),
        first_line(a + seq![NL] + b) == a,
        after_line(a + seq![NL] + b) == b,
{
    let s = a + seq![NL] + b;
    assert(s[a.len() as int] == NL);
    lemma_line_len_is(s, a.len() as int);
    assert(first_line(s) =~= a);
    assert(after_line(s) =~= b);
}

/// Appending bytes that begin with a terminator does not change the first
/// line; it only changes what remains after it.
pub proof fn lemma_line_append(s: Seq<u8>, t: Seq<u8>)
    requires
        t.len() > 0,
        t[0] == NL,
    ensures
        line_len(s + t) == line_len(s),
        line_len(s) < s.len() ==> first_line(s + t) == first_line(s) && after_line(s + t)
            == after_line(s) + t,
        line_len(s) == s.len() ==> first_line(s + t) == s && after_line(s + t) == t.skip(1),
{
    let k = line_len(s);
    lemma_line_len(s);
    assert(forall|i: int| 0 <= i < k ==> (s + t)[i] != NL);
    if k < s.len() {
        assert((s + t)[k] == s[k]);
    } else {
        assert((s + t)[k] == t[0]);
    }
    lemma_line_len_is(s + t, k);
    if k < s.len() {
        assert(first_line(s + t) =~= first_line(s));
        assert(after_line(s + t) =~= after_line(s) + t);
    } else {
        assert(first_line(s + t) =~= s);
        assert(after_line(s + t) =~= t.skip(1));
    }
}

} // verus!
