//! Per-record statistics and their aggregation: sequence length, GC-content
//! percentage, and the two frequency distributions over a whole run.

use vstd::prelude::*;
use vstd::arithmetic::div_mod::{
    lemma_basic_div, lemma_div_is_ordered, lemma_fundamental_div_mod_converse,
};
use crate::record::{RecView, Record};

verus! {

/// Whether `b` counts toward GC content: `G`, `g`, `C` or `c`.
pub open spec fn is_gc(b: u8) -> bool {
    b == 71 || b == 103 || b == 67 || b == 99
}

/// The number of GC bases in `bs`.
pub open spec fn gc_count_of(bs: Seq<u8>) -> int
    decreases bs.len(),
{
    if bs.len() == 0 {
        0
    } else {
        gc_count_of(bs.drop_last()) + if is_gc(bs.last()) {
            1int
        } else {
            0int
        }
    }
}

/// The GC percentage bucket for `gc` GC bases out of `len`: the value
/// `100 * gc / len` rounded to the nearest integer, ties rounding up, as
/// the integer division `(200 * gc + len) / (2 * len)`.
pub open spec fn gc_pct(gc: int, len: int) -> int {
    (200 * gc + len) / (2 * len)
}

/// The GC percentage bucket of a whole sequence.
pub open spec fn gc_percent_of(bs: Seq<u8>) -> int {
    gc_pct(gc_count_of(bs), bs.len() as int)
}

/// A sequence never holds more GC bases than bases.
pub proof fn lemma_gc_count_range(bs: Seq<u8>)
    ensures
        0 <= gc_count_of(bs) <= bs.len(),
    decreases bs.len(),
{
    if bs.len() > 0 {
        lemma_gc_count_range(bs.drop_last());
    }
}

/// GC percentage buckets lie between 0 and 100.
pub proof fn lemma_gc_pct_range(gc: int, len: int)
    requires
        0 <= gc <= len,
        1 <= len,
    ensures
        0 <= gc_pct(gc, len) <= 100,
{
    let num = 200 * gc + len;
    let den = 2 * len;
    lemma_basic_div(0, den);
    lemma_div_is_ordered(0, num, den);
    assert(201 * len == 100 * (2 * len) + len);
    lemma_fundamental_div_mod_converse(201 * len, den, 100, len);
    lemma_div_is_ordered(num, 201 * len, den);
}

/// The bucket is the half-up rounding of `100 * gc / len`: twice the
/// remainder `200 * gc + len - 2 * len * bucket` lies in `[0, 2 * len)`.
pub proof fn lemma_gc_pct_rounds_half_up(gc: int, len: int)
    requires
        0 <= gc <= len,
        1 <= len,
    ensures
        2 * len * gc_pct(gc, len) <= 200 * gc + len < 2 * len * (gc_pct(gc, len) + 1),
{
    let num = 200 * gc + len;
    let den = 2 * len;
    let q = gc_pct(gc, len);
    vstd::arithmetic::div_mod::lemma_fundamental_div_mod(num, den);
    vstd::arithmetic::div_mod::lemma_mod_bound(num, den);
    assert(den * (q + 1) == den * q + den) by (nonlinear_arith);
}

/// A sequence of GC bases alone scores 100.
pub proof fn lemma_gc_percent_all(bs: Seq<u8>)
    requires
        bs.len() > 0,
        forall|i: int| 0 <= i < bs.len() ==> is_gc(#[trigger] bs[i]),
    ensures
        gc_percent_of(bs) == 100,
{
    lemma_gc_count_full(bs);
    let len = bs.len() as int;
    assert(200 * len + len == 100 * (2 * len) + len);
    lemma_fundamental_div_mod_converse(200 * len + len, 2 * len, 100, len);
}

/// A sequence without a GC base scores 0.
pub proof fn lemma_gc_percent_none(bs: Seq<u8>)
    requires
        bs.len() > 0,
        forall|i: int| 0 <= i < bs.len() ==> !is_gc(#[trigger] bs[i]),
    ensures
        gc_percent_of(bs) == 0,
{
    lemma_gc_count_empty(bs);
    let len = bs.len() as int;
    lemma_basic_div(len, 2 * len);
}

proof fn lemma_gc_count_full(bs: Seq<u8>)
    requires
        forall|i: int| 0 <= i < bs.len() ==> is_gc(#[trigger] bs[i]),
    ensures
        gc_count_of(bs) == bs.len(),
    decreases bs.len(),
{
    if bs.len() > 0 {
        lemma_gc_count_full(bs.drop_last());
    }
}

proof fn lemma_gc_count_empty(bs: Seq<u8>)
    requires
        forall|i: int| 0 <= i < bs.len() ==> !is_gc(#[trigger] bs[i]),
    ensures
        gc_count_of(bs) == 0,
    decreases bs.len(),
{
    if bs.len() > 0 {
        lemma_gc_count_empty(bs.drop_last());
    }
}

/// Count the GC bases of `bases`.
pub fn gc_count(bases: &Vec<u8>) -> (r: usize)
    ensures
        r as int == gc_count_of(bases@),
{
    let mut cnt: usize = 0;
    let mut i: usize = 0;
    while i < bases.len()
        invariant
            i <= bases@.len(),
            cnt as int == gc_count_of(bases@.take(i as int)),
            cnt <= i,
        decreases bases@.len() - i,
    {
        let b = bases[i];
        proof {
            assert(bases@.take(i + 1).drop_last() =~= bases@.take(i as int));
            assert(bases@.take(i + 1).last() == bases@[i as int]);
        }
        if b == 71 || b == 103 || b == 67 || b == 99 {
            cnt = cnt + 1;
        }
        i = i + 1;
    }
    proof {
        assert(bases@.take(bases@.len() as int) =~= bases@);
    }
    cnt
}

/// The GC percentage bucket of a non-empty sequence of bases.
pub fn gc_percent(bases: &Vec<u8>) -> (r: u8)
    requires
        bases@.len() > 0,
    ensures
        r as int == gc_percent_of(bases@),
        r <= 100,
{
    let gc = gc_count(bases);
    let len = bases.len();
    proof {
        lemma_gc_count_range(bases@);
        lemma_gc_pct_range(gc as int, len as int);
    }
    let num: u128 = 200u128 * (gc as u128) + (len as u128);
    let den: u128 = 2u128 * (len as u128);
    let q: u128 = num / den;
    q as u8
}

/// The count each key has in a sequence of key/count pairs.
pub open spec fn count_in(ps: Seq<(u64, u64)>, k: int) -> int
    decreases ps.len(),
{
    if ps.len() == 0 {
        0
    } else {
        count_in(ps.drop_last(), k) + if ps.last().0 == k {
            ps.last().1 as int
        } else {
            0int
        }
    }
}

/// The sum of all counts in a sequence of key/count pairs.
pub open spec fn sum_in(ps: Seq<(u64, u64)>) -> int
    decreases ps.len(),
{
    if ps.len() == 0 {
        0
    } else {
        sum_in(ps.drop_last()) + ps.last().1 as int
    }
}

/// No key appears twice.
pub open spec fn distinct_keys(ps: Seq<(u64, u64)>) -> bool {
    forall|a: int, b: int| 0 <= a < b < ps.len() ==> (#[trigger] ps[a]).0 != (#[trigger] ps[b]).0
}

proof fn lemma_sum_nonneg(ps: Seq<(u64, u64)>)
    ensures
        0 <= sum_in(ps),
    decreases ps.len(),
{
    if ps.len() > 0 {
        lemma_sum_nonneg(ps.drop_last());
    }
}

proof fn lemma_elem_le_sum(ps: Seq<(u64, u64)>, i: int)
    requires
        0 <= i < ps.len(),
    ensures
        ps[i].1 as int <= sum_in(ps),
    decreases ps.len(),
{
    if i == ps.len() - 1 {
        lemma_sum_nonneg(ps.drop_last());
    } else {
        lemma_elem_le_sum(ps.drop_last(), i);
    }
}

proof fn lemma_update_inc(ps: Seq<(u64, u64)>, i: int, c2: u64)
    requires
        0 <= i < ps.len(),
        c2 as int == ps[i].1 as int + 1,
    ensures
        sum_in(ps.update(i, (ps[i].0, c2))) == sum_in(ps) + 1,
        forall|k: int|
            count_in(ps.update(i, (ps[i].0, c2)), k) == count_in(ps, k) + (if ps[i].0 == k {
                1int
            } else {
                0int
            }),
    decreases ps.len(),
{
    let ps2 = ps.update(i, (ps[i].0, c2));
    if i == ps.len() - 1 {
        assert(ps2.drop_last() =~= ps.drop_last());
        assert(ps2.last() == (ps[i].0, c2));
        assert forall|k: int|
            count_in(ps2, k) == count_in(ps, k) + (if ps[i].0 == k {
                1int
            } else {
                0int
            }) by {
            assert(count_in(ps2, k) == count_in(ps2.drop_last(), k) + (if ps2.last().0 == k {
                ps2.last().1 as int
            } else {
                0int
            }));
        }
    } else {
        assert(ps.drop_last()[i] == ps[i]);
        lemma_update_inc(ps.drop_last(), i, c2);
        assert(ps2.drop_last() =~= ps.drop_last().update(i, (ps[i].0, c2)));
        assert(ps2.last() == ps.last());
        assert forall|k: int|
            count_in(ps2, k) == count_in(ps, k) + (if ps[i].0 == k {
                1int
            } else {
                0int
            }) by {
            assert(count_in(ps2.drop_last(), k) == count_in(ps.drop_last(), k) + (if ps[i].0 == k {
                1int
            } else {
                0int
            }));
        }
    }
}

proof fn lemma_count_found(ps: Seq<(u64, u64)>, i: int)
    requires
        0 <= i < ps.len(),
        distinct_keys(ps),
    ensures
        count_in(ps, ps[i].0 as int) == ps[i].1 as int,
    decreases ps.len(),
{
    if i == ps.len() - 1 {
        lemma_count_absent(ps.drop_last(), ps[i].0 as int);
    } else {
        assert(distinct_keys(ps.drop_last()));
        lemma_count_found(ps.drop_last(), i);
        assert(ps.last().0 != ps[i].0);
    }
}

proof fn lemma_count_absent(ps: Seq<(u64, u64)>, k: int)
    requires
        forall|t: int| 0 <= t < ps.len() ==> (#[trigger] ps[t]).0 != k,
    ensures
        count_in(ps, k) == 0,
    decreases ps.len(),
{
    if ps.len() > 0 {
        lemma_count_absent(ps.drop_last(), k);
    }
}

/// A frequency distribution: how many records were observed with each key.
pub struct Distrib {
    pairs: Vec<(u64, u64)>,
}

impl Distrib {
    /// Each key appears at most once.
    pub closed spec fn wf(self) -> bool {
        distinct_keys(self.pairs@)
    }

    /// How many records were observed with key `k`.
    pub closed spec fn count(self, k: int) -> int {
        count_in(self.pairs@, k)
    }

    /// How many records were observed in all.
    pub closed spec fn total(self) -> int {
        sum_in(self.pairs@)
    }

    /// The empty distribution.
    pub fn new() -> (r: Distrib)
        ensures
            r.wf(),
            r.total() == 0,
            forall|k: int| r.count(k) == 0,
    {
        let r = Distrib { pairs: Vec::new() };
        proof {
            assert forall|k: int| r.count(k) == 0 by {
                lemma_count_absent(r.pairs@, k);
            }
        }
        r
    }

    /// Record one more observation of `key`.
    pub fn bump(&mut self, key: u64)
        requires
            old(self).wf(),
            old(self).total() < u64::MAX,
        ensures
            final(self).wf(),
            final(self).total() == old(self).total() + 1,
            forall|k: int|
                final(self).count(k) == old(self).count(k) + (if k == key as int {
                    1int
                } else {
                    0int
                }),
    {
        let ghost ps = self.pairs@;
        let n = self.pairs.len();
        let mut i: usize = 0;
        while i < n
            invariant
                self.pairs@ == ps,
                old(self).pairs@ == ps,
                n == ps.len(),
                i <= n,
                distinct_keys(ps),
                sum_in(ps) < u64::MAX,
                forall|t: int| 0 <= t < i ==> (#[trigger] ps[t]).0 != key,
            decreases n - i,
        {
            if self.pairs[i].0 == key {
                proof {
                    lemma_elem_le_sum(ps, i as int);
                }
                let c = self.pairs[i].1;
                self.pairs.set(i, (key, c + 1));
                proof {
                    lemma_update_inc(ps, i as int, (c + 1) as u64);
                    let ps2 = self.pairs@;
                    assert forall|a: int, b: int| 0 <= a < b < ps2.len() implies (
                    #[trigger] ps2[a]).0 != (#[trigger] ps2[b]).0 by {
                        assert(ps2[a].0 == ps[a].0);
                        assert(ps2[b].0 == ps[b].0);
                    }
                }
                return ;
            }
            i = i + 1;
        }
        self.pairs.push((key, 1));
        proof {
            let ps2 = self.pairs@;
            assert(ps2.drop_last() =~= ps);
            assert(ps2.last() == (key, 1u64));
            assert forall|k: int|
                count_in(ps2, k) == count_in(ps, k) + (if k == key as int {
                    1int
                } else {
                    0int
                }) by {}
            assert forall|a: int, b: int| 0 <= a < b < ps2.len() implies (#[trigger] ps2[a]).0 != (
            #[trigger] ps2[b]).0 by {
                if b == ps2.len() - 1 {
                    assert(ps2[a] == ps[a]);
                }
            }
        }
    }

    /// The count stored for `key`, zero when the key was never observed.
    pub fn get(&self, key: u64) -> (c: u64)
        requires
            self.wf(),
        ensures
            c as int == self.count(key as int),
    {
        let ghost ps = self.pairs@;
        let n = self.pairs.len();
        let mut i: usize = 0;
        while i < n
            invariant
                self.pairs@ == ps,
                n == ps.len(),
                i <= n,
                distinct_keys(ps),
                forall|t: int| 0 <= t < i ==> (#[trigger] ps[t]).0 != key,
            decreases n - i,
        {
            if self.pairs[i].0 == key {
                proof {
                    lemma_count_found(ps, i as int);
                }
                return self.pairs[i].1;
            }
            i = i + 1;
        }
        proof {
            lemma_count_absent(ps, key as int);
        }
        0
    }

    /// The stored key/count pairs, each key at most once.
    pub fn entries(&self) -> (r: &Vec<(u64, u64)>)
        requires
            self.wf(),
        ensures
            distinct_keys(r@),
            forall|k: int| count_in(r@, k) == self.count(k),
            sum_in(r@) == self.total(),
    {
        &self.pairs
    }
}

/// How many entries of `vs` equal `k`.
pub open spec fn occ(vs: Seq<int>, k: int) -> int
    decreases vs.len(),
{
    if vs.len() == 0 {
        0
    } else {
        occ(vs.drop_last(), k) + if vs.last() == k {
            1int
        } else {
            0int
        }
    }
}

/// The sequence lengths of a stream of records, in order.
pub open spec fn lens_of(rs: Seq<RecView>) -> Seq<int> {
    rs.map_values(|r: RecView| r.bases.len() as int)
}

/// The GC percentage buckets of a stream of records, in order.
pub open spec fn gcs_of(rs: Seq<RecView>) -> Seq<int> {
    rs.map_values(|r: RecView| gc_percent_of(r.bases))
}

/// The aggregated result of one run: how many records were counted, and the
/// frequency distributions of their lengths and GC percentages.
pub struct RunSummary {
    pub total: u64,
    pub len_distrib: Distrib,
    pub gc_distrib: Distrib,
}

impl RunSummary {
    /// Both distributions are well formed, and each holds every counted
    /// record exactly once: the counts of either sum to `total`.
    pub open spec fn wf(self) -> bool {
        &&& self.len_distrib.wf()
        &&& self.gc_distrib.wf()
        &&& self.len_distrib.total() == self.total as int
        &&& self.gc_distrib.total() == self.total as int
    }

    /// The summary is exactly the aggregation of the record stream `rs`:
    /// the total is its length, and each distribution key counts the
    /// records whose statistic equals it.
    pub open spec fn summarizes(self, rs: Seq<RecView>) -> bool {
        &&& self.total as int == rs.len()
        &&& forall|k: int| self.len_distrib.count(k) == occ(lens_of(rs), k)
        &&& forall|k: int| self.gc_distrib.count(k) == occ(gcs_of(rs), k)
    }

    /// The empty summary: no records observed.
    pub fn new() -> (r: RunSummary)
        ensures
            r.wf(),
            r.summarizes(Seq::empty()),
            r.total == 0,
    {
        let r = RunSummary { total: 0, len_distrib: Distrib::new(), gc_distrib: Distrib::new() };
        proof {
            assert(lens_of(Seq::empty()) =~= Seq::<int>::empty());
            assert(gcs_of(Seq::empty()) =~= Seq::<int>::empty());
        }
        r
    }

    /// Count one record: bump the length and GC-percentage buckets it
    /// falls in, and the total.
    pub fn observe(&mut self, rec: &Record)
        requires
            old(self).wf(),
            old(self).total < u64::MAX,
            rec@.bases.len() > 0,
        ensures
            final(self).wf(),
            final(self).total == old(self).total + 1,
            forall|k: int|
                final(self).len_distrib.count(k) == old(self).len_distrib.count(k) + (if k
                    == rec@.bases.len() as int {
                    1int
                } else {
                    0int
                }),
            forall|k: int|
                final(self).gc_distrib.count(k) == old(self).gc_distrib.count(k) + (if k
                    == gc_percent_of(rec@.bases) {
                    1int
                } else {
                    0int
                }),
    {
        let len = rec.bases.len();
        let pct = gc_percent(&rec.bases);
        self.len_distrib.bump(len as u64);
        self.gc_distrib.bump(pct as u64);
        self.total = self.total + 1;
    }
}

/// Appending one value to a stream moves exactly one occurrence count.
pub proof fn lemma_occ_push(vs: Seq<int>, v: int)
    ensures
        forall|k: int|
            occ(vs.push(v), k) == occ(vs, k) + (if k == v {
                1int
            } else {
                0int
            }),
{
    assert forall|k: int|
        occ(vs.push(v), k) == occ(vs, k) + (if k == v {
            1int
        } else {
            0int
        }) by {
        assert(vs.push(v).drop_last() =~= vs);
        assert(vs.push(v).last() == v);
    }
}

/// A summary extended by one observation summarizes the stream extended by
/// that record.
pub proof fn lemma_summarizes_push(pre: RunSummary, post: RunSummary, rs: Seq<RecView>, r: RecView)
    requires
        pre.summarizes(rs),
        post.total as int == pre.total as int + 1,
        forall|k: int|
            post.len_distrib.count(k) == pre.len_distrib.count(k) + (if k == r.bases.len() as int {
                1int
            } else {
                0int
            }),
        forall|k: int|
            post.gc_distrib.count(k) == pre.gc_distrib.count(k) + (if k == gc_percent_of(r.bases) {
                1int
            } else {
                0int
            }),
    ensures
        post.summarizes(rs.push(r)),
{
    assert(lens_of(rs.push(r)) =~= lens_of(rs).push(r.bases.len() as int));
    assert(gcs_of(rs.push(r)) =~= gcs_of(rs).push(gc_percent_of(r.bases)));
    lemma_occ_push(lens_of(rs), r.bases.len() as int);
    lemma_occ_push(gcs_of(rs), gc_percent_of(r.bases));
}

} // verus!
