//! Ordering candidates by a rational key.
//!
//! Both deterministic selection strategies sort candidates: Bottom-K by
//! mastery estimate, Oldest-Practiced-First by the time of the last
//! answer.  Each candidate becomes a `RankEntry` whose key is a rational
//! `num / den` and whose `idx` remembers the candidate's original
//! position; sorting by `(key, idx)` is a strict total order, so the
//! sorted sequence is unique and ties keep their original order (a
//! stable sort).

use vstd::prelude::*;

verus! {

use crate::ratio::lemma_rat_le_lt_trans;
use crate::ratio::lemma_rat_le_trans;
use crate::ratio::lemma_rat_lt_le_trans;
use crate::ratio::rat_eq;
use crate::ratio::rat_le;
use crate::ratio::rat_lt;

/// One candidate with its sort key `num / den` and original position.
#[derive(Clone, Copy, Debug, PartialEq, Eq, Structural)]
pub struct RankEntry {
    pub id: i64,
    pub num: u64,
    pub den: u64,
    pub idx: usize,
}

/// Keys compare as exact rationals; equal keys fall back to the original
/// position, which makes the order total and the sort stable.
pub open spec fn rank_le(a: RankEntry, b: RankEntry) -> bool {
    ||| rat_lt(a.num as int, a.den as int, b.num as int, b.den as int)
    ||| (rat_eq(a.num as int, a.den as int, b.num as int, b.den as int) && a.idx <= b.idx)
}

pub open spec fn wf_ranks(s: Seq<RankEntry>) -> bool {
    forall|i: int| 0 <= i < s.len() ==> (#[trigger] s[i]).den > 0
}

pub open spec fn sorted_ranks(s: Seq<RankEntry>) -> bool {
    forall|i: int, j: int| 0 <= i < j < s.len() ==> rank_le(s[i], s[j])
}

pub proof fn lemma_rank_le_total(a: RankEntry, b: RankEntry)
    requires
        a.den > 0,
        b.den > 0,
    ensures
        rank_le(a, b) || rank_le(b, a),
{
}

pub proof fn lemma_rank_le_trans(a: RankEntry, b: RankEntry, c: RankEntry)
    requires
        a.den > 0,
        b.den > 0,
        c.den > 0,
        rank_le(a, b),
        rank_le(b, c),
    ensures
        rank_le(a, c),
{
    let (an, ad) = (a.num as int, a.den as int);
    let (bn, bd) = (b.num as int, b.den as int);
    let (cn, cd) = (c.num as int, c.den as int);
    if rat_lt(an, ad, bn, bd) {
        lemma_rat_lt_le_trans(an, ad, bn, bd, cn, cd);
    } else if rat_lt(bn, bd, cn, cd) {
        lemma_rat_le_lt_trans(an, ad, bn, bd, cn, cd);
    } else {
        lemma_rat_le_trans(an, ad, bn, bd, cn, cd);
    }
}

/// `rank_le` decided by cross-multiplication, exactly as the spec reads.
fn rank_le_exec(a: RankEntry, b: RankEntry) -> (r: bool)
    requires
        a.den > 0,
        b.den > 0,
    ensures
        r == rank_le(a, b),
{
    proof {
        vstd::arithmetic::mul::lemma_mul_upper_bound(
            a.num as int,
            u64::MAX as int,
            b.den as int,
            u64::MAX as int,
        );
        vstd::arithmetic::mul::lemma_mul_upper_bound(
            b.num as int,
            u64::MAX as int,
            a.den as int,
            u64::MAX as int,
        );
    }
    let x: u128 = (a.num as u128) * (b.den as u128);
    let y: u128 = (b.num as u128) * (a.den as u128);
    if x < y {
        true
    } else if x == y {
        a.idx <= b.idx
    } else {
        false
    }
}

/// Sorts the entries ascending by `(key, idx)`: an insertion sort, kept
/// because candidate lists are small and the proof is direct.
pub fn rank_sort(v: &mut Vec<RankEntry>)
    requires
        wf_ranks(old(v)@),
    ensures
        final(v)@.len() == old(v)@.len(),
        final(v)@.to_multiset() == old(v)@.to_multiset(),
        sorted_ranks(final(v)@),
        wf_ranks(final(v)@),
{
    broadcast use vstd::seq_lib::to_multiset_update;
    broadcast use vstd::seq_lib::group_to_multiset_ensures;
    broadcast use vstd::multiset::group_multiset_axioms;

    let ghost orig = v@;
    let n = v.len();
    let mut i: usize = 0;
    while i < n
        invariant
            i <= n,
            n == v@.len(),
            v@.to_multiset() == orig.to_multiset(),
            wf_ranks(v@),
            forall|k: int, l: int| 0 <= k < l < i ==> rank_le(v@[k], v@[l]),
        decreases n - i,
    {
        let mut j: usize = i;
        while j > 0 && !rank_le_exec(v[j - 1], v[j])
            invariant
                j <= i < n,
                n == v@.len(),
                v@.to_multiset() == orig.to_multiset(),
                wf_ranks(v@),
                forall|k: int, l: int|
                    0 <= k < l <= i && l != j ==> rank_le(v@[k], v@[l]),
                forall|l: int| j < l <= i ==> rank_le(v@[j as int], v@[l]),
            decreases j,
        {
            let ghost before = v@;
            let a = v[j - 1];
            let b = v[j];
            proof {
                lemma_rank_le_total(a, b);
            }
            v[j - 1] = b;
            let ghost mid = v@;
            v[j] = a;
            proof {
                assert(v@.to_multiset() =~= before.to_multiset()) by {
                    broadcast use vstd::multiset::group_multiset_axioms;

                    assert(mid == before.update(j - 1, b));
                    assert(v@ == mid.update(j as int, a));
                    assert(before[j - 1] == a);
                    assert(before.contains(a));
                    vstd::seq_lib::to_multiset_contains(before, a);
                    vstd::seq_lib::to_multiset_update(before, j - 1, b);
                    vstd::seq_lib::to_multiset_update(mid, j as int, a);
                }
            }
            j = j - 1;
        }
        proof {
            assert forall|k: int, l: int| 0 <= k < l <= i implies rank_le(v@[k], v@[l]) by {
                if l == j {
                    if k < j - 1 {
                        lemma_rank_le_trans(v@[k], v@[j - 1], v@[j as int]);
                    }
                }
            }
        }
        i = i + 1;
    }
}

} // verus!
