//! The four selection strategies.
//!
//! Every strategy takes a snapshot of the candidates (identity plus
//! whatever the strategy ranks by) and a target count `k`, and returns
//! `min(k, candidates)` item identities.  A `k` beyond the candidate
//! count is clamped, never an error.
//!
//! * Bottom-K: ascending by mastery estimate, stable, first `k`.
//! * Weighted-Random-Without-Replacement: repeated draws over cumulative
//!   weights favouring weak items.
//! * Uniform-Random-Without-Replacement: a uniform shuffle, first `k`.
//! * Oldest-Practiced-First: ascending by the time of the last answer,
//!   never-answered items first.

use vstd::prelude::*;

verus! {

use vstd::multiset::Multiset;

use crate::estimator::Estimate;
use crate::rank::RankEntry;
use crate::rank::rank_le;
use crate::rank::rank_sort;
use crate::rank::sorted_ranks;
use crate::rank::wf_ranks;
use crate::ratio::rat_eq;
use crate::rng::rand_below;

/// A candidate with its current mastery estimate.
#[derive(Clone, Copy, Debug, PartialEq, Eq, Structural)]
pub struct RankedItem {
    pub id: i64,
    pub est: Estimate,
}

/// A candidate with the time of its most recent answer, if any.
#[derive(Clone, Copy, Debug, PartialEq, Eq, Structural)]
pub struct TimedItem {
    pub id: i64,
    pub last: Option<i64>,
}

pub open spec fn min_int(a: int, b: int) -> int {
    if a < b {
        a
    } else {
        b
    }
}

pub open spec fn wf_items(items: Seq<RankedItem>) -> bool {
    forall|i: int| 0 <= i < items.len() ==> (#[trigger] items[i]).est.wf()
}

/// The sort entries for Bottom-K: key is the estimate itself.
pub open spec fn entries_of(items: Seq<RankedItem>) -> Seq<RankEntry> {
    Seq::new(
        items.len(),
        |i: int|
            RankEntry {
                id: items[i].id,
                num: items[i].est.num,
                den: items[i].est.den,
                idx: i as usize,
            },
    )
}

/// A signed timestamp shifted into `u64` so that the integer order of the
/// keys is the order of the timestamps; an item never answered gets the
/// minimum possible key and so sorts first.
pub open spec fn time_key(last: Option<i64>) -> int {
    match last {
        Option::None => 0,
        Option::Some(t) => t + 0x8000_0000_0000_0000,
    }
}

/// The sort entries for Oldest-Practiced-First: key is the shifted time
/// of the last answer over denominator 1.
pub open spec fn time_entries_of(items: Seq<TimedItem>) -> Seq<RankEntry> {
    Seq::new(
        items.len(),
        |i: int|
            RankEntry {
                id: items[i].id,
                num: time_key(items[i].last) as u64,
                den: 1,
                idx: i as usize,
            },
    )
}

pub open spec fn ids_of(s: Seq<RankEntry>) -> Seq<i64> {
    s.map_values(|e: RankEntry| e.id)
}

pub open spec fn item_ids(items: Seq<RankedItem>) -> Seq<i64> {
    items.map_values(|it: RankedItem| it.id)
}

/// `s` is the input rearranged into ascending `(key, original index)`
/// order.  Because that order is strict and total, only one such `s`
/// exists: the stable ascending arrangement of the input.
pub open spec fn is_rank_sort_of(input: Seq<RankEntry>, s: Seq<RankEntry>) -> bool {
    &&& s.to_multiset() == input.to_multiset()
    &&& sorted_ranks(s)
}

/// The result lists the ids of the first `min(k, n)` entries of the
/// stable ascending arrangement of `input`.
pub open spec fn ranked_prefix_post(input: Seq<RankEntry>, k: int, res: Seq<i64>) -> bool {
    exists|s: Seq<RankEntry>|
        #[trigger] is_rank_sort_of(input, s) && res == ids_of(
            s.take(min_int(k, input.len() as int)),
        )
}

/// Sorts the entries and returns the ids of the first `min(k, n)`.
fn select_lowest(entries: Vec<RankEntry>, k: usize) -> (res: Vec<i64>)
    requires
        wf_ranks(entries@),
    ensures
        res@.len() == min_int(k as int, entries@.len() as int),
        ranked_prefix_post(entries@, k as int, res@),
{
    let ghost input = entries@;
    let mut sorted = entries;
    rank_sort(&mut sorted);
    let m = if k < sorted.len() {
        k
    } else {
        sorted.len()
    };
    let mut res: Vec<i64> = Vec::new();
    let mut i: usize = 0;
    while i < m
        invariant
            i <= m <= sorted@.len(),
            res@ == ids_of(sorted@.take(i as int)),
        decreases m - i,
    {
        res.push(sorted[i].id);
        proof {
            assert(sorted@.take(i + 1).map_values(|e: RankEntry| e.id) =~= sorted@.take(
                i as int,
            ).map_values(|e: RankEntry| e.id).push(sorted@[i as int].id));
        }
        i = i + 1;
    }
    proof {
        assert(is_rank_sort_of(input, sorted@));
        assert(res@ == ids_of(sorted@.take(min_int(k as int, input.len() as int))));
    }
    res
}

/// Bottom-K: deterministic "weakest first".  Candidates are sorted
/// ascending by mastery estimate, ties kept in their original order, and
/// the first `min(k, n)` ids are returned.
pub fn bottom_k(items: &Vec<RankedItem>, k: usize) -> (res: Vec<i64>)
    requires
        wf_items(items@),
    ensures
        res@.len() == min_int(k as int, items@.len() as int),
        ranked_prefix_post(entries_of(items@), k as int, res@),
{
    let mut entries: Vec<RankEntry> = Vec::new();
    let mut i: usize = 0;
    while i < items.len()
        invariant
            i <= items@.len(),
            wf_items(items@),
            entries@ == entries_of(items@).take(i as int),
        decreases items@.len() - i,
    {
        let it = items[i];
        entries.push(RankEntry { id: it.id, num: it.est.num, den: it.est.den, idx: i });
        proof {
            assert(entries@ =~= entries_of(items@).take(i + 1));
        }
        i = i + 1;
    }
    proof {
        assert(entries@ =~= entries_of(items@));
        assert forall|j: int| 0 <= j < entries@.len() implies (#[trigger] entries@[j]).den > 0 by {
            assert(items@[j].est.wf());
        }
    }
    select_lowest(entries, k)
}

/// Oldest-Practiced-First: candidates sorted ascending by the time of
/// their most recent answer, never-answered candidates first, ties in
/// original order; the first `min(k, n)` ids are returned.
pub fn oldest_first(items: &Vec<TimedItem>, k: usize) -> (res: Vec<i64>)
    ensures
        res@.len() == min_int(k as int, items@.len() as int),
        ranked_prefix_post(time_entries_of(items@), k as int, res@),
{
    let mut entries: Vec<RankEntry> = Vec::new();
    let mut i: usize = 0;
    while i < items.len()
        invariant
            i <= items@.len(),
            entries@ == time_entries_of(items@).take(i as int),
        decreases items@.len() - i,
    {
        let it = items[i];
        let key: u64 = match it.last {
            Option::None => 0,
            Option::Some(t) => ((t as i128) + 0x8000_0000_0000_0000i128) as u64,
        };
        entries.push(RankEntry { id: it.id, num: key, den: 1, idx: i });
        proof {
            assert(entries@ =~= time_entries_of(items@).take(i + 1));
        }
        i = i + 1;
    }
    proof {
        assert(entries@ =~= time_entries_of(items@));
    }
    select_lowest(entries, k)
}

/// Clamping: when `k` is at least the candidate count, the whole stable
/// ascending arrangement comes back, so the result holds exactly
/// `input.len()` ids in full sorted order.
pub proof fn lemma_ranked_prefix_clamps(input: Seq<RankEntry>, k: int, res: Seq<i64>)
    requires
        k >= input.len(),
        ranked_prefix_post(input, k, res),
    ensures
        res.len() == input.len(),
        exists|s: Seq<RankEntry>| #[trigger] is_rank_sort_of(input, s) && res == ids_of(s),
{
    let s = choose|s: Seq<RankEntry>|
        #[trigger] is_rank_sort_of(input, s) && res == ids_of(
            s.take(min_int(k, input.len() as int)),
        );
    vstd::seq_lib::to_multiset_len(s);
    vstd::seq_lib::to_multiset_len(input);
    assert(s.take(min_int(k, input.len() as int)) =~= s);
}

/// Stable sorting with all keys equal returns the input unchanged: the
/// order falls back to the original indices everywhere.
pub proof fn lemma_rank_sort_all_equal_identity(input: Seq<RankEntry>, s: Seq<RankEntry>)
    requires
        forall|i: int| 0 <= i < input.len() ==> (#[trigger] input[i]).idx == i,
        forall|i: int| 0 <= i < input.len() ==> (#[trigger] input[i]).den > 0,
        forall|i: int, j: int|
            0 <= i < input.len() && 0 <= j < input.len() ==> rat_eq(
                (#[trigger] input[i]).num as int,
                input[i].den as int,
                (#[trigger] input[j]).num as int,
                input[j].den as int,
            ),
        is_rank_sort_of(input, s),
    ensures
        s == input,
    decreases input.len(),
{
    broadcast use vstd::multiset::group_multiset_axioms;

    vstd::seq_lib::to_multiset_len(input);
    vstd::seq_lib::to_multiset_len(s);
    let n = input.len() as int;
    assert(s.len() == n);
    if n == 0 {
        assert(s =~= input);
    } else {
        let last = input[n - 1];
        assert(input.contains(last));
        vstd::seq_lib::to_multiset_contains(input, last);
        vstd::seq_lib::to_multiset_contains(s, last);
        assert(s.contains(last));
        let p = choose|p: int| 0 <= p < s.len() && s[p] == last;
        if p < n - 1 {
            assert(s.contains(s[n - 1]));
            vstd::seq_lib::to_multiset_contains(s, s[n - 1]);
            vstd::seq_lib::to_multiset_contains(input, s[n - 1]);
            assert(input.contains(s[n - 1]));
            let q = choose|q: int| 0 <= q < input.len() && input[q] == s[n - 1];
            assert(rank_le(s[p], s[n - 1]));
            assert(rat_eq(
                input[n - 1].num as int,
                input[n - 1].den as int,
                input[q].num as int,
                input[q].den as int,
            ));
            assert(s[p].idx <= s[n - 1].idx);
            assert(q == n - 1);
        }
        assert(s[n - 1] == last);
        let input1 = input.drop_last();
        let s1 = s.drop_last();
        assert(input1 =~= input.remove(n - 1));
        assert(s1 =~= s.remove(n - 1));
        vstd::seq_lib::to_multiset_remove(input, n - 1);
        vstd::seq_lib::to_multiset_remove(s, n - 1);
        assert(s1.to_multiset() =~= input1.to_multiset());
        assert(sorted_ranks(s1)) by {
            assert forall|i: int, j: int| 0 <= i < j < s1.len() implies rank_le(s1[i], s1[j]) by {
                assert(s1[i] == s[i]);
                assert(s1[j] == s[j]);
            }
        }
        lemma_rank_sort_all_equal_identity(input1, s1);
        assert forall|i: int| 0 <= i < n implies s[i] == input[i] by {
            if i < n - 1 {
                assert(s1[i] == s[i]);
                assert(input1[i] == input[i]);
            }
        }
        assert(s =~= input);
    }
}

/// Stable ties: when every candidate carries the same estimate, Bottom-K
/// returns the first `min(k, n)` candidates in their original order.
pub proof fn lemma_bottom_k_stable_on_ties(items: Seq<RankedItem>, k: int, res: Seq<i64>)
    requires
        wf_items(items),
        k >= 0,
        items.len() <= usize::MAX,
        forall|i: int, j: int|
            0 <= i < items.len() && 0 <= j < items.len() ==> rat_eq(
                (#[trigger] items[i]).est.num as int,
                items[i].est.den as int,
                (#[trigger] items[j]).est.num as int,
                items[j].est.den as int,
            ),
        ranked_prefix_post(entries_of(items), k, res),
    ensures
        res == item_ids(items).take(min_int(k, items.len() as int)),
{
    let input = entries_of(items);
    let s = choose|s: Seq<RankEntry>|
        #[trigger] is_rank_sort_of(input, s) && res == ids_of(
            s.take(min_int(k, input.len() as int)),
        );
    assert forall|i: int| 0 <= i < input.len() implies (#[trigger] input[i]).idx == i by {
        assert(i <= usize::MAX);
    }
    assert forall|i: int| 0 <= i < input.len() implies (#[trigger] input[i]).den > 0 by {
        assert(items[i].est.wf());
    }
    lemma_rank_sort_all_equal_identity(input, s);
    let m = min_int(k, items.len() as int);
    assert forall|i: int| 0 <= i < m implies ids_of(input.take(m))[i] == item_ids(items).take(
        m,
    )[i] by {
        assert(input.take(m)[i] == input[i]);
        assert(ids_of(input.take(m))[i] == input.take(m)[i].id);
        assert(item_ids(items).take(m)[i] == item_ids(items)[i]);
        assert(item_ids(items)[i] == items[i].id);
    }
    assert(ids_of(input.take(m)).len() == m);
    assert(item_ids(items).take(m).len() == m);
    assert(ids_of(input.take(m)) =~= item_ids(items).take(m));
}

/// `r` is the integer square root of `x`.
pub open spec fn is_isqrt(x: int, r: int) -> bool {
    0 <= r && r * r <= x < (r + 1) * (r + 1)
}

/// The integer square root; exactly one `r` satisfies `is_isqrt`.
pub open spec fn spec_isqrt(x: int) -> int {
    choose|r: int| is_isqrt(x, r)
}

proof fn lemma_isqrt_unique(x: int, r1: int, r2: int)
    requires
        is_isqrt(x, r1),
        is_isqrt(x, r2),
    ensures
        r1 == r2,
{
    if r1 < r2 {
        assert((r1 + 1) * (r1 + 1) <= r2 * r2) by (nonlinear_arith)
            requires
                0 <= r1 < r2,
        {}
    }
    if r2 < r1 {
        assert((r2 + 1) * (r2 + 1) <= r1 * r1) by (nonlinear_arith)
            requires
                0 <= r2 < r1,
        {}
    }
}

proof fn lemma_isqrt_agrees(x: int, r: int)
    requires
        is_isqrt(x, r),
    ensures
        spec_isqrt(x) == r,
{
    assert(exists|r2: int| is_isqrt(x, r2));
    lemma_isqrt_unique(x, spec_isqrt(x), r);
}

/// Binary search for the integer square root of a `u64`.
fn isqrt64(x: u64) -> (r: u64)
    ensures
        is_isqrt(x as int, r as int),
        r == spec_isqrt(x as int),
{
    let mut lo: u64 = 0;
    let mut hi: u64 = 0xFFFF_FFFF;
    proof {
        assert((0xFFFF_FFFFu64 + 1) * (0xFFFF_FFFFu64 + 1) > u64::MAX);
    }
    while lo < hi
        invariant
            lo <= hi <= 0xFFFF_FFFF,
            lo * lo <= x,
            x < (hi + 1) * (hi + 1),
        decreases hi - lo,
    {
        let mid = lo + (hi - lo + 1) / 2;
        proof {
            vstd::arithmetic::mul::lemma_mul_upper_bound(
                mid as int,
                0xFFFF_FFFF,
                mid as int,
                0xFFFF_FFFF,
            );
        }
        let sq: u128 = (mid as u128) * (mid as u128);
        if sq <= x as u128 {
            lo = mid;
        } else {
            hi = mid - 1;
        }
    }
    proof {
        lemma_isqrt_agrees(x as int, lo as int);
    }
    lo
}

/// The selection weight of an estimate `e`, an integer rendering of
/// `(1 - e + 1/20)^(3/2)`: with `u` the value `1.05 - e` in thousandths,
/// the weight is `u * isqrt(u * 1000)`, i.e. `(1.05 - e)^(3/2)`
/// multiplied by the constant `1000 * sqrt(1000)`, rounded down.  The
/// constant factor is shared by all candidates, so it does not change
/// the draw; the `1/20` floor keeps every weight positive even at
/// estimate 1.
pub open spec fn weight_spec(e: Estimate) -> int {
    let scaled = (e.num * 1000) / (e.den as int);
    let u = 1050 - scaled;
    u * spec_isqrt(u * 1000)
}

/// Upper bound on any weight; used to bound the cumulative sums.
pub const MAX_WEIGHT: u64 = 2_000_000;

fn weight(e: Estimate) -> (w: u64)
    requires
        e.wf(),
    ensures
        w == weight_spec(e),
        1 <= w <= MAX_WEIGHT,
{
    proof {
        vstd::arithmetic::div_mod::lemma_div_is_ordered(
            e.num * 1000,
            e.den * 1000,
            e.den as int,
        );
        vstd::arithmetic::div_mod::lemma_div_multiples_vanish(1000, e.den as int);
    }
    let scaled: u64 = (e.num * 1000) / e.den;
    let u: u64 = 1050 - scaled;
    let s = isqrt64(u * 1000);
    proof {
        assert(u * 1000 >= 50000);
        if s >= 1025 {
            assert(1025 * 1025 <= s * s) by (nonlinear_arith)
                requires
                    s >= 1025,
            {}
        }
        assert(s >= 1) by (nonlinear_arith)
            requires
                u * 1000 < (s + 1) * (s + 1),
                u >= 50,
                s >= 0,
        {}
        assert(u * s >= 50) by (nonlinear_arith)
            requires
                u >= 50,
                s >= 1,
        {}
        vstd::arithmetic::mul::lemma_mul_upper_bound(u as int, 1050, s as int, 1024);
    }
    u * s
}

/// Weighted-Random-Without-Replacement.  `min(k, n)` times: build the
/// cumulative weights of the not-yet-chosen candidates, draw a point
/// below the total, and take the first candidate whose cumulative weight
/// reaches it.  The rebuild per draw is O(n * k) on purpose: candidate
/// lists are small here, and the direct form is simpler than an
/// order-statistics tree.  Whatever the draws, the result holds
/// `min(k, n)` of the candidate ids without repetition; with `k >= n` it
/// is a permutation of the whole candidate list.
pub fn weighted_random(items: &Vec<RankedItem>, k: usize) -> (res: Vec<i64>)
    requires
        wf_items(items@),
    ensures
        res@.len() == min_int(k as int, items@.len() as int),
        res@.to_multiset().subset_of(item_ids(items@).to_multiset()),
        k >= items@.len() ==> res@.to_multiset() == item_ids(items@).to_multiset(),
{
    broadcast use vstd::multiset::group_multiset_axioms;

    let mut remaining: Vec<RankedItem> = Vec::new();
    let mut t: usize = 0;
    while t < items.len()
        invariant
            t <= items@.len(),
            wf_items(items@),
            remaining@ == items@.take(t as int),
        decreases items@.len() - t,
    {
        remaining.push(items[t]);
        proof {
            assert(remaining@ =~= items@.take(t + 1));
        }
        t = t + 1;
    }
    proof {
        assert(remaining@ =~= items@);
    }
    let target = if k < remaining.len() {
        k
    } else {
        remaining.len()
    };
    let mut chosen: Vec<i64> = Vec::new();
    proof {
        vstd::seq_lib::to_multiset_len(chosen@);
        assert(chosen@.to_multiset() =~= Multiset::<i64>::empty());
        assert(chosen@.to_multiset().add(item_ids(remaining@).to_multiset()) =~= item_ids(
            items@,
        ).to_multiset());
    }
    while chosen.len() < target
        invariant
            target == min_int(k as int, items@.len() as int),
            chosen@.len() <= target,
            chosen@.len() + remaining@.len() == items@.len(),
            wf_items(remaining@),
            chosen@.to_multiset().add(item_ids(remaining@).to_multiset()) == item_ids(
                items@,
            ).to_multiset(),
        decreases target - chosen.len(),
    {
        let n = remaining.len();
        let mut cum: Vec<u128> = Vec::new();
        let mut total: u128 = 0;
        let mut t: usize = 0;
        while t < n
            invariant
                t <= n == remaining@.len(),
                wf_items(remaining@),
                cum@.len() == t,
                t == 0 ==> total == 0,
                t > 0 ==> total == cum@[t - 1],
                forall|u: int| 0 <= u < t ==> #[trigger] cum@[u] >= u + 1,
                forall|u: int| 0 <= u < t ==> #[trigger] cum@[u] <= total,
                total <= (t as int) * (MAX_WEIGHT as int),
            decreases n - t,
        {
            let w = weight(remaining[t].est);
            total = total + (w as u128);
            cum.push(total);
            t = t + 1;
        }
        let x = rand_below(total);
        let mut pick: usize = 0;
        while pick < n && cum[pick] < x
            invariant
                pick <= n == remaining@.len(),
                cum@.len() == n,
                n > 0,
                x < total,
                total == cum@[n - 1],
                forall|u: int| 0 <= u < pick ==> #[trigger] cum@[u] < x,
            decreases n - pick,
        {
            pick = pick + 1;
        }
        proof {
            if pick == n {
                assert(cum@[n - 1] < x);
                assert(false);
            }
        }
        let ghost old_rem = remaining@;
        let ghost old_chosen = chosen@;
        let it = remaining.remove(pick);
        chosen.push(it.id);
        proof {
            assert(chosen@.to_multiset() =~= old_chosen.to_multiset().insert(it.id)) by {
                vstd::seq_lib::to_multiset_build(old_chosen, it.id);
            }
            assert(item_ids(remaining@) =~= item_ids(old_rem).remove(pick as int));
            vstd::seq_lib::to_multiset_remove(item_ids(old_rem), pick as int);
            assert(item_ids(old_rem)[pick as int] == it.id);
            assert(item_ids(old_rem).contains(it.id));
            vstd::seq_lib::to_multiset_contains(item_ids(old_rem), it.id);
            assert(chosen@.to_multiset().add(item_ids(remaining@).to_multiset()) =~= item_ids(
                items@,
            ).to_multiset());
        }
    }
    proof {
        vstd::seq_lib::to_multiset_len(item_ids(remaining@));
        assert forall|y: i64|
            chosen@.to_multiset().count(y) <= item_ids(items@).to_multiset().count(y) by {
            assert(item_ids(items@).to_multiset().count(y) == chosen@.to_multiset().count(y)
                + item_ids(remaining@).to_multiset().count(y));
        }
        if k >= items@.len() {
            assert(remaining@.len() == 0);
            assert(item_ids(remaining@) =~= Seq::<i64>::empty());
            assert(item_ids(remaining@).to_multiset() =~= Multiset::<i64>::empty());
            assert(chosen@.to_multiset() =~= item_ids(items@).to_multiset());
        }
    }
    chosen
}

/// Swaps two positions; the contents as a multiset do not change.
fn swap_ids(v: &mut Vec<i64>, x: usize, y: usize)
    requires
        x < old(v)@.len(),
        y < old(v)@.len(),
    ensures
        final(v)@.len() == old(v)@.len(),
        final(v)@ == old(v)@.update(x as int, old(v)@[y as int]).update(
            y as int,
            old(v)@[x as int],
        ),
        final(v)@.to_multiset() == old(v)@.to_multiset(),
{
    let ghost before = v@;
    let a = v[x];
    let b = v[y];
    v[x] = b;
    let ghost mid = v@;
    v[y] = a;
    proof {
        assert(v@.to_multiset() =~= before.to_multiset()) by {
            broadcast use vstd::multiset::group_multiset_axioms;

            assert(mid == before.update(x as int, b));
            assert(v@ == mid.update(y as int, a));
            assert(before[x as int] == a);
            assert(before.contains(a));
            vstd::seq_lib::to_multiset_contains(before, a);
            vstd::seq_lib::to_multiset_update(before, x as int, b);
            vstd::seq_lib::to_multiset_update(mid, y as int, a);
        }
    }
}

/// A uniform Fisher-Yates shuffle: the result holds exactly the same ids.
pub fn shuffle_ids(v: &mut Vec<i64>)
    ensures
        final(v)@.len() == old(v)@.len(),
        final(v)@.to_multiset() == old(v)@.to_multiset(),
{
    let n = v.len();
    let mut i: usize = n;
    while i > 1
        invariant
            i <= n,
            n == v@.len(),
            v@.to_multiset() == old(v)@.to_multiset(),
        decreases i,
    {
        let draw = rand_below(i as u128);
        let j = draw as usize;
        swap_ids(v, i - 1, j);
        i = i - 1;
    }
}

/// Uniform-Random-Without-Replacement: shuffles the candidates uniformly
/// and returns the first `min(k, n)`: a random subset in random order,
/// with no weighting at all.  With `k >= n` it is a permutation of the
/// whole candidate list.
pub fn uniform_random(ids: &Vec<i64>, k: usize) -> (res: Vec<i64>)
    ensures
        res@.len() == min_int(k as int, ids@.len() as int),
        res@.to_multiset().subset_of(ids@.to_multiset()),
        k >= ids@.len() ==> res@.to_multiset() == ids@.to_multiset(),
{
    let mut r: Vec<i64> = Vec::new();
    let mut t: usize = 0;
    while t < ids.len()
        invariant
            t <= ids@.len(),
            r@ == ids@.take(t as int),
        decreases ids@.len() - t,
    {
        r.push(ids[t]);
        proof {
            assert(r@ =~= ids@.take(t + 1));
        }
        t = t + 1;
    }
    proof {
        assert(r@ =~= ids@);
    }
    shuffle_ids(&mut r);
    let m = if k < r.len() {
        k
    } else {
        r.len()
    };
    let ghost shuffled = r@;
    r.truncate(m);
    proof {
        broadcast use vstd::multiset::group_multiset_axioms;

        assert(r@ == shuffled.take(m as int));
        assert(shuffled.take(m as int) + shuffled.skip(m as int) =~= shuffled);
        vstd::seq_lib::lemma_multiset_commutative(
            shuffled.take(m as int),
            shuffled.skip(m as int),
        );
        assert forall|x: i64|
            r@.to_multiset().count(x) <= ids@.to_multiset().count(x) by {
            assert(shuffled.to_multiset().count(x) == shuffled.take(m as int).to_multiset().count(
                x,
            ) + shuffled.skip(m as int).to_multiset().count(x));
        }
        if k >= ids@.len() {
            assert(shuffled.take(m as int) =~= shuffled);
        }
    }
    r
}

} // verus!
