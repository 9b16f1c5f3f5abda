//! The dependency resolver for item-set definitions.
//!
//! A leaf set has an empty dependency list; a composite (union) set
//! names the sets it draws from.  `topsort` orders the set names so that
//! every set comes after all sets it depends on: dependencies first,
//! consumers last.  A cyclic input cannot be ordered; rather than
//! silently dropping the nodes of the cycle, the resolver detects the
//! leftover and fails loudly.
//!
//! Acyclicity is stated through `blocked_set`: a non-empty group of
//! nodes each of which depends on another node of the group.  A cycle
//! is such a group, and conversely a group in which every member waits
//! on a member can never be ordered, so `topsort` succeeds exactly when
//! no blocked set exists.

use vstd::prelude::*;

verus! {

use vstd::set_lib::lemma_int_range;
use vstd::set_lib::lemma_len_subset;
use vstd::set_lib::set_int_range;

/// The error of a dependency graph that cannot be ordered.
#[derive(Clone, Copy, Debug, PartialEq, Eq, Structural)]
pub enum ResolveError {
    CycleDetected,
}

pub open spec fn node_names(nodes: Seq<(String, Vec<String>)>) -> Seq<Seq<char>> {
    nodes.map_values(|n: (String, Vec<String>)| n.0@)
}

pub open spec fn dep_names(nodes: Seq<(String, Vec<String>)>, i: int) -> Seq<Seq<char>> {
    nodes[i].1@.map_values(|s: String| s@)
}

pub open spec fn distinct_names(nodes: Seq<(String, Vec<String>)>) -> bool {
    forall|i: int, j: int|
        0 <= i < j < nodes.len() ==> node_names(nodes)[i] != node_names(nodes)[j]
}

/// Every dependency names a node of the input.
pub open spec fn closed_deps(nodes: Seq<(String, Vec<String>)>) -> bool {
    forall|i: int, d: int|
        0 <= i < nodes.len() && 0 <= d < dep_names(nodes, i).len() ==> node_names(nodes).contains(
            #[trigger] dep_names(nodes, i)[d],
        )
}

/// Node `i` names node `j` among its dependencies.
pub open spec fn depends_on(nodes: Seq<(String, Vec<String>)>, i: int, j: int) -> bool {
    dep_names(nodes, i).contains(node_names(nodes)[j])
}

/// A non-empty group of nodes each of which depends on a member of the
/// group; no order can place all of them after their dependencies.
pub open spec fn blocked_set(nodes: Seq<(String, Vec<String>)>, s: Set<int>) -> bool {
    &&& exists|i: int| s.contains(i)
    &&& forall|i: int| #[trigger] s.contains(i) ==> 0 <= i < nodes.len()
    &&& forall|i: int|
        #[trigger] s.contains(i) ==> exists|j: int| s.contains(j) && depends_on(nodes, i, j)
}

pub open spec fn has_blocked_set(nodes: Seq<(String, Vec<String>)>) -> bool {
    exists|s: Set<int>| blocked_set(nodes, s)
}

pub open spec fn output_names(res: Seq<String>) -> Seq<Seq<char>> {
    res.map_values(|s: String| s@)
}

/// `name` occurs in `order` before position `p`.
pub open spec fn name_before(order: Seq<Seq<char>>, p: int, name: Seq<char>) -> bool {
    exists|q: int| 0 <= q < p && order[q] == name
}

/// `order` lists every node name exactly once, and every node comes
/// after all names it depends on.
pub open spec fn valid_order(nodes: Seq<(String, Vec<String>)>, order: Seq<Seq<char>>) -> bool {
    &&& order.len() == nodes.len()
    &&& forall|a: int|
        0 <= a < nodes.len() ==> order.contains(#[trigger] node_names(nodes)[a])
    &&& forall|p: int, q: int| 0 <= p < q < order.len() ==> order[p] != order[q]
    &&& forall|p: int, a: int, d: int|
        #![trigger order[p], dep_names(nodes, a)[d]]
        0 <= p < order.len() && 0 <= a < nodes.len() && order[p] == node_names(nodes)[a] && 0 <= d
            < dep_names(nodes, a).len() ==> name_before(order, p, dep_names(nodes, a)[d])
}

/// The dependency lists resolved to node indices, faithfully.
spec fn deps_wf(ns: Seq<(String, Vec<String>)>, deps_idx: Seq<Vec<usize>>) -> bool {
    &&& deps_idx.len() == ns.len()
    &&& forall|a: int|
        0 <= a < ns.len() ==> (#[trigger] deps_idx[a]@).len() == dep_names(ns, a).len()
    &&& forall|a: int, d: int|
        0 <= a < ns.len() && 0 <= d < deps_idx[a]@.len() ==> (#[trigger] deps_idx[a]@[d] as int)
            < ns.len()
    &&& forall|a: int, d: int|
        0 <= a < ns.len() && 0 <= d < deps_idx[a]@.len() ==> node_names(ns)[
            #[trigger] deps_idx[a]@[d] as int] == dep_names(ns, a)[d]
}

/// The index `dep` occurs in `order` before position `p`.
spec fn index_before(order: Seq<usize>, p: int, dep: usize) -> bool {
    exists|q: int| 0 <= q < p && order[q] == dep
}

/// What holds of the emission state throughout the main loop: `order`
/// lists distinct emitted nodes, everything marked emitted is in it, and
/// each emitted node's dependencies were emitted before it.
spec fn emit_inv(
    ns: Seq<(String, Vec<String>)>,
    deps_idx: Seq<Vec<usize>>,
    emitted: Seq<bool>,
    order: Seq<usize>,
) -> bool {
    &&& emitted.len() == ns.len()
    &&& order.no_duplicates()
    &&& order.len() <= ns.len()
    &&& forall|p: int| 0 <= p < order.len() ==> (#[trigger] order[p] as int) < ns.len()
    &&& forall|p: int| 0 <= p < order.len() ==> emitted[#[trigger] order[p] as int]
    &&& forall|u: int| 0 <= u < ns.len() && emitted[u] ==> order.contains(u as usize)
    &&& forall|p: int, d: int|
        0 <= p < order.len() && 0 <= d < deps_idx[order[p] as int]@.len() ==> index_before(
            order,
            p,
            #[trigger] deps_idx[order[p] as int]@[d],
        )
}

/// No node is ready: every unemitted node still waits on an unemitted
/// dependency.
spec fn all_stuck(
    ns: Seq<(String, Vec<String>)>,
    deps_idx: Seq<Vec<usize>>,
    emitted: Seq<bool>,
) -> bool {
    forall|u: int|
        0 <= u < ns.len() && !emitted[u] ==> exists|d: int|
            0 <= d < deps_idx[u]@.len() && !emitted[#[trigger] deps_idx[u]@[d] as int]
}

/// A duplicate-free sequence of indices below `n` has at most `n`
/// entries; with exactly `n` entries it covers every index below `n`.
proof fn lemma_index_seq_card(s: Seq<usize>, n: int)
    requires
        s.no_duplicates(),
        forall|p: int| 0 <= p < s.len() ==> (#[trigger] s[p] as int) < n,
        0 <= n <= usize::MAX,
    ensures
        s.len() <= n,
        s.len() == n ==> forall|x: int| 0 <= x < n ==> #[trigger] s.contains(x as usize),
{
    broadcast use vstd::set::group_set_axioms;
    broadcast use vstd::seq_lib::seq_to_set_is_finite;

    let si = s.map_values(|u: usize| u as int);
    assert(si.no_duplicates()) by {
        assert forall|p: int, q: int|
            0 <= p < si.len() && 0 <= q < si.len() && p != q implies si[p] != si[q] by {
            assert(s[p] != s[q]);
        }
    }
    si.unique_seq_to_set();
    lemma_int_range(0, n);
    assert(si.to_set().subset_of(set_int_range(0, n))) by {
        assert forall|x: int| si.to_set().contains(x) implies set_int_range(0, n).contains(x) by {
            let p = choose|p: int| 0 <= p < si.len() && si[p] == x;
            assert(s[p] as int == x);
        }
    }
    lemma_len_subset(si.to_set(), set_int_range(0, n));
    if s.len() == n {
        assert forall|x: int| 0 <= x < n implies #[trigger] s.contains(x as usize) by {
            if !si.to_set().contains(x) {
                assert(si.to_set().subset_of(set_int_range(0, n).remove(x)));
                lemma_len_subset(si.to_set(), set_int_range(0, n).remove(x));
                assert(false);
            }
            let p = choose|p: int| 0 <= p < si.len() && si[p] == x;
            assert(s[p] == x as usize);
        }
    }
}

/// A sequence of indices that covers every index below `n` has at least
/// `n` entries.
proof fn lemma_index_seq_covers(s: Seq<usize>, n: int)
    requires
        0 <= n <= usize::MAX,
        forall|x: int| 0 <= x < n ==> #[trigger] s.contains(x as usize),
    ensures
        s.len() >= n,
{
    broadcast use vstd::set::group_set_axioms;
    broadcast use vstd::seq_lib::seq_to_set_is_finite;

    let si = s.map_values(|u: usize| u as int);
    si.lemma_cardinality_of_set();
    lemma_int_range(0, n);
    assert(set_int_range(0, n).subset_of(si.to_set())) by {
        assert forall|x: int| set_int_range(0, n).contains(x) implies si.to_set().contains(x) by {
            assert(s.contains(x as usize));
            let p = choose|p: int| 0 <= p < s.len() && s[p] == x as usize;
            assert(si[p] == x);
            assert(si.contains(x));
        }
    }
    lemma_len_subset(set_int_range(0, n), si.to_set());
}

/// The first position of `order` whose entry lies in `s`.
proof fn first_member_position(order: Seq<usize>, s: Set<int>) -> (p: int)
    requires
        exists|q: int| 0 <= q < order.len() && s.contains(#[trigger] order[q] as int),
    ensures
        0 <= p < order.len(),
        s.contains(order[p] as int),
        forall|q: int| 0 <= q < p ==> !s.contains(#[trigger] order[q] as int),
    decreases order.len(),
{
    if s.contains(order[0] as int) {
        0
    } else {
        let tail = order.drop_first();
        assert(exists|q: int| 0 <= q < tail.len() && s.contains(#[trigger] tail[q] as int)) by {
            let q0 = choose|q0: int|
                0 <= q0 < order.len() && s.contains(#[trigger] order[q0] as int);
            assert(q0 >= 1);
            assert(tail[q0 - 1] == order[q0]);
        }
        let p1 = first_member_position(tail, s);
        assert(tail[p1] == order[p1 + 1]);
        assert forall|q: int| 0 <= q < p1 + 1 implies !s.contains(#[trigger] order[q] as int) by {
            if q >= 1 {
                assert(tail[q - 1] == order[q]);
            }
        }
        p1 + 1
    }
}

/// Emitting a ready node keeps the emission invariant.
#[verifier::rlimit(50)]
proof fn lemma_emit_step(
    ns: Seq<(String, Vec<String>)>,
    deps_idx: Seq<Vec<usize>>,
    emitted: Seq<bool>,
    order: Seq<usize>,
    next: usize,
)
    requires
        deps_wf(ns, deps_idx),
        emit_inv(ns, deps_idx, emitted, order),
        (next as int) < ns.len(),
        !emitted[next as int],
        forall|d: int|
            0 <= d < deps_idx[next as int]@.len() ==> emitted[#[trigger] deps_idx[next as int]@[d] as int],
        ns.len() <= usize::MAX,
    ensures
        emit_inv(ns, deps_idx, emitted.update(next as int, true), order.push(next)),
{
    let emitted2 = emitted.update(next as int, true);
    let order2 = order.push(next);
    if order.contains(next) {
        let pw = choose|pw: int| 0 <= pw < order.len() && order[pw] == next;
        assert(emitted[order[pw] as int]);
        assert(false);
    }
    lemma_index_seq_card(order, ns.len() as int);
    if order.len() == ns.len() {
        assert(order.contains((next as int) as usize));
        assert(((next as int) as usize) == next);
        assert(false);
    }
    assert(order2.no_duplicates()) by {
        assert forall|p: int, q: int|
            0 <= p < order2.len() && 0 <= q < order2.len() && p != q implies order2[p]
            != order2[q] by {
            if p < order.len() && q < order.len() {
                assert(order[p] != order[q]);
            } else if q == order.len() {
                if order2[p] == next {
                    assert(order.contains(next));
                }
            } else {
                if order2[q] == next {
                    assert(order.contains(next));
                }
            }
        }
    }
    assert forall|p: int| 0 <= p < order2.len() implies (#[trigger] order2[p] as int)
        < ns.len() by {
        if p < order.len() {
            assert(order2[p] == order[p]);
        }
    }
    assert forall|p: int| 0 <= p < order2.len() implies emitted2[#[trigger] order2[p] as int] by {
        if p < order.len() {
            assert(order2[p] == order[p]);
            assert(emitted[order[p] as int]);
        }
    }
    assert forall|u: int| 0 <= u < ns.len() && emitted2[u] implies order2.contains(u as usize) by {
        if u == next as int {
            assert(order2[order2.len() - 1] == next);
        } else {
            assert(emitted[u]);
            let pw = choose|pw: int| 0 <= pw < order.len() && order[pw] == u as usize;
            assert(order2[pw] == u as usize);
        }
    }
    assert forall|p: int, d: int|
        0 <= p < order2.len() && 0 <= d < deps_idx[order2[p] as int]@.len() implies index_before(
        order2,
        p,
        #[trigger] deps_idx[order2[p] as int]@[d],
    ) by {
        if p < order.len() {
            assert(order2[p] == order[p]);
            assert(index_before(order, p, deps_idx[order[p] as int]@[d]));
            let q = choose|q: int| 0 <= q < p && order[q] == deps_idx[order[p] as int]@[d];
            assert(order2[q] == deps_idx[order2[p] as int]@[d]);
            assert(index_before(order2, p, deps_idx[order2[p] as int]@[d]));
        } else {
            let dep = deps_idx[next as int]@[d];
            assert(emitted[dep as int]);
            let qw = choose|qw: int| 0 <= qw < order.len() && order[qw] == dep;
            assert(order2[qw] == dep);
            assert(index_before(order2, p, deps_idx[order2[p] as int]@[d]));
        }
    }
}

/// A full emission order certifies that no blocked group exists: the
/// earliest member of any candidate group would need a dependency
/// emitted even earlier yet inside the group.
#[verifier::rlimit(100)]
#[verifier::spinoff_prover]
proof fn lemma_full_order_unblocked(
    ns: Seq<(String, Vec<String>)>,
    deps_idx: Seq<Vec<usize>>,
    order: Seq<usize>,
)
    requires
        distinct_names(ns),
        deps_wf(ns, deps_idx),
        order.no_duplicates(),
        forall|p: int| 0 <= p < order.len() ==> (#[trigger] order[p] as int) < ns.len(),
        forall|p: int, d: int|
            0 <= p < order.len() && 0 <= d < deps_idx[order[p] as int]@.len() ==> index_before(
                order,
                p,
                #[trigger] deps_idx[order[p] as int]@[d],
            ),
        order.len() == ns.len(),
        ns.len() <= usize::MAX,
    ensures
        !has_blocked_set(ns),
{
    let n = ns.len() as int;
    lemma_index_seq_card(order, n);
    if has_blocked_set(ns) {
        let s = choose|s: Set<int>| blocked_set(ns, s);
        let m0 = choose|m0: int| s.contains(m0);
        assert(exists|q: int| 0 <= q < order.len() && s.contains(#[trigger] order[q] as int)) by {
            assert(order.contains((m0 as usize)));
            let pw = choose|pw: int| 0 <= pw < order.len() && order[pw] == m0 as usize;
            assert(order[pw] as int == m0);
        }
        let pf = first_member_position(order, s);
        let m = order[pf] as int;
        let j = choose|j: int| s.contains(j) && depends_on(ns, m, j);
        let d = choose|d: int|
            0 <= d < dep_names(ns, m).len() && dep_names(ns, m)[d] == node_names(ns)[j];
        let dj = deps_idx[m]@[d] as int;
        assert(node_names(ns)[dj] == node_names(ns)[j]);
        if dj < j {
            assert(node_names(ns)[dj] != node_names(ns)[j]);
        } else if j < dj {
            assert(node_names(ns)[j] != node_names(ns)[dj]);
        }
        assert(dj == j);
        assert(index_before(order, pf, deps_idx[order[pf] as int]@[d]));
        let q = choose|q: int| 0 <= q < pf && order[q] == deps_idx[order[pf] as int]@[d];
        assert(s.contains(order[q] as int));
        assert(false);
    }
}

/// A stuck, incomplete emission exhibits a blocked group: the unemitted
/// nodes, each of which waits on an unemitted node.
#[verifier::rlimit(50)]
proof fn lemma_stuck_blocked(
    ns: Seq<(String, Vec<String>)>,
    deps_idx: Seq<Vec<usize>>,
    emitted: Seq<bool>,
    order: Seq<usize>,
)
    requires
        deps_wf(ns, deps_idx),
        emit_inv(ns, deps_idx, emitted, order),
        all_stuck(ns, deps_idx, emitted),
        order.len() < ns.len(),
        ns.len() <= usize::MAX,
    ensures
        has_blocked_set(ns),
{
    broadcast use vstd::set::group_set_axioms;

    let n = ns.len() as int;
    assert(exists|u: int| 0 <= u < n && !emitted[u]) by {
        if forall|u: int| 0 <= u < n ==> #[trigger] emitted[u] {
            assert forall|x: int| 0 <= x < n implies #[trigger] order.contains(x as usize) by {
                assert(emitted[x]);
            }
            lemma_index_seq_covers(order, n);
            assert(false);
        }
    }
    let stuck = Set::new(|u: int| 0 <= u < n && !emitted[u]);
    let u0 = choose|u0: int| 0 <= u0 < n && !emitted[u0];
    assert(stuck.contains(u0));
    assert forall|u: int| #[trigger] stuck.contains(u) implies exists|j: int|
        stuck.contains(j) && depends_on(ns, u, j) by {
        let d = choose|d: int|
            0 <= d < deps_idx[u]@.len() && !emitted[#[trigger] deps_idx[u]@[d] as int];
        let j = deps_idx[u]@[d] as int;
        assert(stuck.contains(j));
        assert(dep_names(ns, u)[d] == node_names(ns)[j]);
        assert(dep_names(ns, u).contains(node_names(ns)[j]));
        assert(depends_on(ns, u, j));
    }
    assert(blocked_set(ns, stuck));
}

/// A full emission order read off as names is a valid order.
#[verifier::rlimit(50)]
proof fn lemma_order_names_valid(
    ns: Seq<(String, Vec<String>)>,
    deps_idx: Seq<Vec<usize>>,
    emitted: Seq<bool>,
    order: Seq<usize>,
    out: Seq<Seq<char>>,
)
    requires
        distinct_names(ns),
        deps_wf(ns, deps_idx),
        emit_inv(ns, deps_idx, emitted, order),
        order.len() == ns.len(),
        ns.len() <= usize::MAX,
        out.len() == order.len(),
        forall|u: int| 0 <= u < out.len() ==> #[trigger] out[u] == node_names(ns)[order[u] as int],
    ensures
        valid_order(ns, out),
{
    let n = ns.len() as int;
    lemma_index_seq_card(order, n);
    assert forall|a: int| 0 <= a < n implies out.contains(#[trigger] node_names(ns)[a]) by {
        assert(order.contains(a as usize));
        let pw = choose|pw: int| 0 <= pw < order.len() && order[pw] == a as usize;
        assert(out[pw] == node_names(ns)[a]);
    }
    assert forall|p0: int, q0: int| 0 <= p0 < q0 < out.len() implies out[p0] != out[q0] by {
        assert(order[p0] != order[q0]);
        let ia = order[p0] as int;
        let ib = order[q0] as int;
        if ia < ib {
            assert(node_names(ns)[ia] != node_names(ns)[ib]);
        } else {
            assert(node_names(ns)[ib] != node_names(ns)[ia]);
        }
    }
    assert forall|p0: int, a: int, d: int|
        #![trigger out[p0], dep_names(ns, a)[d]]
        0 <= p0 < out.len() && 0 <= a < n && out[p0] == node_names(ns)[a] && 0 <= d < dep_names(
            ns,
            a,
        ).len() implies name_before(out, p0, dep_names(ns, a)[d]) by {
        let ip = order[p0] as int;
        if ip < a {
            assert(node_names(ns)[ip] != node_names(ns)[a]);
        } else if a < ip {
            assert(node_names(ns)[a] != node_names(ns)[ip]);
        }
        assert(ip == a);
        assert(index_before(order, p0, deps_idx[order[p0] as int]@[d]));
        let q = choose|q: int| 0 <= q < p0 && order[q] == deps_idx[order[p0] as int]@[d];
        assert(out[q] == node_names(ns)[deps_idx[a]@[d] as int]);
        assert(out[q] == dep_names(ns, a)[d]);
        assert(name_before(out, p0, dep_names(ns, a)[d]));
    }
}

/// Finds the node carrying `name`, by linear search.
fn find_name(nodes: &Vec<(String, Vec<String>)>, name: &String) -> (r: Option<usize>)
    ensures
        match r {
            Option::Some(j) => (j as int) < nodes@.len() && node_names(nodes@)[j as int] == name@,
            Option::None => !node_names(nodes@).contains(name@),
        },
{
    let mut j: usize = 0;
    while j < nodes.len()
        invariant
            j <= nodes@.len(),
            forall|t: int| 0 <= t < j ==> node_names(nodes@)[t] != name@,
        decreases nodes@.len() - j,
    {
        if nodes[j].0 == *name {
            proof {
                assert(node_names(nodes@)[j as int] == nodes@[j as int].0@);
            }
            return Option::Some(j);
        }
        proof {
            assert(node_names(nodes@)[j as int] == nodes@[j as int].0@);
        }
        j = j + 1;
    }
    Option::None
}

/// True when every listed dependency index is already emitted.
fn all_emitted(deps: &Vec<usize>, emitted: &Vec<bool>) -> (r: bool)
    requires
        forall|d: int| 0 <= d < deps@.len() ==> (#[trigger] deps@[d] as int) < emitted@.len(),
    ensures
        r == (forall|d: int| 0 <= d < deps@.len() ==> emitted@[#[trigger] deps@[d] as int]),
{
    let mut d: usize = 0;
    while d < deps.len()
        invariant
            d <= deps@.len(),
            forall|t: int| 0 <= t < deps@.len() ==> (#[trigger] deps@[t] as int) < emitted@.len(),
            forall|t: int| 0 <= t < d ==> emitted@[#[trigger] deps@[t] as int],
        decreases deps@.len() - d,
    {
        if !emitted[deps[d]] {
            return false;
        }
        d = d + 1;
    }
    true
}

/// Scans for a node that is not yet emitted but whose dependencies all
/// are.  The scan is quadratic over the run of the resolver; set
/// definitions are few, and the direct form keeps the invariants plain.
fn find_ready(deps_idx: &Vec<Vec<usize>>, emitted: &Vec<bool>) -> (r: Option<usize>)
    requires
        deps_idx@.len() == emitted@.len(),
        forall|i: int, d: int|
            0 <= i < deps_idx@.len() && 0 <= d < deps_idx@[i]@.len() ==> (#[trigger] deps_idx@[i]@[d]
                as int) < emitted@.len(),
    ensures
        match r {
            Option::Some(i) => {
                &&& (i as int) < emitted@.len()
                &&& !emitted@[i as int]
                &&& forall|d: int|
                    0 <= d < deps_idx@[i as int]@.len() ==> emitted@[#[trigger] deps_idx@[i as int]@[d] as int]
            },
            Option::None => forall|i: int|
                0 <= i < emitted@.len() && !emitted@[i] ==> exists|d: int|
                    0 <= d < deps_idx@[i]@.len() && !emitted@[#[trigger] deps_idx@[i]@[d] as int],
        },
{
    let mut i: usize = 0;
    while i < emitted.len()
        invariant
            i <= emitted@.len(),
            deps_idx@.len() == emitted@.len(),
            forall|t: int, d: int|
                0 <= t < deps_idx@.len() && 0 <= d < deps_idx@[t]@.len() ==> (
                #[trigger] deps_idx@[t]@[d] as int) < emitted@.len(),
            forall|t: int|
                0 <= t < i && !emitted@[t] ==> exists|d: int|
                    0 <= d < deps_idx@[t]@.len() && !emitted@[#[trigger] deps_idx@[t]@[d] as int],
        decreases emitted@.len() - i,
    {
        if !emitted[i] && all_emitted(&deps_idx[i], emitted) {
            return Option::Some(i);
        }
        i = i + 1;
    }
    Option::None
}

/// Orders the given set definitions so that every set comes after all
/// sets it depends on.  The input maps each set name to the names it
/// depends on (empty for leaf sets); names are unique and every
/// dependency must itself be defined.  Fails with `CycleDetected`
/// exactly when the input holds a blocked group of nodes, i.e. a cycle.
pub fn topsort(nodes: &Vec<(String, Vec<String>)>) -> (r: Result<Vec<String>, ResolveError>)
    requires
        distinct_names(nodes@),
        closed_deps(nodes@),
    ensures
        match r {
            Result::Ok(order) => valid_order(nodes@, output_names(order@)) && !has_blocked_set(
                nodes@,
            ),
            Result::Err(e) => has_blocked_set(nodes@) && e == ResolveError::CycleDetected,
        },
{
    let ghost ns = nodes@;
    let n = nodes.len();

    // Resolve every dependency name to its node index.
    let mut deps_idx: Vec<Vec<usize>> = Vec::new();
    let mut i: usize = 0;
    while i < n
        invariant
            i <= n == nodes@.len(),
            ns == nodes@,
            distinct_names(ns),
            closed_deps(ns),
            deps_idx@.len() == i,
            forall|a: int|
                0 <= a < i ==> (#[trigger] deps_idx@[a]@).len() == dep_names(ns, a).len(),
            forall|a: int, d: int|
                0 <= a < i && 0 <= d < deps_idx@[a]@.len() ==> (#[trigger] deps_idx@[a]@[d] as int)
                    < n,
            forall|a: int, d: int|
                0 <= a < i && 0 <= d < deps_idx@[a]@.len() ==> node_names(ns)[
                    #[trigger] deps_idx@[a]@[d] as int] == dep_names(ns, a)[d],
        decreases n - i,
    {
        let mut row: Vec<usize> = Vec::new();
        let deps_len = nodes[i].1.len();
        let mut d: usize = 0;
        while d < deps_len
            invariant
                i < n == nodes@.len(),
                ns == nodes@,
                distinct_names(ns),
                closed_deps(ns),
                deps_len == nodes@[i as int].1@.len(),
                d <= deps_len,
                row@.len() == d,
                forall|t: int| 0 <= t < d ==> (#[trigger] row@[t] as int) < n,
                forall|t: int|
                    0 <= t < d ==> node_names(ns)[#[trigger] row@[t] as int] == dep_names(
                        ns,
                        i as int,
                    )[t],
            decreases deps_len - d,
        {
            proof {
                assert(dep_names(ns, i as int)[d as int] == nodes@[i as int].1@[d as int]@);
            }
            match find_name(nodes, &nodes[i].1[d]) {
                Option::Some(j) => {
                    row.push(j);
                },
                Option::None => {
                    proof {
                        assert(node_names(ns).contains(dep_names(ns, i as int)[d as int]));
                        assert(false);
                    }
                    return Result::Err(ResolveError::CycleDetected);
                },
            }
            d = d + 1;
        }
        deps_idx.push(row);
        i = i + 1;
    }

    // Mark everything unemitted.
    let mut emitted: Vec<bool> = Vec::new();
    let mut t: usize = 0;
    while t < n
        invariant
            t <= n,
            emitted@.len() == t,
            forall|u: int| 0 <= u < t ==> !(#[trigger] emitted@[u]),
        decreases n - t,
    {
        emitted.push(false);
        t = t + 1;
    }

    // Emit ready nodes until none is left or none is ready.
    let mut order: Vec<usize> = Vec::new();
    let mut done = false;
    while !done
        invariant
            n == ns.len(),
            ns == nodes@,
            distinct_names(ns),
            closed_deps(ns),
            deps_wf(ns, deps_idx@),
            emit_inv(ns, deps_idx@, emitted@, order@),
            done ==> all_stuck(ns, deps_idx@, emitted@),
        decreases n - order@.len(), (if done {
            0int
        } else {
            1int
        }),
    {
        match find_ready(&deps_idx, &emitted) {
            Option::Some(next) => {
                let ghost old_order = order@;
                let ghost old_emitted = emitted@;
                proof {
                    lemma_emit_step(ns, deps_idx@, old_emitted, old_order, next);
                    lemma_index_seq_card(old_order, n as int);
                    if old_order.len() == n {
                        assert(old_order.contains((next as int) as usize));
                        assert(old_emitted[next as int]);
                        assert(false);
                    }
                }
                emitted[next] = true;
                order.push(next);
                proof {
                    assert(emitted@ == old_emitted.update(next as int, true));
                    assert(order@ == old_order.push(next));
                }
            },
            Option::None => {
                done = true;
            },
        }
    }

    if order.len() == n {
        // Every node was emitted: read the names off in emission order.
        let mut res: Vec<String> = Vec::new();
        let mut p: usize = 0;
        while p < n
            invariant
                p <= n == nodes@.len(),
                ns == nodes@,
                order@.len() == n,
                forall|u: int| 0 <= u < order@.len() ==> (#[trigger] order@[u] as int) < n,
                res@.len() == p,
                forall|u: int|
                    0 <= u < p ==> (#[trigger] res@[u])@ == node_names(ns)[order@[u] as int],
            decreases n - p,
        {
            let idx = order[p];
            res.push(nodes[idx].0.clone());
            proof {
                assert(node_names(ns)[idx as int] == nodes@[idx as int].0@);
            }
            p = p + 1;
        }
        proof {
            assert forall|u: int|
                0 <= u < output_names(res@).len() implies #[trigger] output_names(res@)[u]
                == node_names(ns)[order@[u] as int] by {}
            lemma_order_names_valid(ns, deps_idx@, emitted@, order@, output_names(res@));
            lemma_full_order_unblocked(ns, deps_idx@, order@);
        }
        Result::Ok(res)
    } else {
        proof {
            lemma_stuck_blocked(ns, deps_idx@, emitted@, order@);
        }
        Result::Err(ResolveError::CycleDetected)
    }
}

} // verus!
