//! The orders in which tasks are handed to the assignment engine: a
//! topological order of the task graph, and the HEFT order by rounded rank.
use crate::error::ScheduleError;
use crate::graph::{acyclic, edges_within, is_permutation, is_topological_order, Dependency, TaskGraph};
use rayon::slice::ParallelSliceMut;
use vstd::prelude::*;

verus! {

/// The source and target of each dependency, in order.
pub open spec fn edge_pairs(deps: Seq<Dependency>) -> Seq<(usize, usize)> {
    deps.map_values(|d: Dependency| (d.source, d.target))
}

/// The order that petgraph's `toposort` returns for the graph on `0..n`
/// whose edges, in insertion order, are `edges`; `None` when it has a cycle.
pub uninterp spec fn toposort_of(n: nat, edges: Seq<(usize, usize)>) -> Option<Seq<usize>>;

/// Relies on petgraph::algo::toposort, which on a graph without cycles
/// returns every node once, each before its successors, and on a graph with
/// a cycle (a self-loop included) returns an error. The graph is built with
/// the nodes and edges in the order given, which fixes the order returned.
/// Its result depends on the node count and the edges in order alone.
/// `add_node` and `add_edge` panic past `u32::MAX` nodes or edges, or on an
/// edge to a missing node.
#[verifier::external_body]
fn petgraph_toposort(n: usize, deps: &Vec<Dependency>) -> (r: Option<Vec<usize>>)
    requires
        n < u32::MAX,
        deps@.len() < u32::MAX,
        edges_within(n as nat, deps@),
    ensures
        r matches Some(s) ==> is_topological_order(s@, n as nat, deps@),
        r is None ==> !acyclic(n as nat, deps@),
        r is Some <==> toposort_of(n as nat, edge_pairs(deps@)) is Some,
        r matches Some(s) ==> s@ == toposort_of(n as nat, edge_pairs(deps@))->Some_0,
{
    let mut g = petgraph::graph::DiGraph::<(), ()>::with_capacity(n, deps.len());
    for _ in 0..n {
        g.add_node(());
    }
    for d in deps.iter() {
        g.add_edge(petgraph::graph::NodeIndex::new(d.source), petgraph::graph::NodeIndex::new(d.target), ());
    }
    petgraph::algo::toposort(&g, None).ok().map(|s| s.iter().map(|x| x.index()).collect())
}

/// `(a, b)` comes before `(c, d)` in lexicographic order.
pub open spec fn pair_less(p: (usize, usize), q: (usize, usize)) -> bool {
    p.0 < q.0 || (p.0 == q.0 && p.1 < q.1)
}

/// Relies on rayon's ParallelSliceMut::par_sort_by_key, a stable sort: the
/// pairs come out as a rearrangement ordered by first component, and pairs
/// with equal first components keep their relative order. With second
/// components ascending on entry, that order is ascending second component.
#[verifier::external_body]
fn stable_sort_by_first(pairs: &mut Vec<(usize, usize)>)
    requires
        forall|k: int, l: int| 0 <= k < l < old(pairs)@.len() ==> old(pairs)@[k].1 < old(pairs)@[l].1,
    ensures
        final(pairs)@.to_multiset() == old(pairs)@.to_multiset(),
        forall|k: int, l: int|
            0 <= k < l < final(pairs)@.len() ==> pair_less(final(pairs)@[k], final(pairs)@[l]),
{
    pairs.par_sort_by_key(|p| p.0);
}

/// The topological order that petgraph gives the task graph, or `Cycle`
/// when it has none. The order depends on the graph alone.
pub fn topological_order(g: &TaskGraph) -> (r: Result<Vec<usize>, ScheduleError>)
    requires
        g.wf(),
        g.task_count() < u32::MAX,
        g.dependencies@.len() < u32::MAX,
    ensures
        r matches Ok(s) ==> is_topological_order(s@, g.task_count(), g.dependencies@),
        r is Err <==> !acyclic(g.task_count(), g.dependencies@),
        r matches Err(e) ==> e == ScheduleError::Cycle,
        r matches Ok(s) ==> s@ == toposort_of(g.task_count(), edge_pairs(g.dependencies@))->Some_0,
{
    match petgraph_toposort(g.pins.len(), &g.dependencies) {
        Some(s) => Ok(s),
        None => Err(ScheduleError::Cycle),
    }
}

/// Task `a` is handled before task `b` in HEFT order: higher rounded rank
/// first, and of two equal ranks the higher index first.
pub open spec fn heft_before(ranks: Seq<usize>, a: usize, b: usize) -> bool {
    ranks[a as int] > ranks[b as int] || (ranks[a as int] == ranks[b as int] && a > b)
}

/// The HEFT order of the tasks `0..ranks.len()`, where `ranks[u]` is the
/// rounded upward rank of task `u`: the tasks sorted ascending by rank with a
/// stable sort, then reversed. Rounding can give a task the same rank as
/// one of its producers, so this order need not respect the dependencies.
pub fn heft_order(ranks: &Vec<usize>) -> (r: Vec<usize>)
    ensures
        is_permutation(r@, ranks@.len()),
        forall|i: int, j: int|
            0 <= i < j < r@.len() ==> heft_before(ranks@, #[trigger] r@[i], #[trigger] r@[j]),
{
    let n = ranks.len();
    let mut pairs: Vec<(usize, usize)> = Vec::new();
    let mut u: usize = 0;
    while u < n
        invariant
            u <= n,
            n == ranks@.len(),
            pairs@.len() == u,
            forall|k: int| 0 <= k < u ==> #[trigger] pairs@[k] == (ranks@[k], k as usize),
        decreases n - u,
    {
        pairs.push((ranks[u], u));
        u += 1;
    }
    let ghost unsorted = pairs@;
    stable_sort_by_first(&mut pairs);
    proof {
        pairs@.to_multiset_ensures();
        unsorted.to_multiset_ensures();
        assert forall|k: int| 0 <= k < pairs@.len() implies (#[trigger] pairs@[k]).1 < n
            && pairs@[k].0 == ranks@[pairs@[k].1 as int] by {
            assert(pairs@.contains(pairs@[k]));
            assert(pairs@.to_multiset().count(pairs@[k]) > 0);
            assert(unsorted.to_multiset().count(pairs@[k]) > 0);
            assert(unsorted.contains(pairs@[k]));
            let j = choose|j: int| 0 <= j < unsorted.len() && unsorted[j] == pairs@[k];
            assert(unsorted[j] == (ranks@[j], j as usize));
        }
    }
    let mut r: Vec<usize> = Vec::new();
    let mut k: usize = n;
    while k > 0
        invariant
            k <= n,
            n == ranks@.len(),
            pairs@.len() == n,
            r@.len() == n - k,
            unsorted.len() == n,
            forall|k2: int| 0 <= k2 < n ==> #[trigger] unsorted[k2] == (ranks@[k2], k2 as usize),
            pairs@.to_multiset() == unsorted.to_multiset(),
            forall|i: int| 0 <= i < r@.len() ==> #[trigger] r@[i] == pairs@[n - 1 - i].1,
            forall|k2: int| 0 <= k2 < pairs@.len() ==> (#[trigger] pairs@[k2]).1 < n
                && pairs@[k2].0 == ranks@[pairs@[k2].1 as int],
            forall|a: int, b: int| 0 <= a < b < pairs@.len() ==> pair_less(#[trigger] pairs@[a], #[trigger] pairs@[b]),
        decreases k,
    {
        k -= 1;
        r.push(pairs[k].1);
    }
    proof {
        assert forall|i: int, j: int| 0 <= i < j < r@.len() implies heft_before(
            ranks@,
            #[trigger] r@[i],
            #[trigger] r@[j],
        ) by {
            assert(pair_less(pairs@[n - 1 - j], pairs@[n - 1 - i]));
        }
        assert forall|i: int, j: int| 0 <= i < r@.len() && 0 <= j < r@.len() && i != j implies r@[i]
            != r@[j] by {
            if i < j {
                assert(heft_before(ranks@, r@[i], r@[j]));
            } else {
                assert(heft_before(ranks@, r@[j], r@[i]));
            }
        }
        pairs@.to_multiset_ensures();
        unsorted.to_multiset_ensures();
        assert forall|t: usize| t < n implies #[trigger] r@.contains(t) by {
            assert(unsorted[t as int] == (ranks@[t as int], t));
            assert(unsorted.contains((ranks@[t as int], t)));
            assert(pairs@.to_multiset().count((ranks@[t as int], t)) > 0);
            assert(pairs@.contains((ranks@[t as int], t)));
            let k2 = choose|k2: int| 0 <= k2 < pairs@.len() && pairs@[k2] == (ranks@[t as int], t);
            assert(r@[n - 1 - k2] == t);
        }
    }
    r
}

/// Sequences that both satisfy `heft_order`'s contract agree on their
/// first `i` elements.
proof fn lemma_heft_prefix_equal(ranks: Seq<usize>, r1: Seq<usize>, r2: Seq<usize>, i: int)
    requires
        is_permutation(r1, ranks.len()),
        is_permutation(r2, ranks.len()),
        forall|a: int, b: int| 0 <= a < b < r1.len() ==> heft_before(ranks, #[trigger] r1[a], #[trigger] r1[b]),
        forall|a: int, b: int| 0 <= a < b < r2.len() ==> heft_before(ranks, #[trigger] r2[a], #[trigger] r2[b]),
        0 <= i <= r1.len(),
    ensures
        forall|j: int| 0 <= j < i ==> r1[j] == r2[j],
    decreases i,
{
    if i > 0 {
        lemma_heft_prefix_equal(ranks, r1, r2, i - 1);
        let k = i - 1;
        let a = r1[k];
        let b = r2[k];
        if a != b {
            assert(r2.contains(a));
            let ka = choose|ka: int| 0 <= ka < r2.len() && r2[ka] == a;
            assert(r1.contains(b));
            let kb = choose|kb: int| 0 <= kb < r1.len() && r1[kb] == b;
            if ka < k {
                assert(r1[ka] == a);
            }
            if kb < k {
                assert(r2[kb] == b);
            }
            assert(heft_before(ranks, b, a));
            assert(heft_before(ranks, a, b));
        }
    }
}

/// Idempotence of the HEFT order: the order is determined by the ranks
/// alone, so any two sequences that satisfy `heft_order`'s contract for
/// the same ranks are equal.
pub proof fn lemma_heft_order_unique(ranks: Seq<usize>, r1: Seq<usize>, r2: Seq<usize>)
    requires
        is_permutation(r1, ranks.len()),
        is_permutation(r2, ranks.len()),
        forall|a: int, b: int| 0 <= a < b < r1.len() ==> heft_before(ranks, #[trigger] r1[a], #[trigger] r1[b]),
        forall|a: int, b: int| 0 <= a < b < r2.len() ==> heft_before(ranks, #[trigger] r2[a], #[trigger] r2[b]),
    ensures
        r1 == r2,
{
    lemma_heft_prefix_equal(ranks, r1, r2, r1.len() as int);
    assert(r1 =~= r2);
}

} // verus!
