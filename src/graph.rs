//! The task graph: tasks indexed `0..n`, each with an optional pinned device,
//! and the dependencies between them in the order in which they were added.
use vstd::prelude::*;

verus! {

/// A directed edge of the task graph: `target` consumes `data_size` bytes
/// produced by `source`.
#[derive(Clone, Copy, Debug, PartialEq, Eq, Structural)]
pub struct Dependency {
    pub source: usize,
    pub target: usize,
    pub data_size: u64,
}

/// A directed graph of tasks. Task `u` may be pinned to device `pins[u]`.
#[derive(Clone, Debug)]
pub struct TaskGraph {
    pub pins: Vec<Option<usize>>,
    pub dependencies: Vec<Dependency>,
}

/// `s` lists each of `0..n` exactly once.
pub open spec fn is_permutation(s: Seq<usize>, n: nat) -> bool {
    &&& s.len() == n
    &&& s.no_duplicates()
    &&& forall|i: int| 0 <= i < s.len() ==> #[trigger] s[i] < n
    &&& forall|t: usize| t < n ==> #[trigger] s.contains(t)
}

/// Every dependency's source stands before its target in `s`.
pub open spec fn respects(s: Seq<usize>, deps: Seq<Dependency>) -> bool {
    forall|e: int, i: int, j: int|
        #![trigger deps[e], s[i], s[j]]
        0 <= e < deps.len() && 0 <= i < s.len() && 0 <= j < s.len() && s[i] == deps[e].source
            && s[j] == deps[e].target ==> i < j
}

/// `s` is a topological order of the graph on `0..n` with edges `deps`.
pub open spec fn is_topological_order(s: Seq<usize>, n: nat, deps: Seq<Dependency>) -> bool {
    is_permutation(s, n) && respects(s, deps)
}

/// The graph on `0..n` with edges `deps` has no cycle: some order of its
/// nodes puts every edge's source before its target.
pub open spec fn acyclic(n: nat, deps: Seq<Dependency>) -> bool {
    exists|s: Seq<usize>| is_topological_order(s, n, deps)
}

/// Every edge of `deps` joins two of the nodes `0..n`.
pub open spec fn edges_within(n: nat, deps: Seq<Dependency>) -> bool {
    forall|e: int|
        0 <= e < deps.len() ==> #[trigger] deps[e].source < n && deps[e].target < n
}

impl TaskGraph {
    pub open spec fn task_count(&self) -> nat {
        self.pins@.len()
    }

    /// Every dependency joins two tasks of the graph.
    pub open spec fn wf(&self) -> bool {
        edges_within(self.task_count(), self.dependencies@)
    }

    /// A graph of `n` unpinned tasks and no dependency.
    pub fn new(n: usize) -> (r: TaskGraph)
        ensures
            r.task_count() == n,
            forall|u: int| 0 <= u < n ==> r.pins@[u] is None,
            r.dependencies@.len() == 0,
            r.wf(),
    {
        let mut pins: Vec<Option<usize>> = Vec::new();
        let mut i: usize = 0;
        while i < n
            invariant
                i <= n,
                pins@.len() == i,
                forall|u: int| 0 <= u < i ==> pins@[u] is None,
            decreases n - i,
        {
            pins.push(None);
            i += 1;
        }
        TaskGraph { pins, dependencies: Vec::new() }
    }

    /// Pins task `u` to device `device`.
    pub fn pin(&mut self, u: usize, device: usize)
        requires
            u < old(self).task_count(),
        ensures
            final(self).pins@ == old(self).pins@.update(u as int, Some(device)),
            final(self).dependencies@ == old(self).dependencies@,
    {
        self.pins.set(u, Some(device));
    }

    /// Adds a dependency of `target` on `source` carrying `data_size` bytes.
    pub fn add_dependency(&mut self, source: usize, target: usize, data_size: u64)
        requires
            source < old(self).task_count(),
            target < old(self).task_count(),
            old(self).wf(),
        ensures
            final(self).pins@ == old(self).pins@,
            final(self).dependencies@ == old(self).dependencies@.push(
                Dependency { source, target, data_size },
            ),
            final(self).wf(),
    {
        self.dependencies.push(Dependency { source, target, data_size });
    }

    /// Indices into `dependencies` of the edges that end at `u`, in the
    /// order in which they were added.
    pub fn incoming(&self, u: usize) -> (r: Vec<usize>)
        ensures
            forall|k: int| 0 <= k < r@.len() ==> #[trigger] r@[k] < self.dependencies@.len(),
            forall|k: int| 0 <= k < r@.len() ==> self.dependencies@[#[trigger] r@[k] as int].target == u,
            forall|e: int|
                0 <= e < self.dependencies@.len() && #[trigger] self.dependencies@[e].target == u
                    ==> r@.contains(e as usize),
            forall|k: int, l: int| 0 <= k < l < r@.len() ==> r@[k] < r@[l],
    {
        let mut r: Vec<usize> = Vec::new();
        let mut e: usize = 0;
        while e < self.dependencies.len()
            invariant
                e <= self.dependencies@.len(),
                forall|k: int| 0 <= k < r@.len() ==> #[trigger] r@[k] < e,
                forall|k: int| 0 <= k < r@.len() ==> self.dependencies@[#[trigger] r@[k] as int].target == u,
                forall|f: int|
                    0 <= f < e && #[trigger] self.dependencies@[f].target == u ==> r@.contains(f as usize),
                forall|k: int, l: int| 0 <= k < l < r@.len() ==> r@[k] < r@[l],
            decreases self.dependencies@.len() - e,
        {
            if self.dependencies[e].target == u {
                let ghost before = r@;
                r.push(e);
                assert(r@[r@.len() - 1] == e);
                assert forall|f: int|
                    0 <= f < e && #[trigger] self.dependencies@[f].target == u implies r@.contains(
                        f as usize,
                    ) by {
                    let k = choose|k: int| 0 <= k < before.len() && before[k] == f as usize;
                    assert(r@[k] == f as usize);
                }
            }
            e += 1;
        }
        r
    }

    /// Indices into `dependencies` of the edges that start at `u`, in the
    /// order in which they were added.
    pub fn outgoing(&self, u: usize) -> (r: Vec<usize>)
        ensures
            forall|k: int| 0 <= k < r@.len() ==> #[trigger] r@[k] < self.dependencies@.len(),
            forall|k: int| 0 <= k < r@.len() ==> self.dependencies@[#[trigger] r@[k] as int].source == u,
            forall|e: int|
                0 <= e < self.dependencies@.len() && #[trigger] self.dependencies@[e].source == u
                    ==> r@.contains(e as usize),
            forall|k: int, l: int| 0 <= k < l < r@.len() ==> r@[k] < r@[l],
    {
        let mut r: Vec<usize> = Vec::new();
        let mut e: usize = 0;
        while e < self.dependencies.len()
            invariant
                e <= self.dependencies@.len(),
                forall|k: int| 0 <= k < r@.len() ==> #[trigger] r@[k] < e,
                forall|k: int| 0 <= k < r@.len() ==> self.dependencies@[#[trigger] r@[k] as int].source == u,
                forall|f: int|
                    0 <= f < e && #[trigger] self.dependencies@[f].source == u ==> r@.contains(f as usize),
                forall|k: int, l: int| 0 <= k < l < r@.len() ==> r@[k] < r@[l],
            decreases self.dependencies@.len() - e,
        {
            if self.dependencies[e].source == u {
                let ghost before = r@;
                r.push(e);
                assert(r@[r@.len() - 1] == e);
                assert forall|f: int|
                    0 <= f < e && #[trigger] self.dependencies@[f].source == u implies r@.contains(
                        f as usize,
                    ) by {
                    let k = choose|k: int| 0 <= k < before.len() && before[k] == f as usize;
                    assert(r@[k] == f as usize);
                }
            }
            e += 1;
        }
        r
    }
}

} // verus!
