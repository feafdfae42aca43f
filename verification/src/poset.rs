//! A partial order given by its covering edges, checked to be acyclic.
use vstd::prelude::*;
use crate::errors::FcaError;
use crate::drawing::{known_algorithm, check_algorithm};
use crate::names::{label_views, copy_labels};

verus! {

/// Every edge joins two of the `n` nodes.
pub open spec fn edges_in_range(n: nat, e: Seq<(u32, u32)>) -> bool {
    forall|k: int| 0 <= k < e.len() ==> (#[trigger] e[k]).0 < n && e[k].1 < n
}

/// `rank` numbers the `n` nodes so that every edge goes up.
pub open spec fn is_topological(n: nat, e: Seq<(u32, u32)>, rank: Seq<nat>) -> bool {
    &&& rank.len() == n
    &&& forall|k: int| 0 <= k < e.len() ==> rank[(#[trigger] e[k]).0 as int] < rank[e[k].1 as int]
}

/// The edges form no cycle: some numbering of the nodes makes every edge go up.
pub open spec fn acyclic(n: nat, e: Seq<(u32, u32)>) -> bool {
    exists|rank: Seq<nat>| is_topological(n, e, rank)
}

/// Among the nodes of `s`, one of least rank.
proof fn lemma_least_rank(s: Set<usize>, rank: Seq<nat>, v: usize) -> (w: usize)
    requires
        s.contains(v),
        forall|x: usize| s.contains(x) ==> x < rank.len(),
    ensures
        s.contains(w),
        forall|x: usize| s.contains(x) ==> rank[w as int] <= rank[x as int],
    decreases rank[v as int],
{
    if exists|x: usize| s.contains(x) && rank[x as int] < rank[v as int] {
        let x = choose|x: usize| s.contains(x) && rank[x as int] < rank[v as int];
        lemma_least_rank(s, rank, x)
    } else {
        v
    }
}

/// The nodes taken out so far.
pub open spec fn taken_out(removed: Seq<bool>, n: nat) -> Set<usize> {
    Set::new(|j: usize| j < n && removed[j as int])
}

/// Every remaining node has an edge from a remaining node, so no numbering
/// makes every edge go up.
proof fn lemma_stuck_means_cycle(n: usize, e: Seq<(u32, u32)>, removed: Seq<bool>, count: nat)
    requires
        edges_in_range(n as nat, e),
        removed.len() == n,
        count < n,
        count == taken_out(removed, n as nat).len(),
        forall|w: int| 0 <= w < n && !removed[w] ==> exists|q: int| 0 <= q < e.len() && (#[trigger] e[q]).1 == w && !removed[e[q].0 as int],
    ensures
        !acyclic(n as nat, e),
{
    if acyclic(n as nat, e) {
        let rk = choose|rk: Seq<nat>| is_topological(n as nat, e, rk);
        let rest = Set::new(|j: usize| j < n && !removed[j as int]);
        let done = taken_out(removed, n as nat);
        let all = crate::bitset::below(n as nat);
        crate::bitset::lemma_below_len(n);
        if !(exists|j: usize| rest.contains(j)) {
            assert forall|j: usize| all.contains(j) implies done.contains(j) by {
                assert(!rest.contains(j));
            }
            assert(done =~= all);
        }
        let j0 = choose|j: usize| rest.contains(j);
        let w = lemma_least_rank(rest, rk, j0);
        let q = choose|q: int| 0 <= q < e.len() && (#[trigger] e[q]).1 == w && !removed[e[q].0 as int];
        let u = e[q].0 as usize;
        assert(rest.contains(u));
        assert(rk[u as int] < rk[w as int]);
    }
}

/// Taking out a node that no remaining node points to keeps every edge into a
/// taken-out node going up from a taken-out node.
proof fn lemma_take_out(n: usize, e: Seq<(u32, u32)>, before: Seq<bool>, after: Seq<bool>, rank: Seq<nat>, w: usize, count: nat)
    requires
        edges_in_range(n as nat, e),
        before.len() == n,
        rank.len() == n,
        w < n,
        !before[w as int],
        after == before.update(w as int, true),
        count == taken_out(before, n as nat).len(),
        forall|j: int| 0 <= j < n && before[j] ==> rank[j] < count,
        forall|q: int| 0 <= q < e.len() && (#[trigger] e[q]).1 == w ==> before[e[q].0 as int],
        forall|q: int| 0 <= q < e.len() && before[(#[trigger] e[q]).1 as int] ==>
            before[e[q].0 as int] && rank[e[q].0 as int] < rank[e[q].1 as int],
    ensures
        count + 1 == taken_out(after, n as nat).len(),
        forall|j: int| 0 <= j < n && after[j] ==> rank.update(w as int, count)[j] < count + 1,
        forall|q: int| 0 <= q < e.len() && after[(#[trigger] e[q]).1 as int] ==>
            after[e[q].0 as int] && rank.update(w as int, count)[e[q].0 as int] < rank.update(w as int, count)[e[q].1 as int],
{
    let s0 = taken_out(before, n as nat);
    let s1 = taken_out(after, n as nat);
    assert(s1 =~= s0.insert(w));
    assert(!s0.contains(w));
    crate::bitset::lemma_usize_set_finite(s0);
    let r1 = rank.update(w as int, count);
    assert forall|q: int| 0 <= q < e.len() && after[(#[trigger] e[q]).1 as int] implies
        after[e[q].0 as int] && r1[e[q].0 as int] < r1[e[q].1 as int] by {
        let a = e[q].0;
        let b = e[q].1;
        if b as usize == w {
            assert(before[a as int]);
            assert(a as usize != w);
        } else {
            assert(before[b as int]);
        }
    }
}

/// Refuses edges that leave the nodes, then edges that form a cycle.
pub fn check_covering_relation(n: usize, edges: &Vec<(u32, u32)>) -> (r: Result<(), FcaError>)
    ensures
        !edges_in_range(n as nat, edges@) ==> r matches Err(FcaError::EdgeOutOfRange),
        edges_in_range(n as nat, edges@) ==> (r is Ok <==> acyclic(n as nat, edges@)),
        edges_in_range(n as nat, edges@) && !acyclic(n as nat, edges@) ==> r matches Err(FcaError::EdgesFormCycle),
{
    let mut k: usize = 0;
    while k < edges.len()
        invariant
            k <= edges@.len(),
            forall|j: int| 0 <= j < k ==> (#[trigger] edges@[j]).0 < n && edges@[j].1 < n,
        decreases edges@.len() - k,
    {
        if edges[k].0 as usize >= n || edges[k].1 as usize >= n {
            return Err(FcaError::EdgeOutOfRange);
        }
        k = k + 1;
    }
    // Kahn's algorithm: repeatedly take out a node that no remaining node points to.
    let mut removed: Vec<bool> = Vec::new();
    let mut i: usize = 0;
    while i < n
        invariant
            i <= n,
            removed@.len() == i,
            forall|j: int| 0 <= j < i ==> !removed@[j],
        decreases n - i,
    {
        removed.push(false);
        i = i + 1;
    }
    let ghost mut rank: Seq<nat> = Seq::new(n as nat, |j: int| 0nat);
    proof {
        assert(taken_out(removed@, n as nat) =~= Set::empty());
    }
    let mut count: usize = 0;
    while count < n
        invariant
            edges_in_range(n as nat, edges@),
            removed@.len() == n,
            rank.len() == n,
            count <= n,
            count == taken_out(removed@, n as nat).len(),
            forall|j: int| 0 <= j < n && removed@[j] ==> rank[j] < count,
            forall|q: int| 0 <= q < edges@.len() && removed@[(#[trigger] edges@[q]).1 as int] ==>
                removed@[edges@[q].0 as int] && rank[edges@[q].0 as int] < rank[edges@[q].1 as int],
        decreases n - count,
    {
        // Find a remaining node with no edge from a remaining node.
        let mut found: Option<usize> = None;
        let mut v: usize = 0;
        while v < n
            invariant
                edges_in_range(n as nat, edges@),
                removed@.len() == n,
                v <= n,
                found matches Some(w) ==> w < n && !removed@[w as int] && forall|q: int| 0 <= q < edges@.len() && (#[trigger] edges@[q]).1 == w ==> removed@[edges@[q].0 as int],
                found is None ==> forall|w: int| 0 <= w < v && !removed@[w] ==> exists|q: int| 0 <= q < edges@.len() && (#[trigger] edges@[q]).1 == w && !removed@[edges@[q].0 as int],
            decreases n - v,
        {
            if found.is_none() && !removed[v] {
                let mut free = true;
                let mut q: usize = 0;
                while q < edges.len()
                    invariant
                        edges_in_range(n as nat, edges@),
                        removed@.len() == n,
                        v < n,
                        q <= edges@.len(),
                        free == forall|p: int| 0 <= p < q && (#[trigger] edges@[p]).1 == v ==> removed@[edges@[p].0 as int],
                    decreases edges@.len() - q,
                {
                    if edges[q].1 as usize == v && !removed[edges[q].0 as usize] {
                        free = false;
                    }
                    q = q + 1;
                }
                if free {
                    found = Some(v);
                }
            }
            v = v + 1;
        }
        match found {
            Some(w) => {
                let ghost before = removed@;
                removed.set(w, true);
                proof {
                    lemma_take_out(n, edges@, before, removed@, rank, w, count as nat);
                    rank = rank.update(w as int, count as nat);
                }
                count = count + 1;
            },
            None => {
                proof {
                    lemma_stuck_means_cycle(n, edges@, removed@, count as nat);
                }
                return Err(FcaError::EdgesFormCycle);
            },
        }
    }
    proof {
        crate::bitset::lemma_below_len(n);
        assert forall|j: int| 0 <= j < n implies removed@[j] by {
            let done = taken_out(removed@, n as nat);
            let all = crate::bitset::below(n as nat);
            assert(done.subset_of(all));
            if !removed@[j] {
                done.lemma_subset_not_in_lt(all, j as usize);
            }
        }
        assert(is_topological(n as nat, edges@, rank));
    }
    Ok(())
}

/// A partial order given by node labels and covering edges `(u, v)`: node
/// `u` lies directly below node `v`.
pub struct PyPoset {
    nodes: Vec<String>,
    edges: Vec<(u32, u32)>,
}

impl PyPoset {
    pub closed spec fn node_names(&self) -> Seq<Seq<char>> {
        label_views(self.nodes@)
    }

    pub closed spec fn edge_list(&self) -> Seq<(u32, u32)> {
        self.edges@
    }

    /// A poset over `nodes` with the covering edges `edges`; refused when an
    /// edge leaves the nodes or the edges form a cycle.
    pub fn new(nodes: Vec<String>, edges: Vec<(u32, u32)>) -> (r: Result<Self, FcaError>)
        ensures
            !edges_in_range(nodes@.len() as nat, edges@) ==> r matches Err(FcaError::EdgeOutOfRange),
            edges_in_range(nodes@.len() as nat, edges@) && !acyclic(nodes@.len() as nat, edges@) ==> r matches Err(FcaError::EdgesFormCycle),
            edges_in_range(nodes@.len() as nat, edges@) && acyclic(nodes@.len() as nat, edges@) ==> (r matches Ok(p) && p.node_names() == label_views(nodes@) && p.edge_list() == edges@),
    {
        match check_covering_relation(nodes.len(), &edges) {
            Ok(()) => Ok(PyPoset { nodes, edges }),
            Err(e) => Err(e),
        }
    }

    pub fn nodes(&self) -> (r: Vec<String>)
        ensures
            label_views(r@) == self.node_names(),
    {
        copy_labels(&self.nodes)
    }

    pub fn edges(&self) -> (r: Vec<(u32, u32)>)
        ensures
            r@ == self.edge_list(),
    {
        let mut r: Vec<(u32, u32)> = Vec::new();
        let mut i: usize = 0;
        while i < self.edges.len()
            invariant
                i <= self.edges@.len(),
                r@ == self.edges@.take(i as int),
            decreases self.edges@.len() - i,
        {
            r.push(self.edges[i]);
            i = i + 1;
            assert(r@ =~= self.edges@.take(i as int));
        }
        assert(self.edges@.take(self.edges@.len() as int) =~= self.edges@);
        r
    }

    /// Refuses edges that leave the nodes or form a cycle.
    pub fn check(&self) -> (r: Result<(), FcaError>)
        ensures
            !edges_in_range(self.node_names().len(), self.edge_list()) ==> r matches Err(FcaError::EdgeOutOfRange),
            edges_in_range(self.node_names().len(), self.edge_list()) ==> (r is Ok <==> acyclic(self.node_names().len(), self.edge_list())),
            edges_in_range(self.node_names().len(), self.edge_list()) && !acyclic(self.node_names().len(), self.edge_list()) ==> r matches Err(FcaError::EdgesFormCycle),
    {
        check_covering_relation(self.nodes.len(), &self.edges)
    }

    /// Whether there is anything to lay out with `algorithm`: an unknown
    /// algorithm is refused first (a poset has no "dimflux" layout), an empty
    /// poset has nothing to draw, and the edges must then pass [`Self::check`].
    pub fn drawing_plan(&self, algorithm: &String) -> (r: Result<bool, FcaError>)
        ensures
            !known_algorithm(algorithm@, false) ==> (r matches Err(FcaError::UnknownAlgorithm(a)) && a@ == algorithm@),
            known_algorithm(algorithm@, false) && self.node_names().len() == 0 ==> r == Ok::<bool, FcaError>(false),
            known_algorithm(algorithm@, false) && self.node_names().len() > 0 && !edges_in_range(self.node_names().len(), self.edge_list()) ==> r matches Err(FcaError::EdgeOutOfRange),
            known_algorithm(algorithm@, false) && self.node_names().len() > 0 && edges_in_range(self.node_names().len(), self.edge_list()) ==> {
                &&& acyclic(self.node_names().len(), self.edge_list()) ==> r == Ok::<bool, FcaError>(true)
                &&& !acyclic(self.node_names().len(), self.edge_list()) ==> r matches Err(FcaError::EdgesFormCycle)
            },
    {
        match check_algorithm(algorithm, false) {
            Err(e) => Err(e),
            Ok(()) => {
                if self.nodes.len() == 0 {
                    Ok(false)
                } else {
                    match self.check() {
                        Ok(()) => Ok(true),
                        Err(e) => Err(e),
                    }
                }
            },
        }
    }
}

} // verus!
