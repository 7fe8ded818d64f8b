//! The dependency graph and its verified topological sequencing.
//!
//! Nodes are the indices `0 .. node_count()`; the caller keeps the bijection
//! between module identifiers and indices. An edge `a -> b` records that
//! module `a` imports module `b`. `toposort` either yields an analysis order
//! in which every imported module stands before its importer, or extracts one
//! concrete import cycle as a closed walk of distinct nodes.

use vstd::prelude::*;
use vstd::seq_lib::*;
use vstd::set_lib::*;

verus! {

/// A directed graph stored as adjacency lists. Duplicate edges and self-edges
/// are permitted; they collapse harmlessly into the edge relation.
pub struct Graph {
    pub adj: Vec<Vec<usize>>,
}

/// Every entry of `order` is a node index below `n`.
spec fn below(order: Seq<usize>, n: int) -> bool {
    forall|i: int| 0 <= i < order.len() ==> ((#[trigger] order[i]) as int) < n
}

/// `emitted` flags exactly the values occurring in `order`.
spec fn emitted_matches(emitted: Seq<bool>, order: Seq<usize>) -> bool {
    forall|x: int|
        0 <= x < emitted.len()
            ==> ((#[trigger] emitted[x]) <==> exists|j: int|
            0 <= j < order.len() && (#[trigger] order[j]) as int == x)
}

impl Graph {
    pub open spec fn node_count(self) -> int {
        self.adj@.len() as int
    }

    /// Every recorded edge target is a node of the graph.
    pub open spec fn wf(self) -> bool {
        forall|i: int, k: int|
            0 <= i < self.adj@.len() && 0 <= k < self.adj@[i]@.len()
                ==> ((#[trigger] self.adj@[i]@[k]) as int) < self.node_count()
    }

    /// The edge relation: node `a` imports node `b`.
    pub open spec fn edge(self, a: int, b: int) -> bool {
        &&& 0 <= a < self.node_count()
        &&& exists|k: int|
            0 <= k < self.adj@[a]@.len() && (#[trigger] self.adj@[a]@[k]) as int == b
    }

    /// `w` read cyclically is a walk of the graph: each node imports the next,
    /// and the last imports the first.
    pub open spec fn is_closed_walk(self, w: Seq<int>) -> bool {
        &&& w.len() >= 1
        &&& forall|i: int| 0 <= i < w.len() - 1 ==> self.edge(#[trigger] w[i], w[i + 1])
        &&& self.edge(w[w.len() - 1], w[0])
    }

    pub open spec fn has_cycle(self) -> bool {
        exists|w: Seq<int>| self.is_closed_walk(w)
    }

    /// `order` lists every node at most once, and no node imports a node
    /// placed at the same position or later: dependencies come first.
    pub open spec fn is_topo_order(self, order: Seq<usize>) -> bool {
        &&& order.len() == self.node_count()
        &&& order.no_duplicates()
        &&& forall|i: int| 0 <= i < order.len() ==> ((#[trigger] order[i]) as int) < self.node_count()
        &&& forall|i: int, j: int| #![trigger order[i], order[j]]
            0 <= i <= j < order.len() ==> !self.edge(order[i] as int, order[j] as int)
    }

    /// Every node of the graph occurs in `order`.
    pub open spec fn covers(self, order: Seq<usize>) -> bool {
        forall|x: usize| (x as int) < self.node_count() ==> #[trigger] order.contains(x)
    }

    /// Every import of every node in `order` occurs strictly earlier in
    /// `order`.
    spec fn deps_first(self, order: Seq<usize>) -> bool {
        forall|idx: int, b: int|
            0 <= idx < order.len() && #[trigger] self.edge(order[idx] as int, b)
                ==> exists|j: int| 0 <= j < idx && (#[trigger] order[j]) as int == b
    }

    /// The sort is stuck: every unemitted node still has an unemitted import.
    spec fn stuck(self, emitted: Seq<bool>) -> bool {
        forall|x: int|
            0 <= x < self.node_count()
                ==> ((#[trigger] emitted[x]) || exists|k: int|
                0 <= k < self.adj@[x]@.len()
                    && !emitted[(#[trigger] self.adj@[x]@[k]) as int])
    }

    /// `p` can be emitted next: unemitted, with all imports emitted.
    spec fn ready(self, emitted: Seq<bool>, p: usize) -> bool {
        &&& (p as int) < self.node_count()
        &&& !emitted[p as int]
        &&& forall|k: int|
            0 <= k < self.adj@[p as int]@.len()
                ==> emitted[(#[trigger] self.adj@[p as int]@[k]) as int]
    }

    /// `path` is a duplicate-free walk through unemitted nodes.
    spec fn path_ok(self, emitted: Seq<bool>, path: Seq<usize>) -> bool {
        &&& path.no_duplicates()
        &&& forall|i: int|
            0 <= i < path.len()
                ==> ((#[trigger] path[i]) as int) < self.node_count()
                    && !emitted[path[i] as int]
        &&& forall|i: int|
            0 <= i < path.len() - 1
                ==> self.edge((#[trigger] path[i]) as int, path[i + 1] as int)
    }

    /// A graph that admits a full topological order has no cycle.
    pub proof fn lemma_topo_order_acyclic(self, order: Seq<usize>)
        requires
            self.wf(),
            self.node_count() <= usize::MAX as int,
            self.is_topo_order(order),
            self.covers(order),
        ensures
            !self.has_cycle(),
    {
        if self.has_cycle() {
            let w = choose|w: Seq<int>| self.is_closed_walk(w);
            let m = w.len() - 1;
            self.lemma_walk_pos(order, w, m);
            self.lemma_edge_pos(order, w[m], w[0]);
            assert(false);
        }
    }

    /// Positions along a walk strictly decrease in a topological order.
    proof fn lemma_walk_pos(self, order: Seq<usize>, w: Seq<int>, k: int)
        requires
            self.wf(),
            self.node_count() <= usize::MAX as int,
            self.is_topo_order(order),
            self.covers(order),
            w.len() >= 1,
            forall|i: int| 0 <= i < w.len() - 1 ==> self.edge(#[trigger] w[i], w[i + 1]),
            0 <= k < w.len(),
        ensures
            pos_of(order, w[k]) <= pos_of(order, w[0]) - k,
        decreases k,
    {
        if k > 0 {
            self.lemma_walk_pos(order, w, k - 1);
            self.lemma_edge_pos(order, w[k - 1], w[k]);
        }
    }

    /// For an edge `a -> b`, `b` stands strictly before `a` in a topological
    /// order that covers the graph.
    proof fn lemma_edge_pos(self, order: Seq<usize>, a: int, b: int)
        requires
            self.wf(),
            self.node_count() <= usize::MAX as int,
            self.is_topo_order(order),
            self.covers(order),
            self.edge(a, b),
        ensures
            0 <= pos_of(order, a) < order.len(),
            0 <= pos_of(order, b) < order.len(),
            order[pos_of(order, a)] as int == a,
            order[pos_of(order, b)] as int == b,
            pos_of(order, b) < pos_of(order, a),
    {
        assert(0 <= a < self.node_count());
        let kw = choose|k: int|
            0 <= k < self.adj@[a]@.len() && (#[trigger] self.adj@[a]@[k]) as int == b;
        assert(0 <= b < self.node_count());
        assert(order.contains(a as usize));
        assert(order.contains(b as usize));
        let ia = choose|i: int| 0 <= i < order.len() && order[i] == a as usize;
        let ib = choose|i: int| 0 <= i < order.len() && order[i] == b as usize;
        assert(order[ia] as int == a);
        assert(order[ib] as int == b);
        assert(exists|i: int| 0 <= i < order.len() && order[i] as int == a);
        assert(exists|i: int| 0 <= i < order.len() && order[i] as int == b);
        let pa = pos_of(order, a);
        let pb = pos_of(order, b);
        assert(0 <= pa < order.len() && order[pa] as int == a);
        assert(0 <= pb < order.len() && order[pb] as int == b);
        if pa <= pb {
            assert(!self.edge(order[pa] as int, order[pb] as int));
            assert(false);
        }
    }

    /// Emitting a ready node preserves the sort's bookkeeping.
    proof fn lemma_emit_step(self, emitted0: Seq<bool>, order0: Seq<usize>, pick: usize)
        requires
            self.wf(),
            emitted0.len() == self.node_count(),
            order0.no_duplicates(),
            below(order0, self.node_count()),
            emitted_matches(emitted0, order0),
            self.deps_first(order0),
            self.ready(emitted0, pick),
        ensures
            order0.push(pick).no_duplicates(),
            below(order0.push(pick), self.node_count()),
            emitted_matches(emitted0.update(pick as int, true), order0.push(pick)),
            self.deps_first(order0.push(pick)),
    {
        let order1 = order0.push(pick);
        let emitted1 = emitted0.update(pick as int, true);
        assert(!(exists|j: int|
            0 <= j < order0.len() && (#[trigger] order0[j]) as int == pick as int));
        assert forall|i: int, j: int| 0 <= i < j < order1.len() implies order1[i] != order1[j] by {
            if j < order1.len() - 1 {
                assert(order0[i] == order1[i] && order0[j] == order1[j]);
            } else {
                assert(order1[j] == pick);
                if order1[i] == pick {
                    assert((order0[i]) as int == pick as int);
                    assert(false);
                }
            }
        }
        assert(order1.no_duplicates());
        assert forall|x: int| 0 <= x < emitted1.len() implies ((#[trigger] emitted1[x])
            <==> exists|j: int|
            0 <= j < order1.len() && (#[trigger] order1[j]) as int == x) by {
            if x == pick as int {
                assert(emitted1[x]);
                assert((order1[order1.len() - 1]) as int == x);
            } else {
                assert(emitted1[x] == emitted0[x]);
                if emitted0[x] {
                    let j = choose|j: int|
                        0 <= j < order0.len() && (#[trigger] order0[j]) as int == x;
                    assert((order1[j]) as int == x);
                }
                if exists|j: int| 0 <= j < order1.len() && (#[trigger] order1[j]) as int == x {
                    let j = choose|j: int|
                        0 <= j < order1.len() && (#[trigger] order1[j]) as int == x;
                    assert(j < order1.len() - 1);
                    assert((order0[j]) as int == x);
                    assert(emitted0[x]);
                }
            }
        }
        assert forall|idx: int, b: int|
            0 <= idx < order1.len() && #[trigger] self.edge(order1[idx] as int, b)
            implies exists|j: int| 0 <= j < idx && (#[trigger] order1[j]) as int == b by {
            if idx < order1.len() - 1 {
                assert(order1[idx] == order0[idx]);
                assert(self.edge(order0[idx] as int, b));
                let j = choose|j: int| 0 <= j < idx && (#[trigger] order0[j]) as int == b;
                assert(order1[j] == order0[j]);
                assert(exists|j: int| 0 <= j < idx && (#[trigger] order1[j]) as int == b);
            } else {
                assert(order1[idx] == pick);
                assert(self.edge(pick as int, b));
                let k = choose|k: int|
                    0 <= k < self.adj@[pick as int]@.len()
                        && (#[trigger] self.adj@[pick as int]@[k]) as int == b;
                assert(emitted0[b]);
                let j = choose|j: int|
                    0 <= j < order0.len() && (#[trigger] order0[j]) as int == b;
                assert(order1[j] == order0[j]);
                assert(exists|j: int| 0 <= j < idx && (#[trigger] order1[j]) as int == b);
            }
        }
        assert(self.deps_first(order1));
        assert(emitted_matches(emitted1, order1));
    }

    /// An order that lists every node with its imports first is topological.
    proof fn lemma_deps_first_topo(self, order: Seq<usize>)
        requires
            self.wf(),
            order.len() == self.node_count(),
            order.no_duplicates(),
            below(order, self.node_count()),
            self.deps_first(order),
        ensures
            self.is_topo_order(order),
    {
        assert forall|i: int, j: int| #![trigger order[i], order[j]]
            0 <= i <= j < order.len() implies !self.edge(order[i] as int, order[j] as int) by {
            if self.edge(order[i] as int, order[j] as int) {
                let jj = choose|jj: int|
                    0 <= jj < i && (#[trigger] order[jj]) as int == order[j] as int;
                assert(order[jj] == order[j]);
                assert(false);
            }
        }
    }

    /// Extending a stuck walk with a fresh unemitted import keeps it a walk,
    /// and it cannot already span the whole graph.
    proof fn lemma_path_step(self, emitted: Seq<bool>, path: Seq<usize>, v: usize)
        requires
            self.wf(),
            self.node_count() <= usize::MAX as int,
            emitted.len() == self.node_count(),
            path.len() >= 1,
            self.path_ok(emitted, path),
            (v as int) < self.node_count(),
            !emitted[v as int],
            self.edge(path[path.len() - 1] as int, v as int),
            forall|i: int| 0 <= i < path.len() ==> (#[trigger] path[i]) != v,
        ensures
            path.len() < self.node_count(),
            self.path_ok(emitted, path.push(v)),
    {
        lemma_distinct_bounded(path, self.node_count());
        if path.len() == self.node_count() {
            assert(path.contains(v));
            let i = choose|i: int| 0 <= i < path.len() && path[i] == v;
            assert(false);
        }
        let path1 = path.push(v);
        assert forall|i: int, j: int| 0 <= i < j < path1.len() implies path1[i] != path1[j] by {
            if j < path1.len() - 1 {
                assert(path[i] == path1[i] && path[j] == path1[j]);
            } else {
                assert(path1[j] == v);
                if path1[i] == v {
                    assert(path[i] == v);
                    assert(false);
                }
            }
        }
        assert(path1.no_duplicates());
        assert forall|i: int| 0 <= i < path1.len() - 1 implies self.edge(
            (#[trigger] path1[i]) as int,
            path1[i + 1] as int,
        ) by {
            if i < path.len() - 1 {
                assert(path1[i] == path[i] && path1[i + 1] == path[i + 1]);
            } else {
                assert(path1[i] == path[path.len() - 1] && path1[i + 1] == v);
            }
        }
    }

    /// Topologically sort the graph, dependencies first. On failure, return
    /// one concrete import cycle of distinct nodes.
    pub fn toposort(&self) -> (r: Result<Vec<usize>, Vec<usize>>)
        requires
            self.wf(),
        ensures
            match r {
                Ok(order) => {
                    &&& self.is_topo_order(order@)
                    &&& self.covers(order@)
                    &&& !self.has_cycle()
                },
                Err(cycle) => {
                    &&& cycle@.len() >= 1
                    &&& cycle@.no_duplicates()
                    &&& self.is_closed_walk(cycle@.map_values(|u: usize| u as int))
                    &&& self.has_cycle()
                },
            },
    {
        let n = self.adj.len();
        let mut emitted: Vec<bool> = Vec::new();
        while emitted.len() < n
            invariant
                emitted@.len() <= n as int,
                forall|i: int| 0 <= i < emitted@.len() ==> !(#[trigger] emitted@[i]),
            decreases n as int - emitted@.len(),
        {
            emitted.push(false);
        }
        let mut order: Vec<usize> = Vec::new();
        while order.len() < n
            invariant
                self.wf(),
                n as int == self.node_count(),
                emitted@.len() == n as int,
                order@.no_duplicates(),
                order@.len() <= n as int,
                below(order@, n as int),
                emitted_matches(emitted@, order@),
                self.deps_first(order@),
            decreases n as int - order@.len(),
        {
            match self.find_ready(&emitted) {
                Some(pick) => {
                    let ghost order0 = order@;
                    let ghost emitted0 = emitted@;
                    proof {
                        self.lemma_emit_step(emitted0, order0, pick);
                    }
                    emitted[pick] = true;
                    order.push(pick);
                    proof {
                        assert(emitted@ =~= emitted0.update(pick as int, true));
                        assert(order@ =~= order0.push(pick));
                    }
                }
                None => {
                    proof {
                        lemma_distinct_bounded(order@, n as int);
                        let miss = choose|x: usize|
                            (x as int) < n as int && !(#[trigger] order@.contains(x));
                        if emitted@[miss as int] {
                            let j = choose|j: int|
                                0 <= j < order@.len() && (#[trigger] order@[j]) as int
                                    == miss as int;
                            assert(order@[j] == miss);
                            assert(order@.contains(miss));
                            assert(false);
                        }
                        assert(0 <= (miss as int) < self.node_count() && !emitted@[miss as int]);
                    }
                    let cycle = self.extract_cycle(&emitted);
                    proof {
                        let w = cycle@.map_values(|u: usize| u as int);
                        assert(self.is_closed_walk(w));
                    }
                    return Err(cycle);
                }
            }
        }
        proof {
            self.lemma_deps_first_topo(order@);
            lemma_distinct_bounded(order@, n as int);
            assert(self.covers(order@));
            self.lemma_topo_order_acyclic(order@);
        }
        Ok(order)
    }

    /// Scan for a node that is not yet emitted and whose imports are all
    /// emitted.
    fn find_ready(&self, emitted: &Vec<bool>) -> (r: Option<usize>)
        requires
            self.wf(),
            emitted@.len() == self.node_count(),
        ensures
            match r {
                Some(p) => self.ready(emitted@, p),
                None => self.stuck(emitted@),
            },
    {
        let n = self.adj.len();
        let mut i: usize = 0;
        while i < n
            invariant
                self.wf(),
                n as int == self.node_count(),
                emitted@.len() == n as int,
                (i as int) <= (n as int),
                forall|x: int|
                    0 <= x < i as int
                        ==> ((#[trigger] emitted@[x]) || exists|k: int|
                        0 <= k < self.adj@[x]@.len()
                            && !emitted@[(#[trigger] self.adj@[x]@[k]) as int]),
            decreases n as int - i as int,
        {
            if !emitted[i] && self.succs_emitted(i, emitted) {
                return Some(i);
            }
            i = i + 1;
        }
        None
    }

    /// Are all imports of `u` already emitted?
    fn succs_emitted(&self, u: usize, emitted: &Vec<bool>) -> (r: bool)
        requires
            self.wf(),
            (u as int) < self.node_count(),
            emitted@.len() == self.node_count(),
        ensures
            r <==> forall|k: int|
                0 <= k < self.adj@[u as int]@.len()
                    ==> emitted@[(#[trigger] self.adj@[u as int]@[k]) as int],
    {
        let row_len = self.adj[u].len();
        let mut k: usize = 0;
        while k < row_len
            invariant
                self.wf(),
                (u as int) < self.node_count(),
                emitted@.len() == self.node_count(),
                row_len as int == self.adj@[u as int]@.len(),
                (k as int) <= (row_len as int),
                forall|kk: int|
                    0 <= kk < k as int
                        ==> emitted@[(#[trigger] self.adj@[u as int]@[kk]) as int],
            decreases row_len as int - k as int,
        {
            let v = self.adj[u][k];
            if !emitted[v] {
                return false;
            }
            k = k + 1;
        }
        true
    }

    /// Walk unemitted nodes along unemitted imports until a node repeats:
    /// the repeated stretch is a concrete import cycle. Callable exactly when
    /// the sort is stuck, that is when every unemitted node still has an
    /// unemitted import.
    #[verifier::rlimit(100)]
    fn extract_cycle(&self, emitted: &Vec<bool>) -> (c: Vec<usize>)
        requires
            self.wf(),
            emitted@.len() == self.node_count(),
            exists|x: int| 0 <= x < self.node_count() && !(#[trigger] emitted@[x]),
            self.stuck(emitted@),
        ensures
            c@.len() >= 1,
            c@.no_duplicates(),
            self.is_closed_walk(c@.map_values(|u: usize| u as int)),
    {
        let n = self.adj.len();
        let start = find_unemitted(emitted);
        let mut path: Vec<usize> = Vec::new();
        path.push(start);
        loop
            invariant
                self.wf(),
                n as int == self.node_count(),
                emitted@.len() == self.node_count(),
                self.stuck(emitted@),
                path@.len() >= 1,
                self.path_ok(emitted@, path@),
            decreases self.node_count() - path@.len(),
        {
            let u = path[path.len() - 1];
            let v = self.find_unemitted_succ(u, emitted);
            match index_of_val(&path, v) {
                Some(p) => {
                    let c = self.copy_cycle(&path, p);
                    return c;
                }
                None => {
                    proof {
                        self.lemma_path_step(emitted@, path@, v);
                    }
                    path.push(v);
                }
            }
        }
    }

    /// Copy the stretch `path[p..]` of a walk whose last node imports
    /// `path[p]`: the stretch is a closed walk of distinct nodes.
    fn copy_cycle(&self, path: &Vec<usize>, p: usize) -> (c: Vec<usize>)
        requires
            self.wf(),
            (p as int) < path@.len(),
            path@.no_duplicates(),
            forall|i: int|
                0 <= i < path@.len() - 1
                    ==> self.edge((#[trigger] path@[i]) as int, path@[i + 1] as int),
            self.edge(path@[path@.len() - 1] as int, path@[p as int] as int),
        ensures
            c@.len() >= 1,
            c@.no_duplicates(),
            self.is_closed_walk(c@.map_values(|u: usize| u as int)),
    {
        let mut c: Vec<usize> = Vec::new();
        let mut j: usize = p;
        while j < path.len()
            invariant
                (p as int) <= (j as int) <= path@.len(),
                c@ == path@.subrange(p as int, j as int),
            decreases path@.len() - j as int,
        {
            let e = path[j];
            c.push(e);
            j = j + 1;
            proof {
                assert(c@ =~= path@.subrange(p as int, j as int));
            }
        }
        proof {
            assert(c@ == path@.subrange(p as int, path@.len() as int));
            assert forall|i: int, jj: int| 0 <= i < jj < c@.len() implies c@[i] != c@[jj] by {
                assert(c@[i] == path@[p + i]);
                assert(c@[jj] == path@[p + jj]);
            }
            assert(c@.no_duplicates());
            let w = c@.map_values(|x: usize| x as int);
            assert forall|i: int| 0 <= i < w.len() - 1 implies self.edge(
                #[trigger] w[i],
                w[i + 1],
            ) by {
                assert(c@[i] == path@[p + i]);
                assert(c@[i + 1] == path@[p + i + 1]);
            }
            assert(c@[c@.len() - 1] == path@[path@.len() - 1]);
            assert(c@[0] == path@[p as int]);
            assert(self.edge(w[w.len() - 1], w[0]));
            assert(self.is_closed_walk(w));
        }
        c
    }

    /// Find an unemitted import of the unemitted node `u`; the stuck sort
    /// guarantees one exists.
    fn find_unemitted_succ(&self, u: usize, emitted: &Vec<bool>) -> (v: usize)
        requires
            self.wf(),
            (u as int) < self.node_count(),
            emitted@.len() == self.node_count(),
            !emitted@[u as int],
            self.stuck(emitted@),
        ensures
            (v as int) < self.node_count(),
            !emitted@[v as int],
            self.edge(u as int, v as int),
    {
        let row_len = self.adj[u].len();
        let mut k: usize = 0;
        while k < row_len
            invariant
                self.wf(),
                (u as int) < self.node_count(),
                emitted@.len() == self.node_count(),
                !emitted@[u as int],
                exists|kk: int|
                    0 <= kk < self.adj@[u as int]@.len()
                        && !emitted@[(#[trigger] self.adj@[u as int]@[kk]) as int],
                row_len as int == self.adj@[u as int]@.len(),
                (k as int) <= (row_len as int),
                forall|kk: int|
                    0 <= kk < k as int
                        ==> emitted@[(#[trigger] self.adj@[u as int]@[kk]) as int],
            decreases row_len as int - k as int,
        {
            let v = self.adj[u][k];
            if !emitted[v] {
                proof {
                    assert(0 <= (k as int) < self.adj@[u as int]@.len()
                        && self.adj@[u as int]@[k as int] as int == v as int);
                }
                return v;
            }
            k = k + 1;
        }
        proof {
            assert(false);
        }
        0
    }
}

/// First index in `emitted` holding `false`; one is required to exist.
fn find_unemitted(emitted: &Vec<bool>) -> (x: usize)
    requires
        exists|i: int| 0 <= i < emitted@.len() && !(#[trigger] emitted@[i]),
    ensures
        (x as int) < emitted@.len(),
        !emitted@[x as int],
{
    let mut i: usize = 0;
    while i < emitted.len()
        invariant
            (i as int) <= emitted@.len(),
            exists|j: int| 0 <= j < emitted@.len() && !(#[trigger] emitted@[j]),
            forall|j: int| 0 <= j < i as int ==> #[trigger] emitted@[j],
        decreases emitted@.len() - i as int,
    {
        if !emitted[i] {
            return i;
        }
        i = i + 1;
    }
    proof {
        assert(false);
    }
    0
}

/// First position of `v` in `path`, if any.
fn index_of_val(path: &Vec<usize>, v: usize) -> (r: Option<usize>)
    ensures
        match r {
            Some(p) => (p as int) < path@.len() && path@[p as int] == v,
            None => forall|i: int| 0 <= i < path@.len() ==> (#[trigger] path@[i]) != v,
        },
{
    let mut i: usize = 0;
    while i < path.len()
        invariant
            (i as int) <= path@.len(),
            forall|j: int| 0 <= j < i as int ==> (#[trigger] path@[j]) != v,
        decreases path@.len() - i as int,
    {
        if path[i] == v {
            return Some(i);
        }
        i = i + 1;
    }
    None
}

/// Position of the node `x` in `order`.
spec fn pos_of(order: Seq<usize>, x: int) -> int {
    choose|i: int| 0 <= i < order.len() && (#[trigger] order[i]) as int == x
}

/// A duplicate-free sequence of values below `n` has at most `n` entries;
/// with exactly `n` it mentions every value below `n`, with fewer it misses
/// one.
proof fn lemma_distinct_bounded(s: Seq<usize>, n: int)
    requires
        s.no_duplicates(),
        forall|i: int| 0 <= i < s.len() ==> ((#[trigger] s[i]) as int) < n,
        0 <= n <= usize::MAX as int,
    ensures
        s.len() <= n,
        s.len() == n ==> forall|x: usize| (x as int) < n ==> #[trigger] s.contains(x),
        s.len() < n ==> exists|x: usize| (x as int) < n && !(#[trigger] s.contains(x)),
{
    broadcast use vstd::set::group_set_axioms;

    let f = |u: usize| u as int;
    let t = s.map_values(f);
    assert(vstd::relations::injective(f)) by {
        assert forall|a: usize, b: usize| #[trigger] f(a) == #[trigger] f(b) implies a == b by {}
    }
    s.lemma_no_duplicates_injective(f);
    t.unique_seq_to_set();
    lemma_int_range(0, n);
    assert(t.to_set().subset_of(set_int_range(0, n))) by {
        assert forall|x: int| t.to_set().contains(x) implies set_int_range(0, n).contains(x) by {
            let i = choose|i: int| 0 <= i < t.len() && t[i] == x;
            assert(s[i] as int == x);
        }
    }
    lemma_len_subset(t.to_set(), set_int_range(0, n));
    if s.len() == n {
        assert forall|x: usize| (x as int) < n implies #[trigger] s.contains(x) by {
            if !t.to_set().contains(x as int) {
                assert(t.to_set().subset_of(set_int_range(0, n).remove(x as int)));
                lemma_len_subset(t.to_set(), set_int_range(0, n).remove(x as int));
                assert(false);
            }
            let i = choose|i: int| 0 <= i < t.len() && t[i] == x as int;
            assert(s[i] == x);
        }
    }
    if s.len() < n {
        if forall|x: int| #![trigger t.to_set().contains(x)] 0 <= x < n ==> t.to_set().contains(x) {
            assert(set_int_range(0, n).subset_of(t.to_set())) by {
                assert forall|x: int| set_int_range(0, n).contains(x) implies t.to_set().contains(
                    x,
                ) by {
                    assert(t.to_set().contains(x));
                }
            }
            lemma_len_subset(set_int_range(0, n), t.to_set());
            assert(false);
        } else {
            let x = choose|x: int|
                #![trigger t.to_set().contains(x)]
                !(0 <= x < n ==> t.to_set().contains(x));
            assert(0 <= x < n && !t.to_set().contains(x));
            let xu = x as usize;
            if s.contains(xu) {
                let i = choose|i: int| 0 <= i < s.len() && s[i] == xu;
                assert(t[i] == x);
                assert(t.contains(x));
                assert(false);
            }
            assert((xu as int) < n && !s.contains(xu));
        }
    }
}

} // verus!
