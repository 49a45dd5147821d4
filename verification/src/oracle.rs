//! The Hamiltonicity oracle: an exact backtracking search that either
//! extracts a concrete Hamiltonian cycle or shows that none exists.
//!
//! A Hamiltonian cycle is kept in the form that starts and ends at node
//! 0; every Hamiltonian cycle can be rotated into that form, so the
//! anchored form loses no graph.

use vstd::prelude::*;

use crate::graph::Graph;

verus! {

/// Node `v` appears among the first `n` entries of `c`.
pub open spec fn appears(c: Seq<usize>, n: int, v: int) -> bool {
    exists|k: int| 0 <= k < n && ((#[trigger] c[k]) as int) == v
}

/// `c` is a Hamiltonian cycle of `g`: it has `node_count + 1` entries,
/// starts and ends at node 0, visits every node exactly once before
/// closing, and every consecutive pair is joined by a present edge.
pub open spec fn is_ham_cycle(g: Graph, c: Seq<usize>) -> bool {
    let n = g.node_count as int;
    &&& c.len() == n + 1
    &&& c[0] == 0
    &&& c[n] == 0
    &&& forall|k: int| 0 <= k < n ==> ((#[trigger] c[k]) as int) < n
    &&& forall|k1: int, k2: int| 0 <= k1 < k2 < n ==> c[k1] != c[k2]
    &&& forall|v: int| 0 <= v < n ==> #[trigger] appears(c, n, v)
    &&& forall|k: int| #![trigger c[k]] 0 <= k < n ==> g.edge(c[k] as int, c[k + 1] as int)
}

/// The graph contains a Hamiltonian cycle.
pub open spec fn has_ham_cycle(g: Graph) -> bool {
    exists|c: Seq<usize>| is_ham_cycle(g, c)
}

/// `path` is a simple path of `g` that a search may still extend: its
/// nodes are distinct and in range, it starts at node 0 when it is not
/// empty, and consecutive nodes are joined by present edges.
pub open spec fn valid_path_seq(g: Graph, path: Seq<usize>) -> bool {
    let n = g.node_count as int;
    &&& path.len() <= n
    &&& forall|k: int| 0 <= k < path.len() ==> ((#[trigger] path[k]) as int) < n
    &&& forall|k1: int, k2: int| 0 <= k1 < k2 < path.len() ==> path[k1] != path[k2]
    &&& path.len() > 0 ==> path[0] == 0
    &&& forall|k: int| #![trigger path[k]] 0 <= k < path.len() - 1 ==> g.edge(
        path[k] as int,
        path[k + 1] as int,
    )
}

/// The state of one search step: the path walked so far, and the node
/// the search stands on (not yet appended to the path).
pub open spec fn valid_partial(g: Graph, path: Seq<usize>, current: usize) -> bool {
    &&& valid_path_seq(g, path)
    &&& (current as int) < g.node_count
    &&& path.len() == 0 ==> current == 0
    &&& path.len() > 0 ==> g.edge(path.last() as int, current as int)
}

/// What the backtracking search returns from the state `(path,
/// current)`: the finished cycle on success, the empty sequence on
/// failure. Neighbors are explored in increasing node order, so the
/// result is a function of the graph alone.
pub open spec fn search_result(g: Graph, path: Seq<usize>, current: usize) -> Seq<usize>
    decreases g.node_count + 1 - path.len(), 0int,
{
    if path.len() > g.node_count {
        Seq::empty()
    } else if current == 0 && path.len() == g.node_count {
        path.push(0)
    } else if path.contains(current) {
        Seq::empty()
    } else if path.len() == g.node_count {
        Seq::empty()
    } else {
        search_scan(g, path.push(current), current, 0)
    }
}

/// The scan over candidate successors of `current`, from node `next`
/// upward; `path` already ends with `current`.
pub open spec fn search_scan(g: Graph, path: Seq<usize>, current: usize, next: int) -> Seq<usize>
    decreases g.node_count + 1 - path.len(), g.node_count - next,
{
    if path.len() > g.node_count || next < 0 || next >= g.node_count {
        Seq::empty()
    } else if g.edge(current as int, next) && search_result(g, path, next as usize).len() != 0 {
        search_result(g, path, next as usize)
    } else {
        search_scan(g, path, current, next + 1)
    }
}

/// The cycle the oracle reports for `g`: a concrete Hamiltonian cycle,
/// or the empty sequence when `g` has none.
pub open spec fn cycle_witness(g: Graph) -> Seq<usize> {
    search_result(g, Seq::empty(), 0)
}

/// Consecutive entries `k` and `k + 1` of `c` are joined by an edge.
pub open spec fn g_edge_step(g: Graph, c: Seq<usize>, k: int) -> bool {
    g.edge(c[k] as int, c[k + 1] as int)
}

/// A sequence of `n` distinct values below `n` hits every value below
/// `n`.
pub proof fn lemma_distinct_covers(c: Seq<usize>, n: int)
    requires
        c.len() == n,
        forall|k: int| 0 <= k < n ==> ((#[trigger] c[k]) as int) < n,
        forall|k1: int, k2: int| 0 <= k1 < k2 < n ==> c[k1] != c[k2],
    ensures
        forall|v: int| 0 <= v < n ==> #[trigger] appears(c, n, v),
{
    broadcast use vstd::set::group_set_axioms, vstd::seq_lib::group_seq_properties;

    let ci = Seq::new(n as nat, |k: int| c[k] as int);
    assert(ci.no_duplicates());
    ci.unique_seq_to_set();
    vstd::set_lib::lemma_int_range(0, n);
    assert forall|v: int| 0 <= v < n implies #[trigger] appears(c, n, v) by {
        if !ci.to_set().contains(v) {
            let shrunk = vstd::set_lib::set_int_range(0, n).remove(v);
            assert(ci.to_set().subset_of(shrunk));
            vstd::set_lib::lemma_len_subset(ci.to_set(), shrunk);
            assert(false);
        }
        let k = choose|k: int| 0 <= k < ci.len() && ci[k] == v;
        assert(0 <= k < n && (c[k] as int) == v);
    }
}

/// A complete graph on at least three nodes is Hamiltonian: walking
/// the nodes in increasing order and closing back to node 0 is a
/// Hamiltonian cycle.
pub proof fn lemma_complete_has_cycle(g: Graph)
    requires
        g.wf(),
        forall|i: int, j: int|
            0 <= i < g.node_count && 0 <= j < g.node_count && i != j ==> #[trigger] g.edge(i, j),
    ensures
        has_ham_cycle(g),
{
    let n = g.node_count as int;
    let c = Seq::new((n + 1) as nat, |k: int| if k == n { 0usize } else { k as usize });
    assert(c[0] == 0);
    assert(c[n] == 0);
    assert forall|v: int| 0 <= v < n implies #[trigger] appears(c, n, v) by {
        assert((c[v] as int) == v);
    }
    assert forall|k: int| #![trigger c[k]] 0 <= k < n implies g.edge(c[k] as int, c[k + 1] as int) by {
        assert((c[k] as int) == k);
        if k + 1 == n {
            assert(c[k + 1] == 0);
        } else {
            assert((c[k + 1] as int) == k + 1);
        }
    }
    assert(is_ham_cycle(g, c));
}

/// Completeness of the search: a graph that holds a Hamiltonian cycle
/// makes the search from the start state succeed.
pub proof fn lemma_search_complete(g: Graph, c: Seq<usize>)
    requires
        g.wf(),
        is_ham_cycle(g, c),
    ensures
        cycle_witness(g).len() != 0,
{
    lemma_search_complete_from(g, c, 0);
    assert(c.take(0) =~= Seq::<usize>::empty());
    assert(c[0] == 0);
}

/// The search succeeds from every state along the given cycle: walking
/// the first `k` nodes of `c` and standing on `c[k]`, a cycle is still
/// found.
proof fn lemma_search_complete_from(g: Graph, c: Seq<usize>, k: int)
    requires
        g.wf(),
        is_ham_cycle(g, c),
        0 <= k <= g.node_count,
    ensures
        search_result(g, c.take(k), c[k]).len() != 0,
    decreases g.node_count - k,
{
    let n = g.node_count as int;
    let path = c.take(k);
    if k == n {
        assert(c[k] == 0);
        assert(search_result(g, path, c[k]) == path.push(0));
    } else {
        lemma_search_complete_from(g, c, k + 1);
        if path.contains(c[k]) {
            let j = choose|j: int| 0 <= j < path.len() && path[j] == c[k];
            assert(c[j] == c[k]);
            assert(false);
        }
        assert(path.push(c[k]) =~= c.take(k + 1));
        let m = c[k + 1];
        assert((m as int) < n) by {
            if k + 1 < n {
                assert(((c[k + 1]) as int) < n);
            } else {
                assert(c[n] == 0);
            }
        }
        assert(g.edge(c[k] as int, m as int));
        lemma_search_scan_finds(g, c.take(k + 1), c[k], 0, m as int);
    }
}

/// If some admissible successor at or past `next` leads the search to a
/// cycle, the scan starting at `next` returns a cycle.
proof fn lemma_search_scan_finds(g: Graph, path: Seq<usize>, current: usize, next: int, m: int)
    requires
        g.wf(),
        0 <= next <= m < g.node_count,
        g.edge(current as int, m),
        search_result(g, path, m as usize).len() != 0,
    ensures
        search_scan(g, path, current, next).len() != 0,
    decreases m - next,
{
    assert(path.len() <= g.node_count);
    if next < m {
        lemma_search_scan_finds(g, path, current, next + 1, m);
    }
}

/// `v` holds `x` somewhere.
fn vec_contains(v: &Vec<usize>, x: usize) -> (r: bool)
    ensures
        r == v@.contains(x),
{
    let n = v.len();
    for k in 0..n
        invariant
            n == v@.len(),
            forall|i: int| 0 <= i < k ==> v@[i] != x,
    {
        if v[k] == x {
            return true;
        }
    }
    false
}

/// A fresh vector with the same contents.
fn copy_vec(v: &Vec<usize>) -> (r: Vec<usize>)
    ensures
        r@ == v@,
{
    let n = v.len();
    let mut r: Vec<usize> = Vec::new();
    for k in 0..n
        invariant
            n == v@.len(),
            r@ == v@.take(k as int),
    {
        r.push(v[k]);
        proof {
            assert(r@ =~= v@.take(k as int + 1));
        }
    }
    proof {
        assert(v@.take(n as int) =~= v@);
    }
    r
}

impl Graph {
    /// One step of the backtracking search: extends `path` through
    /// `current`, exploring successors in increasing node order.
    /// Returns the finished cycle, or an empty vector if no Hamiltonian
    /// cycle passes through this state.
    #[verifier::loop_isolation(false)]
    fn ham_path(&self, path: Vec<usize>, current: usize) -> (r: Vec<usize>)
        requires
            self.wf(),
            valid_partial(*self, path@, current),
        ensures
            r@ == search_result(*self, path@, current),
            r@.len() != 0 ==> is_ham_cycle(*self, r@) && path@.is_prefix_of(r@),
        decreases self.node_count + 1 - path@.len(),
    {
        let n = self.node_count;
        if current == 0 && path.len() == n {
            let mut r = path;
            let ghost p = r@;
            r.push(0);
            proof {
                let ni = n as int;
                lemma_distinct_covers(p, ni);
                assert forall|v: int| 0 <= v < ni implies #[trigger] appears(r@, ni, v) by {
                    assert(appears(p, ni, v));
                    let k = choose|k: int| 0 <= k < ni && ((p[k]) as int) == v;
                    assert(((r@[k]) as int) == v);
                }
                assert(r@[0] == 0);
                assert forall|k: int| 0 <= k < ni implies g_edge_step(*self, r@, k) by {
                    if k < ni - 1 {
                        assert(self.edge(p[k] as int, p[k + 1] as int));
                    } else {
                        assert(self.edge(p.last() as int, current as int));
                    }
                }
                assert(is_ham_cycle(*self, r@));
            }
            return r;
        }
        if vec_contains(&path, current) {
            return Vec::new();
        }
        if path.len() == n {
            return Vec::new();
        }
        let ghost entry_path = path@;
        let mut path2 = path;
        path2.push(current);
        let ghost base = path2@;
        proof {
            assert(valid_path_seq(*self, base));
            assert(entry_path.is_prefix_of(base));
        }
        let mut next: usize = 0;
        while next < n
            invariant
                self.wf(),
                n == self.node_count,
                (current as int) < n as int,
                next <= n,
                path2@ == base,
                base == entry_path.push(current),
                base.last() == current,
                valid_path_seq(*self, base),
                base.len() <= n,
                entry_path.is_prefix_of(base),
                search_scan(*self, base, current, next as int) == search_result(
                    *self,
                    entry_path,
                    current,
                ),
            decreases n - next,
        {
            if self.has_edge(current, next) {
                let branch = copy_vec(&path2);
                let r = self.ham_path(branch, next);
                if r.len() > 0 {
                    proof {
                        assert(search_scan(*self, base, current, next as int) == r@);
                        assert(entry_path.is_prefix_of(r@));
                    }
                    return r;
                }
            }
            next = next + 1;
        }
        Vec::new()
    }

    /// Extracts a Hamiltonian cycle of the graph, as the node sequence
    /// `0, ..., 0` of length `node_count + 1`, or returns an empty
    /// vector exactly when the graph has no Hamiltonian cycle. The
    /// search explores neighbors in increasing node order, so the
    /// returned cycle is a function of the graph alone: two calls on
    /// the same graph return the same vector.
    pub fn get_cycle(&self) -> (r: Vec<usize>)
        requires
            self.wf(),
        ensures
            r@ == cycle_witness(*self),
            r@.len() != 0 ==> is_ham_cycle(*self, r@),
            r@.len() != 0 <==> has_ham_cycle(*self),
    {
        let start: Vec<usize> = Vec::new();
        let r = self.ham_path(start, 0);
        proof {
            if r@.len() != 0 {
                assert(has_ham_cycle(*self));
            } else if has_ham_cycle(*self) {
                let c = choose|c: Seq<usize>| is_ham_cycle(*self, c);
                lemma_search_complete(*self, c);
                assert(false);
            }
        }
        r
    }

    /// Decides whether the graph contains a Hamiltonian cycle. The
    /// result is a function of the graph alone: two calls on the same
    /// graph return the same boolean.
    pub fn is_hamiltonian(&self) -> (r: bool)
        requires
            self.wf(),
        ensures
            r == has_ham_cycle(*self),
    {
        let cycle = self.get_cycle();
        cycle.len() > 0
    }
}

} // verus!
