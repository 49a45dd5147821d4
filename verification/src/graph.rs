//! The graph data entity: an undirected simple graph on a fixed node set,
//! stored as a symmetric boolean adjacency matrix with no self-loops.

use vstd::prelude::*;

verus! {

/// Why a `node_count` / `target_edge_count` configuration is invalid.
#[derive(Clone, Copy, PartialEq, Eq, Structural, Debug)]
pub enum ConfigError {
    /// Fewer than three nodes: no such graph can be Hamiltonian.
    TooFewNodes,
    /// Fewer target edges than nodes: a Hamiltonian cycle alone needs
    /// one edge per node.
    TooFewEdges,
    /// More target edges than the complete graph can hold.
    TooManyEdges,
}

/// A valid configuration: at least three nodes, and a target edge count
/// between `node_count` (a Hamiltonian cycle needs that many edges) and
/// `node_count * (node_count - 1) / 2` (the complete graph).
pub open spec fn valid_config(node_count: int, target_edge_count: int) -> bool {
    &&& 3 <= node_count
    &&& node_count <= target_edge_count
    &&& target_edge_count * 2 <= node_count * (node_count - 1)
}

/// The error that an invalid configuration is rejected with; the checks
/// are made in this order.
pub open spec fn config_error_for(node_count: int, target_edge_count: int) -> ConfigError {
    if node_count < 3 {
        ConfigError::TooFewNodes
    } else if target_edge_count < node_count {
        ConfigError::TooFewEdges
    } else {
        ConfigError::TooManyEdges
    }
}

/// Number of `true` entries of `row` in the index range `[lo, hi)`.
pub open spec fn count_true_in(row: Seq<bool>, lo: int, hi: int) -> nat
    decreases hi - lo,
{
    if hi <= lo {
        0
    } else {
        count_true_in(row, lo, hi - 1) + (if row[hi - 1] {
            1nat
        } else {
            0nat
        })
    }
}

/// How a single edge write changes a count: `was` is the entry before,
/// `now` the entry after.
pub open spec fn toggle_delta(was: bool, now: bool) -> int {
    if was == now {
        0
    } else if now {
        1
    } else {
        -1
    }
}

/// An undirected simple graph on nodes `0 .. node_count`, together with
/// the edge budget the generator must meet.
#[derive(Debug)]
pub struct Graph {
    pub node_count: usize,
    pub target_edge_count: usize,
    pub adjacency: Vec<Vec<bool>>,
}

impl Graph {
    /// Row `i` of the adjacency matrix, as a sequence.
    pub open spec fn row(self, i: int) -> Seq<bool> {
        self.adjacency@[i]@
    }

    /// Whether the edge `{i, j}` is present.
    pub open spec fn edge(self, i: int, j: int) -> bool {
        self.row(i)[j]
    }

    /// Number of present edges incident to node `i`.
    pub open spec fn degree_of(self, i: int) -> nat {
        count_true_in(self.row(i), 0, self.node_count as int)
    }

    /// Present edges `{a, b}` with `a < b` and `a < k`.
    pub open spec fn upper_count_upto(self, k: int) -> nat
        decreases k,
    {
        if k <= 0 {
            0
        } else {
            self.upper_count_upto(k - 1) + count_true_in(
                self.row(k - 1),
                k,
                self.node_count as int,
            )
        }
    }

    /// Total number of present edges: each unordered pair counted once.
    pub open spec fn edge_count_of(self) -> nat {
        self.upper_count_upto(self.node_count as int)
    }

    /// Structural invariant: a valid configuration, a square matrix of
    /// the right size, no self-loops, and symmetry. The bound on
    /// `node_count * node_count` keeps all pair counts within `usize`.
    pub open spec fn wf(self) -> bool {
        &&& valid_config(self.node_count as int, self.target_edge_count as int)
        &&& (self.node_count as int) * (self.node_count as int) <= usize::MAX as int
        &&& self.adjacency@.len() == self.node_count
        &&& forall|i: int|
            0 <= i < self.node_count ==> (#[trigger] self.adjacency@[i])@.len() == self.node_count
        &&& forall|i: int| 0 <= i < self.node_count ==> !(#[trigger] self.edge(i, i))
        &&& forall|i: int, j: int|
            0 <= i < self.node_count && 0 <= j < self.node_count ==> #[trigger] self.edge(i, j)
                == self.edge(j, i)
    }

    /// The graph has the same dimensions as `other` and every edge of
    /// `other` is still present (edges were only added).
    pub open spec fn extends(self, other: Graph) -> bool {
        &&& self.node_count == other.node_count
        &&& self.target_edge_count == other.target_edge_count
        &&& forall|i: int, j: int|
            0 <= i < self.node_count && 0 <= j < self.node_count && other.edge(i, j)
                ==> #[trigger] self.edge(i, j)
    }

    /// Validates a configuration, in the order of `config_error_for`.
    pub fn validate_config(node_count: usize, target_edge_count: usize) -> (r: Result<
        (),
        ConfigError,
    >)
        ensures
            r is Ok <==> valid_config(node_count as int, target_edge_count as int),
            r matches Err(e) ==> e == config_error_for(
                node_count as int,
                target_edge_count as int,
            ),
    {
        if node_count < 3 {
            Err(ConfigError::TooFewNodes)
        } else if target_edge_count < node_count {
            Err(ConfigError::TooFewEdges)
        } else {
            proof {
                let nc = node_count as u128;
                assert(nc * (nc - 1) <= u128::MAX) by (nonlinear_arith)
                    requires
                        1 <= nc <= u64::MAX as u128,
                ;
            }
            if (target_edge_count as u128) * 2 > (node_count as u128) * ((node_count as u128) - 1) {
                Err(ConfigError::TooManyEdges)
            } else {
                Ok(())
            }
        }
    }

    /// Creates a graph with every edge absent, or rejects an invalid
    /// configuration.
    pub fn new(node_count: usize, target_edge_count: usize) -> (r: Result<Graph, ConfigError>)
        requires
            (node_count as int) * (node_count as int) <= usize::MAX as int,
        ensures
            r is Ok <==> valid_config(node_count as int, target_edge_count as int),
            r matches Ok(g) ==> g.wf() && g.node_count == node_count && g.target_edge_count
                == target_edge_count && forall|i: int, j: int|
                0 <= i < node_count && 0 <= j < node_count ==> !(#[trigger] g.edge(i, j)),
            r matches Err(e) ==> e == config_error_for(
                node_count as int,
                target_edge_count as int,
            ),
    {
        match Self::validate_config(node_count, target_edge_count) {
            Err(e) => Err(e),
            Ok(()) => {
                let adjacency = empty_matrix(node_count);
                Ok(Graph { node_count, target_edge_count, adjacency })
            },
        }
    }

    /// Removes every edge, keeping the configuration.
    pub fn clear_edges(&mut self)
        requires
            old(self).wf(),
        ensures
            final(self).wf(),
            final(self).node_count == old(self).node_count,
            final(self).target_edge_count == old(self).target_edge_count,
            forall|i: int, j: int|
                0 <= i < final(self).node_count && 0 <= j < final(self).node_count ==> !(
                #[trigger] final(self).edge(i, j)),
    {
        self.adjacency = empty_matrix(self.node_count);
    }

    /// Whether the edge `{i, j}` is present.
    pub fn has_edge(&self, i: usize, j: usize) -> (r: bool)
        requires
            self.wf(),
            i < self.node_count,
            j < self.node_count,
        ensures
            r == self.edge(i as int, j as int),
    {
        self.adjacency[i][j]
    }

    /// The one mutation primitive: writes both halves of the symmetric
    /// matrix at once, so symmetry and the no-self-loop rule survive
    /// every write.
    pub fn set_edge(&mut self, i: usize, j: usize, present: bool)
        requires
            old(self).wf(),
            i < old(self).node_count,
            j < old(self).node_count,
            i != j,
        ensures
            final(self).wf(),
            final(self).node_count == old(self).node_count,
            final(self).target_edge_count == old(self).target_edge_count,
            forall|a: int, b: int|
                0 <= a < final(self).node_count && 0 <= b < final(self).node_count
                    ==> #[trigger] final(self).edge(a, b) == (if (a == i && b == j) || (a == j && b
                    == i) {
                    present
                } else {
                    old(self).edge(a, b)
                }),
            final(self).degree_of(i as int) as int == old(self).degree_of(i as int)
                + toggle_delta(old(self).edge(i as int, j as int), present),
            final(self).degree_of(j as int) as int == old(self).degree_of(j as int)
                + toggle_delta(old(self).edge(i as int, j as int), present),
            forall|a: int|
                0 <= a < final(self).node_count && a != i && a != j
                    ==> #[trigger] final(self).degree_of(a) == old(self).degree_of(a),
            final(self).edge_count_of() as int == old(self).edge_count_of() + toggle_delta(
                old(self).edge(i as int, j as int),
                present,
            ),
    {
        let ghost g0 = *self;
        let n = self.node_count;
        self.adjacency[i][j] = present;
        let ghost g1 = *self;
        self.adjacency[j][i] = present;
        proof {
            let ni = i as int;
            let nj = j as int;
            let nn = n as int;
            assert(self.row(ni) =~= g0.row(ni).update(nj, present));
            assert(self.row(nj) =~= g0.row(nj).update(ni, present));
            assert(forall|a: int| 0 <= a < nn && a != ni && a != nj ==> self.row(a) == g0.row(a));
            assert forall|a: int, b: int| 0 <= a < nn && 0 <= b < nn implies #[trigger] self.edge(
                a,
                b,
            ) == (if (a == ni && b == nj) || (a == nj && b == ni) {
                present
            } else {
                g0.edge(a, b)
            }) by {}
            // Degrees of the two endpoints change by the same delta.
            lemma_count_true_update(g0.row(ni), self.row(ni), nj, 0, nn);
            lemma_count_true_update(g0.row(nj), self.row(nj), ni, 0, nn);
            assert forall|a: int| 0 <= a < nn && a != ni && a != nj implies #[trigger] self
                .degree_of(a) == g0.degree_of(a) by {}
            // The total changes once, in the upper triangle.
            let a = if i < j {
                ni
            } else {
                nj
            };
            let b = if i < j {
                nj
            } else {
                ni
            };
            lemma_upper_count_update(g0, *self, a, b, nn);
            assert(g0.edge(a, b) == g0.edge(ni, nj));
        }
    }

    /// Count of present edges incident to node `i`.
    pub fn degree(&self, i: usize) -> (d: usize)
        requires
            self.wf(),
            i < self.node_count,
        ensures
            d == self.degree_of(i as int),
    {
        let n = self.node_count;
        let mut d: usize = 0;
        for j in 0..n
            invariant
                self.wf(),
                i < n,
                n == self.node_count,
                d == count_true_in(self.row(i as int), 0, j as int),
                d <= j,
        {
            if self.adjacency[i][j] {
                d = d + 1;
            }
        }
        d
    }

    /// Total number of present edges, each unordered pair counted once.
    pub fn edge_count(&self) -> (c: usize)
        requires
            self.wf(),
        ensures
            c == self.edge_count_of(),
    {
        let n = self.node_count;
        let mut c: usize = 0;
        for i in 0..n
            invariant
                self.wf(),
                n == self.node_count,
                c == self.upper_count_upto(i as int),
                c <= (i as int) * (n as int),
        {
            let mut inner: usize = c;
            for j in (i + 1)..n
                invariant
                    self.wf(),
                    n == self.node_count,
                    i < n,
                    c == self.upper_count_upto(i as int),
                    c <= (i as int) * (n as int),
                    inner == c + count_true_in(self.row(i as int), i + 1, j as int),
                    inner <= (i as int) * (n as int) + j,
            {
                assert((i as int) * (n as int) + (j as int) + 1 <= (n as int) * (n as int)) by (nonlinear_arith)
                    requires
                        0 <= (i as int) && (i as int) < (n as int),
                        0 <= (j as int) && (j as int) < (n as int),
                ;
                if self.adjacency[i][j] {
                    inner = inner + 1;
                }
            }
            proof {
                assert(count_true_in(self.row(i as int), i as int + 1, i as int + 1) == 0);
                assert((i as int + 1) * (n as int) == (i as int) * (n as int) + n as int)
                    by (nonlinear_arith);
            }
            c = inner;
        }
        c
    }
}

/// A `node_count`-by-`node_count` matrix of `false`.
fn empty_matrix(node_count: usize) -> (m: Vec<Vec<bool>>)
    ensures
        m@.len() == node_count,
        forall|i: int| 0 <= i < node_count ==> (#[trigger] m@[i])@.len() == node_count,
        forall|i: int, j: int|
            0 <= i < node_count && 0 <= j < node_count ==> !(#[trigger] m@[i]@[j]),
{
    let mut m: Vec<Vec<bool>> = Vec::new();
    for i in 0..node_count
        invariant
            m@.len() == i,
            forall|a: int| 0 <= a < i ==> (#[trigger] m@[a])@.len() == node_count,
            forall|a: int, b: int| 0 <= a < i && 0 <= b < node_count ==> !(#[trigger] m@[a]@[b]),
    {
        let mut row: Vec<bool> = Vec::new();
        for j in 0..node_count
            invariant
                row@.len() == j,
                forall|b: int| 0 <= b < j ==> !(#[trigger] row@[b]),
        {
            row.push(false);
        }
        m.push(row);
    }
    m
}

/// `extends` composes.
pub proof fn lemma_extends_trans(g3: Graph, g2: Graph, g1: Graph)
    requires
        g3.extends(g2),
        g2.extends(g1),
    ensures
        g3.extends(g1),
{
    assert forall|i: int, j: int|
        0 <= i < g3.node_count && 0 <= j < g3.node_count && g1.edge(i, j) implies #[trigger] g3
        .edge(i, j) by {
        assert(g2.edge(i, j));
    }
}

/// Counts only grow when entries only turn `true`.
pub proof fn lemma_count_true_monotone(r1: Seq<bool>, r2: Seq<bool>, lo: int, hi: int)
    requires
        forall|k: int| lo <= k < hi && r1[k] ==> r2[k],
    ensures
        count_true_in(r1, lo, hi) <= count_true_in(r2, lo, hi),
    decreases hi - lo,
{
    if lo < hi {
        lemma_count_true_monotone(r1, r2, lo, hi - 1);
    }
}

/// A graph that extends another has at least its degrees everywhere.
pub proof fn lemma_extends_degree(g1: Graph, g2: Graph)
    requires
        g1.wf(),
        g2.wf(),
        g2.extends(g1),
    ensures
        forall|i: int| 0 <= i < g1.node_count ==> g1.degree_of(i) <= #[trigger] g2.degree_of(i),
{
    assert forall|i: int| 0 <= i < g1.node_count implies g1.degree_of(i) <= #[trigger] g2.degree_of(
        i,
    ) by {
        assert forall|k: int| 0 <= k < g1.node_count && g1.row(i)[k] implies g2.row(i)[k] by {
            assert(g1.edge(i, k));
            assert(g2.edge(i, k));
        }
        lemma_count_true_monotone(g1.row(i), g2.row(i), 0, g1.node_count as int);
    }
}

/// Counts over a range never exceed the range's width.
pub proof fn lemma_count_true_le(row: Seq<bool>, lo: int, hi: int)
    requires
        lo <= hi,
    ensures
        count_true_in(row, lo, hi) <= hi - lo,
    decreases hi - lo,
{
    if lo < hi {
        lemma_count_true_le(row, lo, hi - 1);
    }
}

/// A count over all-`false` entries is zero.
pub proof fn lemma_count_true_none(row: Seq<bool>, lo: int, hi: int)
    requires
        forall|k: int| lo <= k < hi ==> !row[k],
    ensures
        count_true_in(row, lo, hi) == 0,
    decreases hi - lo,
{
    if lo < hi {
        lemma_count_true_none(row, lo, hi - 1);
    }
}

/// A count that fills its whole range means every entry is `true`.
pub proof fn lemma_count_true_full(row: Seq<bool>, lo: int, hi: int)
    requires
        lo <= hi,
        count_true_in(row, lo, hi) == hi - lo,
    ensures
        forall|k: int| lo <= k < hi ==> row[k],
    decreases hi - lo,
{
    if lo < hi {
        lemma_count_true_le(row, lo, hi - 1);
        assert(row[hi - 1]);
        lemma_count_true_full(row, lo, hi - 1);
    }
}

/// A graph with every edge absent has no edge in its first `k` rows'
/// upper triangle.
pub proof fn lemma_upper_count_zero(g: Graph, k: int)
    requires
        forall|i: int, j: int|
            0 <= i < g.node_count && 0 <= j < g.node_count ==> !(#[trigger] g.edge(i, j)),
        k <= g.node_count,
    ensures
        g.upper_count_upto(k) == 0,
    decreases k,
{
    if k > 0 {
        lemma_upper_count_zero(g, k - 1);
        assert forall|c: int| k <= c < g.node_count implies !(#[trigger] g.row(k - 1)[c]) by {
            assert(!g.edge(k - 1, c));
        }
        lemma_count_true_none(g.row(k - 1), k, g.node_count as int);
    }
}

/// Two rows that agree on `[lo, hi)` have the same count there.
pub proof fn lemma_count_true_agree(r1: Seq<bool>, r2: Seq<bool>, lo: int, hi: int)
    requires
        forall|k: int| lo <= k < hi ==> r1[k] == r2[k],
    ensures
        count_true_in(r1, lo, hi) == count_true_in(r2, lo, hi),
    decreases hi - lo,
{
    if lo < hi {
        lemma_count_true_agree(r1, r2, lo, hi - 1);
    }
}

/// Changing a row at one position inside `[lo, hi)` changes the count
/// by the corresponding delta.
pub proof fn lemma_count_true_update(r1: Seq<bool>, r2: Seq<bool>, p: int, lo: int, hi: int)
    requires
        lo <= p < hi,
        forall|k: int| lo <= k < hi && k != p ==> r1[k] == r2[k],
    ensures
        count_true_in(r2, lo, hi) == count_true_in(r1, lo, hi) + toggle_delta(r1[p], r2[p]),
    decreases hi - lo,
{
    if p == hi - 1 {
        lemma_count_true_agree(r1, r2, lo, hi - 1);
    } else {
        lemma_count_true_update(r1, r2, p, lo, hi - 1);
    }
}

/// Writing the single unordered pair `{a, b}` (as both matrix halves)
/// changes the upper-triangle count by the delta of that pair alone.
pub proof fn lemma_upper_count_update(g1: Graph, g2: Graph, a: int, b: int, k: int)
    requires
        g1.node_count == g2.node_count,
        0 <= a < b < g1.node_count,
        k <= g1.node_count,
        forall|r: int| 0 <= r < g1.node_count && r != a && r != b ==> g1.row(r) == g2.row(r),
        forall|c: int| 0 <= c < g1.node_count && c != b ==> g1.row(a)[c] == g2.row(a)[c],
        forall|c: int| 0 <= c < g1.node_count && c != a ==> g1.row(b)[c] == g2.row(b)[c],
    ensures
        g2.upper_count_upto(k) == g1.upper_count_upto(k) + (if k > a {
            toggle_delta(g1.edge(a, b), g2.edge(a, b))
        } else {
            0
        }),
    decreases k,
{
    let nn = g1.node_count as int;
    if k > 0 {
        lemma_upper_count_update(g1, g2, a, b, k - 1);
        if k - 1 == a {
            lemma_count_true_update(g1.row(a), g2.row(a), b, k, nn);
        } else if k - 1 == b {
            lemma_count_true_agree(g1.row(b), g2.row(b), k, nn);
        } else {
            lemma_count_true_agree(g1.row(k - 1), g2.row(k - 1), k, nn);
        }
    }
}

} // verus!
