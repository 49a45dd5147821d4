//! The randomized graph generator: a degree-floor seeding pass gives
//! every node at least two incident edges, a repair pass then adds
//! uniformly sampled absent pairs until the edge budget is met exactly,
//! and the whole generation restarts from a cleared graph whenever the
//! seeding overshoots the budget.

use vstd::prelude::*;

use crate::graph::{
    config_error_for, count_true_in, lemma_count_true_full, lemma_count_true_le,
    lemma_extends_degree, lemma_extends_trans, lemma_upper_count_zero, valid_config, ConfigError,
    Graph,
};
use crate::oracle::{has_ham_cycle, lemma_complete_has_cycle};
use crate::rng::{random_below, sample_distinct, shuffle};

verus! {

/// Why no graph was produced.
#[derive(Clone, Copy, PartialEq, Eq, Structural, Debug)]
pub enum GenerateError {
    /// The `node_count` / `target_edge_count` combination is invalid.
    Config(ConfigError),
    /// The attempt budget ran out before a graph of the requested shape
    /// appeared. Generation restarts whenever seeding overshoots the
    /// edge budget, and no bound on the number of restarts can be
    /// promised, so a caller supplies the budget it is willing to spend.
    AttemptsExhausted,
}

/// The class a generated graph is requested to fall in.
#[derive(Clone, Copy, PartialEq, Eq, Structural, Debug)]
pub enum GraphKind {
    Hamiltonian,
    NonHamiltonian,
}

/// The hard structural constraints every generated graph meets: the
/// edge count equals the target exactly, and every node has at least
/// two incident edges.
pub open spec fn meets_constraints(g: Graph) -> bool {
    &&& g.wf()
    &&& g.edge_count_of() == g.target_edge_count
    &&& forall|i: int| 0 <= i < g.node_count ==> #[trigger] g.degree_of(i) >= 2
}

/// Number of unordered node pairs `{a, b}` with `a < b < n` and `a < k`.
pub open spec fn pairs_upto(n: int, k: int) -> int
    decreases k,
{
    if k <= 0 {
        0
    } else {
        pairs_upto(n, k - 1) + (n - k)
    }
}

/// The pair count has the closed form `k * (2n - k - 1) / 2`; at
/// `k == n` that is the complete graph's `n * (n - 1) / 2`.
proof fn lemma_pairs_upto_closed(n: int, k: int)
    requires
        0 <= k <= n,
    ensures
        pairs_upto(n, k) * 2 == k * (2 * n - k - 1),
    decreases k,
{
    if k > 0 {
        lemma_pairs_upto_closed(n, k - 1);
        let p1 = pairs_upto(n, k - 1);
        assert(pairs_upto(n, k) == p1 + n - k);
        assert(p1 * 2 == (k - 1) * (2 * n - k));
        assert((k - 1) * (2 * n - k) + 2 * n - 2 * k == k * (2 * n - k - 1)) by (nonlinear_arith);
    } else {
        assert(k * (2 * n - k - 1) == 0) by (nonlinear_arith)
            requires
                k == 0,
        ;
    }
}

/// Targets at which one generation attempt surely succeeds: the
/// seeding pass adds at most two edges per node, so it can never
/// overshoot a target of at least `2 * node_count`; and at the
/// complete-graph bound no edge count can exceed the target at all.
pub open spec fn surely_within_budget(node_count: int, target_edge_count: int) -> bool {
    ||| 2 * node_count <= target_edge_count
    ||| 2 * target_edge_count == node_count * (node_count - 1)
}

/// The upper-triangle edge count never exceeds the number of pairs.
proof fn lemma_upper_le_pairs(g: Graph, k: int)
    requires
        g.wf(),
        0 <= k <= g.node_count,
    ensures
        g.upper_count_upto(k) <= pairs_upto(g.node_count as int, k),
    decreases k,
{
    if k > 0 {
        lemma_upper_le_pairs(g, k - 1);
        lemma_count_true_le(g.row(k - 1), k, g.node_count as int);
    }
}

/// An edge count that reaches the total pair count makes every pair
/// present: the graph is complete.
proof fn lemma_full_count_complete(g: Graph, k: int)
    requires
        g.wf(),
        0 <= k <= g.node_count,
        g.upper_count_upto(k) == pairs_upto(g.node_count as int, k),
    ensures
        forall|a: int, b: int| 0 <= a < k && a < b < g.node_count ==> #[trigger] g.edge(a, b),
    decreases k,
{
    let n = g.node_count as int;
    if k > 0 {
        lemma_upper_le_pairs(g, k - 1);
        lemma_count_true_le(g.row(k - 1), k, n);
        assert(count_true_in(g.row(k - 1), k, n) == n - k);
        lemma_count_true_full(g.row(k - 1), k, n);
        lemma_full_count_complete(g, k - 1);
        assert forall|a: int, b: int| 0 <= a < k && a < b < n implies #[trigger] g.edge(a, b) by {
            if a == k - 1 {
                assert(g.row(k - 1)[b]);
            }
        }
    }
}

/// Seeds one node: if it has fewer than two incident edges, connects
/// it to enough uniformly chosen non-neighbors to reach degree two.
#[verifier::loop_isolation(false)]
fn seed_node(g: &mut Graph, u: usize)
    requires
        old(g).wf(),
        u < old(g).node_count,
    ensures
        final(g).wf(),
        final(g).extends(*old(g)),
        final(g).degree_of(u as int) >= 2,
        final(g).edge_count_of() <= old(g).edge_count_of() + 2,
        forall|a: int|
            0 <= a < final(g).node_count ==> old(g).degree_of(a) <= #[trigger] final(g).degree_of(
                a,
            ),
{
    let n = g.node_count;
    let ghost ui = u as int;
    let d = g.degree(u);
    if d >= 2 {
        return ;
    }
    let mut cands: Vec<usize> = Vec::new();
    for v in 0..n
        invariant
            forall|k: int|
                0 <= k < cands@.len() ==> ((#[trigger] cands@[k]) as int) < v as int
                    && cands@[k] != u && !g.edge(ui, cands@[k] as int),
            forall|k1: int, k2: int| 0 <= k1 < k2 < cands@.len() ==> cands@[k1] != cands@[k2],
            cands@.len() as int + count_true_in(g.row(ui), 0, v as int) + (if ui < v as int {
                1int
            } else {
                0int
            }) == v as int,
    {
        if v != u && !g.has_edge(u, v) {
            cands.push(v);
        }
        proof {
            assert(!g.edge(ui, ui));
            assert(count_true_in(g.row(ui), 0, v as int + 1) == count_true_in(g.row(ui), 0, v as int)
                + (if g.row(ui)[v as int] {
                1int
            } else {
                0int
            }));
        }
    }
    proof {
        assert(cands@.len() as int + d as int + 1 == n as int);
    }
    let r1 = random_below(cands.len());
    let ghost pre = cands@;
    let v1 = cands.swap_remove(r1);
    let ghost g0 = *g;
    g.set_edge(u, v1, true);
    let ghost g1 = *g;
    proof {
        assert forall|k: int|
            0 <= k < cands@.len() implies ((#[trigger] cands@[k]) as int) < n as int && cands@[k]
            != u && cands@[k] != v1 && !g0.edge(ui, cands@[k] as int) by {
            if k == r1 {
                assert(cands@[k] == pre[pre.len() - 1]);
            } else {
                assert(cands@[k] == pre[k]);
            }
        }
    }
    if d == 0 {
        let r2 = random_below(cands.len());
        let v2 = cands[r2];
        proof {
            assert(!g1.edge(ui, v2 as int));
        }
        g.set_edge(u, v2, true);
        proof {
            assert forall|i: int, j: int|
                0 <= i < g.node_count && 0 <= j < g.node_count && g0.edge(i, j) implies #[trigger] g
                .edge(i, j) by {
                assert(g1.edge(i, j));
            }
        }
    } else {
        proof {
            assert(g.degree_of(ui) == d + 1);
        }
    }
}

/// The degree-floor seeding pass: visits every node in a uniformly
/// shuffled order and raises its degree to at least two.
#[verifier::loop_isolation(false)]
fn seed_pass(g: &mut Graph)
    requires
        old(g).wf(),
    ensures
        final(g).wf(),
        final(g).extends(*old(g)),
        forall|i: int| 0 <= i < final(g).node_count ==> #[trigger] final(g).degree_of(i) >= 2,
        final(g).edge_count_of() as int <= old(g).edge_count_of() + 2 * (old(g).node_count as int),
{
    let n = g.node_count;
    let mut order: Vec<usize> = Vec::new();
    for v in 0..n
        invariant
            order@.len() == v,
            forall|k: int| 0 <= k < v ==> (#[trigger] order@[k]) as int == k,
    {
        order.push(v);
    }
    let ghost order0 = order@;
    shuffle(&mut order);
    proof {
        order0.to_multiset_ensures();
        order@.to_multiset_ensures();
        assert forall|vv: int| 0 <= vv < n implies #[trigger] order@.contains(vv as usize) by {
            let x = vv as usize;
            assert(order0[vv] == x);
            assert(order0.contains(x));
            assert(order0.to_multiset().count(x) > 0);
            assert(order@.to_multiset().count(x) > 0);
        }
        assert forall|k: int| 0 <= k < order@.len() implies ((#[trigger] order@[k]) as int)
            < n as int by {
            let x = order@[k];
            assert(order@.contains(x));
            assert(order@.to_multiset().count(x) > 0);
            assert(order0.to_multiset().count(x) > 0);
            assert(order0.contains(x));
            let m = choose|m: int| 0 <= m < order0.len() && order0[m] == x;
            assert(order0[m] as int == m);
        }
    }
    let ghost gstart = *g;
    let m = order.len();
    for idx in 0..m
        invariant
            m == n,
            g.wf(),
            g.extends(gstart),
            g.edge_count_of() as int <= gstart.edge_count_of() + 2 * (idx as int),
            forall|k: int| 0 <= k < idx ==> #[trigger] g.degree_of((order@[k]) as int) >= 2,
    {
        let u = order[idx];
        let ghost gmid = *g;
        seed_node(g, u);
        proof {
            lemma_extends_trans(*g, gmid, gstart);
        }
    }
    proof {
        assert forall|i: int| 0 <= i < g.node_count implies #[trigger] g.degree_of(i) >= 2 by {
            assert(order@.contains(i as usize));
            let k = choose|k: int| 0 <= k < order@.len() && order@[k] == i as usize;
            assert(g.degree_of((order@[k]) as int) >= 2);
        }
    }
}

/// The count repair pass: when the seeded graph is at or under the
/// edge budget, adds uniformly sampled absent pairs until the budget
/// is met exactly and returns `true`; on overshoot it changes nothing
/// and returns `false`.
#[verifier::loop_isolation(false)]
fn repair_edges(g: &mut Graph) -> (ok: bool)
    requires
        old(g).wf(),
    ensures
        final(g).wf(),
        final(g).extends(*old(g)),
        ok <==> old(g).edge_count_of() <= old(g).target_edge_count,
        ok ==> final(g).edge_count_of() == final(g).target_edge_count,
        !ok ==> *final(g) == *old(g),
{
    let n = g.node_count;
    let ghost ni = n as int;
    let t = g.target_edge_count;
    let ec = g.edge_count();
    if ec > t {
        return false;
    }
    let delta = t - ec;
    if delta == 0 {
        return true;
    }
    let mut pairs: Vec<(usize, usize)> = Vec::new();
    for i in 0..n
        invariant
            pairs@.len() as int == pairs_upto(ni, i as int) - g.upper_count_upto(i as int),
            forall|k: int|
                0 <= k < pairs@.len() ==> ((#[trigger] pairs@[k]).0 < pairs@[k].1 && (
                pairs@[k].1 as int) < ni && !g.edge(pairs@[k].0 as int, pairs@[k].1 as int)),
            forall|k: int| 0 <= k < pairs@.len() ==> ((#[trigger] pairs@[k]).0 as int) < i as int,
            forall|k1: int, k2: int| 0 <= k1 < k2 < pairs@.len() ==> pairs@[k1] != pairs@[k2],
    {
        for j in (i + 1)..n
            invariant
                pairs@.len() as int == pairs_upto(ni, i as int) - g.upper_count_upto(i as int) + (
                j as int - i as int - 1) - count_true_in(g.row(i as int), i as int + 1, j as int),
                forall|k: int|
                    0 <= k < pairs@.len() ==> ((#[trigger] pairs@[k]).0 < pairs@[k].1 && (
                    pairs@[k].1 as int) < ni && !g.edge(pairs@[k].0 as int, pairs@[k].1 as int)),
                forall|k: int|
                    0 <= k < pairs@.len() ==> (((#[trigger] pairs@[k]).0 as int) < i as int || (
                    pairs@[k].0 == i && (pairs@[k].1 as int) < j as int)),
                forall|k1: int, k2: int| 0 <= k1 < k2 < pairs@.len() ==> pairs@[k1] != pairs@[k2],
        {
            if !g.has_edge(i, j) {
                pairs.push((i, j));
            }
        }
    }
    proof {
        lemma_pairs_upto_closed(ni, ni);
        assert(pairs@.len() as int == pairs_upto(ni, ni) - g.edge_count_of());
        assert(2 * (t as int) <= ni * (ni - 1));
        assert(delta as int <= pairs@.len() as int);
    }
    let picks = sample_distinct(pairs.len(), delta);
    let ghost gmid = *g;
    for k in 0..delta
        invariant
            g.wf(),
            g.node_count == n,
            g.target_edge_count == t,
            g.extends(gmid),
            g.edge_count_of() as int == ec as int + k as int,
            forall|m: int|
                k as int <= m < delta as int ==> !g.edge(
                    (#[trigger] pairs@[picks@[m] as int]).0 as int,
                    pairs@[picks@[m] as int].1 as int,
                ),
    {
        let idx = picks[k];
        let pr = pairs[idx];
        let ghost gprev = *g;
        g.set_edge(pr.0, pr.1, true);
        proof {
            lemma_extends_trans(*g, gprev, gmid);
            assert forall|m: int|
                k as int + 1 <= m < delta as int implies !g.edge(
                (#[trigger] pairs@[picks@[m] as int]).0 as int,
                pairs@[picks@[m] as int].1 as int,
            ) by {
                let other = pairs@[picks@[m] as int];
                assert(picks@[m] != picks@[k as int]);
                assert(other != pr);
            }
        }
    }
    true
}

/// Produces a graph meeting the hard constraints: exactly
/// `target_edge_count` edges and minimum degree two. Each attempt
/// seeds degrees and repairs the count; an attempt that overshoots the
/// budget restarts from a cleared graph, and after `max_attempts`
/// failed attempts the budget error is returned. At targets where
/// seeding cannot overshoot (`surely_within_budget`), one attempt
/// always suffices, whatever the draws.
pub fn generate(node_count: usize, target_edge_count: usize, max_attempts: usize) -> (r: Result<
    Graph,
    GenerateError,
>)
    requires
        (node_count as int) * (node_count as int) <= usize::MAX as int,
    ensures
        match r {
            Ok(g) => {
                &&& valid_config(node_count as int, target_edge_count as int)
                &&& g.node_count == node_count
                &&& g.target_edge_count == target_edge_count
                &&& meets_constraints(g)
            },
            Err(GenerateError::Config(e)) => {
                &&& !valid_config(node_count as int, target_edge_count as int)
                &&& e == config_error_for(node_count as int, target_edge_count as int)
            },
            Err(GenerateError::AttemptsExhausted) => valid_config(
                node_count as int,
                target_edge_count as int,
            ),
        },
        max_attempts >= 1 && valid_config(node_count as int, target_edge_count as int)
            && surely_within_budget(node_count as int, target_edge_count as int) ==> r is Ok,
{
    let mut g = match Graph::new(node_count, target_edge_count) {
        Ok(g) => g,
        Err(e) => {
            return Err(GenerateError::Config(e));
        },
    };
    for attempt in 0..max_attempts
        invariant
            g.wf(),
            g.node_count == node_count,
            g.target_edge_count == target_edge_count,
            valid_config(node_count as int, target_edge_count as int),
            forall|i: int, j: int|
                0 <= i < node_count && 0 <= j < node_count ==> !(#[trigger] g.edge(i, j)),
            attempt > 0 ==> !surely_within_budget(node_count as int, target_edge_count as int),
    {
        proof {
            lemma_upper_count_zero(g, node_count as int);
        }
        seed_pass(&mut g);
        let ghost seeded = g;
        if repair_edges(&mut g) {
            proof {
                lemma_extends_degree(seeded, g);
            }
            return Ok(g);
        }
        proof {
            // Overshoot: the seeded count exceeded the target, so the
            // target lies under both bounds the seeding respects.
            lemma_upper_le_pairs(seeded, node_count as int);
            lemma_pairs_upto_closed(node_count as int, node_count as int);
        }
        g.clear_edges();
    }
    Err(GenerateError::AttemptsExhausted)
}

/// Produces a graph of the requested class: it meets the hard
/// constraints and is Hamiltonian exactly when `kind` asks for the
/// Hamiltonian class. Candidates are generated and classified until
/// one matches or the attempt budget runs out. At the complete-graph
/// bound every candidate is the complete graph, which is Hamiltonian,
/// so one attempt then always yields the Hamiltonian class.
pub fn generate_with_kind(
    node_count: usize,
    target_edge_count: usize,
    kind: GraphKind,
    max_attempts: usize,
) -> (r: Result<Graph, GenerateError>)
    requires
        (node_count as int) * (node_count as int) <= usize::MAX as int,
    ensures
        match r {
            Ok(g) => {
                &&& valid_config(node_count as int, target_edge_count as int)
                &&& g.node_count == node_count
                &&& g.target_edge_count == target_edge_count
                &&& meets_constraints(g)
                &&& (has_ham_cycle(g) <==> kind == GraphKind::Hamiltonian)
            },
            Err(GenerateError::Config(e)) => {
                &&& !valid_config(node_count as int, target_edge_count as int)
                &&& e == config_error_for(node_count as int, target_edge_count as int)
            },
            Err(GenerateError::AttemptsExhausted) => valid_config(
                node_count as int,
                target_edge_count as int,
            ),
        },
        max_attempts >= 1 && valid_config(node_count as int, target_edge_count as int) && kind
            == GraphKind::Hamiltonian && 2 * (target_edge_count as int) == (node_count as int) * ((
        node_count as int) - 1) ==> r is Ok,
{
    if let Err(e) = Graph::validate_config(node_count, target_edge_count) {
        return Err(GenerateError::Config(e));
    }
    let want = kind == GraphKind::Hamiltonian;
    for attempt in 0..max_attempts
        invariant
            (node_count as int) * (node_count as int) <= usize::MAX as int,
            valid_config(node_count as int, target_edge_count as int),
            want == (kind == GraphKind::Hamiltonian),
            attempt > 0 ==> !(kind == GraphKind::Hamiltonian && 2 * (target_edge_count as int) == (
            node_count as int) * ((node_count as int) - 1)),
    {
        match generate(node_count, target_edge_count, max_attempts) {
            Err(e) => {
                return Err(e);
            },
            Ok(g) => {
                if g.is_hamiltonian() == want {
                    return Ok(g);
                }
                proof {
                    // A mismatch at the complete-graph bound is
                    // impossible for the Hamiltonian class: the
                    // candidate is then the complete graph.
                    if 2 * (target_edge_count as int) == (node_count as int) * ((node_count as int)
                        - 1) {
                        lemma_pairs_upto_closed(node_count as int, node_count as int);
                        lemma_full_count_complete(g, node_count as int);
                        assert forall|i: int, j: int|
                            0 <= i < g.node_count && 0 <= j < g.node_count && i != j implies #[trigger] g.edge(
                            i,
                            j,
                        ) by {
                            if j < i {
                                assert(g.edge(j, i));
                            }
                        }
                        lemma_complete_has_cycle(g);
                    }
                }
            },
        }
    }
    Err(GenerateError::AttemptsExhausted)
}

} // verus!
