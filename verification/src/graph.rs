//! Graph specifications and the topological scheduler.
//!
//! A graph is a list of named nodes and directed edges between them. The
//! scheduler computes an order in which every node comes after all its
//! predecessors, or reports that none exists — which is exactly when the
//! edges contain a directed cycle.

use vstd::prelude::*;
use vstd::seq_lib::*;
use vstd::set_lib::*;

verus! {

broadcast use vstd::std_specs::vec::group_vec_axioms, vstd::seq::group_seq_axioms,
    vstd::set::group_set_axioms, vstd::seq_lib::group_seq_lib_default;

/// One node of a graph: a graph-local name and the transform it fires.
pub struct GraphNode {
    pub name: String,
    pub transform_id: String,
}

/// One directed edge between two declared node names.
pub struct GraphEdge {
    pub from: String,
    pub to: String,
}

/// A graph supplied per execution: nodes, edges, and the names of the nodes
/// whose outputs the execution summary reports.
pub struct GraphSpec {
    pub nodes: Vec<GraphNode>,
    pub edges: Vec<GraphEdge>,
    pub sinks: Vec<String>,
}

/// Every edge endpoint is a node index below `n`.
pub open spec fn edges_ok(n: nat, edges: Seq<(usize, usize)>) -> bool {
    forall|j: int| 0 <= j < edges.len() ==> (#[trigger] edges[j]).0 < n && edges[j].1 < n
}

/// `order` is a topological order of the `n` nodes: it lists each node
/// exactly once, and the source of every edge comes before its target.
pub open spec fn valid_topo_order(n: nat, edges: Seq<(usize, usize)>, order: Seq<usize>) -> bool {
    &&& order.len() == n
    &&& forall|k: int| 0 <= k < order.len() ==> (#[trigger] order[k]) < n
    &&& order.no_duplicates()
    &&& forall|j: int, k2: int|
        0 <= j < edges.len() && 0 <= k2 < order.len() && (#[trigger] edges[j]).1 == #[trigger] order[k2]
            ==> exists|k1: int| 0 <= k1 < k2 && order[k1] == edges[j].0
}

/// Some topological order of the `n` nodes exists.
pub open spec fn topo_sortable(n: nat, edges: Seq<(usize, usize)>) -> bool {
    exists|order: Seq<usize>| valid_topo_order(n, edges, order)
}

/// There is an edge from `a` to `b`.
pub open spec fn edge_between(edges: Seq<(usize, usize)>, a: usize, b: usize) -> bool {
    exists|j: int| 0 <= j < edges.len() && (#[trigger] edges[j]).0 == a && edges[j].1 == b
}

/// The index after `k` in a cyclic walk over `cyc`.
pub open spec fn next_in(cyc: Seq<usize>, k: int) -> int {
    if k + 1 == cyc.len() {
        0int
    } else {
        k + 1
    }
}

/// `cyc` is a directed cycle: a nonempty node sequence in which each element
/// has an edge to the next, wrapping around at the end.
pub open spec fn is_cycle(edges: Seq<(usize, usize)>, cyc: Seq<usize>) -> bool {
    &&& cyc.len() > 0
    &&& forall|k: int| 0 <= k < cyc.len() ==> #[trigger] edge_between(edges, cyc[k], cyc[next_in(cyc, k)])
}

/// The edges contain a directed cycle.
pub open spec fn has_cycle(edges: Seq<(usize, usize)>) -> bool {
    exists|cyc: Seq<usize>| is_cycle(edges, cyc)
}

/// Node `x` is ready: every edge into `x` starts at an emitted node.
pub open spec fn ready_spec(x: usize, edges: Seq<(usize, usize)>, emitted: Seq<bool>) -> bool {
    forall|j: int| 0 <= j < edges.len() && (#[trigger] edges[j]).1 == x ==> emitted[edges[j].0 as int]
}

/// A distinct sequence of values below `n` that is shorter than `n` misses
/// some value below `n`.
proof fn lemma_missing_value(s: Seq<usize>, n: nat)
    requires
        n <= usize::MAX,
        s.no_duplicates(),
        forall|k: int| 0 <= k < s.len() ==> (#[trigger] s[k]) < n,
        s.len() < n,
    ensures
        exists|x: usize| x < n && !s.contains(x),
{
    let si = Seq::new(s.len(), |i: int| if 0 <= i < s.len() { s[i] as int } else { 0int });
    assert(si.no_duplicates()) by {
        assert forall|i: int, j: int| 0 <= i < si.len() && 0 <= j < si.len() && i != j
            implies si[i] != si[j] by {
            assert(s[i] != s[j]);
        }
    }
    si.unique_seq_to_set();
    lemma_int_range(0, n as int);
    if forall|x: usize| x < n ==> #[trigger] s.contains(x) {
        assert(set_int_range(0, n as int).subset_of(si.to_set())) by {
            assert forall|y: int| set_int_range(0, n as int).contains(y)
                implies si.to_set().contains(y) by {
                let xu = y as usize;
                assert(s.contains(xu));
                let i = choose|i: int| 0 <= i < s.len() && s[i] == xu;
                assert(si[i] == y);
                assert(si.contains(y));
            }
        }
        lemma_len_subset(set_int_range(0, n as int), si.to_set());
        assert(false);
    }
}

/// A distinct sequence of `n` values below `n` lists every value below `n`.
proof fn lemma_full_cover(s: Seq<usize>, n: nat, x: usize)
    requires
        n <= usize::MAX,
        s.no_duplicates(),
        forall|k: int| 0 <= k < s.len() ==> (#[trigger] s[k]) < n,
        s.len() == n,
        x < n,
    ensures
        s.contains(x),
{
    let si = Seq::new(s.len(), |i: int| if 0 <= i < s.len() { s[i] as int } else { 0int });
    assert(si.no_duplicates()) by {
        assert forall|i: int, j: int| 0 <= i < si.len() && 0 <= j < si.len() && i != j
            implies si[i] != si[j] by {
            assert(s[i] != s[j]);
        }
    }
    si.unique_seq_to_set();
    lemma_int_range(0, n as int);
    if !s.contains(x) {
        assert(si.to_set().subset_of(set_int_range(0, n as int).remove(x as int))) by {
            assert forall|y: int| si.to_set().contains(y)
                implies set_int_range(0, n as int).remove(x as int).contains(y) by {
                let i = choose|i: int| 0 <= i < si.len() && si[i] == y;
                assert(s[i] < n);
                assert(s[i] != x);
            }
        }
        lemma_len_subset(si.to_set(), set_int_range(0, n as int).remove(x as int));
        assert(false);
    }
}

/// Among the positions of `order` holding a member of `bad`, there is an
/// earliest one.
proof fn lemma_first_bad(order: Seq<usize>, bad: Set<usize>)
    requires
        exists|k: int| 0 <= k < order.len() && bad.contains(#[trigger] order[k]),
    ensures
        exists|k: int|
            0 <= k < order.len() && bad.contains(#[trigger] order[k]) && (forall|j: int|
                0 <= j < k ==> !bad.contains(#[trigger] order[j])),
    decreases order.len(),
{
    if bad.contains(order[0]) {
        assert(0 <= 0 < order.len() && bad.contains(order[0]) && (forall|j: int|
            0 <= j < 0 ==> !bad.contains(#[trigger] order[j])));
    } else {
        let k0 = choose|k: int| 0 <= k < order.len() && bad.contains(#[trigger] order[k]);
        let rest = order.skip(1);
        assert(rest[k0 - 1] == order[k0]);
        lemma_first_bad(rest, bad);
        let k = choose|k: int|
            0 <= k < rest.len() && bad.contains(#[trigger] rest[k]) && (forall|j: int|
                0 <= j < k ==> !bad.contains(#[trigger] rest[j]));
        assert(order[k + 1] == rest[k]);
        assert forall|j: int| 0 <= j < k + 1 implies !bad.contains(#[trigger] order[j]) by {
            if j > 0 {
                assert(rest[j - 1] == order[j]);
            }
        }
    }
}

/// A nonempty set of nodes in which every member has a predecessor inside the
/// set admits no topological order: whichever member were ordered first, its
/// in-set predecessor would have to come earlier.
#[verifier::rlimit(100)]
pub proof fn lemma_trapped_set_unsortable(n: nat, edges: Seq<(usize, usize)>, bad: Set<usize>)
    requires
        n <= usize::MAX,
        edges_ok(n, edges),
        exists|x: usize| bad.contains(x),
        forall|x: usize| #[trigger] bad.contains(x) ==> x < n,
        forall|x: usize| #[trigger] bad.contains(x) ==> exists|j: int|
            0 <= j < edges.len() && (#[trigger] edges[j]).1 == x && bad.contains(edges[j].0),
    ensures
        !topo_sortable(n, edges),
{
    if topo_sortable(n, edges) {
        let order = choose|order: Seq<usize>| valid_topo_order(n, edges, order);
        lemma_trapped_order(n, edges, bad, order);
        assert(false);
    }
}

/// The heart of `lemma_trapped_set_unsortable`: a concrete topological order
/// cannot coexist with a trapped set.
#[verifier::rlimit(100)]
#[verifier::spinoff_prover]
proof fn lemma_trapped_order(n: nat, edges: Seq<(usize, usize)>, bad: Set<usize>, order: Seq<usize>)
    requires
        n <= usize::MAX,
        edges_ok(n, edges),
        exists|x: usize| bad.contains(x),
        forall|x: usize| #[trigger] bad.contains(x) ==> x < n,
        forall|x: usize| #[trigger] bad.contains(x) ==> exists|j: int|
            0 <= j < edges.len() && (#[trigger] edges[j]).1 == x && bad.contains(edges[j].0),
    ensures
        !valid_topo_order(n, edges, order),
{
    if valid_topo_order(n, edges, order) {
        let x0 = choose|x: usize| bad.contains(x);
        lemma_full_cover(order, n, x0);
        let i0 = choose|i: int| 0 <= i < order.len() && order[i] == x0;
        assert(bad.contains(order[i0]));
        lemma_first_bad(order, bad);
        let k = choose|k: int|
            0 <= k < order.len() && bad.contains(#[trigger] order[k]) && (forall|j: int|
                0 <= j < k ==> !bad.contains(#[trigger] order[j]));
        let j = choose|j: int|
            0 <= j < edges.len() && (#[trigger] edges[j]).1 == order[k] && bad.contains(edges[j].0);
        assert(edges[j].1 == order[k]);
        assert(exists|k1: int| 0 <= k1 < k && order[k1] == edges[j].0);
        let k1 = choose|k1: int| 0 <= k1 < k && order[k1] == edges[j].0;
        assert(!bad.contains(order[k1]));
        assert(bad.contains(edges[j].0));
    }
}

/// Cycle rejection, graph side: edges containing a directed cycle admit no
/// topological order.
pub proof fn lemma_cycle_unsortable(n: nat, edges: Seq<(usize, usize)>, cyc: Seq<usize>)
    requires
        n <= usize::MAX,
        edges_ok(n, edges),
        is_cycle(edges, cyc),
    ensures
        !topo_sortable(n, edges),
{
    let bad = cyc.to_set();
    assert(bad.contains(cyc[0]));
    assert forall|x: usize| #[trigger] bad.contains(x) implies x < n by {
        let k = choose|k: int| 0 <= k < cyc.len() && cyc[k] == x;
        assert(edge_between(edges, cyc[k], cyc[next_in(cyc, k)]));
        let j = choose|j: int|
            0 <= j < edges.len() && (#[trigger] edges[j]).0 == cyc[k]
                && edges[j].1 == cyc[next_in(cyc, k)];
        assert(edges[j].0 < n);
    }
    assert forall|x: usize| #[trigger] bad.contains(x) implies exists|j: int|
        0 <= j < edges.len() && (#[trigger] edges[j]).1 == x && bad.contains(edges[j].0) by {
        let k = choose|k: int| 0 <= k < cyc.len() && cyc[k] == x;
        let kp: int = if k == 0 { cyc.len() - 1 } else { k - 1 };
        assert(edge_between(edges, cyc[kp], cyc[next_in(cyc, kp)]));
        let j = choose|j: int|
            0 <= j < edges.len() && (#[trigger] edges[j]).0 == cyc[kp]
                && edges[j].1 == cyc[next_in(cyc, kp)];
        assert(cyc[next_in(cyc, kp)] == cyc[k]);
        assert(bad.contains(cyc[kp]));
        assert(edges[j].1 == x && bad.contains(edges[j].0));
    }
    lemma_trapped_set_unsortable(n, edges, bad);
}

/// Cycle rejection: a graph whose edges contain a directed cycle admits no
/// topological order, so the planner refuses it before any node fires.
pub proof fn lemma_has_cycle_unsortable(n: nat, edges: Seq<(usize, usize)>)
    requires
        n <= usize::MAX,
        edges_ok(n, edges),
        has_cycle(edges),
    ensures
        !topo_sortable(n, edges),
{
    let cyc = choose|cyc: Seq<usize>| is_cycle(edges, cyc);
    lemma_cycle_unsortable(n, edges, cyc);
}

/// Is every edge into `x` satisfied by an emitted source?
fn node_ready(x: usize, edges: &Vec<(usize, usize)>, emitted: &Vec<bool>) -> (r: bool)
    requires
        edges_ok(emitted@.len() as nat, edges@),
    ensures
        r == ready_spec(x, edges@, emitted@),
{
    let m = edges.len();
    let mut j: usize = 0;
    while j < m
        invariant
            m == edges@.len(),
            j <= m,
            edges_ok(emitted@.len() as nat, edges@),
            forall|jj: int| 0 <= jj < j && (#[trigger] edges@[jj]).1 == x
                ==> emitted@[edges@[jj].0 as int],
        decreases m - j,
    {
        if edges[j].1 == x && !emitted[edges[j].0] {
            assert(!ready_spec(x, edges@, emitted@));
            return false;
        }
        j = j + 1;
    }
    true
}

/// The first unemitted node that is ready, if any.
fn find_ready(n: usize, edges: &Vec<(usize, usize)>, emitted: &Vec<bool>) -> (r: Option<usize>)
    requires
        emitted@.len() == n,
        edges_ok(n as nat, edges@),
    ensures
        r matches Some(c) ==> c < n && !emitted@[c as int] && ready_spec(c, edges@, emitted@),
        r is None ==> forall|x: usize| x < n
            ==> emitted@[x as int] || !ready_spec(x, edges@, emitted@),
{
    let mut x: usize = 0;
    while x < n
        invariant
            emitted@.len() == n,
            edges_ok(n as nat, edges@),
            x <= n,
            forall|y: usize| y < x ==> emitted@[y as int] || !ready_spec(y, edges@, emitted@),
        decreases n - x,
    {
        if !emitted[x] && node_ready(x, edges, emitted) {
            return Some(x);
        }
        x = x + 1;
    }
    None
}

/// A topological order of nodes `0 .. n` under `edges`, or `None` exactly
/// when no such order exists.
#[verifier::loop_isolation(false)]
#[verifier::rlimit(50)]
pub fn topo_order(n: usize, edges: &Vec<(usize, usize)>) -> (r: Option<Vec<usize>>)
    requires
        edges_ok(n as nat, edges@),
    ensures
        r matches Some(order) ==> valid_topo_order(n as nat, edges@, order@),
        r is None ==> !topo_sortable(n as nat, edges@),
{
    let mut emitted: Vec<bool> = Vec::new();
    let mut f: usize = 0;
    while f < n
        invariant
            f <= n,
            emitted@.len() == f,
            forall|k: int| 0 <= k < f ==> !(#[trigger] emitted@[k]),
        decreases n - f,
    {
        emitted.push(false);
        f = f + 1;
    }
    let mut order: Vec<usize> = Vec::new();
    while order.len() < n
        invariant
            emitted@.len() == n,
            order@.len() <= n,
            forall|k: int| 0 <= k < order@.len() ==> (#[trigger] order@[k]) < n,
            order@.no_duplicates(),
            forall|x: usize| x < n ==> (emitted@[x as int] <==> order@.contains(x)),
            forall|j: int, k2: int|
                0 <= j < edges@.len() && 0 <= k2 < order@.len()
                    && (#[trigger] edges@[j]).1 == #[trigger] order@[k2]
                    ==> exists|k1: int| 0 <= k1 < k2 && order@[k1] == edges@[j].0,
        decreases n - order.len(),
    {
        match find_ready(n, edges, &emitted) {
            Some(c) => {
                let ghost prev_order = order@;
                let ghost prev_emitted = emitted@;
                emitted[c] = true;
                order.push(c);
                proof {
                    assert(!prev_order.contains(c));
                    assert(order@.no_duplicates()) by {
                        assert forall|i: int, k: int|
                            0 <= i < order@.len() && 0 <= k < order@.len() && i != k
                            implies order@[i] != order@[k] by {
                            if i < prev_order.len() && k < prev_order.len() {
                                assert(prev_order[i] == order@[i] && prev_order[k] == order@[k]);
                            } else if i == prev_order.len() {
                                assert(order@[k] == prev_order[k]);
                                assert(prev_order.contains(prev_order[k]));
                            } else {
                                assert(order@[i] == prev_order[i]);
                                assert(prev_order.contains(prev_order[i]));
                            }
                        }
                    }
                    assert forall|x: usize| x < n implies (emitted@[x as int] <==> order@.contains(
                        x,
                    )) by {
                        if x == c {
                            assert(order@[prev_order.len() as int] == c);
                            assert(order@.contains(c));
                        } else {
                            if order@.contains(x) {
                                let i = choose|i: int| 0 <= i < order@.len() && order@[i] == x;
                                assert(i < prev_order.len());
                                assert(prev_order.contains(x));
                            }
                            if prev_order.contains(x) {
                                let i = choose|i: int|
                                    0 <= i < prev_order.len() && prev_order[i] == x;
                                assert(order@[i] == x);
                            }
                        }
                    }
                    assert forall|j: int, k2: int|
                        0 <= j < edges@.len() && 0 <= k2 < order@.len()
                            && (#[trigger] edges@[j]).1 == #[trigger] order@[k2]
                        implies exists|k1: int| 0 <= k1 < k2 && order@[k1] == edges@[j].0 by {
                        if k2 < prev_order.len() {
                            assert(prev_order[k2] == order@[k2]);
                            let k1 = choose|k1: int| 0 <= k1 < k2 && prev_order[k1] == edges@[j].0;
                            assert(order@[k1] == edges@[j].0);
                        } else {
                            assert(order@[k2] == c);
                            assert(ready_spec(c, edges@, prev_emitted));
                            assert(prev_emitted[edges@[j].0 as int]);
                            assert(prev_order.contains(edges@[j].0));
                            let k1 = choose|k1: int|
                                0 <= k1 < prev_order.len() && prev_order[k1] == edges@[j].0;
                            assert(order@[k1] == edges@[j].0);
                        }
                    }
                }
            },
            None => {
                proof {
                    lemma_missing_value(order@, n as nat);
                    let ghost bad = Set::new(|x: usize| x < n && !order@.contains(x));
                    let x0 = choose|x: usize| x < n && !order@.contains(x);
                    assert(bad.contains(x0));
                    assert forall|x: usize| #[trigger] bad.contains(x) implies exists|j: int|
                        0 <= j < edges@.len() && (#[trigger] edges@[j]).1 == x && bad.contains(
                            edges@[j].0,
                        ) by {
                        assert(!emitted@[x as int]);
                        assert(!ready_spec(x, edges@, emitted@));
                        let j = choose|j: int|
                            0 <= j < edges@.len() && (#[trigger] edges@[j]).1 == x
                                && !emitted@[edges@[j].0 as int];
                        assert(edges@[j].0 < n);
                        assert(!order@.contains(edges@[j].0));
                        assert(bad.contains(edges@[j].0));
                    }
                    lemma_trapped_set_unsortable(n as nat, edges@, bad);
                }
                return None;
            },
        }
    }
    Some(order)
}

} // verus!
