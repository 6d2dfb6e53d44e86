use vstd::prelude::*;
use vstd::set_lib::lemma_int_range;
use vstd::set_lib::lemma_len_subset;
use vstd::set_lib::lemma_subset_equality;
use vstd::set_lib::set_int_range;

verus! {

/// A dependency graph over library indices. Node `i` stands for the library
/// at position `i` of the catalog; the edge `(dependent, dependency)` records
/// that `dependent` requires a symbol that `dependency` defines.
pub struct DependencyGraph {
    pub node_count: usize,
    pub edges: Vec<(usize, usize)>,
}

/// Marker for a failed topological sort: the graph holds at least one cycle.
#[derive(Debug)]
pub struct CycleDetected;

impl DependencyGraph {
    /// Every edge endpoint is a node of the graph.
    pub open spec fn wf(self) -> bool {
        forall|k: int|
            0 <= k < self.edges@.len() ==> (#[trigger] self.edges@[k]).0 < self.node_count
                && self.edges@[k].1 < self.node_count
    }

    pub open spec fn has_edge(self, u: usize, v: usize) -> bool {
        self.edges@.contains((u, v))
    }

    /// `c` is a cycle: a nonempty node sequence in which every node has an
    /// edge to the next one, and the last node has an edge back to the first.
    pub open spec fn is_cycle(self, c: Seq<usize>) -> bool {
        &&& c.len() > 0
        &&& (forall|i: int| 0 <= i < c.len() - 1 ==> self.has_edge(#[trigger] c[i], c[i + 1]))
        &&& self.has_edge(c[c.len() - 1], c[0])
    }

    pub open spec fn has_cycle(self) -> bool {
        exists|c: Seq<usize>| self.is_cycle(c)
    }
}

/// `order` lists every node of `g` exactly once, and every dependent comes
/// before each of its dependencies.
pub open spec fn is_topological_order(g: DependencyGraph, order: Seq<usize>) -> bool {
    &&& order.len() == g.node_count
    &&& order.no_duplicates()
    &&& (forall|i: int| 0 <= i < order.len() ==> (#[trigger] order[i]) < g.node_count)
    &&& (forall|i: int, j: int|
        0 <= i < order.len() && 0 <= j < order.len() && g.has_edge(#[trigger] order[i], #[trigger] order[j])
            ==> i < j)
}

/// Node `u` could be placed right after the nodes of `placed`: it is not
/// yet placed, and every edge that points into it starts from a placed
/// node.
pub open spec fn ready_after(g: DependencyGraph, placed: Seq<usize>, u: usize) -> bool {
    &&& u < g.node_count
    &&& !placed.contains(u)
    &&& forall|k: int|
        0 <= k < g.edges@.len() && (#[trigger] g.edges@[k]).1 == u ==> placed.contains(
            g.edges@[k].0,
        )
}

/// A topological order that also places, at every position, the
/// lowest-numbered node that is ready there: the deterministic tie-break
/// of the sort. For one graph, exactly one such order exists.
pub open spec fn is_min_topological_order(g: DependencyGraph, order: Seq<usize>) -> bool {
    &&& is_topological_order(g, order)
    &&& forall|i: int, u: usize|
        0 <= i < order.len() && #[trigger] ready_after(g, order.take(i), u) ==> order[i] <= u
}

/// Every edge that points into the placed prefix starts strictly earlier in
/// the prefix: the placement discipline of the sort's main loop.
pub open spec fn placed_preds_first(g: DependencyGraph, order: Seq<usize>) -> bool {
    forall|j: int, k: int|
        0 <= j < order.len() && 0 <= k < g.edges@.len() && (#[trigger] g.edges@[k]).1 == (
        #[trigger] order[j]) ==> exists|i: int| 0 <= i < j && order[i] == g.edges@[k].0
}

/// A sequence of distinct values below `n` has at most `n` elements.
proof fn lemma_bounded_distinct_len(s: Seq<usize>, n: int)
    requires
        s.no_duplicates(),
        forall|i: int| 0 <= i < s.len() ==> (#[trigger] s[i]) < n,
        n >= 0,
    ensures
        s.len() <= n,
{
    broadcast use vstd::set::group_set_axioms;

    let si = s.map_values(|x: usize| x as int);
    assert(si.no_duplicates()) by {
        assert forall|i: int, j: int|
            0 <= i < si.len() && 0 <= j < si.len() && i != j implies si[i] != si[j] by {
            assert(s[i] != s[j]);
        }
    }
    si.unique_seq_to_set();
    lemma_int_range(0, n);
    assert(si.to_set().subset_of(set_int_range(0, n))) by {
        assert forall|e: int| si.to_set().contains(e) implies set_int_range(0, n).contains(e) by {
            let idx = choose|idx: int| 0 <= idx < si.len() && si[idx] == e;
            assert(s[idx] < n);
        }
    }
    lemma_len_subset(si.to_set(), set_int_range(0, n));
}

/// A sequence of `n` distinct values below `n` holds every value below `n`.
pub proof fn lemma_bounded_distinct_full(s: Seq<usize>, n: int)
    requires
        s.no_duplicates(),
        forall|i: int| 0 <= i < s.len() ==> (#[trigger] s[i]) < n,
        s.len() == n,
    ensures
        forall|v: usize| (v as int) < n ==> s.contains(v),
{
    broadcast use vstd::set::group_set_axioms;

    let si = s.map_values(|x: usize| x as int);
    assert(si.no_duplicates()) by {
        assert forall|i: int, j: int|
            0 <= i < si.len() && 0 <= j < si.len() && i != j implies si[i] != si[j] by {
            assert(s[i] != s[j]);
        }
    }
    si.unique_seq_to_set();
    lemma_int_range(0, n);
    assert(si.to_set().subset_of(set_int_range(0, n))) by {
        assert forall|e: int| si.to_set().contains(e) implies set_int_range(0, n).contains(e) by {
            let idx = choose|idx: int| 0 <= idx < si.len() && si[idx] == e;
            assert(s[idx] < n);
        }
    }
    lemma_subset_equality(si.to_set(), set_int_range(0, n));
    assert forall|v: usize| (v as int) < n implies s.contains(v) by {
        assert(set_int_range(0, n).contains(v as int));
        assert(si.to_set().contains(v as int));
        let idx = choose|idx: int| 0 <= idx < si.len() && si[idx] == v as int;
        assert(s[idx] == v);
    }
}

/// Builds, inside a stuck state of the sort (every unplaced node keeps an
/// unplaced predecessor), a backward walk of unplaced nodes of the wanted
/// length, whose every consecutive pair is connected by an edge.
proof fn build_stuck_walk(g: DependencyGraph, placed: Seq<bool>, len: nat) -> (w: Seq<usize>)
    requires
        g.wf(),
        placed.len() == g.node_count,
        len >= 1,
        exists|u: int| 0 <= u < g.node_count && !placed[u],
        forall|u: int|
            0 <= u < g.node_count && !placed[u] ==> exists|k: int|
                0 <= k < g.edges@.len() && (#[trigger] g.edges@[k]).1 == u
                    && !placed[g.edges@[k].0 as int],
    ensures
        w.len() == len,
        forall|i: int| 0 <= i < w.len() ==> (#[trigger] w[i]) < g.node_count && !placed[w[i] as int],
        forall|i: int| 0 <= i < w.len() - 1 ==> g.has_edge(#[trigger] w[i + 1], w[i]),
    decreases len,
{
    if len == 1 {
        let u = choose|u: int| 0 <= u < g.node_count && !placed[u];
        seq![u as usize]
    } else {
        let w0 = build_stuck_walk(g, placed, (len - 1) as nat);
        let t = w0[w0.len() - 1];
        let k = choose|k: int|
            0 <= k < g.edges@.len() && (#[trigger] g.edges@[k]).1 == t
                && !placed[g.edges@[k].0 as int];
        let p = g.edges@[k].0;
        assert(g.has_edge(p, t));
        let w = w0.push(p);
        assert forall|i: int| 0 <= i < w.len() - 1 implies g.has_edge(#[trigger] w[i + 1], w[i]) by {
            if i < w0.len() - 1 {
                assert(g.has_edge(w0[i + 1], w0[i]));
            }
        }
        w
    }
}

/// When the sort is stuck, the graph holds a cycle: following unplaced
/// predecessors long enough must revisit a node.
proof fn lemma_stuck_implies_cycle(g: DependencyGraph, placed: Seq<bool>)
    requires
        g.wf(),
        placed.len() == g.node_count,
        exists|u: int| 0 <= u < g.node_count && !placed[u],
        forall|u: int|
            0 <= u < g.node_count && !placed[u] ==> exists|k: int|
                0 <= k < g.edges@.len() && (#[trigger] g.edges@[k]).1 == u
                    && !placed[g.edges@[k].0 as int],
    ensures
        g.has_cycle(),
{
    let n = g.node_count as int;
    let w = build_stuck_walk(g, placed, (n + 1) as nat);
    assert(!w.no_duplicates()) by {
        if w.no_duplicates() {
            lemma_bounded_distinct_len(w, n);
        }
    }
    let (p, q) = choose|p: int, q: int|
        0 <= p < w.len() && 0 <= q < w.len() && p != q && w[p] == w[q];
    let (lo, hi) = if p < q { (p, q) } else { (q, p) };
    let c = Seq::new((hi - lo) as nat, |t: int| w[hi - t]);
    assert(c.len() > 0);
    assert forall|i: int| 0 <= i < c.len() - 1 implies g.has_edge(#[trigger] c[i], c[i + 1]) by {
        assert(c[i] == w[hi - i]);
        assert(c[i + 1] == w[hi - i - 1]);
        assert(g.has_edge(w[(hi - i - 1) + 1], w[hi - i - 1]));
    }
    assert(g.has_edge(c[c.len() - 1], c[0])) by {
        assert(c[c.len() - 1] == w[lo + 1]);
        assert(c[0] == w[hi]);
        assert(g.has_edge(w[lo + 1], w[lo]));
        assert(w[lo] == w[hi]);
    }
    assert(g.is_cycle(c));
}

/// The position of `v` inside `order`.
spec fn position_of(order: Seq<usize>, v: usize) -> int {
    choose|i: int| 0 <= i < order.len() && order[i] == v
}

/// Along a cycle, positions inside a topological order never decrease from
/// the first node to any later one.
proof fn lemma_cycle_chain(g: DependencyGraph, order: Seq<usize>, c: Seq<usize>, t: int)
    requires
        g.wf(),
        is_topological_order(g, order),
        g.is_cycle(c),
        0 <= t < c.len(),
        forall|v: usize| (v as int) < g.node_count ==> order.contains(v),
    ensures
        0 <= position_of(order, c[0]) < order.len(),
        order[position_of(order, c[0])] == c[0],
        0 <= position_of(order, c[t]) < order.len(),
        order[position_of(order, c[t])] == c[t],
        position_of(order, c[0]) <= position_of(order, c[t]),
    decreases t,
{
    assert(c[0] < g.node_count) by {
        if c.len() == 1 {
            assert(g.has_edge(c[0], c[0]));
            let k = choose|k: int| 0 <= k < g.edges@.len() && g.edges@[k] == (c[0], c[0]);
            assert(g.edges@[k].0 < g.node_count);
        } else {
            assert(g.has_edge(c[0], c[1]));
            let k = choose|k: int| 0 <= k < g.edges@.len() && g.edges@[k] == (c[0], c[1]);
            assert(g.edges@[k].0 < g.node_count);
        }
    }
    assert(order.contains(c[0]));
    let i0 = position_of(order, c[0]);
    assert(0 <= i0 < order.len() && order[i0] == c[0]);
    if t > 0 {
        lemma_cycle_chain(g, order, c, t - 1);
        let a = position_of(order, c[t - 1]);
        assert(g.has_edge(c[t - 1], c[t]));
        assert(c[t] < g.node_count) by {
            let k = choose|k: int| 0 <= k < g.edges@.len() && g.edges@[k] == (c[t - 1], c[t]);
            assert(g.edges@[k].1 < g.node_count);
        }
        assert(order.contains(c[t]));
        let b = position_of(order, c[t]);
        assert(0 <= b < order.len() && order[b] == c[t]);
        assert(g.has_edge(order[a], order[b]));
        assert(a < b);
    }
}

/// A graph with a topological order holds no cycle: positions would have to
/// strictly increase around the cycle and still return to the start.
proof fn lemma_topo_order_no_cycle(g: DependencyGraph, order: Seq<usize>)
    requires
        g.wf(),
        is_topological_order(g, order),
    ensures
        !g.has_cycle(),
{
    if g.has_cycle() {
        let c = choose|c: Seq<usize>| g.is_cycle(c);
        lemma_bounded_distinct_full(order, g.node_count as int);
        let t = c.len() - 1;
        lemma_cycle_chain(g, order, c, t);
        let i0 = position_of(order, c[0]);
        let it = position_of(order, c[t]);
        assert(g.has_edge(order[it], order[i0]));
        assert(it < i0);
        assert(false);
    }
}

/// Reports whether every predecessor of `u` (every edge that points into
/// `u`) is already placed.
fn preds_placed(g: &DependencyGraph, placed: &Vec<bool>, u: usize) -> (r: bool)
    requires
        g.wf(),
        placed@.len() == g.node_count,
        u < g.node_count,
    ensures
        r == (forall|k: int|
            0 <= k < g.edges@.len() && (#[trigger] g.edges@[k]).1 == u ==> placed@[g.edges@[k].0 as int]),
{
    let mut k: usize = 0;
    while k < g.edges.len()
        invariant
            g.wf(),
            placed@.len() == g.node_count,
            k <= g.edges@.len(),
            forall|t: int|
                0 <= t < k && (#[trigger] g.edges@[t]).1 == u ==> placed@[g.edges@[t].0 as int],
        decreases g.edges@.len() - k,
    {
        let (a, b) = g.edges[k];
        if b == u && !placed[a] {
            assert(g.edges@[k as int].1 == u && !placed@[g.edges@[k as int].0 as int]);
            return false;
        }
        k = k + 1;
    }
    true
}

/// Finds the lowest-numbered node that is not yet placed and whose
/// predecessors are all placed, if one exists.
fn find_ready(g: &DependencyGraph, placed: &Vec<bool>) -> (r: Option<usize>)
    requires
        g.wf(),
        placed@.len() == g.node_count,
    ensures
        match r {
            Some(u) => u < g.node_count && !placed@[u as int] && (forall|k: int|
                0 <= k < g.edges@.len() && (#[trigger] g.edges@[k]).1 == u
                    ==> placed@[g.edges@[k].0 as int]) && (forall|w: int|
                0 <= w < u && !placed@[w] ==> exists|k: int|
                    0 <= k < g.edges@.len() && (#[trigger] g.edges@[k]).1 == w
                        && !placed@[g.edges@[k].0 as int]),
            None => forall|u: int|
                0 <= u < g.node_count && !placed@[u] ==> exists|k: int|
                    0 <= k < g.edges@.len() && (#[trigger] g.edges@[k]).1 == u
                        && !placed@[g.edges@[k].0 as int],
        },
{
    let mut u: usize = 0;
    while u < g.node_count
        invariant
            g.wf(),
            placed@.len() == g.node_count,
            u <= g.node_count,
            forall|w: int|
                0 <= w < u && !placed@[w] ==> exists|k: int|
                    0 <= k < g.edges@.len() && (#[trigger] g.edges@[k]).1 == w
                        && !placed@[g.edges@[k].0 as int],
        decreases g.node_count - u,
    {
        if !placed[u] && preds_placed(g, placed, u) {
            return Some(u);
        }
        u = u + 1;
    }
    None
}

/// When the sort has placed fewer nodes than the graph holds, some node is
/// still unplaced.
proof fn lemma_incomplete_has_unplaced(order: Seq<usize>, placed: Seq<bool>, n: int)
    requires
        placed.len() == n,
        n <= usize::MAX,
        order.no_duplicates(),
        order.len() < n,
        forall|i: int| 0 <= i < order.len() ==> (#[trigger] order[i]) < n,
        forall|v: usize| (v as int) < n ==> (placed[v as int] <==> order.contains(v)),
    ensures
        exists|u: int| 0 <= u < n && !placed[u],
{
    broadcast use vstd::set::group_set_axioms;

    if forall|u: int| 0 <= u < n ==> placed[u] {
        let si = order.map_values(|x: usize| x as int);
        assert(si.no_duplicates()) by {
            assert forall|i: int, j: int|
                0 <= i < si.len() && 0 <= j < si.len() && i != j implies si[i] != si[j] by {
                assert(order[i] != order[j]);
            }
        }
        si.unique_seq_to_set();
        lemma_int_range(0, n);
        assert(set_int_range(0, n).subset_of(si.to_set())) by {
            assert forall|e: int| set_int_range(0, n).contains(e) implies si.to_set().contains(e) by {
                assert(placed[e]);
                assert((e as usize) as int == e);
                assert(order.contains(e as usize));
                let idx = choose|idx: int| 0 <= idx < order.len() && order[idx] == e as usize;
                assert(si[idx] == e);
            }
        }
        vstd::seq_lib::seq_to_set_is_finite(si);
        lemma_len_subset(set_int_range(0, n), si.to_set());
        assert(false);
    }
}

/// Topologically sorts `g`: on success the returned sequence lists every
/// node exactly once with each dependent strictly before each of its
/// dependencies, and the sort succeeds exactly when `g` is acyclic. Among
/// the nodes ready in a round, the lowest-numbered one is placed first, so
/// the order is deterministic for one graph.
pub fn toposort(g: &DependencyGraph) -> (r: Result<Vec<usize>, CycleDetected>)
    requires
        g.wf(),
    ensures
        match r {
            Ok(order) => is_min_topological_order(*g, order@),
            Err(_) => true,
        },
        r is Ok <==> !g.has_cycle(),
{
    let n = g.node_count;
    let mut placed: Vec<bool> = Vec::new();
    let mut i: usize = 0;
    while i < n
        invariant
            i <= n,
            placed@.len() == i,
            forall|w: int| 0 <= w < i ==> !placed@[w],
        decreases n - i,
    {
        placed.push(false);
        i = i + 1;
    }

    let mut order: Vec<usize> = Vec::new();
    while order.len() < n
        invariant
            g.wf(),
            n == g.node_count,
            placed@.len() == n,
            order@.len() <= n,
            order@.no_duplicates(),
            forall|t: int| 0 <= t < order@.len() ==> (#[trigger] order@[t]) < n,
            forall|v: usize| (v as int) < n ==> (placed@[v as int] <==> order@.contains(v)),
            placed_preds_first(*g, order@),
            forall|i: int, u: usize|
                0 <= i < order@.len() && #[trigger] ready_after(*g, order@.take(i), u)
                    ==> order@[i] <= u,
        decreases n - order.len(),
    {
        match find_ready(g, &placed) {
            Some(u) => {
                let ghost old_order = order@;
                let ghost old_placed = placed@;
                order.push(u);
                placed[u] = true;
                proof {
                    assert(!old_order.contains(u));
                    assert(order@ == old_order.push(u));
                    assert(order@.no_duplicates()) by {
                        assert forall|a: int, b: int|
                            0 <= a < order@.len() && 0 <= b < order@.len() && a != b
                            implies order@[a] != order@[b] by {
                            if a < old_order.len() && b < old_order.len() {
                            } else if a < old_order.len() {
                                assert(order@[a] == old_order[a]);
                                if order@[a] == u {
                                    assert(old_order.contains(u));
                                }
                            } else {
                                assert(order@[b] == old_order[b]);
                                if order@[b] == u {
                                    assert(old_order.contains(u));
                                }
                            }
                        }
                    }
                    assert forall|v: usize| (v as int) < n implies
                        (placed@[v as int] <==> order@.contains(v)) by {
                        if v == u {
                            assert(order@[order@.len() - 1] == u);
                            assert(order@.contains(u));
                        } else {
                            assert(placed@[v as int] == old_placed[v as int]);
                            if order@.contains(v) {
                                let idx = choose|idx: int|
                                    0 <= idx < order@.len() && order@[idx] == v;
                                assert(idx < old_order.len());
                                assert(old_order.contains(v));
                            }
                            if old_order.contains(v) {
                                let idx = choose|idx: int|
                                    0 <= idx < old_order.len() && old_order[idx] == v;
                                assert(order@[idx] == v);
                            }
                        }
                    }
                    assert forall|i: int, u2: usize|
                        0 <= i < order@.len() && #[trigger] ready_after(*g, order@.take(i), u2)
                        implies order@[i] <= u2 by {
                        if i < old_order.len() {
                            assert(order@.take(i) =~= old_order.take(i));
                            assert(order@[i] == old_order[i]);
                        } else {
                            assert(order@.take(i) =~= old_order);
                            assert(order@[i] == u);
                            if u2 < u {
                                assert(!old_order.contains(u2));
                                assert(!old_placed[u2 as int]);
                                let k = choose|k: int|
                                    0 <= k < g.edges@.len() && (#[trigger] g.edges@[k]).1 == u2
                                        && !old_placed[g.edges@[k].0 as int];
                                assert(g.edges@[k].0 < n);
                                assert(!old_order.contains(g.edges@[k].0));
                                assert(old_order.contains(g.edges@[k].0));
                            }
                        }
                    }
                    assert(placed_preds_first(*g, order@)) by {
                        assert forall|j: int, k: int|
                            0 <= j < order@.len() && 0 <= k < g.edges@.len()
                                && (#[trigger] g.edges@[k]).1 == (#[trigger] order@[j])
                            implies exists|i2: int| 0 <= i2 < j && order@[i2] == g.edges@[k].0 by {
                            if j < old_order.len() {
                                assert(old_order[j] == order@[j]);
                                let i2 = choose|i2: int|
                                    0 <= i2 < j && old_order[i2] == g.edges@[k].0;
                                assert(order@[i2] == g.edges@[k].0);
                            } else {
                                assert(order@[j] == u);
                                assert(old_placed[g.edges@[k].0 as int]);
                                assert(old_order.contains(g.edges@[k].0));
                                let i2 = choose|i2: int|
                                    0 <= i2 < old_order.len() && old_order[i2] == g.edges@[k].0;
                                assert(order@[i2] == g.edges@[k].0);
                            }
                        }
                    }
                }
            },
            None => {
                proof {
                    lemma_incomplete_has_unplaced(order@, placed@, n as int);
                    lemma_stuck_implies_cycle(*g, placed@);
                }
                return Err(CycleDetected);
            },
        }
    }
    proof {
        assert forall|i2: int, j2: int|
            0 <= i2 < order@.len() && 0 <= j2 < order@.len()
                && g.has_edge(#[trigger] order@[i2], #[trigger] order@[j2]) implies i2 < j2 by {
            let k = choose|k: int|
                0 <= k < g.edges@.len() && g.edges@[k] == (order@[i2], order@[j2]);
            assert(g.edges@[k].1 == order@[j2]);
            let i3 = choose|i3: int| 0 <= i3 < j2 && order@[i3] == g.edges@[k].0;
            assert(order@[i3] == order@[i2]);
            assert(i3 == i2);
        }
        assert(is_topological_order(*g, order@));
        assert(is_min_topological_order(*g, order@));
        lemma_topo_order_no_cycle(*g, order@);
    }
    Ok(order)
}

} // verus!
