use vstd::prelude::*;
use crate::catalog::AllLibs;
use crate::errors::DepFindError;
use crate::graph::DependencyGraph;
use crate::graph::is_min_topological_order;
use crate::graph::lemma_bounded_distinct_full;
use crate::graph::ready_after;
use crate::graph::toposort;
use crate::libinfo::LibInfo;
use crate::table::AllSymbols;
use crate::table::get_lib_for_symbol;
use crate::table::table_lookup;

verus! {

/// Library `a` depends on library `b`: some undefined-symbol occurrence of
/// `a` resolves, through the defined table, to `b`, and the two are
/// different libraries. A library's own symbols never make it its own
/// dependency.
pub open spec fn needs(tbl: AllSymbols, a: LibInfo, b: LibInfo) -> bool {
    a.name@ != b.name@ && exists|p: int|
        0 <= p < tbl.undefined@.len() && (#[trigger] tbl.undefined@[p]).1.name@ == a.name@
            && (table_lookup(tbl.defined@, tbl.undefined@[p].0@) matches Some(l) && l.name@
            == b.name@)
}

/// A dependency cycle among the catalog's libraries, by index.
pub open spec fn lib_dep_cycle(al: AllLibs, c: Seq<usize>) -> bool {
    &&& c.len() > 0
    &&& (forall|i: int| 0 <= i < c.len() ==> (#[trigger] c[i]) < al.libs@.len())
    &&& (forall|i: int|
        0 <= i < c.len() - 1 ==> needs(
            al.all_symbols,
            al.libs@[#[trigger] c[i] as int],
            al.libs@[c[i + 1] as int],
        ))
    &&& needs(al.all_symbols, al.libs@[c[c.len() - 1] as int], al.libs@[c[0] as int])
}

pub open spec fn has_dep_cycle(al: AllLibs) -> bool {
    exists|c: Seq<usize>| lib_dep_cycle(al, c)
}

/// Library `u` could be placed right after those of `placed`: it is not
/// yet placed, and every library that depends on it is placed.
pub open spec fn needs_ready(al: AllLibs, placed: Seq<usize>, u: usize) -> bool {
    &&& (u as int) < al.libs@.len()
    &&& !placed.contains(u)
    &&& forall|w: usize|
        (w as int) < al.libs@.len() && #[trigger] needs(
            al.all_symbols,
            al.libs@[w as int],
            al.libs@[u as int],
        ) ==> placed.contains(w)
}

/// The canonical link order of a catalog, by index: every library exactly
/// once, each dependent strictly before its dependencies, and at every
/// position the lowest-indexed ready library. For one catalog, exactly one
/// such order exists, so the resolver's output is deterministic: repeated
/// undefined occurrences, occurrences nothing resolves, and unreferenced
/// duplicate definitions change neither the relation nor the order.
pub open spec fn is_min_needs_order(al: AllLibs, ord: Seq<usize>) -> bool {
    &&& ord.len() == al.libs@.len()
    &&& ord.no_duplicates()
    &&& (forall|i: int| 0 <= i < ord.len() ==> (#[trigger] ord[i] as int) < al.libs@.len())
    &&& (forall|i: int, j: int|
        0 <= i < ord.len() && 0 <= j < ord.len() && needs(
            al.all_symbols,
            al.libs@[#[trigger] ord[i] as int],
            al.libs@[#[trigger] ord[j] as int],
        ) ==> i < j)
    &&& (forall|i: int, u: usize|
        0 <= i < ord.len() && #[trigger] needs_ready(al, ord.take(i), u) ==> ord[i] <= u)
}

/// Undefined pair `p` of the table resolves to the directed edge `(u, v)`
/// between catalog indices.
pub open spec fn pair_generates(tbl: AllSymbols, libs: Seq<LibInfo>, p: int, u: int, v: int) -> bool {
    &&& 0 <= u < libs.len()
    &&& 0 <= v < libs.len()
    &&& tbl.undefined@[p].1.name@ == libs[u].name@
    &&& (table_lookup(tbl.defined@, tbl.undefined@[p].0@) matches Some(l) && l.name@
        == libs[v].name@)
    &&& libs[u].name@ != libs[v].name@
}

/// Two catalog positions with the same name are the same position.
proof fn lemma_lib_index_unique(libs: Seq<LibInfo>, i: int, j: int)
    requires
        libs.map_values(|l: LibInfo| l.name@).no_duplicates(),
        0 <= i < libs.len(),
        0 <= j < libs.len(),
        libs[i].name@ == libs[j].name@,
    ensures
        i == j,
{
    let names = libs.map_values(|l: LibInfo| l.name@);
    assert(names[i] == libs[i].name@);
    assert(names[j] == libs[j].name@);
}

/// Finds the position of the library with the given name, if any.
fn find_lib_index(libs: &Vec<LibInfo>, name: &String) -> (r: Option<usize>)
    ensures
        match r {
            Some(u) => u < libs@.len() && libs@[u as int].name@ == name@,
            None => forall|u: int| 0 <= u < libs@.len() ==> (#[trigger] libs@[u]).name@ != name@,
        },
{
    let mut u: usize = 0;
    while u < libs.len()
        invariant
            u <= libs@.len(),
            forall|t: int| 0 <= t < u ==> (#[trigger] libs@[t]).name@ != name@,
        decreases libs@.len() - u,
    {
        if libs[u].name.eq(name) {
            return Some(u);
        }
        u = u + 1;
    }
    None
}

/// Reports whether the edge list already holds `e`.
fn edge_in(edges: &Vec<(usize, usize)>, e: (usize, usize)) -> (r: bool)
    ensures
        r == edges@.contains(e),
{
    let mut t: usize = 0;
    while t < edges.len()
        invariant
            t <= edges@.len(),
            forall|q: int| 0 <= q < t ==> (#[trigger] edges@[q]) != e,
        decreases edges@.len() - t,
    {
        let (a, b) = edges[t];
        if a == e.0 && b == e.1 {
            return true;
        }
        t = t + 1;
    }
    false
}

/// Builds the dependency graph of the catalog: one node per library, and
/// one deduplicated edge `(dependent, dependency)` for every resolved
/// undefined symbol that crosses libraries. A symbol a library resolves
/// from its own defined set yields no edge, and a symbol nothing defines
/// yields no edge.
pub fn build_dependency_graph(al: &AllLibs) -> (g: DependencyGraph)
    requires
        al.wf(),
    ensures
        g.wf(),
        g.node_count == al.libs@.len(),
        g.edges@.no_duplicates(),
        forall|u: usize, v: usize| #[trigger]
            g.has_edge(u, v) <==> ((u as int) < al.libs@.len() && (v as int) < al.libs@.len()
                && needs(al.all_symbols, al.libs@[u as int], al.libs@[v as int])),
        forall|u: usize| !g.has_edge(u, u),
{
    let n = al.libs.len();
    let mut edges: Vec<(usize, usize)> = Vec::new();
    let mut p: usize = 0;
    while p < al.all_symbols.undefined.len()
        invariant
            al.wf(),
            n == al.libs@.len(),
            p <= al.all_symbols.undefined@.len(),
            edges@.no_duplicates(),
            forall|t: int|
                0 <= t < edges@.len() ==> (#[trigger] edges@[t]).0 < n && edges@[t].1 < n,
            forall|u: usize, v: usize|
                #![trigger edges@.contains((u, v))]
                (edges@.contains((u, v)) <==> exists|p2: int|
                    0 <= p2 < p && pair_generates(
                        al.all_symbols,
                        al.libs@,
                        p2,
                        u as int,
                        v as int,
                    )),
        decreases al.all_symbols.undefined@.len() - p,
    {
        let ghost edges0 = edges@;
        let sym_ref = &al.all_symbols.undefined[p].0;
        let dependent_name = &al.all_symbols.undefined[p].1.name;
        let mut produced: Option<(usize, usize)> = None;
        let ghost pg = al.all_symbols.undefined@[p as int];
        match get_lib_for_symbol(sym_ref, &al.all_symbols.defined) {
            Some(dependency) => {
                match find_lib_index(&al.libs, dependent_name) {
                    Some(u) => {
                        match find_lib_index(&al.libs, &dependency.name) {
                            Some(v) => {
                                if u != v {
                                    proof {
                                        lemma_lib_index_unique(al.libs@, u as int, u as int);
                                        assert(al.libs@[u as int].name@ != al.libs@[v as int].name@)
                                            by {
                                            if al.libs@[u as int].name@ == al.libs@[
                                                v as int].name@ {
                                                lemma_lib_index_unique(
                                                    al.libs@,
                                                    u as int,
                                                    v as int,
                                                );
                                            }
                                        }
                                        assert(pair_generates(
                                            al.all_symbols,
                                            al.libs@,
                                            p as int,
                                            u as int,
                                            v as int,
                                        ));
                                    }
                                    if !edge_in(&edges, (u, v)) {
                                        edges.push((u, v));
                                    }
                                    produced = Some((u, v));
                                }
                            },
                            None => {},
                        }
                    },
                    None => {},
                }
            },
            None => {},
        }
        proof {
            let tbl = al.all_symbols;
            let libsv = al.libs@;
            assert forall|u: usize, v: usize|
                #![trigger edges@.contains((u, v))]
                (edges@.contains((u, v)) <==> exists|p2: int|
                    0 <= p2 < p + 1 && pair_generates(
                        tbl,
                        libsv,
                        p2,
                        u as int,
                        v as int,
                    )) by {
                match produced {
                    Some(e) => {
                        assert(pair_generates(tbl, libsv, p as int, e.0 as int, e.1 as int));
                        if edges@.contains((u, v)) {
                            if edges0.contains((u, v)) {
                            } else {
                                let q = choose|q: int|
                                    0 <= q < edges@.len() && edges@[q] == (u, v);
                                assert(edges@[edges@.len() - 1] == e);
                                assert((u, v) == e);
                            }
                        }
                        if exists|p2: int|
                            0 <= p2 < p + 1 && pair_generates(tbl, libsv, p2, u as int, v as int) {
                            let p2 = choose|p2: int|
                                0 <= p2 < p + 1 && pair_generates(tbl, libsv, p2, u as int, v as int);
                            if p2 < p {
                                assert(edges0.contains((u, v)));
                                let q = choose|q: int|
                                    0 <= q < edges0.len() && edges0[q] == (u, v);
                                assert(edges@[q] == (u, v));
                            } else {
                                assert(pair_generates(tbl, libsv, p as int, u as int, v as int));
                                assert(libsv[u as int].name@ == tbl.undefined@[p as int].1.name@);
                                assert(libsv[e.0 as int].name@ == tbl.undefined@[p as int].1.name@);
                                lemma_lib_index_unique(libsv, u as int, e.0 as int);
                                assert(table_lookup(tbl.defined@, tbl.undefined@[p as int].0@)
                                    is Some);
                                let l = table_lookup(
                                    tbl.defined@,
                                    tbl.undefined@[p as int].0@,
                                ).unwrap();
                                assert(libsv[v as int].name@ == l.name@);
                                assert(libsv[e.1 as int].name@ == l.name@);
                                lemma_lib_index_unique(libsv, v as int, e.1 as int);
                                assert((u, v) == e);
                                assert(edges@.contains(e)) by {
                                    if edges0.contains(e) {
                                        let q = choose|q: int|
                                            0 <= q < edges0.len() && edges0[q] == e;
                                        assert(edges@[q] == e);
                                    } else {
                                        assert(edges@[edges@.len() - 1] == e);
                                    }
                                }
                            }
                        }
                    },
                    None => {
                        assert(edges@ == edges0);
                        assert forall|p2: int, u2: int, v2: int|
                            0 <= p2 < p + 1 && pair_generates(tbl, libsv, p2, u2, v2) implies p2
                            < p by {
                            if p2 == p {
                                assert(pair_generates(tbl, libsv, p as int, u2, v2));
                                assert(false);
                            }
                        }
                    },
                }
            }
        }
        p = p + 1;
    }
    let g = DependencyGraph { node_count: n, edges };
    proof {
        assert forall|u: usize, v: usize| #[trigger]
            g.has_edge(u, v) <==> ((u as int) < al.libs@.len() && (v as int) < al.libs@.len()
                && needs(al.all_symbols, al.libs@[u as int], al.libs@[v as int])) by {
            let tbl = al.all_symbols;
            let libsv = al.libs@;
            if g.has_edge(u, v) {
                let p2 = choose|p2: int|
                    0 <= p2 < tbl.undefined@.len() && pair_generates(
                        tbl,
                        libsv,
                        p2,
                        u as int,
                        v as int,
                    );
                assert(needs(tbl, libsv[u as int], libsv[v as int]));
            }
            if (u as int) < libsv.len() && (v as int) < libsv.len() && needs(
                tbl,
                libsv[u as int],
                libsv[v as int],
            ) {
                let p2 = choose|p2: int|
                    0 <= p2 < tbl.undefined@.len() && (#[trigger] tbl.undefined@[p2]).1.name@
                        == libsv[u as int].name@ && (table_lookup(
                        tbl.defined@,
                        tbl.undefined@[p2].0@,
                    ) matches Some(l) && l.name@ == libsv[v as int].name@);
                assert(pair_generates(tbl, libsv, p2, u as int, v as int));
            }
        }
        assert forall|u: usize| !g.has_edge(u, u) by {
            if g.has_edge(u, u) {
                assert(needs(al.all_symbols, al.libs@[u as int], al.libs@[u as int]));
            }
        }
    }
    g
}

/// Orders the catalog's libraries so that every dependent library comes
/// strictly before each of its dependencies, as a single-pass linker needs
/// them; succeeds exactly when the dependency graph is acyclic, and
/// otherwise reports the cycle with no partial ordering.
pub fn order_dependencies(libs: AllLibs) -> (r: Result<Vec<LibInfo>, DepFindError>)
    requires
        libs.wf(),
    ensures
        r is Ok <==> !has_dep_cycle(libs),
        match r {
            Ok(ordered) => {
                &&& ordered@.len() == libs.libs@.len()
                &&& (forall|i: int, j: int|
                    0 <= i < ordered@.len() && 0 <= j < ordered@.len() && i != j ==> (
                    #[trigger] ordered@[i]).name@ != (#[trigger] ordered@[j]).name@)
                &&& (forall|i: int|
                    0 <= i < ordered@.len() ==> libs.libs@.contains(#[trigger] ordered@[i]))
                &&& (forall|u: int|
                    0 <= u < libs.libs@.len() ==> ordered@.contains(#[trigger] libs.libs@[u]))
                &&& (forall|i: int, j: int|
                    0 <= i < ordered@.len() && 0 <= j < ordered@.len() && needs(
                        libs.all_symbols,
                        #[trigger] ordered@[i],
                        #[trigger] ordered@[j],
                    ) ==> i < j)
                &&& (exists|ord: Seq<usize>|
                    #[trigger] is_min_needs_order(libs, ord) && ordered@.len() == ord.len() && (
                    forall|i: int| 0 <= i < ord.len() ==> ordered@[i] == libs.libs@[ord[i] as int]))
            },
            Err(e) => e == DepFindError::CylicDependency,
        },
{
    let dep_graph = build_dependency_graph(&libs);
    let ghost n = libs.libs@.len() as int;
    match toposort(&dep_graph) {
        Ok(order) => {
            proof {
                lemma_bounded_distinct_full(order@, n);
            }
            let mut ordered: Vec<LibInfo> = Vec::new();
            let mut i: usize = 0;
            while i < order.len()
                invariant
                    is_min_topological_order(dep_graph, order@),
                    n == libs.libs@.len(),
                    dep_graph.node_count == n,
                    i <= order@.len(),
                    ordered@.len() == i,
                    forall|t: int|
                        0 <= t < i ==> #[trigger] ordered@[t] == libs.libs@[order@[t] as int],
                decreases order@.len() - i,
            {
                let idx = order[i];
                ordered.push(libs.libs[idx].clone());
                i = i + 1;
            }
            proof {
                assert forall|i2: int, j2: int|
                    0 <= i2 < ordered@.len() && 0 <= j2 < ordered@.len() && i2 != j2 implies (
                #[trigger] ordered@[i2]).name@ != (#[trigger] ordered@[j2]).name@ by {
                    assert(order@[i2] != order@[j2]);
                    lemma_lib_index_unique_contra(libs.libs@, order@[i2] as int, order@[j2] as int);
                }
                assert forall|u: int|
                    0 <= u < libs.libs@.len() implies ordered@.contains(
                    #[trigger] libs.libs@[u]) by {
                    assert(order@.contains(u as usize));
                    let t = choose|t: int| 0 <= t < order@.len() && order@[t] == u as usize;
                    assert(ordered@[t] == libs.libs@[u]);
                }
                assert forall|i2: int, j2: int|
                    0 <= i2 < ordered@.len() && 0 <= j2 < ordered@.len() && needs(
                        libs.all_symbols,
                        #[trigger] ordered@[i2],
                        #[trigger] ordered@[j2],
                    ) implies i2 < j2 by {
                    let u = order@[i2];
                    let v = order@[j2];
                    assert(ordered@[i2] == libs.libs@[u as int]);
                    assert(ordered@[j2] == libs.libs@[v as int]);
                    assert(dep_graph.has_edge(u, v));
                }
                assert(is_min_needs_order(libs, order@)) by {
                    assert forall|i2: int, j2: int|
                        0 <= i2 < order@.len() && 0 <= j2 < order@.len() && needs(
                            libs.all_symbols,
                            libs.libs@[#[trigger] order@[i2] as int],
                            libs.libs@[#[trigger] order@[j2] as int],
                        ) implies i2 < j2 by {
                        assert(dep_graph.has_edge(order@[i2], order@[j2]));
                    }
                    assert forall|i2: int, u: usize|
                        0 <= i2 < order@.len() && #[trigger] needs_ready(
                            libs,
                            order@.take(i2),
                            u,
                        ) implies order@[i2] <= u by {
                        let p = order@.take(i2);
                        assert(ready_after(dep_graph, p, u)) by {
                            assert((u as int) < dep_graph.node_count);
                            assert(!p.contains(u));
                            assert forall|k: int|
                                0 <= k < dep_graph.edges@.len() && (#[trigger] dep_graph.edges@[
                                k]).1 == u implies p.contains(dep_graph.edges@[k].0) by {
                                let w = dep_graph.edges@[k].0;
                                assert(dep_graph.edges@[k] == (w, u));
                                assert(dep_graph.edges@.contains((w, u)));
                                assert(dep_graph.has_edge(w, u));
                                assert(needs(
                                    libs.all_symbols,
                                    libs.libs@[w as int],
                                    libs.libs@[u as int],
                                ));
                            }
                        }
                    }
                }
                assert(exists|ord: Seq<usize>|
                    #[trigger] is_min_needs_order(libs, ord) && ordered@.len() == ord.len() && (
                    forall|i2: int|
                        0 <= i2 < ord.len() ==> ordered@[i2] == libs.libs@[ord[i2] as int])) by {
                    assert(is_min_needs_order(libs, order@) && ordered@.len() == order@.len() && (
                    forall|i2: int|
                        0 <= i2 < order@.len() ==> ordered@[i2] == libs.libs@[order@[i2] as int]));
                }
                assert(!has_dep_cycle(libs)) by {
                    if has_dep_cycle(libs) {
                        let c = choose|c: Seq<usize>| lib_dep_cycle(libs, c);
                        assert(dep_graph.is_cycle(c)) by {
                            assert forall|t: int|
                                0 <= t < c.len() - 1 implies dep_graph.has_edge(
                                #[trigger] c[t],
                                c[t + 1],
                            ) by {
                                assert(needs(
                                    libs.all_symbols,
                                    libs.libs@[c[t] as int],
                                    libs.libs@[c[t + 1] as int],
                                ));
                            }
                            assert(needs(
                                libs.all_symbols,
                                libs.libs@[c[c.len() - 1] as int],
                                libs.libs@[c[0] as int],
                            ));
                        }
                        assert(dep_graph.has_cycle());
                    }
                }
            }
            Ok(ordered)
        },
        Err(cycle) => {
            proof {
                assert(has_dep_cycle(libs)) by {
                    let c = choose|c: Seq<usize>| dep_graph.is_cycle(c);
                    assert(lib_dep_cycle(libs, c)) by {
                        if c.len() == 1 {
                            assert(dep_graph.has_edge(c[0], c[0]));
                        }
                        assert forall|t: int| 0 <= t < c.len() implies (#[trigger] c[t]) < n by {
                            if t < c.len() - 1 {
                                assert(dep_graph.has_edge(c[t], c[t + 1]));
                            } else {
                                assert(dep_graph.has_edge(c[c.len() - 1], c[0]));
                            }
                        }
                        assert forall|t: int|
                            0 <= t < c.len() - 1 implies needs(
                            libs.all_symbols,
                            libs.libs@[#[trigger] c[t] as int],
                            libs.libs@[c[t + 1] as int],
                        ) by {
                            assert(dep_graph.has_edge(c[t], c[t + 1]));
                        }
                        assert(dep_graph.has_edge(c[c.len() - 1], c[0]));
                    }
                }
            }
            Err(DepFindError::from(cycle))
        },
    }
}

/// Two catalog positions with distinct indices carry distinct names.
proof fn lemma_lib_index_unique_contra(libs: Seq<LibInfo>, i: int, j: int)
    requires
        libs.map_values(|l: LibInfo| l.name@).no_duplicates(),
        0 <= i < libs.len(),
        0 <= j < libs.len(),
        i != j,
    ensures
        libs[i].name@ != libs[j].name@,
{
    if libs[i].name@ == libs[j].name@ {
        lemma_lib_index_unique(libs, i, j);
    }
}

} // verus!
