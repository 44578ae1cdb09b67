use vstd::prelude::*;
use vstd::set_lib::{lemma_int_range, lemma_len_subset, set_int_range};
use crate::analysis::{
    acyclic, closure_complete, closure_row_ok, covers, is_path, memo_ok, reachable,
    union_into, all_false,
};
use crate::module_graph::{ids_view, Graph, GraphView, Id, Module, ModuleView};

verus! {

/// `d` is an import of `a` that no import of `a` already reaches.
pub open spec fn reduced_edge(g: GraphView, a: nat, d: nat) -> bool {
    &&& g.edge(a, d)
    &&& !exists|e: nat| #[trigger] g.edge(a, e) && reachable(g, e, d)
}

/// The graph that keeps, of each record's imports, only the reduced ones.
pub open spec fn reduced_view(g: GraphView) -> GraphView {
    GraphView {
        names: g.names,
        records: Seq::new(
            g.records.len(),
            |i: int|
                match g.records[i] {
                    Some(m) => Some(
                        ModuleView {
                            id: m.id,
                            prelude: m.prelude,
                            deps: m.deps.filter(|d: nat| reduced_edge(g, i as nat, d)),
                        },
                    ),
                    None => None,
                },
        ),
    }
}

proof fn lemma_reduced_view_edge(g: GraphView, a: nat, b: nat)
    ensures
        reduced_view(g).edge(a, b) <==> reduced_edge(g, a, b),
{
    let rg = reduced_view(g);
    if g.has_record(a) {
        let deps = g.record(a).deps;
        let pred = |d: nat| reduced_edge(g, a, d);
        assert(rg.record(a).deps == deps.filter(pred));
        if rg.edge(a, b) {
            let i = deps.filter(pred).index_of(b);
            deps.lemma_filter_pred(pred, i);
        }
        if reduced_edge(g, a, b) {
            let i = deps.index_of(b);
            deps.lemma_filter_contains(pred, i);
        }
    }
}

/// The identifiers in `0..g.len()` that `a` reaches.
pub open spec fn reach_set(g: GraphView, a: nat) -> Set<int> {
    Set::new(|j: int| 0 <= j < g.len() && reachable(g, a, j as nat))
}

proof fn lemma_reach_set_shrinks(g: GraphView, a: nat, b: nat)
    requires
        g.wf(),
        acyclic(g),
        reachable(g, a, b),
    ensures
        reach_set(g, b).len() < reach_set(g, a).len() <= g.len(),
        reach_set(g, a).finite(),
{
    lemma_int_range(0, g.len() as int);
    lemma_len_subset(reach_set(g, a), set_int_range(0, g.len() as int));
    crate::analysis::lemma_reach_valid(g, a, b);
    assert(!reachable(g, b, b));
    assert forall|j: int| reach_set(g, b).contains(j) implies reach_set(g, a).remove(b as int).contains(j) by {
        crate::analysis::lemma_reach_trans(g, a, b, j as nat);
    }
    assert(reach_set(g, a).contains(b as int));
    lemma_len_subset(reach_set(g, b), reach_set(g, a).remove(b as int));
}

/// Walks up from import `c` of `x`, through imports of `x` that reach it, to a reduced one.
proof fn lemma_find_reduced(g: GraphView, x: nat, c: nat, d: nat) -> (e: nat)
    requires
        g.wf(),
        acyclic(g),
        g.edge(x, c),
        covers(g, c, d),
    ensures
        reduced_edge(g, x, e),
        covers(g, e, d),
    decreases g.len() - reach_set(g, c).len(),
{
    if reduced_edge(g, x, c) {
        c
    } else {
        let c2 = choose|e: nat| #[trigger] g.edge(x, e) && reachable(g, e, c);
        lemma_reach_set_shrinks(g, c2, c);
        if c != d {
            crate::analysis::lemma_reach_trans(g, c2, c, d);
        }
        lemma_find_reduced(g, x, c2, d)
    }
}

proof fn lemma_reach_in_reduced(g: GraphView, x: nat, y: nat)
    requires
        g.wf(),
        acyclic(g),
        reachable(g, x, y),
    ensures
        reachable(reduced_view(g), x, y),
    decreases reach_set(g, x).len(),
{
    let rg = reduced_view(g);
    let d = crate::analysis::lemma_reach_first(g, x, y);
    let e = lemma_find_reduced(g, x, d, y);
    lemma_reduced_view_edge(g, x, e);
    if e == y {
        crate::analysis::lemma_reach_step(rg, x, e, y);
    } else {
        crate::analysis::lemma_reach_step(g, x, e, e);
        lemma_reach_set_shrinks(g, x, e);
        lemma_reach_in_reduced(g, e, y);
        crate::analysis::lemma_reach_step(rg, x, e, y);
    }
}

proof fn lemma_reach_from_reduced(g: GraphView, x: nat, y: nat)
    requires
        reachable(reduced_view(g), x, y),
    ensures
        reachable(g, x, y),
{
    let rg = reduced_view(g);
    let p = choose|p: Seq<nat>| #[trigger] is_path(rg, p) && p[0] == x && p.last() == y;
    assert forall|k: int| 0 <= k < p.len() - 1 implies #[trigger] g.edge(p[k], p[k + 1]) by {
        assert(rg.edge(p[k], p[k + 1]));
        lemma_reduced_view_edge(g, p[k], p[k + 1]);
    }
    assert(is_path(g, p));
}

/// In a graph without cycles, every reduced edge is an edge, and following reduced edges alone
/// reaches exactly what following all edges reaches.
pub proof fn lemma_reduction_preserves_reachability(g: GraphView, x: nat, y: nat)
    requires
        g.wf(),
        acyclic(g),
    ensures
        reduced_edge(g, x, y) ==> g.edge(x, y),
        reachable(reduced_view(g), x, y) <==> reachable(g, x, y),
{
    if reachable(g, x, y) {
        lemma_reach_in_reduced(g, x, y);
    }
    if reachable(reduced_view(g), x, y) {
        lemma_reach_from_reduced(g, x, y);
    }
}

/// The imports of `m` that none of its imports already reaches, each once. This is the
/// display variant of transitive reduction: two imports that
/// reach each other would both be dropped, which a graph without cycles never has.
pub fn direct_dependencies(graph: &Graph, transitive_map: &Vec<Option<Vec<bool>>>, m: &Module) -> (r: Vec<Id>)
    requires
        graph@.wf(),
        graph@.has_record(m@.id),
        graph@.record(m@.id) == m@,
        closure_complete(graph@, transitive_map@),
    ensures
        ids_view(r@).no_duplicates(),
        forall|d: nat| ids_view(r@).contains(d) <==> reduced_edge(graph@, m@.id, d),
{
    let ghost g = graph@;
    let ghost a = m@.id;
    let n = graph.len();
    let deps = m.dependencies();
    let ghost ds = m@.deps;
    let mut covered = all_false(n);
    let mut i: usize = 0;
    while i < deps.len()
        invariant
            g == graph@,
            g.wf(),
            g.has_record(a),
            g.record(a) == m@,
            ds == m@.deps,
            ds == ids_view(deps@),
            n == g.len(),
            covered@.len() == n,
            closure_complete(g, transitive_map@),
            i <= deps.len(),
            forall|j: nat| j < n ==> (#[trigger] covered@[j as int] <==> exists|k: int| 0 <= k < i && #[trigger] reachable(g, ds[k], j)),
        decreases deps.len() - i,
    {
        let d = deps[i];
        assert(ds[i as int] == d@);
        assert(g.valid(d@));
        let ghost before = covered@;
        match &transitive_map[d.id] {
            Some(row) => {
                assert(closure_row_ok(g, d@, row@));
                union_into(&mut covered, row);
                assert forall|l: int| 0 <= l < n implies #[trigger] covered@[l] == (before[l]
                    || reachable(g, d@, l as nat)) by {
                    assert(row@[(l as nat) as int] == reachable(g, d@, l as nat));
                }
            },
            None => {
                proof {
                    assert(!g.has_record(d@));
                    assert forall|j: nat| !reachable(g, d@, j) by {
                        if reachable(g, d@, j) {
                            let e = crate::analysis::lemma_reach_first(g, d@, j);
                        }
                    }
                }
            },
        }
        proof {
            assert forall|j: nat| j < n implies (#[trigger] covered@[j as int] <==> exists|k: int|
                0 <= k < i + 1 && #[trigger] reachable(g, ds[k], j)) by {
                assert(covered@[j as int] == (before[j as int] || reachable(g, d@, j)));
                if exists|k: int| 0 <= k < i + 1 && #[trigger] reachable(g, ds[k], j) {
                    let k = choose|k: int| 0 <= k < i + 1 && #[trigger] reachable(g, ds[k], j);
                    if k < i {
                        assert(before[j as int]);
                    }
                }
            }
        }
        i = i + 1;
    }
    proof {
        assert forall|j: nat| j < n implies (#[trigger] covered@[j as int] <==> exists|e: nat|
            #[trigger] g.edge(a, e) && reachable(g, e, j)) by {
            if covered@[j as int] {
                let k = choose|k: int| 0 <= k < ds.len() && #[trigger] reachable(g, ds[k], j);
                assert(g.edge(a, ds[k]));
            }
            if exists|e: nat| #[trigger] g.edge(a, e) && reachable(g, e, j) {
                let e = choose|e: nat| #[trigger] g.edge(a, e) && reachable(g, e, j);
                let k = ds.index_of(e);
                assert(reachable(g, ds[k], j));
            }
        }
    }
    let mut seen = all_false(n);
    let mut r: Vec<Id> = Vec::new();
    let mut k: usize = 0;
    while k < deps.len()
        invariant
            g == graph@,
            g.wf(),
            g.has_record(a),
            g.record(a) == m@,
            ds == m@.deps,
            ds == ids_view(deps@),
            n == g.len(),
            covered@.len() == n,
            seen@.len() == n,
            k <= deps.len(),
            forall|j: nat| j < n ==> (#[trigger] covered@[j as int] <==> exists|e: nat| #[trigger] g.edge(a, e) && reachable(g, e, j)),
            forall|j: nat| j < n ==> (#[trigger] seen@[j as int] <==> ids_view(r@).contains(j)),
            ids_view(r@).no_duplicates(),
            forall|d: nat| ids_view(r@).contains(d) ==> reduced_edge(g, a, d),
            forall|l: int| 0 <= l < k && reduced_edge(g, a, #[trigger] ds[l]) ==> ids_view(r@).contains(ds[l]),
        decreases deps.len() - k,
    {
        let d = deps[k];
        assert(ds[k as int] == d@);
        assert(g.valid(d@));
        assert(g.edge(a, d@));
        if !covered[d.id] && !seen[d.id] {
            let ghost before = ids_view(r@);
            r.push(d);
            seen.set(d.id, true);
            proof {
                assert(ids_view(r@) =~= before.push(d@));
                assert forall|j: nat| j < n implies (#[trigger] seen@[j as int] <==> ids_view(r@).contains(j)) by {
                    if j != d@ {
                        if ids_view(r@).contains(j) {
                            let q = ids_view(r@).index_of(j);
                            assert(before[q] == j);
                        }
                        if before.contains(j) {
                            let q = before.index_of(j);
                            assert(ids_view(r@)[q] == j);
                        }
                    } else {
                        assert(ids_view(r@)[before.len() as int] == j);
                    }
                }
                assert forall|x: int, y: int| 0 <= x < ids_view(r@).len() && 0 <= y < ids_view(r@).len() && x != y implies ids_view(r@)[x] != ids_view(r@)[y] by {
                    if x < before.len() && y < before.len() {
                    } else if x == before.len() {
                        assert(!before.contains(d@));
                        assert(before[y] == ids_view(r@)[y]);
                    } else {
                        assert(!before.contains(d@));
                        assert(before[x] == ids_view(r@)[x]);
                    }
                }
                assert forall|dd: nat| ids_view(r@).contains(dd) implies reduced_edge(g, a, dd) by {
                    if dd != d@ {
                        let q = ids_view(r@).index_of(dd);
                        assert(before[q] == dd);
                    }
                }
                assert forall|l: int| 0 <= l < k + 1 && reduced_edge(g, a, #[trigger] ds[l]) implies ids_view(r@).contains(ds[l]) by {
                    if l < k {
                        let q = before.index_of(ds[l]);
                        assert(ids_view(r@)[q] == ds[l]);
                    } else {
                        assert(ids_view(r@)[before.len() as int] == d@);
                    }
                }
            }
        }
        k = k + 1;
    }
    proof {
        assert forall|d: nat| reduced_edge(g, a, d) implies ids_view(r@).contains(d) by {
            let l = ds.index_of(d);
        }
    }
    r
}

pub open spec fn pairs_view(v: Seq<(Id, Id)>) -> Seq<(nat, nat)> {
    v.map_values(|e: (Id, Id)| (e.0@, e.1@))
}

/// Every reduced edge of the graph, once each.
pub fn reduced_edges(graph: &Graph, transitive_map: &Vec<Option<Vec<bool>>>) -> (r: Vec<(Id, Id)>)
    requires
        graph@.wf(),
        closure_complete(graph@, transitive_map@),
    ensures
        pairs_view(r@).no_duplicates(),
        forall|a: nat, b: nat| pairs_view(r@).contains((a, b)) <==> reduced_edge(graph@, a, b),
{
    let ghost g = graph@;
    let modules = graph.modules();
    let mut r: Vec<(Id, Id)> = Vec::new();
    let mut k: usize = 0;
    while k < modules.len()
        invariant
            g == graph@,
            g.wf(),
            closure_complete(g, transitive_map@),
            k <= modules@.len(),
            forall|l: int| 0 <= l < modules@.len() ==> g.has_record(#[trigger] modules@[l]@.id) && g.record(modules@[l]@.id) == modules@[l]@,
            forall|l: int, l2: int| 0 <= l < l2 < modules@.len() ==> #[trigger] modules@[l]@.id < #[trigger] modules@[l2]@.id,
            forall|i: nat| #[trigger] g.has_record(i) ==> exists|l: int| 0 <= l < modules@.len() && #[trigger] modules@[l]@.id == i,
            pairs_view(r@).no_duplicates(),
            forall|q: int| 0 <= q < r@.len() ==> exists|l: int| 0 <= l < k && #[trigger] modules@[l]@.id == (#[trigger] r@[q]).0@,
            forall|a: nat, b: nat| pairs_view(r@).contains((a, b)) ==> reduced_edge(g, a, b),
            forall|l: int, b: nat| 0 <= l < k && #[trigger] reduced_edge(g, modules@[l]@.id, b) ==> pairs_view(r@).contains((modules@[l]@.id, b)),
        decreases modules@.len() - k,
    {
        let m = modules[k];
        let ghost a = m@.id;
        let direct = direct_dependencies(graph, transitive_map, m);
        let ghost base = pairs_view(r@);
        let ghost dv = ids_view(direct@);
        let mut j: usize = 0;
        while j < direct.len()
            invariant
                g == graph@,
                g.wf(),
                k < modules@.len(),
                m == modules@[k as int],
                a == m@.id,
                dv == ids_view(direct@),
                dv.no_duplicates(),
                forall|d: nat| dv.contains(d) <==> reduced_edge(g, a, d),
                j <= direct.len(),
                pairs_view(r@) == base + dv.take(j as int).map_values(|d: nat| (a, d)),
                base.no_duplicates(),
                forall|q: int| 0 <= q < base.len() ==> (#[trigger] base[q]).0 < a,
            decreases direct.len() - j,
        {
            let ghost before = r@;
            r.push((m.id(), direct[j]));
            proof {
                let f = |e: (Id, Id)| (e.0@, e.1@);
                let h = |d: nat| (a, d);
                assert(r@.map_values(f) =~= before.map_values(f).push((a, dv[j as int])));
                assert(dv.take(j + 1).map_values(h) =~= dv.take(j as int).map_values(h).push((a, dv[j as int])));
            }
            j = j + 1;
        }
        proof {
            assert(dv.take(j as int) =~= dv);
            let blk = dv.map_values(|d: nat| (a, d));
            let pv = pairs_view(r@);
            assert(pv == base + blk);
            assert forall|x: int, y: int| 0 <= x < pv.len() && 0 <= y < pv.len() && x != y implies pv[x] != pv[y] by {
                if x >= base.len() && y >= base.len() {
                    assert(dv[x - base.len()] != dv[y - base.len()]);
                } else if x < base.len() && y >= base.len() {
                    assert(base[x].0 < a);
                } else if x >= base.len() && y < base.len() {
                    assert(base[y].0 < a);
                }
            }
            assert forall|q: int| 0 <= q < r@.len() implies exists|l: int| 0 <= l < k + 1 && #[trigger] modules@[l]@.id == (#[trigger] r@[q]).0@ by {
                if q < base.len() {
                    assert(pv[q] == base[q]);
                    assert(r@[q].0@ == pv[q].0);
                    let l = choose|l: int| 0 <= l < k && #[trigger] modules@[l]@.id == base[q].0;
                } else {
                    assert(r@[q].0@ == pv[q].0);
                    assert(modules@[k as int]@.id == r@[q].0@);
                }
            }
            assert forall|x: nat, y: nat| pv.contains((x, y)) implies reduced_edge(g, x, y) by {
                let q = pv.index_of((x, y));
                if q < base.len() {
                    assert(base[q] == (x, y));
                } else {
                    assert(blk[q - base.len()] == (x, y));
                    assert(dv.contains(y));
                }
            }
            assert forall|l: int, b: nat| 0 <= l < k + 1 && #[trigger] reduced_edge(g, modules@[l]@.id, b) implies pv.contains((modules@[l]@.id, b)) by {
                if l < k {
                    let q = base.index_of((modules@[l]@.id, b));
                    assert(pv[q] == base[q]);
                } else {
                    assert(modules@[l]@.id == a);
                    assert(dv.contains(b));
                    let q = dv.index_of(b);
                    assert(blk[q] == (a, b));
                    assert(pv[base.len() + q] == blk[q]);
                }
            }
        }
        k = k + 1;
    }
    proof {
        assert forall|a: nat, b: nat| reduced_edge(g, a, b) implies pairs_view(r@).contains((a, b)) by {
            assert(g.has_record(a));
            let l = choose|l: int| 0 <= l < modules@.len() && #[trigger] modules@[l]@.id == a;
        }
    }
    r
}

} // verus!
