use vstd::prelude::*;
use crate::module_graph::{lemma_edges_valid, Graph, GraphError, GraphView, Id, Module};
use crate::reduction::pairs_view;
use crate::naming::lemma_filter_step;

verus! {

/// The edges among `es` whose target has no record.
pub open spec fn dangling_in(g: GraphView, es: Seq<(nat, nat)>) -> Seq<(nat, nat)> {
    es.filter(|e: (nat, nat)| !g.has_record(e.1))
}

/// The edges among `es` from a non-prelude module to a prelude module.
pub open spec fn prelude_imports_in(g: GraphView, es: Seq<(nat, nat)>) -> Seq<(nat, nat)> {
    es.filter(
        |e: (nat, nat)|
            g.has_record(e.0) && !g.record(e.0).prelude && g.has_record(e.1) && g.record(e.1).prelude,
    )
}

/// A name written in the local-import form: it begins with the separator.
pub open spec fn is_local_name(n: Seq<char>) -> bool {
    n.len() > 0 && n[0] == '.'
}

/// Every edge whose target has no record, in the order of `Graph::iter_edges`. Such edges are
/// reported and do not stop the analysis.
pub fn check_find_all(graph: &Graph) -> (r: Vec<(Id, Id)>)
    requires
        graph@.wf(),
    ensures
        pairs_view(r@) == dangling_in(graph@, graph@.edges()),
{
    let edges = graph.iter_edges();
    let ghost es = graph@.edges();
    let ghost pred = |e: (nat, nat)| !graph@.has_record(e.1);
    let mut r: Vec<(Id, Id)> = Vec::new();
    let mut k: usize = 0;
    while k < edges.len()
        invariant
            graph@.wf(),
            es == graph@.edges(),
            pred == (|e: (nat, nat)| !graph@.has_record(e.1)),
            edges@.map_values(|e: (&Module, Id)| (e.0@.id, e.1@)) == es,
            k <= edges@.len(),
            pairs_view(r@) == es.take(k as int).filter(pred),
        decreases edges@.len() - k,
    {
        let (m, d) = edges[k];
        assert(es[k as int] == (m@.id, d@));
        proof {
            lemma_filter_step(es, pred, k as int);
        }
        if graph.get_module(d).is_none() {
            let ghost before = r@;
            r.push((m.id(), d));
            assert(pairs_view(r@) =~= pairs_view(before).push((m@.id, d@)));
        }
        k = k + 1;
    }
    assert(es.take(k as int) =~= es);
    r
}

/// Every edge from a module without the prelude flag to a module with it, in the order of
/// `Graph::iter_edges`; edges whose target has no record are not among them.
pub fn check_prelude(graph: &Graph) -> (r: Vec<(Id, Id)>)
    requires
        graph@.wf(),
    ensures
        pairs_view(r@) == prelude_imports_in(graph@, graph@.edges()),
{
    let edges = graph.iter_edges();
    let ghost es = graph@.edges();
    let ghost g = graph@;
    let ghost pred = |e: (nat, nat)|
        g.has_record(e.0) && !g.record(e.0).prelude && g.has_record(e.1) && g.record(e.1).prelude;
    let mut r: Vec<(Id, Id)> = Vec::new();
    let mut k: usize = 0;
    while k < edges.len()
        invariant
            g == graph@,
            g.wf(),
            es == g.edges(),
            pred == (|e: (nat, nat)|
                g.has_record(e.0) && !g.record(e.0).prelude && g.has_record(e.1) && g.record(e.1).prelude),
            edges@.map_values(|e: (&Module, Id)| (e.0@.id, e.1@)) == es,
            forall|q: int| 0 <= q < edges@.len() ==> g.has_record(#[trigger] edges@[q].0@.id) && g.record(edges@[q].0@.id) == edges@[q].0@,
            k <= edges@.len(),
            pairs_view(r@) == es.take(k as int).filter(pred),
        decreases edges@.len() - k,
    {
        let (m, d) = edges[k];
        assert(es[k as int] == (m@.id, d@));
        assert(g.has_record(m@.id) && g.record(m@.id) == m@);
        proof {
            lemma_filter_step(es, pred, k as int);
        }
        match graph.get_module(d) {
            Some(dm) => {
                if !m.prelude() && dm.prelude() {
                    let ghost before = r@;
                    r.push((m.id(), d));
                    assert(pairs_view(r@) =~= pairs_view(before).push((m@.id, d@)));
                }
            },
            None => {},
        }
        k = k + 1;
    }
    assert(es.take(k as int) =~= es);
    r
}

/// Fails on the first edge, in the order of `Graph::iter_edges`, whose target's name is written in
/// the local-import form, which is not supported.
pub fn check_local_import(graph: &Graph) -> (r: Result<(), GraphError>)
    requires
        graph@.wf(),
    ensures
        r is Ok <==> forall|q: int| 0 <= q < graph@.edges().len() ==> !is_local_name(graph@.names[#[trigger] graph@.edges()[q].1 as int]),
        r is Err ==> match r->Err_0 {
            GraphError::UnsupportedLocalImport(a, b) => exists|q: int| {
                &&& 0 <= q < graph@.edges().len()
                &&& #[trigger] graph@.edges()[q] == (a@, b@)
                &&& is_local_name(graph@.names[b@ as int])
                &&& forall|q2: int| 0 <= q2 < q ==> !is_local_name(graph@.names[#[trigger] graph@.edges()[q2].1 as int])
            },
            _ => false,
        },
{
    let edges = graph.iter_edges();
    let ghost es = graph@.edges();
    proof {
        lemma_edges_valid(graph@);
    }
    let mut k: usize = 0;
    while k < edges.len()
        invariant
            graph@.wf(),
            es == graph@.edges(),
            forall|q: int| 0 <= q < es.len() ==> graph@.valid((#[trigger] es[q]).1),
            edges@.map_values(|e: (&Module, Id)| (e.0@.id, e.1@)) == es,
            k <= edges@.len(),
            forall|q: int| 0 <= q < k ==> !is_local_name(graph@.names[#[trigger] es[q].1 as int]),
        decreases edges@.len() - k,
    {
        let (m, d) = edges[k];
        assert(es[k as int] == (m@.id, d@));
        proof {
            lemma_edges_valid(graph@);
            assert(graph@.valid(es[k as int].1));
        }
        let name = graph.get_name(d).as_str();
        if name.unicode_len() > 0 && name.get_char(0) == '.' {
            assert(graph@.edges()[k as int] == (m@.id, d@));
            return Err(GraphError::UnsupportedLocalImport(m.id(), d));
        }
        k = k + 1;
    }
    Ok(())
}

} // verus!
