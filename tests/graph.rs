use module_deps::analysis::{compute_transitive_map, transitive_closure};
use module_deps::checks::{check_find_all, check_local_import, check_prelude};
use module_deps::export::{is_shown, render_graph, top_segment};
use module_deps::module_graph::{Graph, GraphError, Id};
use module_deps::naming::{join_dotted, module_name};
use module_deps::reduction::{direct_dependencies, reduced_edges};

fn strings(v: &[&str]) -> Vec<String> {
    v.iter().map(|s| s.to_string()).collect()
}

fn reaches(tm: &Vec<Option<Vec<bool>>>, a: Id, b: Id) -> bool {
    tm[a.index()].as_ref().unwrap()[b.index()]
}

#[test]
fn register_twice_returns_same_id() {
    let mut g = Graph::new();
    let a = g.register_name("logic.basic");
    let b = g.register_name("order.lattice");
    let a2 = g.register_name("logic.basic");
    assert_eq!(a, a2);
    assert_ne!(a, b);
    assert_eq!(a.index(), 0);
    assert_eq!(b.index(), 1);
    assert_eq!(g.len(), 2);
    assert_eq!(g.get_name(a2), "logic.basic");
    assert_eq!(g.get_name(b), "order.lattice");
}

#[test]
fn register_module_twice_is_rejected() {
    let mut g = Graph::new();
    let a = g.register_name("a");
    let b = g.register_name("b");
    assert!(g.register_module(a, false, vec![b]).is_ok());
    match g.register_module(a, true, vec![]) {
        Err(GraphError::DuplicateRegistration(id)) => assert_eq!(id, a),
        _ => panic!("expected a duplicate registration"),
    }
    let m = g.get_module(a).unwrap();
    assert!(!m.prelude());
    assert_eq!(m.id(), a);
    assert_eq!(m.dependencies(), &vec![b]);
    assert!(g.get_module(b).is_none());
}

#[test]
fn modules_and_edges_in_identifier_order() {
    let mut g = Graph::new();
    let a = g.register_name("a");
    let b = g.register_name("b");
    let c = g.register_name("c");
    g.register_module(c, false, vec![a]).unwrap();
    g.register_module(a, true, vec![b, c]).unwrap();
    let ids: Vec<Id> = g.modules().iter().map(|m| m.id()).collect();
    assert_eq!(ids, vec![a, c]);
    let edges: Vec<(Id, Id)> = g.iter_edges().iter().map(|(m, d)| (m.id(), *d)).collect();
    assert_eq!(edges, vec![(a, b), (a, c), (c, a)]);
}

fn chain() -> (Graph, Id, Id, Id, Id) {
    // a -> b, a -> c, b -> c, c -> d
    let mut g = Graph::new();
    let a = g.register_name("a");
    let b = g.register_name("b");
    let c = g.register_name("c");
    let d = g.register_name("d");
    g.register_module(a, false, vec![b, c]).unwrap();
    g.register_module(b, false, vec![c]).unwrap();
    g.register_module(c, false, vec![d]).unwrap();
    g.register_module(d, false, vec![]).unwrap();
    (g, a, b, c, d)
}

#[test]
fn closure_is_exact_reachability() {
    let (g, a, b, c, d) = chain();
    let tm = transitive_closure(&g).unwrap();
    assert!(reaches(&tm, a, b) && reaches(&tm, a, c) && reaches(&tm, a, d));
    assert!(!reaches(&tm, a, a));
    assert!(reaches(&tm, b, c) && reaches(&tm, b, d) && !reaches(&tm, b, a));
    assert!(reaches(&tm, c, d) && !reaches(&tm, c, b));
    assert!(!reaches(&tm, d, a) && !reaches(&tm, d, d));
}

#[test]
fn closure_second_run_changes_nothing() {
    let (g, a, _b, _c, _d) = chain();
    let mut tm = transitive_closure(&g).unwrap();
    let before = tm.clone();
    let m = g.get_module(a).unwrap();
    assert!(compute_transitive_map(&g, m, &Vec::new(), &mut tm).is_ok());
    assert_eq!(tm, before);
}

#[test]
fn reduction_drops_implied_edges() {
    let (g, a, b, c, d) = chain();
    let tm = transitive_closure(&g).unwrap();
    assert_eq!(direct_dependencies(&g, &tm, g.get_module(a).unwrap()), vec![b]);
    assert_eq!(direct_dependencies(&g, &tm, g.get_module(b).unwrap()), vec![c]);
    assert_eq!(direct_dependencies(&g, &tm, g.get_module(c).unwrap()), vec![d]);
    assert_eq!(direct_dependencies(&g, &tm, g.get_module(d).unwrap()), vec![]);
    assert_eq!(reduced_edges(&g, &tm), vec![(a, b), (b, c), (c, d)]);
}

#[test]
fn reduction_keeps_reachability() {
    let (g, a, _b, _c, _d) = chain();
    let tm = transitive_closure(&g).unwrap();
    let red = reduced_edges(&g, &tm);
    // follow reduced edges from a
    let mut seen = vec![false; g.len()];
    let mut stack = vec![a];
    while let Some(x) = stack.pop() {
        for &(s, t) in &red {
            if s == x && !seen[t.index()] {
                seen[t.index()] = true;
                stack.push(t);
            }
        }
    }
    assert_eq!(&seen, tm[a.index()].as_ref().unwrap());
}

#[test]
fn reduction_removes_duplicate_imports() {
    let mut g = Graph::new();
    let a = g.register_name("a");
    let b = g.register_name("b");
    g.register_module(a, false, vec![b, b]).unwrap();
    g.register_module(b, false, vec![]).unwrap();
    let tm = transitive_closure(&g).unwrap();
    assert_eq!(direct_dependencies(&g, &tm, g.get_module(a).unwrap()), vec![b]);
}

#[test]
fn three_cycle_is_reported() {
    let mut g = Graph::new();
    let a = g.register_name("A");
    let b = g.register_name("B");
    let c = g.register_name("C");
    g.register_module(a, false, vec![b]).unwrap();
    g.register_module(b, false, vec![c]).unwrap();
    g.register_module(c, false, vec![a]).unwrap();
    match transitive_closure(&g) {
        Err(GraphError::CyclicDependency(path)) => {
            assert_eq!(path.len(), 4);
            assert_eq!(path.first(), path.last());
            assert!(path.contains(&a) && path.contains(&b) && path.contains(&c));
        },
        _ => panic!("expected a cycle"),
    }
}

#[test]
fn self_import_is_a_cycle() {
    let mut g = Graph::new();
    let a = g.register_name("A");
    g.register_module(a, false, vec![a]).unwrap();
    match transitive_closure(&g) {
        Err(GraphError::CyclicDependency(path)) => assert_eq!(path, vec![a, a]),
        _ => panic!("expected a cycle"),
    }
}

#[test]
fn acyclic_graph_has_no_cycle_error() {
    let (g, ..) = chain();
    assert!(transitive_closure(&g).is_ok());
    assert!(transitive_closure(&Graph::new()).unwrap().is_empty());
}

#[test]
fn dangling_reference_is_reported_once() {
    let mut g = Graph::new();
    let a = g.register_name("A");
    let z = g.register_name("Z");
    g.register_module(a, false, vec![z]).unwrap();
    assert_eq!(check_find_all(&g), vec![(a, z)]);
    // the analysis goes on: Z is a leaf
    let tm = transitive_closure(&g).unwrap();
    assert!(reaches(&tm, a, z));
    assert!(tm[z.index()].is_none());
    assert_eq!(direct_dependencies(&g, &tm, g.get_module(a).unwrap()), vec![z]);
}

#[test]
fn prelude_imports_are_listed() {
    let mut g = Graph::new();
    let p = g.register_name("init.core");
    let a = g.register_name("logic.basic");
    let z = g.register_name("missing");
    g.register_module(p, true, vec![]).unwrap();
    g.register_module(a, false, vec![p, z]).unwrap();
    assert_eq!(check_prelude(&g), vec![(a, p)]);
}

#[test]
fn module_names_from_paths() {
    assert_eq!(module_name(&strings(&["foo", "default"])), "foo");
    assert_eq!(module_name(&strings(&["foo", "bar"])), "foo.bar");
    assert_eq!(module_name(&strings(&["foo", "bar", "default"])), "foo.bar");
    assert_eq!(module_name(&strings(&["default"])), "");
    assert_eq!(join_dotted(&strings(&["", "rel", "path"])), ".rel.path");
    assert_eq!(join_dotted(&strings(&["data", "list", "basic"])), "data.list.basic");
    assert_eq!(join_dotted(&strings(&[])), "");
}

#[test]
fn local_import_is_rejected() {
    let mut g = Graph::new();
    let a = g.register_name("alpha.x");
    let r = g.register_name(".rel.path");
    g.register_module(a, false, vec![r]).unwrap();
    match check_local_import(&g) {
        Err(GraphError::UnsupportedLocalImport(m, d)) => {
            assert_eq!(m, a);
            assert_eq!(d, r);
        },
        _ => panic!("expected a local import error"),
    }
    let (ok, ..) = chain();
    assert!(check_local_import(&ok).is_ok());
}

#[test]
fn top_segments() {
    assert_eq!(top_segment("alpha.x.y"), "alpha");
    assert_eq!(top_segment("alpha"), "alpha");
    assert_eq!(top_segment(".rel"), "");
    assert_eq!(top_segment(""), "");
}

#[test]
fn export_alpha_cluster() {
    let mut g = Graph::new();
    let x = g.register_name("alpha.x");
    let y = g.register_name("alpha.y");
    let z = g.register_name("beta.z");
    g.register_module(x, false, vec![y]).unwrap();
    g.register_module(y, false, vec![]).unwrap();
    g.register_module(z, false, vec![x]).unwrap();
    let cats = vec![("alpha".to_string(), "red".to_string())];
    assert!(is_shown(&g, &cats, x) && is_shown(&g, &cats, y) && !is_shown(&g, &cats, z));
    let tm = transitive_closure(&g).unwrap();
    let edges = reduced_edges(&g, &tm);
    let text = render_graph(&g, &cats, &edges);
    assert_eq!(
        text,
        "digraph deps {\n{ node [ style = filled,\n\t\tfillcolor = red ]; \n\"alpha.x\"; \"alpha.y\" }\n\t\"alpha.x\" -> \"alpha.y\";\n}\n"
    );
    assert!(!text.contains("beta.z"));
}

#[test]
fn export_leaves_out_prelude_modules() {
    let mut g = Graph::new();
    let p = g.register_name("logic.prelude");
    let a = g.register_name("logic.basic");
    let o = g.register_name("order.basic");
    g.register_module(p, true, vec![]).unwrap();
    g.register_module(a, false, vec![p]).unwrap();
    g.register_module(o, false, vec![a]).unwrap();
    let cats = vec![
        ("order".to_string(), "red".to_string()),
        ("logic".to_string(), "pink".to_string()),
    ];
    let tm = transitive_closure(&g).unwrap();
    let text = render_graph(&g, &cats, &reduced_edges(&g, &tm));
    assert_eq!(
        text,
        "digraph deps {\n{ node [ style = filled,\n\t\tfillcolor = red ]; \n\"order.basic\" }\n{ node [ style = filled,\n\t\tfillcolor = pink ]; \n\"logic.basic\" }\n\t\"order.basic\" -> \"logic.basic\";\n}\n"
    );
}

#[test]
fn export_empty_graph() {
    let g = Graph::new();
    let cats: Vec<(String, String)> = vec![];
    assert_eq!(render_graph(&g, &cats, &vec![]), "digraph deps {\n}\n");
}
