use vstd::prelude::*;
use crate::module_graph::{Graph, GraphView, Id};
use crate::reduction::pairs_view;

verus! {

/// Where the top-level segment of a dotted name ends: at the first `.`, or at the end.
pub open spec fn segment_end(n: Seq<char>) -> nat
    decreases n.len(),
{
    if n.len() == 0 || n[0] == '.' {
        0
    } else {
        1 + segment_end(n.drop_first())
    }
}

/// The top-level segment of a dotted name.
pub open spec fn first_segment(n: Seq<char>) -> Seq<char> {
    n.take(segment_end(n) as int)
}

/// Some category is labelled with this prefix.
pub open spec fn has_category(cats: Seq<(Seq<char>, Seq<char>)>, prefix: Seq<char>) -> bool {
    exists|k: int| 0 <= k < cats.len() && (#[trigger] cats[k]).0 == prefix
}

pub open spec fn categories_view(v: Seq<(String, String)>) -> Seq<(Seq<char>, Seq<char>)> {
    v.map_values(|c: (String, String)| (c.0@, c.1@))
}

/// A module of the rendered graph: it has a record, is not a prelude module, and its top-level
/// segment has a category.
pub open spec fn shown(g: GraphView, cats: Seq<(Seq<char>, Seq<char>)>, i: nat) -> bool {
    &&& g.has_record(i)
    &&& !g.record(i).prelude
    &&& i < g.names.len()
    &&& has_category(cats, first_segment(g.names[i as int]))
}

/// A module listed in the group of `prefix`.
pub open spec fn member(g: GraphView, prefix: Seq<char>, i: nat) -> bool {
    &&& g.has_record(i)
    &&& !g.record(i).prelude
    &&& i < g.names.len()
    &&& first_segment(g.names[i as int]) == prefix
}

pub open spec fn quoted(n: Seq<char>) -> Seq<char> {
    "\""@ + n + "\""@
}

/// The quoted names of the members of `prefix` among the first `n` identifiers, separated by `; `.
pub open spec fn members_text(g: GraphView, prefix: Seq<char>, n: nat) -> Seq<char>
    decreases n,
{
    if n == 0 {
        seq![]
    } else {
        let r = members_text(g, prefix, (n - 1) as nat);
        if member(g, prefix, (n - 1) as nat) {
            if r.len() == 0 {
                quoted(g.names[n - 1])
            } else {
                r + "; "@ + quoted(g.names[n - 1])
            }
        } else {
            r
        }
    }
}

/// The group of one category: its members, filled with its color.
pub open spec fn cluster_text(g: GraphView, cat: (Seq<char>, Seq<char>)) -> Seq<char> {
    "{ node [ style = filled,\n\t\tfillcolor = "@ + cat.1 + " ]; \n"@ + members_text(g, cat.0, g.len())
        + " }\n"@
}

pub open spec fn clusters_text(g: GraphView, cats: Seq<(Seq<char>, Seq<char>)>, k: nat) -> Seq<char>
    decreases k,
{
    if k == 0 || k > cats.len() {
        seq![]
    } else {
        clusters_text(g, cats, (k - 1) as nat) + cluster_text(g, cats[k - 1])
    }
}

/// One line per edge whose two ends are shown.
pub open spec fn edges_text(g: GraphView, cats: Seq<(Seq<char>, Seq<char>)>, es: Seq<(nat, nat)>) -> Seq<char>
    decreases es.len(),
{
    if es.len() == 0 {
        seq![]
    } else {
        let r = edges_text(g, cats, es.drop_last());
        let e = es.last();
        if shown(g, cats, e.0) && shown(g, cats, e.1) {
            r + "\t"@ + quoted(g.names[e.0 as int]) + " -> "@ + quoted(g.names[e.1 as int]) + ";\n"@
        } else {
            r
        }
    }
}

/// The whole graph description.
pub open spec fn render_spec(g: GraphView, cats: Seq<(Seq<char>, Seq<char>)>, es: Seq<(nat, nat)>) -> Seq<char> {
    "digraph deps {\n"@ + clusters_text(g, cats, cats.len()) + edges_text(g, cats, es) + "}\n"@
}

/// The top-level segment of a dotted name.
pub fn top_segment(name: &str) -> (r: &str)
    ensures
        r@ == first_segment(name@),
{
    let len = name.unicode_len();
    let mut i: usize = 0;
    while i < len && name.get_char(i) != '.'
        invariant
            len == name@.len(),
            i <= len,
            forall|j: int| 0 <= j < i ==> name@[j] != '.',
        decreases len - i,
    {
        i = i + 1;
    }
    proof {
        lemma_segment_end(name@, i as nat);
    }
    name.substring_char(0, i)
}

proof fn lemma_segment_end(n: Seq<char>, i: nat)
    requires
        i <= n.len(),
        forall|j: int| 0 <= j < i ==> n[j] != '.',
        i == n.len() || n[i as int] == '.',
    ensures
        segment_end(n) == i,
    decreases i,
{
    if i > 0 {
        let t = n.drop_first();
        assert forall|j: int| 0 <= j < i - 1 implies t[j] != '.' by {
            assert(t[j] == n[j + 1]);
        }
        if i < n.len() {
            assert(t[i - 1] == n[i as int]);
        }
        lemma_segment_end(t, (i - 1) as nat);
    }
}

/// Whether some category is labelled `prefix`.
fn find_category(categories: &Vec<(String, String)>, prefix: &str) -> (r: bool)
    ensures
        r == has_category(categories_view(categories@), prefix@),
{
    let ghost cv = categories_view(categories@);
    let p = String::from_str(prefix);
    let mut k: usize = 0;
    while k < categories.len()
        invariant
            cv == categories_view(categories@),
            p@ == prefix@,
            k <= categories@.len(),
            forall|j: int| 0 <= j < k ==> (#[trigger] cv[j]).0 != prefix@,
        decreases categories@.len() - k,
    {
        assert(cv[k as int].0 == categories@[k as int].0@);
        if categories[k].0 == p {
            return true;
        }
        k = k + 1;
    }
    false
}

/// Whether module `id` is shown in the rendered graph.
pub fn is_shown(graph: &Graph, categories: &Vec<(String, String)>, id: Id) -> (r: bool)
    requires
        graph@.wf(),
    ensures
        r == shown(graph@, categories_view(categories@), id@),
{
    match graph.get_module(id) {
        Some(m) => {
            if m.prelude() {
                false
            } else {
                let name = graph.get_name(id).as_str();
                find_category(categories, top_segment(name))
            }
        },
        None => false,
    }
}

/// The group of one category.
fn render_cluster(graph: &Graph, out: &mut String, prefix: &String, color: &String)
    requires
        graph@.wf(),
    ensures
        final(out)@ == old(out)@ + cluster_text(graph@, (prefix@, color@)),
{
    let ghost g = graph@;
    let ghost start = out@;
    out.append("{ node [ style = filled,\n\t\tfillcolor = ");
    out.append(color.as_str());
    out.append(" ]; \n");
    let ghost head = out@;
    let n = graph.len();
    let mut i: usize = 0;
    let mut first = true;
    while i < n
        invariant
            g == graph@,
            g.wf(),
            n == g.len(),
            i <= n,
            out@ == head + members_text(g, prefix@, i as nat),
            first == (members_text(g, prefix@, i as nat).len() == 0),
        decreases n - i,
    {
        let id = Id { id: i };
        let ghost before = members_text(g, prefix@, i as nat);
        match graph.get_module(id) {
            Some(m) => {
                if !m.prelude() {
                    let name = graph.get_name(id);
                    let seg = String::from_str(top_segment(name.as_str()));
                    if seg == *prefix {
                        if !first {
                            out.append("; ");
                        }
                        out.append("\"");
                        out.append(name.as_str());
                        out.append("\"");
                        first = false;
                    }
                }
            },
            None => {},
        }
        proof {
            reveal_strlit("\"");
            assert(member(g, prefix@, i as nat) ==> g.record(i as nat) == graph@.record(id@));
            assert(out@ =~= head + members_text(g, prefix@, (i + 1) as nat));
        }
        i = i + 1;
    }
    out.append(" }\n");
    assert(out@ =~= start + cluster_text(g, (prefix@, color@)));
}

/// The graph description: one group per category, in the order given, listing the modules
/// shown under its prefix, then one line per given edge whose two ends are shown, in the order
/// given. Prelude modules, and modules whose prefix has no category, are left out.
pub fn render_graph(graph: &Graph, categories: &Vec<(String, String)>, edges: &Vec<(Id, Id)>) -> (r: String)
    requires
        graph@.wf(),
    ensures
        r@ == render_spec(graph@, categories_view(categories@), pairs_view(edges@)),
{
    let ghost g = graph@;
    let ghost cv = categories_view(categories@);
    let ghost ev = pairs_view(edges@);
    let mut out = String::new();
    out.append("digraph deps {\n");
    let ghost head = out@;
    let mut k: usize = 0;
    while k < categories.len()
        invariant
            g == graph@,
            g.wf(),
            cv == categories_view(categories@),
            k <= categories@.len(),
            out@ == head + clusters_text(g, cv, k as nat),
        decreases categories@.len() - k,
    {
        let (prefix, color) = &categories[k];
        render_cluster(graph, &mut out, prefix, color);
        assert(cv[k as int] == (prefix@, color@));
        assert(out@ =~= head + clusters_text(g, cv, (k + 1) as nat));
        k = k + 1;
    }
    let ghost mid = out@;
    let mut j: usize = 0;
    while j < edges.len()
        invariant
            g == graph@,
            g.wf(),
            cv == categories_view(categories@),
            ev == pairs_view(edges@),
            j <= edges@.len(),
            out@ == mid + edges_text(g, cv, ev.take(j as int)),
        decreases edges@.len() - j,
    {
        let (a, b) = edges[j];
        assert(ev.take(j + 1).drop_last() =~= ev.take(j as int));
        assert(ev[j as int] == (a@, b@));
        if is_shown(graph, categories, a) && is_shown(graph, categories, b) {
            out.append("\t\"");
            out.append(graph.get_name(a).as_str());
            out.append("\" -> \"");
            out.append(graph.get_name(b).as_str());
            out.append("\";\n");
            proof {
                reveal_strlit("\t\"");
                reveal_strlit("\" -> \"");
                reveal_strlit("\";\n");
                reveal_strlit("\t");
                reveal_strlit("\"");
                reveal_strlit(" -> ");
                reveal_strlit(";\n");
            }
        }
        assert(out@ =~= mid + edges_text(g, cv, ev.take(j + 1)));
        j = j + 1;
    }
    assert(ev.take(j as int) =~= ev);
    out.append("}\n");
    assert(out@ =~= render_spec(g, cv, ev));
    out
}

} // verus!
