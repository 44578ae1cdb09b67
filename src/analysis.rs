use vstd::prelude::*;
use vstd::set_lib::{lemma_int_range, lemma_len_subset, set_int_range};
use crate::module_graph::{ids_view, Graph, GraphError, GraphView, Id, Module};

verus! {

/// `p` follows one or more dependency edges.
pub open spec fn is_path(g: GraphView, p: Seq<nat>) -> bool {
    &&& p.len() >= 2
    &&& forall|k: int| 0 <= k < p.len() - 1 ==> #[trigger] g.edge(p[k], p[k + 1])
}

/// `b` is reached from `a` by following one or more dependency edges.
pub open spec fn reachable(g: GraphView, a: nat, b: nat) -> bool {
    exists|p: Seq<nat>| #[trigger] is_path(g, p) && p[0] == a && p.last() == b
}

/// `b` is `a` itself or reached from it.
pub open spec fn covers(g: GraphView, a: nat, b: nat) -> bool {
    a == b || reachable(g, a, b)
}

/// No identifier is reached from itself.
pub open spec fn acyclic(g: GraphView) -> bool {
    forall|a: nat| !#[trigger] reachable(g, a, a)
}

/// A path that comes back to where it started.
pub open spec fn is_cycle(g: GraphView, c: Seq<nat>) -> bool {
    is_path(g, c) && c[0] == c.last()
}

/// `bits` marks exactly the identifiers reached from `i`.
pub open spec fn closure_row_ok(g: GraphView, i: nat, bits: Seq<bool>) -> bool {
    &&& bits.len() == g.len()
    &&& forall|j: nat| j < g.len() ==> (#[trigger] bits[j as int] <==> reachable(g, i, j))
}

/// Every memoized entry is the exact reachability set of its identifier, which lies on no cycle.
pub open spec fn memo_ok(g: GraphView, tm: Seq<Option<Vec<bool>>>) -> bool {
    &&& tm.len() == g.len()
    &&& forall|i: nat|
        i < tm.len() && #[trigger] tm[i as int] is Some ==> closure_row_ok(g, i, tm[i as int]->Some_0@)
            && !reachable(g, i, i) && g.has_record(i)
}

/// The identifiers in `h` are distinct and allocated, and form a path that ends with an edge into `m`.
pub open spec fn history_ok(g: GraphView, h: Seq<nat>, m: nat) -> bool {
    &&& h.no_duplicates()
    &&& forall|k: int| 0 <= k < h.len() ==> g.valid(#[trigger] h[k])
    &&& forall|k: int| 0 <= k < h.len() - 1 ==> #[trigger] g.edge(h[k], h[k + 1])
    &&& h.len() > 0 ==> g.edge(h.last(), m)
}

/// A traversal result: success, or a cycle error that holds a genuine cycle.
pub open spec fn cycle_reported(g: GraphView, r: Result<(), GraphError>) -> bool {
    match r {
        Ok(_) => true,
        Err(GraphError::CyclicDependency(c)) => is_cycle(g, ids_view(c@)),
        Err(_) => false,
    }
}

pub(crate) proof fn lemma_reach_step(g: GraphView, a: nat, d: nat, b: nat)
    requires
        g.edge(a, d),
        covers(g, d, b),
    ensures
        reachable(g, a, b),
{
    if d == b {
        let p = seq![a, b];
        assert(g.edge(p[0], p[1]));
        assert(is_path(g, p));
    } else {
        let q = choose|q: Seq<nat>| #[trigger] is_path(g, q) && q[0] == d && q.last() == b;
        let p = seq![a] + q;
        assert forall|k: int| 0 <= k < p.len() - 1 implies #[trigger] g.edge(p[k], p[k + 1]) by {
            if k > 0 {
                assert(p[k] == q[k - 1] && p[k + 1] == q[k]);
                assert(g.edge(q[k - 1], q[(k - 1) + 1]));
            }
        }
        assert(is_path(g, p));
    }
}

pub(crate) proof fn lemma_reach_first(g: GraphView, a: nat, b: nat) -> (d: nat)
    requires
        reachable(g, a, b),
    ensures
        g.edge(a, d),
        covers(g, d, b),
{
    let p = choose|p: Seq<nat>| #[trigger] is_path(g, p) && p[0] == a && p.last() == b;
    assert(g.edge(p[0], p[0int + 1]));
    if p.len() > 2 {
        let q = p.drop_first();
        assert forall|k: int| 0 <= k < q.len() - 1 implies #[trigger] g.edge(q[k], q[k + 1]) by {
            assert(g.edge(p[k + 1], p[(k + 1) + 1]));
        }
        assert(is_path(g, q));
    }
    p[1]
}

pub(crate) proof fn lemma_reach_trans(g: GraphView, a: nat, b: nat, c: nat)
    requires
        reachable(g, a, b),
        reachable(g, b, c),
    ensures
        reachable(g, a, c),
{
    let p = choose|p: Seq<nat>| #[trigger] is_path(g, p) && p[0] == a && p.last() == b;
    let q = choose|q: Seq<nat>| #[trigger] is_path(g, q) && q[0] == b && q.last() == c;
    let r = p + q.drop_first();
    assert forall|k: int| 0 <= k < r.len() - 1 implies #[trigger] g.edge(r[k], r[k + 1]) by {
        if k < p.len() - 1 {
            assert(g.edge(p[k], p[k + 1]));
        } else if k == p.len() - 1 {
            assert(g.edge(q[0], q[0int + 1]));
        } else {
            let l = k - p.len() + 1;
            assert(r[k] == q[l] && r[k + 1] == q[l + 1]);
            assert(g.edge(q[l], q[l + 1]));
        }
    }
    assert(is_path(g, r));
}

/// Only allocated identifiers are reached.
pub(crate) proof fn lemma_reach_valid(g: GraphView, a: nat, b: nat)
    requires
        g.wf(),
        reachable(g, a, b),
    ensures
        g.valid(b),
{
    let p = choose|p: Seq<nat>| #[trigger] is_path(g, p) && p[0] == a && p.last() == b;
    let k = p.len() - 2;
    assert(g.edge(p[k], p[k + 1]));
    let i = g.record(p[k]).deps.index_of(b);
    assert(g.record(p[k]).deps[i] == b);
}

/// Each identifier along the history reaches `m`; the part from `k` on, closed by `m`, is a path.
proof fn lemma_history_path(g: GraphView, h: Seq<nat>, m: nat, k: int)
    requires
        history_ok(g, h, m),
        0 <= k < h.len(),
    ensures
        is_path(g, h.subrange(k, h.len() as int).push(m)),
        reachable(g, h[k], m),
{
    let p = h.subrange(k, h.len() as int).push(m);
    assert forall|l: int| 0 <= l < p.len() - 1 implies #[trigger] g.edge(p[l], p[l + 1]) by {
        if k + l + 1 < h.len() {
            assert(g.edge(h[k + l], h[(k + l) + 1]));
        }
    }
    assert(is_path(g, p));
}

proof fn lemma_ids_view_push(v: Seq<Id>, x: Id)
    ensures
        ids_view(v.push(x)) == ids_view(v).push(x@),
{
    assert(ids_view(v.push(x)) =~= ids_view(v).push(x@));
}

proof fn lemma_distinct_below(s: Seq<nat>, n: nat)
    requires
        s.no_duplicates(),
        forall|k: int| 0 <= k < s.len() ==> #[trigger] s[k] < n,
    ensures
        s.len() <= n,
{
    let t = s.map_values(|x: nat| x as int);
    assert forall|i: int, j: int| 0 <= i < t.len() && 0 <= j < t.len() && i != j implies t[i] != t[j] by {
        assert(s[i] != s[j]);
    }
    assert(t.no_duplicates());
    t.unique_seq_to_set();
    lemma_int_range(0, n as int);
    assert forall|x: int| t.to_set().contains(x) implies set_int_range(0, n as int).contains(x) by {
        let i = t.index_of(x);
        assert(s[i] < n);
    }
    lemma_len_subset(t.to_set(), set_int_range(0, n as int));
}

pub(crate) fn all_false(n: usize) -> (r: Vec<bool>)
    ensures
        r@.len() == n,
        forall|j: int| 0 <= j < n ==> !#[trigger] r@[j],
{
    let mut bits: Vec<bool> = Vec::new();
    while bits.len() < n
        invariant
            bits.len() <= n,
            forall|j: int| 0 <= j < bits.len() ==> !#[trigger] bits@[j],
        decreases n - bits.len(),
    {
        bits.push(false);
    }
    bits
}

/// Adds to `bits` every position that `row` marks.
pub(crate) fn union_into(bits: &mut Vec<bool>, row: &Vec<bool>)
    requires
        old(bits)@.len() == row@.len(),
    ensures
        final(bits)@.len() == row@.len(),
        forall|l: int| 0 <= l < row@.len() ==> final(bits)@[l] == (old(bits)@[l] || row@[l]),
{
    let ghost orig = bits@;
    let mut j: usize = 0;
    while j < row.len()
        invariant
            j <= row@.len(),
            orig == old(bits)@,
            orig.len() == row@.len(),
            bits@.len() == row@.len(),
            forall|l: int| 0 <= l < row@.len() ==> #[trigger] bits@[l] == (orig[l] || (l < j && row@[l])),
        decreases row@.len() - j,
    {
        if row[j] {
            bits.set(j, true);
        }
        j = j + 1;
    }
}

/// Memoized depth-first computation of the reachability set of `m`; `history` is the path that led
/// here. Fails with the cycle that closes when `m` is already on that path. An import without a
/// record is a leaf: it is reached, and reaches nothing.
#[verifier::loop_isolation(false)]
pub fn compute_transitive_map(
    graph: &Graph,
    m: &Module,
    history: &Vec<Id>,
    transitive_map: &mut Vec<Option<Vec<bool>>>,
) -> (r: Result<(), GraphError>)
    requires
        graph@.wf(),
        graph@.has_record(m@.id),
        graph@.record(m@.id) == m@,
        history_ok(graph@, ids_view(history@), m@.id),
        memo_ok(graph@, old(transitive_map)@),
    ensures
        memo_ok(graph@, final(transitive_map)@),
        cycle_reported(graph@, r),
        r is Ok ==> final(transitive_map)@[m@.id as int] is Some,
        r is Ok ==> forall|k: int| 0 <= k < history@.len() ==> !reachable(graph@, m@.id, #[trigger] history@[k]@),
        old(transitive_map)@[m@.id as int] is Some ==> r is Ok && final(transitive_map)@ == old(transitive_map)@,
        forall|i: int| 0 <= i < old(transitive_map)@.len() && old(transitive_map)@[i] is Some ==> #[trigger] final(transitive_map)@[i] is Some,
        acyclic(graph@) ==> r is Ok,
    decreases graph@.len() - history@.len(),
{
    let ghost g = graph@;
    let ghost h = ids_view(history@);
    let mid = m.id();
    if transitive_map[mid.id].is_some() {
        proof {
            assert(!reachable(g, mid@, mid@));
            assert forall|k: int| 0 <= k < history@.len() implies !reachable(g, mid@, #[trigger] history@[k]@) by {
                assert(h[k] == history@[k]@);
                lemma_history_path(g, h, mid@, k);
                if reachable(g, mid@, h[k]) {
                    lemma_reach_trans(g, mid@, h[k], mid@);
                }
            }
        }
        return Ok(());
    }
    let mut k: usize = 0;
    while k < history.len()
        invariant
            k <= history.len(),
            g == graph@,
            mid@ == m@.id,
            history_ok(g, h, mid@),
            h == ids_view(history@),
            old(transitive_map)@[mid@ as int] is None,
            forall|j: int| 0 <= j < k ==> h[j] != mid@,
        decreases history.len() - k,
    {
        if history[k] == mid {
            let mut c: Vec<Id> = Vec::new();
            let mut j: usize = k;
            while j < history.len()
                invariant
                    k <= j <= history.len(),
                    h == ids_view(history@),
                    ids_view(c@) == h.subrange(k as int, j as int),
                decreases history.len() - j,
            {
                proof {
                    lemma_ids_view_push(c@, history@[j as int]);
                }
                c.push(history[j]);
                j = j + 1;
                assert(ids_view(c@) =~= h.subrange(k as int, j as int));
            }
            proof {
                lemma_ids_view_push(c@, mid);
            }
            c.push(mid);
            proof {
                assert(ids_view(c@) =~= h.subrange(k as int, h.len() as int).push(mid@));
                lemma_history_path(g, h, mid@, k as int);
                assert(h[k as int] == mid@);
            }
            return Err(GraphError::CyclicDependency(c));
        }
        k = k + 1;
    }
    let mut new_history: Vec<Id> = Vec::new();
    let mut j: usize = 0;
    while j < history.len()
        invariant
            j <= history.len(),
            h == ids_view(history@),
            ids_view(new_history@) == h.take(j as int),
        decreases history.len() - j,
    {
        proof {
            lemma_ids_view_push(new_history@, history@[j as int]);
        }
        new_history.push(history[j]);
        j = j + 1;
        assert(ids_view(new_history@) =~= h.take(j as int));
    }
    proof {
        lemma_ids_view_push(new_history@, mid);
        assert(h.take(h.len() as int) =~= h);
    }
    new_history.push(mid);
    let ghost h2 = ids_view(new_history@);
    proof {
        assert(h2 =~= h.push(mid@));
        assert forall|k: int| 0 <= k < h2.len() - 1 implies #[trigger] g.edge(h2[k], h2[k + 1]) by {
            if k < h.len() - 1 {
                assert(g.edge(h[k], h[k + 1]));
            }
        }
        assert(h2.no_duplicates());
        assert forall|k: int| 0 <= k < h2.len() implies #[trigger] h2[k] < g.len() by {
            if k < h.len() {
                assert(g.valid(h[k]));
            }
        }
        lemma_distinct_below(h2, g.len());
    }
    let n = graph.len();
    let mut bits = all_false(n);
    let deps = m.dependencies();
    let ghost ds = m@.deps;
    let mut i: usize = 0;
    while i < deps.len()
        invariant
            g == graph@,
            g.wf(),
            g.has_record(mid@),
            g.record(mid@) == m@,
            ds == m@.deps,
            ds == ids_view(deps@),
            n == g.len(),
            bits.len() == n,
            i <= deps.len(),
            h2 == ids_view(new_history@),
            h2 == h.push(mid@),
            h2.no_duplicates(),
            history_ok(g, h, mid@),
            h2.len() <= g.len(),
            memo_ok(g, transitive_map@),
            old(transitive_map)@[mid@ as int] is None,
            mid@ == m@.id,
            h == ids_view(history@),
            forall|i: int| 0 <= i < old(transitive_map)@.len() && old(transitive_map)@[i] is Some ==> #[trigger] transitive_map@[i] is Some,
            forall|j: nat| j < n ==> (#[trigger] bits@[j as int] <==> exists|k: int| 0 <= k < i && #[trigger] covers(g, ds[k], j)),
            forall|k: int| 0 <= k < i ==> !reachable(g, #[trigger] ds[k], mid@) && !reachable(g, ds[k], ds[k]),
        decreases deps.len() - i,
    {
        let d = deps[i];
        assert(ds[i as int] == d@);
        assert(g.valid(d@));
        let ghost before = bits@;
        match graph.get_module(d) {
            Some(dm) => {
                proof {
                    assert(g.record(d@).id == d@);
                    assert(g.edge(mid@, d@)) by {
                        assert(g.record(mid@).deps[i as int] == d@);
                    }
                    assert forall|k: int| 0 <= k < h2.len() - 1 implies #[trigger] g.edge(h2[k], h2[k + 1]) by {
                        if k < h.len() - 1 {
                            assert(g.edge(h[k], h[k + 1]));
                        }
                    }
                    assert forall|k: int| 0 <= k < h2.len() implies g.valid(#[trigger] h2[k]) by {
                        if k < h.len() {
                            assert(g.valid(h[k]));
                        }
                    }
                }
                let res = compute_transitive_map(graph, dm, &new_history, transitive_map);
                match res {
                    Err(e) => {
                        return Err(e);
                    },
                    Ok(()) => {},
                }
                assert(!reachable(g, d@, h2[h2.len() - 1]));
                match &transitive_map[d.id] {
                    Some(row) => {
                        assert(closure_row_ok(g, d@, row@));
                        union_into(&mut bits, row);
                        assert forall|l: int| 0 <= l < n implies #[trigger] bits@[l] == (before[l]
                            || reachable(g, d@, l as nat)) by {
                            assert(row@[(l as nat) as int] == reachable(g, d@, l as nat));
                        }
                    },
                    None => {},
                }
            },
            None => {
                proof {
                    assert forall|j: nat| !reachable(g, d@, j) by {
                        if reachable(g, d@, j) {
                            let e = lemma_reach_first(g, d@, j);
                        }
                    }
                }
            },
        }
        assert(forall|l: int| 0 <= l < n ==> #[trigger] bits@[l] == (before[l] || reachable(g, d@, l as nat)));
        bits.set(d.id, true);
        proof {
            assert forall|j: nat| j < n implies (#[trigger] bits@[j as int] <==> exists|k: int|
                0 <= k < i + 1 && #[trigger] covers(g, ds[k], j)) by {
                assert(before[j as int] <==> exists|k: int| 0 <= k < i && #[trigger] covers(g, ds[k], j));
                assert(bits@[j as int] == (before[j as int] || covers(g, d@, j)));
                if bits@[j as int] && !(exists|k: int| 0 <= k < i && #[trigger] covers(g, ds[k], j)) {
                    assert(covers(g, ds[i as int], j));
                }
                if exists|k: int| 0 <= k < i + 1 && #[trigger] covers(g, ds[k], j) {
                    let k = choose|k: int| 0 <= k < i + 1 && #[trigger] covers(g, ds[k], j);
                    if k < i {
                        assert(before[j as int]);
                    }
                }
            }
        }
        i = i + 1;
    }
    proof {
        assert forall|j: nat| j < n implies (#[trigger] bits@[j as int] <==> reachable(g, mid@, j)) by {
            if bits@[j as int] {
                let k = choose|k: int| 0 <= k < deps@.len() && #[trigger] covers(g, ds[k], j);
                assert(g.record(mid@).deps[k] == ds[k]);
                lemma_reach_step(g, mid@, ds[k], j);
            }
            if reachable(g, mid@, j) {
                let d = lemma_reach_first(g, mid@, j);
                let k = ds.index_of(d);
                assert(covers(g, ds[k], j));
            }
        }
        if reachable(g, mid@, mid@) {
            let d = lemma_reach_first(g, mid@, mid@);
            let k = ds.index_of(d);
            assert(!reachable(g, ds[k], mid@));
        }
        assert forall|k: int| 0 <= k < history@.len() implies !reachable(g, mid@, #[trigger] history@[k]@) by {
            assert(h[k] == history@[k]@);
            lemma_history_path(g, h, mid@, k);
            if reachable(g, mid@, h[k]) {
                lemma_reach_trans(g, mid@, h[k], mid@);
            }
        }
    }
    transitive_map.set(mid.id, Some(bits));
    Ok(())
}

/// Every memoized entry is exact and every module with a record has one.
pub open spec fn closure_complete(g: GraphView, tm: Seq<Option<Vec<bool>>>) -> bool {
    &&& memo_ok(g, tm)
    &&& forall|i: nat| #[trigger] g.has_record(i) ==> tm[i as int] is Some
}

/// The reachability set of every module with a record, or the first cycle met.
pub fn transitive_closure(graph: &Graph) -> (r: Result<Vec<Option<Vec<bool>>>, GraphError>)
    requires
        graph@.wf(),
    ensures
        r is Ok <==> acyclic(graph@),
        r is Ok ==> closure_complete(graph@, r->Ok_0@),
        r is Err ==> cycle_reported(graph@, Err(r->Err_0)),
{
    let ghost g = graph@;
    let n = graph.len();
    let mut tm: Vec<Option<Vec<bool>>> = Vec::new();
    while tm.len() < n
        invariant
            tm@.len() <= n,
            forall|j: int| 0 <= j < tm@.len() ==> #[trigger] tm@[j] is None,
        decreases n - tm@.len(),
    {
        tm.push(None);
    }
    assert(memo_ok(g, tm@));
    let modules = graph.modules();
    let history: Vec<Id> = Vec::new();
    assert(ids_view(history@) =~= Seq::<nat>::empty());
    let mut k: usize = 0;
    while k < modules.len()
        invariant
            g == graph@,
            g.wf(),
            k <= modules@.len(),
            ids_view(history@) == Seq::<nat>::empty(),
            memo_ok(g, tm@),
            forall|l: int| 0 <= l < modules@.len() ==> g.has_record(#[trigger] modules@[l]@.id) && g.record(modules@[l]@.id) == modules@[l]@,
            forall|i: nat| #[trigger] g.has_record(i) ==> exists|l: int| 0 <= l < modules@.len() && #[trigger] modules@[l]@.id == i,
            forall|l: int| 0 <= l < k ==> tm@[#[trigger] modules@[l]@.id as int] is Some,
        decreases modules@.len() - k,
    {
        let m = modules[k];
        let res = compute_transitive_map(graph, m, &history, &mut tm);
        match res {
            Err(e) => {
                proof {
                    assert(e is CyclicDependency);
                    let c = ids_view(e->CyclicDependency_0@);
                    assert(is_cycle(g, c));
                    assert(reachable(g, c[0], c[0]));
                }
                return Err(e);
            },
            Ok(()) => {},
        }
        proof {
            assert forall|l: int| 0 <= l < k + 1 implies tm@[#[trigger] modules@[l]@.id as int] is Some by {
                if l < k {
                    assert(tm@[modules@[l]@.id as int] is Some);
                }
            }
        }
        k = k + 1;
    }
    proof {
        assert forall|i: nat| #[trigger] g.has_record(i) implies tm@[i as int] is Some by {
            let l = choose|l: int| 0 <= l < modules@.len() && #[trigger] modules@[l]@.id == i;
        }
        assert forall|a: nat| !#[trigger] reachable(g, a, a) by {
            if reachable(g, a, a) {
                let d = lemma_reach_first(g, a, a);
                assert(tm@[a as int] is Some);
            }
        }
    }
    Ok(tm)
}

pub open spec fn rows_view(tm: Seq<Option<Vec<bool>>>) -> Seq<Option<Seq<bool>>> {
    tm.map_values(
        |o: Option<Vec<bool>>|
            match o {
                Some(v) => Some(v@),
                None => None,
            },
    )
}

/// The closure is a function of the graph: any two complete closures of one graph hold the same
/// rows, so computing it again gives the same result.
pub proof fn lemma_closure_unique(g: GraphView, t1: Seq<Option<Vec<bool>>>, t2: Seq<Option<Vec<bool>>>)
    requires
        closure_complete(g, t1),
        closure_complete(g, t2),
    ensures
        rows_view(t1) == rows_view(t2),
{
    assert forall|i: int| 0 <= i < t1.len() implies rows_view(t1)[i] == rows_view(t2)[i] by {
        let n = i as nat;
        if t1[i] is Some || t2[i] is Some {
            assert(g.has_record(n));
            assert(t1[n as int] is Some && t2[n as int] is Some);
            let a = t1[i]->Some_0@;
            let b = t2[i]->Some_0@;
            assert forall|j: int| 0 <= j < a.len() implies a[j] == b[j] by {
                assert(a[(j as nat) as int] == reachable(g, n, j as nat));
            }
            assert(a =~= b);
        }
    }
    assert(rows_view(t1) =~= rows_view(t2));
}

} // verus!
