use vstd::prelude::*;

verus! {

/// An opaque module identifier, assigned densely in order of registration.
#[derive(PartialEq, Eq, Clone, Copy, Debug, Hash, Structural)]
pub struct Id {
    pub(crate) id: usize,
}

impl View for Id {
    type V = nat;

    open(crate) spec fn view(&self) -> nat {
        self.id as nat
    }
}

impl Id {
    /// The position of this identifier in the order of registration.
    pub fn index(&self) -> (r: usize)
        ensures
            r == self@,
    {
        self.id
    }
}

/// What a module record holds, with identifiers as their indices.
pub ghost struct ModuleView {
    pub id: nat,
    pub prelude: bool,
    pub deps: Seq<nat>,
}

/// A module record: its identifier, its prelude flag and its imports in textual order.
pub struct Module {
    pub(crate) id: Id,
    pub(crate) prelude: bool,
    pub(crate) dependencies: Vec<Id>,
}

pub open spec fn ids_view(v: Seq<Id>) -> Seq<nat> {
    v.map_values(|d: Id| d@)
}

impl View for Module {
    type V = ModuleView;

    open(crate) spec fn view(&self) -> ModuleView {
        ModuleView { id: self.id@, prelude: self.prelude, deps: ids_view(self.dependencies@) }
    }
}

impl Module {
    pub fn prelude(&self) -> (r: bool)
        ensures
            r == self@.prelude,
    {
        self.prelude
    }

    pub fn id(&self) -> (r: Id)
        ensures
            r@ == self@.id,
    {
        self.id
    }

    pub fn dependencies(&self) -> (r: &Vec<Id>)
        ensures
            ids_view(r@) == self@.deps,
    {
        &self.dependencies
    }
}

/// Errors of registration and analysis.
#[derive(Debug)]
pub enum GraphError {
    /// A second record was offered for an identifier that already has one.
    DuplicateRegistration(Id),
    /// The module (first) imports a name (second) that begins with the local-import marker.
    UnsupportedLocalImport(Id, Id),
    /// The identifiers along a dependency cycle; the first and the last are the same.
    CyclicDependency(Vec<Id>),
}

/// The name registry and the module record store, as mathematical values.
pub ghost struct GraphView {
    pub names: Seq<Seq<char>>,
    pub records: Seq<Option<ModuleView>>,
}

pub open spec fn module_opt_view(o: Option<Module>) -> Option<ModuleView> {
    match o {
        Some(m) => Some(m@),
        None => None,
    }
}

impl GraphView {
    /// Number of identifiers allocated so far.
    pub open spec fn len(self) -> nat {
        self.names.len()
    }

    pub open spec fn valid(self, i: nat) -> bool {
        i < self.len()
    }

    pub open spec fn has_record(self, i: nat) -> bool {
        i < self.records.len() && self.records[i as int] is Some
    }

    pub open spec fn record(self, i: nat) -> ModuleView {
        self.records[i as int]->Some_0
    }

    /// Module `a` has a record that lists `b` among its imports.
    pub open spec fn edge(self, a: nat, b: nat) -> bool {
        self.has_record(a) && self.record(a).deps.contains(b)
    }

    /// Names are unique, every identifier indexes both sequences, each record sits at its
    /// own identifier and imports only allocated identifiers.
    pub open spec fn wf(self) -> bool {
        &&& self.names.len() == self.records.len()
        &&& forall|i: int, j: int|
            0 <= i < self.names.len() && 0 <= j < self.names.len() && i != j
                ==> self.names[i] != self.names[j]
        &&& forall|i: nat| #[trigger] self.has_record(i) ==> self.record(i).id == i
        &&& forall|i: nat, k: int|
            self.has_record(i) && 0 <= k < self.record(i).deps.len()
                ==> #[trigger] self.record(i).deps[k] < self.len()
    }

    /// The edges of the first `n` identifiers, record by record, each record's imports in order.
    pub open spec fn edges_upto(self, n: nat) -> Seq<(nat, nat)>
        decreases n,
    {
        if n == 0 {
            seq![]
        } else {
            self.edges_upto((n - 1) as nat) + self.edges_of((n - 1) as nat)
        }
    }

    pub open spec fn edges_of(self, i: nat) -> Seq<(nat, nat)> {
        if self.has_record(i) {
            self.record(i).deps.map_values(|d: nat| (i, d))
        } else {
            seq![]
        }
    }

    /// Every dependency edge of the graph.
    pub open spec fn edges(self) -> Seq<(nat, nat)> {
        self.edges_upto(self.len())
    }
}

/// What registering `name` does: the graph after it, and the identifier it returns.
pub open spec fn register_spec(g: GraphView, name: Seq<char>) -> (GraphView, nat) {
    if g.names.contains(name) {
        (g, g.names.index_of(name) as nat)
    } else {
        (GraphView { names: g.names.push(name), records: g.records.push(None) }, g.len())
    }
}

/// Registering a name a second time returns the identifier it got the first time and changes
/// nothing, and that identifier resolves to the name.
pub proof fn lemma_register_idempotent(g: GraphView, name: Seq<char>)
    requires
        g.wf(),
    ensures
        ({
            let (g1, i1) = register_spec(g, name);
            let (g2, i2) = register_spec(g1, name);
            &&& i2 == i1
            &&& g2 == g1
            &&& g1.valid(i1)
            &&& g2.names[i2 as int] == name
        }),
{
    let (g1, i1) = register_spec(g, name);
    if !g.names.contains(name) {
        assert(g1.names[g.len() as int] == name);
        assert(g1.names.contains(name));
        let j = g1.names.index_of(name);
        assert(j == g.len());
    }
}

/// Every listed edge is an edge of the graph, between allocated identifiers.
pub proof fn lemma_edges_valid(g: GraphView)
    requires
        g.wf(),
    ensures
        forall|q: int| 0 <= q < g.edges().len() ==> {
            &&& g.edge((#[trigger] g.edges()[q]).0, g.edges()[q].1)
            &&& g.valid(g.edges()[q].0)
            &&& g.valid(g.edges()[q].1)
        },
{
    lemma_edges_upto_valid(g, g.len());
}

proof fn lemma_edges_upto_valid(g: GraphView, n: nat)
    requires
        g.wf(),
        n <= g.len(),
    ensures
        forall|q: int| 0 <= q < g.edges_upto(n).len() ==> {
            &&& g.edge((#[trigger] g.edges_upto(n)[q]).0, g.edges_upto(n)[q].1)
            &&& g.edges_upto(n)[q].0 < n
            &&& g.valid(g.edges_upto(n)[q].1)
        },
    decreases n,
{
    if n > 0 {
        let m = (n - 1) as nat;
        lemma_edges_upto_valid(g, m);
        let a = g.edges_upto(m);
        let b = g.edges_of(m);
        assert(g.edges_upto(n) == a + b);
        assert forall|q: int| 0 <= q < g.edges_upto(n).len() implies {
            &&& g.edge((#[trigger] g.edges_upto(n)[q]).0, g.edges_upto(n)[q].1)
            &&& g.edges_upto(n)[q].0 < n
            &&& g.valid(g.edges_upto(n)[q].1)
        } by {
            if q >= a.len() {
                let i = q - a.len();
                let deps = g.record(m).deps;
                assert(b[i] == (m, deps[i]));
                assert(deps.contains(deps[i]));
                assert(deps[i] < g.len());
            } else {
                assert(g.edges_upto(n)[q] == a[q]);
            }
        }
    }
}

/// The name registry together with the module record store.
pub struct Graph {
    pub(crate) names: Vec<String>,
    pub(crate) modules: Vec<Option<Module>>,
}

impl View for Graph {
    type V = GraphView;

    open(crate) spec fn view(&self) -> GraphView {
        GraphView {
            names: self.names@.map_values(|s: String| s@),
            records: self.modules@.map_values(|o: Option<Module>| module_opt_view(o)),
        }
    }
}

impl Graph {
    pub fn new() -> (r: Graph)
        ensures
            r@.names == Seq::<Seq<char>>::empty(),
            r@.records == Seq::<Option<ModuleView>>::empty(),
            r@.wf(),
    {
        let r = Graph { names: Vec::new(), modules: Vec::new() };
        assert(r@.names =~= Seq::<Seq<char>>::empty());
        assert(r@.records =~= Seq::<Option<ModuleView>>::empty());
        r
    }

    /// Interns `name`: the identifier it already has, or else the next one.
    pub fn register_name(&mut self, name: &str) -> (r: Id)
        requires
            old(self)@.wf(),
            old(self)@.len() < usize::MAX,
        ensures
            final(self)@.wf(),
            (final(self)@, r@) == register_spec(old(self)@, name@),
            final(self)@.names[r@ as int] == name@,
            old(self)@.names.contains(name@) ==> final(self)@ == old(self)@,
            !old(self)@.names.contains(name@) ==> {
                &&& r@ == old(self)@.len()
                &&& final(self)@.names == old(self)@.names.push(name@)
                &&& final(self)@.records == old(self)@.records.push(None)
            },
    {
        let owned = String::from_str(name);
        let mut i: usize = 0;
        while i < self.names.len()
            invariant
                self@ == old(self)@,
                self@.wf(),
                owned@ == name@,
                i <= self.names.len(),
                forall|j: int| 0 <= j < i ==> self@.names[j] != name@,
            decreases self.names.len() - i,
        {
            if self.names[i] == owned {
                proof {
                    assert(self@.names[i as int] == name@);
                    assert(self@.names.contains(name@));
                    let j = self@.names.index_of(name@);
                    assert(j == i);
                }
                return Id { id: i };
            }
            i = i + 1;
        }
        let id = Id { id: self.names.len() };
        let ghost g = self@;
        assert(!g.names.contains(name@));
        self.names.push(owned);
        self.modules.push(None);
        proof {
            assert(self@.names =~= g.names.push(name@));
            assert(self@.records =~= g.records.push(None));
            assert forall|i: nat| #[trigger] self@.has_record(i) implies g.has_record(i)
                && self@.record(i) == g.record(i) by {}
        }
        id
    }

    /// Stores the record of `id`, unless it already has one.
    pub fn register_module(&mut self, id: Id, prelude: bool, dependencies: Vec<Id>) -> (r: Result<
        (),
        GraphError,
    >)
        requires
            old(self)@.wf(),
            old(self)@.valid(id@),
            forall|k: int| 0 <= k < dependencies@.len() ==> old(self)@.valid(#[trigger] dependencies@[k]@),
        ensures
            final(self)@.wf(),
            final(self)@.names == old(self)@.names,
            old(self)@.has_record(id@) ==> final(self)@ == old(self)@ && r == Err::<(), GraphError>(GraphError::DuplicateRegistration(id)),
            !old(self)@.has_record(id@) ==> r is Ok && final(self)@.records == old(self)@.records.update(
                id@ as int,
                Some(ModuleView { id: id@, prelude, deps: ids_view(dependencies@) }),
            ),
    {
        if self.modules[id.id].is_some() {
            return Err(GraphError::DuplicateRegistration(id));
        }
        let ghost g = self@;
        self.modules.set(id.id, Some(Module { id, prelude, dependencies }));
        proof {
            assert(self@.records =~= g.records.update(
                id@ as int,
                Some(ModuleView { id: id@, prelude, deps: ids_view(dependencies@) }),
            ));
            assert(self@.names =~= g.names);
            assert forall|i: nat, k: int|
                self@.has_record(i) && 0 <= k < self@.record(i).deps.len() implies #[trigger] self@.record(
                i,
            ).deps[k] < self@.len() by {
                if i != id@ {
                    assert(g.has_record(i) && self@.record(i) == g.record(i));
                } else {
                    assert(self@.record(i).deps[k] == dependencies@[k]@);
                }
            }
            assert forall|i: nat| #[trigger] self@.has_record(i) implies self@.record(i).id == i by {
                if i != id@ {
                    assert(g.has_record(i) && self@.record(i) == g.record(i));
                }
            }
        }
        Ok(())
    }

    /// Number of identifiers allocated so far.
    pub fn len(&self) -> (r: usize)
        ensures
            r == self@.len(),
    {
        self.names.len()
    }

    pub fn get_name(&self, id: Id) -> (r: &String)
        requires
            self@.valid(id@),
        ensures
            r@ == self@.names[id@ as int],
    {
        &self.names[id.id]
    }

    /// The record of `id`; `None` where `id` has none.
    pub fn get_module(&self, id: Id) -> (r: Option<&Module>)
        ensures
            r is Some <==> self@.has_record(id@),
            r is Some ==> r->Some_0@ == self@.record(id@),
    {
        if id.id < self.modules.len() {
            match &self.modules[id.id] {
                Some(m) => Some(m),
                None => None,
            }
        } else {
            None
        }
    }

    /// Every record, in order of identifier.
    pub fn modules(&self) -> (r: Vec<&Module>)
        requires
            self@.wf(),
        ensures
            forall|k: int| 0 <= k < r@.len() ==> self@.has_record(#[trigger] r@[k]@.id) && self@.record(r@[k]@.id) == r@[k]@,
            forall|k: int, l: int| 0 <= k < l < r@.len() ==> #[trigger] r@[k]@.id < #[trigger] r@[l]@.id,
            forall|i: nat| #[trigger] self@.has_record(i) ==> exists|k: int| 0 <= k < r@.len() && #[trigger] r@[k]@.id == i,
    {
        let mut r: Vec<&Module> = Vec::new();
        let mut i: usize = 0;
        while i < self.modules.len()
            invariant
                self@.wf(),
                i <= self.modules.len(),
                forall|k: int| 0 <= k < r@.len() ==> self@.has_record(#[trigger] r@[k]@.id) && self@.record(r@[k]@.id) == r@[k]@,
                forall|k: int| 0 <= k < r@.len() ==> #[trigger] r@[k]@.id < i,
                forall|k: int, l: int| 0 <= k < l < r@.len() ==> #[trigger] r@[k]@.id < #[trigger] r@[l]@.id,
                forall|j: nat| j < i && #[trigger] self@.has_record(j) ==> exists|k: int| 0 <= k < r@.len() && #[trigger] r@[k]@.id == j,
            decreases self.modules.len() - i,
        {
            match &self.modules[i] {
                Some(m) => {
                    assert(self@.has_record(i as nat));
                    let ghost before = r@;
                    r.push(m);
                    assert(r@[r@.len() - 1]@.id == i);
                    assert forall|j: nat| j < i + 1 && #[trigger] self@.has_record(j) implies exists|k: int|
                        0 <= k < r@.len() && #[trigger] r@[k]@.id == j by {
                        if j < i {
                            let k = choose|k: int| 0 <= k < before.len() && #[trigger] before[k]@.id == j;
                            assert(r@[k] == before[k]);
                        } else {
                            assert(r@[r@.len() - 1]@.id == j);
                        }
                    }
                },
                None => {},
            }
            i = i + 1;
        }
        r
    }

    /// Every dependency edge, as its source record and its target.
    pub fn iter_edges(&self) -> (r: Vec<(&Module, Id)>)
        requires
            self@.wf(),
        ensures
            r@.map_values(|e: (&Module, Id)| (e.0@.id, e.1@)) == self@.edges(),
            forall|k: int| 0 <= k < r@.len() ==> self@.has_record(#[trigger] r@[k].0@.id) && self@.record(r@[k].0@.id) == r@[k].0@,
    {
        let mut r: Vec<(&Module, Id)> = Vec::new();
        let mut i: usize = 0;
        while i < self.modules.len()
            invariant
                self@.wf(),
                i <= self.modules.len(),
                r@.map_values(|e: (&Module, Id)| (e.0@.id, e.1@)) == self@.edges_upto(i as nat),
                forall|k: int| 0 <= k < r@.len() ==> self@.has_record(#[trigger] r@[k].0@.id) && self@.record(r@[k].0@.id) == r@[k].0@,
            decreases self.modules.len() - i,
        {
            match &self.modules[i] {
                Some(m) => {
                    assert(self@.has_record(i as nat) && self@.record(i as nat) == m@);
                    let ghost base = r@.map_values(|e: (&Module, Id)| (e.0@.id, e.1@));
                    let mut k: usize = 0;
                    while k < m.dependencies.len()
                        invariant
                            self@.wf(),
                            i < self.modules.len(),
                            self@.has_record(i as nat),
                            self@.record(i as nat) == m@,
                            k <= m.dependencies.len(),
                            base == self@.edges_upto(i as nat),
                            r@.map_values(|e: (&Module, Id)| (e.0@.id, e.1@)) == base + m@.deps.take(k as int).map_values(|d: nat| (i as nat, d)),
                            forall|k: int| 0 <= k < r@.len() ==> self@.has_record(#[trigger] r@[k].0@.id) && self@.record(r@[k].0@.id) == r@[k].0@,
                        decreases m.dependencies.len() - k,
                    {
                        let ghost before = r@;
                        r.push((m, m.dependencies[k]));
                        proof {
                            assert(self@.record(i as nat).id == i);
                            assert(m@.deps[k as int] == m.dependencies@[k as int]@);
                            assert(m@.deps.take(k + 1) =~= m@.deps.take(k as int).push(m@.deps[k as int]));
                            assert(r@ =~= before.push((m, m.dependencies@[k as int])));
                            let f = |e: (&Module, Id)| (e.0@.id, e.1@);
                            let g = |d: nat| (i as nat, d);
                            assert(r@.map_values(f) =~= before.map_values(f).push((i as nat, m@.deps[k as int])));
                            assert(m@.deps.take(k + 1).map_values(g) =~= m@.deps.take(k as int).map_values(g).push((i as nat, m@.deps[k as int])));
                            assert(r@.map_values(f) =~= base + m@.deps.take(k + 1).map_values(g));
                        }
                        k = k + 1;
                    }
                    assert(m@.deps.take(k as int) =~= m@.deps);
                },
                None => {
                    assert(!self@.has_record(i as nat));
                },
            }
            i = i + 1;
            assert(r@.map_values(|e: (&Module, Id)| (e.0@.id, e.1@)) =~= self@.edges_upto(i as nat));
        }
        r
    }
}

} // verus!
