//! Parsed modules, keyed by identifier, and the compilation sequence query.
//!
//! `ParsedModules::sequence` builds the dependency graph over the set's
//! identifiers (imports of identifiers outside the set are silently dropped)
//! and topologically orders it so that every imported module is analyzed
//! before its importers, or fails with one concrete import cycle.

use vstd::prelude::*;

use crate::error::Error;
use crate::graph::Graph;

verus! {

/// The role a module plays in its package.
#[derive(Clone, Copy, PartialEq, Eq, Structural, Debug)]
pub enum ModuleKind {
    Lib,
    Validator,
    Test,
}

impl ModuleKind {
    pub open spec fn spec_is_validator(self) -> bool {
        self == ModuleKind::Validator
    }

    /// Does this kind mark a validator-bearing module?
    pub fn is_validator(&self) -> (r: bool)
        ensures
            r == self.spec_is_validator(),
    {
        matches!(self, ModuleKind::Validator)
    }
}

/// A module before semantic analysis. The parser has already extracted the
/// identifiers this module imports; everything else of its syntax tree is an
/// external concern.
pub struct ParsedModule {
    pub path: String,
    pub name: String,
    pub code: String,
    pub kind: ModuleKind,
    pub package: String,
    pub dependencies: Vec<String>,
}

/// The mathematical image of a `ParsedModule`.
pub ghost struct ParsedModuleView {
    pub path: Seq<char>,
    pub name: Seq<char>,
    pub code: Seq<char>,
    pub kind: ModuleKind,
    pub package: Seq<char>,
    pub dependencies: Seq<Seq<char>>,
}

/// The character sequences of a vector of strings.
pub open spec fn names_view(v: Seq<String>) -> Seq<Seq<char>> {
    Seq::new(v.len(), |i: int| v[i]@)
}

impl View for ParsedModule {
    type V = ParsedModuleView;

    open spec fn view(&self) -> ParsedModuleView {
        ParsedModuleView {
            path: self.path@,
            name: self.name@,
            code: self.code@,
            kind: self.kind,
            package: self.package@,
            dependencies: names_view(self.dependencies@),
        }
    }
}

impl ParsedModule {
    /// The pair the graph builder consumes: this module's identifier and the
    /// identifiers it imports.
    pub fn deps_for_graph(&self) -> (r: (String, Vec<String>))
        ensures
            r.0@ == self@.name,
            names_view(r.1@) == self@.dependencies,
    {
        let name = self.name.clone();
        let deps = clone_names(&self.dependencies);
        proof {
            assert(names_view(deps@) =~= self@.dependencies);
        }
        (name, deps)
    }
}

/// Copy a vector of identifiers.
fn clone_names(names: &Vec<String>) -> (r: Vec<String>)
    ensures
        r@.len() == names@.len(),
        forall|i: int| 0 <= i < names@.len() ==> (#[trigger] r@[i])@ == names@[i]@,
{
    let mut r: Vec<String> = Vec::new();
    let mut i: usize = 0;
    while i < names.len()
        invariant
            (i as int) <= names@.len(),
            r@.len() == i as int,
            forall|j: int| 0 <= j < i as int ==> (#[trigger] r@[j])@ == names@[j]@,
        decreases names@.len() - i as int,
    {
        r.push(names[i].clone());
        i = i + 1;
    }
    r
}

/// Is some module of `s` named `name`?
pub open spec fn contains_name(s: Seq<ParsedModuleView>, name: Seq<char>) -> bool {
    exists|i: int| 0 <= i < s.len() && (#[trigger] s[i]).name == name
}

/// Module identifiers are pairwise distinct.
pub open spec fn distinct_names(s: Seq<ParsedModuleView>) -> bool {
    forall|i: int, j: int| #![trigger s[i], s[j]]
        0 <= i < j < s.len() ==> s[i].name != s[j].name
}

/// The position of the module named `name` in `s`.
pub open spec fn index_of_name(s: Seq<ParsedModuleView>, name: Seq<char>) -> int {
    choose|i: int| 0 <= i < s.len() && (#[trigger] s[i]).name == name
}

/// Module `a` imports module `b`, both present in the set: the dependency
/// edges of the compilation's graph. Imports of identifiers outside the set
/// produce no edge.
pub open spec fn dep_edge(s: Seq<ParsedModuleView>, a: Seq<char>, b: Seq<char>) -> bool {
    &&& contains_name(s, a)
    &&& contains_name(s, b)
    &&& s[index_of_name(s, a)].dependencies.contains(b)
}

/// `w` read cyclically walks dependency edges: each module imports the next,
/// and the last imports the first.
pub open spec fn is_import_cycle(s: Seq<ParsedModuleView>, w: Seq<Seq<char>>) -> bool {
    &&& w.len() >= 1
    &&& forall|i: int| 0 <= i < w.len() - 1 ==> dep_edge(s, #[trigger] w[i], w[i + 1])
    &&& dep_edge(s, w[w.len() - 1], w[0])
}

pub open spec fn has_import_cycle(s: Seq<ParsedModuleView>) -> bool {
    exists|w: Seq<Seq<char>>| is_import_cycle(s, w)
}

/// The contract of `ParsedModules::sequence`.
pub open spec fn sequence_post(s: Seq<ParsedModuleView>, r: Result<Vec<String>, Error>) -> bool {
    match r {
        Ok(out) => {
            &&& out@.len() == s.len()
            &&& forall|t: int| 0 <= t < out@.len() ==> contains_name(s, (#[trigger] out@[t])@)
            &&& forall|t: int, u: int| #![trigger out@[t], out@[u]]
                0 <= t < u < out@.len() ==> out@[t]@ != out@[u]@
            &&& forall|name: Seq<char>|
                #[trigger] contains_name(s, name) ==> exists|t: int|
                    0 <= t < out@.len() && (#[trigger] out@[t])@ == name
            &&& forall|t: int, u: int| #![trigger out@[t], out@[u]]
                0 <= t <= u < out@.len() ==> !dep_edge(s, out@[t]@, out@[u]@)
            &&& !has_import_cycle(s)
        },
        Err(e) => {
            match e {
                Error::ImportCycle { modules } => {
                    &&& modules@.len() >= 1
                    &&& forall|t: int, u: int| #![trigger modules@[t], modules@[u]]
                        0 <= t < u < modules@.len() ==> modules@[t]@ != modules@[u]@
                    &&& is_import_cycle(s, names_view(modules@))
                    &&& has_import_cycle(s)
                },
            }
        },
    }
}

/// The set of parsed modules of one compilation run, keyed by module
/// identifier. Identifiers are unique; `insert` replaces a module of the
/// same name.
pub struct ParsedModules {
    modules: Vec<ParsedModule>,
}

impl View for ParsedModules {
    type V = Seq<ParsedModuleView>;

    closed spec fn view(&self) -> Seq<ParsedModuleView> {
        Seq::new(self.modules@.len(), |i: int| self.modules@[i]@)
    }
}

impl ParsedModules {
    /// Identifiers are pairwise distinct.
    pub open spec fn wf(&self) -> bool {
        distinct_names(self@)
    }

    pub fn new() -> (r: ParsedModules)
        ensures
            r.wf(),
            r@.len() == 0,
    {
        ParsedModules { modules: Vec::new() }
    }

    pub fn len(&self) -> (r: usize)
        ensures
            r as int == self@.len(),
    {
        self.modules.len()
    }

    /// Add a module, replacing any module of the same identifier.
    pub fn insert(&mut self, module: ParsedModule)
        requires
            old(self).wf(),
        ensures
            final(self).wf(),
            contains_name(old(self)@, module@.name) ==> final(self)@ == old(self)@.update(
                index_of_name(old(self)@, module@.name),
                module@,
            ),
            !contains_name(old(self)@, module@.name) ==> final(self)@ == old(self)@.push(module@),
            contains_name(final(self)@, module@.name),
    {
        let ghost s0 = self@;
        let n = self.modules.len();
        let mut i: usize = 0;
        while i < n
            invariant
                self.wf(),
                self@ == s0,
                old(self)@ == s0,
                n as int == self@.len(),
                (i as int) <= (n as int),
                forall|j: int| 0 <= j < i as int ==> (#[trigger] s0[j]).name != module@.name,
            decreases n as int - i as int,
        {
            if string_eq(&self.modules[i].name, &module.name) {
                proof {
                    assert(s0[i as int].name == module@.name);
                    assert(contains_name(s0, module@.name));
                    assert(index_of_name(s0, module@.name) == i as int) by {
                        let ix = index_of_name(s0, module@.name);
                        if ix != i as int {
                            assert(s0[ix].name == s0[i as int].name);
                            assert(false);
                        }
                    }
                }
                self.modules[i] = module;
                proof {
                    assert(self@ =~= s0.update(i as int, self.modules@[i as int]@));
                    assert(self@[i as int].name == module@.name);
                    assert(contains_name(self@, module@.name));
                    assert forall|a: int, b: int| #![trigger self@[a], self@[b]]
                        0 <= a < b < self@.len() implies self@[a].name != self@[b].name by {
                        assert(s0[a].name == self@[a].name || a == i as int);
                        assert(s0[b].name == self@[b].name || b == i as int);
                    }
                }
                return ;
            }
            i = i + 1;
        }
        proof {
            if contains_name(s0, module@.name) {
                let ix = index_of_name(s0, module@.name);
                assert(s0[ix].name == module@.name);
                assert(false);
            }
        }
        self.modules.push(module);
        proof {
            assert(self@ =~= s0.push(self.modules@[self.modules@.len() - 1]@));
            assert(self@[self@.len() - 1].name == module@.name);
            assert forall|a: int, b: int| #![trigger self@[a], self@[b]]
                0 <= a < b < self@.len() implies self@[a].name != self@[b].name by {
                if b < self@.len() - 1 {
                    assert(s0[a].name == self@[a].name && s0[b].name == self@[b].name);
                } else {
                    assert(self@[b].name == module@.name);
                    assert(s0[a].name == self@[a].name);
                }
            }
        }
    }

    /// The module named `name`, if present.
    pub fn get(&self, name: &String) -> (r: Option<&ParsedModule>)
        requires
            self.wf(),
        ensures
            match r {
                Some(m) => contains_name(self@, name@) && m@ == self@[index_of_name(self@, name@)],
                None => !contains_name(self@, name@),
            },
    {
        let n = self.modules.len();
        let mut i: usize = 0;
        while i < n
            invariant
                self.wf(),
                n as int == self@.len(),
                (i as int) <= (n as int),
                forall|j: int| 0 <= j < i as int ==> (#[trigger] self@[j]).name != name@,
            decreases n as int - i as int,
        {
            if string_eq(&self.modules[i].name, name) {
                proof {
                    assert(self@[i as int].name == name@);
                    let ix = index_of_name(self@, name@);
                    if ix != i as int {
                        assert(self@[ix].name == self@[i as int].name);
                        assert(false);
                    }
                }
                return Some(&self.modules[i]);
            }
            i = i + 1;
        }
        None
    }
}

/// Compare two identifiers.
fn string_eq(a: &String, b: &String) -> (r: bool)
    ensures
        r == (a@ == b@),
{
    a.eq(b)
}

/// `g` is the dependency graph of `s`, node `p` standing for module `s[p]`.
pub open spec fn graph_matches(s: Seq<ParsedModuleView>, g: Graph) -> bool {
    &&& g.node_count() == s.len()
    &&& forall|p: int, q: int| #![trigger g.edge(p, q)]
        0 <= p < s.len() && 0 <= q < s.len()
            ==> (g.edge(p, q) <==> s[p].dependencies.contains(s[q].name))
}

/// With distinct identifiers, the dependency edge between the names of the
/// modules at `a` and `b` is exactly an import listed at `a`.
pub proof fn lemma_dep_edge_at(s: Seq<ParsedModuleView>, a: int, b: int)
    requires
        distinct_names(s),
        0 <= a < s.len(),
        0 <= b < s.len(),
    ensures
        index_of_name(s, s[a].name) == a,
        dep_edge(s, s[a].name, s[b].name) == s[a].dependencies.contains(s[b].name),
{
    assert(contains_name(s, s[a].name));
    assert(contains_name(s, s[b].name));
    let ix = index_of_name(s, s[a].name);
    if ix != a {
        assert(s[ix].name == s[a].name);
        assert(false);
    }
}

/// A cyclic walk of dependency edges maps to a cycle of the matching graph.
proof fn lemma_name_cycle_to_graph(s: Seq<ParsedModuleView>, g: Graph)
    requires
        distinct_names(s),
        graph_matches(s, g),
        has_import_cycle(s),
    ensures
        g.has_cycle(),
{
    let w = choose|w: Seq<Seq<char>>| is_import_cycle(s, w);
    let iw = Seq::new(w.len(), |t: int| index_of_name(s, w[t]));
    assert forall|t: int| 0 <= t < w.len() implies contains_name(s, w[t]) && 0 <= iw[t] < s.len()
        && s[iw[t]].name == w[t] by {
        if t < w.len() - 1 {
            assert(dep_edge(s, w[t], w[t + 1]));
        } else {
            assert(dep_edge(s, w[t], w[0]));
        }
        let i = choose|i: int| 0 <= i < s.len() && (#[trigger] s[i]).name == w[t];
        assert(s[index_of_name(s, w[t])].name == w[t]);
    }
    assert forall|t: int| 0 <= t < iw.len() - 1 implies g.edge(#[trigger] iw[t], iw[t + 1]) by {
        assert(dep_edge(s, w[t], w[t + 1]));
        lemma_dep_edge_at(s, iw[t], iw[t + 1]);
        assert(s[iw[t]].dependencies.contains(w[t + 1]));
        assert(s[iw[t]].dependencies.contains(s[iw[t + 1]].name));
        assert(g.edge(iw[t], iw[t + 1]));
    }
    assert(g.edge(iw[iw.len() - 1], iw[0])) by {
        let m = w.len() - 1;
        assert(dep_edge(s, w[m], w[0]));
        lemma_dep_edge_at(s, iw[m], iw[0]);
        assert(s[iw[m]].dependencies.contains(w[0]));
        assert(s[iw[m]].dependencies.contains(s[iw[0]].name));
    }
    assert(g.is_closed_walk(iw));
}

/// Position of the identifier `d` among `names`, if present.
fn find_name_index(names: &Vec<String>, d: &String) -> (r: Option<usize>)
    ensures
        match r {
            Some(j) => (j as int) < names@.len() && names@[j as int]@ == d@,
            None => forall|j: int| 0 <= j < names@.len() ==> (#[trigger] names@[j])@ != d@,
        },
{
    let mut j: usize = 0;
    while j < names.len()
        invariant
            (j as int) <= names@.len(),
            forall|t: int| 0 <= t < j as int ==> (#[trigger] names@[t])@ != d@,
        decreases names@.len() - j as int,
    {
        if string_eq(&names[j], d) {
            return Some(j);
        }
        j = j + 1;
    }
    None
}

/// Copy the identifiers standing at `idxs`.
fn names_at(names: &Vec<String>, idxs: &Vec<usize>) -> (r: Vec<String>)
    requires
        forall|t: int| 0 <= t < idxs@.len() ==> ((#[trigger] idxs@[t]) as int) < names@.len(),
    ensures
        r@.len() == idxs@.len(),
        forall|t: int| 0 <= t < idxs@.len() ==> (#[trigger] r@[t])@ == names@[idxs@[t] as int]@,
{
    let mut r: Vec<String> = Vec::new();
    let mut t: usize = 0;
    while t < idxs.len()
        invariant
            (t as int) <= idxs@.len(),
            r@.len() == t as int,
            forall|u: int| 0 <= u < idxs@.len() ==> ((#[trigger] idxs@[u]) as int) < names@.len(),
            forall|u: int| 0 <= u < t as int ==> (#[trigger] r@[u])@ == names@[idxs@[u] as int]@,
        decreases idxs@.len() - t as int,
    {
        let ix = idxs[t];
        r.push(names[ix].clone());
        t = t + 1;
    }
    r
}

impl ParsedModules {
    /// The indices of the in-set imports of module `x`; imports of
    /// identifiers outside the set are dropped.
    fn import_row(&self, x: usize, names: &Vec<String>) -> (row: Vec<usize>)
        requires
            self.wf(),
            (x as int) < self@.len(),
            names@.len() == self@.len(),
            forall|j: int| 0 <= j < self@.len() ==> (#[trigger] names@[j])@ == self@[j].name,
        ensures
            forall|k: int| 0 <= k < row@.len() ==> ((#[trigger] row@[k]) as int) < self@.len(),
            forall|k: int|
                0 <= k < row@.len()
                    ==> self@[x as int].dependencies.contains(
                    self@[(#[trigger] row@[k]) as int].name,
                ),
            forall|b: int|
                0 <= b < self@.len() && self@[x as int].dependencies.contains(
                    #[trigger] self@[b].name,
                ) ==> exists|k: int| 0 <= k < row@.len() && (#[trigger] row@[k]) as int == b,
    {
        let deps = &self.modules[x].dependencies;
        let dlen = deps.len();
        let mut row: Vec<usize> = Vec::new();
        let mut d: usize = 0;
        while d < dlen
            invariant
                self.wf(),
                (x as int) < self@.len(),
                names@.len() == self@.len(),
                forall|j: int| 0 <= j < self@.len() ==> (#[trigger] names@[j])@ == self@[j].name,
                deps@ == self.modules@[x as int].dependencies@,
                dlen as int == deps@.len(),
                self@[x as int].dependencies == names_view(deps@),
                (d as int) <= (dlen as int),
                forall|k: int| 0 <= k < row@.len() ==> ((#[trigger] row@[k]) as int) < self@.len(),
                forall|k: int|
                    0 <= k < row@.len()
                        ==> self@[x as int].dependencies.contains(
                        self@[(#[trigger] row@[k]) as int].name,
                    ),
                forall|b: int| #![trigger self@[b].name]
                    0 <= b < self@.len() && (exists|dd: int|
                        0 <= dd < d as int && #[trigger] self@[x as int].dependencies[dd]
                            == self@[b].name) ==> exists|k: int|
                        0 <= k < row@.len() && (#[trigger] row@[k]) as int == b,
            decreases dlen as int - d as int,
        {
            let ghost row0 = row@;
            let dep = &deps[d];
            proof {
                assert(self@[x as int].dependencies[d as int] == dep@);
            }
            let found = find_name_index(names, dep);
            match found {
                Some(j) => {
                    proof {
                        assert(self@[j as int].name == dep@);
                        assert(self@[x as int].dependencies.contains(self@[j as int].name));
                    }
                    row.push(j);
                }
                None => {
                }
            }
            d = d + 1;
            proof {
                assert forall|b: int| #![trigger self@[b].name]
                    0 <= b < self@.len() && (exists|dd: int|
                        0 <= dd < d as int && #[trigger] self@[x as int].dependencies[dd]
                            == self@[b].name) implies exists|k: int|
                        0 <= k < row@.len() && (#[trigger] row@[k]) as int == b by {
                    let dd = choose|dd: int|
                        0 <= dd < d as int && #[trigger] self@[x as int].dependencies[dd]
                            == self@[b].name;
                    if dd < d - 1 {
                        let k = choose|k: int|
                            0 <= k < row0.len() && (#[trigger] row0[k]) as int == b;
                        assert(row@[k] == row0[k]);
                        assert(exists|k: int|
                            0 <= k < row@.len() && (#[trigger] row@[k]) as int == b);
                    } else {
                        assert(self@[b].name == dep@);
                        match found {
                            Some(j) => {
                                assert(self@[j as int].name == dep@);
                                if b != j as int {
                                    assert(self@[b].name == self@[j as int].name);
                                    assert(false);
                                }
                                assert(row@ == row0.push(j));
                                assert((row@[row@.len() - 1]) as int == b);
                                assert(exists|k: int|
                                    0 <= k < row@.len() && (#[trigger] row@[k]) as int == b);
                            },
                            None => {
                                assert(names@[b]@ == self@[b].name);
                                assert(names@[b]@ != dep@);
                                assert(false);
                            },
                        }
                    }
                }
            }
        }
        proof {
            assert forall|b: int|
                0 <= b < self@.len() && self@[x as int].dependencies.contains(
                    #[trigger] self@[b].name,
                ) implies exists|k: int| 0 <= k < row@.len() && (#[trigger] row@[k]) as int == b by {
                let dd = choose|dd: int|
                    0 <= dd < self@[x as int].dependencies.len()
                        && #[trigger] self@[x as int].dependencies[dd] == self@[b].name;
                assert(exists|dd: int|
                    0 <= dd < d as int && #[trigger] self@[x as int].dependencies[dd]
                        == self@[b].name);
            }
        }
        row
    }

    /// Order the modules so that every imported module comes before its
    /// importers, or fail with one concrete import cycle. Succeeds exactly
    /// when the dependency graph is acyclic.
    #[verifier::rlimit(100)]
    pub fn sequence(&self) -> (r: Result<Vec<String>, Error>)
        requires
            self.wf(),
        ensures
            sequence_post(self@, r),
    {
        let n = self.modules.len();
        let mut names: Vec<String> = Vec::new();
        let mut i: usize = 0;
        while i < n
            invariant
                self.wf(),
                n as int == self@.len(),
                (i as int) <= (n as int),
                names@.len() == i as int,
                forall|j: int| 0 <= j < i as int ==> (#[trigger] names@[j])@ == self@[j].name,
            decreases n as int - i as int,
        {
            names.push(self.modules[i].name.clone());
            i = i + 1;
        }
        let mut adj: Vec<Vec<usize>> = Vec::new();
        let mut a: usize = 0;
        while a < n
            invariant
                self.wf(),
                n as int == self@.len(),
                names@.len() == n as int,
                forall|j: int| 0 <= j < n as int ==> (#[trigger] names@[j])@ == self@[j].name,
                (a as int) <= (n as int),
                adj@.len() == a as int,
                forall|x: int, k: int| #![trigger adj@[x]@[k]]
                    0 <= x < a as int && 0 <= k < adj@[x]@.len()
                        ==> ((adj@[x]@[k]) as int) < n as int && self@[x].dependencies.contains(
                        self@[adj@[x]@[k] as int].name,
                    ),
                forall|x: int, b: int| #![trigger self@[x].dependencies.contains(self@[b].name)]
                    0 <= x < a as int && 0 <= b < n as int && self@[x].dependencies.contains(
                        self@[b].name,
                    ) ==> exists|k: int|
                        0 <= k < adj@[x]@.len() && (#[trigger] adj@[x]@[k]) as int == b,
            decreases n as int - a as int,
        {
            let ghost adj0 = adj@;
            let row = self.import_row(a, &names);
            let ghost rowv = row@;
            adj.push(row);
            a = a + 1;
            proof {
                assert forall|x: int, k: int| #![trigger adj@[x]@[k]]
                    0 <= x < a as int && 0 <= k < adj@[x]@.len() implies ((adj@[x]@[k]) as int)
                    < n as int && self@[x].dependencies.contains(
                    self@[adj@[x]@[k] as int].name,
                ) by {
                    if x < a as int - 1 {
                        assert(adj@[x] == adj0[x]);
                        assert(adj0[x]@[k] == adj@[x]@[k]);
                    } else {
                        assert(adj@[x]@ == rowv);
                        assert(rowv[k] == adj@[x]@[k]);
                    }
                }
                assert forall|x: int, b: int|
                    #![trigger self@[x].dependencies.contains(self@[b].name)]
                    0 <= x < a as int && 0 <= b < n as int && self@[x].dependencies.contains(
                        self@[b].name,
                    ) implies exists|k: int|
                    0 <= k < adj@[x]@.len() && (#[trigger] adj@[x]@[k]) as int == b by {
                    if x < a as int - 1 {
                        assert(adj@[x] == adj0[x]);
                        let k = choose|k: int|
                            0 <= k < adj0[x]@.len() && (#[trigger] adj0[x]@[k]) as int == b;
                        assert((adj@[x]@[k]) as int == b);
                        assert(exists|k: int|
                            0 <= k < adj@[x]@.len() && (#[trigger] adj@[x]@[k]) as int == b);
                    } else {
                        assert(adj@[x]@ == rowv);
                        let k = choose|k: int|
                            0 <= k < rowv.len() && (#[trigger] rowv[k]) as int == b;
                        assert((adj@[x]@[k]) as int == b);
                        assert(exists|k: int|
                            0 <= k < adj@[x]@.len() && (#[trigger] adj@[x]@[k]) as int == b);
                    }
                }
            }
        }
        let g = Graph { adj };
        proof {
            self.lemma_adj_matches(g);
        }
        self.sequence_from_graph(&names, g)
    }

    /// Run the topological sort on the matching graph and map the node
    /// indices back to module identifiers.
    #[verifier::rlimit(100)]
    fn sequence_from_graph(&self, names: &Vec<String>, g: Graph) -> (r: Result<
        Vec<String>,
        Error,
    >)
        requires
            self.wf(),
            self@.len() <= usize::MAX as int,
            names@.len() == self@.len(),
            forall|j: int| 0 <= j < self@.len() ==> (#[trigger] names@[j])@ == self@[j].name,
            g.wf(),
            graph_matches(self@, g),
        ensures
            sequence_post(self@, r),
    {
        match g.toposort() {
            Ok(order) => self.sequence_ok_result(names, g, order),
            Err(cyc) => self.sequence_err_result(names, g, cyc),
        }
    }

    /// Map a topological order back to identifiers.
    fn sequence_ok_result(&self, names: &Vec<String>, g: Graph, order: Vec<usize>) -> (r: Result<
        Vec<String>,
        Error,
    >)
        requires
            self.wf(),
            self@.len() <= usize::MAX as int,
            names@.len() == self@.len(),
            forall|j: int| 0 <= j < self@.len() ==> (#[trigger] names@[j])@ == self@[j].name,
            g.wf(),
            graph_matches(self@, g),
            g.is_topo_order(order@),
            g.covers(order@),
            !g.has_cycle(),
        ensures
            sequence_post(self@, r),
            r is Ok,
    {
        let out = names_at(names, &order);
        proof {
            assert forall|t: int| 0 <= t < order@.len() implies (#[trigger] out@[t])@
                == self@[order@[t] as int].name by {
                assert(out@[t]@ == names@[order@[t] as int]@);
                assert(names@[order@[t] as int]@ == self@[order@[t] as int].name);
            }
            self.lemma_sequence_ok(g, order@, out@);
        }
        Ok(out)
    }

    /// Map a graph cycle back to identifiers.
    fn sequence_err_result(&self, names: &Vec<String>, g: Graph, cyc: Vec<usize>) -> (r: Result<
        Vec<String>,
        Error,
    >)
        requires
            self.wf(),
            names@.len() == self@.len(),
            forall|j: int| 0 <= j < self@.len() ==> (#[trigger] names@[j])@ == self@[j].name,
            g.wf(),
            graph_matches(self@, g),
            cyc@.len() >= 1,
            cyc@.no_duplicates(),
            g.is_closed_walk(cyc@.map_values(|u: usize| u as int)),
        ensures
            sequence_post(self@, r),
            r is Err,
    {
        proof {
            let w = cyc@.map_values(|u: usize| u as int);
            assert forall|t: int| 0 <= t < cyc@.len() implies ((#[trigger] cyc@[t]) as int)
                < names@.len() by {
                if t < cyc@.len() - 1 {
                    assert(g.edge(w[t], w[t + 1]));
                } else {
                    assert(g.edge(w[t], w[0]));
                }
                assert(w[t] == cyc@[t] as int);
            }
        }
        let modules = names_at(names, &cyc);
        proof {
            assert forall|t: int| 0 <= t < cyc@.len() implies (#[trigger] modules@[t])@
                == self@[cyc@[t] as int].name by {
                assert(modules@[t]@ == names@[cyc@[t] as int]@);
                assert(names@[cyc@[t] as int]@ == self@[cyc@[t] as int].name);
            }
            self.lemma_sequence_err(g, cyc@, modules@);
        }
        Err(Error::ImportCycle { modules })
    }

    /// An adjacency structure whose rows are sound and complete for the
    /// modules' imports yields the matching dependency graph.
    proof fn lemma_adj_matches(&self, g: Graph)
        requires
            self.wf(),
            g.node_count() == self@.len(),
            forall|x: int, k: int| #![trigger g.adj@[x]@[k]]
                0 <= x < self@.len() && 0 <= k < g.adj@[x]@.len()
                    ==> ((g.adj@[x]@[k]) as int) < self@.len()
                        && self@[x].dependencies.contains(self@[g.adj@[x]@[k] as int].name),
            forall|x: int, b: int| #![trigger self@[x].dependencies.contains(self@[b].name)]
                0 <= x < self@.len() && 0 <= b < self@.len() && self@[x].dependencies.contains(
                    self@[b].name,
                ) ==> exists|k: int|
                    0 <= k < g.adj@[x]@.len() && (#[trigger] g.adj@[x]@[k]) as int == b,
        ensures
            g.wf(),
            graph_matches(self@, g),
    {
        assert forall|p: int, q: int| #![trigger g.edge(p, q)]
            0 <= p < self@.len() && 0 <= q < self@.len() implies (g.edge(p, q)
            <==> self@[p].dependencies.contains(self@[q].name)) by {
            if g.edge(p, q) {
                let k = choose|k: int|
                    0 <= k < g.adj@[p]@.len() && (#[trigger] g.adj@[p]@[k]) as int == q;
                assert(self@[p].dependencies.contains(self@[q].name));
            }
            if self@[p].dependencies.contains(self@[q].name) {
                let k = choose|k: int|
                    0 <= k < g.adj@[p]@.len() && (#[trigger] g.adj@[p]@[k]) as int == q;
                assert(g.edge(p, q));
            }
        }
    }

    /// The name sequence read off a topological order of the matching graph
    /// meets the contract of `sequence`.
    proof fn lemma_sequence_ok(&self, g: Graph, order: Seq<usize>, out: Seq<String>)
        requires
            self.wf(),
            self@.len() <= usize::MAX as int,
            graph_matches(self@, g),
            g.wf(),
            g.is_topo_order(order),
            g.covers(order),
            !g.has_cycle(),
            out.len() == order.len(),
            forall|t: int|
                0 <= t < order.len() ==> (#[trigger] out[t])@ == self@[order[t] as int].name,
        ensures
            out.len() == self@.len(),
            forall|t: int| 0 <= t < out.len() ==> contains_name(self@, (#[trigger] out[t])@),
            forall|t: int, u: int| #![trigger out[t], out[u]]
                0 <= t < u < out.len() ==> out[t]@ != out[u]@,
            forall|name: Seq<char>|
                #[trigger] contains_name(self@, name) ==> exists|t: int|
                    0 <= t < out.len() && (#[trigger] out[t])@ == name,
            forall|t: int, u: int| #![trigger out[t], out[u]]
                0 <= t <= u < out.len() ==> !dep_edge(self@, out[t]@, out[u]@),
            !has_import_cycle(self@),
    {
        let s = self@;
        assert forall|t: int| 0 <= t < out.len() implies contains_name(s, (#[trigger] out[t])@) by {
            assert(s[order[t] as int].name == out[t]@);
        }
        assert forall|t: int, u: int| #![trigger out[t], out[u]]
            0 <= t < u < out.len() implies out[t]@ != out[u]@ by {
            assert(order[t] != order[u]);
            if out[t]@ == out[u]@ {
                assert(s[order[t] as int].name == s[order[u] as int].name);
                assert(false);
            }
        }
        assert forall|name: Seq<char>| #[trigger] contains_name(s, name) implies exists|t: int|
            0 <= t < out.len() && (#[trigger] out[t])@ == name by {
            let i = choose|i: int| 0 <= i < s.len() && (#[trigger] s[i]).name == name;
            assert((i as usize) as int == i);
            assert(order.contains(i as usize));
            let t = choose|t: int| 0 <= t < order.len() && order[t] == i as usize;
            assert(order[t] as int == i);
            assert(out[t]@ == s[i].name);
            assert(out[t]@ == name);
        }
        assert forall|t: int, u: int| #![trigger out[t], out[u]]
            0 <= t <= u < out.len() implies !dep_edge(s, out[t]@, out[u]@) by {
            if dep_edge(s, out[t]@, out[u]@) {
                lemma_dep_edge_at(s, order[t] as int, order[u] as int);
                assert(index_of_name(s, out[t]@) == order[t] as int);
                assert(s[order[t] as int].dependencies.contains(s[order[u] as int].name));
                assert(g.edge(order[t] as int, order[u] as int));
                assert(!g.edge(order[t] as int, order[u] as int));
                assert(false);
            }
        }
        if has_import_cycle(s) {
            lemma_name_cycle_to_graph(s, g);
            assert(false);
        }
    }

    /// The name sequence read off a graph cycle is an import cycle.
    proof fn lemma_sequence_err(&self, g: Graph, cyc: Seq<usize>, modules: Seq<String>)
        requires
            self.wf(),
            graph_matches(self@, g),
            g.wf(),
            cyc.len() >= 1,
            cyc.no_duplicates(),
            g.is_closed_walk(cyc.map_values(|u: usize| u as int)),
            modules.len() == cyc.len(),
            forall|t: int|
                0 <= t < cyc.len() ==> (#[trigger] modules[t])@ == self@[cyc[t] as int].name,
        ensures
            modules.len() >= 1,
            forall|t: int, u: int| #![trigger modules[t], modules[u]]
                0 <= t < u < modules.len() ==> modules[t]@ != modules[u]@,
            is_import_cycle(self@, names_view(modules)),
            has_import_cycle(self@),
    {
        let s = self@;
        let w = cyc.map_values(|u: usize| u as int);
        assert forall|t: int| 0 <= t < cyc.len() implies 0 <= (#[trigger] cyc[t] as int)
            < s.len() by {
            if t < cyc.len() - 1 {
                assert(g.edge(w[t], w[t + 1]));
            } else {
                assert(g.edge(w[t], w[0]));
            }
            assert(w[t] == cyc[t] as int);
        }
        assert forall|t: int, u: int| #![trigger modules[t], modules[u]]
            0 <= t < u < modules.len() implies modules[t]@ != modules[u]@ by {
            assert(cyc[t] != cyc[u]);
            if modules[t]@ == modules[u]@ {
                assert(s[cyc[t] as int].name == s[cyc[u] as int].name);
                assert(false);
            }
        }
        let nv = names_view(modules);
        assert forall|t: int| 0 <= t < nv.len() - 1 implies dep_edge(s, #[trigger] nv[t], nv[t + 1]) by {
            assert(g.edge(w[t], w[t + 1]));
            lemma_dep_edge_at(s, cyc[t] as int, cyc[t + 1] as int);
            assert(s[cyc[t] as int].dependencies.contains(s[cyc[t + 1] as int].name));
            assert(nv[t] == s[cyc[t] as int].name);
            assert(nv[t + 1] == s[cyc[t + 1] as int].name);
        }
        assert(dep_edge(s, nv[nv.len() - 1], nv[0])) by {
            let m = cyc.len() - 1;
            assert(g.edge(w[m], w[0]));
            lemma_dep_edge_at(s, cyc[m] as int, cyc[0] as int);
            assert(s[cyc[m] as int].dependencies.contains(s[cyc[0] as int].name));
        }
        assert(is_import_cycle(s, nv));
    }
}

} // verus!
