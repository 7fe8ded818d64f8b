//! Type-checked modules, their definitions, and the keyed store built as
//! each module finishes semantic analysis.

use vstd::prelude::*;
use vstd::multiset::Multiset;
use vstd::relations::sorted_by;
use vstd::seq_lib::lemma_multiset_commutative;
use vstd::seq_lib::group_to_multiset_ensures;

use crate::lex::lex_le;
use crate::lex::lemma_lex_antisym;
use crate::lex::lemma_lex_total;
use crate::lex::lemma_lex_trans;
use crate::lex::str_lex_le;
use crate::parsed::ModuleKind;

verus! {

/// An exported function definition, as the symbol table carries it.
pub struct FunctionDef {
    pub name: String,
}

/// An exported data-type definition.
pub struct DataTypeDef {
    pub name: String,
}

/// A validator entry point, with its optional paired secondary handler.
pub struct ValidatorDef {
    pub name: String,
    pub other_name: Option<String>,
}

/// One top-level definition of a checked module. Only functions and data
/// types feed the global symbol table; the other kinds are carried for
/// completeness of the module's shape.
pub enum Definition {
    Fn(FunctionDef),
    DataType(DataTypeDef),
    TypeAlias,
    ModuleConstant,
    Test,
    Validator(ValidatorDef),
    Use,
}

pub ghost struct FunctionDefView {
    pub name: Seq<char>,
}

pub ghost struct DataTypeDefView {
    pub name: Seq<char>,
}

pub ghost struct ValidatorDefView {
    pub name: Seq<char>,
    pub other_name: Option<Seq<char>>,
}

pub ghost enum DefinitionView {
    Fn(FunctionDefView),
    DataType(DataTypeDefView),
    TypeAlias,
    ModuleConstant,
    Test,
    Validator(ValidatorDefView),
    Use,
}

impl View for FunctionDef {
    type V = FunctionDefView;

    open spec fn view(&self) -> FunctionDefView {
        FunctionDefView { name: self.name@ }
    }
}

impl View for DataTypeDef {
    type V = DataTypeDefView;

    open spec fn view(&self) -> DataTypeDefView {
        DataTypeDefView { name: self.name@ }
    }
}

impl View for ValidatorDef {
    type V = ValidatorDefView;

    open spec fn view(&self) -> ValidatorDefView {
        ValidatorDefView {
            name: self.name@,
            other_name: match self.other_name {
                Some(ref s) => Some(s@),
                None => None,
            },
        }
    }
}

impl View for Definition {
    type V = DefinitionView;

    open spec fn view(&self) -> DefinitionView {
        match self {
            Definition::Fn(f) => DefinitionView::Fn(f@),
            Definition::DataType(d) => DefinitionView::DataType(d@),
            Definition::TypeAlias => DefinitionView::TypeAlias,
            Definition::ModuleConstant => DefinitionView::ModuleConstant,
            Definition::Test => DefinitionView::Test,
            Definition::Validator(v) => DefinitionView::Validator(v@),
            Definition::Use => DefinitionView::Use,
        }
    }
}

impl Clone for FunctionDef {
    fn clone(&self) -> (r: Self)
        ensures
            r == *self,
    {
        FunctionDef { name: self.name.clone() }
    }
}

impl Clone for DataTypeDef {
    fn clone(&self) -> (r: Self)
        ensures
            r == *self,
    {
        DataTypeDef { name: self.name.clone() }
    }
}

impl Clone for ValidatorDef {
    fn clone(&self) -> (r: Self)
        ensures
            r == *self,
    {
        ValidatorDef {
            name: self.name.clone(),
            other_name: match &self.other_name {
                Some(s) => Some(s.clone()),
                None => None,
            },
        }
    }
}

impl Clone for Definition {
    fn clone(&self) -> (r: Self)
        ensures
            r == *self,
    {
        match self {
            Definition::Fn(f) => Definition::Fn(f.clone()),
            Definition::DataType(d) => Definition::DataType(d.clone()),
            Definition::TypeAlias => Definition::TypeAlias,
            Definition::ModuleConstant => Definition::ModuleConstant,
            Definition::Test => Definition::Test,
            Definition::Validator(v) => Definition::Validator(v.clone()),
            Definition::Use => Definition::Use,
        }
    }
}

/// A module after semantic analysis: same identity as its parsed
/// counterpart, its definitions now resolved.
pub struct CheckedModule {
    pub name: String,
    pub code: String,
    pub input_path: String,
    pub kind: ModuleKind,
    pub package: String,
    pub definitions: Vec<Definition>,
}

pub ghost struct CheckedModuleView {
    pub name: Seq<char>,
    pub code: Seq<char>,
    pub input_path: Seq<char>,
    pub kind: ModuleKind,
    pub package: Seq<char>,
    pub definitions: Seq<DefinitionView>,
}

/// The views of a sequence of definitions.
pub open spec fn defs_view(v: Seq<Definition>) -> Seq<DefinitionView> {
    Seq::new(v.len(), |i: int| v[i]@)
}

impl View for CheckedModule {
    type V = CheckedModuleView;

    open spec fn view(&self) -> CheckedModuleView {
        CheckedModuleView {
            name: self.name@,
            code: self.code@,
            input_path: self.input_path@,
            kind: self.kind,
            package: self.package@,
            definitions: defs_view(self.definitions@),
        }
    }
}

impl Clone for CheckedModule {
    fn clone(&self) -> (r: Self)
        ensures
            r@ == self@,
    {
        let mut definitions: Vec<Definition> = Vec::new();
        let mut i: usize = 0;
        while i < self.definitions.len()
            invariant
                (i as int) <= self.definitions@.len(),
                definitions@.len() == i as int,
                forall|j: int|
                    0 <= j < i as int ==> (#[trigger] definitions@[j]) == self.definitions@[j],
            decreases self.definitions@.len() - i as int,
        {
            definitions.push(self.definitions[i].clone());
            i = i + 1;
        }
        proof {
            assert(definitions@ =~= self.definitions@);
        }
        let r = CheckedModule {
            name: self.name.clone(),
            code: self.code.clone(),
            input_path: self.input_path.clone(),
            kind: self.kind,
            package: self.package.clone(),
            definitions,
        };
        proof {
            assert(defs_view(r.definitions@) == defs_view(self.definitions@));
        }
        r
    }
}

/// Is some module of `s` named `name`?
pub open spec fn has_module(s: Seq<CheckedModuleView>, name: Seq<char>) -> bool {
    exists|i: int| 0 <= i < s.len() && (#[trigger] s[i]).name == name
}

/// Module identifiers are pairwise distinct.
pub open spec fn distinct_module_names(s: Seq<CheckedModuleView>) -> bool {
    forall|i: int, j: int| #![trigger s[i], s[j]]
        0 <= i < j < s.len() ==> s[i].name != s[j].name
}

/// The position of the module named `name` in `s`.
pub open spec fn module_index(s: Seq<CheckedModuleView>, name: Seq<char>) -> int {
    choose|i: int| 0 <= i < s.len() && (#[trigger] s[i]).name == name
}

/// The validator-bearing modules of `s`, in order.
pub open spec fn validator_modules(s: Seq<CheckedModuleView>) -> Seq<CheckedModuleView>
    decreases s.len(),
{
    if s.len() == 0 {
        Seq::empty()
    } else if s.last().kind.spec_is_validator() {
        validator_modules(s.drop_last()).push(s.last())
    } else {
        validator_modules(s.drop_last())
    }
}

/// The store of checked modules of one compilation run, keyed by module
/// identifier and filled as each module finishes analysis.
pub struct CheckedModules {
    pub(crate) modules: Vec<CheckedModule>,
}

impl View for CheckedModules {
    type V = Seq<CheckedModuleView>;

    closed spec fn view(&self) -> Seq<CheckedModuleView> {
        Seq::new(self.modules@.len(), |i: int| self.modules@[i]@)
    }
}

impl CheckedModules {
    /// Identifiers are pairwise distinct.
    pub open spec fn wf(&self) -> bool {
        distinct_module_names(self@)
    }

    pub fn new() -> (r: CheckedModules)
        ensures
            r.wf(),
            r@.len() == 0,
    {
        CheckedModules { modules: Vec::new() }
    }

    pub fn len(&self) -> (r: usize)
        ensures
            r as int == self@.len(),
    {
        self.modules.len()
    }

    /// Read access to the module at position `i`, in insertion order.
    pub fn get_at(&self, i: usize) -> (r: &CheckedModule)
        requires
            (i as int) < self@.len(),
        ensures
            r@ == self@[i as int],
    {
        &self.modules[i]
    }

    /// The one-element store, for isolated single-module flows.
    pub fn singleton(module: CheckedModule) -> (r: CheckedModules)
        ensures
            r.wf(),
            r@.len() == 1,
            r@[0] == module@,
    {
        let ghost mv = module@;
        let mut modules: Vec<CheckedModule> = Vec::new();
        modules.push(module);
        let r = CheckedModules { modules };
        proof {
            assert(r@[0] == mv);
        }
        r
    }

    /// Add a module, replacing any module of the same identifier.
    pub fn insert(&mut self, module: CheckedModule)
        requires
            old(self).wf(),
        ensures
            final(self).wf(),
            has_module(old(self)@, module@.name) ==> final(self)@ == old(self)@.update(
                module_index(old(self)@, module@.name),
                module@,
            ),
            !has_module(old(self)@, module@.name) ==> final(self)@ == old(self)@.push(module@),
            has_module(final(self)@, module@.name),
    {
        let ghost s0 = self@;
        let n = self.modules.len();
        let mut i: usize = 0;
        while i < n
            invariant
                self.wf(),
                self@ == s0,
                old(self)@ == s0,
                n as int == self@.len(),
                (i as int) <= (n as int),
                forall|j: int| 0 <= j < i as int ==> (#[trigger] s0[j]).name != module@.name,
            decreases n as int - i as int,
        {
            if self.modules[i].name.eq(&module.name) {
                proof {
                    assert(s0[i as int].name == module@.name);
                    assert(has_module(s0, module@.name));
                    assert(module_index(s0, module@.name) == i as int) by {
                        let ix = module_index(s0, module@.name);
                        if ix != i as int {
                            assert(s0[ix].name == s0[i as int].name);
                            assert(false);
                        }
                    }
                }
                self.modules[i] = module;
                proof {
                    assert(self@ =~= s0.update(i as int, self.modules@[i as int]@));
                    assert(self@[i as int].name == module@.name);
                    assert(has_module(self@, module@.name));
                    assert forall|a: int, b: int| #![trigger self@[a], self@[b]]
                        0 <= a < b < self@.len() implies self@[a].name != self@[b].name by {
                        assert(s0[a].name == self@[a].name || a == i as int);
                        assert(s0[b].name == self@[b].name || b == i as int);
                    }
                }
                return ;
            }
            i = i + 1;
        }
        proof {
            if has_module(s0, module@.name) {
                let ix = module_index(s0, module@.name);
                assert(s0[ix].name == module@.name);
                assert(false);
            }
        }
        self.modules.push(module);
        proof {
            assert(self@ =~= s0.push(self.modules@[self.modules@.len() - 1]@));
            assert(self@[self@.len() - 1].name == module@.name);
            assert forall|a: int, b: int| #![trigger self@[a], self@[b]]
                0 <= a < b < self@.len() implies self@[a].name != self@[b].name by {
                if b < self@.len() - 1 {
                    assert(s0[a].name == self@[a].name && s0[b].name == self@[b].name);
                } else {
                    assert(self@[b].name == module@.name);
                    assert(s0[a].name == self@[a].name);
                }
            }
        }
    }

    /// Consume the store, keeping only the validator-bearing modules, in
    /// store order.
    pub fn into_validators(self) -> (r: Vec<CheckedModule>)
        ensures
            Seq::new(r@.len(), |i: int| r@[i]@) == validator_modules(self@),
    {
        let ghost all = self@;
        let ms = self.modules;
        let mut r: Vec<CheckedModule> = Vec::new();
        let mut i: usize = 0;
        while i < ms.len()
            invariant
                (i as int) <= ms@.len(),
                all == Seq::new(ms@.len(), |t: int| ms@[t]@),
                Seq::new(r@.len(), |t: int| r@[t]@) =~= validator_modules(all.take(i as int)),
            decreases ms@.len() - i as int,
        {
            let ghost rv0 = Seq::new(r@.len(), |t: int| r@[t]@);
            if ms[i].kind.is_validator() {
                r.push(ms[i].clone());
            }
            i = i + 1;
            proof {
                let pre = all.take(i as int);
                assert(pre.drop_last() =~= all.take(i as int - 1));
                assert(pre.last() == all[i as int - 1]);
                assert(Seq::new(r@.len(), |t: int| r@[t]@) =~= validator_modules(pre));
            }
        }
        proof {
            assert(all.take(all.len() as int) =~= all);
        }
        r
    }
}

/// One enumerated validator: its owning module paired with its definition.
pub ghost struct ValidatorEntryView {
    pub module: CheckedModuleView,
    pub def: ValidatorDefView,
}

/// The sort key of an entry: owning package, owning module, validator name.
pub open spec fn entry_key(e: ValidatorEntryView) -> (Seq<char>, Seq<char>, Seq<char>) {
    (e.module.package, e.module.name, e.def.name)
}

/// The entry ordering as a relation value, shared by every contract that
/// speaks of sortedness.
pub open spec fn entry_order() -> spec_fn(ValidatorEntryView, ValidatorEntryView) -> bool {
    |a: ValidatorEntryView, b: ValidatorEntryView| entry_le(a, b)
}

/// Entries ordered by the lexicographic triple (package, module, name).
pub open spec fn entry_le(x: ValidatorEntryView, y: ValidatorEntryView) -> bool {
    if x.module.package != y.module.package {
        lex_le(x.module.package, y.module.package)
    } else if x.module.name != y.module.name {
        lex_le(x.module.name, y.module.name)
    } else {
        lex_le(x.def.name, y.def.name)
    }
}

pub proof fn lemma_entry_le_total(x: ValidatorEntryView, y: ValidatorEntryView)
    ensures
        entry_le(x, y) || entry_le(y, x),
{
    lemma_lex_total(x.module.package, y.module.package);
    lemma_lex_total(x.module.name, y.module.name);
    lemma_lex_total(x.def.name, y.def.name);
}

/// Mutual order pins the key triple (though not the rest of the entries).
pub proof fn lemma_entry_le_mutual_keys(x: ValidatorEntryView, y: ValidatorEntryView)
    requires
        entry_le(x, y),
        entry_le(y, x),
    ensures
        entry_key(x) == entry_key(y),
{
    if x.module.package != y.module.package {
        lemma_lex_antisym(x.module.package, y.module.package);
    }
    if x.module.name != y.module.name {
        lemma_lex_antisym(x.module.name, y.module.name);
    }
    lemma_lex_antisym(x.def.name, y.def.name);
}

pub proof fn lemma_entry_le_trans(x: ValidatorEntryView, y: ValidatorEntryView, z: ValidatorEntryView)
    requires
        entry_le(x, y),
        entry_le(y, z),
    ensures
        entry_le(x, z),
{
    let px = x.module.package;
    let py = y.module.package;
    let pz = z.module.package;
    if px != py {
        if py != pz {
            lemma_lex_trans(px, py, pz);
            if px == pz {
                lemma_lex_antisym(px, py);
                assert(false);
            }
        }
    } else {
        if py != pz {
        } else {
            let nx = x.module.name;
            let ny = y.module.name;
            let nz = z.module.name;
            if nx != ny {
                if ny != nz {
                    lemma_lex_trans(nx, ny, nz);
                    if nx == nz {
                        lemma_lex_antisym(nx, ny);
                        assert(false);
                    }
                }
            } else {
                if ny != nz {
                } else {
                    lemma_lex_trans(x.def.name, y.def.name, z.def.name);
                }
            }
        }
    }
}

/// One entry per validator definition of `defs`, in definition order, all
/// owned by `m`.
pub open spec fn defs_entries(m: CheckedModuleView, defs: Seq<DefinitionView>) -> Seq<
    ValidatorEntryView,
>
    decreases defs.len(),
{
    if defs.len() == 0 {
        Seq::empty()
    } else {
        let rest = defs_entries(m, defs.drop_first());
        match defs[0] {
            DefinitionView::Validator(v) => seq![ValidatorEntryView { module: m, def: v }] + rest,
            _ => rest,
        }
    }
}

/// The entries contributed by one module: none unless it is
/// validator-bearing.
pub open spec fn module_entries(m: CheckedModuleView) -> Seq<ValidatorEntryView> {
    if m.kind.spec_is_validator() {
        defs_entries(m, m.definitions)
    } else {
        Seq::empty()
    }
}

/// Every validator entry of the store's modules, in store order.
pub open spec fn validator_entries(s: Seq<CheckedModuleView>) -> Seq<ValidatorEntryView>
    decreases s.len(),
{
    if s.len() == 0 {
        Seq::empty()
    } else {
        module_entries(s[0]) + validator_entries(s.drop_first())
    }
}

/// Appending a module appends its entries.
pub proof fn lemma_validator_entries_push(s: Seq<CheckedModuleView>, m: CheckedModuleView)
    ensures
        validator_entries(s.push(m)) =~= validator_entries(s) + module_entries(m),
    decreases s.len(),
{
    if s.len() == 0 {
        assert(s.push(m).drop_first() =~= Seq::<CheckedModuleView>::empty());
        assert(s.push(m)[0] == m);
        assert(validator_entries(s.push(m)) == module_entries(m) + validator_entries(
            s.push(m).drop_first(),
        ));
        assert(validator_entries(s.push(m)) =~= module_entries(m));
        assert(validator_entries(s) + module_entries(m) =~= module_entries(m));
    } else {
        lemma_validator_entries_push(s.drop_first(), m);
        assert(s.push(m).drop_first() =~= s.drop_first().push(m));
        assert(validator_entries(s.push(m)) =~= module_entries(s[0]) + validator_entries(
            s.drop_first().push(m),
        ));
        assert(module_entries(s[0]) + (validator_entries(s.drop_first()) + module_entries(m))
            =~= (module_entries(s[0]) + validator_entries(s.drop_first())) + module_entries(m));
    }
}

/// Reversing the store permutes, but does not change, the entries.
pub proof fn lemma_validator_entries_reverse(s: Seq<CheckedModuleView>)
    ensures
        validator_entries(s.reverse()).to_multiset() == validator_entries(s).to_multiset(),
    decreases s.len(),
{
    broadcast use vstd::multiset::group_multiset_axioms;

    if s.len() == 0 {
        assert(s.reverse() =~= s);
    } else {
        let dl = s.drop_last();
        lemma_validator_entries_reverse(dl);
        assert(s.reverse()[0] == s.last());
        assert(s.reverse().drop_first() =~= dl.reverse());
        assert(validator_entries(s.reverse()) =~= module_entries(s.last()) + validator_entries(
            dl.reverse(),
        ));
        assert(dl.push(s.last()) =~= s);
        lemma_validator_entries_push(dl, s.last());
        assert(validator_entries(s) =~= validator_entries(dl) + module_entries(s.last()));
        lemma_multiset_commutative(module_entries(s.last()), validator_entries(dl.reverse()));
        lemma_multiset_commutative(validator_entries(dl), module_entries(s.last()));
        assert(validator_entries(s.reverse()).to_multiset() =~= module_entries(
            s.last(),
        ).to_multiset().add(validator_entries(dl).to_multiset()));
        assert(validator_entries(s).to_multiset() =~= validator_entries(dl).to_multiset().add(
            module_entries(s.last()).to_multiset(),
        ));
    }
}

/// No two entries share a sort key.
pub open spec fn distinct_entry_keys(s: Seq<ValidatorEntryView>) -> bool {
    forall|i: int, j: int| #![trigger s[i], s[j]]
        0 <= i < j < s.len() ==> entry_key(s[i]) != entry_key(s[j])
}

/// Two sorted sequences with the same entries and pairwise distinct keys are
/// identical: the sorted order of a validator enumeration is unique.
pub proof fn lemma_sorted_entries_unique(x: Seq<ValidatorEntryView>, y: Seq<ValidatorEntryView>)
    requires
        sorted_by(x, entry_order()),
        sorted_by(y, entry_order()),
        x.to_multiset() == y.to_multiset(),
        distinct_entry_keys(x),
    ensures
        x =~= y,
    decreases x.len(),
{
    broadcast use vstd::multiset::group_multiset_axioms;
    broadcast use group_to_multiset_ensures;

    let leq = entry_order();
    if x.len() == 0 || y.len() == 0 {
        assert(x.to_multiset().len() == x.len());
        assert(y.to_multiset().len() == y.len());
    } else {
        assert(y.to_multiset().contains(y[0]));
        assert(x.to_multiset().contains(y[0]));
        assert(x.contains(y[0]));
        let i = choose|i: int| 0 <= i < x.len() && x[i] == y[0];
        assert(x.to_multiset().contains(x[0]));
        assert(y.to_multiset().contains(x[0]));
        assert(y.contains(x[0]));
        let j = choose|j: int| 0 <= j < y.len() && y[j] == x[0];
        if i > 0 {
            assert(leq(x[0], x[i]));
        }
        if j > 0 {
            assert(leq(y[0], y[j]));
        }
        assert(entry_le(x[0], y[0]) || x[0] == y[0]);
        assert(entry_le(y[0], x[0]) || y[0] == x[0]);
        if x[0] != y[0] {
            lemma_entry_le_mutual_keys(x[0], y[0]);
            assert(entry_key(x[i]) == entry_key(x[0]));
            assert(false);
        }
        assert(x.drop_first() =~= x.remove(0));
        assert(x.remove(0).to_multiset() =~= x.to_multiset().remove(x[0]));
        assert(y.drop_first() =~= y.remove(0));
        assert(y.remove(0).to_multiset() =~= y.to_multiset().remove(y[0]));
        assert(x.drop_first().to_multiset() =~= x.to_multiset().remove(x[0]));
        assert(y.drop_first().to_multiset() =~= y.to_multiset().remove(y[0]));
        assert forall|a: int, b: int| #![trigger x.drop_first()[a], x.drop_first()[b]]
            0 <= a < b < x.drop_first().len() implies entry_key(x.drop_first()[a]) != entry_key(
            x.drop_first()[b],
        ) by {
            assert(x.drop_first()[a] == x[a + 1]);
            assert(x.drop_first()[b] == x[b + 1]);
        }
        assert forall|a: int, b: int|
            0 <= a < b < x.drop_first().len() implies #[trigger] leq(
            x.drop_first()[a],
            x.drop_first()[b],
        ) by {
            assert(leq(x[a + 1], x[b + 1]));
        }
        assert forall|a: int, b: int|
            0 <= a < b < y.drop_first().len() implies #[trigger] leq(
            y.drop_first()[a],
            y.drop_first()[b],
        ) by {
            assert(leq(y[a + 1], y[b + 1]));
        }
        lemma_sorted_entries_unique(x.drop_first(), y.drop_first());
        assert forall|t: int| 0 <= t < x.len() implies x[t] == y[t] by {
            if t > 0 {
                assert(x.drop_first()[t - 1] == y.drop_first()[t - 1]);
            }
        }
        assert(x.len() == y.len());
    }
}

/// The views of a sequence of collected entry pairs.
pub open spec fn entry_views(s: Seq<(CheckedModule, ValidatorDef)>) -> Seq<ValidatorEntryView> {
    Seq::new(s.len(), |i: int| ValidatorEntryView { module: s[i].0@, def: s[i].1@ })
}

/// Compare two collected entries by their sort key.
fn entry_le_exec(x: &(CheckedModule, ValidatorDef), y: &(CheckedModule, ValidatorDef)) -> (r: bool)
    ensures
        r == entry_le(
            ValidatorEntryView { module: x.0@, def: x.1@ },
            ValidatorEntryView { module: y.0@, def: y.1@ },
        ),
{
    if !x.0.package.eq(&y.0.package) {
        str_lex_le(x.0.package.as_str(), y.0.package.as_str())
    } else if !x.0.name.eq(&y.0.name) {
        str_lex_le(x.0.name.as_str(), y.0.name.as_str())
    } else {
        str_lex_le(x.1.name.as_str(), y.1.name.as_str())
    }
}

/// Appending a definition appends its entry, if it is a validator.
proof fn lemma_defs_entries_push(m: CheckedModuleView, d: Seq<DefinitionView>, x: DefinitionView)
    ensures
        defs_entries(m, d.push(x)) =~= defs_entries(m, d) + (match x {
            DefinitionView::Validator(v) => seq![ValidatorEntryView { module: m, def: v }],
            _ => Seq::<ValidatorEntryView>::empty(),
        }),
    decreases d.len(),
{
    let tail = (match x {
        DefinitionView::Validator(v) => seq![ValidatorEntryView { module: m, def: v }],
        _ => Seq::<ValidatorEntryView>::empty(),
    });
    if d.len() == 0 {
        assert(d.push(x).drop_first() =~= Seq::<DefinitionView>::empty());
        assert(d.push(x)[0] == x);
        assert(defs_entries(m, d.push(x)) == (match d.push(x)[0] {
            DefinitionView::Validator(v) => seq![ValidatorEntryView { module: m, def: v }]
                + defs_entries(m, d.push(x).drop_first()),
            _ => defs_entries(m, d.push(x).drop_first()),
        }));
        assert(defs_entries(m, d.push(x)) =~= tail);
        assert(defs_entries(m, d) + tail =~= tail);
    } else {
        lemma_defs_entries_push(m, d.drop_first(), x);
        assert(d.push(x).drop_first() =~= d.drop_first().push(x));
        assert(d.push(x)[0] == d[0]);
        match d[0] {
            DefinitionView::Validator(v) => {
                assert(defs_entries(m, d.push(x)) =~= seq![
                    ValidatorEntryView { module: m, def: v },
                ] + defs_entries(m, d.drop_first().push(x)));
                assert(seq![ValidatorEntryView { module: m, def: v }] + (defs_entries(
                    m,
                    d.drop_first(),
                ) + tail) =~= (seq![ValidatorEntryView { module: m, def: v }] + defs_entries(
                    m,
                    d.drop_first(),
                )) + tail);
            },
            _ => {
                assert(defs_entries(m, d.push(x)) =~= defs_entries(m, d.drop_first().push(x)));
            },
        }
    }
}

/// Find the position at which `e` keeps `out` sorted.
fn find_pos(out: &Vec<(CheckedModule, ValidatorDef)>, e: &(CheckedModule, ValidatorDef)) -> (k:
    usize)
    requires
        sorted_by(entry_views(out@), entry_order()),
    ensures
        (k as int) <= out@.len(),
        forall|m: int|
            0 <= m < k as int ==> entry_le(
                #[trigger] entry_views(out@)[m],
                ValidatorEntryView { module: e.0@, def: e.1@ },
            ),
        forall|m: int|
            k as int <= m < out@.len() ==> entry_le(
                ValidatorEntryView { module: e.0@, def: e.1@ },
                #[trigger] entry_views(out@)[m],
            ),
{
    let ghost ev = ValidatorEntryView { module: e.0@, def: e.1@ };
    let n = out.len();
    let mut k: usize = 0;
    while k < n
        invariant
            ev == (ValidatorEntryView { module: e.0@, def: e.1@ }),
            sorted_by(entry_views(out@), entry_order()),
            n as int == out@.len(),
            (k as int) <= (n as int),
            forall|m: int| 0 <= m < k as int ==> entry_le(#[trigger] entry_views(out@)[m], ev),
        decreases n as int - k as int,
    {
        if !entry_le_exec(&out[k], e) {
            proof {
                let ov = entry_views(out@);
                lemma_entry_le_total(ov[k as int], ev);
                assert(entry_le(ev, ov[k as int]));
                assert forall|m: int| k as int <= m < out@.len() implies entry_le(
                    ev,
                    #[trigger] ov[m],
                ) by {
                    if m > k as int {
                        assert(entry_order()(ov[k as int], ov[m]));
                        lemma_entry_le_trans(ev, ov[k as int], ov[m]);
                    }
                }
            }
            return k;
        }
        k = k + 1;
    }
    n
}

/// Insertion sort over collected entries.
fn sort_entries(items: Vec<(CheckedModule, ValidatorDef)>) -> (r: Vec<(CheckedModule, ValidatorDef)>)
    ensures
        sorted_by(entry_views(r@), entry_order()),
        entry_views(r@).to_multiset() == entry_views(items@).to_multiset(),
{
    let ghost total = entry_views(items@).to_multiset();
    let mut src = items;
    let mut out: Vec<(CheckedModule, ValidatorDef)> = Vec::new();
    proof {
        broadcast use vstd::multiset::group_multiset_axioms;

        assert(entry_views(out@) =~= Seq::<ValidatorEntryView>::empty());
        assert(Seq::<ValidatorEntryView>::empty().to_multiset()
            =~= Multiset::<ValidatorEntryView>::empty()) by {
            Seq::<ValidatorEntryView>::empty().to_multiset_ensures();
            assert(Seq::<ValidatorEntryView>::empty().to_multiset().len() == 0);
        }
        assert(entry_views(out@).to_multiset().add(entry_views(src@).to_multiset())
            =~= entry_views(src@).to_multiset());
    }
    while src.len() > 0
        invariant
            sorted_by(entry_views(out@), entry_order()),
            entry_views(out@).to_multiset().add(entry_views(src@).to_multiset()) == total,
        decreases src@.len(),
    {
        let ghost src0 = src@;
        let e = match src.pop() {
            Some(e) => e,
            None => vstd::pervasive::unreached(),
        };
        proof {
            broadcast use group_to_multiset_ensures;
            broadcast use vstd::multiset::group_multiset_axioms;

            let ev = ValidatorEntryView { module: e.0@, def: e.1@ };
            assert(entry_views(src0) =~= entry_views(src@).push(ev));
            assert(entry_views(src@).push(ev).to_multiset() =~= entry_views(
                src@,
            ).to_multiset().insert(ev));
        }
        let k = find_pos(&out, &e);
        let ghost out0v = entry_views(out@);
        let ghost ev = ValidatorEntryView { module: e.0@, def: e.1@ };
        out.insert(k, e);
        proof {
            broadcast use group_to_multiset_ensures;
            broadcast use vstd::multiset::group_multiset_axioms;

            let v1 = entry_views(out@);
            assert(v1 =~= out0v.insert(k as int, ev));
            assert(v1.remove(k as int) =~= out0v);
            assert(v1[k as int] == ev);
            assert(v1.remove(k as int).to_multiset() =~= v1.to_multiset().remove(ev));
            assert(v1.to_multiset().contains(ev)) by {
                assert(v1.contains(ev));
            }
            assert(v1.to_multiset() =~= out0v.to_multiset().insert(ev));
            assert forall|i: int, j: int|
                0 <= i < j < v1.len() implies #[trigger] entry_order()(v1[i], v1[j]) by {
                if j < k as int {
                    assert(entry_order()(out0v[i], out0v[j]));
                } else if i < k as int && j == k as int {
                    assert(entry_le(out0v[i], ev));
                } else if i < k as int && j > k as int {
                    assert(v1[j] == out0v[j - 1]);
                    if i < j - 1 {
                        assert(entry_order()(out0v[i], out0v[j - 1]));
                    } else {
                        assert(entry_le(out0v[i], ev));
                        assert(entry_le(ev, out0v[j - 1]));
                        lemma_entry_le_trans(out0v[i], ev, out0v[j - 1]);
                    }
                } else if i == k as int {
                    assert(v1[j] == out0v[j - 1]);
                    assert(entry_le(ev, out0v[j - 1]));
                } else {
                    assert(v1[i] == out0v[i - 1] && v1[j] == out0v[j - 1]);
                    assert(entry_order()(out0v[i - 1], out0v[j - 1]));
                }
            }
            assert(sorted_by(v1, entry_order()));
        }
    }
    proof {
        broadcast use group_to_multiset_ensures;
        broadcast use vstd::multiset::group_multiset_axioms;

        assert(entry_views(src@) =~= Seq::<ValidatorEntryView>::empty());
        assert(entry_views(src@).to_multiset() =~= Multiset::<ValidatorEntryView>::empty());
        assert(entry_views(out@).to_multiset().add(Multiset::<ValidatorEntryView>::empty())
            =~= entry_views(out@).to_multiset());
    }
    out
}

impl CheckedModules {
    /// Every validator entry point across the store, each paired with its
    /// owning module, in the stable order of the lexicographic triple
    /// (package, module identifier, validator name) — independent of the
    /// order modules were inserted.
    pub fn validators(&self) -> (r: Vec<(CheckedModule, ValidatorDef)>)
        ensures
            sorted_by(entry_views(r@), entry_order()),
            entry_views(r@).to_multiset() == validator_entries(self@).to_multiset(),
    {
        let mut items: Vec<(CheckedModule, ValidatorDef)> = Vec::new();
        let n = self.modules.len();
        let mut i: usize = 0;
        while i < n
            invariant
                n as int == self@.len(),
                self@ == Seq::new(self.modules@.len(), |t: int| self.modules@[t]@),
                (i as int) <= (n as int),
                entry_views(items@) == validator_entries(self@.take(i as int)),
            decreases n as int - i as int,
        {
            let ghost mv = self@[i as int];
            if self.modules[i].kind.is_validator() {
                let dlen = self.modules[i].definitions.len();
                let mut j: usize = 0;
                while j < dlen
                    invariant
                        n as int == self@.len(),
                        self@ == Seq::new(self.modules@.len(), |t: int| self.modules@[t]@),
                        (i as int) < (n as int),
                        mv == self@[i as int],
                        mv.kind.spec_is_validator(),
                        dlen as int == mv.definitions.len(),
                        dlen as int == self.modules@[i as int].definitions@.len(),
                        (j as int) <= (dlen as int),
                        entry_views(items@) == validator_entries(self@.take(i as int))
                            + defs_entries(mv, mv.definitions.take(j as int)),
                    decreases dlen as int - j as int,
                {
                    let ghost items0 = items@;
                    let dv = &self.modules[i].definitions[j];
                    proof {
                        assert(mv.definitions[j as int] == dv@);
                    }
                    match dv {
                        Definition::Validator(v) => {
                            let mc = self.modules[i].clone();
                            let vc = v.clone();
                            items.push((mc, vc));
                            proof {
                                assert(entry_views(items@) =~= entry_views(items0).push(
                                    ValidatorEntryView { module: mv, def: v@ },
                                ));
                            }
                        },
                        _ => {
                        },
                    }
                    j = j + 1;
                    proof {
                        let pre = mv.definitions.take(j as int);
                        assert(pre =~= mv.definitions.take(j as int - 1).push(
                            mv.definitions[j as int - 1],
                        ));
                        lemma_defs_entries_push(
                            mv,
                            mv.definitions.take(j as int - 1),
                            mv.definitions[j as int - 1],
                        );
                        assert(entry_views(items@) =~= validator_entries(self@.take(i as int))
                            + defs_entries(mv, pre));
                    }
                }
                proof {
                    assert(mv.definitions.take(dlen as int) =~= mv.definitions);
                }
            }
            i = i + 1;
            proof {
                let pre = self@.take(i as int);
                assert(pre =~= self@.take(i as int - 1).push(mv));
                lemma_validator_entries_push(self@.take(i as int - 1), mv);
                if mv.kind.spec_is_validator() {
                    assert(entry_views(items@) =~= validator_entries(pre));
                } else {
                    assert(module_entries(mv) =~= Seq::<ValidatorEntryView>::empty());
                    assert(entry_views(items@) =~= validator_entries(pre));
                }
            }
        }
        proof {
            assert(self@.take(n as int) =~= self@);
        }
        sort_entries(items)
    }
}

/// The sorted enumeration of one store is unique: re-running it, or running
/// it on a store holding the same modules, yields the identical sequence
/// whenever no two validators share the sort key triple.
pub proof fn lemma_validators_deterministic(
    s: Seq<CheckedModuleView>,
    r1: Seq<ValidatorEntryView>,
    r2: Seq<ValidatorEntryView>,
)
    requires
        sorted_by(r1, entry_order()),
        r1.to_multiset() == validator_entries(s).to_multiset(),
        sorted_by(r2, entry_order()),
        r2.to_multiset() == validator_entries(s).to_multiset(),
        distinct_entry_keys(r1),
    ensures
        r1 == r2,
{
    lemma_sorted_entries_unique(r1, r2);
}

/// Validator enumeration is insensitive to insertion order: a store holding
/// the same modules in reverse order yields the identical sorted sequence,
/// whenever no two validators share the sort key triple.
pub proof fn lemma_validators_insertion_order(
    s: Seq<CheckedModuleView>,
    r1: Seq<ValidatorEntryView>,
    r2: Seq<ValidatorEntryView>,
)
    requires
        sorted_by(r1, entry_order()),
        r1.to_multiset() == validator_entries(s).to_multiset(),
        sorted_by(r2, entry_order()),
        r2.to_multiset() == validator_entries(s.reverse()).to_multiset(),
        distinct_entry_keys(r1),
    ensures
        r1 == r2,
{
    lemma_validator_entries_reverse(s);
    lemma_sorted_entries_unique(r1, r2);
}

} // verus!
