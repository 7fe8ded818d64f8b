//! The generator context: the aggregated global symbol table, per-module
//! source text with its line-offset index, and the resolved tracing
//! verbosity, assembled once per compilation run and handed, read-only, to
//! the downstream code generator.

use vstd::prelude::*;
use vstd::string::StrSliceExecFns;

use crate::checked::CheckedModule;
use crate::checked::CheckedModuleView;
use crate::checked::CheckedModules;
use crate::checked::DataTypeDefView;
use crate::checked::Definition;
use crate::checked::DefinitionView;
use crate::checked::FunctionDefView;
use crate::symbols::upsert;
use crate::symbols::DataTypeKey;
use crate::symbols::DataTypeKeyView;
use crate::symbols::DataTypeTable;
use crate::symbols::FunctionAccessKey;
use crate::symbols::FunctionAccessKeyView;
use crate::symbols::FunctionTable;

verus! {

/// Positions at which lines begin: offset zero, then one past each newline,
/// in order. Offsets index the module's character sequence.
pub open spec fn line_starts_upto(s: Seq<char>, i: int) -> Seq<int>
    decreases i,
{
    if i <= 0 {
        seq![0]
    } else if s[i - 1] == '\n' {
        line_starts_upto(s, i - 1).push(i)
    } else {
        line_starts_upto(s, i - 1)
    }
}

pub open spec fn spec_line_starts(s: Seq<char>) -> Seq<int> {
    line_starts_upto(s, s.len() as int)
}

/// The line-offset index of one module's source text, derived from the text
/// alone and used for diagnostics and source mapping during code generation.
pub struct LineNumbers {
    line_starts: Vec<usize>,
}

impl View for LineNumbers {
    type V = Seq<int>;

    closed spec fn view(&self) -> Seq<int> {
        Seq::new(self.line_starts@.len(), |i: int| self.line_starts@[i] as int)
    }
}

impl LineNumbers {
    pub fn new(code: &str) -> (r: LineNumbers)
        ensures
            r@ == spec_line_starts(code@),
    {
        let len = code.unicode_len();
        let mut line_starts: Vec<usize> = Vec::new();
        line_starts.push(0);
        proof {
            assert(Seq::new(line_starts@.len(), |t: int| line_starts@[t] as int)
                =~= line_starts_upto(code@, 0));
        }
        let mut i: usize = 0;
        while i < len
            invariant
                len as int == code@.len(),
                (i as int) <= (len as int),
                Seq::new(line_starts@.len(), |t: int| line_starts@[t] as int)
                    == line_starts_upto(code@, i as int),
            decreases len as int - i as int,
        {
            let ghost before = line_starts@;
            let c = code.get_char(i);
            if c == '\n' {
                line_starts.push(i + 1);
            }
            i = i + 1;
            proof {
                if code@[i as int - 1] == '\n' {
                    assert(Seq::new(line_starts@.len(), |t: int| line_starts@[t] as int)
                        =~= line_starts_upto(code@, i as int - 1).push(i as int));
                }
                assert(Seq::new(line_starts@.len(), |t: int| line_starts@[t] as int)
                    == line_starts_upto(code@, i as int));
            }
        }
        LineNumbers { line_starts }
    }

    /// The recorded line-start offsets, first line first.
    pub fn offsets(&self) -> (r: &Vec<usize>)
        ensures
            r@.len() == self@.len(),
            forall|i: int| 0 <= i < r@.len() ==> (#[trigger] r@[i]) as int == self@[i],
    {
        &self.line_starts
    }
}

/// The resolved tracing verbosity handed to the code generator.
#[derive(Clone, Copy, PartialEq, Eq, Structural, Debug)]
pub enum TraceLevel {
    Silent,
    Verbose,
}

/// The verbosity requested when `force_trace` asks for full trace emission.
pub open spec fn spec_trace_level(force_trace: bool) -> TraceLevel {
    if force_trace {
        TraceLevel::Verbose
    } else {
        TraceLevel::Silent
    }
}

/// One module's source text and line index, keyed by its identifier.
pub struct SourceEntry {
    pub module: String,
    pub code: String,
    pub lines: LineNumbers,
}

/// The aggregation step for one definition of module `mname` into the
/// function table: a function definition is inserted under the qualified
/// key, overwriting any prior entry; other definition kinds are skipped.
pub open spec fn fn_step(
    t: Seq<(FunctionAccessKeyView, FunctionDefView)>,
    mname: Seq<char>,
    d: DefinitionView,
) -> Seq<(FunctionAccessKeyView, FunctionDefView)> {
    match d {
        DefinitionView::Fn(f) => upsert(
            t,
            FunctionAccessKeyView { module_name: mname, function_name: f.name },
            f,
        ),
        _ => t,
    }
}

pub open spec fn agg_defs_functions(
    t: Seq<(FunctionAccessKeyView, FunctionDefView)>,
    mname: Seq<char>,
    defs: Seq<DefinitionView>,
) -> Seq<(FunctionAccessKeyView, FunctionDefView)>
    decreases defs.len(),
{
    if defs.len() == 0 {
        t
    } else {
        agg_defs_functions(fn_step(t, mname, defs[0]), mname, defs.drop_first())
    }
}

/// The function table after overlaying every module's function definitions,
/// in store order, onto `t`.
pub open spec fn agg_functions(
    t: Seq<(FunctionAccessKeyView, FunctionDefView)>,
    mods: Seq<CheckedModuleView>,
) -> Seq<(FunctionAccessKeyView, FunctionDefView)>
    decreases mods.len(),
{
    if mods.len() == 0 {
        t
    } else {
        agg_functions(
            agg_defs_functions(t, mods[0].name, mods[0].definitions),
            mods.drop_first(),
        )
    }
}

/// The aggregation step for one definition into the data-type table.
pub open spec fn dt_step(
    t: Seq<(DataTypeKeyView, DataTypeDefView)>,
    mname: Seq<char>,
    d: DefinitionView,
) -> Seq<(DataTypeKeyView, DataTypeDefView)> {
    match d {
        DefinitionView::DataType(dt) => upsert(
            t,
            DataTypeKeyView { module_name: mname, defined_type: dt.name },
            dt,
        ),
        _ => t,
    }
}

pub open spec fn agg_defs_data_types(
    t: Seq<(DataTypeKeyView, DataTypeDefView)>,
    mname: Seq<char>,
    defs: Seq<DefinitionView>,
) -> Seq<(DataTypeKeyView, DataTypeDefView)>
    decreases defs.len(),
{
    if defs.len() == 0 {
        t
    } else {
        agg_defs_data_types(dt_step(t, mname, defs[0]), mname, defs.drop_first())
    }
}

/// The data-type table after overlaying every module's data-type
/// definitions, in store order, onto `t`.
pub open spec fn agg_data_types(
    t: Seq<(DataTypeKeyView, DataTypeDefView)>,
    mods: Seq<CheckedModuleView>,
) -> Seq<(DataTypeKeyView, DataTypeDefView)>
    decreases mods.len(),
{
    if mods.len() == 0 {
        t
    } else {
        agg_data_types(
            agg_defs_data_types(t, mods[0].name, mods[0].definitions),
            mods.drop_first(),
        )
    }
}

/// The immutable bundle handed to the code generator.
pub struct GeneratorContext {
    pub functions: FunctionTable,
    pub data_types: DataTypeTable,
    pub module_src: Vec<SourceEntry>,
    pub tracing: TraceLevel,
}

/// What `new_generator` promises of its result, given the builtin tables,
/// the store, and the tracing flag.
pub open spec fn generator_post(
    r: GeneratorContext,
    bf: Seq<(FunctionAccessKeyView, FunctionDefView)>,
    bd: Seq<(DataTypeKeyView, DataTypeDefView)>,
    mods: Seq<CheckedModuleView>,
    force_trace: bool,
) -> bool {
    &&& r.functions@ == agg_functions(bf, mods)
    &&& r.data_types@ == agg_data_types(bd, mods)
    &&& r.module_src@.len() == mods.len()
    &&& forall|i: int|
        0 <= i < mods.len() ==> {
            &&& (#[trigger] r.module_src@[i]).module@ == mods[i].name
            &&& r.module_src@[i].code@ == mods[i].code
            &&& r.module_src@[i].lines@ == spec_line_starts(mods[i].code)
        }
    &&& r.tracing == spec_trace_level(force_trace)
}

/// The context is a function of its inputs: any two results meeting the
/// contract of `new_generator` for the same builtins, store, and flag carry
/// identical tables, metadata, and verbosity. Rebuilding it on an unchanged
/// store reproduces it exactly.
pub proof fn lemma_generator_deterministic(
    r1: GeneratorContext,
    r2: GeneratorContext,
    bf: Seq<(FunctionAccessKeyView, FunctionDefView)>,
    bd: Seq<(DataTypeKeyView, DataTypeDefView)>,
    mods: Seq<CheckedModuleView>,
    force_trace: bool,
)
    requires
        generator_post(r1, bf, bd, mods, force_trace),
        generator_post(r2, bf, bd, mods, force_trace),
    ensures
        r1.functions@ == r2.functions@,
        r1.data_types@ == r2.data_types@,
        r1.module_src@.len() == r2.module_src@.len(),
        forall|i: int|
            0 <= i < r1.module_src@.len() ==> {
                &&& (#[trigger] r1.module_src@[i]).module@ == r2.module_src@[i].module@
                &&& r1.module_src@[i].code@ == r2.module_src@[i].code@
                &&& r1.module_src@[i].lines@ == r2.module_src@[i].lines@
            },
        r1.tracing == r2.tracing,
{
}

impl CheckedModules {
    /// Assemble the generator context: seed the two symbol tables with the
    /// builtins, overlay every module's function and data-type definitions
    /// under their qualified keys (a user definition whose key equals a
    /// builtin key replaces it), record each module's source text and line
    /// index, and resolve the tracing verbosity.
    pub fn new_generator(
        &self,
        builtin_functions: FunctionTable,
        builtin_data_types: DataTypeTable,
        force_trace: bool,
    ) -> (r: GeneratorContext)
        requires
            builtin_functions.wf(),
            builtin_data_types.wf(),
        ensures
            r.functions.wf(),
            r.data_types.wf(),
            generator_post(r, builtin_functions@, builtin_data_types@, self@, force_trace),
    {
        let ghost bf0 = builtin_functions@;
        let ghost bd0 = builtin_data_types@;
        let mut functions = builtin_functions;
        let mut data_types = builtin_data_types;
        let mut module_src: Vec<SourceEntry> = Vec::new();
        proof {
            assert(self@.skip(0) =~= self@);
        }
        let n = self.len();
        let mut i: usize = 0;
        while i < n
            invariant
                functions.wf(),
                data_types.wf(),
                n as int == self@.len(),
                (i as int) <= (n as int),
                agg_functions(functions@, self@.skip(i as int)) == agg_functions(bf0, self@),
                agg_data_types(data_types@, self@.skip(i as int)) == agg_data_types(bd0, self@),
                module_src@.len() == i as int,
                forall|t: int|
                    0 <= t < i as int ==> {
                        &&& (#[trigger] module_src@[t]).module@ == self@[t].name
                        &&& module_src@[t].code@ == self@[t].code
                        &&& module_src@[t].lines@ == spec_line_starts(self@[t].code)
                    },
            decreases n as int - i as int,
        {
            let ghost mv = self@[i as int];
            proof {
                assert(self@.skip(i as int).len() == n as int - i as int);
                assert(self@.skip(i as int)[0] == mv);
                assert(self@.skip(i as int).drop_first() =~= self@.skip(i as int + 1));
                assert(mv.definitions.skip(0) =~= mv.definitions);
            }
            let m = self.get_at(i);
            let dlen = m.definitions.len();
            let mut j: usize = 0;
            while j < dlen
                invariant
                    functions.wf(),
                    data_types.wf(),
                    n as int == self@.len(),
                    (i as int) < (n as int),
                    mv == self@[i as int],
                    m@ == mv,
                    dlen as int == mv.definitions.len(),
                    dlen as int == m.definitions@.len(),
                    (j as int) <= (dlen as int),
                    agg_functions(
                        agg_defs_functions(functions@, mv.name, mv.definitions.skip(j as int)),
                        self@.skip(i as int + 1),
                    ) == agg_functions(bf0, self@),
                    agg_data_types(
                        agg_defs_data_types(data_types@, mv.name, mv.definitions.skip(j as int)),
                        self@.skip(i as int + 1),
                    ) == agg_data_types(bd0, self@),
                decreases dlen as int - j as int,
            {
                let ghost fs0 = functions@;
                let ghost ds0 = data_types@;
                proof {
                    assert(mv.definitions.skip(j as int)[0] == mv.definitions[j as int]);
                    assert(mv.definitions.skip(j as int).drop_first() =~= mv.definitions.skip(
                        j as int + 1,
                    ));
                    assert(mv.definitions[j as int] == m.definitions@[j as int]@);
                }
                let dv = &m.definitions[j];
                match dv {
                    Definition::Fn(f) => {
                        let key = FunctionAccessKey {
                            module_name: m.name.clone(),
                            function_name: f.name.clone(),
                        };
                        let value = f.clone();
                        functions.insert(key, value);
                        proof {
                            assert(functions@ == fn_step(fs0, mv.name, mv.definitions[j as int]));
                            assert(data_types@ == dt_step(ds0, mv.name, mv.definitions[j as int]));
                        }
                    },
                    Definition::DataType(dt) => {
                        let key = DataTypeKey {
                            module_name: m.name.clone(),
                            defined_type: dt.name.clone(),
                        };
                        let value = dt.clone();
                        data_types.insert(key, value);
                        proof {
                            assert(functions@ == fn_step(fs0, mv.name, mv.definitions[j as int]));
                            assert(data_types@ == dt_step(ds0, mv.name, mv.definitions[j as int]));
                        }
                    },
                    _ => {
                        proof {
                            assert(functions@ == fn_step(fs0, mv.name, mv.definitions[j as int]));
                            assert(data_types@ == dt_step(ds0, mv.name, mv.definitions[j as int]));
                        }
                    },
                }
                j = j + 1;
            }
            proof {
                assert(mv.definitions.skip(dlen as int) =~= Seq::<DefinitionView>::empty());
                assert(agg_defs_functions(functions@, mv.name, mv.definitions.skip(dlen as int))
                    == functions@);
                assert(agg_defs_data_types(data_types@, mv.name, mv.definitions.skip(dlen as int))
                    == data_types@);
            }
            let entry = SourceEntry {
                module: m.name.clone(),
                code: m.code.clone(),
                lines: LineNumbers::new(m.code.as_str()),
            };
            module_src.push(entry);
            i = i + 1;
        }
        proof {
            assert(self@.skip(n as int) =~= Seq::<CheckedModuleView>::empty());
        }
        let tracing = if force_trace {
            TraceLevel::Verbose
        } else {
            TraceLevel::Silent
        };
        GeneratorContext { functions, data_types, module_src, tracing }
    }
}

} // verus!
