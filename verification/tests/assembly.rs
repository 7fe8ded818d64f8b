//! Tests of the checked-module store, validator enumeration, and
//! generator-context assembly.

use aiken_project::checked::{
    CheckedModule, CheckedModules, DataTypeDef, Definition, FunctionDef, ValidatorDef,
};
use aiken_project::context::TraceLevel;
use aiken_project::parsed::ModuleKind;
use aiken_project::symbols::{DataTypeKey, DataTypeTable, FunctionAccessKey, FunctionTable};

fn cm(name: &str, package: &str, kind: ModuleKind, defs: Vec<Definition>) -> CheckedModule {
    CheckedModule {
        name: name.to_string(),
        code: String::new(),
        input_path: format!("lib/{}.ak", name),
        kind,
        package: package.to_string(),
        definitions: defs,
    }
}

fn validator(name: &str) -> Definition {
    Definition::Validator(ValidatorDef { name: name.to_string(), other_name: None })
}

fn func(name: &str) -> Definition {
    Definition::Fn(FunctionDef { name: name.to_string() })
}

fn data_type(name: &str) -> Definition {
    Definition::DataType(DataTypeDef { name: name.to_string() })
}

fn fn_key(module: &str, name: &str) -> FunctionAccessKey {
    FunctionAccessKey { module_name: module.to_string(), function_name: name.to_string() }
}

fn dt_key(module: &str, name: &str) -> DataTypeKey {
    DataTypeKey { module_name: module.to_string(), defined_type: name.to_string() }
}

fn sample_modules() -> Vec<CheckedModule> {
    vec![
        cm("m2", "beta", ModuleKind::Validator, vec![validator("v")]),
        cm("m1", "alpha", ModuleKind::Validator, vec![validator("z"), validator("a")]),
        cm("lib", "alpha", ModuleKind::Lib, vec![func("helper")]),
    ]
}

fn build(mods: Vec<CheckedModule>) -> CheckedModules {
    let mut s = CheckedModules::new();
    for m in mods {
        s.insert(m);
    }
    s
}

#[test]
fn validators_come_out_sorted_by_package_module_name() {
    let s = build(sample_modules());
    let vs = s.validators();
    let triples: Vec<(String, String, String)> = vs
        .iter()
        .map(|(m, v)| (m.package.clone(), m.name.clone(), v.name.clone()))
        .collect();
    assert_eq!(
        triples,
        vec![
            ("alpha".to_string(), "m1".to_string(), "a".to_string()),
            ("alpha".to_string(), "m1".to_string(), "z".to_string()),
            ("beta".to_string(), "m2".to_string(), "v".to_string()),
        ]
    );
}

#[test]
fn validators_ignore_non_validator_modules() {
    let s = build(vec![
        cm("lib", "alpha", ModuleKind::Lib, vec![validator("hidden")]),
        cm("t", "alpha", ModuleKind::Test, vec![validator("hidden")]),
    ]);
    assert!(s.validators().is_empty());
}

#[test]
fn validators_insertion_order_does_not_matter() {
    let mut forward = sample_modules();
    let s1 = build(sample_modules());
    forward.reverse();
    let s2 = build(forward);
    let v1 = s1.validators();
    let v2 = s2.validators();
    assert_eq!(v1.len(), v2.len());
    for ((m1, d1), (m2, d2)) in v1.iter().zip(v2.iter()) {
        assert_eq!(m1.package, m2.package);
        assert_eq!(m1.name, m2.name);
        assert_eq!(d1.name, d2.name);
    }
}

#[test]
fn validators_rerun_is_identical() {
    let s = build(sample_modules());
    let v1 = s.validators();
    let v2 = s.validators();
    assert_eq!(v1.len(), v2.len());
    for ((m1, d1), (m2, d2)) in v1.iter().zip(v2.iter()) {
        assert_eq!(m1.package, m2.package);
        assert_eq!(m1.name, m2.name);
        assert_eq!(d1.name, d2.name);
        assert_eq!(d1.other_name, d2.other_name);
    }
}

#[test]
fn into_validators_keeps_validator_modules_in_store_order() {
    let s = build(sample_modules());
    let ms = s.into_validators();
    let names: Vec<String> = ms.iter().map(|m| m.name.clone()).collect();
    assert_eq!(names, vec!["m2".to_string(), "m1".to_string()]);
}

#[test]
fn singleton_store_holds_one_module() {
    let s = CheckedModules::singleton(cm("only", "pkg", ModuleKind::Validator, vec![validator(
        "spend",
    )]));
    assert_eq!(s.len(), 1);
    let vs = s.validators();
    assert_eq!(vs.len(), 1);
    assert_eq!(vs[0].1.name, "spend");
}

#[test]
fn insert_replaces_checked_module_of_same_name() {
    let mut s = CheckedModules::new();
    s.insert(cm("m", "pkg", ModuleKind::Validator, vec![validator("old")]));
    s.insert(cm("m", "pkg", ModuleKind::Validator, vec![validator("new")]));
    assert_eq!(s.len(), 1);
    let vs = s.validators();
    assert_eq!(vs.len(), 1);
    assert_eq!(vs[0].1.name, "new");
}

#[test]
fn generator_keeps_distinct_qualified_keys_apart() {
    // a builtin (Prelude, foo) and a user module "m" defining foo stay two
    // distinct entries: shadowing needs exactly equal keys
    let mut builtins = FunctionTable::new();
    builtins.insert(fn_key("Prelude", "foo"), FunctionDef { name: "foo".to_string() });
    let s = build(vec![cm("m", "pkg", ModuleKind::Lib, vec![func("foo")])]);
    let ctx = s.new_generator(builtins, DataTypeTable::new(), false);
    assert_eq!(ctx.functions.len(), 2);
    assert!(ctx.functions.get(&fn_key("Prelude", "foo")).is_some());
    assert!(ctx.functions.get(&fn_key("m", "foo")).is_some());
}

#[test]
fn generator_shadows_builtin_under_equal_key() {
    // a user module itself named Prelude redefining foo replaces the builtin
    let mut builtins = FunctionTable::new();
    builtins.insert(fn_key("Prelude", "foo"), FunctionDef { name: "foo".to_string() });
    let s = build(vec![cm("Prelude", "pkg", ModuleKind::Lib, vec![func("foo")])]);
    let ctx = s.new_generator(builtins, DataTypeTable::new(), false);
    assert_eq!(ctx.functions.len(), 1);
    assert!(ctx.functions.get(&fn_key("Prelude", "foo")).is_some());
}

#[test]
fn generator_collects_functions_and_data_types_only() {
    let s = build(vec![cm(
        "m",
        "pkg",
        ModuleKind::Validator,
        vec![
            func("f"),
            data_type("T"),
            Definition::TypeAlias,
            Definition::ModuleConstant,
            Definition::Test,
            validator("v"),
            Definition::Use,
        ],
    )]);
    let ctx = s.new_generator(FunctionTable::new(), DataTypeTable::new(), false);
    assert_eq!(ctx.functions.len(), 1);
    assert_eq!(ctx.data_types.len(), 1);
    assert!(ctx.functions.get(&fn_key("m", "f")).is_some());
    assert!(ctx.functions.get(&fn_key("m", "v")).is_none());
    assert!(ctx.data_types.get(&dt_key("m", "T")).is_some());
}

#[test]
fn generator_records_source_and_line_index() {
    let mut m = cm("m", "pkg", ModuleKind::Lib, vec![]);
    m.code = "a\nbc\n".to_string();
    let s = build(vec![m]);
    let ctx = s.new_generator(FunctionTable::new(), DataTypeTable::new(), false);
    assert_eq!(ctx.module_src.len(), 1);
    assert_eq!(ctx.module_src[0].module, "m");
    assert_eq!(ctx.module_src[0].code, "a\nbc\n");
    assert_eq!(ctx.module_src[0].lines.offsets(), &vec![0usize, 2, 5]);
}

#[test]
fn generator_resolves_tracing() {
    let s = build(vec![]);
    let quiet = s.new_generator(FunctionTable::new(), DataTypeTable::new(), false);
    assert_eq!(quiet.tracing, TraceLevel::Silent);
    let loud = s.new_generator(FunctionTable::new(), DataTypeTable::new(), true);
    assert_eq!(loud.tracing, TraceLevel::Verbose);
}

#[test]
fn generator_rerun_is_identical() {
    let make_builtins = || {
        let mut t = FunctionTable::new();
        t.insert(fn_key("Prelude", "foo"), FunctionDef { name: "foo".to_string() });
        t
    };
    let s = build(sample_modules());
    let c1 = s.new_generator(make_builtins(), DataTypeTable::new(), true);
    let c2 = s.new_generator(make_builtins(), DataTypeTable::new(), true);
    assert_eq!(c1.functions.len(), c2.functions.len());
    assert_eq!(c1.data_types.len(), c2.data_types.len());
    assert_eq!(c1.module_src.len(), c2.module_src.len());
    for (e1, e2) in c1.module_src.iter().zip(c2.module_src.iter()) {
        assert_eq!(e1.module, e2.module);
        assert_eq!(e1.code, e2.code);
        assert_eq!(e1.lines.offsets(), e2.lines.offsets());
    }
    assert_eq!(c1.tracing, c2.tracing);
}
