//! Tests of dependency-graph sequencing and cycle diagnosis.

use aiken_project::error::Error;
use aiken_project::parsed::{ModuleKind, ParsedModule, ParsedModules};

fn pm(name: &str, deps: &[&str]) -> ParsedModule {
    ParsedModule {
        path: format!("lib/{}.ak", name),
        name: name.to_string(),
        code: String::new(),
        kind: ModuleKind::Lib,
        package: "pkg".to_string(),
        dependencies: deps.iter().map(|d| d.to_string()).collect(),
    }
}

fn store(mods: Vec<ParsedModule>) -> ParsedModules {
    let mut s = ParsedModules::new();
    for m in mods {
        s.insert(m);
    }
    s
}

fn pos(seq: &[String], name: &str) -> usize {
    seq.iter().position(|x| x == name).unwrap()
}

#[test]
fn sequence_linear_chain_dependencies_first() {
    let s = store(vec![pm("a", &["b"]), pm("b", &["c"]), pm("c", &[])]);
    let out = s.sequence().unwrap_or_else(|_| panic!("expected a sequence"));
    assert_eq!(out.len(), 3);
    assert!(pos(&out, "c") < pos(&out, "b"));
    assert!(pos(&out, "b") < pos(&out, "a"));
}

#[test]
fn sequence_disconnected_chains() {
    let s = store(vec![pm("a", &["b"]), pm("b", &[]), pm("c", &["d"]), pm("d", &[])]);
    let out = s.sequence().unwrap_or_else(|_| panic!("expected a sequence"));
    assert_eq!(out.len(), 4);
    assert!(pos(&out, "b") < pos(&out, "a"));
    assert!(pos(&out, "d") < pos(&out, "c"));
}

#[test]
fn sequence_empty_store() {
    let s = store(vec![]);
    let out = s.sequence().unwrap_or_else(|_| panic!("expected a sequence"));
    assert!(out.is_empty());
}

#[test]
fn sequence_single_module() {
    let s = store(vec![pm("solo", &[])]);
    let out = s.sequence().unwrap_or_else(|_| panic!("expected a sequence"));
    assert_eq!(out, vec!["solo".to_string()]);
}

#[test]
fn sequence_drops_imports_outside_the_set() {
    let s = store(vec![pm("a", &["zeta"]), pm("b", &["a", "omega"])]);
    let out = s.sequence().unwrap_or_else(|_| panic!("expected a sequence"));
    assert_eq!(out.len(), 2);
    assert!(pos(&out, "a") < pos(&out, "b"));
}

#[test]
fn sequence_two_cycle_reports_both_modules() {
    let s = store(vec![pm("x", &["y"]), pm("y", &["x"])]);
    match s.sequence() {
        Ok(_) => panic!("expected an import cycle"),
        Err(Error::ImportCycle { modules }) => {
            assert_eq!(modules.len(), 2);
            assert!(modules.contains(&"x".to_string()));
            assert!(modules.contains(&"y".to_string()));
            // read cyclically, each module imports the next
            for t in 0..modules.len() {
                let from = &modules[t];
                let to = &modules[(t + 1) % modules.len()];
                let expected = if from == "x" { "y" } else { "x" };
                assert_eq!(to, expected);
            }
        }
    }
}

#[test]
fn sequence_triangle_reports_closed_walk() {
    let s = store(vec![pm("a", &["b"]), pm("b", &["c"]), pm("c", &["a"])]);
    match s.sequence() {
        Ok(_) => panic!("expected an import cycle"),
        Err(Error::ImportCycle { modules }) => {
            assert_eq!(modules.len(), 3);
            for name in ["a", "b", "c"] {
                assert!(modules.contains(&name.to_string()));
            }
            // each edge of the reported walk is an import of the graph
            let imports_of = |m: &str| match m {
                "a" => "b",
                "b" => "c",
                _ => "a",
            };
            for t in 0..modules.len() {
                let from = &modules[t];
                let to = &modules[(t + 1) % modules.len()];
                assert_eq!(to, imports_of(from));
            }
        }
    }
}

#[test]
fn sequence_self_import_is_a_cycle() {
    let s = store(vec![pm("me", &["me"]), pm("other", &[])]);
    match s.sequence() {
        Ok(_) => panic!("expected an import cycle"),
        Err(Error::ImportCycle { modules }) => {
            assert_eq!(modules, vec!["me".to_string()]);
        }
    }
}

#[test]
fn insert_replaces_module_of_same_name() {
    let mut s = ParsedModules::new();
    s.insert(pm("a", &["b"]));
    s.insert(pm("b", &["a"]));
    // replacing `a` without the import breaks the cycle
    s.insert(pm("a", &[]));
    assert_eq!(s.len(), 2);
    let got = s.get(&"a".to_string()).unwrap_or_else(|| panic!("a is present"));
    assert!(got.dependencies.is_empty());
    let out = s.sequence().unwrap_or_else(|_| panic!("expected a sequence"));
    assert!(pos(&out, "a") < pos(&out, "b"));
}

#[test]
fn deps_for_graph_returns_identifier_and_imports() {
    let m = pm("root", &["one", "two"]);
    let (name, deps) = m.deps_for_graph();
    assert_eq!(name, "root");
    assert_eq!(deps, vec!["one".to_string(), "two".to_string()]);
}
