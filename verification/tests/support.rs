use parlance::ir::{Ir, IrDef};
use parlance::manifest::parse_manifest;
use parlance::names::{IndexMap, NameMap};
use parlance::paths::{join, parent, with_extension};
use parlance::table::SlotTable;
use parlance::types::{NativeRegistry, Type};

#[test]
fn name_map_later_insert_wins() {
    let mut m = NameMap::new();
    m.insert("a".to_string(), "1".to_string());
    m.insert("a".to_string(), "2".to_string());
    assert_eq!(m.len(), 1);
    assert_eq!(m.get(&"a".to_string()).map(|s| s.as_str()), Some("2"));
    assert!(!m.contains_key(&"b".to_string()));
}

#[test]
fn name_map_extensions() {
    let mut base = NameMap::new();
    base.insert("a".to_string(), "base".to_string());
    let mut other = NameMap::new();
    other.insert("a".to_string(), "other".to_string());
    other.insert("b".to_string(), "other".to_string());
    let mut kept = base.clone_map();
    kept.extend_if_absent(&other);
    assert_eq!(kept.get(&"a".to_string()).unwrap(), "base");
    assert_eq!(kept.get(&"b".to_string()).unwrap(), "other");
    let mut replaced = base.clone_map();
    replaced.extend_overwrite(&other);
    assert_eq!(replaced.get(&"a".to_string()).unwrap(), "other");
    assert!(!kept.same_as(&replaced));
    assert!(kept.same_as(&kept.clone_map()));
}

#[test]
fn index_map_keeps_order() {
    let mut m = IndexMap::new();
    m.insert("x".to_string(), 3);
    m.insert("y".to_string(), 4);
    assert_eq!(m.entry(0).0, "x");
    assert_eq!(m.entry(1).1, 4);
    assert_eq!(m.get(&"y".to_string()), Some(4));
}

#[test]
fn slot_table_maps_indices() {
    let mut t: SlotTable<u16> = SlotTable::new();
    t.insert(7, 1);
    t.insert(3, 2);
    t.insert(7, 5);
    assert_eq!(t.len(), 2);
    assert_eq!(t.get(7), Some(5));
    assert_eq!(t.get(4), None);
    let mut u: SlotTable<u16> = SlotTable::new();
    u.insert(3, 9);
    t.extend_overwrite(&u);
    assert_eq!(t.get(3), Some(9));
}

#[test]
fn paths_have_parents() {
    assert_eq!(parent(&"/app/util/io.par".to_string()).as_deref(), Some("/app/util"));
    assert_eq!(parent(&"/app".to_string()).as_deref(), Some("/"));
    assert_eq!(parent(&"/".to_string()), None);
    assert_eq!(join(&"/app".to_string(), "main.par"), "/app/main.par");
    assert_eq!(with_extension(&"/app/util/io".to_string(), "par"), "/app/util/io.par");
}

#[test]
fn extensions_are_replaced_after_the_last_dot() {
    assert_eq!(with_extension(&"a/b.txt".to_string(), "par"), "a/b.par");
    assert_eq!(with_extension(&"a.d/b".to_string(), "par"), "a.d/b.par");
    assert_eq!(with_extension(&"a/.hidden".to_string(), "par"), "a/.hidden.par");
    assert_eq!(with_extension(&"x.tar.gz".to_string(), "par"), "x.tar.par");
    assert_eq!(with_extension(&"a/".to_string(), "par"), "a/");
}

#[test]
fn manifests_name_their_package() {
    let m = parse_manifest("[package]\nname = \"app\"\n\n[dependencies]\nstd = { path = \"../std\" }\n")
        .expect("a manifest");
    assert_eq!(m.name, "app");
    assert_eq!(m.dependencies, vec![("std".to_string(), "../std".to_string())]);
    assert!(parse_manifest("[package]\nversion = 1\n").is_none());
    assert!(parse_manifest("not toml at all [").is_none());
}

#[test]
fn types_know_their_arity() {
    let int = || Box::new(Type::TCon("Int".to_string()));
    let add = Type::Fun(int(), Box::new(Type::Fun(int(), int())));
    assert_eq!(add.arity(), 2);
    assert_eq!(Type::TVar("a".to_string()).arity(), 0);
    assert!(Type::TCon("Int".to_string()).is("Int"));
    assert!(!Type::TCon("Int".to_string()).is("Str"));
    assert!(!Type::TVar("Int".to_string()).is("Int"));
}

#[test]
fn native_registry_holds_each_name_once() {
    let mut reg = NativeRegistry::empty();
    assert!(!reg.is_native("print"));
    reg.insert("print".to_string());
    reg.insert("print".to_string());
    reg.insert("add".to_string());
    assert!(reg.is_native("print"));
    let mut names = reg.all_names();
    names.sort();
    assert_eq!(names, vec!["add".to_string(), "print".to_string()]);
    let defs = vec![
        IrDef::Native { name: "a".to_string(), arity: 1 },
        IrDef::Bind { name: "b".to_string(), expr: Ir::Int(1) },
        IrDef::Native { name: "a".to_string(), arity: 2 },
    ];
    let from = NativeRegistry::from_ir(&defs);
    assert_eq!(from.all_names(), vec!["a".to_string()]);
    assert!(!from.is_native("b"));
}

#[test]
fn import_candidates_try_plc_then_bare_in_each_directory() {
    let c = parlance::paths::import_candidates("lib/math", &"/src".to_string(), &vec!["/std".to_string()]);
    assert_eq!(c, vec!["/src/lib/math.plc", "/src/lib/math", "/std/lib/math.plc", "/std/lib/math"]);
}
