use std::cell::RefCell;
use std::collections::HashMap;

use parlance::desugarer::{DesugarBinding, DesugarValue, DesugarValueKind};
use parlance::resolver::{
    resolve_pars, resolve_program_with_source, FileContent, ModuleSource, Pars, VirtualFile,
};

#[derive(Default)]
struct MemorySource {
    files: HashMap<String, String>,
    reads: RefCell<usize>,
}

impl MemorySource {
    fn with(files: &[(&str, &str)]) -> Self {
        Self {
            files: files
                .iter()
                .map(|(path, body)| (path.to_string(), body.to_string()))
                .collect(),
            reads: RefCell::new(0),
        }
    }
}

impl ModuleSource for MemorySource {
    fn canonicalize(&self, path: &String) -> String {
        path.clone()
    }

    fn read_to_string(&self, path: &String) -> Option<String> {
        *self.reads.borrow_mut() += 1;
        self.files.get(path).cloned()
    }

    fn is_file(&self, path: &String) -> bool {
        self.files.contains_key(path)
    }
}

fn names(bindings: &[DesugarBinding]) -> Vec<String> {
    bindings.iter().map(|b| b.name.to_string()).collect()
}

fn resolve(
    source: &MemorySource,
    entry: &str,
    prelude: &[&str],
) -> Result<Vec<DesugarBinding>, parlance::diagnostics::Diagnostics> {
    let prelude: Vec<String> = prelude.iter().map(|s| s.to_string()).collect();
    resolve_program_with_source(source, &entry.to_string(), &Vec::new(), &prelude)
}

#[test]
fn resolves_in_memory_without_touching_disk() {
    let source = MemorySource::with(&[
        ("/app/astro.toml", "[package]\nname = \"app\"\n"),
        ("/app/main.par", "import pkg::util::io::{answer}\nmain = answer\n"),
        ("/app/util/io.par", "public answer = 42\n"),
    ]);

    let bindings = resolve(&source, "/app/main.par", &[])
        .expect("resolution should succeed purely in memory");

    let names = names(&bindings);
    assert!(names.iter().any(|n| n == "main"), "entry keeps bare name");
    assert!(
        names.iter().any(|n| n.ends_with("::answer")),
        "imported binding gets a canonical module-prefixed name: {names:?}"
    );
    assert_eq!(bindings.len(), 2);
    assert!(*source.reads.borrow() >= 2, "the trait drove all file reads");
}

#[test]
fn resolves_a_pars_bundle() {
    let file = |path: &str, source: &str| VirtualFile {
        path: path.to_string(),
        content: FileContent::Source(source.to_string()),
    };

    let pars = Pars {
        files: vec![
            file("/app/astro.toml", "[package]\nname = \"app\"\n"),
            file("/app/main.par", "import pkg::util::io::{answer}\nmain = answer\n"),
            file("/app/util/io.par", "public answer = 42\n"),
        ],
        entry: "/app/main.par".to_string(),
    };

    let bindings = resolve_pars(&pars, &Vec::new(), &Vec::new()).expect("pars bundle should resolve");

    let names = names(&bindings);
    assert!(names.iter().any(|n| n == "main"), "entry keeps bare name");
    assert!(
        names.iter().any(|n| n.ends_with("::answer")),
        "imported binding gets a canonical module-prefixed name: {names:?}"
    );
}

#[test]
fn export_star_reexports_imported_symbols() {
    let source = MemorySource::with(&[
        ("/app/astro.toml", "[package]\nname = \"app\"\n"),
        ("/app/main.par", "import pkg::bridge::*\nmain = answer\n"),
        ("/app/bridge.par", "import pkg::leaf::{answer}\nexport *\n"),
        ("/app/leaf.par", "public answer = 7\n"),
    ]);

    let bindings =
        resolve(&source, "/app/main.par", &[]).expect("export * should re-export imported symbols");

    assert!(names(&bindings).iter().any(|n| n == "main"));
}

#[test]
fn item_alias_renames_and_hides_source_name() {
    let source = MemorySource::with(&[
        ("/app/astro.toml", "[package]\nname = \"app\"\n"),
        ("/app/main.par", "import pkg::io::{answer as a}\nmain = a\n"),
        ("/app/io.par", "public answer = 9\n"),
    ]);

    let ok = resolve(&source, "/app/main.par", &[]);
    assert!(ok.is_ok(), "aliased import binds the alias name");

    let hidden = MemorySource::with(&[
        ("/app/astro.toml", "[package]\nname = \"app\"\n"),
        ("/app/main.par", "import pkg::io::{answer as a}\nmain = answer\n"),
        ("/app/io.par", "public answer = 9\n"),
    ]);
    let err = resolve(&hidden, "/app/main.par", &[]);
    assert!(err.is_err(), "the original source name must not be bound");
}

#[test]
fn reexport_prelude_via_local() {
    let source = MemorySource::with(&[
        ("/app/astro.toml", "[package]\nname = \"app\"\n"),
        ("/app/main.par", "import pkg::bridge::{builtin}\nmain = builtin\n"),
        ("/app/bridge.par", "export { builtin }\n"),
    ]);

    let result = resolve(&source, "/app/main.par", &["builtin"]);

    assert!(result.is_ok(), "re-export of prelude should succeed: {result:?}");
}

#[test]
fn reexport_prelude_via_glob() {
    let source = MemorySource::with(&[
        ("/app/astro.toml", "[package]\nname = \"app\"\n"),
        ("/app/main.par", "import pkg::bridge::{builtin}\nmain = builtin\n"),
        ("/app/bridge.par", "export *\n"),
    ]);

    let result = resolve(&source, "/app/main.par", &["builtin"]);

    assert!(result.is_ok(), "export * should re-export prelude: {result:?}");
}

#[test]
fn reexport_prelude_chained_fromitems() {
    let source = MemorySource::with(&[
        ("/app/astro.toml", "[package]\nname = \"app\"\n"),
        ("/app/main.par", "import pkg::bridge::{builtin}\nmain = builtin\n"),
        ("/app/bridge.par", "export pkg::leaf::{builtin}\n"),
        ("/app/leaf.par", "export { builtin }\n"),
    ]);

    let result = resolve(&source, "/app/main.par", &["builtin"]);

    assert!(result.is_ok(), "chained re-export of prelude should succeed: {result:?}");
}

#[test]
fn reexport_prelude_cross_package() {
    let source = MemorySource::with(&[
        (
            "/app/astro.toml",
            "[package]\nname = \"app\"\n[dependencies]\nstd = { path = \"/std\" }\n",
        ),
        ("/app/main.par", "import std::prelude::{builtin}\nmain = builtin\n"),
        ("/std/astro.toml", "[package]\nname = \"std\"\n"),
        ("/std/prelude.par", "export { builtin }\n"),
    ]);

    let result = resolve(&source, "/app/main.par", &["builtin"]);

    assert!(result.is_ok(), "std re-exporting a prelude builtin should succeed: {result:?}");
}

#[test]
fn reexport_qualified_prelude_name() {
    let source = MemorySource::with(&[
        ("/app/astro.toml", "[package]\nname = \"app\"\n"),
        ("/app/main.par", "import pkg::io::{print}\nmain = print 1\n"),
        ("/app/io.par", "export prelude::io::print\n"),
    ]);

    let result = resolve(&source, "/app/main.par", &["prelude::io::print"]);

    assert!(
        result.is_ok(),
        "re-export of a qualified prelude name should succeed: {result:?}"
    );
}

#[test]
fn extern_import_name_must_match_package_name() {
    let matching = MemorySource::with(&[
        (
            "/app/astro.toml",
            "[package]\nname = \"app\"\n[dependencies]\nbar = { path = \"/foo\" }\n",
        ),
        ("/app/main.par", "import bar::io::{answer}\nmain = answer\n"),
        ("/foo/astro.toml", "[package]\nname = \"bar\"\n"),
        ("/foo/io.par", "public answer = 1\n"),
    ]);
    assert!(
        resolve(&matching, "/app/main.par", &[]).is_ok(),
        "import name matching the package name should resolve"
    );

    let mismatched = MemorySource::with(&[
        (
            "/app/astro.toml",
            "[package]\nname = \"app\"\n[dependencies]\nbar = { path = \"/foo\" }\n",
        ),
        ("/app/main.par", "import bar::io::{answer}\nmain = answer\n"),
        ("/foo/astro.toml", "[package]\nname = \"foo\"\n"),
        ("/foo/io.par", "public answer = 1\n"),
    ]);
    assert!(
        resolve(&mismatched, "/app/main.par", &[]).is_err(),
        "import name not matching the package name must error"
    );
}

#[test]
fn private_symbol_is_not_importable() {
    let source = MemorySource::with(&[
        ("/app/astro.toml", "[package]\nname = \"app\"\n"),
        ("/app/main.par", "import pkg::io::{secret}\nmain = secret\n"),
        ("/app/io.par", "secret = 1\n"),
    ]);

    let result = resolve(&source, "/app/main.par", &[]);

    assert!(result.is_err(), "non-public symbol must not be importable");
}

fn free_variables(value: &DesugarValue, bound: &mut Vec<String>, out: &mut Vec<String>) {
    match &value.kind {
        DesugarValueKind::Variable { name } => {
            if !bound.contains(name) {
                out.push(name.clone());
            }
        }
        DesugarValueKind::Function { param, body } => {
            bound.push(param.name.clone());
            free_variables(body, bound, out);
            bound.pop();
        }
        DesugarValueKind::FunctionCall { callee, arg } => {
            free_variables(callee, bound, out);
            free_variables(arg, bound, out);
        }
        _ => {}
    }
}

#[test]
fn resolved_names_are_bindings_or_prelude() {
    let source = MemorySource::with(&[
        ("/app/astro.toml", "[package]\nname = \"app\"\n"),
        (
            "/app/main.par",
            "import pkg::util::{twice as t}\nmain = t print 3\nid = \\x -> x\n",
        ),
        ("/app/util.par", "public twice = \\f x -> f (f x)\n"),
    ]);

    let bindings = resolve(&source, "/app/main.par", &["print"]).expect("resolves");
    let defined = names(&bindings);
    let mut free = Vec::new();
    for binding in &bindings {
        free_variables(&binding.value, &mut Vec::new(), &mut free);
    }
    assert!(!free.is_empty());
    for name in &free {
        assert!(
            defined.contains(name) || name == "print",
            "{name} is neither a resolved binding nor a prelude name: {defined:?}"
        );
    }
    assert!(free.iter().any(|n| n.ends_with("::twice")));
}
