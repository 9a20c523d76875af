//! Package manifests (`astro.toml`): the package name and its dependencies.
//!
//! ```toml
//! [package]
//! name = "app"
//!
//! [dependencies]
//! std = { path = "../std" }
//! ```
//!
//! Unknown keys are ignored; a missing `[package]`, a missing or non-string
//! `name`, a `dependencies` entry without a string `path`, or text that is not
//! TOML is an error.

use vstd::prelude::*;

use crate::text::{owned, str_eq};

verus! {

/// A TOML value, with what a manifest reads of it: strings and tables.
#[derive(Debug)]
pub enum TomlValue {
    Str(String),
    /// Keys and values, in the order of the keys.
    Table(Vec<(String, TomlValue)>),
    /// Integers, floats, booleans, datetimes and arrays.
    Other,
}

/// The document that `text` parses to as a TOML table, `None` when it is not TOML.
pub uninterp spec fn toml_document(text: Seq<char>) -> Option<TomlValue>;

#[verifier::external_type_specification]
#[verifier::external_body]
pub struct ExTomlValue(toml::Value);

#[verifier::external_type_specification]
#[verifier::external_body]
#[verifier::reject_recursive_types(K)]
#[verifier::reject_recursive_types(V)]
pub struct ExTomlMap<K, V>(toml::map::Map<K, V>);

/// `<toml::Table as FromStr>::from_str`: parses `text` as a TOML document; the
/// result is the document's table converted key by key, `None` on a parse error.
#[verifier::external_body]
fn parse_toml(text: &str) -> (r: Option<TomlValue>)
    ensures
        r == toml_document(text@),
{
    match text.parse::<toml::Table>() {
        Ok(table) => Some(plain_table(table)),
        Err(_) => None,
    }
}

/// Converts a `toml::Table` (through `IntoIterator`, in its key order) to a `TomlValue::Table`.
#[verifier::external_body]
fn plain_table(table: toml::Table) -> TomlValue {
    TomlValue::Table(table.into_iter().map(|(k, v)| (k, plain_value(v))).collect())
}

/// Converts one `toml::Value`, variant by variant.
#[verifier::external_body]
fn plain_value(value: toml::Value) -> TomlValue {
    match value {
        toml::Value::String(s) => TomlValue::Str(s),
        toml::Value::Table(t) => plain_table(t),
        _ => TomlValue::Other,
    }
}

/// The value of the first entry named `key`.
pub open spec fn lookup(entries: Seq<(String, TomlValue)>, key: Seq<char>) -> Option<TomlValue>
    decreases entries.len(),
{
    if entries.len() == 0 {
        None
    } else if entries[0].0@ == key {
        Some(entries[0].1)
    } else {
        lookup(entries.drop_first(), key)
    }
}

/// The string stored under `key` in a table.
pub open spec fn string_field(v: TomlValue, key: Seq<char>) -> Option<Seq<char>> {
    match v {
        TomlValue::Table(entries) => match lookup(entries@, key) {
            Some(TomlValue::Str(s)) => Some(s@),
            _ => None,
        },
        _ => None,
    }
}

pub struct Manifest {
    pub name: String,
    /// Dependency names with the paths of their packages.
    pub dependencies: Vec<(String, String)>,
}

/// The dependencies listed by a `dependencies` table, when each has a string `path`.
pub open spec fn dependencies_of(entries: Seq<(String, TomlValue)>) -> Option<Seq<(Seq<char>, Seq<char>)>>
    decreases entries.len(),
{
    if entries.len() == 0 {
        Some(seq![])
    } else {
        match (string_field(entries.last().1, seq!['p', 'a', 't', 'h']), dependencies_of(entries.drop_last())) {
            (Some(p), Some(rest)) => Some(rest.push((entries.last().0@, p))),
            _ => None,
        }
    }
}

/// The package name and dependencies a manifest document declares.
pub open spec fn manifest_of(doc: TomlValue) -> Option<(Seq<char>, Seq<(Seq<char>, Seq<char>)>)> {
    match doc {
        TomlValue::Table(entries) => match lookup(entries@, seq!['p', 'a', 'c', 'k', 'a', 'g', 'e']) {
            Some(package) => match string_field(package, seq!['n', 'a', 'm', 'e']) {
                Some(name) => match lookup(
                    entries@,
                    seq!['d', 'e', 'p', 'e', 'n', 'd', 'e', 'n', 'c', 'i', 'e', 's'],
                ) {
                    None => Some((name, seq![])),
                    Some(TomlValue::Table(deps)) => match dependencies_of(deps@) {
                        Some(ds) => Some((name, ds)),
                        None => None,
                    },
                    Some(_) => None,
                },
                None => None,
            },
            None => None,
        },
        _ => None,
    }
}

pub open spec fn pairs_view(v: Seq<(String, String)>) -> Seq<(Seq<char>, Seq<char>)> {
    v.map_values(|p: (String, String)| (p.0@, p.1@))
}

fn find<'a>(entries: &'a Vec<(String, TomlValue)>, key: &str) -> (r: Option<&'a TomlValue>)
    ensures
        match lookup(entries@, key@) {
            Some(v) => r == Some(&v),
            None => r is None,
        },
{
    let k = owned(key);
    let mut i: usize = 0;
    assert(entries@.subrange(0, entries@.len() as int) =~= entries@);
    while i < entries.len()
        invariant
            i <= entries@.len(),
            k@ == key@,
            lookup(entries@, key@) == lookup(entries@.subrange(i as int, entries@.len() as int), key@),
        decreases entries@.len() - i,
    {
        proof {
            let rest = entries@.subrange(i as int, entries@.len() as int);
            assert(rest.drop_first() =~= entries@.subrange(i + 1, entries@.len() as int));
            assert(rest[0] == entries@[i as int]);
        }
        if str_eq(&entries[i].0, &k) {
            return Some(&entries[i].1);
        }
        i = i + 1;
    }
    None
}

fn field_string(v: &TomlValue, key: &str) -> (r: Option<String>)
    ensures
        match string_field(*v, key@) {
            Some(s) => r is Some && r->Some_0@ == s,
            None => r is None,
        },
{
    match v {
        TomlValue::Table(entries) => match find(entries, key) {
            Some(TomlValue::Str(s)) => Some(s.clone()),
            _ => None,
        },
        _ => None,
    }
}

fn read_dependencies(entries: &Vec<(String, TomlValue)>) -> (r: Option<Vec<(String, String)>>)
    ensures
        match dependencies_of(entries@) {
            Some(ds) => r is Some && pairs_view(r->Some_0@) == ds,
            None => r is None,
        },
{
    let mut out: Vec<(String, String)> = Vec::new();
    let mut i: usize = 0;
    proof {
        reveal_strlit("path");
        assert(entries@.subrange(0, 0) =~= Seq::<(String, TomlValue)>::empty());
        assert(pairs_view(out@) =~= seq![]);
    }
    while i < entries.len()
        invariant
            i <= entries@.len(),
            dependencies_of(entries@.subrange(0, i as int)) == Some(pairs_view(out@)),
        decreases entries@.len() - i,
    {
        proof {
            reveal_strlit("path");
            let pre = entries@.subrange(0, i as int + 1);
            assert(pre.drop_last() =~= entries@.subrange(0, i as int));
            assert("path"@ =~= seq!['p', 'a', 't', 'h']);
        }
        match field_string(&entries[i].1, "path") {
            Some(p) => {
                let ghost before = out@;
                out.push((entries[i].0.clone(), p));
                proof {
                    assert(pairs_view(out@) =~= pairs_view(before).push((entries@[i as int].0@, p@)));
                }
            },
            None => {
                proof {
                    lemma_dependencies_prefix(entries@, i as int + 1);
                }
                return None;
            },
        }
        i = i + 1;
    }
    proof {
        assert(entries@.subrange(0, entries@.len() as int) =~= entries@);
    }
    Some(out)
}

/// A failing prefix makes the whole list fail.
proof fn lemma_dependencies_prefix(entries: Seq<(String, TomlValue)>, k: int)
    requires
        0 <= k <= entries.len(),
        dependencies_of(entries.subrange(0, k)) is None,
    ensures
        dependencies_of(entries) is None,
    decreases entries.len() - k,
{
    if k < entries.len() {
        let next = entries.subrange(0, k + 1);
        assert(next.drop_last() =~= entries.subrange(0, k));
        lemma_dependencies_prefix(entries, k + 1);
    } else {
        assert(entries.subrange(0, k) =~= entries);
    }
}

/// The manifest that a TOML document describes.
pub fn manifest_from_document(doc: &TomlValue) -> (r: Option<Manifest>)
    ensures
        match manifest_of(*doc) {
            Some((name, deps)) => r is Some && r->Some_0.name@ == name && pairs_view(
                r->Some_0.dependencies@,
            ) == deps,
            None => r is None,
        },
{
    proof {
        reveal_strlit("package");
        reveal_strlit("name");
        reveal_strlit("dependencies");
        assert("package"@ =~= seq!['p', 'a', 'c', 'k', 'a', 'g', 'e']);
        assert("name"@ =~= seq!['n', 'a', 'm', 'e']);
        assert("dependencies"@ =~= seq!['d', 'e', 'p', 'e', 'n', 'd', 'e', 'n', 'c', 'i', 'e', 's']);
    }
    let entries = match doc {
        TomlValue::Table(entries) => entries,
        _ => {
            return None;
        },
    };
    let package = match find(entries, "package") {
        Some(p) => p,
        None => {
            return None;
        },
    };
    let name = match field_string(package, "name") {
        Some(n) => n,
        None => {
            return None;
        },
    };
    match find(entries, "dependencies") {
        None => {
            let dependencies: Vec<(String, String)> = Vec::new();
            proof {
                assert(pairs_view(dependencies@) =~= seq![]);
            }
            Some(Manifest { name, dependencies })
        },
        Some(TomlValue::Table(deps)) => match read_dependencies(deps) {
            Some(dependencies) => Some(Manifest { name, dependencies }),
            None => None,
        },
        Some(_) => None,
    }
}

/// Reads a manifest from its text: `None` when the text is not TOML or does
/// not declare a package name (or lists a dependency without a path).
pub fn parse_manifest(text: &str) -> (r: Option<Manifest>)
    ensures
        match toml_document(text@) {
            Some(doc) => match manifest_of(doc) {
                Some((name, deps)) => r is Some && r->Some_0.name@ == name && pairs_view(
                    r->Some_0.dependencies@,
                ) == deps,
                None => r is None,
            },
            None => r is None,
        },
{
    match parse_toml(text) {
        Some(doc) => manifest_from_document(&doc),
        None => None,
    }
}

} // verus!
