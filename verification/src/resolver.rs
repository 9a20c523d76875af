//! Module resolution: loads the entry module and everything it imports,
//! computes what each module sees and exports, checks the imports and exports,
//! and renames every reference to the canonical name of its binding.
//!
//! The entry module's bindings keep their names; the bindings of the `k`-th
//! loaded module are renamed to `m<k>::<name>`.  Names of the prelude (the
//! built-in functions) are visible everywhere under their own names.

use vstd::prelude::*;

use crate::desugarer::{
    bound_name, desugar, DesugarBinding, DesugarValue, DesugarValueKind, Param,
};
use crate::diagnostics::{Diagnostics, Span};
use crate::manifest::parse_manifest;
use crate::names::NameMap;
use crate::parser::{
    Export, ExportItem, Import, ImportTarget, ItemSpec, ModulePath, Parser, PathAnchor, Statement,
    StatementKind,
};
use crate::paths::{join, parent, parent_of, with_extension};
use crate::text::{chars_of, concat, owned, str_eq, substring, usize_to_decimal};

verus! {

/// Where module files come from: the file system, a packed bundle, or memory.
pub trait ModuleSource {
    fn canonicalize(&self, path: &String) -> String;

    fn read_to_string(&self, path: &String) -> Option<String>;

    fn is_file(&self, path: &String) -> bool;
}

/// The directory `k` levels above `path`, where there is one.
pub open spec fn ancestor(path: Seq<char>, k: nat) -> Option<Seq<char>>
    decreases k,
{
    if k == 0 {
        Some(path)
    } else {
        match ancestor(path, (k - 1) as nat) {
            Some(q) => parent_of(q),
            None => None,
        }
    }
}

/// Module files held in memory, by path (the files of a packed bundle).
pub struct ParsModuleSource {
    pub files: Vec<(String, String)>,
}

/// The text of the first file named `path` among `files`.
pub open spec fn file_text(files: Seq<(String, String)>, path: Seq<char>) -> Option<Seq<char>>
    decreases files.len(),
{
    if files.len() == 0 {
        None
    } else if files[0].0@ == path {
        Some(files[0].1@)
    } else {
        file_text(files.drop_first(), path)
    }
}

impl ModuleSource for ParsModuleSource {
    fn canonicalize(&self, path: &String) -> String {
        path.clone()
    }

    fn read_to_string(&self, path: &String) -> (r: Option<String>)
        ensures
            match file_text(self.files@, path@) {
                Some(t) => r matches Some(s) && s@ == t,
                None => r is None,
            },
    {
        proof {
            assert(self.files@.subrange(0, self.files@.len() as int) =~= self.files@);
        }
        let mut i: usize = 0;
        while i < self.files.len()
            invariant
                i <= self.files@.len(),
                file_text(self.files@, path@) == file_text(self.files@.subrange(i as int, self.files@.len() as int), path@),
            decreases self.files@.len() - i,
        {
            proof {
                assert(self.files@.subrange(i as int, self.files@.len() as int).drop_first() =~= self.files@.subrange(i + 1, self.files@.len() as int));
            }
            if str_eq(&self.files[i].0, path) {
                return Some(self.files[i].1.clone());
            }
            i = i + 1;
        }
        None
    }

    fn is_file(&self, path: &String) -> (b: bool)
        ensures
            b == file_text(self.files@, path@) is Some,
    {
        proof {
            assert(self.files@.subrange(0, self.files@.len() as int) =~= self.files@);
        }
        let mut i: usize = 0;
        while i < self.files.len()
            invariant
                i <= self.files@.len(),
                file_text(self.files@, path@) == file_text(self.files@.subrange(i as int, self.files@.len() as int), path@),
            decreases self.files@.len() - i,
        {
            proof {
                assert(self.files@.subrange(i as int, self.files@.len() as int).drop_first() =~= self.files@.subrange(i + 1, self.files@.len() as int));
            }
            if str_eq(&self.files[i].0, path) {
                return true;
            }
            i = i + 1;
        }
        false
    }
}

struct Package {
    root: String,
    name: Option<String>,
    externs: NameMap,
}

enum ResolvedImport {
    Glob { target: usize },
    Items { target: usize, items: Vec<ItemSpec> },
}

enum ResolvedExport {
    Local(Vec<ItemSpec>),
    LocalGlob,
    FromGlob { target: usize },
    FromItems { target: usize, items: Vec<ItemSpec> },
}

struct Module {
    dir: String,
    package: usize,
    prefix: String,
    bindings: Vec<DesugarBinding>,
    public: NameMap,
    imports: Vec<Import>,
    exports_ast: Vec<Export>,
}

/// A table from paths to indices.
struct IndexTable {
    entries: Vec<(String, usize)>,
}

impl IndexTable {
    spec fn bounded(&self, n: int) -> bool {
        forall|i: int| 0 <= i < self.entries@.len() ==> (#[trigger] self.entries@[i]).1 < n
    }

    /// The index recorded first for `key`.
    spec fn lookup(entries: Seq<(String, usize)>, key: Seq<char>) -> Option<usize>
        decreases entries.len(),
    {
        if entries.len() == 0 {
            None
        } else if entries[0].0@ == key {
            Some(entries[0].1)
        } else {
            Self::lookup(entries.drop_first(), key)
        }
    }

    fn get(&self, key: &String) -> (r: Option<usize>)
        ensures
            r matches Some(v) ==> exists|i: int|
                0 <= i < self.entries@.len() && (#[trigger] self.entries@[i]).1 == v,
            r == Self::lookup(self.entries@, key@),
    {
        proof {
            assert(self.entries@.subrange(0, self.entries@.len() as int) =~= self.entries@);
        }
        let mut i: usize = 0;
        while i < self.entries.len()
            invariant
                i <= self.entries@.len(),
                Self::lookup(self.entries@, key@) == Self::lookup(
                    self.entries@.subrange(i as int, self.entries@.len() as int),
                    key@,
                ),
            decreases self.entries@.len() - i,
        {
            proof {
                assert(self.entries@.subrange(i as int, self.entries@.len() as int).drop_first()
                    =~= self.entries@.subrange(i + 1, self.entries@.len() as int));
            }
            if str_eq(&self.entries[i].0, key) {
                return Some(self.entries[i].1);
            }
            i = i + 1;
        }
        None
    }

    fn insert(&mut self, key: String, value: usize)
        ensures
            forall|n: int| old(self).bounded(n) && value < n ==> final(self).bounded(n),
            final(self).entries@ == old(self).entries@.push((key, value)),
    {
        self.entries.push((key, value));
        proof {
            assert forall|n: int| old(self).bounded(n) && value < n implies self.bounded(n) by {
                assert forall|i: int| 0 <= i < self.entries@.len() implies (#[trigger] self.entries@[i]).1
                    < n by {
                    if i < old(self).entries@.len() {
                        assert(self.entries@[i] == old(self).entries@[i]);
                    }
                }
            }
        }
    }
}

pub struct Resolver<'s, S: ModuleSource> {
    source: &'s S,
    packages: Vec<Package>,
    modules: Vec<Module>,
    own: Vec<NameMap>,
    resolved_imports: Vec<Vec<ResolvedImport>>,
    resolved_exports: Vec<Vec<ResolvedExport>>,
    base_names: Vec<NameMap>,
    names: Vec<NameMap>,
    module_aliases: Vec<Vec<(String, usize)>>,
    prelude_exports: Vec<Vec<(String, String)>>,
    exports: Vec<NameMap>,
    path_to_module: IndexTable,
    root_to_package: IndexTable,
    injected_externs: NameMap,
    prelude_set: Vec<String>,
}

/// The name an imported or exported item is known by: its alias, if it has one.
pub open spec fn local_name_of(item: ItemSpec) -> String {
    match item.alias {
        Some(node) => node.kind,
        None => item.name.kind,
    }
}

/// The names in `names`, as character sequences.
pub open spec fn name_set(names: Seq<String>) -> Set<Seq<char>> {
    Set::new(|s: Seq<char>| exists|i: int| 0 <= i < names.len() && (#[trigger] names[i])@ == s)
}

/// The names the bindings in `bs` bind.
pub open spec fn names_of(bs: Seq<DesugarBinding>) -> Set<Seq<char>> {
    Set::new(|s: Seq<char>| exists|i: int| 0 <= i < bs.len() && (#[trigger] bs[i]).name@ == s)
}

/// `own` after binding each name of `bs` to itself under `prefix`.
pub open spec fn with_own(own: Map<Seq<char>, Seq<char>>, bs: Seq<DesugarBinding>, prefix: Seq<char>) -> Map<
    Seq<char>,
    Seq<char>,
> {
    Map::new(
        |k: Seq<char>| own.contains_key(k) || names_of(bs).contains(k),
        |k: Seq<char>| if names_of(bs).contains(k) {
            prefix + k
        } else {
            own[k]
        },
    )
}

/// Every value of `m` lies in `known`.
pub open spec fn values_within(m: Map<Seq<char>, Seq<char>>, known: Set<Seq<char>>) -> bool {
    forall|k: Seq<char>| #[trigger] m.contains_key(k) ==> known.contains(m[k])
}

/// Every variable of `v` is bound by an enclosing function of `v`, lies in
/// `bound`, or lies in `known`.
pub open spec fn value_closed(v: DesugarValue, bound: Set<Seq<char>>, known: Set<Seq<char>>) -> bool
    decreases v,
{
    match v.kind {
        DesugarValueKind::Variable { name } => bound.contains(name@) || known.contains(name@),
        DesugarValueKind::Function { param, body } => value_closed(*body, bound.insert(param.name@), known),
        DesugarValueKind::FunctionCall { callee, arg } => value_closed(*callee, bound, known) && value_closed(
            *arg,
            bound,
            known,
        ),
        _ => true,
    }
}

/// Every variable of `b` is bound inside `b` (by a function, or by a binding
/// of its scheme, which sees all of them), lies in `bound`, or lies in `known`.
pub open spec fn binding_closed(b: DesugarBinding, bound: Set<Seq<char>>, known: Set<Seq<char>>) -> bool
    decreases b,
{
    let inner = bound.union(names_of(b.scheme@));
    &&& forall|i: int| 0 <= i < b.scheme@.len() ==> binding_closed(#[trigger] b.scheme@[i], inner, known)
    &&& value_closed(*b.value, inner, known)
}

pub proof fn lemma_value_closed_grows(v: DesugarValue, bound: Set<Seq<char>>, k1: Set<Seq<char>>, k2: Set<Seq<char>>)
    requires
        value_closed(v, bound, k1),
        k1.subset_of(k2),
    ensures
        value_closed(v, bound, k2),
    decreases v,
{
    match v.kind {
        DesugarValueKind::Function { param, body } => {
            lemma_value_closed_grows(*body, bound.insert(param.name@), k1, k2);
        },
        DesugarValueKind::FunctionCall { callee, arg } => {
            lemma_value_closed_grows(*callee, bound, k1, k2);
            lemma_value_closed_grows(*arg, bound, k1, k2);
        },
        _ => {},
    }
}

pub proof fn lemma_binding_closed_grows(
    b: DesugarBinding,
    bound: Set<Seq<char>>,
    k1: Set<Seq<char>>,
    k2: Set<Seq<char>>,
)
    requires
        binding_closed(b, bound, k1),
        k1.subset_of(k2),
    ensures
        binding_closed(b, bound, k2),
    decreases b,
{
    let inner = bound.union(names_of(b.scheme@));
    assert forall|i: int| 0 <= i < b.scheme@.len() implies binding_closed(#[trigger] b.scheme@[i], inner, k2) by {
        assert(decreases_to!(b => b.scheme@[i]));
        lemma_binding_closed_grows(b.scheme@[i], inner, k1, k2);
    }
    lemma_value_closed_grows(*b.value, inner, k1, k2);
}

pub fn local_name(item: &ItemSpec) -> (r: String)
    ensures
        r == local_name_of(*item),
{
    match &item.alias {
        Some(node) => node.kind.clone(),
        None => item.name.kind.clone(),
    }
}

/// The name a statement binds.
pub fn statement_name(stat: &Statement) -> (r: String)
    ensures
        r == bound_name(*stat),
{
    match &stat.kind {
        StatementKind::Variable { name, .. } => name.clone(),
        StatementKind::Function { name, .. } => name.clone(),
        StatementKind::Infix { operator, .. } => operator.kind.clone(),
    }
}

fn lit(s: &str) -> (r: String)
    ensures
        r@ == s@,
{
    owned(s)
}

fn error(message: String, span: Span) -> (d: Diagnostics) {
    Diagnostics::compiler_error(message, span)
}

/// `a` immediately followed by `b`.
fn cat3(a: &str, b: &str, c: &str) -> (r: String)
    ensures
        r@ == a@ + b@ + c@,
{
    concat(&concat(&owned(a), b), c)
}

/// The index of the first `::` in `s` at or after `from`.
pub open spec fn double_colon_from(s: Seq<char>, from: int) -> Option<int>
    decreases s.len() - from,
{
    if from < 0 || from + 1 >= s.len() {
        None
    } else if s[from] == ':' && s[from + 1] == ':' {
        Some(from)
    } else {
        double_colon_from(s, from + 1)
    }
}

fn find_double_colon(chars: &Vec<char>) -> (r: Option<usize>)
    ensures
        match double_colon_from(chars@, 0) {
            Some(i) => r is Some && r->Some_0 as int == i && i + 1 < chars@.len(),
            None => r is None,
        },
        r matches Some(i) ==> i + 1 < chars@.len(),
{
    let mut i: usize = 0;
    while i < chars.len() && i + 1 < chars.len()
        invariant
            i <= chars@.len(),
            double_colon_from(chars@, 0) == double_colon_from(chars@, i as int),
        decreases chars.len() - i,
    {
        if chars[i] == ':' && chars[i + 1] == ':' {
            return Some(i);
        }
        i = i + 1;
    }
    None
}

/// Whether `name` holds `::`.
pub fn is_qualified(name: &String) -> (b: bool)
    ensures
        b == (double_colon_from(name@, 0) is Some),
{
    let chars = chars_of(name.as_str());
    find_double_colon(&chars).is_some()
}

/// `name` split at its first `::`.
fn split_once(name: &String) -> (r: Option<(String, String)>)
    ensures
        match double_colon_from(name@, 0) {
            Some(i) => r is Some && r->Some_0.0@ == name@.subrange(0, i) && r->Some_0.1@
                == name@.subrange(i + 2, name@.len() as int),
            None => r is None,
        },
{
    let chars = chars_of(name.as_str());
    assert(chars@ == name@);
    match find_double_colon(&chars) {
        Some(i) => {
            let head = substring(&chars, 0, i);
            let rest = substring(&chars, i + 2, chars.len());
            assert(double_colon_from(name@, 0) == Some(i as int));
            assert(head@ == name@.subrange(0, i as int));
            assert(rest@ == name@.subrange(i + 2, name@.len() as int));
            Some((head, rest))
        },
        None => None,
    }
}

/// The module bound to `key`, by the latest alias declaration.
/// The module that the last declaration of alias `key` names.
pub open spec fn alias_target(aliases: Seq<(String, usize)>, key: Seq<char>) -> Option<usize>
    decreases aliases.len(),
{
    if aliases.len() == 0 {
        None
    } else if aliases.last().0@ == key {
        Some(aliases.last().1)
    } else {
        alias_target(aliases.drop_last(), key)
    }
}

fn find_alias(aliases: &Vec<(String, usize)>, key: &String) -> (r: Option<usize>)
    ensures
        r matches Some(v) ==> exists|i: int| 0 <= i < aliases@.len() && (#[trigger] aliases@[i]).1 == v,
        r == alias_target(aliases@, key@),
{
    let mut i: usize = aliases.len();
    proof {
        assert(aliases@.subrange(0, i as int) =~= aliases@);
    }
    while i > 0
        invariant
            i <= aliases@.len(),
            alias_target(aliases@, key@) == alias_target(aliases@.subrange(0, i as int), key@),
        decreases i,
    {
        proof {
            assert(aliases@.subrange(0, i as int).drop_last() =~= aliases@.subrange(0, i - 1));
        }
        if str_eq(&aliases[i - 1].0, key) {
            return Some(aliases[i - 1].1);
        }
        i = i - 1;
    }
    None
}

fn contains_name(list: &Vec<String>, name: &String) -> (b: bool)
    ensures
        b == (exists|i: int| 0 <= i < list@.len() && (#[trigger] list@[i])@ == name@),
{
    let mut i: usize = 0;
    while i < list.len()
        invariant
            i <= list@.len(),
            forall|j: int| 0 <= j < i ==> (#[trigger] list@[j])@ != name@,
        decreases list@.len() - i,
    {
        if str_eq(&list[i], name) {
            return true;
        }
        i = i + 1;
    }
    false
}

/// Whether the path names the prelude: a plain path whose first segment is `prelude`.
pub fn is_prelude_path(path: &ModulePath) -> (b: bool)
    ensures
        b == (path.anchor == PathAnchor::Plain && path.segments@.len() > 0
            && path.segments@[0].kind@ == seq!['p', 'r', 'e', 'l', 'u', 'd', 'e']),
{
    proof {
        reveal_strlit("prelude");
        assert("prelude"@ =~= seq!['p', 'r', 'e', 'l', 'u', 'd', 'e']);
    }
    match path.anchor {
        PathAnchor::Plain => {
            if path.segments.len() > 0 {
                str_eq(&path.segments[0].kind, &lit("prelude"))
            } else {
                false
            }
        },
        _ => false,
    }
}

/// The segments of a path joined with `::`.
pub open spec fn joined_segments(segs: Seq<Seq<char>>) -> Seq<char>
    decreases segs.len(),
{
    if segs.len() == 0 {
        seq![]
    } else if segs.len() == 1 {
        segs[0]
    } else {
        joined_segments(segs.drop_last()) + seq![':', ':'] + segs.last()
    }
}

pub open spec fn segment_names(path: ModulePath) -> Seq<Seq<char>> {
    path.segments@.map_values(|n: crate::parser::Node<String>| n.kind@)
}

/// `prelude::a::b` for the path `prelude::a::b`.
pub fn prelude_prefix(path: &ModulePath) -> (r: String)
    ensures
        r@ == joined_segments(segment_names(*path)),
{
    let mut prefix = owned("");
    proof {
        reveal_strlit("");
        reveal_strlit("::");
    }
    let mut i: usize = 0;
    while i < path.segments.len()
        invariant
            i <= path.segments@.len(),
            prefix@ == joined_segments(segment_names(*path).subrange(0, i as int)),
        decreases path.segments@.len() - i,
    {
        proof {
            reveal_strlit("::");
            let segs = segment_names(*path).subrange(0, i as int + 1);
            assert(segs.drop_last() =~= segment_names(*path).subrange(0, i as int));
        }
        if i > 0 {
            prefix = concat(&prefix, "::");
        }
        prefix = concat(&prefix, path.segments[i].kind.as_str());
        proof {
            let segs = segment_names(*path).subrange(0, i as int + 1);
            if i == 0 {
                assert(prefix@ =~= segs[0]);
            } else {
                assert(prefix@ =~= joined_segments(segs.drop_last()) + seq![':', ':'] + segs.last());
            }
        }
        i = i + 1;
    }
    proof {
        assert(segment_names(*path).subrange(0, path.segments@.len() as int) =~= segment_names(
            *path,
        ));
    }
    prefix
}

/// The name `prefix::rest` when `name` has that form and `rest` has no `::`.
pub open spec fn glob_member(name: Seq<char>, prefix: Seq<char>) -> Option<Seq<char>> {
    let needle = prefix + seq![':', ':'];
    if name.len() >= needle.len() && name.subrange(0, needle.len() as int) == needle {
        let rest = name.subrange(needle.len() as int, name.len() as int);
        if double_colon_from(rest, 0) is None {
            Some(rest)
        } else {
            None
        }
    } else {
        None
    }
}

fn starts_with(chars: &Vec<char>, needle: &Vec<char>) -> (b: bool)
    ensures
        b == (chars@.len() >= needle@.len() && chars@.subrange(0, needle@.len() as int) == needle@),
{
    if chars.len() < needle.len() {
        return false;
    }
    let mut i: usize = 0;
    while i < needle.len()
        invariant
            i <= needle@.len() <= chars@.len(),
            forall|j: int| 0 <= j < i ==> chars@[j] == needle@[j],
        decreases needle@.len() - i,
    {
        if chars[i] != needle[i] {
            proof {
                assert(chars@.subrange(0, needle@.len() as int)[i as int] != needle@[i as int]);
            }
            return false;
        }
        i = i + 1;
    }
    assert(chars@.subrange(0, needle@.len() as int) =~= needle@);
    true
}

/// The pairs as character sequences.
pub open spec fn pair_views(v: Seq<(String, String)>) -> Seq<(Seq<char>, Seq<char>)> {
    v.map_values(|p: (String, String)| (p.0@, p.1@))
}

/// The prelude names directly under `prefix`, in order, each with its last segment first.
pub open spec fn glob_list(ps: Seq<String>, prefix: Seq<char>) -> Seq<(Seq<char>, Seq<char>)>
    decreases ps.len(),
{
    if ps.len() == 0 {
        Seq::empty()
    } else {
        glob_list(ps.drop_last(), prefix) + match glob_member(ps.last()@, prefix) {
            Some(rest) => seq![(rest, ps.last()@)],
            None => Seq::empty(),
        }
    }
}

/// The prelude name `prefix::name`.
pub open spec fn prelude_name(prefix: Seq<char>, name: Seq<char>) -> Seq<char> {
    prefix + seq![':', ':'] + name
}

fn member_of_glob(name: &String, prefix: &String) -> (r: Option<String>)
    ensures
        match glob_member(name@, prefix@) {
            Some(rest) => r is Some && r->Some_0@ == rest,
            None => r is None,
        },
{
    proof {
        reveal_strlit("::");
    }
    let needle_s = concat(prefix, "::");
    assert("::"@ =~= seq![':', ':']);
    let needle = chars_of(needle_s.as_str());
    let chars = chars_of(name.as_str());
    if !starts_with(&chars, &needle) {
        return None;
    }
    let rest = substring(&chars, needle.len(), chars.len());
    let rest_chars = chars_of(rest.as_str());
    if find_double_colon(&rest_chars).is_some() {
        None
    } else {
        Some(rest)
    }
}


pub closed spec fn import_target(r: ResolvedImport) -> usize {
    match r {
        ResolvedImport::Glob { target } => target,
        ResolvedImport::Items { target, .. } => target,
    }
}

pub closed spec fn export_target_ok(r: ResolvedExport, n: int) -> bool {
    match r {
        ResolvedExport::FromGlob { target } => target < n,
        ResolvedExport::FromItems { target, .. } => target < n,
        _ => true,
    }
}

impl<'s, S: ModuleSource> Resolver<'s, S> {
    pub closed spec fn wf(&self) -> bool {
        let n = self.modules@.len() as int;
        &&& self.own@.len() == n
        &&& self.resolved_imports@.len() == n
        &&& self.resolved_exports@.len() == n
        &&& self.base_names@.len() == n
        &&& self.names@.len() == n
        &&& self.module_aliases@.len() == n
        &&& self.prelude_exports@.len() == n
        &&& self.exports@.len() == n
        &&& forall|m: int| 0 <= m < n ==> (#[trigger] self.modules@[m]).package < self.packages@.len()
        &&& forall|m: int| 0 <= m < n ==> (#[trigger] self.modules@[m]).public.wf()
        &&& forall|m: int| 0 <= m < n ==> (#[trigger] self.own@[m]).wf()
        &&& forall|m: int| 0 <= m < n ==> (#[trigger] self.base_names@[m]).wf()
        &&& forall|m: int| 0 <= m < n ==> (#[trigger] self.names@[m]).wf()
        &&& forall|m: int| 0 <= m < n ==> (#[trigger] self.exports@[m]).wf()
        &&& forall|m: int, j: int|
            0 <= m < n && 0 <= j < self.resolved_imports@[m]@.len() ==> import_target(
                #[trigger] self.resolved_imports@[m]@[j],
            ) < n
        &&& forall|m: int, j: int|
            0 <= m < n && 0 <= j < self.resolved_exports@[m]@.len() ==> export_target_ok(
                #[trigger] self.resolved_exports@[m]@[j],
                n,
            )
        &&& forall|m: int, j: int|
            0 <= m < n && 0 <= j < self.module_aliases@[m]@.len() ==> (
            #[trigger] self.module_aliases@[m]@[j]).1 < n
        &&& self.path_to_module.bounded(n)
        &&& self.root_to_package.bounded(self.packages@.len() as int)
        &&& forall|p: int| 0 <= p < self.packages@.len() ==> (#[trigger] self.packages@[p]).externs.wf()
        &&& self.injected_externs.wf()
    }

    pub closed spec fn module_count(&self) -> nat {
        self.modules@.len()
    }

    pub closed spec fn package_count(&self) -> nat {
        self.packages@.len()
    }

    /// Loading only adds modules and packages.
    pub closed spec fn grown_from(&self, before: Self) -> bool {
        &&& self.modules@.len() >= before.modules@.len()
        &&& self.packages@.len() >= before.packages@.len()
        &&& forall|m: int|
            0 <= m < before.modules@.len() ==> (#[trigger] self.modules@[m]).package
                == before.modules@[m].package
    }

    /// The canonical names: those of the modules' own bindings, and the prelude names.
    pub closed spec fn known(&self) -> Set<Seq<char>> {
        Set::new(
            |s: Seq<char>|
                exists|m: int, k: Seq<char>|
                    0 <= m < self.own@.len() && #[trigger] self.own@[m]@.contains_key(k) && self.own@[m]@[k]
                        == s,
        ).union(name_set(self.prelude_set@))
    }

    /// Every table of names maps to canonical names.
    pub closed spec fn tables_within(&self) -> bool {
        let n = self.modules@.len() as int;
        let known = self.known();
        &&& forall|m: int| 0 <= m < n ==> values_within(#[trigger] self.base_names@[m]@, known)
        &&& forall|m: int| 0 <= m < n ==> values_within(#[trigger] self.names@[m]@, known)
        &&& forall|m: int| 0 <= m < n ==> values_within(#[trigger] self.exports@[m]@, known)
        &&& forall|m: int, j: int|
            0 <= m < n && 0 <= j < self.prelude_exports@[m]@.len() ==> known.contains(
                (#[trigger] self.prelude_exports@[m]@[j]).1@,
            )
    }

    /// No module has a table of names yet.
    pub closed spec fn tables_empty(&self) -> bool {
        let n = self.modules@.len() as int;
        &&& forall|m: int| 0 <= m < n ==> (#[trigger] self.base_names@[m])@ == Map::<Seq<char>, Seq<char>>::empty()
        &&& forall|m: int| 0 <= m < n ==> (#[trigger] self.names@[m])@ == Map::<Seq<char>, Seq<char>>::empty()
        &&& forall|m: int| 0 <= m < n ==> (#[trigger] self.exports@[m])@ == Map::<Seq<char>, Seq<char>>::empty()
        &&& forall|m: int| 0 <= m < n ==> (#[trigger] self.prelude_exports@[m])@.len() == 0
    }

    /// Each own binding maps a name that the module binds to that name under the module's prefix.
    pub closed spec fn own_sound(&self) -> bool {
        forall|m: int, k: Seq<char>|
            0 <= m < self.modules@.len() && #[trigger] self.own@[m]@.contains_key(k) ==> self.own@[m]@[k]
                == self.modules@[m].prefix@ + k && exists|i: int|
                0 <= i < self.modules@[m].bindings@.len() && (#[trigger] self.modules@[m].bindings@[i]).name@
                    == k
    }

    /// Only modules were added since `before`, with empty tables; nothing else changed.
    pub closed spec fn keeps_tables(&self, before: Self) -> bool {
        let o = before.modules@.len() as int;
        let n = self.modules@.len() as int;
        &&& o <= n
        &&& self.prelude_set@ == before.prelude_set@
        &&& forall|m: int| 0 <= m < o ==> #[trigger] self.modules@[m] == before.modules@[m]
        &&& forall|m: int| 0 <= m < o ==> #[trigger] self.own@[m] == before.own@[m]
        &&& forall|m: int| 0 <= m < o ==> #[trigger] self.base_names@[m] == before.base_names@[m]
        &&& forall|m: int| 0 <= m < o ==> #[trigger] self.names@[m] == before.names@[m]
        &&& forall|m: int| 0 <= m < o ==> #[trigger] self.exports@[m] == before.exports@[m]
        &&& forall|m: int| 0 <= m < o ==> #[trigger] self.prelude_exports@[m] == before.prelude_exports@[m]
        &&& forall|m: int| o <= m < n ==> (#[trigger] self.own@[m])@ == Map::<Seq<char>, Seq<char>>::empty()
        &&& forall|m: int| o <= m < n ==> (#[trigger] self.base_names@[m])@ == Map::<Seq<char>, Seq<char>>::empty()
        &&& forall|m: int| o <= m < n ==> (#[trigger] self.names@[m])@ == Map::<Seq<char>, Seq<char>>::empty()
        &&& forall|m: int| o <= m < n ==> (#[trigger] self.exports@[m])@ == Map::<Seq<char>, Seq<char>>::empty()
        &&& forall|m: int| o <= m < n ==> (#[trigger] self.prelude_exports@[m])@.len() == 0
    }

    proof fn lemma_keeps_trans(&self, mid: Self, before: Self)
        requires
            self.keeps_tables(mid),
            mid.keeps_tables(before),
        ensures
            self.keeps_tables(before),
    {
        let o = before.modules@.len() as int;
        let p = mid.modules@.len() as int;
        let n = self.modules@.len() as int;
        assert forall|m: int| o <= m < n implies (#[trigger] self.own@[m])@ == Map::<Seq<char>, Seq<char>>::empty()
            && self.base_names@[m]@ == Map::<Seq<char>, Seq<char>>::empty()
            && self.names@[m]@ == Map::<Seq<char>, Seq<char>>::empty()
            && self.exports@[m]@ == Map::<Seq<char>, Seq<char>>::empty()
            && self.prelude_exports@[m]@.len() == 0 by {
            if m < p {
                assert(self.own@[m] == mid.own@[m]);
                assert(self.base_names@[m] == mid.base_names@[m]);
                assert(self.names@[m] == mid.names@[m]);
                assert(self.exports@[m] == mid.exports@[m]);
                assert(self.prelude_exports@[m] == mid.prelude_exports@[m]);
            }
        }
        assert forall|m: int| 0 <= m < o implies #[trigger] self.modules@[m] == before.modules@[m] && self.own@[m]
            == before.own@[m] && self.base_names@[m] == before.base_names@[m] && self.names@[m]
            == before.names@[m] && self.exports@[m] == before.exports@[m] && self.prelude_exports@[m]
            == before.prelude_exports@[m] by {
            assert(self.modules@[m] == mid.modules@[m]);
            assert(self.own@[m] == mid.own@[m]);
            assert(self.base_names@[m] == mid.base_names@[m]);
            assert(self.names@[m] == mid.names@[m]);
            assert(self.exports@[m] == mid.exports@[m]);
            assert(self.prelude_exports@[m] == mid.prelude_exports@[m]);
        }
    }

    /// Adding modules with empty tables keeps the tables canonical and the own bindings sound.
    proof fn lemma_keeps_within(&self, before: Self)
        requires
            self.keeps_tables(before),
            self.wf(),
            before.wf(),
            before.tables_within(),
            before.own_sound(),
        ensures
            self.tables_within(),
            self.own_sound(),
            before.known().subset_of(self.known()),
    {
        let o = before.modules@.len() as int;
        let n = self.modules@.len() as int;
        assert forall|s: Seq<char>| before.known().contains(s) implies self.known().contains(s) by {
            if !name_set(before.prelude_set@).contains(s) {
                let (m, k) = choose|m: int, k: Seq<char>|
                    0 <= m < before.own@.len() && #[trigger] before.own@[m]@.contains_key(k) && before.own@[m]@[k]
                        == s;
                assert(self.own@[m] == before.own@[m]);
                assert(self.own@[m]@.contains_key(k));
            }
        }
        let known = self.known();
        assert forall|m: int| 0 <= m < n implies values_within(#[trigger] self.base_names@[m]@, known) by {
            if m < o {
                assert(self.base_names@[m] == before.base_names@[m]);
            }
        }
        assert forall|m: int| 0 <= m < n implies values_within(#[trigger] self.names@[m]@, known) by {
            if m < o {
                assert(self.names@[m] == before.names@[m]);
            }
        }
        assert forall|m: int| 0 <= m < n implies values_within(#[trigger] self.exports@[m]@, known) by {
            if m < o {
                assert(self.exports@[m] == before.exports@[m]);
            }
        }
        assert forall|m: int, j: int|
            0 <= m < n && 0 <= j < self.prelude_exports@[m]@.len() implies known.contains(
            (#[trigger] self.prelude_exports@[m]@[j]).1@,
        ) by {
            if m < o {
                assert(self.prelude_exports@[m] == before.prelude_exports@[m]);
            }
        }
        assert forall|m: int, k: Seq<char>|
            0 <= m < n && #[trigger] self.own@[m]@.contains_key(k) implies self.own@[m]@[k]
            == self.modules@[m].prefix@ + k && exists|i: int|
            0 <= i < self.modules@[m].bindings@.len() && (#[trigger] self.modules@[m].bindings@[i]).name@ == k by {
            if m < o {
                assert(self.own@[m] == before.own@[m]);
                assert(self.modules@[m] == before.modules@[m]);
            }
        }
    }

    /// Modules loaded into a resolver that had none have no tables and no own bindings yet.
    proof fn lemma_fresh(&self, start: Self)
        requires
            self.keeps_tables(start),
            start.modules@.len() == 0,
        ensures
            self.tables_empty(),
            self.own_sound(),
    {
    }

    proof fn lemma_empty_within(&self)
        requires
            self.tables_empty(),
        ensures
            self.tables_within(),
    {
    }

    /// Every canonical name is the name of a resolved binding or a prelude name.
    proof fn lemma_known_resolved(&self, bs: Seq<DesugarBinding>)
        requires
            self.own_sound(),
            forall|m: int, i: int|
                0 <= m < self.modules@.len() && 0 <= i < self.modules@[m].bindings@.len() ==> #[trigger] self.renamed_in(
                    bs,
                    m,
                    i,
                ),
            self.wf(),
        ensures
            self.known().subset_of(names_of(bs).union(name_set(self.prelude_set@))),
    {
        assert forall|s: Seq<char>| self.known().contains(s) implies names_of(bs).union(
            name_set(self.prelude_set@),
        ).contains(s) by {
            if !name_set(self.prelude_set@).contains(s) {
                let (m, k) = choose|m: int, k: Seq<char>|
                    0 <= m < self.own@.len() && #[trigger] self.own@[m]@.contains_key(k) && self.own@[m]@[k] == s;
                let i = choose|i: int|
                    0 <= i < self.modules@[m].bindings@.len() && (#[trigger] self.modules@[m].bindings@[i]).name@ == k;
                assert(self.renamed_in(bs, m, i));
            }
        }
    }

    fn new(source: &'s S, injected_externs: NameMap, prelude_set: Vec<String>) -> (r: Self)
        requires
            injected_externs.wf(),
        ensures
            r.wf(),
            r.modules@.len() == 0,
            r.prelude_set@ == prelude_set@,
    {
        Resolver {
            source,
            packages: Vec::new(),
            modules: Vec::new(),
            own: Vec::new(),
            resolved_imports: Vec::new(),
            resolved_exports: Vec::new(),
            base_names: Vec::new(),
            names: Vec::new(),
            module_aliases: Vec::new(),
            prelude_exports: Vec::new(),
            exports: Vec::new(),
            path_to_module: IndexTable { entries: Vec::new() },
            root_to_package: IndexTable { entries: Vec::new() },
            injected_externs,
            prelude_set,
        }
    }

    /// The nearest directory, from `start_dir` up, that holds an `astro.toml`.
    ///
    /// Which directories hold one the source says.
    fn find_manifest_root(&self, start_dir: &String) -> (r: Option<String>)
        ensures
            r matches Some(d) ==> exists|k: nat| ancestor(start_dir@, k) == Some(d@),
    {
        let mut dir = start_dir.clone();
        proof {
            assert(ancestor(start_dir@, 0) == Some(dir@));
        }
        loop
            invariant
                exists|k: nat| ancestor(start_dir@, k) == Some(dir@),
            decreases dir@.len(),
        {
            let ghost k = choose|k: nat| ancestor(start_dir@, k) == Some(dir@);
            let manifest = join(&dir, "astro.toml");
            if self.source.is_file(&manifest) {
                return Some(dir);
            }
            match parent(&dir) {
                Some(p) => {
                    proof {
                        assert(ancestor(start_dir@, k + 1) == Some(p@));
                    }
                    dir = p;
                },
                None => {
                    return None;
                },
            }
        }
    }

    fn ensure_package(&mut self, root: &String) -> (r: Result<usize, Diagnostics>)
        requires
            old(self).wf(),
        ensures
            final(self).wf(),
            final(self).grown_from(*old(self)),
            final(self).modules@.len() == old(self).modules@.len(),
            final(self).keeps_tables(*old(self)),
            r matches Ok(p) ==> p < final(self).packages@.len(),
    {
        let root = self.source.canonicalize(root);
        match self.root_to_package.get(&root) {
            Some(idx) => {
                return Ok(idx);
            },
            None => {},
        }
        let mut externs = NameMap::new();
        let mut name: Option<String> = None;
        let manifest_path = join(&root, "astro.toml");
        if self.source.is_file(&manifest_path) {
            let content = match self.source.read_to_string(&manifest_path) {
                Some(c) => c,
                None => {
                    let msg = concat(&lit("can not read manifest "), manifest_path.as_str());
                    return Err(error(msg, Span::zero()));
                },
            };
            let manifest = match parse_manifest(content.as_str()) {
                Some(m) => m,
                None => {
                    let msg = concat(&lit("invalid manifest "), manifest_path.as_str());
                    return Err(error(msg, Span::zero()));
                },
            };
            name = Some(manifest.name);
            let mut i: usize = 0;
            while i < manifest.dependencies.len()
                invariant
                    externs.wf(),
                    i <= manifest.dependencies@.len(),
                decreases manifest.dependencies@.len() - i,
            {
                let dep_root = join(&root, manifest.dependencies[i].1.as_str());
                let canonical = self.source.canonicalize(&dep_root);
                externs.insert(manifest.dependencies[i].0.clone(), canonical);
                i = i + 1;
            }
        }
        let mut k: usize = 0;
        while k < self.injected_externs.len()
            invariant
                externs.wf(),
                self.injected_externs.wf(),
            decreases self.injected_externs.entries_seq().len() - k,
        {
            let (n, p) = self.injected_externs.entry(k);
            externs.insert(n.clone(), p.clone());
            k = k + 1;
        }
        let idx = self.packages.len();
        self.packages.push(Package { root: root.clone(), name, externs });
        self.root_to_package.insert(root, idx);
        proof {
            assert forall|p: int| 0 <= p < self.packages@.len() implies (#[trigger] self.packages@[p]).externs.wf() by {
                if p < old(self).packages@.len() {
                    assert(self.packages@[p] == old(self).packages@[p]);
                }
            }
            assert forall|m: int| 0 <= m < self.modules@.len() implies (#[trigger] self.modules@[m]).package
                < self.packages@.len() by {
                assert(self.modules@[m] == old(self).modules@[m]);
            }
        }
        Ok(idx)
    }
}

impl<'s, S: ModuleSource> Resolver<'s, S> {
    fn load_module(&mut self, file: String, package: usize, is_entry: bool) -> (r: Result<
        usize,
        Diagnostics,
    >)
        requires
            old(self).wf(),
            package < old(self).packages@.len(),
        ensures
            final(self).wf(),
            final(self).grown_from(*old(self)),
            final(self).packages@.len() == old(self).packages@.len(),
            final(self).keeps_tables(*old(self)),
            r matches Ok(m) ==> m < final(self).modules@.len(),
    {
        let file = self.source.canonicalize(&file);
        match self.path_to_module.get(&file) {
            Some(idx) => {
                return Ok(idx);
            },
            None => {},
        }
        let source = match self.source.read_to_string(&file) {
            Some(text) => text,
            None => {
                let msg = concat(&lit("can not open module "), file.as_str());
                return Err(error(msg, Span::zero()));
            },
        };
        let mut parser = Parser::new(source.as_str())?;
        let parse_info = parser.parse()?;
        let mut public = NameMap::new();
        let mut i: usize = 0;
        while i < parse_info.statements.len()
            invariant
                public.wf(),
            decreases parse_info.statements@.len() - i,
        {
            let stat = &parse_info.statements[i];
            if stat.is_public {
                let n = statement_name(stat);
                public.insert(n.clone(), n);
            }
            i = i + 1;
        }
        let bindings = desugar(parse_info.statements)?;
        let dir = match parent(&file) {
            Some(d) => d,
            None => owned(""),
        };
        let idx = self.modules.len();
        let prefix = if is_entry {
            owned("")
        } else {
            let number = usize_to_decimal(idx);
            concat(&concat(&lit("m"), number.as_str()), "::")
        };
        self.modules.push(
            Module {
                dir,
                package,
                prefix,
                bindings,
                public,
                imports: parse_info.imports,
                exports_ast: parse_info.exports,
            },
        );
        self.own.push(NameMap::new());
        self.resolved_imports.push(Vec::new());
        self.resolved_exports.push(Vec::new());
        self.base_names.push(NameMap::new());
        self.names.push(NameMap::new());
        self.module_aliases.push(Vec::new());
        self.prelude_exports.push(Vec::new());
        self.exports.push(NameMap::new());
        self.path_to_module.insert(file, idx);
        proof {
            let n = self.modules@.len() as int;
            let o = old(self).modules@.len() as int;
            assert forall|m: int| 0 <= m < n implies (#[trigger] self.modules@[m]).package
                < self.packages@.len() && self.modules@[m].public.wf() by {
                if m < o {
                    assert(self.modules@[m] == old(self).modules@[m]);
                }
            }
            assert forall|m: int| 0 <= m < n implies (#[trigger] self.own@[m]).wf() by {
                if m < o {
                    assert(self.own@[m] == old(self).own@[m]);
                }
            }
            assert forall|m: int| 0 <= m < n implies (#[trigger] self.base_names@[m]).wf() by {
                if m < o {
                    assert(self.base_names@[m] == old(self).base_names@[m]);
                }
            }
            assert forall|m: int| 0 <= m < n implies (#[trigger] self.names@[m]).wf() by {
                if m < o {
                    assert(self.names@[m] == old(self).names@[m]);
                }
            }
            assert forall|m: int| 0 <= m < n implies (#[trigger] self.exports@[m]).wf() by {
                if m < o {
                    assert(self.exports@[m] == old(self).exports@[m]);
                }
            }
            assert forall|m: int, j: int|
                0 <= m < n && 0 <= j < self.resolved_imports@[m]@.len() implies import_target(
                #[trigger] self.resolved_imports@[m]@[j],
            ) < n by {
                assert(self.resolved_imports@[m] == old(self).resolved_imports@[m]);
            }
            assert forall|m: int, j: int|
                0 <= m < n && 0 <= j < self.resolved_exports@[m]@.len() implies export_target_ok(
                #[trigger] self.resolved_exports@[m]@[j],
                n,
            ) by {
                assert(self.resolved_exports@[m] == old(self).resolved_exports@[m]);
                assert(export_target_ok(self.resolved_exports@[m]@[j], o));
            }
            assert forall|m: int, j: int|
                0 <= m < n && 0 <= j < self.module_aliases@[m]@.len() implies (
            #[trigger] self.module_aliases@[m]@[j]).1 < n by {
                assert(self.module_aliases@[m] == old(self).module_aliases@[m]);
            }
        }
        Ok(idx)
    }

    /// The prelude name `prefix::item` and the name the item is bound to locally.
    fn prelude_item(&self, prefix: &String, item: &ItemSpec) -> (r: Result<(String, String), Diagnostics>)
        ensures
            r matches Ok((local, canonical)) ==> local == local_name_of(*item) && canonical@
                == prefix@ + seq![':', ':'] + item.name.kind@ && exists|i: int|
                0 <= i < self.prelude_set@.len() && (#[trigger] self.prelude_set@[i])@ == canonical@,
            r is Err ==> !exists|i: int|
                0 <= i < self.prelude_set@.len() && (#[trigger] self.prelude_set@[i])@ == prefix@
                    + seq![':', ':'] + item.name.kind@,
    {
        proof {
            reveal_strlit("::");
            assert("::"@ =~= seq![':', ':']);
        }
        let canonical = concat(&concat(prefix, "::"), item.name.kind.as_str());
        if !contains_name(&self.prelude_set, &canonical) {
            let msg = concat(&concat(&lit("'"), canonical.as_str()), "' is not a prelude item");
            return Err(error(msg, item.name.span));
        }
        Ok((local_name(item), canonical))
    }

    /// The prelude names directly under `prefix`, each with its last segment.
    fn prelude_glob(&self, prefix: &String) -> (out: Vec<(String, String)>)
        ensures
            forall|j: int|
                0 <= j < out@.len() ==> glob_member((#[trigger] out@[j]).1@, prefix@) == Some(
                    out@[j].0@,
                ),
            forall|j: int| 0 <= j < out@.len() ==> name_set(self.prelude_set@).contains((#[trigger] out@[j]).1@),
            pair_views(out@) == glob_list(self.prelude_set@, prefix@),
    {
        let mut out: Vec<(String, String)> = Vec::new();
        let mut i: usize = 0;
        proof {
            assert(pair_views(out@) =~= glob_list(self.prelude_set@.take(0), prefix@));
        }
        while i < self.prelude_set.len()
            invariant
                i <= self.prelude_set@.len(),
                pair_views(out@) == glob_list(self.prelude_set@.take(i as int), prefix@),
                forall|j: int|
                    0 <= j < out@.len() ==> glob_member((#[trigger] out@[j]).1@, prefix@) == Some(
                        out@[j].0@,
                    ),
                forall|j: int| 0 <= j < out@.len() ==> name_set(self.prelude_set@).contains((#[trigger] out@[j]).1@),
            decreases self.prelude_set@.len() - i,
        {
            let ghost before = out@;
            match member_of_glob(&self.prelude_set[i], prefix) {
                Some(rest) => {
                    out.push((rest, self.prelude_set[i].clone()));
                },
                None => {},
            }
            proof {
                assert(self.prelude_set@.take(i + 1).drop_last() =~= self.prelude_set@.take(i as int));
                assert(pair_views(out@) =~= glob_list(self.prelude_set@.take(i + 1), prefix@));
            }
            i = i + 1;
        }
        proof {
            assert(self.prelude_set@.take(self.prelude_set@.len() as int) =~= self.prelude_set@);
        }
        out
    }

    fn resolve_prelude_import(&self, import: &Import) -> (r: Result<Vec<(String, String)>, Diagnostics>)
        requires
            import.path.segments@.len() > 0,
        ensures
            r matches Ok(out) ==> forall|j: int|
                0 <= j < out@.len() ==> name_set(self.prelude_set@).contains((#[trigger] out@[j]).1@),
            ({
                let prefix = joined_segments(segment_names(import.path));
                match import.target {
                    ImportTarget::Items(items) => {
                        &&& r is Ok <==> forall|k: int|
                            0 <= k < items@.len() ==> name_set(self.prelude_set@).contains(
                                prelude_name(prefix, (#[trigger] items@[k]).name.kind@),
                            )
                        &&& r matches Ok(out) ==> out@.len() == items@.len() && forall|k: int|
                            0 <= k < items@.len() ==> (#[trigger] out@[k]).0@ == local_name_of(items@[k])@
                                && out@[k].1@ == prelude_name(prefix, items@[k].name.kind@)
                    },
                    ImportTarget::Glob => r matches Ok(out) && pair_views(out@) == glob_list(self.prelude_set@, prefix),
                    ImportTarget::Module => {
                        &&& r is Ok <==> name_set(self.prelude_set@).contains(prefix)
                        &&& r matches Ok(out) ==> out@.len() == 1 && out@[0].1@ == prefix && out@[0].0@ == (match import.alias {
                            Some(node) => node.kind@,
                            None => import.path.segments@.last().kind@,
                        })
                    },
                }
            }),
    {
        let prefix = prelude_prefix(&import.path);
        proof {
            reveal_strlit("::");
        }
        match &import.target {
            ImportTarget::Items(items) => {
                let mut out: Vec<(String, String)> = Vec::new();
                let mut i: usize = 0;
                while i < items.len()
                    invariant
                        i <= items@.len(),
                        out@.len() == i,
                        import.target == ImportTarget::Items(*items),
                        prefix@ == joined_segments(segment_names(import.path)),
                        forall|j: int|
                            0 <= j < out@.len() ==> name_set(self.prelude_set@).contains((#[trigger] out@[j]).1@),
                        forall|k: int|
                            0 <= k < i ==> name_set(self.prelude_set@).contains(
                                prelude_name(prefix@, (#[trigger] items@[k]).name.kind@),
                            ),
                        forall|k: int|
                            0 <= k < i ==> (#[trigger] out@[k]).0@ == local_name_of(items@[k])@
                                && out@[k].1@ == prelude_name(prefix@, items@[k].name.kind@),
                    decreases items@.len() - i,
                {
                    let pair = match self.prelude_item(&prefix, &items[i]) {
                        Ok(p) => p,
                        Err(e) => {
                            proof {
                                assert(!name_set(self.prelude_set@).contains(
                                    prelude_name(prefix@, items@[i as int].name.kind@),
                                ));
                                assert(!(forall|k: int|
                                    0 <= k < items@.len() ==> name_set(self.prelude_set@).contains(
                                        prelude_name(prefix@, (#[trigger] items@[k]).name.kind@),
                                    )));
                            }
                            return Err(e);
                        },
                    };
                    proof {
                        assert(name_set(self.prelude_set@).contains(prelude_name(prefix@, items@[i as int].name.kind@)));
                    }
                    out.push(pair);
                    i = i + 1;
                }
                Ok(out)
            },
            ImportTarget::Glob => Ok(self.prelude_glob(&prefix)),
            ImportTarget::Module => {
                if !contains_name(&self.prelude_set, &prefix) {
                    let msg = concat(&concat(&lit("'"), prefix.as_str()), "' is not a prelude item");
                    return Err(error(msg, import.path.span));
                }
                let alias = match &import.alias {
                    Some(node) => node.kind.clone(),
                    None => import.path.segments[import.path.segments.len() - 1].kind.clone(),
                };
                let out = vec![(alias, prefix)];
                proof {
                    assert(out@[0].1@ == prefix@);
                }
                Ok(out)
            },
        }
    }

    fn resolve_module_path(&mut self, current: usize, path: &ModulePath) -> (r: Result<
        usize,
        Diagnostics,
    >)
        requires
            old(self).wf(),
            current < old(self).modules@.len(),
        ensures
            final(self).wf(),
            final(self).grown_from(*old(self)),
            final(self).keeps_tables(*old(self)),
            r matches Ok(m) ==> m < final(self).modules@.len(),
    {
        let module_package = self.modules[current].package;
        let module_dir = self.modules[current].dir.clone();
        let mut base_dir: String;
        let mut target_package: usize;
        let mut start: usize;
        match path.anchor {
            PathAnchor::Pkg => {
                base_dir = self.packages[module_package].root.clone();
                target_package = module_package;
                start = 0;
            },
            PathAnchor::Super(count) => {
                let mut dir = module_dir.clone();
                let mut k: usize = 0;
                while k < count
                    decreases count - k,
                {
                    dir = match parent(&dir) {
                        Some(p) => p,
                        None => owned(""),
                    };
                    k = k + 1;
                }
                base_dir = dir;
                target_package = module_package;
                start = 0;
            },
            PathAnchor::SelfMod => {
                base_dir = module_dir.clone();
                target_package = module_package;
                start = 0;
            },
            PathAnchor::Plain => {
                base_dir = module_dir.clone();
                target_package = module_package;
                start = 0;
                if path.segments.len() > 0 {
                    let head = &path.segments[0];
                    let extern_root = match self.packages[module_package].externs.get(&head.kind) {
                        Some(root) => Some(root.clone()),
                        None => None,
                    };
                    match extern_root {
                        Some(extern_root) => {
                            let pkg = self.ensure_package(&extern_root)?;
                            match &self.packages[pkg].name {
                                Some(name) => {
                                    if !str_eq(name, &head.kind) {
                                        let msg = concat(
                                            &concat(
                                                &concat(
                                                    &concat(&lit("extern '"), head.kind.as_str()),
                                                    "' points at a package named '",
                                                ),
                                                name.as_str(),
                                            ),
                                            "'; the import name must match the package name",
                                        );
                                        return Err(error(msg, head.span));
                                    }
                                },
                                None => {
                                    let msg = concat(
                                        &concat(
                                            &concat(
                                                &concat(&lit("dependency '"), head.kind.as_str()),
                                                "' points at '",
                                            ),
                                            extern_root.as_str(),
                                        ),
                                        "' which has no '[package] name' in astro.toml",
                                    );
                                    return Err(error(msg, head.span));
                                },
                            }
                            base_dir = self.packages[pkg].root.clone();
                            target_package = pkg;
                            start = 1;
                        },
                        None => {},
                    }
                }
            },
        }
        if start >= path.segments.len() {
            return Err(error(lit("module path has no module segment"), path.span));
        }
        let mut file = base_dir;
        let mut i = start;
        while i < path.segments.len()
            decreases path.segments@.len() - i,
        {
            file = join(&file, path.segments[i].kind.as_str());
            i = i + 1;
        }
        let file = with_extension(&file, "par");
        let ghost mid = *self;
        let r = self.load_module(file, target_package, false);
        proof {
            self.lemma_keeps_trans(mid, *old(self));
        }
        r
    }

    /// Loads every module that a loaded module imports or re-exports from.
    fn load_closure(&mut self) -> (r: Result<(), Diagnostics>)
        requires
            old(self).wf(),
        ensures
            final(self).wf(),
            final(self).grown_from(*old(self)),
            final(self).keeps_tables(*old(self)),
    {
        let mut index: usize = 0;
        while index < self.modules.len()
            invariant
                self.wf(),
                self.grown_from(*old(self)),
                self.keeps_tables(*old(self)),
            decreases usize::MAX - index,
        {
            let imports = self.modules[index].imports.clone();
            let exports = self.modules[index].exports_ast.clone();
            let mut i: usize = 0;
            while i < imports.len()
                invariant
                    self.wf(),
                    self.grown_from(*old(self)),
                    self.keeps_tables(*old(self)),
                    index < self.modules@.len(),
                decreases imports@.len() - i,
            {
                if !is_prelude_path(&imports[i].path) {
                    let ghost mid = *self;
                    let r = self.resolve_module_path(index, &imports[i].path);
                    proof {
                        self.lemma_keeps_trans(mid, *old(self));
                    }
                    r?;
                }
                i = i + 1;
            }
            let mut j: usize = 0;
            while j < exports.len()
                invariant
                    self.wf(),
                    self.grown_from(*old(self)),
                    self.keeps_tables(*old(self)),
                    index < self.modules@.len(),
                decreases exports@.len() - j,
            {
                match &exports[j].item {
                    ExportItem::FromGlob(path) => {
                        if !is_prelude_path(path) {
                            let ghost mid = *self;
                            let r = self.resolve_module_path(index, path);
                            proof {
                                self.lemma_keeps_trans(mid, *old(self));
                            }
                            r?;
                        }
                    },
                    ExportItem::FromItems(path, _) => {
                        if !is_prelude_path(path) {
                            let ghost mid = *self;
                            let r = self.resolve_module_path(index, path);
                            proof {
                                self.lemma_keeps_trans(mid, *old(self));
                            }
                            r?;
                        }
                    },
                    _ => {},
                }
                j = j + 1;
            }
            index = index + 1;
        }
        Ok(())
    }
}

impl<'s, S: ModuleSource> Resolver<'s, S> {
    /// Each module's own bindings, by their canonical names.
    fn compute_own(&mut self)
        requires
            old(self).wf(),
            old(self).own_sound(),
        ensures
            final(self).wf(),
            final(self).grown_from(*old(self)),
            final(self).modules@ == old(self).modules@,
            final(self).own_sound(),
            final(self).prelude_set@ == old(self).prelude_set@,
            final(self).base_names@ == old(self).base_names@,
            final(self).names@ == old(self).names@,
            final(self).exports@ == old(self).exports@,
            final(self).prelude_exports@ == old(self).prelude_exports@,
            forall|m: int|
                0 <= m < old(self).modules@.len() ==> (#[trigger] final(self).own@[m])@ == with_own(
                    old(self).own@[m]@,
                    old(self).modules@[m].bindings@,
                    old(self).modules@[m].prefix@,
                ),
    {
        let mut m: usize = 0;
        while m < self.modules.len()
            invariant
                self.wf(),
                self.own_sound(),
                self.grown_from(*old(self)),
                self.modules@ == old(self).modules@,
                self.prelude_set@ == old(self).prelude_set@,
                self.base_names@ == old(self).base_names@,
                self.names@ == old(self).names@,
                self.exports@ == old(self).exports@,
                self.prelude_exports@ == old(self).prelude_exports@,
                self.own@.len() == old(self).own@.len(),
                forall|n: int|
                    0 <= n < m ==> (#[trigger] self.own@[n])@ == with_own(
                        old(self).own@[n]@,
                        old(self).modules@[n].bindings@,
                        old(self).modules@[n].prefix@,
                    ),
                forall|n: int| m <= n < self.own@.len() ==> #[trigger] self.own@[n] == old(self).own@[n],
            decreases self.modules@.len() - m,
        {
            let mut map = self.own[m].clone_map();
            let ghost module = self.modules@[m as int];
            let ghost start = self.own@[m as int]@;
            proof {
                assert(with_own(start, module.bindings@.take(0), module.prefix@) =~= start);
            }
            let mut i: usize = 0;
            while i < self.modules[m].bindings.len()
                invariant
                    map.wf(),
                    m < self.modules@.len(),
                    module == self.modules@[m as int],
                    i <= module.bindings@.len(),
                    map@ == with_own(start, module.bindings@.take(i as int), module.prefix@),
                    forall|k: Seq<char>|
                        #[trigger] map@.contains_key(k) ==> map@[k] == module.prefix@ + k && exists|j: int|
                            0 <= j < module.bindings@.len() && (#[trigger] module.bindings@[j]).name@ == k,
                decreases self.modules@[m as int].bindings@.len() - i,
            {
                let name = self.modules[m].bindings[i].name.clone();
                let canonical = concat(&self.modules[m].prefix, name.as_str());
                proof {
                    assert(module.bindings@[i as int].name@ == name@);
                }
                map.insert(name, canonical);
                proof {
                    let t1 = module.bindings@.take(i + 1);
                    let t0 = module.bindings@.take(i as int);
                    assert forall|k: Seq<char>| names_of(t1).contains(k) <==> (names_of(t0).contains(k) || k == name@) by {
                        if names_of(t1).contains(k) {
                            let j = choose|j: int| 0 <= j < t1.len() && (#[trigger] t1[j]).name@ == k;
                            if j < i {
                                assert(t0[j] == t1[j]);
                            }
                        }
                        if names_of(t0).contains(k) {
                            let j = choose|j: int| 0 <= j < t0.len() && (#[trigger] t0[j]).name@ == k;
                            assert(t1[j] == t0[j]);
                        }
                        if k == name@ {
                            assert(t1[i as int].name@ == k);
                        }
                    }
                    assert(map@ =~= with_own(start, t1, module.prefix@));
                }
                i = i + 1;
            }
            proof {
                assert(module.bindings@.take(module.bindings@.len() as int) =~= module.bindings@);
            }
            self.own.set(m, map);
            m = m + 1;
        }
    }
}

impl<'s, S: ModuleSource> Resolver<'s, S> {
    /// Resolves the paths of every import and export, and the prelude names each module sees.
    fn resolve_specs(&mut self) -> (r: Result<(), Diagnostics>)
        requires
            old(self).wf(),
            old(self).tables_within(),
            old(self).own_sound(),
        ensures
            final(self).wf(),
            final(self).grown_from(*old(self)),
            final(self).tables_within(),
            final(self).own_sound(),
            final(self).prelude_set@ == old(self).prelude_set@,
            r is Ok ==> final(self).bases_ok(old(self).modules@.len() as int),
            (forall|m: int| 0 <= m < old(self).modules@.len() ==> #[trigger] old(self).specs_local(m)) ==> r is Ok,
    {
        let ghost h = forall|m: int| 0 <= m < old(self).modules@.len() ==> #[trigger] old(self).specs_local(m);
        let n = self.modules.len();
        let mut index: usize = 0;
        while index < n
            invariant
                self.bases_ok(index as int),
                self.wf(),
                self.grown_from(*old(self)),
                self.tables_within(),
                self.own_sound(),
                self.prelude_set@ == old(self).prelude_set@,
                n <= self.modules@.len(),
                n == old(self).modules@.len(),
                index <= n,
                h == (forall|m: int| 0 <= m < old(self).modules@.len() ==> #[trigger] old(self).specs_local(m)),
                forall|m: int| 0 <= m < n ==> #[trigger] self.modules@[m] == old(self).modules@[m],
            decreases n - index,
        {
            proof {
                if h {
                    assert(old(self).specs_local(index as int));
                }
            }
            let mut resolved_imports: Vec<ResolvedImport> = Vec::new();
            let mut module_aliases: Vec<(String, usize)> = Vec::new();
            let mut prelude_imports: Vec<(String, String)> = Vec::new();
            let mut prelude_exports: Vec<(String, String)> = Vec::new();
            let mut i: usize = 0;
            while i < self.modules[index].imports.len()
                invariant
                    h ==> old(self).specs_local(index as int),
                    h == (forall|m: int| 0 <= m < old(self).modules@.len() ==> #[trigger] old(self).specs_local(m)),
                    n == old(self).modules@.len(),
                    forall|m: int| 0 <= m < n ==> #[trigger] self.modules@[m] == old(self).modules@[m],
                    self.bases_ok(index as int),
                    self.wf(),
                    self.grown_from(*old(self)),
                    self.tables_within(),
                    self.own_sound(),
                    self.prelude_set@ == old(self).prelude_set@,
                    forall|j: int|
                        0 <= j < prelude_imports@.len() ==> name_set(self.prelude_set@).contains(
                            (#[trigger] prelude_imports@[j]).1@,
                        ),
                    forall|j: int|
                        0 <= j < prelude_exports@.len() ==> name_set(self.prelude_set@).contains(
                            (#[trigger] prelude_exports@[j]).1@,
                        ),
                    index < n <= self.modules@.len(),
                    forall|j: int|
                        0 <= j < resolved_imports@.len() ==> import_target(
                            #[trigger] resolved_imports@[j],
                        ) < self.modules@.len(),
                    forall|j: int|
                        0 <= j < module_aliases@.len() ==> (#[trigger] module_aliases@[j]).1
                            < self.modules@.len(),
                decreases old(self).modules@[index as int].imports@.len() - i,
            {
                proof {
                    assert(self.modules@[index as int] == old(self).modules@[index as int]);
                }
                if is_prelude_path(&self.modules[index].imports[i].path) {
                    let found = self.resolve_prelude_import(&self.modules[index].imports[i])?;
                    let mut k: usize = 0;
                    while k < found.len()
                        invariant
                            self.bases_ok(index as int),
                            forall|j: int|
                                0 <= j < found@.len() ==> name_set(self.prelude_set@).contains(
                                    (#[trigger] found@[j]).1@,
                                ),
                            forall|j: int|
                                0 <= j < prelude_imports@.len() ==> name_set(self.prelude_set@).contains(
                                    (#[trigger] prelude_imports@[j]).1@,
                                ),
                        decreases found@.len() - k,
                    {
                        prelude_imports.push((found[k].0.clone(), found[k].1.clone()));
                        k = k + 1;
                    }
                } else {
                    let path = self.modules[index].imports[i].path.clone();
                    let ghost mid = *self;
                    let target = self.resolve_module_path(index, &path);
                    proof {
                        self.lemma_keeps_within(mid);
                    }
                    let target = target?;
                    let import = &self.modules[index].imports[i];
                    match &import.target {
                        ImportTarget::Module => {
                            let alias = match &import.alias {
                                Some(node) => node.kind.clone(),
                                None => {
                                    if import.path.segments.len() == 0 {
                                        return Err(
                                            error(
                                                lit("import path has no module segment"),
                                                import.span,
                                            ),
                                        );
                                    }
                                    import.path.segments[import.path.segments.len() - 1].kind.clone()
                                },
                            };
                            module_aliases.push((alias, target));
                        },
                        ImportTarget::Glob => {
                            resolved_imports.push(ResolvedImport::Glob { target });
                        },
                        ImportTarget::Items(items) => {
                            resolved_imports.push(ResolvedImport::Items { target, items: items.clone() });
                        },
                    }
                }
                i = i + 1;
            }
            let mut resolved_exports: Vec<ResolvedExport> = Vec::new();
            let mut e: usize = 0;
            while e < self.modules[index].exports_ast.len()
                invariant
                    h ==> old(self).specs_local(index as int),
                    h == (forall|m: int| 0 <= m < old(self).modules@.len() ==> #[trigger] old(self).specs_local(m)),
                    n == old(self).modules@.len(),
                    forall|m: int| 0 <= m < n ==> #[trigger] self.modules@[m] == old(self).modules@[m],
                    self.bases_ok(index as int),
                    self.wf(),
                    self.grown_from(*old(self)),
                    self.tables_within(),
                    self.own_sound(),
                    self.prelude_set@ == old(self).prelude_set@,
                    forall|j: int|
                        0 <= j < prelude_imports@.len() ==> name_set(self.prelude_set@).contains(
                            (#[trigger] prelude_imports@[j]).1@,
                        ),
                    forall|j: int|
                        0 <= j < prelude_exports@.len() ==> name_set(self.prelude_set@).contains(
                            (#[trigger] prelude_exports@[j]).1@,
                        ),
                    index < n <= self.modules@.len(),
                    forall|j: int|
                        0 <= j < resolved_imports@.len() ==> import_target(
                            #[trigger] resolved_imports@[j],
                        ) < self.modules@.len(),
                    forall|j: int|
                        0 <= j < module_aliases@.len() ==> (#[trigger] module_aliases@[j]).1
                            < self.modules@.len(),
                    forall|j: int|
                        0 <= j < resolved_exports@.len() ==> export_target_ok(
                            #[trigger] resolved_exports@[j],
                            self.modules@.len() as int,
                        ),
                decreases old(self).modules@[index as int].exports_ast@.len() - e,
            {
                proof {
                    assert(self.modules@[index as int] == old(self).modules@[index as int]);
                }
                let ghost ex = old(self).modules@[index as int].exports_ast@[e as int];
                proof {
                    if h {
                        assert(prelude_export_ok(old(self).prelude_set@, ex));
                    }
                }
                match &self.modules[index].exports_ast[e].item {
                    ExportItem::Local(items) => {
                        resolved_exports.push(ResolvedExport::Local(items.clone()));
                    },
                    ExportItem::LocalGlob => {
                        resolved_exports.push(ResolvedExport::LocalGlob);
                    },
                    ExportItem::FromGlob(path) => {
                        if is_prelude_path(path) {
                            let prefix = prelude_prefix(path);
                            let found = self.prelude_glob(&prefix);
                            let mut k: usize = 0;
                            while k < found.len()
                                invariant
                                    self.bases_ok(index as int),
                                    forall|j: int|
                                        0 <= j < found@.len() ==> name_set(self.prelude_set@).contains(
                                            (#[trigger] found@[j]).1@,
                                        ),
                                    forall|j: int|
                                        0 <= j < prelude_exports@.len() ==> name_set(self.prelude_set@).contains(
                                            (#[trigger] prelude_exports@[j]).1@,
                                        ),
                                decreases found@.len() - k,
                            {
                                prelude_exports.push((found[k].0.clone(), found[k].1.clone()));
                                k = k + 1;
                            }
                        } else {
                            let p = path.clone();
                            let ghost mid = *self;
                            let target = self.resolve_module_path(index, &p);
                            proof {
                                self.lemma_keeps_within(mid);
                            }
                            let target = target?;
                            resolved_exports.push(ResolvedExport::FromGlob { target });
                        }
                    },
                    ExportItem::FromItems(path, items) => {
                        if is_prelude_path(path) {
                            let prefix = prelude_prefix(path);
                            let mut k: usize = 0;
                            while k < items.len()
                                invariant
                                    self.bases_ok(index as int),
                                    h ==> old(self).specs_local(index as int),
                                    h == (forall|m: int| 0 <= m < old(self).modules@.len() ==> #[trigger] old(self).specs_local(m)),
                                    n == old(self).modules@.len(),
                                    forall|m: int| 0 <= m < n ==> #[trigger] self.modules@[m] == old(self).modules@[m],
                                    index < n,
                                    ex.item == ExportItem::FromItems(*path, *items),
                                    h ==> prelude_export_ok(old(self).prelude_set@, ex),
                                    prefix@ == joined_segments(segment_names(*path)),
                                    self.wf(),
                                    self.grown_from(*old(self)),
                                    self.tables_within(),
                                    self.own_sound(),
                                    self.prelude_set@ == old(self).prelude_set@,
                                    forall|j: int|
                                        0 <= j < prelude_exports@.len() ==> name_set(self.prelude_set@).contains(
                                            (#[trigger] prelude_exports@[j]).1@,
                                        ),
                                decreases items@.len() - k,
                            {
                                let rp = self.prelude_item(&prefix, &items[k]);
                                let pair = match rp {
                                    Ok(x) => x,
                                    Err(d) => {
                                        proof {
                                            if h {
                                                assert(prelude_has(
                                                    old(self).prelude_set@,
                                                    joined_segments(segment_names(*path)) + seq![':', ':']
                                                        + items@[k as int].name.kind@,
                                                ));
                                            }
                                        }
                                        return Err(d);
                                    },
                                };
                                prelude_exports.push(pair);
                                k = k + 1;
                            }
                        } else {
                            let p = path.clone();
                            let its = items.clone();
                            let ghost mid = *self;
                            let target = self.resolve_module_path(index, &p);
                            proof {
                                self.lemma_keeps_within(mid);
                            }
                            let target = target?;
                            resolved_exports.push(ResolvedExport::FromItems { target, items: its });
                        }
                    },
                }
                e = e + 1;
            }
            let mut base_names = self.own[index].clone_map();
            proof {
                assert forall|k: Seq<char>| #[trigger] base_names@.contains_key(k) implies self.known().contains(
                    base_names@[k],
                ) by {
                    assert(self.own@[index as int]@.contains_key(k));
                }
            }
            let mut k: usize = 0;
            while k < self.prelude_set.len()
                invariant
                    self.bases_ok(index as int),
                    index < self.own@.len(),
                    forall|key: Seq<char>|
                        #[trigger] self.own@[index as int]@.contains_key(key) ==> base_names@.contains_key(key)
                            && base_names@[key] == self.own@[index as int]@[key],
                    forall|j: int| 0 <= j < k ==> base_names@.contains_key((#[trigger] self.prelude_set@[j])@),
                    base_names.wf(),
                    values_within(base_names@, self.known()),
                decreases self.prelude_set@.len() - k,
            {
                proof {
                    assert(name_set(self.prelude_set@).contains(self.prelude_set@[k as int]@));
                }
                base_names.insert_if_absent(self.prelude_set[k].clone(), self.prelude_set[k].clone());
                k = k + 1;
            }
            proof {
                assert(base_ok(self.own@[index as int]@, base_names@, self.prelude_set@));
            }
            let mut k: usize = 0;
            while k < prelude_imports.len()
                invariant
                    self.bases_ok(index as int),
                    index < self.own@.len(),
                    base_ok(self.own@[index as int]@, base_names@, self.prelude_set@),
                    base_names.wf(),
                    values_within(base_names@, self.known()),
                    forall|j: int|
                        0 <= j < prelude_imports@.len() ==> name_set(self.prelude_set@).contains(
                            (#[trigger] prelude_imports@[j]).1@,
                        ),
                decreases prelude_imports@.len() - k,
            {
                base_names.insert_if_absent(prelude_imports[k].0.clone(), prelude_imports[k].1.clone());
                k = k + 1;
            }
            self.resolved_imports.set(index, resolved_imports);
            self.resolved_exports.set(index, resolved_exports);
            self.module_aliases.set(index, module_aliases);
            self.base_names.set(index, base_names);
            self.prelude_exports.set(index, prelude_exports);
            proof {
                assert forall|m: int| 0 <= m < index + 1 implies base_ok(
                    #[trigger] self.own@[m]@,
                    self.base_names@[m]@,
                    self.prelude_set@,
                ) by {
                    if m < index {
                        assert(old(self).own@.len() >= 0);
                    }
                }
            }
            index = index + 1;
        }
        Ok(())
    }
}

type NameModel = Map<Seq<char>, Seq<char>>;

/// A module's starting names: its own bindings as they are, and every
/// prelude name.
spec fn base_ok(own: NameModel, base: NameModel, prelude: Seq<String>) -> bool {
    &&& forall|k: Seq<char>| #[trigger] own.contains_key(k) ==> base.contains_key(k) && base[k] == own[k]
    &&& forall|j: int| 0 <= j < prelude.len() ==> base.contains_key((#[trigger] prelude[j])@)
}

/// The public names that a module binds itself, with their canonical names.
spec fn own_exports(public: Seq<(String, String)>, own: NameModel) -> NameModel
    decreases public.len(),
{
    if public.len() == 0 {
        Map::empty()
    } else {
        let m = own_exports(public.drop_last(), own);
        let n = public.last().0@;
        if own.contains_key(n) {
            m.insert(n, own[n])
        } else {
            m
        }
    }
}

/// The prelude's names added to what a module sees (where it binds no such
/// name) and to what it exports.
spec fn add_prelude(ps: Seq<(String, String)>, names: NameModel, exports: NameModel) -> (NameModel, NameModel)
    decreases ps.len(),
{
    if ps.len() == 0 {
        (names, exports)
    } else {
        let (n, e) = add_prelude(ps.drop_last(), names, exports);
        let k = ps.last().0@;
        let v = ps.last().1@;
        (if n.contains_key(k) { n } else { n.insert(k, v) }, e.insert(k, v))
    }
}

/// The listed items that `from` exports, added to `names` where absent.
spec fn import_items(items: Seq<ItemSpec>, from: NameModel, names: NameModel) -> NameModel
    decreases items.len(),
{
    if items.len() == 0 {
        names
    } else {
        let n = import_items(items.drop_last(), from, names);
        let it = items.last();
        let k = local_name_of(it)@;
        if from.contains_key(it.name.kind@) && !n.contains_key(k) {
            n.insert(k, from[it.name.kind@])
        } else {
            n
        }
    }
}

/// What the imports bring into `names`, from the modules' exports `tables`.
spec fn add_imports(imps: Seq<ResolvedImport>, tables: Seq<NameModel>, names: NameModel) -> NameModel
    decreases imps.len(),
{
    if imps.len() == 0 {
        names
    } else {
        let n = add_imports(imps.drop_last(), tables, names);
        match imps.last() {
            ResolvedImport::Glob { target } => tables[target as int].union_prefer_right(n),
            ResolvedImport::Items { target, items } => import_items(items@, tables[target as int], n),
        }
    }
}

/// The listed items that `from` exports, seen (where absent) and exported again.
spec fn reexport_items(items: Seq<ItemSpec>, from: NameModel, names: NameModel, exports: NameModel) -> (
    NameModel,
    NameModel,
)
    decreases items.len(),
{
    if items.len() == 0 {
        (names, exports)
    } else {
        let (n, e) = reexport_items(items.drop_last(), from, names, exports);
        let it = items.last();
        let k = local_name_of(it)@;
        if from.contains_key(it.name.kind@) {
            let v = from[it.name.kind@];
            (if n.contains_key(k) { n } else { n.insert(k, v) }, e.insert(k, v))
        } else {
            (n, e)
        }
    }
}

/// What the exports from other modules add to the names seen and exported.
spec fn add_reexports(rs: Seq<ResolvedExport>, tables: Seq<NameModel>, names: NameModel, exports: NameModel) -> (
    NameModel,
    NameModel,
)
    decreases rs.len(),
{
    if rs.len() == 0 {
        (names, exports)
    } else {
        let (n, e) = add_reexports(rs.drop_last(), tables, names, exports);
        match rs.last() {
            ResolvedExport::FromGlob { target } => (
                tables[target as int].union_prefer_right(n),
                e.union_prefer_right(tables[target as int]),
            ),
            ResolvedExport::FromItems { target, items } => reexport_items(items@, tables[target as int], n, e),
            _ => (n, e),
        }
    }
}

/// The listed names that the module sees, exported.
spec fn local_items(items: Seq<ItemSpec>, names: NameModel, exports: NameModel) -> NameModel
    decreases items.len(),
{
    if items.len() == 0 {
        exports
    } else {
        let e = local_items(items.drop_last(), names, exports);
        let it = items.last();
        if names.contains_key(it.name.kind@) {
            e.insert(local_name_of(it)@, names[it.name.kind@])
        } else {
            e
        }
    }
}

/// What the module's own export lists add to its exports.
spec fn add_local_exports(rs: Seq<ResolvedExport>, names: NameModel, exports: NameModel) -> NameModel
    decreases rs.len(),
{
    if rs.len() == 0 {
        exports
    } else {
        let e = add_local_exports(rs.drop_last(), names, exports);
        match rs.last() {
            ResolvedExport::Local(items) => local_items(items@, names, e),
            ResolvedExport::LocalGlob => e.union_prefer_right(names),
            _ => e,
        }
    }
}

proof fn lemma_own_exports_public(public: Seq<(String, String)>, own: NameModel, k: Seq<char>)
    requires
        own_exports(public, own).contains_key(k),
    ensures
        exists|j: int| 0 <= j < public.len() && (#[trigger] public[j]).0@ == k,
    decreases public.len(),
{
    if public.len() > 0 {
        if public.last().0@ == k {
            assert(public[public.len() - 1].0@ == k);
        } else {
            lemma_own_exports_public(public.drop_last(), own, k);
            let j = choose|j: int| 0 <= j < public.len() - 1 && (#[trigger] public.drop_last()[j]).0@ == k;
            assert(public[j] == public.drop_last()[j]);
        }
    }
}

/// A path that starts with the prelude.
pub open spec fn path_is_prelude(p: ModulePath) -> bool {
    p.anchor == PathAnchor::Plain && p.segments@.len() > 0 && p.segments@[0].kind@ == seq![
        'p',
        'r',
        'e',
        'l',
        'u',
        'd',
        'e',
    ]
}

/// An import from the prelude that the prelude names all provide.
pub open spec fn prelude_import_ok(prelude: Seq<String>, im: Import) -> bool {
    let prefix = joined_segments(segment_names(im.path));
    &&& path_is_prelude(im.path)
    &&& match im.target {
        ImportTarget::Items(items) => forall|k: int|
            0 <= k < items@.len() ==> name_set(prelude).contains(
                prelude_name(prefix, (#[trigger] items@[k]).name.kind@),
            ),
        ImportTarget::Glob => true,
        ImportTarget::Module => name_set(prelude).contains(prefix),
    }
}

/// An export of the module's own names, or of prelude names the prelude provides.
pub open spec fn prelude_export_ok(prelude: Seq<String>, ex: Export) -> bool {
    match ex.item {
        ExportItem::Local(_) => true,
        ExportItem::LocalGlob => true,
        ExportItem::FromGlob(p) => path_is_prelude(p),
        ExportItem::FromItems(p, items) => path_is_prelude(p) && forall|k: int|
            0 <= k < items@.len() ==> prelude_has(
                prelude,
                joined_segments(segment_names(p)) + seq![':', ':'] + (#[trigger] items@[k]).name.kind@,
            ),
    }
}

/// The prelude provides `name`.
pub open spec fn prelude_has(prelude: Seq<String>, name: Seq<char>) -> bool {
    exists|i: int| 0 <= i < prelude.len() && (#[trigger] prelude[i])@ == name
}

impl<'s, S: ModuleSource> Resolver<'s, S> {
    /// Module `m` imports only from the prelude, and exports only its own
    /// names or prelude names, each of which the prelude provides: nothing
    /// it asks for needs another module.
    pub closed spec fn specs_local(&self, m: int) -> bool {
        &&& forall|j: int|
            0 <= j < self.modules@[m].imports@.len() ==> prelude_import_ok(
                self.prelude_set@,
                #[trigger] self.modules@[m].imports@[j],
            )
        &&& forall|e: int|
            0 <= e < self.modules@[m].exports_ast@.len() ==> prelude_export_ok(
                self.prelude_set@,
                #[trigger] self.modules@[m].exports_ast@[e],
            )
    }

    /// The names module `m` exports, given the exports the modules have now.
    pub closed spec fn exports_of(&self, m: int) -> Map<Seq<char>, Seq<char>> {
        self.scope_spec(m).1
    }

    /// The names module `m` declares public.
    pub closed spec fn public_names(&self, m: int) -> Set<Seq<char>> {
        self.modules@[m].public@.dom()
    }

    /// Module `m` has no export list and takes nothing from the prelude to export.
    pub closed spec fn exports_own_only(&self, m: int) -> bool {
        &&& self.resolved_exports@[m]@.len() == 0
        &&& self.prelude_exports@[m]@.len() == 0
    }

    /// A module without export lists exports only the bindings it declares
    /// public: a name it binds without `public` is not among its exports,
    /// so an import that asks for it is refused (`validate`).
    pub proof fn law_only_public_names_are_exported(&self, m: int, name: Seq<char>)
        requires
            self.wf(),
            0 <= m < self.module_count(),
            self.exports_own_only(m),
            self.exports_of(m).contains_key(name),
        ensures
            self.public_names(m).contains(name),
    {
        let public = self.modules@[m].public;
        let own = self.own@[m]@;
        let e1 = own_exports(public.entries_seq(), own);
        assert(self.prelude_exports@[m]@ =~= Seq::<(String, String)>::empty());
        assert(self.resolved_exports@[m]@ =~= Seq::<ResolvedExport>::empty());
        assert(add_prelude(self.prelude_exports@[m]@, self.base_names@[m]@, e1).1 == e1);
        assert(self.scope_spec(m).1 == e1);
        lemma_own_exports_public(public.entries_seq(), own, name);
        public.lemma_view();
    }

    /// The exports recorded for module `t`.
    pub closed spec fn exports_table(&self, t: int) -> Map<Seq<char>, Seq<char>> {
        self.exports@[t]@
    }

    /// The scopes have settled: every module's recorded exports are what
    /// its scope gives.
    pub closed spec fn settled(&self) -> bool {
        forall|t: int| 0 <= t < self.modules@.len() ==> #[trigger] self.exports_table(t) == self.exports_of(t)
    }

    /// How many imports of module `m` name other modules.
    pub closed spec fn import_count(&self, m: int) -> int {
        self.resolved_imports@[m]@.len() as int
    }

    /// The module and the name of the `k`-th item of the `j`-th import of
    /// module `m`, where that import lists items.
    pub closed spec fn imported_item(&self, m: int, j: int, k: int) -> Option<(int, Seq<char>)> {
        match self.resolved_imports@[m]@[j] {
            ResolvedImport::Items { target, items } => if 0 <= k < items@.len() {
                Some((target as int, items@[k].name.kind@))
            } else {
                None
            },
            _ => None,
        }
    }

    /// Once the scopes have settled and the imports are valid, a name that
    /// a module imports by name from a module without export lists is one
    /// that module declares public.
    pub proof fn law_imported_items_are_public(&self, m: int, j: int, k: int)
        requires
            self.wf(),
            self.settled(),
            self.all_valid(),
            0 <= m < self.module_count(),
            0 <= j < self.import_count(m),
            self.imported_item(m, j, k) is Some,
            self.exports_own_only(self.imported_item(m, j, k)->Some_0.0),
        ensures
            self.public_names(self.imported_item(m, j, k)->Some_0.0).contains(self.imported_item(m, j, k)->Some_0.1),
    {
        let (t, name) = self.imported_item(m, j, k)->Some_0;
        assert(self.import_ok(m, j));
        match self.resolved_imports@[m]@[j] {
            ResolvedImport::Items { target, items } => {
                assert(self.exports@[target as int]@.contains_key(items@[k].name.kind@));
                assert(t < self.modules@.len());
                assert(self.exports_table(t) == self.exports_of(t));
                self.law_only_public_names_are_exported(t, name);
            },
            _ => {},
        }
    }

    /// The modules below `upto` start from their own bindings and the prelude.
    spec fn bases_ok(&self, upto: int) -> bool {
        forall|m: int| 0 <= m < upto ==> base_ok(#[trigger] self.own@[m]@, self.base_names@[m]@, self.prelude_set@)
    }

    /// The names module `m` sees and the names it exports, given the
    /// exports that the modules have now.
    spec fn scope_spec(&self, m: int) -> (NameModel, NameModel) {
        self.scope_with(self.exports_views(), m)
    }

    /// `self` has the modules, bindings and resolved specifications of `other`.
    spec fn inputs_kept(&self, other: Self) -> bool {
        &&& self.modules == other.modules
        &&& self.own == other.own
        &&& self.base_names == other.base_names
        &&& self.prelude_exports == other.prelude_exports
        &&& self.resolved_imports == other.resolved_imports
        &&& self.resolved_exports == other.resolved_exports
    }

    /// The exports recorded for each module.
    spec fn exports_views(&self) -> Seq<NameModel> {
        self.exports@.map_values(|x: NameMap| x@)
    }

    /// The names recorded as seen by each module.
    spec fn names_views(&self) -> Seq<NameModel> {
        self.names@.map_values(|x: NameMap| x@)
    }

    /// The names module `m` sees and the names it exports, where the
    /// modules export `tables`.
    spec fn scope_with(&self, tables: Seq<NameModel>, m: int) -> (NameModel, NameModel) {
        let (n2, e2) = add_prelude(
            self.prelude_exports@[m]@,
            self.base_names@[m]@,
            own_exports(self.modules@[m].public.entries_seq(), self.own@[m]@),
        );
        let n3 = add_imports(self.resolved_imports@[m]@, tables, n2);
        let (n4, e4) = add_reexports(self.resolved_exports@[m]@, tables, n3, e2);
        (n4, add_local_exports(self.resolved_exports@[m]@, n4, e4))
    }

    /// One pass over the first `i` modules, in order, each taking the scope
    /// its imports give from the exports as they stand at its turn: the
    /// names seen, the exports, and whether anything changed.
    spec fn pass_upto(&self, names: Seq<NameModel>, tables: Seq<NameModel>, i: int) -> (
        Seq<NameModel>,
        Seq<NameModel>,
        bool,
    )
        decreases i,
    {
        if i <= 0 {
            (names, tables, false)
        } else {
            let (n1, t1, c) = self.pass_upto(names, tables, i - 1);
            let (nm, ex) = self.scope_with(t1, i - 1);
            (n1.update(i - 1, nm), t1.update(i - 1, ex), c || nm != n1[i - 1] || ex != t1[i - 1])
        }
    }

    /// Passes from `names` and `tables` reach one that changes nothing
    /// within `fuel` passes.
    spec fn settles_within(&self, names: Seq<NameModel>, tables: Seq<NameModel>, fuel: nat) -> bool
        decreases fuel,
    {
        if fuel == 0 {
            false
        } else {
            let (n1, t1, c) = self.pass_upto(names, tables, self.modules@.len() as int);
            !c || self.settles_within(n1, t1, (fuel - 1) as nat)
        }
    }
}

impl<'s, S: ModuleSource> Resolver<'s, S> {
    /// The names module `index` sees and the names it exports, from the
    /// exports the other modules have now.
    fn scope_of(&self, index: usize) -> (r: (NameMap, NameMap))
        requires
            self.wf(),
            self.tables_within(),
            index < self.modules@.len(),
        ensures
            r.0.wf(),
            r.1.wf(),
            values_within(r.0@, self.known()),
            values_within(r.1@, self.known()),
            (r.0@, r.1@) == self.scope_spec(index as int),
    {
        let ghost known = self.known();
        let mut names = self.base_names[index].clone_map();
        let mut exports = NameMap::new();
        let public = &self.modules[index].public;
        let own = &self.own[index];
        let ghost n1 = names@;
        let ghost ps = public.entries_seq();
        proof {
            assert(ps.subrange(0, 0) =~= Seq::<(String, String)>::empty());
        }
        let mut i: usize = 0;
        while i < public.len()
            invariant
                names.wf(),
                values_within(names@, known),
                exports.wf(),
                values_within(exports@, known),
                public.wf(),
                own.wf(),
                known == self.known(),
                index < self.own@.len(),
                *own == self.own@[index as int],
                ps == public.entries_seq(),
                i <= ps.len(),
                names@ == n1,
                exports@ == own_exports(ps.subrange(0, i as int), own@),
            decreases public.entries_seq().len() - i,
        {
            let (name, _) = public.entry(i);
            proof {
                assert(ps.subrange(0, i + 1).drop_last() =~= ps.subrange(0, i as int));
            }
            match own.get(name) {
                Some(canonical) => {
                    proof {
                        assert(self.own@[index as int]@.contains_key(name@));
                    }
                    exports.insert(name.clone(), canonical.clone());
                },
                None => {},
            }
            i = i + 1;
        }
        proof {
            assert(ps.subrange(0, ps.len() as int) =~= ps);
        }
        let ghost e1 = exports@;
        let prelude_exports = &self.prelude_exports[index];
        let mut i: usize = 0;
        proof {
            assert(prelude_exports@.subrange(0, 0) =~= Seq::<(String, String)>::empty());
        }
        while i < prelude_exports.len()
            invariant
                names.wf(),
                values_within(names@, known),
                exports.wf(),
                values_within(exports@, known),
                self.wf(),
                self.tables_within(),
                known == self.known(),
                index < self.modules@.len(),
                *prelude_exports == self.prelude_exports@[index as int],
                i <= prelude_exports@.len(),
                (names@, exports@) == add_prelude(prelude_exports@.subrange(0, i as int), n1, e1),
            decreases prelude_exports@.len() - i,
        {
            proof {
                assert(known.contains(self.prelude_exports@[index as int]@[i as int].1@));
                assert(prelude_exports@.subrange(0, i + 1).drop_last() =~= prelude_exports@.subrange(0, i as int));
            }
            names.insert_if_absent(prelude_exports[i].0.clone(), prelude_exports[i].1.clone());
            exports.insert(prelude_exports[i].0.clone(), prelude_exports[i].1.clone());
            i = i + 1;
        }
        proof {
            assert(prelude_exports@.subrange(0, prelude_exports@.len() as int) =~= prelude_exports@);
        }
        let ghost n2 = names@;
        let ghost e2 = exports@;
        let imports = &self.resolved_imports[index];
        let mut i: usize = 0;
        proof {
            assert(imports@.subrange(0, 0) =~= Seq::<ResolvedImport>::empty());
        }
        while i < imports.len()
            invariant
                self.wf(),
                self.tables_within(),
                known == self.known(),
                index < self.modules@.len(),
                imports == self.resolved_imports@[index as int],
                names.wf(),
                values_within(names@, known),
                exports.wf(),
                values_within(exports@, known),
                i <= imports@.len(),
                names@ == add_imports(imports@.subrange(0, i as int), self.exports_views(), n2),
                exports@ == e2,
            decreases imports@.len() - i,
        {
            proof {
                assert(import_target(imports@[i as int]) < self.modules@.len());
                assert(imports@.subrange(0, i + 1).drop_last() =~= imports@.subrange(0, i as int));
            }
            match &imports[i] {
                ResolvedImport::Glob { target } => {
                    proof {
                        assert(values_within(self.exports@[*target as int]@, known));
                    }
                    names.extend_if_absent(&self.exports[*target]);
                },
                ResolvedImport::Items { target, items } => {
                    let ghost nb = names@;
                    let mut k: usize = 0;
                    proof {
                        assert(items@.subrange(0, 0) =~= Seq::<ItemSpec>::empty());
                    }
                    while k < items.len()
                        invariant
                            self.wf(),
                            self.tables_within(),
                            known == self.known(),
                            *target < self.modules@.len(),
                            names.wf(),
                            values_within(names@, known),
                            k <= items@.len(),
                            names@ == import_items(items@.subrange(0, k as int), self.exports@[*target as int]@, nb),
                        decreases items@.len() - k,
                    {
                        proof {
                            assert(items@.subrange(0, k + 1).drop_last() =~= items@.subrange(0, k as int));
                        }
                        match self.exports[*target].get(&items[k].name.kind) {
                            Some(canonical) => {
                                proof {
                                    assert(values_within(self.exports@[*target as int]@, known));
                                    assert(self.exports@[*target as int]@.contains_key(items@[k as int].name.kind@));
                                }
                                names.insert_if_absent(local_name(&items[k]), canonical.clone());
                            },
                            None => {},
                        }
                        k = k + 1;
                    }
                    proof {
                        assert(items@.subrange(0, items@.len() as int) =~= items@);
                    }
                },
            }
            i = i + 1;
        }
        proof {
            assert(imports@.subrange(0, imports@.len() as int) =~= imports@);
        }
        let ghost n3 = names@;
        let reexports = &self.resolved_exports[index];
        let mut i: usize = 0;
        proof {
            assert(reexports@.subrange(0, 0) =~= Seq::<ResolvedExport>::empty());
        }
        while i < reexports.len()
            invariant
                self.wf(),
                self.tables_within(),
                known == self.known(),
                index < self.modules@.len(),
                reexports == self.resolved_exports@[index as int],
                names.wf(),
                values_within(names@, known),
                exports.wf(),
                values_within(exports@, known),
                i <= reexports@.len(),
                (names@, exports@) == add_reexports(reexports@.subrange(0, i as int), self.exports_views(), n3, e2),
            decreases reexports@.len() - i,
        {
            proof {
                assert(export_target_ok(reexports@[i as int], self.modules@.len() as int));
                assert(reexports@.subrange(0, i + 1).drop_last() =~= reexports@.subrange(0, i as int));
            }
            match &reexports[i] {
                ResolvedExport::FromGlob { target } => {
                    proof {
                        assert(values_within(self.exports@[*target as int]@, known));
                    }
                    names.extend_if_absent(&self.exports[*target]);
                    exports.extend_overwrite(&self.exports[*target]);
                },
                ResolvedExport::FromItems { target, items } => {
                    let ghost nb = names@;
                    let ghost eb = exports@;
                    let mut k: usize = 0;
                    proof {
                        assert(items@.subrange(0, 0) =~= Seq::<ItemSpec>::empty());
                    }
                    while k < items.len()
                        invariant
                            self.wf(),
                            self.tables_within(),
                            known == self.known(),
                            *target < self.modules@.len(),
                            names.wf(),
                            values_within(names@, known),
                            exports.wf(),
                            values_within(exports@, known),
                            k <= items@.len(),
                            (names@, exports@) == reexport_items(
                                items@.subrange(0, k as int),
                                self.exports@[*target as int]@,
                                nb,
                                eb,
                            ),
                        decreases items@.len() - k,
                    {
                        proof {
                            assert(items@.subrange(0, k + 1).drop_last() =~= items@.subrange(0, k as int));
                        }
                        match self.exports[*target].get(&items[k].name.kind) {
                            Some(canonical) => {
                                proof {
                                    assert(values_within(self.exports@[*target as int]@, known));
                                    assert(self.exports@[*target as int]@.contains_key(items@[k as int].name.kind@));
                                }
                                let key = local_name(&items[k]);
                                names.insert_if_absent(key.clone(), canonical.clone());
                                exports.insert(key, canonical.clone());
                            },
                            None => {},
                        }
                        k = k + 1;
                    }
                    proof {
                        assert(items@.subrange(0, items@.len() as int) =~= items@);
                    }
                },
                _ => {},
            }
            i = i + 1;
        }
        proof {
            assert(reexports@.subrange(0, reexports@.len() as int) =~= reexports@);
        }
        let ghost n4 = names@;
        let ghost e4 = exports@;
        let mut i: usize = 0;
        proof {
            assert(reexports@.subrange(0, 0) =~= Seq::<ResolvedExport>::empty());
        }
        while i < reexports.len()
            invariant
                names.wf(),
                values_within(names@, known),
                exports.wf(),
                values_within(exports@, known),
                i <= reexports@.len(),
                names@ == n4,
                exports@ == add_local_exports(reexports@.subrange(0, i as int), n4, e4),
            decreases reexports@.len() - i,
        {
            proof {
                assert(reexports@.subrange(0, i + 1).drop_last() =~= reexports@.subrange(0, i as int));
            }
            match &reexports[i] {
                ResolvedExport::Local(items) => {
                    let ghost eb = exports@;
                    let mut k: usize = 0;
                    proof {
                        assert(items@.subrange(0, 0) =~= Seq::<ItemSpec>::empty());
                    }
                    while k < items.len()
                        invariant
                            names.wf(),
                            values_within(names@, known),
                            exports.wf(),
                            values_within(exports@, known),
                            names@ == n4,
                            k <= items@.len(),
                            exports@ == local_items(items@.subrange(0, k as int), n4, eb),
                        decreases items@.len() - k,
                    {
                        proof {
                            assert(items@.subrange(0, k + 1).drop_last() =~= items@.subrange(0, k as int));
                        }
                        match names.get(&items[k].name.kind) {
                            Some(canonical) => {
                                proof {
                                    assert(names@.contains_key(items@[k as int].name.kind@));
                                }
                                exports.insert(local_name(&items[k]), canonical.clone());
                            },
                            None => {},
                        }
                        k = k + 1;
                    }
                    proof {
                        assert(items@.subrange(0, items@.len() as int) =~= items@);
                    }
                },
                ResolvedExport::LocalGlob => {
                    exports.extend_overwrite(&names);
                },
                _ => {},
            }
            i = i + 1;
        }
        proof {
            assert(reexports@.subrange(0, reexports@.len() as int) =~= reexports@);
        }
        (names, exports)
    }

    /// Recomputes every module's scope until nothing changes.
    fn compute_scopes(&mut self) -> (r: Result<(), Diagnostics>)
        requires
            old(self).wf(),
            old(self).tables_within(),
            old(self).own_sound(),
        ensures
            final(self).wf(),
            final(self).grown_from(*old(self)),
            final(self).tables_within(),
            final(self).own_sound(),
            final(self).prelude_set@ == old(self).prelude_set@,
            final(self).own@ == old(self).own@,
            final(self).modules@ == old(self).modules@,
            r is Ok ==> forall|m: int|
                0 <= m < final(self).modules@.len() ==> #[trigger] final(self).scope_spec(m) == (
                    final(self).names@[m]@,
                    final(self).exports@[m]@,
                ),
            r is Ok ==> final(self).settled(),
            r is Ok <==> old(self).settles_within(old(self).names_views(), old(self).exports_views(), usize::MAX as nat),
    {
        let mut fuel: usize = usize::MAX;
        loop
            invariant
                self.wf(),
                self.grown_from(*old(self)),
                self.tables_within(),
                self.own_sound(),
                self.prelude_set@ == old(self).prelude_set@,
                self.own@ == old(self).own@,
                self.modules@ == old(self).modules@,
                self.inputs_kept(*old(self)),
                old(self).settles_within(old(self).names_views(), old(self).exports_views(), usize::MAX as nat)
                    == old(self).settles_within(self.names_views(), self.exports_views(), fuel as nat),
            decreases fuel,
        {
            if fuel == 0 {
                return Err(error(lit("module scopes do not settle"), Span::zero()));
            }
            let ghost fuel0 = fuel;
            fuel = fuel - 1;
            let mut changed = false;
            let mut index: usize = 0;
            let ghost start = *self;
            while index < self.modules.len()
                invariant
                    self.wf(),
                    self.grown_from(*old(self)),
                    self.tables_within(),
                    self.own_sound(),
                    self.prelude_set@ == old(self).prelude_set@,
                    self.own@ == old(self).own@,
                    self.modules@ == old(self).modules@,
                    self.inputs_kept(*old(self)),
                    start.inputs_kept(*old(self)),
                    (self.names_views(), self.exports_views(), changed) == old(self).pass_upto(
                        start.names_views(),
                        start.exports_views(),
                        index as int,
                    ),
                    index <= self.modules@.len(),
                    !changed ==> *self == start,
                    !changed ==> forall|j: int|
                        0 <= j < index ==> #[trigger] self.scope_spec(j) == (self.names@[j]@, self.exports@[j]@),
                decreases self.modules@.len() - index,
            {
                let ghost nv = self.names_views();
                let ghost ev = self.exports_views();
                let (names, exports) = self.scope_of(index);
                proof {
                    assert(self.scope_with(ev, index as int) == old(self).scope_with(ev, index as int));
                }
                if !names.same_as(&self.names[index]) {
                    self.names.set(index, names);
                    changed = true;
                }
                if !exports.same_as(&self.exports[index]) {
                    self.exports.set(index, exports);
                    changed = true;
                }
                proof {
                    assert(self.names_views() =~= nv.update(index as int, names@));
                    assert(self.exports_views() =~= ev.update(index as int, exports@));
                }
                index = index + 1;
            }
            proof {
                assert(old(self).settles_within(start.names_views(), start.exports_views(), fuel0 as nat) == (!changed
                    || old(self).settles_within(self.names_views(), self.exports_views(), fuel as nat)));
            }
            if !changed {
                proof {
                    assert forall|t: int| 0 <= t < self.modules@.len() implies #[trigger] self.exports_table(t)
                        == self.exports_of(t) by {
                        assert(self.scope_spec(t) == (self.names@[t]@, self.exports@[t]@));
                    }
                }
                return Ok(());
            }
        }
    }
}

impl<'s, S: ModuleSource> Resolver<'s, S> {
    /// The `j`-th import of module `m` takes only items that its module exports.
    pub closed spec fn import_ok(&self, m: int, j: int) -> bool {
        match self.resolved_imports@[m]@[j] {
            ResolvedImport::Items { target, items } => forall|k: int|
                0 <= k < items@.len() ==> self.exports@[target as int]@.contains_key((#[trigger] items@[k]).name.kind@),
            _ => true,
        }
    }

    /// The `j`-th export of module `m` names only bound or exported items.
    pub closed spec fn export_ok(&self, m: int, j: int) -> bool {
        match self.resolved_exports@[m]@[j] {
            ResolvedExport::Local(items) => forall|k: int|
                0 <= k < items@.len() ==> self.names@[m]@.contains_key((#[trigger] items@[k]).name.kind@),
            ResolvedExport::FromItems { target, items } => forall|k: int|
                0 <= k < items@.len() ==> self.exports@[target as int]@.contains_key((#[trigger] items@[k]).name.kind@),
            _ => true,
        }
    }

    /// Every import and export of every module is valid.
    pub closed spec fn all_valid(&self) -> bool {
        &&& forall|m: int, j: int|
            0 <= m < self.modules@.len() && 0 <= j < self.resolved_imports@[m]@.len() ==> #[trigger] self.import_ok(m, j)
        &&& forall|m: int, j: int|
            0 <= m < self.modules@.len() && 0 <= j < self.resolved_exports@[m]@.len() ==> #[trigger] self.export_ok(m, j)
    }

    /// Every imported item must be exported by its module; every exported item must be bound.
    fn validate(&self) -> (r: Result<(), Diagnostics>)
        requires
            self.wf(),
        ensures
            r is Ok <==> self.all_valid(),
    {
        let mut m: usize = 0;
        while m < self.modules.len()
            invariant
                self.wf(),
                forall|n: int, j: int|
                    0 <= n < m && 0 <= j < self.resolved_imports@[n]@.len() ==> #[trigger] self.import_ok(n, j),
                forall|n: int, j: int|
                    0 <= n < m && 0 <= j < self.resolved_exports@[n]@.len() ==> #[trigger] self.export_ok(n, j),
            decreases self.modules@.len() - m,
        {
            let imports = &self.resolved_imports[m];
            let mut i: usize = 0;
            while i < imports.len()
                invariant
                    self.wf(),
                    m < self.modules@.len(),
                    imports == self.resolved_imports@[m as int],
                    forall|n: int, j: int|
                        0 <= n < m && 0 <= j < self.resolved_imports@[n]@.len() ==> #[trigger] self.import_ok(n, j),
                    forall|n: int, j: int|
                        0 <= n < m && 0 <= j < self.resolved_exports@[n]@.len() ==> #[trigger] self.export_ok(n, j),
                    forall|j: int| 0 <= j < i ==> #[trigger] self.import_ok(m as int, j),
                decreases imports@.len() - i,
            {
                proof {
                    assert(import_target(imports@[i as int]) < self.modules@.len());
                }
                match &imports[i] {
                    ResolvedImport::Items { target, items } => {
                        let mut k: usize = 0;
                        while k < items.len()
                            invariant
                                self.wf(),
                                *target < self.modules@.len(),
                                m < self.modules@.len(),
                                i < self.resolved_imports@[m as int]@.len(),
                                self.resolved_imports@[m as int]@[i as int] == (ResolvedImport::Items { target: *target, items: *items }),
                                forall|q: int| 0 <= q < k ==> self.exports@[*target as int]@.contains_key((#[trigger] items@[q]).name.kind@),
                            decreases items@.len() - k,
                        {
                            if !self.exports[*target].contains_key(&items[k].name.kind) {
                                proof {
                                    assert(!self.import_ok(m as int, i as int));
                                }
                                let msg = concat(
                                    &concat(&lit("'"), items[k].name.kind.as_str()),
                                    "' is not exported by the imported module",
                                );
                                return Err(error(msg, items[k].name.span));
                            }
                            k = k + 1;
                        }
                        proof {
                            assert(self.import_ok(m as int, i as int));
                        }
                    },
                    _ => {
                        proof {
                            assert(self.import_ok(m as int, i as int));
                        }
                    },
                }
                i = i + 1;
            }
            let exports = &self.resolved_exports[m];
            let mut i: usize = 0;
            while i < exports.len()
                invariant
                    self.wf(),
                    m < self.modules@.len(),
                    exports == self.resolved_exports@[m as int],
                    forall|n: int, j: int|
                        0 <= n <= m && 0 <= j < self.resolved_imports@[n]@.len() ==> #[trigger] self.import_ok(n, j),
                    forall|n: int, j: int|
                        0 <= n < m && 0 <= j < self.resolved_exports@[n]@.len() ==> #[trigger] self.export_ok(n, j),
                    forall|j: int| 0 <= j < i ==> #[trigger] self.export_ok(m as int, j),
                decreases exports@.len() - i,
            {
                proof {
                    assert(export_target_ok(exports@[i as int], self.modules@.len() as int));
                }
                match &exports[i] {
                    ResolvedExport::Local(items) => {
                        let mut k: usize = 0;
                        while k < items.len()
                            invariant
                                self.wf(),
                                m < self.modules@.len(),
                                i < self.resolved_exports@[m as int]@.len(),
                                self.resolved_exports@[m as int]@[i as int] == ResolvedExport::Local(*items),
                                forall|q: int| 0 <= q < k ==> self.names@[m as int]@.contains_key((#[trigger] items@[q]).name.kind@),
                            decreases items@.len() - k,
                        {
                            if !self.names[m].contains_key(&items[k].name.kind) {
                                proof {
                                    assert(!self.export_ok(m as int, i as int));
                                }
                                let msg = concat(
                                    &concat(&lit("export of unresolved name '"), items[k].name.kind.as_str()),
                                    "'",
                                );
                                return Err(error(msg, items[k].name.span));
                            }
                            k = k + 1;
                        }
                        proof {
                            assert(self.export_ok(m as int, i as int));
                        }
                    },
                    ResolvedExport::FromItems { target, items } => {
                        let mut k: usize = 0;
                        while k < items.len()
                            invariant
                                self.wf(),
                                *target < self.modules@.len(),
                                m < self.modules@.len(),
                                i < self.resolved_exports@[m as int]@.len(),
                                self.resolved_exports@[m as int]@[i as int] == (ResolvedExport::FromItems { target: *target, items: *items }),
                                forall|q: int| 0 <= q < k ==> self.exports@[*target as int]@.contains_key((#[trigger] items@[q]).name.kind@),
                            decreases items@.len() - k,
                        {
                            if !self.exports[*target].contains_key(&items[k].name.kind) {
                                proof {
                                    assert(!self.export_ok(m as int, i as int));
                                }
                                let msg = concat(
                                    &concat(&lit("re-export of '"), items[k].name.kind.as_str()),
                                    "' which is not exported",
                                );
                                return Err(error(msg, items[k].name.span));
                            }
                            k = k + 1;
                        }
                        proof {
                            assert(self.export_ok(m as int, i as int));
                        }
                    },
                    _ => {
                        proof {
                            assert(self.export_ok(m as int, i as int));
                        }
                    },
                }
                i = i + 1;
            }
            m = m + 1;
        }
        Ok(())
    }

    /// The canonical name that `name` refers to in module `module`: through
    /// a module alias for `alias::rest`, else by the module's scope.
    pub closed spec fn ref_target(&self, module: int, name: Seq<char>) -> Option<Seq<char>> {
        let by_scope = if self.names@[module]@.contains_key(name) {
            Some(self.names@[module]@[name])
        } else {
            None
        };
        match double_colon_from(name, 0) {
            Some(i) => match alias_target(self.module_aliases@[module]@, name.subrange(0, i)) {
                Some(t) => {
                    let rest = name.subrange(i + 2, name.len() as int);
                    if self.exports@[t as int]@.contains_key(rest) {
                        Some(self.exports@[t as int]@[rest])
                    } else {
                        None
                    }
                },
                None => by_scope,
            },
            None => by_scope,
        }
    }

    /// Every variable of `v` not bound (by `bound` or an enclosing function,
    /// and unqualified) refers to a canonical name in module `module`.
    pub closed spec fn refs_resolve(&self, module: int, v: DesugarValue, bound: Set<Seq<char>>) -> bool
        decreases v,
    {
        match v.kind {
            DesugarValueKind::Variable { name } => (double_colon_from(name@, 0) is None && bound.contains(name@))
                || self.ref_target(module, name@) is Some,
            DesugarValueKind::Function { param, body } => self.refs_resolve(module, *body, bound.insert(param.name@)),
            DesugarValueKind::FunctionCall { callee, arg } => self.refs_resolve(module, *callee, bound)
                && self.refs_resolve(module, *arg, bound),
            _ => true,
        }
    }

    /// The references of `b`, and of its scheme, which sees all of its names, resolve.
    pub closed spec fn binding_resolves(&self, module: int, b: DesugarBinding, bound: Set<Seq<char>>) -> bool
        decreases b,
    {
        let inner = bound.union(names_of(b.scheme@));
        &&& forall|i: int| 0 <= i < b.scheme@.len() ==> self.binding_resolves(module, #[trigger] b.scheme@[i], inner)
        &&& self.refs_resolve(module, *b.value, inner)
    }

    /// The canonical name that `name` refers to in module `module`.
    fn resolve_ref(&self, module: usize, name: &String, span: Span) -> (r: Result<String, Diagnostics>)
        requires
            self.wf(),
            self.tables_within(),
            module < self.modules@.len(),
        ensures
            r matches Ok(c) ==> self.known().contains(c@),
            match self.ref_target(module as int, name@) {
                Some(c) => r matches Ok(x) && x@ == c,
                None => r is Err,
            },
    {
        match split_once(name) {
            Some((head, rest)) => {
                match find_alias(&self.module_aliases[module], &head) {
                    Some(target) => {
                        proof {
                            let j = choose|j: int|
                                0 <= j < self.module_aliases@[module as int]@.len()
                                    && (#[trigger] self.module_aliases@[module as int]@[j]).1 == target;
                        }
                        match self.exports[target].get(&rest) {
                            Some(canonical) => {
                                proof {
                                    assert(values_within(self.exports@[target as int]@, self.known()));
                                    assert(self.exports@[target as int]@.contains_key(rest@));
                                }
                                return Ok(canonical.clone());
                            },
                            None => {
                                let msg = concat(
                                    &concat(
                                        &concat(&concat(&lit("'"), rest.as_str()), "' is not exported by module '"),
                                        head.as_str(),
                                    ),
                                    "'",
                                );
                                return Err(error(msg, span));
                            },
                        }
                    },
                    None => {},
                }
            },
            None => {},
        }
        match self.names[module].get(name) {
            Some(canonical) => {
                proof {
                    assert(values_within(self.names@[module as int]@, self.known()));
                    assert(self.names@[module as int]@.contains_key(name@));
                }
                Ok(canonical.clone())
            },
            None => {
                let msg = concat(&concat(&lit("unresolved name '"), name.as_str()), "'");
                Err(error(msg, span))
            },
        }
    }

    /// `value` with every free variable renamed to its canonical name.
    fn canonicalize_value(&self, module: usize, value: &DesugarValue, bound: &NameMap) -> (r: Result<
        DesugarValue,
        Diagnostics,
    >)
        requires
            self.wf(),
            self.tables_within(),
            module < self.modules@.len(),
            bound.wf(),
        ensures
            r matches Ok(v) ==> value_closed(v, bound@.dom(), self.known()),
            r is Ok <==> self.refs_resolve(module as int, *value, bound@.dom()),
        decreases value,
    {
        let kind = match &value.kind {
            DesugarValueKind::Variable { name } => {
                if !is_qualified(name) && bound.contains_key(name) {
                    DesugarValueKind::Variable { name: name.clone() }
                } else {
                    DesugarValueKind::Variable { name: self.resolve_ref(module, name, value.span)? }
                }
            },
            DesugarValueKind::Function { param, body } => {
                let mut inner = bound.clone_map();
                inner.insert(param.name.clone(), param.name.clone());
                let body = self.canonicalize_value(module, body, &inner)?;
                DesugarValueKind::Function {
                    param: Param { span: param.span, name: param.name.clone() },
                    body: Box::new(body),
                }
            },
            DesugarValueKind::FunctionCall { callee, arg } => {
                let callee = self.canonicalize_value(module, callee, bound)?;
                let arg = self.canonicalize_value(module, arg, bound)?;
                DesugarValueKind::FunctionCall { callee: Box::new(callee), arg: Box::new(arg) }
            },
            DesugarValueKind::String(text) => DesugarValueKind::String(text.clone()),
            DesugarValueKind::Int(n) => DesugarValueKind::Int(*n),
        };
        Ok(DesugarValue { span: value.span, kind })
    }

    fn canonicalize_binding(
        &self,
        module: usize,
        binding: &DesugarBinding,
        outer_bound: &NameMap,
        rename: bool,
    ) -> (r: Result<DesugarBinding, Diagnostics>)
        requires
            self.wf(),
            self.tables_within(),
            module < self.modules@.len(),
            outer_bound.wf(),
        ensures
            r is Ok <==> self.binding_resolves(module as int, *binding, outer_bound@.dom()),
            r matches Ok(b) ==> {
                &&& binding_closed(b, outer_bound@.dom(), self.known())
                &&& !rename ==> b.name == binding.name
                &&& rename && self.own@[module as int]@.contains_key(binding.name@) ==> b.name@
                    == self.own@[module as int]@[binding.name@]
            },
        decreases binding,
    {
        let ghost inner = outer_bound@.dom().union(names_of(binding.scheme@));
        let mut bound = outer_bound.clone_map();
        let mut i: usize = 0;
        while i < binding.scheme.len()
            invariant
                bound.wf(),
                i <= binding.scheme@.len(),
                forall|k: Seq<char>|
                    #[trigger] bound@.contains_key(k) <==> (outer_bound@.contains_key(k) || exists|j: int|
                        0 <= j < i && (#[trigger] binding.scheme@[j]).name@ == k),
            decreases binding.scheme@.len() - i,
        {
            bound.insert(binding.scheme[i].name.clone(), binding.scheme[i].name.clone());
            proof {
                assert forall|k: Seq<char>|
                    #[trigger] bound@.contains_key(k) <== (outer_bound@.contains_key(k) || exists|j: int|
                        0 <= j < i + 1 && (#[trigger] binding.scheme@[j]).name@ == k) by {
                    if !outer_bound@.contains_key(k) {
                        let j = choose|j: int| 0 <= j < i + 1 && (#[trigger] binding.scheme@[j]).name@ == k;
                        if j < i {
                        }
                    }
                }
            }
            i = i + 1;
        }
        proof {
            assert(bound@.dom() =~= inner);
        }
        let mut scheme: Vec<DesugarBinding> = Vec::new();
        let mut i: usize = 0;
        while i < binding.scheme.len()
            invariant
                self.wf(),
                self.tables_within(),
                module < self.modules@.len(),
                bound.wf(),
                bound@.dom() == inner,
                inner == outer_bound@.dom().union(names_of(binding.scheme@)),
                i <= binding.scheme@.len(),
                scheme@.len() == i,
                forall|j: int|
                    0 <= j < i ==> binding_closed(#[trigger] scheme@[j], inner, self.known())
                        && scheme@[j].name == binding.scheme@[j].name,
                forall|j: int| 0 <= j < i ==> self.binding_resolves(module as int, #[trigger] binding.scheme@[j], inner),
            decreases binding.scheme@.len() - i,
        {
            proof {
                assert(decreases_to!(binding => binding.scheme@[i as int]));
            }
            let sb = match self.canonicalize_binding(module, &binding.scheme[i], &bound, false) {
                Ok(b) => b,
                Err(e) => {
                    proof {
                        assert(!self.binding_resolves(module as int, binding.scheme@[i as int], inner));
                        assert(!(forall|j: int|
                            0 <= j < binding.scheme@.len() ==> self.binding_resolves(
                                module as int,
                                #[trigger] binding.scheme@[j],
                                inner,
                            )));
                    }
                    return Err(e);
                },
            };
            scheme.push(sb);
            i = i + 1;
        }
        let value = self.canonicalize_value(module, &binding.value, &bound)?;
        let name = if rename {
            match self.own[module].get(&binding.name) {
                Some(canonical) => canonical.clone(),
                None => binding.name.clone(),
            }
        } else {
            binding.name.clone()
        };
        let out = DesugarBinding { name, value: Box::new(value), scheme };
        proof {
            assert(names_of(out.scheme@) =~= names_of(binding.scheme@)) by {
                assert forall|s: Seq<char>| names_of(binding.scheme@).contains(s) implies names_of(
                    out.scheme@,
                ).contains(s) by {
                    let j = choose|j: int| 0 <= j < binding.scheme@.len() && (#[trigger] binding.scheme@[j]).name@ == s;
                    assert(out.scheme@[j].name == binding.scheme@[j].name);
                }
                assert forall|s: Seq<char>| names_of(out.scheme@).contains(s) implies names_of(
                    binding.scheme@,
                ).contains(s) by {
                    let j = choose|j: int| 0 <= j < out.scheme@.len() && (#[trigger] out.scheme@[j]).name@ == s;
                    assert(out.scheme@[j].name == binding.scheme@[j].name);
                }
            }
            assert(outer_bound@.dom().union(names_of(out.scheme@)) == inner);
        }
        Ok(out)
    }

    /// Whether the own binding of the `i`-th binding of module `m` is the name of a binding in `bs`.
    closed spec fn renamed_in(&self, bs: Seq<DesugarBinding>, m: int, i: int) -> bool {
        let key = self.modules@[m].bindings@[i].name@;
        self.own@[m]@.contains_key(key) ==> names_of(bs).contains(self.own@[m]@[key])
    }

    fn canonicalize_all(&self) -> (r: Result<Vec<DesugarBinding>, Diagnostics>)
        requires
            self.wf(),
            self.tables_within(),
        ensures
            r is Ok <==> forall|m: int, i: int|
                0 <= m < self.modules@.len() && 0 <= i < self.modules@[m].bindings@.len() ==> self.binding_resolves(
                    m,
                    #[trigger] self.modules@[m].bindings@[i],
                    Set::empty(),
                ),
            r matches Ok(bs) ==> {
                &&& forall|j: int| 0 <= j < bs@.len() ==> binding_closed(#[trigger] bs@[j], Set::empty(), self.known())
                &&& forall|m: int, i: int|
                    0 <= m < self.modules@.len() && 0 <= i < self.modules@[m].bindings@.len() ==> #[trigger] self.renamed_in(
                        bs@,
                        m,
                        i,
                    )
            },
    {
        let empty = NameMap::new();
        proof {
            assert(empty@.dom() =~= Set::<Seq<char>>::empty());
        }
        let mut output: Vec<DesugarBinding> = Vec::new();
        let mut m: usize = 0;
        while m < self.modules.len()
            invariant
                self.wf(),
                self.tables_within(),
                empty.wf(),
                empty@.dom() == Set::<Seq<char>>::empty(),
                m <= self.modules@.len(),
                forall|n: int, i: int|
                    0 <= n < m && 0 <= i < self.modules@[n].bindings@.len() ==> self.binding_resolves(
                        n,
                        #[trigger] self.modules@[n].bindings@[i],
                        Set::empty(),
                    ),
                forall|j: int|
                    0 <= j < output@.len() ==> binding_closed(#[trigger] output@[j], Set::empty(), self.known()),
                forall|n: int, i: int|
                    0 <= n < m && 0 <= i < self.modules@[n].bindings@.len() ==> #[trigger] self.renamed_in(
                        output@,
                        n,
                        i,
                    ),
            decreases self.modules@.len() - m,
        {
            let mut i: usize = 0;
            while i < self.modules[m].bindings.len()
                invariant
                    self.wf(),
                    self.tables_within(),
                    empty.wf(),
                    empty@.dom() == Set::<Seq<char>>::empty(),
                    m < self.modules@.len(),
                    i <= self.modules@[m as int].bindings@.len(),
                    forall|n: int, k: int|
                        ((0 <= n < m && 0 <= k < self.modules@[n].bindings@.len()) || (n == m && 0 <= k < i))
                            ==> self.binding_resolves(n, #[trigger] self.modules@[n].bindings@[k], Set::empty()),
                    forall|j: int|
                        0 <= j < output@.len() ==> binding_closed(#[trigger] output@[j], Set::empty(), self.known()),
                    forall|n: int, k: int|
                        (0 <= n < m && 0 <= k < self.modules@[n].bindings@.len()) || (n == m && 0 <= k < i)
                            ==> #[trigger] self.renamed_in(output@, n, k),
                decreases self.modules@[m as int].bindings@.len() - i,
            {
                let b = match self.canonicalize_binding(m, &self.modules[m].bindings[i], &empty, true) {
                    Ok(b) => b,
                    Err(e) => {
                        proof {
                            assert(!self.binding_resolves(m as int, self.modules@[m as int].bindings@[i as int], Set::empty()));
                        }
                        return Err(e);
                    },
                };
                let ghost before = output@;
                output.push(b);
                proof {
                    assert forall|n: int, k: int|
                        (0 <= n < m && 0 <= k < self.modules@[n].bindings@.len()) || (n == m && 0 <= k < i + 1)
                            implies #[trigger] self.renamed_in(output@, n, k) by {
                        let key = self.modules@[n].bindings@[k].name@;
                        if self.own@[n]@.contains_key(key) {
                            if n == m && k == i {
                                assert(output@[before.len() as int] == b);
                                assert(output@[before.len() as int].name@ == self.own@[n]@[key]);
                            } else {
                                assert(self.renamed_in(before, n, k));
                                let j = choose|j: int| 0 <= j < before.len() && (#[trigger] before[j]).name@ == self.own@[n]@[key];
                                assert(output@[j] == before[j]);
                            }
                        }
                    }
                }
                i = i + 1;
            }
            m = m + 1;
        }
        Ok(output)
    }
}

/// Loads the program whose entry module is `entry`, with its imports, and
/// returns all bindings under their canonical names.
///
/// `injected_externs` adds dependencies (name and package root) to every
/// package; `prelude_names` are the built-in names, visible everywhere.
pub fn resolve_program_with_source<S: ModuleSource>(
    source: &S,
    entry: &String,
    injected_externs: &Vec<(String, String)>,
    prelude_names: &Vec<String>,
) -> (r: Result<Vec<DesugarBinding>, Diagnostics>)
    ensures
        r matches Ok(bs) ==> forall|j: int|
            0 <= j < bs@.len() ==> binding_closed(
                #[trigger] bs@[j],
                Set::empty(),
                names_of(bs@).union(name_set(prelude_names@)),
            ),
{
    let mut externs = NameMap::new();
    let mut i: usize = 0;
    while i < injected_externs.len()
        invariant
            externs.wf(),
        decreases injected_externs@.len() - i,
    {
        externs.insert(injected_externs[i].0.clone(), injected_externs[i].1.clone());
        i = i + 1;
    }
    let mut prelude_set: Vec<String> = Vec::new();
    let mut i: usize = 0;
    while i < prelude_names.len()
        invariant
            i <= prelude_names@.len(),
            prelude_set@.len() == i,
            forall|j: int| 0 <= j < i ==> (#[trigger] prelude_set@[j])@ == prelude_names@[j]@,
        decreases prelude_names@.len() - i,
    {
        prelude_set.push(prelude_names[i].clone());
        i = i + 1;
    }
    proof {
        assert forall|s: Seq<char>| name_set(prelude_set@).contains(s) <==> name_set(prelude_names@).contains(s) by {
            if name_set(prelude_set@).contains(s) {
                let j = choose|j: int| 0 <= j < prelude_set@.len() && (#[trigger] prelude_set@[j])@ == s;
                assert(prelude_names@[j]@ == s);
            }
            if name_set(prelude_names@).contains(s) {
                let j = choose|j: int| 0 <= j < prelude_names@.len() && (#[trigger] prelude_names@[j])@ == s;
                assert(prelude_set@[j]@ == s);
            }
        }
        assert(name_set(prelude_set@) =~= name_set(prelude_names@));
    }
    let mut resolver = Resolver::new(source, externs, prelude_set);
    let ghost start = resolver;
    let entry_dir = match parent(entry) {
        Some(d) => d,
        None => owned("."),
    };
    let root = match resolver.find_manifest_root(&entry_dir) {
        Some(r) => r,
        None => entry_dir,
    };
    let package = resolver.ensure_package(&root)?;
    let ghost mid = resolver;
    resolver.load_module(entry.clone(), package, true)?;
    proof {
        resolver.lemma_keeps_trans(mid, start);
    }
    let ghost mid = resolver;
    resolver.load_closure()?;
    proof {
        resolver.lemma_keeps_trans(mid, start);
        resolver.lemma_fresh(start);
    }
    resolver.compute_own();
    proof {
        assert(resolver.tables_empty());
        resolver.lemma_empty_within();
    }
    resolver.resolve_specs()?;
    resolver.compute_scopes()?;
    resolver.validate()?;
    let r = resolver.canonicalize_all();
    proof {
        if let Ok(bs) = &r {
            resolver.lemma_known_resolved(bs@);
            assert forall|j: int| 0 <= j < bs@.len() implies binding_closed(
                #[trigger] bs@[j],
                Set::empty(),
                names_of(bs@).union(name_set(prelude_names@)),
            ) by {
                lemma_binding_closed_grows(
                    bs@[j],
                    Set::empty(),
                    resolver.known(),
                    names_of(bs@).union(name_set(prelude_names@)),
                );
            }
        }
    }
    r
}

/// A module file of a packed bundle: its text, or the path of a file that holds it.
#[derive(Debug, Clone)]
pub enum FileContent {
    Source(String),
    Path(String),
}

#[derive(Debug, Clone)]
pub struct VirtualFile {
    pub path: String,
    pub content: FileContent,
}

/// A packed bundle: module files and the path of the entry module.
#[derive(Debug, Clone)]
pub struct Pars {
    pub files: Vec<VirtualFile>,
    pub entry: String,
}

impl ParsModuleSource {
    /// The files of a bundle whose contents are all inline.
    ///
    /// A file given by path has to be read first (which is I/O); here it is an error.
    pub fn from_pars(pars: &Pars) -> (r: Result<ParsModuleSource, Diagnostics>)
        ensures
            r is Ok ==> r->Ok_0.files@.len() == pars.files@.len(),
            r is Ok <==> forall|i: int| 0 <= i < pars.files@.len() ==> (#[trigger] pars.files@[i]).content is Source,
    {
        let mut files: Vec<(String, String)> = Vec::new();
        let mut i: usize = 0;
        while i < pars.files.len()
            invariant
                i <= pars.files@.len(),
                files@.len() == i,
                forall|j: int| 0 <= j < i ==> (#[trigger] pars.files@[j]).content is Source,
            decreases pars.files@.len() - i,
        {
            match &pars.files[i].content {
                FileContent::Source(text) => {
                    files.push((pars.files[i].path.clone(), text.clone()));
                },
                FileContent::Path(path) => {
                    let msg = concat(&lit("can not read pars file "), path.as_str());
                    return Err(error(msg, Span::zero()));
                },
            }
            i = i + 1;
        }
        Ok(ParsModuleSource { files })
    }
}

/// Resolves the program packed in `pars`, starting at its entry module.
pub fn resolve_pars(
    pars: &Pars,
    injected_externs: &Vec<(String, String)>,
    prelude_names: &Vec<String>,
) -> (r: Result<Vec<DesugarBinding>, Diagnostics>)
    ensures
        (exists|i: int| 0 <= i < pars.files@.len() && (#[trigger] pars.files@[i]).content is Path) ==> r is Err,
        r matches Ok(bs) ==> forall|j: int|
            0 <= j < bs@.len() ==> binding_closed(
                #[trigger] bs@[j],
                Set::empty(),
                names_of(bs@).union(name_set(prelude_names@)),
            ),
{
    let source = ParsModuleSource::from_pars(pars)?;
    resolve_program_with_source(&source, &pars.entry, injected_externs, prelude_names)
}
} // verus!
