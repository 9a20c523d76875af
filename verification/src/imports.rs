//! What an imported module provides: its exports, and the selection that an
//! `import "path" (names...)` makes of them.

use vstd::prelude::*;

use crate::ast::{Export, Module, Stmt};
use crate::semant::name_set;
use crate::text::{concat, owned, str_eq};
use crate::types::ImportSpec;

verus! {

/// The binding a statement exports: every `define` and `infix`.
pub open spec fn export_of(s: Stmt) -> Option<Export> {
    match s {
        Stmt::Define { name, expr, .. } => Some(Export::Define { name, expr }),
        Stmt::Infix { op, strength, func } => Some(Export::Infix { op, strength, func }),
        _ => None,
    }
}

/// The exports of the first `upto` statements, in order.
pub open spec fn exports_of(stmts: Seq<Stmt>, upto: int) -> Seq<Export>
    decreases upto,
{
    if upto <= 0 {
        Seq::empty()
    } else {
        match export_of(stmts[upto - 1]) {
            Some(x) => exports_of(stmts, upto - 1).push(x),
            None => exports_of(stmts, upto - 1),
        }
    }
}

/// Collect the exports of a module's statements: every `define` and
/// `infix`, in order; natives and imports are not exported.
pub fn collect_exports(stmts: &[Stmt]) -> (r: Vec<Export>)
    ensures
        r@ == exports_of(stmts@, stmts@.len() as int),
{
    let mut out: Vec<Export> = Vec::new();
    let mut i: usize = 0;
    while i < stmts.len()
        invariant
            i <= stmts@.len(),
            out@ == exports_of(stmts@, i as int),
        decreases stmts@.len() - i,
    {
        match &stmts[i] {
            Stmt::Define { name, expr, .. } => out.push(Export::Define { name: name.clone(), expr: expr.duplicate() }),
            Stmt::Infix { op, strength, func } => out.push(
                Export::Infix { op: op.clone(), strength: *strength, func: func.duplicate() },
            ),
            _ => {},
        }
        i = i + 1;
    }
    out
}

/// The name under which a binding is exported: its name, or its operator.
pub open spec fn exported_name(x: Export) -> Seq<char> {
    match x {
        Export::Define { name, .. } => name@,
        Export::Infix { op, .. } => op@,
    }
}

/// The exports among the first `upto` whose names are in `names`, in order.
pub open spec fn selected(exports: Seq<Export>, names: Set<Seq<char>>, upto: int) -> Seq<Export>
    decreases upto,
{
    if upto <= 0 {
        Seq::empty()
    } else if names.contains(exported_name(exports[upto - 1])) {
        selected(exports, names, upto - 1).push(exports[upto - 1])
    } else {
        selected(exports, names, upto - 1)
    }
}

/// Whether some export has the name `n`.
pub open spec fn is_exported(exports: Seq<Export>, n: Seq<char>) -> bool {
    exists|i: int| 0 <= i < exports.len() && exported_name(#[trigger] exports[i]) == n
}

/// The first requested name from index `i` on that nothing exports.
pub open spec fn first_missing(names: Seq<String>, exports: Seq<Export>, i: int) -> Option<Seq<char>>
    decreases names.len() - i,
{
    if i < 0 || i >= names.len() {
        None
    } else if !is_exported(exports, names[i]@) {
        Some(names[i]@)
    } else {
        first_missing(names, exports, i + 1)
    }
}

/// What an import specification selects of a module's exports: all of them,
/// or those named, provided that each name is exported.
pub open spec fn filtered(exports: Seq<Export>, spec: ImportSpec) -> Result<Seq<Export>, Seq<char>> {
    match spec {
        ImportSpec::All => Ok(exports),
        ImportSpec::Only(names) => match first_missing(names@, exports, 0) {
            Some(n) => Err("import '"@ + n + "' not found in module"@),
            None => Ok(selected(exports, name_set(names@), exports.len() as int)),
        },
    }
}

fn name_listed(names: &Vec<String>, n: &String) -> (b: bool)
    ensures
        b == name_set(names@).contains(n@),
{
    let mut i: usize = 0;
    while i < names.len()
        invariant
            i <= names@.len(),
            forall|j: int| 0 <= j < i ==> (#[trigger] names@[j])@ != n@,
        decreases names@.len() - i,
    {
        if str_eq(&names[i], n) {
            return true;
        }
        i = i + 1;
    }
    false
}

fn export_name_of(x: &Export) -> (r: &String)
    ensures
        r@ == exported_name(*x),
{
    match x {
        Export::Define { name, .. } => name,
        Export::Infix { op, .. } => op,
    }
}

proof fn lemma_selected_names(exports: Seq<Export>, names: Set<Seq<char>>, upto: int, n: Seq<char>)
    requires
        0 <= upto <= exports.len(),
        names.contains(n),
    ensures
        is_exported(selected(exports, names, upto), n) <==> exists|i: int|
            0 <= i < upto && exported_name(#[trigger] exports[i]) == n,
    decreases upto,
{
    if upto > 0 {
        lemma_selected_names(exports, names, upto - 1, n);
        let prev = selected(exports, names, upto - 1);
        let cur = selected(exports, names, upto);
        if names.contains(exported_name(exports[upto - 1])) {
            assert(cur == prev.push(exports[upto - 1]));
            if is_exported(cur, n) {
                let i = choose|i: int| 0 <= i < cur.len() && exported_name(#[trigger] cur[i]) == n;
                if i < prev.len() {
                    assert(cur[i] == prev[i]);
                }
            }
            if is_exported(prev, n) {
                let i = choose|i: int| 0 <= i < prev.len() && exported_name(#[trigger] prev[i]) == n;
                assert(cur[i] == prev[i]);
            }
            if exported_name(exports[upto - 1]) == n {
                assert(cur[prev.len() as int] == exports[upto - 1]);
            }
        } else {
            if exists|i: int| 0 <= i < upto && exported_name(#[trigger] exports[i]) == n {
                let i = choose|i: int| 0 <= i < upto && exported_name(#[trigger] exports[i]) == n;
                assert(i != upto - 1);
            }
        }
    }
}

/// Apply an import specification to a module's exports. An `Only` list
/// fails on the first name that the module does not export.
pub fn filter_exports(exports: Vec<Export>, spec: &ImportSpec) -> (r: Result<Vec<Export>, String>)
    ensures
        match filtered(exports@, *spec) {
            Ok(xs) => r matches Ok(v) && v@ == xs,
            Err(m) => r matches Err(e) && e@ == m,
        },
{
    match spec {
        ImportSpec::All => Ok(exports),
        ImportSpec::Only(names) => {
            let mut kept: Vec<Export> = Vec::new();
            let mut i: usize = 0;
            while i < exports.len()
                invariant
                    i <= exports@.len(),
                    kept@ == selected(exports@, name_set(names@), i as int),
                decreases exports@.len() - i,
            {
                if name_listed(names, export_name_of(&exports[i])) {
                    kept.push(exports[i].duplicate());
                }
                i = i + 1;
            }
            let mut k: usize = 0;
            while k < names.len()
                invariant
                    *spec == ImportSpec::Only(*names),
                    k <= names@.len(),
                    kept@ == selected(exports@, name_set(names@), exports@.len() as int),
                    first_missing(names@, exports@, 0) == first_missing(names@, exports@, k as int),
                decreases names@.len() - k,
            {
                let mut found = false;
                let mut x: usize = 0;
                while x < kept.len()
                    invariant
                        k < names@.len(),
                        x <= kept@.len(),
                        found == exists|y: int| 0 <= y < x && exported_name(#[trigger] kept@[y]) == names@[k as int]@,
                    decreases kept@.len() - x,
                {
                    if str_eq(export_name_of(&kept[x]), &names[k]) {
                        found = true;
                    }
                    x = x + 1;
                }
                proof {
                    assert(name_set(names@).contains(names@[k as int]@));
                    lemma_selected_names(exports@, name_set(names@), exports@.len() as int, names@[k as int]@);
                    assert(found == is_exported(kept@, names@[k as int]@));
                    assert(found == is_exported(exports@, names@[k as int]@));
                    if !found {
                        assert(first_missing(names@, exports@, k as int) == Some(names@[k as int]@));
                    } else {
                        assert(first_missing(names@, exports@, k as int) == first_missing(names@, exports@, k + 1));
                    }
                }
                if !found {
                    return Err(concat(&concat(&owned("import '"), names[k].as_str()), "' not found in module"));
                }
                k = k + 1;
            }
            Ok(kept)
        },
    }
}

proof fn lemma_selected_members(exports: Seq<Export>, names: Set<Seq<char>>, upto: int)
    requires
        0 <= upto <= exports.len(),
    ensures
        forall|k: int| 0 <= k < selected(exports, names, upto).len() ==> names.contains(
            exported_name(#[trigger] selected(exports, names, upto)[k]),
        ),
    decreases upto,
{
    if upto > 0 {
        lemma_selected_members(exports, names, upto - 1);
        let prev = selected(exports, names, upto - 1);
        let cur = selected(exports, names, upto);
        assert forall|k: int| 0 <= k < cur.len() implies names.contains(exported_name(#[trigger] cur[k])) by {
            if k < prev.len() {
                assert(cur[k] == prev[k]);
            }
        }
    }
}

proof fn lemma_first_missing_none(names: Seq<String>, exports: Seq<Export>, i: int)
    requires
        0 <= i,
        first_missing(names, exports, i) is None,
    ensures
        forall|k: int| i <= k < names.len() ==> is_exported(exports, (#[trigger] names[k])@),
    decreases names.len() - i,
{
    if i < names.len() {
        lemma_first_missing_none(names, exports, i + 1);
    }
}

/// A selective import brings in only names it lists, and every name it
/// lists is brought in.
pub proof fn law_filter_only(exports: Seq<Export>, names: Vec<String>)
    ensures
        filtered(exports, ImportSpec::Only(names)) matches Ok(kept) ==> (forall|k: int|
            0 <= k < kept.len() ==> name_set(names@).contains(exported_name(#[trigger] kept[k])))
            && forall|j: int| 0 <= j < names@.len() ==> is_exported(kept, (#[trigger] names@[j])@),
{
    let ns = names@;
    let sel = selected(exports, name_set(ns), exports.len() as int);
    if first_missing(ns, exports, 0) is None {
        lemma_selected_members(exports, name_set(ns), exports.len() as int);
        lemma_first_missing_none(ns, exports, 0);
        assert forall|j: int| 0 <= j < ns.len() implies is_exported(sel, (#[trigger] ns[j])@) by {
            assert(name_set(ns).contains(ns[j]@));
            lemma_selected_names(exports, name_set(ns), exports.len() as int, ns[j]@);
        }
    }
}

/// The statement that an exported binding becomes in an importing file: a
/// definition without a signature, or the same operator.
pub open spec fn export_stmt(e: Export) -> Stmt {
    match e {
        Export::Define { name, expr } => Stmt::Define { name, type_sig: None, expr },
        Export::Infix { op, strength, func } => Stmt::Infix { op, strength, func },
    }
}

/// How many of `stmts` are imports.
pub open spec fn import_count(stmts: Seq<Stmt>) -> nat
    decreases stmts.len(),
{
    if stmts.len() == 0 {
        0
    } else {
        import_count(stmts.drop_last()) + if stmts.last() is Import { 1nat } else { 0nat }
    }
}

/// `stmts` with their imports replaced, in order, by what `modules` export.
pub open spec fn spliced(stmts: Seq<Stmt>, modules: Seq<Module>) -> Seq<Stmt>
    decreases stmts.len(),
{
    if stmts.len() == 0 {
        Seq::empty()
    } else if stmts.last() is Import {
        spliced(stmts.drop_last(), modules.drop_last()) + modules.last().exports@.map_values(
            |e: Export| export_stmt(e),
        )
    } else {
        spliced(stmts.drop_last(), modules) + seq![stmts.last()]
    }
}

/// The statements of an imported file with each import of its own replaced,
/// in place, by the exports of the module it names (`modules`, one per
/// import, in order).
pub fn splice_imports(stmts: Vec<Stmt>, modules: Vec<Module>) -> (r: Vec<Stmt>)
    requires
        import_count(stmts@) == modules@.len(),
    ensures
        r@ == spliced(stmts@, modules@),
{
    let ghost all = stmts@;
    let ghost mods = modules@;
    let stmt_total: usize = stmts.len();
    let module_total: usize = modules.len();
    let mut out: Vec<Stmt> = Vec::new();
    let mut rest_stmts = stmts;
    let mut rest_mods = modules;
    let mut k: usize = 0;
    let mut m: usize = 0;
    assert(all.len() <= usize::MAX && mods.len() <= usize::MAX);
    assert(all.subrange(0, 0) =~= Seq::<Stmt>::empty());
    assert(mods.subrange(0, 0) =~= Seq::<Module>::empty());
    while rest_stmts.len() > 0
        invariant
            k + rest_stmts@.len() == all.len(),
            m + rest_mods@.len() == mods.len(),
            all.len() <= usize::MAX,
            mods.len() <= usize::MAX,
            import_count(all.subrange(0, k as int)) == m,
            rest_stmts@ == all.subrange(k as int, all.len() as int),
            rest_mods@ == mods.subrange(m as int, mods.len() as int),
            out@ == spliced(all.subrange(0, k as int), mods.subrange(0, m as int)),
            import_count(all) == mods.len(),
        decreases rest_stmts@.len(),
    {
        let st = rest_stmts.remove(0);
        proof {
            assert(st == all[k as int]);
            assert(all.subrange(0, k + 1).drop_last() =~= all.subrange(0, k as int));
            lemma_import_count_prefix(all, k as int + 1);
        }
        match st {
            Stmt::Import { .. } => {
                proof {
                    if m >= mods.len() {
                        lemma_import_count_prefix(all, k as int + 1);
                    }
                }
                let module = rest_mods.remove(0);
                proof {
                    assert(module == mods[m as int]);
                    assert(mods.subrange(0, m + 1).drop_last() =~= mods.subrange(0, m as int));
                }
                let ghost before = out@;
                let mut exports = module.exports;
                let ghost ex = exports@;
                let export_total: usize = exports.len();
                assert(ex.len() <= usize::MAX);
                let mut e: usize = 0;
                while exports.len() > 0
                    invariant
                        e + exports@.len() == ex.len(),
                        ex.len() <= usize::MAX,
                        exports@ == ex.subrange(e as int, ex.len() as int),
                        out@ == before + ex.subrange(0, e as int).map_values(|x: Export| export_stmt(x)),
                    decreases exports@.len(),
                {
                    let x = exports.remove(0);
                    proof {
                        assert(x == ex[e as int]);
                    }
                    let s2 = match x {
                        Export::Define { name, expr } => Stmt::Define { name, type_sig: None, expr },
                        Export::Infix { op, strength, func } => Stmt::Infix { op, strength, func },
                    };
                    out.push(s2);
                    proof {
                        assert(ex.subrange(0, e + 1).map_values(|x: Export| export_stmt(x)) =~= ex.subrange(
                            0,
                            e as int,
                        ).map_values(|x: Export| export_stmt(x)).push(export_stmt(ex[e as int])));
                    }
                    e = e + 1;
                }
                proof {
                    assert(ex.subrange(0, ex.len() as int) =~= ex);
                }
                m = m + 1;
            },
            other => {
                out.push(other);
            },
        }
        k = k + 1;
    }
    proof {
        assert(all.subrange(0, all.len() as int) =~= all);
        assert(mods.subrange(0, m as int) =~= mods);
    }
    out
}

proof fn lemma_import_count_prefix(s: Seq<Stmt>, n: int)
    requires
        0 <= n <= s.len(),
    ensures
        import_count(s.subrange(0, n)) <= import_count(s),
    decreases s.len() - n,
{
    if n < s.len() {
        lemma_import_count_prefix(s, n + 1);
        assert(s.subrange(0, n + 1).drop_last() =~= s.subrange(0, n));
    } else {
        assert(s.subrange(0, n) =~= s);
    }
}

/// The paths in `visiting`, as character sequences.
pub open spec fn path_set(visiting: Seq<String>) -> Set<Seq<char>> {
    visiting.map_values(|s: String| s@).to_set()
}

/// Starts loading the module at `path`: refused, as an import cycle, when
/// that path is already being loaded; otherwise the path joins `visiting`.
pub fn enter_module(visiting: &mut Vec<String>, path: String) -> (r: Result<(), String>)
    ensures
        path_set(old(visiting)@).contains(path@) ==> (r matches Err(m) && m@ == "cyclic import detected: '"@
            + path@ + "'"@) && final(visiting)@ == old(visiting)@,
        !path_set(old(visiting)@).contains(path@) ==> r is Ok && final(visiting)@ == old(visiting)@.push(path),
{
    let mut i: usize = 0;
    while i < visiting.len()
        invariant
            i <= visiting@.len(),
            visiting@ == old(visiting)@,
            forall|j: int| 0 <= j < i ==> (#[trigger] visiting@[j])@ != path@,
        decreases visiting@.len() - i,
    {
        if str_eq(&visiting[i], &path) {
            proof {
                assert(visiting@.map_values(|s: String| s@)[i as int] == path@);
            }
            return Err(concat(&concat(&owned("cyclic import detected: '"), path.as_str()), "'"));
        }
        i = i + 1;
    }
    proof {
        if path_set(visiting@).contains(path@) {
            let m = visiting@.map_values(|s: String| s@);
            let k = choose|k: int| 0 <= k < m.len() && m[k] == path@;
            assert(visiting@[k]@ == path@);
        }
    }
    visiting.push(path);
    Ok(())
}

/// Ends loading the module at `path`: it leaves `visiting`, the other
/// paths stay.
pub fn leave_module(visiting: &mut Vec<String>, path: &String)
    ensures
        path_set(final(visiting)@) == path_set(old(visiting)@).remove(path@),
{
    let mut kept: Vec<String> = Vec::new();
    let mut i: usize = 0;
    while i < visiting.len()
        invariant
            i <= visiting@.len(),
            visiting@ == old(visiting)@,
            forall|x: Seq<char>|
                path_set(kept@).contains(x) <==> (x != path@ && exists|j: int|
                    0 <= j < i && (#[trigger] visiting@[j])@ == x),
        decreases visiting@.len() - i,
    {
        if !str_eq(&visiting[i], path) {
            let ghost before = kept@;
            kept.push(visiting[i].clone());
            proof {
                let b = before.map_values(|s: String| s@);
                let a = kept@.map_values(|s: String| s@);
                assert(a =~= b.push(visiting@[i as int]@));
                assert forall|x: Seq<char>| path_set(kept@).contains(x) <==> (x != path@ && exists|j: int|
                    0 <= j < i + 1 && (#[trigger] visiting@[j])@ == x) by {
                    if path_set(kept@).contains(x) {
                        let k = choose|k: int| 0 <= k < a.len() && a[k] == x;
                        if k < b.len() {
                            assert(b[k] == x);
                            assert(b.to_set().contains(x));
                            assert(path_set(before).contains(x));
                        } else {
                            assert(visiting@[i as int]@ == x);
                        }
                    }
                    if x != path@ && exists|j: int| 0 <= j < i + 1 && (#[trigger] visiting@[j])@ == x {
                        let j = choose|j: int| 0 <= j < i + 1 && (#[trigger] visiting@[j])@ == x;
                        if j < i {
                            assert(0 <= j < i && visiting@[j]@ == x);
                            assert(path_set(before).contains(x));
                            assert(b.to_set().contains(x));
                            let k = choose|k: int| 0 <= k < b.len() && b[k] == x;
                            assert(a[k] == x);
                        } else {
                            assert(a[b.len() as int] == x);
                        }
                    }
                }
            }
        } else {
            proof {
                assert forall|x: Seq<char>| path_set(kept@).contains(x) <==> (x != path@ && exists|j: int|
                    0 <= j < i + 1 && (#[trigger] visiting@[j])@ == x) by {
                    if x != path@ && exists|j: int| 0 <= j < i + 1 && (#[trigger] visiting@[j])@ == x {
                        let j = choose|j: int| 0 <= j < i + 1 && (#[trigger] visiting@[j])@ == x;
                        assert(j < i);
                    }
                }
            }
        }
        i = i + 1;
    }
    proof {
        assert forall|x: Seq<char>| path_set(kept@).contains(x) <==> path_set(old(visiting)@).remove(path@).contains(x) by {
            let m = old(visiting)@.map_values(|s: String| s@);
            if path_set(old(visiting)@).contains(x) {
                let k = choose|k: int| 0 <= k < m.len() && m[k] == x;
                assert(visiting@[k]@ == x);
            }
            if exists|j: int| 0 <= j < visiting@.len() && (#[trigger] visiting@[j])@ == x {
                let j = choose|j: int| 0 <= j < visiting@.len() && (#[trigger] visiting@[j])@ == x;
                assert(m[j] == x);
            }
        }
        assert(path_set(kept@) =~= path_set(old(visiting)@).remove(path@));
    }
    *visiting = kept;
}

} // verus!
