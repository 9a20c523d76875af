//! Optimisation passes on the core language, run to a fixpoint.
//!
//! η-reduction turns `λx. f x` into `f` when `x` is not free in `f` and `f`
//! is a variable, lambda or literal. β-reduction substitutes an argument
//! into a lambda's body when the argument is a literal or the parameter is
//! used exactly once, so that evaluation is never erased or repeated under
//! strict evaluation. Inlining replaces references to small definitions by
//! their bodies, and dead definitions (named nowhere) are dropped; the last
//! definition, the entry point, and native declarations always stay.

use vstd::prelude::*;

use crate::ir::{
    is_literal, lemma_substituted_size_leaf, lemma_substituted_size_single, size, subst, substituted, uses, Ir, IrDef,
};
use crate::text::{owned, str_eq};

verus! {

/// A variable, lambda or literal: evaluating it has no effect.
pub open spec fn is_pure_ref(ir: Ir) -> bool {
    ir is Var || ir is Lam || is_literal(ir)
}

/// Whether `name` occurs free in `ir`.
pub fn free_in(ir: &Ir, name: &str) -> (b: bool)
    ensures
        b == (uses(*ir, name@) > 0),
{
    count_uses(ir, name) > 0
}

/// How many times `name` occurs free in `ir` (counted up to `usize::MAX`).
pub fn count_uses(ir: &Ir, name: &str) -> (n: usize)
    ensures
        n == (if uses(*ir, name@) <= usize::MAX {
            uses(*ir, name@)
        } else {
            usize::MAX as nat
        }),
{
    count_uses_of(ir, &owned(name))
}

fn count_uses_of(ir: &Ir, name: &String) -> (n: usize)
    ensures
        n == (if uses(*ir, name@) <= usize::MAX {
            uses(*ir, name@)
        } else {
            usize::MAX as nat
        }),
    decreases ir,
{
    match ir {
        Ir::Var(v) => if str_eq(v, name) {
            1
        } else {
            0
        },
        Ir::Lam { param, body } => if str_eq(param, name) {
            0
        } else {
            count_uses_of(body, name)
        },
        Ir::App(f, a) => {
            let x = count_uses_of(f, name);
            let y = count_uses_of(a, name);
            x.saturating_add(y)
        },
        _ => 0,
    }
}

/// Whether the term is a variable, lambda or literal.
pub fn is_pure_ref_exec(ir: &Ir) -> (b: bool)
    ensures
        b == is_pure_ref(*ir),
{
    match ir {
        Ir::App(..) => false,
        _ => true,
    }
}

/// η-reduction everywhere in a term, innermost first: `λx. f x` becomes `f`
/// when `x` is not free in `f` and `f` is pure; the result is reduced again.
/// The size test always holds (`lemma_eta_size`).
pub open spec fn eta_reduced(ir: Ir) -> Ir
    decreases size(ir),
{
    match ir {
        Ir::Lam { param, body } => {
            let b = eta_reduced(*body);
            match b {
                Ir::App(f, a) => match *a {
                    Ir::Var(v) => if v@ == param@ && uses(*f, param@) == 0 && is_pure_ref(*f) && size(*f)
                        < size(ir) {
                        eta_reduced(*f)
                    } else {
                        Ir::Lam { param, body: Box::new(b) }
                    },
                    _ => Ir::Lam { param, body: Box::new(b) },
                },
                _ => Ir::Lam { param, body: Box::new(b) },
            }
        },
        Ir::App(f, a) => Ir::App(Box::new(eta_reduced(*f)), Box::new(eta_reduced(*a))),
        _ => ir,
    }
}

/// η-reduction never enlarges a term, and a term it leaves as large as it
/// was is left unchanged.
pub proof fn lemma_eta_size(ir: Ir)
    ensures
        size(eta_reduced(ir)) <= size(ir),
        size(eta_reduced(ir)) == size(ir) ==> eta_reduced(ir) == ir,
    decreases size(ir),
{
    match ir {
        Ir::Lam { param, body } => {
            lemma_eta_size(*body);
            let b = eta_reduced(*body);
            match b {
                Ir::App(f, a) => match *a {
                    Ir::Var(v) => if v@ == param@ && uses(*f, param@) == 0 && is_pure_ref(*f) && size(*f)
                        < size(ir) {
                        lemma_eta_size(*f);
                    },
                    _ => {},
                },
                _ => {},
            }
        },
        Ir::App(f, a) => {
            lemma_eta_size(*f);
            lemma_eta_size(*a);
        },
        _ => {},
    }
}

/// The η-reduction pass over one term.
pub fn eta_reduce(ir: &Ir) -> (r: Ir)
    ensures
        r == eta_reduced(*ir),
    decreases size(*ir),
{
    match ir {
        Ir::Lam { param, body } => {
            let b = eta_reduce(body);
            proof {
                lemma_eta_size(**body);
            }
            if let Ir::App(f, a) = &b {
                if let Ir::Var(v) = &**a {
                    if str_eq(v, param) && !free_in(f, param.as_str()) && is_pure_ref_exec(f) {
                        return eta_reduce(f);
                    }
                }
            }
            Ir::Lam { param: param.clone(), body: Box::new(b) }
        },
        Ir::App(f, a) => Ir::App(Box::new(eta_reduce(f)), Box::new(eta_reduce(a))),
        _ => ir.duplicate(),
    }
}

/// Strictness-aware β-reduction everywhere in a term, innermost first:
/// `(λx. body) arg` becomes `body[x ↦ arg]`, reduced again, when `arg` is
/// a literal or `x` occurs free exactly once in `body`. The size test
/// always holds (`lemma_beta_size`).
pub open spec fn beta_reduced(ir: Ir) -> Ir
    decreases size(ir),
{
    match ir {
        Ir::Lam { param, body } => Ir::Lam { param, body: Box::new(beta_reduced(*body)) },
        Ir::App(f, a) => {
            let rf = beta_reduced(*f);
            let ra = beta_reduced(*a);
            match rf {
                Ir::Lam { param, body } => {
                    let reduced = substituted(*body, param@, ra);
                    if (is_literal(ra) || uses(*body, param@) == 1) && size(reduced) < size(ir) {
                        beta_reduced(reduced)
                    } else {
                        Ir::App(Box::new(rf), Box::new(ra))
                    }
                },
                _ => Ir::App(Box::new(rf), Box::new(ra)),
            }
        },
        _ => ir,
    }
}

/// β-reduction never enlarges a term, and a term it leaves as large as it
/// was is left unchanged.
pub proof fn lemma_beta_size(ir: Ir)
    ensures
        size(beta_reduced(ir)) <= size(ir),
        size(beta_reduced(ir)) == size(ir) ==> beta_reduced(ir) == ir,
    decreases size(ir),
{
    match ir {
        Ir::Lam { param, body } => {
            lemma_beta_size(*body);
        },
        Ir::App(f, a) => {
            lemma_beta_size(*f);
            lemma_beta_size(*a);
            let rf = beta_reduced(*f);
            let ra = beta_reduced(*a);
            match rf {
                Ir::Lam { param, body } => {
                    let reduced = substituted(*body, param@, ra);
                    if (is_literal(ra) || uses(*body, param@) == 1) && size(reduced) < size(ir) {
                        lemma_beta_size(reduced);
                    }
                },
                _ => {},
            }
        },
        _ => {},
    }
}

/// The β-reduction pass over one term.
pub fn beta_reduce(ir: &Ir) -> (r: Ir)
    ensures
        r == beta_reduced(*ir),
    decreases size(*ir),
{
    match ir {
        Ir::Lam { param, body } => Ir::Lam { param: param.clone(), body: Box::new(beta_reduce(body)) },
        Ir::App(f0, a0) => {
            let f = beta_reduce(f0);
            let a = beta_reduce(a0);
            proof {
                lemma_beta_size(**f0);
                lemma_beta_size(**a0);
            }
            if let Ir::Lam { param, body } = &f {
                let n = count_uses(body, param.as_str());
                let arg_pure = a.is_literal();
                if arg_pure || n == 1 {
                    let reduced = subst(body, param.as_str(), &a);
                    proof {
                        if arg_pure {
                            lemma_substituted_size_leaf(**body, param@, a);
                        } else {
                            lemma_substituted_size_single(**body, param@, a);
                        }
                        assert(size(reduced) < size(*ir));
                    }
                    return beta_reduce(&reduced);
                }
            }
            Ir::App(Box::new(f), Box::new(a))
        },
        _ => ir.duplicate(),
    }
}

/// How a definition's body is classified for inlining.
#[derive(Debug, Clone, Copy, PartialEq, Eq, Structural)]
pub enum InlineHeuristic {
    Small,
    Keep,
}

/// A body small enough to inline: a literal or variable, a lambda around
/// such a body, or a variable applied to a literal.
pub open spec fn inline_small(ir: Ir) -> bool
    decreases ir,
{
    match ir {
        Ir::Lam { body, .. } => inline_small(*body),
        Ir::App(f, a) => (*f is Var) && is_literal(*a),
        _ => true,
    }
}

/// Classify a body for inlining.
pub fn inline_class(ir: &Ir) -> (c: InlineHeuristic)
    ensures
        (c == InlineHeuristic::Small) == inline_small(*ir),
    decreases ir,
{
    match ir {
        Ir::Lam { body, .. } => inline_class(body),
        Ir::App(f, a) => {
            if matches!(**f, Ir::Var(_)) && a.is_literal() {
                InlineHeuristic::Small
            } else {
                InlineHeuristic::Keep
            }
        },
        _ => InlineHeuristic::Small,
    }
}

/// The entry for `name` in a table of replacements; a later entry wins.
pub open spec fn lookup(table: Seq<(String, Ir)>, name: Seq<char>) -> Option<Ir>
    decreases table.len(),
{
    if table.len() == 0 {
        None
    } else if table.last().0@ == name {
        Some(table.last().1)
    } else {
        lookup(table.drop_last(), name)
    }
}

/// Every variable of `ir` that the table has an entry for replaced by that
/// entry, inside lambdas too, whatever they bind.
pub open spec fn replaced(ir: Ir, table: Seq<(String, Ir)>) -> Ir
    decreases ir,
{
    match ir {
        Ir::Var(v) => match lookup(table, v@) {
            Some(r) => r,
            None => ir,
        },
        Ir::Lam { param, body } => Ir::Lam { param, body: Box::new(replaced(*body, table)) },
        Ir::App(f, a) => Ir::App(Box::new(replaced(*f, table)), Box::new(replaced(*a, table))),
        _ => ir,
    }
}

fn lookup_exec<'a>(table: &'a Vec<(String, Ir)>, name: &String) -> (r: Option<&'a Ir>)
    ensures
        match lookup(table@, name@) {
            Some(x) => r matches Some(y) && *y == x,
            None => r is None,
        },
{
    let mut i: usize = table.len();
    proof {
        assert(table@.take(i as int) =~= table@);
    }
    while i > 0
        invariant
            i <= table@.len(),
            lookup(table@, name@) == lookup(table@.take(i as int), name@),
        decreases i,
    {
        proof {
            assert(table@.take(i as int).drop_last() =~= table@.take(i - 1));
        }
        if str_eq(&table[i - 1].0, name) {
            return Some(&table[i - 1].1);
        }
        i = i - 1;
    }
    None
}

/// Replace every variable that the table names by its entry.
pub fn substitute_vars(ir: &Ir, table: &Vec<(String, Ir)>) -> (r: Ir)
    ensures
        r == replaced(*ir, table@),
    decreases ir,
{
    match ir {
        Ir::Var(v) => match lookup_exec(table, v) {
            Some(x) => x.duplicate(),
            None => ir.duplicate(),
        },
        Ir::Lam { param, body } => Ir::Lam { param: param.clone(), body: Box::new(substitute_vars(body, table)) },
        Ir::App(f, a) => Ir::App(Box::new(substitute_vars(f, table)), Box::new(substitute_vars(a, table))),
        _ => ir.duplicate(),
    }
}

/// The small `define`s among the first `upto` definitions, in order, as
/// name and body.
pub open spec fn small_table(defs: Seq<IrDef>, upto: int) -> Seq<(String, Ir)>
    decreases upto,
{
    if upto <= 0 {
        Seq::empty()
    } else {
        let prev = small_table(defs, upto - 1);
        match defs[upto - 1] {
            IrDef::Bind { name, expr } => if inline_small(expr) {
                prev.push((name, expr))
            } else {
                prev
            },
            _ => prev,
        }
    }
}

/// What inlining replaces: the small `define`s but the last definition.
pub open spec fn inline_table(defs: Seq<IrDef>) -> Seq<(String, Ir)> {
    small_table(defs, defs.len() - 1)
}

/// The table with each replacement itself rewritten once by the table.
pub open spec fn resolved_table(table: Seq<(String, Ir)>) -> Seq<(String, Ir)> {
    table.map_values(|e: (String, Ir)| (e.0, replaced(e.1, table)))
}

/// A definition with its body rewritten by the table.
pub open spec fn rewritten(d: IrDef, table: Seq<(String, Ir)>) -> IrDef {
    match d {
        IrDef::Bind { name, expr } => IrDef::Bind { name, expr: replaced(expr, table) },
        IrDef::Infix { op, strength, func } => IrDef::Infix { op, strength, func: replaced(func, table) },
        IrDef::Native { .. } => d,
    }
}

/// A definition survives inlining unless it is a `define` of an inlined name.
pub open spec fn survives_inlining(d: IrDef, table: Seq<(String, Ir)>) -> bool {
    match d {
        IrDef::Bind { name, .. } => lookup(table, name@) is None,
        _ => true,
    }
}

/// The first `upto` definitions after inlining.
pub open spec fn inline_output(defs: Seq<IrDef>, table: Seq<(String, Ir)>, upto: int) -> Seq<IrDef>
    decreases upto,
{
    if upto <= 0 {
        Seq::empty()
    } else {
        let prev = inline_output(defs, table, upto - 1);
        if survives_inlining(defs[upto - 1], table) {
            prev.push(rewritten(defs[upto - 1], resolved_table(table)))
        } else {
            prev
        }
    }
}

/// The inlining pass: references to small definitions (not the last one)
/// are replaced by their bodies, and those definitions disappear.
pub open spec fn inlined(defs: Seq<IrDef>) -> Seq<IrDef> {
    let table = inline_table(defs);
    if table.len() == 0 {
        defs
    } else {
        inline_output(defs, table, defs.len() as int)
    }
}

/// Whether `d` is a `define` of `n`.
pub open spec fn defines(d: IrDef, n: String) -> bool {
    match d {
        IrDef::Bind { name, .. } => name == n,
        _ => false,
    }
}

proof fn lemma_lookup_present(table: Seq<(String, Ir)>, k: int)
    requires
        0 <= k < table.len(),
    ensures
        lookup(table, table[k].0@) is Some,
    decreases table.len(),
{
    if table.last().0@ != table[k].0@ {
        assert(k != table.len() - 1);
        assert(table.drop_last()[k] == table[k]);
        lemma_lookup_present(table.drop_last(), k);
    }
}

proof fn lemma_small_table_source(defs: Seq<IrDef>, upto: int, k: int)
    requires
        0 <= upto <= defs.len(),
        0 <= k < small_table(defs, upto).len(),
    ensures
        exists|j: int| 0 <= j < upto && defines(#[trigger] defs[j], small_table(defs, upto)[k].0),
    decreases upto,
{
    let prev = small_table(defs, upto - 1);
    if k < prev.len() {
        assert(small_table(defs, upto)[k] == prev[k]);
        lemma_small_table_source(defs, upto - 1, k);
    } else {
        assert(defines(defs[upto - 1], small_table(defs, upto)[k].0));
    }
}

proof fn lemma_inline_output_len(defs: Seq<IrDef>, table: Seq<(String, Ir)>, upto: int)
    requires
        0 <= upto <= defs.len(),
    ensures
        inline_output(defs, table, upto).len() <= upto,
        (exists|j: int| 0 <= j < upto && !survives_inlining(#[trigger] defs[j], table))
            ==> inline_output(defs, table, upto).len() < upto,
    decreases upto,
{
    if upto > 0 {
        lemma_inline_output_len(defs, table, upto - 1);
        if exists|j: int| 0 <= j < upto && !survives_inlining(#[trigger] defs[j], table) {
            let j = choose|j: int| 0 <= j < upto && !survives_inlining(#[trigger] defs[j], table);
            if j < upto - 1 {
                assert(exists|j: int| 0 <= j < upto - 1 && !survives_inlining(#[trigger] defs[j], table));
            }
        }
    }
}

/// Inlining either changes nothing or removes at least one definition.
pub proof fn lemma_inlined_len(defs: Seq<IrDef>)
    ensures
        inlined(defs).len() <= defs.len(),
        inline_table(defs).len() > 0 ==> inlined(defs).len() < defs.len(),
        inline_table(defs).len() == 0 ==> inlined(defs) == defs,
{
    let table = inline_table(defs);
    if table.len() > 0 {
        lemma_small_table_source(defs, defs.len() - 1, 0);
        let j = choose|j: int| 0 <= j < defs.len() - 1 && defines(#[trigger] defs[j], table[0].0);
        lemma_lookup_present(table, 0);
        assert(!survives_inlining(defs[j], table));
        lemma_inline_output_len(defs, table, defs.len() as int);
    }
}

fn copy_defs(defs: &[IrDef]) -> (r: Vec<IrDef>)
    ensures
        r@ == defs@,
{
    let mut out: Vec<IrDef> = Vec::new();
    let mut i: usize = 0;
    while i < defs.len()
        invariant
            i <= defs@.len(),
            out@ == defs@.take(i as int),
        decreases defs@.len() - i,
    {
        out.push(defs[i].duplicate());
        proof {
            assert(out@ =~= defs@.take(i + 1));
        }
        i = i + 1;
    }
    proof {
        assert(defs@.take(defs@.len() as int) =~= defs@);
    }
    out
}

fn rewrite_def(d: &IrDef, table: &Vec<(String, Ir)>) -> (r: IrDef)
    ensures
        r == rewritten(*d, table@),
{
    match d {
        IrDef::Bind { name, expr } => IrDef::Bind { name: name.clone(), expr: substitute_vars(expr, table) },
        IrDef::Infix { op, strength, func } => IrDef::Infix {
            op: op.clone(),
            strength: *strength,
            func: substitute_vars(func, table),
        },
        IrDef::Native { .. } => d.duplicate(),
    }
}

/// The inlining pass.
pub fn inline_defs(defs: &[IrDef]) -> (r: Vec<IrDef>)
    ensures
        r@ == inlined(defs@),
{
    if defs.len() == 0 {
        return Vec::new();
    }
    let last_idx = defs.len() - 1;
    let mut table: Vec<(String, Ir)> = Vec::new();
    let mut i: usize = 0;
    while i < last_idx
        invariant
            last_idx == defs@.len() - 1,
            i <= last_idx,
            table@ == small_table(defs@, i as int),
        decreases last_idx - i,
    {
        if let IrDef::Bind { name, expr } = &defs[i] {
            if inline_class(expr) == InlineHeuristic::Small {
                table.push((name.clone(), expr.duplicate()));
            }
        }
        i = i + 1;
    }
    if table.len() == 0 {
        return copy_defs(defs);
    }
    let mut resolved: Vec<(String, Ir)> = Vec::new();
    let mut k: usize = 0;
    while k < table.len()
        invariant
            k <= table@.len(),
            resolved@ == resolved_table(table@).take(k as int),
        decreases table@.len() - k,
    {
        let v = substitute_vars(&table[k].1, &table);
        resolved.push((table[k].0.clone(), v));
        proof {
            assert(resolved@ =~= resolved_table(table@).take(k + 1));
        }
        k = k + 1;
    }
    proof {
        assert(resolved_table(table@).take(table@.len() as int) =~= resolved_table(table@));
    }
    let mut out: Vec<IrDef> = Vec::new();
    let mut j: usize = 0;
    while j < defs.len()
        invariant
            j <= defs@.len(),
            table@ == inline_table(defs@),
            resolved@ == resolved_table(table@),
            out@ == inline_output(defs@, table@, j as int),
        decreases defs@.len() - j,
    {
        let keep = match &defs[j] {
            IrDef::Bind { name, .. } => lookup_exec(&table, name).is_none(),
            _ => true,
        };
        if keep {
            out.push(rewrite_def(&defs[j], &resolved));
        }
        j = j + 1;
    }
    out
}

/// The names of all variables in `ir`, bound ones included.
pub open spec fn refs(ir: Ir) -> Set<Seq<char>>
    decreases ir,
{
    match ir {
        Ir::Var(v) => set![v@],
        Ir::Lam { body, .. } => refs(*body),
        Ir::App(f, a) => refs(*f).union(refs(*a)),
        _ => Set::empty(),
    }
}

/// The names in a list of names.
pub open spec fn name_set(names: Seq<String>) -> Set<Seq<char>> {
    Set::new(|n: Seq<char>| exists|i: int| 0 <= i < names.len() && (#[trigger] names[i])@ == n)
}

fn contains_name(names: &Vec<String>, name: &String) -> (b: bool)
    ensures
        b == name_set(names@).contains(name@),
{
    let mut i: usize = 0;
    while i < names.len()
        invariant
            i <= names@.len(),
            forall|j: int| 0 <= j < i ==> (#[trigger] names@[j])@ != name@,
        decreases names@.len() - i,
    {
        if str_eq(&names[i], name) {
            return true;
        }
        i = i + 1;
    }
    false
}

fn add_name(names: &mut Vec<String>, name: &String)
    ensures
        name_set(final(names)@) == name_set(old(names)@).insert(name@),
{
    if !contains_name(names, name) {
        let ghost before = names@;
        names.push(name.clone());
        proof {
            assert forall|n: Seq<char>| #[trigger] name_set(names@).contains(n) <==> name_set(before).insert(name@).contains(n) by {
                if name_set(names@).contains(n) {
                    let i = choose|i: int| 0 <= i < names@.len() && (#[trigger] names@[i])@ == n;
                    if i < before.len() {
                        assert(before[i] == names@[i]);
                    }
                }
                if name_set(before).contains(n) {
                    let i = choose|i: int| 0 <= i < before.len() && (#[trigger] before[i])@ == n;
                    assert(names@[i] == before[i]);
                }
                if n == name@ {
                    assert(names@[before.len() as int] == *name);
                }
            }
            assert(name_set(names@) =~= name_set(before).insert(name@));
        }
    } else {
        proof {
            assert(name_set(names@) =~= name_set(old(names)@).insert(name@));
        }
    }
}

/// Add every variable name of `ir` to `out`, each once.
pub fn collect_refs(ir: &Ir, out: &mut Vec<String>)
    ensures
        name_set(final(out)@) == name_set(old(out)@).union(refs(*ir)),
    decreases ir,
{
    match ir {
        Ir::Var(v) => {
            add_name(out, v);
            proof {
                assert(name_set(out@) =~= name_set(old(out)@).union(refs(*ir)));
            }
        },
        Ir::Lam { body, .. } => collect_refs(body, out),
        Ir::App(f, a) => {
            collect_refs(f, out);
            collect_refs(a, out);
            proof {
                assert(name_set(out@) =~= name_set(old(out)@).union(refs(*ir)));
            }
        },
        _ => {
            proof {
                assert(name_set(out@) =~= name_set(old(out)@).union(refs(*ir)));
            }
        },
    }
}

/// The names that a definition's body refers to.
pub open spec fn def_refs(d: IrDef) -> Set<Seq<char>> {
    match d {
        IrDef::Bind { expr, .. } => refs(expr),
        IrDef::Infix { func, .. } => refs(func),
        IrDef::Native { .. } => Set::empty(),
    }
}

/// The names that the first `upto` definitions refer to.
pub open spec fn all_refs(defs: Seq<IrDef>, upto: int) -> Set<Seq<char>>
    decreases upto,
{
    if upto <= 0 {
        Set::empty()
    } else {
        all_refs(defs, upto - 1).union(def_refs(defs[upto - 1]))
    }
}

/// Whether definition `i` is live: the last one, a native declaration, or
/// one whose name (or operator) some body refers to.
pub open spec fn is_live(defs: Seq<IrDef>, i: int, referenced: Set<Seq<char>>) -> bool {
    i == defs.len() - 1 || match defs[i] {
        IrDef::Bind { name, .. } => referenced.contains(name@),
        IrDef::Infix { op, .. } => referenced.contains(op@),
        IrDef::Native { .. } => true,
    }
}

/// The live definitions among the first `upto`, in order.
pub open spec fn live_output(defs: Seq<IrDef>, referenced: Set<Seq<char>>, upto: int) -> Seq<IrDef>
    decreases upto,
{
    if upto <= 0 {
        Seq::empty()
    } else {
        let prev = live_output(defs, referenced, upto - 1);
        if is_live(defs, upto - 1, referenced) {
            prev.push(defs[upto - 1])
        } else {
            prev
        }
    }
}

/// Dead definition elimination.
pub open spec fn removed_dead(defs: Seq<IrDef>) -> Seq<IrDef> {
    live_output(defs, all_refs(defs, defs.len() as int), defs.len() as int)
}

proof fn lemma_live_output_len(defs: Seq<IrDef>, referenced: Set<Seq<char>>, upto: int)
    requires
        0 <= upto <= defs.len(),
    ensures
        live_output(defs, referenced, upto).len() <= upto,
        live_output(defs, referenced, upto).len() == upto ==> live_output(defs, referenced, upto) == defs.take(upto),
    decreases upto,
{
    if upto > 0 {
        lemma_live_output_len(defs, referenced, upto - 1);
        if live_output(defs, referenced, upto).len() == upto {
            assert(live_output(defs, referenced, upto) =~= defs.take(upto));
        }
    }
}

/// Dead code elimination removes definitions or changes nothing.
pub proof fn lemma_removed_dead_len(defs: Seq<IrDef>)
    ensures
        removed_dead(defs).len() <= defs.len(),
        removed_dead(defs).len() == defs.len() ==> removed_dead(defs) == defs,
{
    lemma_live_output_len(defs, all_refs(defs, defs.len() as int), defs.len() as int);
    assert(defs.take(defs.len() as int) =~= defs);
}

/// Remove the definitions that nothing refers to, but the last one and the
/// native declarations.
pub fn remove_dead(defs: &[IrDef]) -> (r: Vec<IrDef>)
    ensures
        r@ == removed_dead(defs@),
{
    let mut referenced: Vec<String> = Vec::new();
    let mut i: usize = 0;
    while i < defs.len()
        invariant
            i <= defs@.len(),
            name_set(referenced@) == all_refs(defs@, i as int),
        decreases defs@.len() - i,
    {
        match &defs[i] {
            IrDef::Bind { expr, .. } => collect_refs(expr, &mut referenced),
            IrDef::Infix { func, .. } => collect_refs(func, &mut referenced),
            IrDef::Native { .. } => {
                proof {
                    assert(all_refs(defs@, i + 1) =~= all_refs(defs@, i as int));
                }
            },
        }
        i = i + 1;
    }
    let mut out: Vec<IrDef> = Vec::new();
    let mut j: usize = 0;
    while j < defs.len()
        invariant
            j <= defs@.len(),
            name_set(referenced@) == all_refs(defs@, defs@.len() as int),
            out@ == live_output(defs@, all_refs(defs@, defs@.len() as int), j as int),
        decreases defs@.len() - j,
    {
        let live = if j == defs.len() - 1 {
            true
        } else {
            match &defs[j] {
                IrDef::Bind { name, .. } => contains_name(&referenced, name),
                IrDef::Infix { op, .. } => contains_name(&referenced, op),
                IrDef::Native { .. } => true,
            }
        };
        if live {
            out.push(defs[j].duplicate());
        }
        j = j + 1;
    }
    out
}

/// A definition with its body β-reduced.
pub open spec fn beta_def(d: IrDef) -> IrDef {
    match d {
        IrDef::Bind { name, expr } => IrDef::Bind { name, expr: beta_reduced(expr) },
        IrDef::Infix { op, strength, func } => IrDef::Infix { op, strength, func: beta_reduced(func) },
        IrDef::Native { .. } => d,
    }
}

/// A definition with its body η-reduced.
pub open spec fn eta_def(d: IrDef) -> IrDef {
    match d {
        IrDef::Bind { name, expr } => IrDef::Bind { name, expr: eta_reduced(expr) },
        IrDef::Infix { op, strength, func } => IrDef::Infix { op, strength, func: eta_reduced(func) },
        IrDef::Native { .. } => d,
    }
}

/// One round of the pipeline: inline, β-reduce, η-reduce, drop dead
/// definitions.
pub open spec fn round(defs: Seq<IrDef>) -> Seq<IrDef> {
    removed_dead(inlined(defs).map_values(|d: IrDef| beta_def(d)).map_values(|d: IrDef| eta_def(d)))
}

/// `n` rounds of the pipeline.
pub open spec fn rounds(defs: Seq<IrDef>, n: nat) -> Seq<IrDef>
    decreases n,
{
    if n == 0 {
        defs
    } else {
        round(rounds(defs, (n - 1) as nat))
    }
}

/// The size of a definition's body (none for a native declaration).
pub open spec fn def_size(d: IrDef) -> nat {
    match d {
        IrDef::Bind { expr, .. } => size(expr),
        IrDef::Infix { func, .. } => size(func),
        IrDef::Native { .. } => 0,
    }
}

/// The sizes of all bodies, added up.
pub open spec fn total_size(defs: Seq<IrDef>) -> nat
    decreases defs.len(),
{
    if defs.len() == 0 {
        0
    } else {
        total_size(defs.drop_last()) + def_size(defs.last())
    }
}

/// Equality of terms up to the contents of their strings.
pub open spec fn same_ir(a: Ir, b: Ir) -> bool
    decreases a,
{
    match a {
        Ir::Int(x) => match b {
            Ir::Int(y) => x == y,
            _ => false,
        },
        Ir::Float(x) => match b {
            Ir::Float(y) => x@ == y@,
            _ => false,
        },
        Ir::Str(x) => match b {
            Ir::Str(y) => x@ == y@,
            _ => false,
        },
        Ir::Var(x) => match b {
            Ir::Var(y) => x@ == y@,
            _ => false,
        },
        Ir::Lam { param, body } => match b {
            Ir::Lam { param: q, body: c } => param@ == q@ && same_ir(*body, *c),
            _ => false,
        },
        Ir::App(f, x) => match b {
            Ir::App(g, y) => same_ir(*f, *g) && same_ir(*x, *y),
            _ => false,
        },
    }
}

/// Equality of definitions up to the contents of their strings.
pub open spec fn same_def(a: IrDef, b: IrDef) -> bool {
    match a {
        IrDef::Bind { name, expr } => match b {
            IrDef::Bind { name: n, expr: e } => name@ == n@ && same_ir(expr, e),
            _ => false,
        },
        IrDef::Infix { op, strength, func } => match b {
            IrDef::Infix { op: o, strength: s, func: f } => op@ == o@ && strength == s && same_ir(func, f),
            _ => false,
        },
        IrDef::Native { name, arity } => match b {
            IrDef::Native { name: n, arity: k } => name@ == n@ && arity == k,
            _ => false,
        },
    }
}

/// Equality of definition lists up to the contents of their strings.
pub open spec fn same_defs(a: Seq<IrDef>, b: Seq<IrDef>) -> bool {
    a.len() == b.len() && forall|i: int| 0 <= i < a.len() ==> same_def(#[trigger] a[i], b[i])
}

proof fn lemma_same_ir_reflexive(a: Ir)
    ensures
        same_ir(a, a),
    decreases a,
{
    match a {
        Ir::Lam { body, .. } => lemma_same_ir_reflexive(*body),
        Ir::App(f, x) => {
            lemma_same_ir_reflexive(*f);
            lemma_same_ir_reflexive(*x);
        },
        _ => {},
    }
}

proof fn lemma_same_defs_reflexive(a: Seq<IrDef>)
    ensures
        same_defs(a, a),
{
    assert forall|i: int| 0 <= i < a.len() implies same_def(#[trigger] a[i], a[i]) by {
        match a[i] {
            IrDef::Bind { expr, .. } => lemma_same_ir_reflexive(expr),
            IrDef::Infix { func, .. } => lemma_same_ir_reflexive(func),
            _ => {},
        }
    }
}

fn ir_same(a: &Ir, b: &Ir) -> (r: bool)
    ensures
        r == same_ir(*a, *b),
    decreases a,
{
    match a {
        Ir::Int(x) => match b {
            Ir::Int(y) => *x == *y,
            _ => false,
        },
        Ir::Float(x) => match b {
            Ir::Float(y) => str_eq(x, y),
            _ => false,
        },
        Ir::Str(x) => match b {
            Ir::Str(y) => str_eq(x, y),
            _ => false,
        },
        Ir::Var(x) => match b {
            Ir::Var(y) => str_eq(x, y),
            _ => false,
        },
        Ir::Lam { param, body } => match b {
            Ir::Lam { param: q, body: c } => str_eq(param, q) && ir_same(body, c),
            _ => false,
        },
        Ir::App(f, x) => match b {
            Ir::App(g, y) => ir_same(f, g) && ir_same(x, y),
            _ => false,
        },
    }
}

fn def_same(a: &IrDef, b: &IrDef) -> (r: bool)
    ensures
        r == same_def(*a, *b),
{
    match a {
        IrDef::Bind { name, expr } => match b {
            IrDef::Bind { name: n, expr: e } => str_eq(name, n) && ir_same(expr, e),
            _ => false,
        },
        IrDef::Infix { op, strength, func } => match b {
            IrDef::Infix { op: o, strength: s, func: f } => str_eq(op, o) && *strength == *s && ir_same(func, f),
            _ => false,
        },
        IrDef::Native { name, arity } => match b {
            IrDef::Native { name: n, arity: k } => str_eq(name, n) && *arity == *k,
            _ => false,
        },
    }
}

fn defs_same(a: &Vec<IrDef>, b: &Vec<IrDef>) -> (r: bool)
    ensures
        r == same_defs(a@, b@),
{
    if a.len() != b.len() {
        return false;
    }
    let mut i: usize = 0;
    while i < a.len()
        invariant
            a@.len() == b@.len(),
            i <= a@.len(),
            forall|j: int| 0 <= j < i ==> same_def(#[trigger] a@[j], b@[j]),
        decreases a@.len() - i,
    {
        if !def_same(&a[i], &b[i]) {
            return false;
        }
        i = i + 1;
    }
    true
}

proof fn lemma_beta_defs(defs: Seq<IrDef>)
    ensures
        defs.map_values(|d: IrDef| beta_def(d)).len() == defs.len(),
        total_size(defs.map_values(|d: IrDef| beta_def(d))) <= total_size(defs),
        total_size(defs.map_values(|d: IrDef| beta_def(d))) == total_size(defs) ==> defs.map_values(
            |d: IrDef| beta_def(d),
        ) == defs,
    decreases defs.len(),
{
    let m = defs.map_values(|d: IrDef| beta_def(d));
    if defs.len() > 0 {
        let rest = defs.drop_last();
        assert(m.drop_last() =~= rest.map_values(|d: IrDef| beta_def(d)));
        lemma_beta_defs(rest);
        match defs.last() {
            IrDef::Bind { expr, .. } => lemma_beta_size(expr),
            IrDef::Infix { func, .. } => lemma_beta_size(func),
            _ => {},
        }
        if total_size(m) == total_size(defs) {
            assert(m.drop_last() == rest);
            assert(m.last() == beta_def(defs.last()));
            assert(m.last() == defs.last());
            assert forall|i: int| 0 <= i < m.len() implies m[i] == defs[i] by {
                if i < m.len() - 1 {
                    assert(m[i] == m.drop_last()[i]);
                    assert(defs[i] == rest[i]);
                }
            }
            assert(m =~= defs);
        }
    } else {
        assert(m =~= defs);
    }
}

proof fn lemma_eta_defs(defs: Seq<IrDef>)
    ensures
        defs.map_values(|d: IrDef| eta_def(d)).len() == defs.len(),
        total_size(defs.map_values(|d: IrDef| eta_def(d))) <= total_size(defs),
        total_size(defs.map_values(|d: IrDef| eta_def(d))) == total_size(defs) ==> defs.map_values(
            |d: IrDef| eta_def(d),
        ) == defs,
    decreases defs.len(),
{
    let m = defs.map_values(|d: IrDef| eta_def(d));
    if defs.len() > 0 {
        let rest = defs.drop_last();
        assert(m.drop_last() =~= rest.map_values(|d: IrDef| eta_def(d)));
        lemma_eta_defs(rest);
        match defs.last() {
            IrDef::Bind { expr, .. } => lemma_eta_size(expr),
            IrDef::Infix { func, .. } => lemma_eta_size(func),
            _ => {},
        }
        if total_size(m) == total_size(defs) {
            assert(m.drop_last() == rest);
            assert(m.last() == eta_def(defs.last()));
            assert(m.last() == defs.last());
            assert forall|i: int| 0 <= i < m.len() implies m[i] == defs[i] by {
                if i < m.len() - 1 {
                    assert(m[i] == m.drop_last()[i]);
                    assert(defs[i] == rest[i]);
                }
            }
            assert(m =~= defs);
        }
    } else {
        assert(m =~= defs);
    }
}

/// A round that does not leave the definitions as they were either removes
/// definitions or shrinks the bodies: the pipeline terminates.
pub proof fn lemma_round_progress(defs: Seq<IrDef>)
    requires
        round(defs) != defs,
    ensures
        round(defs).len() < defs.len() || (round(defs).len() == defs.len() && total_size(round(defs))
            < total_size(defs)),
{
    let c1 = inlined(defs);
    let c2 = c1.map_values(|d: IrDef| beta_def(d));
    let c3 = c2.map_values(|d: IrDef| eta_def(d));
    lemma_inlined_len(defs);
    lemma_beta_defs(c1);
    lemma_eta_defs(c2);
    lemma_removed_dead_len(c3);
}

fn beta_defs(defs: Vec<IrDef>) -> (r: Vec<IrDef>)
    ensures
        r@ == defs@.map_values(|d: IrDef| beta_def(d)),
{
    let mut out: Vec<IrDef> = Vec::new();
    let mut i: usize = 0;
    while i < defs.len()
        invariant
            i <= defs@.len(),
            out@ == defs@.map_values(|d: IrDef| beta_def(d)).take(i as int),
        decreases defs@.len() - i,
    {
        let d = match &defs[i] {
            IrDef::Bind { name, expr } => IrDef::Bind { name: name.clone(), expr: beta_reduce(expr) },
            IrDef::Infix { op, strength, func } => IrDef::Infix {
                op: op.clone(),
                strength: *strength,
                func: beta_reduce(func),
            },
            IrDef::Native { .. } => defs[i].duplicate(),
        };
        out.push(d);
        proof {
            assert(out@ =~= defs@.map_values(|d: IrDef| beta_def(d)).take(i + 1));
        }
        i = i + 1;
    }
    proof {
        assert(out@ =~= defs@.map_values(|d: IrDef| beta_def(d)));
    }
    out
}

fn eta_defs(defs: Vec<IrDef>) -> (r: Vec<IrDef>)
    ensures
        r@ == defs@.map_values(|d: IrDef| eta_def(d)),
{
    let mut out: Vec<IrDef> = Vec::new();
    let mut i: usize = 0;
    while i < defs.len()
        invariant
            i <= defs@.len(),
            out@ == defs@.map_values(|d: IrDef| eta_def(d)).take(i as int),
        decreases defs@.len() - i,
    {
        let d = match &defs[i] {
            IrDef::Bind { name, expr } => IrDef::Bind { name: name.clone(), expr: eta_reduce(expr) },
            IrDef::Infix { op, strength, func } => IrDef::Infix {
                op: op.clone(),
                strength: *strength,
                func: eta_reduce(func),
            },
            IrDef::Native { .. } => defs[i].duplicate(),
        };
        out.push(d);
        proof {
            assert(out@ =~= defs@.map_values(|d: IrDef| eta_def(d)).take(i + 1));
        }
        i = i + 1;
    }
    proof {
        assert(out@ =~= defs@.map_values(|d: IrDef| eta_def(d)));
    }
    out
}

/// Run the passes (inline, β, η, dead code) until a round leaves the
/// definitions as they were.
/// `r` is `defs` after rounds of simplification, the last of which changed nothing.
pub open spec fn optimized_defs(defs: Seq<IrDef>, r: Seq<IrDef>) -> bool {
    exists|n: nat| r == rounds(defs, n + 1) && same_defs(r, rounds(defs, n))
}

pub fn optimize(defs: &[IrDef]) -> (r: Vec<IrDef>)
    ensures
        optimized_defs(defs@, r@),
{
    let mut current = copy_defs(defs);
    let ghost mut n: nat = 0;
    loop
        invariant
            current@ == rounds(defs@, n),
        decreases current@.len(), total_size(current@),
    {
        let c1 = inline_defs(current.as_slice());
        let c2 = beta_defs(c1);
        let c3 = eta_defs(c2);
        let c4 = remove_dead(c3.as_slice());
        proof {
            assert(c4@ == round(current@));
            assert(c4@ == rounds(defs@, n + 1));
        }
        if defs_same(&c4, &current) {
            return c4;
        }
        proof {
            if round(current@) == current@ {
                lemma_same_defs_reflexive(current@);
            }
            lemma_round_progress(current@);
            n = n + 1;
        }
        current = c4;
    }
}

/// `n` rounds of β- and then η-reduction of one term.
pub open spec fn simplified(ir: Ir, n: nat) -> Ir
    decreases n,
{
    if n == 0 {
        ir
    } else {
        eta_reduced(beta_reduced(simplified(ir, (n - 1) as nat)))
    }
}

proof fn lemma_round_single(name: String, e: Ir)
    ensures
        round(seq![IrDef::Bind { name, expr: e }]) == seq![
            IrDef::Bind { name, expr: eta_reduced(beta_reduced(e)) },
        ],
{
    let d = seq![IrDef::Bind { name, expr: e }];
    assert(inline_table(d) =~= Seq::<(String, Ir)>::empty());
    let c2 = d.map_values(|x: IrDef| beta_def(x));
    assert(c2 =~= seq![IrDef::Bind { name, expr: beta_reduced(e) }]);
    let c3 = c2.map_values(|x: IrDef| eta_def(x));
    assert(c3 =~= seq![IrDef::Bind { name, expr: eta_reduced(beta_reduced(e)) }]);
    let refs = all_refs(c3, 1);
    assert(is_live(c3, 0, refs));
    assert(live_output(c3, refs, 0) =~= Seq::<IrDef>::empty());
    assert(live_output(c3, refs, 1) == live_output(c3, refs, 0).push(c3[0]));
    assert(live_output(c3, refs, 1) =~= c3);
}

proof fn lemma_rounds_single(name: String, e: Ir, n: nat)
    ensures
        rounds(seq![IrDef::Bind { name, expr: e }], n) == seq![IrDef::Bind { name, expr: simplified(e, n) }],
    decreases n,
{
    if n > 0 {
        lemma_rounds_single(name, e, (n - 1) as nat);
        lemma_round_single(name, simplified(e, (n - 1) as nat));
    }
}

/// Optimise a single expression, as the body of a lone definition.
pub fn optimize_expr(ir: &Ir) -> (r: Ir)
    ensures
        exists|n: nat| r == simplified(*ir, n + 1) && same_ir(r, simplified(*ir, n)),
{
    let name = owned("$tmp");
    let ghost g = name;
    let defs = vec![IrDef::Bind { name, expr: ir.duplicate() }];
    proof {
        assert(defs@ =~= seq![IrDef::Bind { name: g, expr: *ir }]);
    }
    let out = optimize(defs.as_slice());
    let ghost n = choose|n: nat| out@ == rounds(defs@, n + 1) && same_defs(out@, rounds(defs@, n));
    proof {
        lemma_rounds_single(g, *ir, n);
        lemma_rounds_single(g, *ir, n + 1);
        assert(same_def(out@[0], rounds(defs@, n)[0]));
    }
    match &out[0] {
        IrDef::Bind { expr, .. } => expr.duplicate(),
        _ => ir.duplicate(),
    }
}

} // verus!
