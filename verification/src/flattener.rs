//! Flattening: the program's terms laid out in one arena, where every
//! reference (a variable's binding, a function's parameter and body, a call's
//! callee and argument) is an index into the arena.

use vstd::prelude::*;

use crate::desugarer::{DesugarBinding, DesugarValue, DesugarValueKind};
use crate::diagnostics::{Diagnostics, Span};
use crate::names::IndexMap;
use crate::text::{concat, owned};

verus! {

pub type FlattenIndex = usize;

#[derive(Debug)]
pub enum FlattenValueKind {
    Variable(FlattenIndex),
    Function { param: FlattenIndex, body: FlattenIndex },
    FunctionCall { callee: FlattenIndex, arg: FlattenIndex },
    String(String),
    Int(i32),
    /// A slot not filled yet: a parameter, or a binding reserved before its value.
    Unset,
}

#[derive(Debug)]
pub struct FlattenValue {
    pub span: Span,
    pub kind: FlattenValueKind,
}

impl FlattenValue {
    pub fn clone_value(&self) -> (r: FlattenValue)
        ensures
            r == *self,
    {
        let kind = match &self.kind {
            FlattenValueKind::Variable(i) => FlattenValueKind::Variable(*i),
            FlattenValueKind::Function { param, body } => FlattenValueKind::Function {
                param: *param,
                body: *body,
            },
            FlattenValueKind::FunctionCall { callee, arg } => FlattenValueKind::FunctionCall {
                callee: *callee,
                arg: *arg,
            },
            FlattenValueKind::String(s) => FlattenValueKind::String(s.clone()),
            FlattenValueKind::Int(n) => FlattenValueKind::Int(*n),
            FlattenValueKind::Unset => FlattenValueKind::Unset,
        };
        FlattenValue { span: self.span, kind }
    }
}

/// Every index the value refers to is below `n`.
pub open spec fn refs_below(k: FlattenValueKind, n: int) -> bool {
    match k {
        FlattenValueKind::Variable(i) => i < n,
        FlattenValueKind::Function { param, body } => param < n && body < n,
        FlattenValueKind::FunctionCall { callee, arg } => callee < n && arg < n,
        _ => true,
    }
}

/// Every reference in the arena points into the arena.
pub open spec fn file_closed(file: Seq<FlattenValue>) -> bool {
    forall|i: int| 0 <= i < file.len() ==> refs_below((#[trigger] file[i]).kind, file.len() as int)
}

pub open spec fn map_below(m: Map<Seq<char>, usize>, n: int) -> bool {
    forall|k: Seq<char>| #[trigger] m.contains_key(k) ==> m[k] < n
}

/// Every variable of `v` names an enclosing parameter, a name in `scope`,
/// or a name in `pool`.
pub open spec fn names_resolve(v: DesugarValue, scope: Set<Seq<char>>, pool: Set<Seq<char>>) -> bool
    decreases v,
{
    match v.kind {
        DesugarValueKind::Variable { name } => scope.contains(name@) || pool.contains(name@),
        DesugarValueKind::Function { param, body } => names_resolve(*body, scope.insert(param.name@), pool),
        DesugarValueKind::FunctionCall { callee, arg } => names_resolve(*callee, scope, pool) && names_resolve(
            *arg,
            scope,
            pool,
        ),
        _ => true,
    }
}

/// The slot a variable named `name` refers to: its innermost enclosing
/// parameter or local binding in `scope`, else its global binding in `pool`.
pub open spec fn slot_of(name: Seq<char>, scope: Map<Seq<char>, usize>, pool: Map<Seq<char>, usize>) -> usize {
    if scope.contains_key(name) {
        scope[name]
    } else {
        pool[name]
    }
}

/// `v` is laid out in `file` with its root at `i`, every slot it takes at
/// `base` or after and at `i` or before: a variable refers to its slot, a
/// function to an unset parameter slot and to its body (laid out with the
/// parameter in scope), a call to its callee and then its argument.
pub open spec fn root_laid(
    file: Seq<FlattenValue>,
    base: int,
    i: int,
    v: DesugarValue,
    scope: Map<Seq<char>, usize>,
    pool: Map<Seq<char>, usize>,
) -> bool
    decreases v,
{
    &&& 0 <= base <= i < file.len()
    &&& file[i].span == v.span
    &&& match v.kind {
        DesugarValueKind::Variable { name } => file[i].kind == FlattenValueKind::Variable(slot_of(name@, scope, pool)),
        DesugarValueKind::Function { param, body } => match file[i].kind {
            FlattenValueKind::Function { param: q, body: b } => base <= q < b < i && file[q as int].span == param.span
                && file[q as int].kind is Unset && root_laid(
                file,
                q + 1,
                b as int,
                *body,
                scope.insert(param.name@, q),
                pool,
            ),
            _ => false,
        },
        DesugarValueKind::FunctionCall { callee, arg } => match file[i].kind {
            FlattenValueKind::FunctionCall { callee: c, arg: a } => base <= c < a < i && root_laid(
                file,
                base,
                c as int,
                *callee,
                scope,
                pool,
            ) && root_laid(file, c + 1, a as int, *arg, scope, pool),
            _ => false,
        },
        DesugarValueKind::String(t) => file[i].kind matches FlattenValueKind::String(u) && u@ == t@,
        DesugarValueKind::Int(n) => file[i].kind == FlattenValueKind::Int(n),
    }
}

/// A marker for the slots a scheme reserved.
pub open spec fn scheme_frame(reserved: Map<Seq<char>, usize>, base: int) -> bool {
    true
}

/// `v`, with the scheme `scheme`, is laid out in `file` with its root at
/// `i`: the parameters of `v` as for `root_laid`, then, where the scheme is
/// not empty, a slot reserved for each of its names (`reserved`), visible
/// in the value's body, which is laid out as `root_laid` says from `b0` on.
pub open spec fn laid_with_scheme(
    file: Seq<FlattenValue>,
    base: int,
    i: int,
    v: DesugarValue,
    scheme: Seq<DesugarBinding>,
    scope: Map<Seq<char>, usize>,
    pool: Map<Seq<char>, usize>,
) -> bool
    decreases v,
{
    match v.kind {
        DesugarValueKind::Function { param, body } => {
            &&& 0 <= base <= i < file.len()
            &&& file[i].span == v.span
            &&& match file[i].kind {
                FlattenValueKind::Function { param: q, body: b } => base <= q < b < i && file[q as int].span
                    == param.span && file[q as int].kind is Unset && laid_with_scheme(
                    file,
                    q + 1,
                    b as int,
                    *body,
                    scheme,
                    scope.insert(param.name@, q),
                    pool,
                ),
                _ => false,
            }
        },
        _ => if scheme.len() == 0 {
            root_laid(file, base, i, v, scope, pool)
        } else {
            exists|reserved: Map<Seq<char>, usize>, b0: int|
                #[trigger] scheme_frame(reserved, b0) && base <= b0 && reserved.dom() == binding_names(scheme)
                    && root_laid(file, b0, i, v, scope.union_prefer_right(reserved), pool)
        },
    }
}

/// A layout without a scheme is a layout with an empty one.
pub proof fn lemma_laid_without_scheme(
    file: Seq<FlattenValue>,
    base: int,
    i: int,
    v: DesugarValue,
    scope: Map<Seq<char>, usize>,
    pool: Map<Seq<char>, usize>,
)
    requires
        root_laid(file, base, i, v, scope, pool),
    ensures
        laid_with_scheme(file, base, i, v, Seq::empty(), scope, pool),
    decreases v,
{
    match v.kind {
        DesugarValueKind::Function { param, body } => {
            match file[i].kind {
                FlattenValueKind::Function { param: q, body: b } => {
                    lemma_laid_without_scheme(file, q + 1, b as int, *body, scope.insert(param.name@, q), pool);
                },
                _ => {},
            }
        },
        _ => {},
    }
}

/// A layout with a scheme stays where the slots it takes stay.
pub proof fn lemma_laid_with_scheme_stable(
    f1: Seq<FlattenValue>,
    f2: Seq<FlattenValue>,
    base: int,
    i: int,
    v: DesugarValue,
    scheme: Seq<DesugarBinding>,
    scope: Map<Seq<char>, usize>,
    pool: Map<Seq<char>, usize>,
)
    requires
        laid_with_scheme(f1, base, i, v, scheme, scope, pool),
        i < f2.len(),
        forall|j: int| base <= j <= i ==> f2[j] == f1[j],
    ensures
        laid_with_scheme(f2, base, i, v, scheme, scope, pool),
    decreases v,
{
    match v.kind {
        DesugarValueKind::Function { param, body } => {
            match f1[i].kind {
                FlattenValueKind::Function { param: q, body: b } => {
                    lemma_laid_with_scheme_stable(f1, f2, q + 1, b as int, *body, scheme, scope.insert(param.name@, q), pool);
                },
                _ => {},
            }
        },
        _ => {
            if scheme.len() == 0 {
                lemma_root_laid_stable(f1, f2, base, i, v, scope, pool);
            } else {
                let (reserved, b0) = choose|reserved: Map<Seq<char>, usize>, b0: int|
                    #[trigger] scheme_frame(reserved, b0) && base <= b0 && reserved.dom() == binding_names(scheme)
                        && root_laid(f1, b0, i, v, scope.union_prefer_right(reserved), pool);
                lemma_root_laid_stable(f1, f2, b0, i, v, scope.union_prefer_right(reserved), pool);
                assert(scheme_frame(reserved, b0));
            }
        },
    }
}

/// The global bindings `pool`, with each of `bs` bound to its slot in `slots`.
pub open spec fn pool_after(pool: Map<Seq<char>, usize>, bs: Seq<DesugarBinding>, slots: Seq<usize>) -> Map<
    Seq<char>,
    usize,
>
    decreases bs.len(),
{
    if bs.len() == 0 || slots.len() == 0 {
        pool
    } else {
        pool_after(pool, bs.drop_last(), slots.drop_last()).insert(bs.last().name@, slots.last())
    }
}

/// Binding `b` sits at `slot`: the slot holds a copy of the root of its
/// value, laid out (with its scheme) where the binding's own name refers
/// to `slot`.
pub open spec fn binding_laid(
    file: Seq<FlattenValue>,
    slot: int,
    b: DesugarBinding,
    scope: Map<Seq<char>, usize>,
    pool: Map<Seq<char>, usize>,
) -> bool {
    exists|a: int|
        0 <= slot < a < file.len() && file[slot] == #[trigger] file[a] && laid_with_scheme(
            file,
            slot + 1,
            a,
            *b.value,
            b.scheme@,
            scope.insert(b.name@, slot as usize),
            pool,
        )
}

pub proof fn lemma_binding_laid_stable(
    f1: Seq<FlattenValue>,
    f2: Seq<FlattenValue>,
    slot: int,
    b: DesugarBinding,
    scope: Map<Seq<char>, usize>,
    pool: Map<Seq<char>, usize>,
)
    requires
        binding_laid(f1, slot, b, scope, pool),
        f1.len() <= f2.len(),
        f2.subrange(0, f1.len() as int) == f1,
    ensures
        binding_laid(f2, slot, b, scope, pool),
{
    let a = choose|a: int|
        0 <= slot < a < f1.len() && f1[slot] == #[trigger] f1[a] && laid_with_scheme(
            f1,
            slot + 1,
            a,
            *b.value,
            b.scheme@,
            scope.insert(b.name@, slot as usize),
            pool,
        );
    assert forall|j: int| slot + 1 <= j <= a implies f2[j] == f1[j] by {
        assert(f2.subrange(0, f1.len() as int)[j] == f1[j]);
    }
    assert(f2.subrange(0, f1.len() as int)[slot] == f1[slot]);
    assert(f2.subrange(0, f1.len() as int)[a] == f1[a]);
    lemma_laid_with_scheme_stable(f1, f2, slot + 1, a, *b.value, b.scheme@, scope.insert(b.name@, slot as usize), pool);
    assert(f2[slot] == f2[a]);
}

/// `f` is what flattening `bindings` after the arena of `fl` gives: the old
/// arena as a prefix, each binding at a slot of its own (`binding_laid`),
/// and the global names of `fl` with each binding's name bound to its slot.
pub open spec fn flattened(fl: Flattener, bindings: Seq<DesugarBinding>, f: Flatten) -> bool {
    &&& f.file@.subrange(0, fl.len() as int) == fl.file()
    &&& exists|slots: Seq<usize>|
        #[trigger] pool_after(fl.pool(), bindings, slots) == f.bindings@ && slots.len() == bindings.len() && forall|
            k: int,
        |
            0 <= k < bindings.len() ==> binding_laid(
                f.file@,
                #[trigger] slots[k] as int,
                bindings[k],
                fl.scope(),
                pool_after(fl.pool(), bindings.take(k), slots.take(k)),
            )
}

/// A layout stays where the slots it takes stay.
pub proof fn lemma_root_laid_stable(
    f1: Seq<FlattenValue>,
    f2: Seq<FlattenValue>,
    base: int,
    i: int,
    v: DesugarValue,
    scope: Map<Seq<char>, usize>,
    pool: Map<Seq<char>, usize>,
)
    requires
        root_laid(f1, base, i, v, scope, pool),
        i < f2.len(),
        forall|j: int| base <= j <= i ==> f2[j] == f1[j],
    ensures
        root_laid(f2, base, i, v, scope, pool),
    decreases v,
{
    match v.kind {
        DesugarValueKind::Function { param, body } => {
            match f1[i].kind {
                FlattenValueKind::Function { param: q, body: b } => {
                    lemma_root_laid_stable(f1, f2, q + 1, b as int, *body, scope.insert(param.name@, q), pool);
                },
                _ => {},
            }
        },
        DesugarValueKind::FunctionCall { callee, arg } => {
            match f1[i].kind {
                FlattenValueKind::FunctionCall { callee: c, arg: a } => {
                    lemma_root_laid_stable(f1, f2, base, c as int, *callee, scope, pool);
                    lemma_root_laid_stable(f1, f2, c + 1, a as int, *arg, scope, pool);
                },
                _ => {},
            }
        },
        _ => {},
    }
}

/// Some name of `m` has the slot `j`.
pub open spec fn holds_slot(m: Map<Seq<char>, usize>, j: int) -> bool {
    exists|k: Seq<char>| #[trigger] m.contains_key(k) && m[k] == j
}

/// The names the bindings in `bs` bind.
pub open spec fn binding_names(bs: Seq<DesugarBinding>) -> Set<Seq<char>> {
    Set::new(|s: Seq<char>| exists|i: int| 0 <= i < bs.len() && (#[trigger] bs[i]).name@ == s)
}

/// The values of a scheme resolve where all of its names are visible; a
/// binding with a scheme of its own sees that scheme's names too.
pub open spec fn scheme_resolves(scheme: Seq<DesugarBinding>, scope: Set<Seq<char>>, pool: Set<Seq<char>>) -> bool
    decreases scheme,
{
    forall|i: int|
        0 <= i < scheme.len() ==> {
            let sb = #[trigger] scheme[i];
            if sb.scheme@.len() == 0 {
                names_resolve(*sb.value, scope, pool)
            } else {
                let inner = scope.union(binding_names(sb.scheme@));
                scheme_resolves(sb.scheme@, inner, pool) && names_resolve(*sb.value, inner, pool)
            }
        }
}

/// A value with a scheme: the scheme is seen inside the value's parameters.
pub open spec fn value_with_scheme_resolves(
    v: DesugarValue,
    scheme: Seq<DesugarBinding>,
    scope: Set<Seq<char>>,
    pool: Set<Seq<char>>,
) -> bool
    decreases v,
{
    match v.kind {
        DesugarValueKind::Function { param, body } => value_with_scheme_resolves(
            *body,
            scheme,
            scope.insert(param.name@),
            pool,
        ),
        _ => if scheme.len() == 0 {
            names_resolve(v, scope, pool)
        } else {
            let inner = scope.union(binding_names(scheme));
            scheme_resolves(scheme, inner, pool) && names_resolve(v, inner, pool)
        },
    }
}

/// A global binding: its own name is visible in its value.
pub open spec fn binding_resolves(b: DesugarBinding, scope: Set<Seq<char>>, pool: Set<Seq<char>>) -> bool {
    let s = scope.insert(b.name@);
    if b.scheme@.len() == 0 {
        names_resolve(*b.value, s, pool)
    } else {
        value_with_scheme_resolves(*b.value, b.scheme@, s, pool)
    }
}

/// The program's bindings, in order, each seeing the ones before it.
pub open spec fn bindings_resolve(bs: Seq<DesugarBinding>, scope: Set<Seq<char>>, pool: Set<Seq<char>>) -> bool
    decreases bs.len(),
{
    if bs.len() == 0 {
        true
    } else {
        binding_resolves(bs[0], scope, pool) && bindings_resolve(bs.drop_first(), scope, pool.insert(bs[0].name@))
    }
}

#[derive(Debug)]
pub struct Flatten {
    pub file: Vec<FlattenValue>,
    pub bindings: IndexMap,
}

pub struct Flattener {
    flatten_file: Vec<FlattenValue>,
    binding_pool: IndexMap,
    binding_scope: IndexMap,
}

proof fn lemma_closed_push(file: Seq<FlattenValue>, v: FlattenValue)
    requires
        file_closed(file),
        refs_below(v.kind, file.len() as int),
    ensures
        file_closed(file.push(v)),
{
    let f = file.push(v);
    assert forall|i: int| 0 <= i < f.len() implies refs_below((#[trigger] f[i]).kind, f.len() as int) by {
        if i < file.len() {
            assert(f[i] == file[i]);
        }
    }
}

impl Flattener {
    pub closed spec fn wf(&self) -> bool {
        let n = self.flatten_file@.len() as int;
        &&& file_closed(self.flatten_file@)
        &&& self.binding_pool.wf()
        &&& self.binding_scope.wf()
        &&& map_below(self.binding_pool@, n)
        &&& map_below(self.binding_scope@, n)
    }

    pub closed spec fn len(&self) -> nat {
        self.flatten_file@.len()
    }

    pub closed spec fn scope(&self) -> Map<Seq<char>, usize> {
        self.binding_scope@
    }

    pub closed spec fn pool(&self) -> Map<Seq<char>, usize> {
        self.binding_pool@
    }

    /// The arena.
    pub closed spec fn file(&self) -> Seq<FlattenValue> {
        self.flatten_file@
    }

    pub fn new() -> (f: Flattener)
        ensures
            f.wf(),
            f.len() == 0,
            f.pool() == Map::<Seq<char>, usize>::empty(),
            f.scope() == Map::<Seq<char>, usize>::empty(),
    {
        Flattener {
            flatten_file: Vec::new(),
            binding_pool: IndexMap::new(),
            binding_scope: IndexMap::new(),
        }
    }

    /// Appends `value` to the arena and returns its index.
    pub fn allocate(&mut self, value: FlattenValue) -> (idx: FlattenIndex)
        requires
            old(self).wf(),
            refs_below(value.kind, old(self).len() as int),
        ensures
            final(self).wf(),
            idx == old(self).len(),
            final(self).len() == old(self).len() + 1,
            final(self).pool() == old(self).pool(),
            final(self).scope() == old(self).scope(),
            final(self).file() == old(self).file().push(value),
    {
        let idx = self.flatten_file.len();
        proof {
            lemma_closed_push(self.flatten_file@, value);
        }
        self.flatten_file.push(value);
        idx
    }

    /// A binding available to every program compiled afterwards (a built-in).
    pub fn insert_binding(&mut self, binding: (String, FlattenValue))
        requires
            old(self).wf(),
            refs_below(binding.1.kind, old(self).len() as int),
        ensures
            final(self).wf(),
            final(self).len() == old(self).len() + 1,
            final(self).pool() == old(self).pool().insert(binding.0@, old(self).len() as usize),
            final(self).scope() == old(self).scope(),
            final(self).file() == old(self).file().push(binding.1),
    {
        let (name, value) = binding;
        let value_idx = self.allocate(value);
        self.binding_pool.insert(name, value_idx);
    }

    fn set_slot(&mut self, slot: usize, from: usize)
        requires
            old(self).wf(),
            slot < old(self).len(),
            from < old(self).len(),
        ensures
            final(self).wf(),
            final(self).len() == old(self).len(),
            final(self).pool() == old(self).pool(),
            final(self).scope() == old(self).scope(),
            final(self).file() == old(self).file().update(slot as int, old(self).file()[from as int]),
    {
        let v = self.flatten_file[from].clone_value();
        self.flatten_file.set(slot, v);
        proof {
            let f = self.flatten_file@;
            assert forall|i: int| 0 <= i < f.len() implies refs_below((#[trigger] f[i]).kind, f.len() as int) by {
                if i != slot {
                    assert(f[i] == old(self).flatten_file@[i]);
                } else {
                    assert(f[i] == old(self).flatten_file@[from as int]);
                }
            }
        }
    }

    fn restore_scope(&mut self, scope: IndexMap)
        requires
            old(self).wf(),
            scope.wf(),
            map_below(scope@, old(self).len() as int),
        ensures
            final(self).wf(),
            final(self).len() == old(self).len(),
            final(self).pool() == old(self).pool(),
            final(self).scope() == scope@,
            final(self).file() == old(self).file(),
    {
        self.binding_scope = scope;
    }

    fn bind_in_scope(&mut self, name: String, idx: usize)
        requires
            old(self).wf(),
            idx < old(self).len(),
        ensures
            final(self).wf(),
            final(self).len() == old(self).len(),
            final(self).pool() == old(self).pool(),
            final(self).scope() == old(self).scope().insert(name@, idx),
            final(self).file() == old(self).file(),
    {
        self.binding_scope.insert(name, idx);
    }

    fn not_found(name: &String, span: Span) -> (d: Diagnostics)
        ensures
            d.message@ == "not found variable '"@ + name@ + "'"@,
            d.span == span,
    {
        let msg = concat(&concat(&owned("not found variable '"), name.as_str()), "'");
        Diagnostics::compiler_error(msg, span)
    }

    /// Lays out `value` in the arena and returns the index of its root.
    ///
    /// A variable refers to the innermost enclosing parameter or local binding
    /// of that name, else to a global binding; with neither it is an error.
    pub fn flatten_value(&mut self, value: &DesugarValue) -> (r: Result<usize, Diagnostics>)
        requires
            old(self).wf(),
        ensures
            final(self).wf(),
            final(self).len() >= old(self).len(),
            final(self).pool() == old(self).pool(),
            r matches Ok(i) ==> i < final(self).len() && final(self).scope() == old(self).scope(),
            r is Ok <==> names_resolve(*value, old(self).scope().dom(), old(self).pool().dom()),
            final(self).file().subrange(0, old(self).len() as int) == old(self).file(),
            r matches Ok(i) ==> i == final(self).len() - 1 && root_laid(
                final(self).file(),
                old(self).len() as int,
                i as int,
                *value,
                old(self).scope(),
                old(self).pool(),
            ),
            match value.kind {
                DesugarValueKind::Variable { name } => (!old(self).scope().contains_key(name@) && !old(
                    self,
                ).pool().contains_key(name@)) ==> (r matches Err(d) && d.message@ == "not found variable '"@ + name@
                    + "'"@ && d.span == value.span && final(self).file() == old(self).file()),
                _ => true,
            },
        decreases value,
    {
        let ghost f0 = self.file();
        let ghost n0 = self.len() as int;
        let ghost sc0 = self.scope();
        let ghost pl0 = self.pool();
        match &value.kind {
            DesugarValueKind::Variable { name } => {
                match self.binding_scope.get(name) {
                    Some(variable_index) => {
                        return Ok(
                            self.allocate(
                                FlattenValue {
                                    span: value.span,
                                    kind: FlattenValueKind::Variable(variable_index),
                                },
                            ),
                        );
                    },
                    None => {},
                }
                match self.binding_pool.get(name) {
                    Some(binding_value) => Ok(
                        self.allocate(
                            FlattenValue {
                                span: value.span,
                                kind: FlattenValueKind::Variable(binding_value),
                            },
                        ),
                    ),
                    None => Err(Self::not_found(name, value.span)),
                }
            },
            DesugarValueKind::Function { param, body } => {
                let param_index = self.allocate(
                    FlattenValue { span: param.span, kind: FlattenValueKind::Unset },
                );
                let parent_scope = self.binding_scope.clone_map();
                self.bind_in_scope(param.name.clone(), param_index);
                let ghost f1 = self.file();
                let body_r = self.flatten_value(body);
                proof {
                    assert(self.file().subrange(0, n0) =~= f0) by {
                        assert forall|j: int| 0 <= j < n0 implies self.file()[j] == f0[j] by {
                            assert(self.file().subrange(0, f1.len() as int)[j] == f1[j]);
                        }
                    }
                }
                let body_idx = body_r?;
                self.restore_scope(parent_scope);
                let ghost f2 = self.file();
                let idx = self.allocate(
                    FlattenValue {
                        span: value.span,
                        kind: FlattenValueKind::Function { param: param_index, body: body_idx },
                    },
                );
                proof {
                    assert(self.file().subrange(0, n0) =~= f0) by {
                        assert forall|j: int| 0 <= j < n0 implies self.file()[j] == f0[j] by {
                            assert(self.file()[j] == f2[j]);
                            assert(f2.subrange(0, f1.len() as int)[j] == f1[j]);
                        }
                    }
                    assert(self.file()[param_index as int] == f2[param_index as int]);
                    assert(f2.subrange(0, f1.len() as int)[param_index as int] == f1[param_index as int]);
                    lemma_root_laid_stable(
                        f2,
                        self.file(),
                        param_index + 1,
                        body_idx as int,
                        **body,
                        sc0.insert(param.name@, param_index),
                        pl0,
                    );
                }
                Ok(idx)
            },
            DesugarValueKind::FunctionCall { callee, arg } => {
                let callee_r = self.flatten_value(callee);
                let ghost f1 = self.file();
                proof {
                    assert(self.file().subrange(0, n0) =~= f0);
                }
                let callee_idx = callee_r?;
                let arg_r = self.flatten_value(arg);
                let ghost f2 = self.file();
                proof {
                    assert(self.file().subrange(0, n0) =~= f0) by {
                        assert forall|j: int| 0 <= j < n0 implies self.file()[j] == f0[j] by {
                            assert(f2.subrange(0, f1.len() as int)[j] == f1[j]);
                            assert(f1.subrange(0, n0)[j] == f0[j]);
                        }
                    }
                }
                let arg_idx = arg_r?;
                let idx = self.allocate(
                    FlattenValue {
                        span: value.span,
                        kind: FlattenValueKind::FunctionCall { callee: callee_idx, arg: arg_idx },
                    },
                );
                proof {
                    assert(self.file().subrange(0, n0) =~= f0) by {
                        assert forall|j: int| 0 <= j < n0 implies self.file()[j] == f0[j] by {
                            assert(self.file()[j] == f2[j]);
                            assert(f2.subrange(0, f1.len() as int)[j] == f1[j]);
                            assert(f1.subrange(0, n0)[j] == f0[j]);
                        }
                    }
                    assert forall|j: int| n0 <= j <= callee_idx implies self.file()[j] == f1[j] by {
                        assert(self.file()[j] == f2[j]);
                        assert(f2.subrange(0, f1.len() as int)[j] == f1[j]);
                    }
                    lemma_root_laid_stable(f1, self.file(), n0, callee_idx as int, **callee, sc0, pl0);
                    lemma_root_laid_stable(f2, self.file(), callee_idx + 1, arg_idx as int, **arg, sc0, pl0);
                }
                Ok(idx)
            },
            DesugarValueKind::String(text) => Ok(
                self.allocate(
                    FlattenValue { span: value.span, kind: FlattenValueKind::String(text.clone()) },
                ),
            ),
            DesugarValueKind::Int(n) => Ok(
                self.allocate(FlattenValue { span: value.span, kind: FlattenValueKind::Int(*n) }),
            ),
        }
    }

    /// Reserves a slot for each binding of `scheme` and makes its name visible.
    fn reserve_scheme(&mut self, scheme: &Vec<DesugarBinding>) -> (reserved: IndexMap)
        requires
            old(self).wf(),
        ensures
            final(self).wf(),
            final(self).len() >= old(self).len(),
            final(self).pool() == old(self).pool(),
            reserved.wf(),
            map_below(reserved@, final(self).len() as int),
            forall|i: int| 0 <= i < scheme@.len() ==> reserved@.contains_key((#[trigger] scheme@[i]).name@),
            final(self).scope().dom() == old(self).scope().dom().union(binding_names(scheme@)),
            final(self).file().subrange(0, old(self).len() as int) == old(self).file(),
            forall|k: Seq<char>| #[trigger] reserved@.contains_key(k) ==> old(self).len() <= reserved@[k],
            final(self).scope() == old(self).scope().union_prefer_right(reserved@),
            reserved@.dom() == binding_names(scheme@),
    {
        let mut reserved = IndexMap::new();
        let mut i: usize = 0;
        proof {
            assert(binding_names(scheme@.take(0)) =~= Set::<Seq<char>>::empty());
            assert(self.scope().dom() =~= old(self).scope().dom().union(binding_names(scheme@.take(0))));
            assert(self.scope() =~= old(self).scope().union_prefer_right(reserved@));
            assert(reserved@.dom() =~= binding_names(scheme@.take(0)));
        }
        while i < scheme.len()
            invariant
                self.wf(),
                self.len() >= old(self).len(),
                self.pool() == old(self).pool(),
                i <= scheme@.len(),
                reserved.wf(),
                map_below(reserved@, self.len() as int),
                forall|j: int| 0 <= j < i ==> reserved@.contains_key((#[trigger] scheme@[j]).name@),
                self.scope().dom() == old(self).scope().dom().union(binding_names(scheme@.take(i as int))),
                self.file().subrange(0, old(self).len() as int) == old(self).file(),
                forall|k: Seq<char>| #[trigger] reserved@.contains_key(k) ==> old(self).len() <= reserved@[k],
                self.scope() == old(self).scope().union_prefer_right(reserved@),
                reserved@.dom() == binding_names(scheme@.take(i as int)),
            decreases scheme@.len() - i,
        {
            let ghost fb = self.file();
            let ghost sc0 = self.scope();
            let ghost rv0 = reserved@;
            let idx = self.allocate(FlattenValue { span: scheme[i].value.span, kind: FlattenValueKind::Unset });
            self.bind_in_scope(scheme[i].name.clone(), idx);
            reserved.insert(scheme[i].name.clone(), idx);
            proof {
                assert(self.file().subrange(0, old(self).len() as int) =~= old(self).file()) by {
                    assert forall|j: int| 0 <= j < old(self).len() implies self.file()[j] == old(self).file()[j] by {
                        assert(fb.subrange(0, old(self).len() as int)[j] == old(self).file()[j]);
                    }
                }
                let t0 = scheme@.take(i as int);
                let t1 = scheme@.take(i + 1);
                assert forall|k: Seq<char>| binding_names(t1).contains(k) <==> (binding_names(t0).contains(k) || k == scheme@[i as int].name@) by {
                    if binding_names(t1).contains(k) {
                        let j = choose|j: int| 0 <= j < t1.len() && (#[trigger] t1[j]).name@ == k;
                        if j < i {
                            assert(t0[j] == t1[j]);
                        }
                    }
                    if binding_names(t0).contains(k) {
                        let j = choose|j: int| 0 <= j < t0.len() && (#[trigger] t0[j]).name@ == k;
                        assert(t1[j] == t0[j]);
                    }
                    if k == scheme@[i as int].name@ {
                        assert(t1[i as int].name@ == k);
                    }
                }
                assert(self.scope().dom() =~= old(self).scope().dom().union(binding_names(t1)));
                assert(self.scope() =~= old(self).scope().union_prefer_right(reserved@));
                assert(reserved@.dom() =~= binding_names(t1));
            }
            i = i + 1;
        }
        proof {
            assert(scheme@.take(scheme@.len() as int) =~= scheme@);
        }
        reserved
    }

    /// Fills the reserved slot of each binding of `scheme` with its value.
    fn flatten_binding_scheme(&mut self, scheme: &Vec<DesugarBinding>, reserved: &IndexMap) -> (r: Result<
        (),
        Diagnostics,
    >)
        requires
            old(self).wf(),
            reserved.wf(),
            map_below(reserved@, old(self).len() as int),
            forall|i: int| 0 <= i < scheme@.len() ==> reserved@.contains_key((#[trigger] scheme@[i]).name@),
        ensures
            final(self).wf(),
            final(self).len() >= old(self).len(),
            final(self).pool() == old(self).pool(),
            r is Ok ==> final(self).scope() == old(self).scope(),
            r is Ok <==> scheme_resolves(scheme@, old(self).scope().dom(), old(self).pool().dom()),
            forall|j: int|
                0 <= j < old(self).len() && !holds_slot(reserved@, j) ==> #[trigger] final(self).file()[j] == old(
                    self,
                ).file()[j],
        decreases scheme@,
    {
        let ghost scope = old(self).scope().dom();
        let ghost pool = old(self).pool().dom();
        let mut i: usize = 0;
        while i < scheme.len()
            invariant
                self.wf(),
                self.len() >= old(self).len(),
                self.pool() == old(self).pool(),
                self.scope() == old(self).scope(),
                scope == old(self).scope().dom(),
                pool == old(self).pool().dom(),
                reserved.wf(),
                map_below(reserved@, old(self).len() as int),
                forall|j: int| 0 <= j < scheme@.len() ==> reserved@.contains_key((#[trigger] scheme@[j]).name@),
                forall|j: int|
                    0 <= j < old(self).len() && !holds_slot(reserved@, j) ==> #[trigger] self.file()[j] == old(
                        self,
                    ).file()[j],
                forall|j: int|
                    0 <= j < i ==> {
                        let sb = #[trigger] scheme@[j];
                        if sb.scheme@.len() == 0 {
                            names_resolve(*sb.value, scope, pool)
                        } else {
                            let inner = scope.union(binding_names(sb.scheme@));
                            scheme_resolves(sb.scheme@, inner, pool) && names_resolve(*sb.value, inner, pool)
                        }
                    },
            decreases scheme@.len() - i,
        {
            let sb = &scheme[i];
            let reserved_idx = match reserved.get(&sb.name) {
                Some(idx) => idx,
                None => {
                    proof {
                        assert(reserved@.contains_key(scheme@[i as int].name@));
                    }
                    return Ok(());
                },
            };
            let ghost fa = self.file();
            proof {
                assert(holds_slot(reserved@, reserved_idx as int)) by {
                    assert(reserved@.contains_key(sb.name@));
                }
            }
            if sb.scheme.len() == 0 {
                let actual_r = self.flatten_value(&sb.value);
                proof {
                    assert forall|j: int| 0 <= j < old(self).len() && !holds_slot(reserved@, j) implies #[trigger] self.file()[j]
                        == old(self).file()[j] by {
                        assert(self.file().subrange(0, fa.len() as int)[j] == fa[j]);
                    }
                }
                let actual_idx = match actual_r {
                    Ok(x) => x,
                    Err(e) => {
                        proof {
                            assert(!scheme_resolves(scheme@, scope, pool));
                        }
                        return Err(e);
                    },
                };
                self.set_slot(reserved_idx, actual_idx);
            } else {
                let saved_scope = self.binding_scope.clone_map();
                let nested = self.reserve_scheme(&sb.scheme);
                let ghost fn0 = self.file();
                let ghost nn0 = self.len() as int;
                proof {
                    assert(decreases_to!(scheme@ => scheme@[i as int]));
                }
                let nested_r = self.flatten_binding_scheme(&sb.scheme, &nested);
                let ghost fn1 = self.file();
                proof {
                    assert forall|j: int| 0 <= j < old(self).len() && !holds_slot(reserved@, j) implies #[trigger] self.file()[j]
                        == old(self).file()[j] by {
                        assert(fn0.subrange(0, fa.len() as int)[j] == fa[j]);
                        if holds_slot(nested@, j) {
                            let k = choose|k: Seq<char>| #[trigger] nested@.contains_key(k) && nested@[k] == j;
                        }
                    }
                }
                match nested_r {
                    Ok(_) => {},
                    Err(e) => {
                        proof {
                            assert(!scheme_resolves(scheme@, scope, pool));
                        }
                        return Err(e);
                    },
                }
                let actual_r = self.flatten_value(&sb.value);
                proof {
                    assert forall|j: int| 0 <= j < old(self).len() && !holds_slot(reserved@, j) implies #[trigger] self.file()[j]
                        == old(self).file()[j] by {
                        assert(self.file().subrange(0, fn1.len() as int)[j] == fn1[j]);
                    }
                }
                let actual_idx = match actual_r {
                    Ok(x) => x,
                    Err(e) => {
                        proof {
                            assert(!scheme_resolves(scheme@, scope, pool));
                        }
                        return Err(e);
                    },
                };
                self.set_slot(reserved_idx, actual_idx);
                self.restore_scope(saved_scope);
            }
            i = i + 1;
        }
        Ok(())
    }

    fn flatten_value_with_scheme(&mut self, value: &DesugarValue, scheme: &Vec<DesugarBinding>) -> (r: Result<
        usize,
        Diagnostics,
    >)
        requires
            old(self).wf(),
        ensures
            final(self).wf(),
            final(self).len() >= old(self).len(),
            final(self).pool() == old(self).pool(),
            r matches Ok(i) ==> i < final(self).len() && final(self).scope() == old(self).scope(),
            r is Ok <==> value_with_scheme_resolves(*value, scheme@, old(self).scope().dom(), old(self).pool().dom()),
            final(self).file().subrange(0, old(self).len() as int) == old(self).file(),
            r matches Ok(i) ==> old(self).len() <= i,
            r matches Ok(i) ==> i == final(self).len() - 1 && laid_with_scheme(
                final(self).file(),
                old(self).len() as int,
                i as int,
                *value,
                scheme@,
                old(self).scope(),
                old(self).pool(),
            ),
        decreases value,
    {
        let ghost f0 = self.file();
        let ghost n0 = self.len() as int;
        let ghost sc0 = self.scope();
        let ghost pl0 = self.pool();
        match &value.kind {
            DesugarValueKind::Function { param, body } => {
                let param_index = self.allocate(
                    FlattenValue { span: param.span, kind: FlattenValueKind::Unset },
                );
                let parent_scope = self.binding_scope.clone_map();
                self.bind_in_scope(param.name.clone(), param_index);
                let ghost f1 = self.file();
                let body_r = self.flatten_value_with_scheme(body, scheme);
                proof {
                    assert(self.file().subrange(0, n0) =~= f0) by {
                        assert forall|j: int| 0 <= j < n0 implies self.file()[j] == f0[j] by {
                            assert(self.file().subrange(0, f1.len() as int)[j] == f1[j]);
                        }
                    }
                }
                let body_idx = body_r?;
                self.restore_scope(parent_scope);
                let ghost f2 = self.file();
                let idx = self.allocate(
                    FlattenValue {
                        span: value.span,
                        kind: FlattenValueKind::Function { param: param_index, body: body_idx },
                    },
                );
                proof {
                    assert(self.file().subrange(0, n0) =~= f0) by {
                        assert forall|j: int| 0 <= j < n0 implies self.file()[j] == f0[j] by {
                            assert(self.file()[j] == f2[j]);
                            assert(f2.subrange(0, n0)[j] == f0[j]);
                        }
                    }
                    assert(self.file()[param_index as int] == f2[param_index as int]);
                    assert(f2.subrange(0, f1.len() as int)[param_index as int] == f1[param_index as int]);
                    lemma_laid_with_scheme_stable(
                        f2,
                        self.file(),
                        param_index + 1,
                        body_idx as int,
                        **body,
                        scheme@,
                        sc0.insert(param.name@, param_index),
                        pl0,
                    );
                }
                Ok(idx)
            },
            _ => {
                if scheme.len() == 0 {
                    return self.flatten_value(value);
                }
                let saved_scope = self.binding_scope.clone_map();
                let reserved = self.reserve_scheme(scheme);
                let ghost f1 = self.file();
                let sr = self.flatten_binding_scheme(scheme, &reserved);
                let ghost f2 = self.file();
                proof {
                    assert(self.file().subrange(0, n0) =~= f0) by {
                        assert forall|j: int| 0 <= j < n0 implies self.file()[j] == f0[j] by {
                            assert(f1.subrange(0, n0)[j] == f0[j]);
                            if holds_slot(reserved@, j) {
                                let k = choose|k: Seq<char>| #[trigger] reserved@.contains_key(k) && reserved@[k] == j;
                            }
                        }
                    }
                }
                sr?;
                let ghost b0 = self.len() as int;
                let ghost scope_in = self.scope();
                proof {
                    assert(scope_in == sc0.union_prefer_right(reserved@));
                }
                let result_r = self.flatten_value(value);
                proof {
                    assert(self.file().subrange(0, n0) =~= f0) by {
                        assert forall|j: int| 0 <= j < n0 implies self.file()[j] == f0[j] by {
                            assert(self.file().subrange(0, f2.len() as int)[j] == f2[j]);
                            assert(f2.subrange(0, n0)[j] == f0[j]);
                        }
                    }
                }
                let result = result_r?;
                self.restore_scope(saved_scope);
                proof {
                    assert(scheme_frame(reserved@, b0));
                }
                Ok(result)
            },
        }
    }

    /// Lays out one global binding; its name refers to its slot from then on.
    pub fn flatten_binding(&mut self, binding: &DesugarBinding) -> (r: Result<FlattenIndex, Diagnostics>)
        requires
            old(self).wf(),
        ensures
            final(self).wf(),
            final(self).len() >= old(self).len(),
            r matches Ok(i) ==> i < final(self).len() && final(self).pool() == old(self).pool().insert(
                binding.name@,
                i,
            ),
            r is Ok ==> final(self).scope() == old(self).scope(),
            r is Ok <==> binding_resolves(*binding, old(self).scope().dom(), old(self).pool().dom()),
            r is Ok ==> final(self).file().subrange(0, old(self).len() as int) == old(self).file(),
            r matches Ok(i) ==> i == old(self).len() && exists|a: int|
                i < a < final(self).len() && final(self).file()[i as int] == #[trigger] final(self).file()[a]
                    && laid_with_scheme(
                    final(self).file(),
                    i + 1,
                    a,
                    *binding.value,
                    binding.scheme@,
                    old(self).scope().insert(binding.name@, i),
                    old(self).pool(),
                ),
    {
        let ghost f0 = self.file();
        let ghost n0 = self.len() as int;
        let parent_scope = self.binding_scope.clone_map();
        let main_reserved_idx = self.allocate(
            FlattenValue { span: binding.value.span, kind: FlattenValueKind::Unset },
        );
        self.bind_in_scope(binding.name.clone(), main_reserved_idx);
        let ghost f1 = self.file();
        let actual_main_idx = if binding.scheme.len() == 0 {
            self.flatten_value(&binding.value)?
        } else {
            self.flatten_value_with_scheme(&binding.value, &binding.scheme)?
        };
        let ghost f2 = self.file();
        self.set_slot(main_reserved_idx, actual_main_idx);
        self.binding_pool.insert(binding.name.clone(), main_reserved_idx);
        self.restore_scope(parent_scope);
        proof {
            assert(self.file().subrange(0, n0) =~= f0) by {
                assert forall|j: int| 0 <= j < n0 implies self.file()[j] == f0[j] by {
                    assert(f2.subrange(0, f1.len() as int)[j] == f1[j]);
                }
            }
            assert(self.file()[main_reserved_idx as int] == self.file()[actual_main_idx as int]);
            if binding.scheme@.len() == 0 {
                lemma_laid_without_scheme(
                    f2,
                    main_reserved_idx + 1,
                    actual_main_idx as int,
                    *binding.value,
                    old(self).scope().insert(binding.name@, main_reserved_idx),
                    old(self).pool(),
                );
                assert(binding.scheme@ =~= Seq::<DesugarBinding>::empty());
            }
            lemma_laid_with_scheme_stable(
                f2,
                self.file(),
                main_reserved_idx + 1,
                actual_main_idx as int,
                *binding.value,
                binding.scheme@,
                old(self).scope().insert(binding.name@, main_reserved_idx),
                old(self).pool(),
            );
        }
        Ok(main_reserved_idx)
    }

    /// The arena of a whole program, with the slot of every global binding
    /// (built-ins first, then the program's bindings in order).
    ///
    /// In the result every reference points into the arena.
    pub fn flatten(self, bindings: Vec<DesugarBinding>) -> (r: Result<Flatten, Diagnostics>)
        requires
            self.wf(),
        ensures
            r matches Ok(f) ==> file_closed(f.file@) && f.bindings.wf() && map_below(
                f.bindings@,
                f.file@.len() as int,
            ),
            r is Ok <==> bindings_resolve(bindings@, self.scope().dom(), self.pool().dom()),
            r matches Ok(f) ==> f.file@.subrange(0, self.len() as int) == self.file(),
            r matches Ok(f) ==> flattened(self, bindings@, f),
    {
        let ghost scope = self.scope().dom();
        let ghost mut slots: Seq<usize> = Seq::empty();
        let ghost whole = bindings_resolve(bindings@, self.scope().dom(), self.pool().dom());
        let mut this = self;
        let mut flatten_bindings = this.binding_pool.clone_map();
        let mut i: usize = 0;
        proof {
            assert(bindings@.subrange(0, bindings@.len() as int) =~= bindings@);
        }
        while i < bindings.len()
            invariant
                this.wf(),
                flatten_bindings.wf(),
                map_below(flatten_bindings@, this.len() as int),
                i <= bindings@.len(),
                this.scope().dom() == scope,
                whole == bindings_resolve(
                    bindings@.subrange(i as int, bindings@.len() as int),
                    scope,
                    this.pool().dom(),
                ),
                whole == bindings_resolve(bindings@, self.scope().dom(), self.pool().dom()),
                this.len() >= self.len(),
                this.file().subrange(0, self.len() as int) == self.file(),
                this.scope() == self.scope(),
                slots.len() == i,
                flatten_bindings@ == this.pool(),
                this.pool() == pool_after(self.pool(), bindings@.take(i as int), slots),
                forall|k: int|
                    0 <= k < i ==> binding_laid(
                        this.file(),
                        #[trigger] slots[k] as int,
                        bindings@[k],
                        self.scope(),
                        pool_after(self.pool(), bindings@.take(k), slots.take(k)),
                    ),
            decreases bindings@.len() - i,
        {
            let ghost fb = this.file();
            let ghost pool_before = this.pool();
            proof {
                let rest = bindings@.subrange(i as int, bindings@.len() as int);
                assert(rest[0] == bindings@[i as int]);
                assert(rest.drop_first() =~= bindings@.subrange(i + 1, bindings@.len() as int));
            }
            let idx = this.flatten_binding(&bindings[i])?;
            proof {
                assert(this.file().subrange(0, self.len() as int) =~= self.file()) by {
                    assert forall|j: int| 0 <= j < self.len() implies this.file()[j] == self.file()[j] by {
                        assert(this.file().subrange(0, fb.len() as int)[j] == fb[j]);
                        assert(fb.subrange(0, self.len() as int)[j] == self.file()[j]);
                    }
                }
            }
            flatten_bindings.insert(bindings[i].name.clone(), idx);
            proof {
                let old_slots = slots;
                slots = slots.push(idx);
                assert(slots.take(i as int) =~= old_slots);
                let t1 = bindings@.take(i + 1);
                assert(t1.drop_last() =~= bindings@.take(i as int));
                assert(slots.drop_last() =~= old_slots);
                assert(this.pool() == pool_after(self.pool(), t1, slots));
                assert forall|k: int|
                    0 <= k < i + 1 implies binding_laid(
                        this.file(),
                        #[trigger] slots[k] as int,
                        bindings@[k],
                        self.scope(),
                        pool_after(self.pool(), bindings@.take(k), slots.take(k)),
                    ) by {
                    if k < i {
                        assert(slots[k] == old_slots[k]);
                        assert(slots.take(k) =~= old_slots.take(k));
                        assert(fb.len() <= this.file().len());
                        assert(this.file().subrange(0, fb.len() as int) =~= fb) by {
                            assert forall|j: int| 0 <= j < fb.len() implies this.file()[j] == fb[j] by {
                                assert(this.file().subrange(0, fb.len() as int)[j] == fb[j]);
                            }
                        }
                        lemma_binding_laid_stable(
                            fb,
                            this.file(),
                            slots[k] as int,
                            bindings@[k],
                            self.scope(),
                            pool_after(self.pool(), bindings@.take(k), slots.take(k)),
                        );
                    } else {
                        assert(slots.take(k) =~= old_slots);
                        assert(pool_before == pool_after(self.pool(), bindings@.take(k), slots.take(k)));
                    }
                }
            }
            i = i + 1;
        }
        proof {
            assert(bindings@.take(bindings@.len() as int) =~= bindings@);
        }
        Ok(Flatten { file: this.flatten_file, bindings: flatten_bindings })
    }
}

} // verus!
