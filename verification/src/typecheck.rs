//! Hindley–Milner style type checking of desugared programs.
//!
//! Literals have the types `Int`, `Float` and `Str`; a variable has the
//! type the environment gives it; `\p -> e` has the type `α -> τ` for a
//! fresh `α`, with `e : τ` when `p : α`; `f a` has a fresh type `β`, with
//! `f`'s type unified with `a`'s type `-> β`. Unification records its
//! solutions in a substitution from type variables to types, which never
//! makes a variable depend on itself (the occurs check); a ghost rank on
//! the solved variables witnesses that every chain of solutions ends.

use vstd::prelude::*;

use crate::ast::{Expr, Stmt};
use crate::text::{chars_of, concat, owned, str_eq, u64_to_decimal};
use crate::types::Type;

verus! {

/// A type during inference, with inference variables.
#[derive(Debug)]
pub enum MType {
    /// A type constructor: `Int`, `Float`, `Str`, `IO`, ...
    TCon(String),
    /// An inference variable.
    TVar(u64),
    /// `param -> result`.
    Fun(Box<MType>, Box<MType>),
}

/// A type error.
#[derive(Debug)]
pub struct TypeError {
    pub msg: String,
}

/// The variables of a type.
pub open spec fn vars(t: MType) -> Set<u64>
    decreases t,
{
    match t {
        MType::TVar(v) => set![v],
        MType::Fun(p, r) => vars(*p).union(vars(*r)),
        MType::TCon(_) => Set::empty(),
    }
}

/// The number of nodes of a type.
pub open spec fn msize(t: MType) -> nat
    decreases t,
{
    match t {
        MType::Fun(p, r) => 1 + msize(*p) + msize(*r),
        _ => 1,
    }
}

/// The solutions recorded in a list of bindings; a later one wins.
pub open spec fn bindings(entries: Seq<(u64, MType)>) -> Map<u64, MType>
    decreases entries.len(),
{
    if entries.len() == 0 {
        Map::empty()
    } else {
        bindings(entries.drop_last()).insert(entries.last().0, entries.last().1)
    }
}

/// The types that an environment gives its names; a later binding wins.
pub open spec fn env_lookup(entries: Seq<(String, MType)>, name: Seq<char>) -> Option<MType>
    decreases entries.len(),
{
    if entries.len() == 0 {
        None
    } else if entries.last().0@ == name {
        Some(entries.last().1)
    } else {
        env_lookup(entries.drop_last(), name)
    }
}

/// Every solved variable has a rank, and a solved variable in the solution
/// of another has a lower rank: solutions never lead back to themselves.
pub open spec fn acyclic(sub: Map<u64, MType>, rank: Map<u64, nat>) -> bool {
    &&& forall|v: u64| #[trigger] sub.contains_key(v) ==> rank.contains_key(v)
    &&& forall|v: u64, w: u64|
        #![trigger sub[v], sub.contains_key(w)]
        sub.contains_key(v) && sub.contains_key(w) && vars(sub[v]).contains(w) ==> rank[w] < rank[v]
}

pub open spec fn max_nat(a: nat, b: nat) -> nat {
    if a >= b {
        a
    } else {
        b
    }
}

/// One more than the highest rank of a solved variable of `t`; 0 when no
/// variable of `t` is solved.
pub open spec fn height(t: MType, sub: Map<u64, MType>, rank: Map<u64, nat>) -> nat
    decreases t,
{
    match t {
        MType::TVar(v) => if sub.contains_key(v) {
            rank[v] + 1
        } else {
            0
        },
        MType::Fun(p, r) => max_nat(height(*p, sub, rank), height(*r, sub, rank)),
        MType::TCon(_) => 0,
    }
}

/// `t` with every solved variable replaced by its solution, again and
/// again. The height test always holds under `acyclic` (`lemma_height_image`).
pub open spec fn resolved(t: MType, sub: Map<u64, MType>, rank: Map<u64, nat>) -> MType
    decreases height(t, sub, rank), msize(t),
{
    match t {
        MType::TVar(v) => if sub.contains_key(v) && height(sub[v], sub, rank) < height(t, sub, rank) {
            resolved(sub[v], sub, rank)
        } else {
            t
        },
        MType::Fun(p, r) => MType::Fun(Box::new(resolved(*p, sub, rank)), Box::new(resolved(*r, sub, rank))),
        MType::TCon(_) => t,
    }
}

proof fn lemma_height_bound(t: MType, sub: Map<u64, MType>, rank: Map<u64, nat>, bound: nat)
    requires
        forall|w: u64| vars(t).contains(w) && sub.contains_key(w) ==> rank[w] < bound,
    ensures
        height(t, sub, rank) <= bound,
    decreases t,
{
    match t {
        MType::Fun(p, r) => {
            lemma_height_bound(*p, sub, rank, bound);
            lemma_height_bound(*r, sub, rank, bound);
        },
        MType::TVar(v) => {
            assert(vars(t).contains(v));
        },
        _ => {},
    }
}

/// The solution of a solved variable is lower than the variable.
pub proof fn lemma_height_image(sub: Map<u64, MType>, rank: Map<u64, nat>, v: u64)
    requires
        acyclic(sub, rank),
        sub.contains_key(v),
    ensures
        height(sub[v], sub, rank) <= rank[v],
{
    assert forall|w: u64| vars(sub[v]).contains(w) && sub.contains_key(w) implies rank[w] < rank[v] by {}
    lemma_height_bound(sub[v], sub, rank, rank[v]);
}

/// A resolved type has no solved variable.
pub proof fn lemma_resolved_unsolved(t: MType, sub: Map<u64, MType>, rank: Map<u64, nat>)
    requires
        acyclic(sub, rank),
    ensures
        forall|w: u64| #[trigger] vars(resolved(t, sub, rank)).contains(w) ==> !sub.contains_key(w),
    decreases height(t, sub, rank), msize(t),
{
    match t {
        MType::TVar(v) => {
            if sub.contains_key(v) {
                lemma_height_image(sub, rank, v);
                assert(height(sub[v], sub, rank) < height(t, sub, rank));
                assert(resolved(t, sub, rank) == resolved(sub[v], sub, rank));
                lemma_resolved_unsolved(sub[v], sub, rank);
                assert forall|w: u64| #[trigger] vars(resolved(t, sub, rank)).contains(w) implies !sub.contains_key(w) by {
                    assert(vars(resolved(sub[v], sub, rank)).contains(w));
                }
            } else {
                assert(resolved(t, sub, rank) == t);
                assert forall|w: u64| #[trigger] vars(resolved(t, sub, rank)).contains(w) implies !sub.contains_key(w) by {
                    assert(w == v);
                }
            }
        },
        MType::Fun(p, r) => {
            lemma_resolved_unsolved(*p, sub, rank);
            lemma_resolved_unsolved(*r, sub, rank);
            let rp = resolved(*p, sub, rank);
            let rr = resolved(*r, sub, rank);
            assert(resolved(t, sub, rank) == MType::Fun(Box::new(rp), Box::new(rr)));
            assert forall|w: u64| #[trigger] vars(resolved(t, sub, rank)).contains(w) implies !sub.contains_key(w) by {
                if vars(rp).contains(w) {
                } else {
                    assert(vars(rr).contains(w));
                }
            }
        },
        _ => {
            assert(vars(resolved(t, sub, rank)) =~= Set::<u64>::empty());
        },
    }
}

/// Resolving a type without solved variables changes nothing.
pub proof fn lemma_resolved_unchanged(t: MType, sub: Map<u64, MType>, rank: Map<u64, nat>)
    requires
        forall|w: u64| #[trigger] vars(t).contains(w) ==> !sub.contains_key(w),
    ensures
        resolved(t, sub, rank) == t,
    decreases t,
{
    match t {
        MType::Fun(p, r) => {
            assert forall|w: u64| #[trigger] vars(*p).contains(w) implies !sub.contains_key(w) by {
                assert(vars(t).contains(w));
            }
            assert forall|w: u64| #[trigger] vars(*r).contains(w) implies !sub.contains_key(w) by {
                assert(vars(t).contains(w));
            }
            lemma_resolved_unchanged(*p, sub, rank);
            lemma_resolved_unchanged(*r, sub, rank);
        },
        MType::TVar(v) => {
            assert(vars(t).contains(v));
        },
        _ => {},
    }
}

impl MType {
    /// A copy of the type.
    pub fn duplicate(&self) -> (r: MType)
        ensures
            r == *self,
        decreases self,
    {
        match self {
            MType::TCon(c) => MType::TCon(c.clone()),
            MType::TVar(v) => MType::TVar(*v),
            MType::Fun(p, r) => MType::Fun(Box::new(p.duplicate()), Box::new(r.duplicate())),
        }
    }

    /// Whether the variable `var` occurs in the type.
    pub fn occurs(&self, var: u64) -> (b: bool)
        ensures
            b == vars(*self).contains(var),
        decreases self,
    {
        match self {
            MType::TVar(v) => *v == var,
            MType::Fun(p, r) => p.occurs(var) || r.occurs(var),
            MType::TCon(_) => false,
        }
    }

    /// The type's text: `t3` for a variable, parentheses around a function
    /// type in parameter position.
    pub fn display(&self) -> (r: String)
        ensures
            r@ == mtype_text(*self),
        decreases self,
    {
        match self {
            MType::TCon(s) => s.clone(),
            MType::TVar(n) => {
                let d = u64_to_decimal(*n);
                concat(&owned("t"), d.as_str())
            },
            MType::Fun(p, r) => {
                let ps = p.display();
                let p_str = match &**p {
                    MType::Fun(_, _) => concat(&concat(&owned("("), ps.as_str()), ")"),
                    _ => ps,
                };
                let rs = r.display();
                concat(&concat(&p_str, " -> "), rs.as_str())
            },
        }
    }
}

/// The text of a type.
pub open spec fn mtype_text(t: MType) -> Seq<char>
    decreases t,
{
    match t {
        MType::TCon(s) => s@,
        MType::TVar(n) => "t"@ + crate::text::decimal(n as nat),
        MType::Fun(p, r) => {
            let ps = if *p is Fun {
                "("@ + mtype_text(*p) + ")"@
            } else {
                mtype_text(*p)
            };
            ps + " -> "@ + mtype_text(*r)
        },
    }
}

/// The checking context: the types of names, the substitution found so
/// far, and the counter for fresh variables.
pub struct TypeContext {
    env: Vec<(String, MType)>,
    subst: Vec<(u64, MType)>,
    fresh_counter: u64,
    rank: Ghost<Map<u64, nat>>,
}

impl TypeContext {
    /// The substitution found so far.
    pub closed spec fn sub(&self) -> Map<u64, MType> {
        bindings(self.subst@)
    }

    pub closed spec fn ranks(&self) -> Map<u64, nat> {
        self.rank@
    }

    /// The type the environment gives `name`, unresolved.
    pub closed spec fn env_type(&self, name: Seq<char>) -> Option<MType> {
        env_lookup(self.env@, name)
    }

    pub closed spec fn counter(&self) -> u64 {
        self.fresh_counter
    }

    pub closed spec fn wf(&self) -> bool {
        acyclic(self.sub(), self.ranks())
    }

    /// `t` under the substitution found so far.
    pub open spec fn resolution(&self, t: MType) -> MType {
        resolved(t, self.sub(), self.ranks())
    }

    /// An empty context.
    pub fn new() -> (c: TypeContext)
        ensures
            c.wf(),
            c.sub() == Map::<u64, MType>::empty(),
            forall|n: Seq<char>| c.env_type(n) is None,
            c.counter() == 0,
    {
        TypeContext { env: Vec::new(), subst: Vec::new(), fresh_counter: 0, rank: Ghost(Map::empty()) }
    }

    /// A fresh type variable: the counter's value, then the counter moves on.
    pub fn fresh(&mut self) -> (id: u64)
        ensures
            id == old(self).counter(),
            final(self).counter() == old(self).counter().wrapping_add(1),
            final(self).sub() == old(self).sub(),
            final(self).ranks() == old(self).ranks(),
            forall|n: Seq<char>| final(self).env_type(n) == old(self).env_type(n),
    {
        let id = self.fresh_counter;
        self.fresh_counter = self.fresh_counter.wrapping_add(1);
        id
    }

    fn solution(&self, v: u64) -> (r: Option<&MType>)
        ensures
            match r {
                Some(t) => self.sub().contains_key(v) && *t == self.sub()[v],
                None => !self.sub().contains_key(v),
            },
    {
        let mut i: usize = self.subst.len();
        proof {
            assert(self.subst@.take(i as int) =~= self.subst@);
        }
        while i > 0
            invariant
                i <= self.subst@.len(),
                forall|j: int| i <= j < self.subst@.len() ==> (#[trigger] self.subst@[j]).0 != v,
                self.subst@.take(i as int).len() == i,
            decreases i,
        {
            if self.subst[i - 1].0 == v {
                proof {
                    lemma_bindings_last(self.subst@, (i - 1) as int);
                }
                return Some(&self.subst[i - 1].1);
            }
            i = i - 1;
        }
        proof {
            lemma_bindings_absent(self.subst@, v);
        }
        None
    }

    /// Apply the substitution to a type, fully.
    pub fn resolve(&self, ty: &MType) -> (r: MType)
        requires
            self.wf(),
        ensures
            r == self.resolution(*ty),
        decreases height(*ty, self.sub(), self.ranks()), msize(*ty),
    {
        match ty {
            MType::TVar(v) => match self.solution(*v) {
                Some(t) => {
                    proof {
                        lemma_height_image(self.sub(), self.ranks(), *v);
                    }
                    self.resolve(t)
                },
                None => MType::TVar(*v),
            },
            MType::Fun(p, r) => MType::Fun(Box::new(self.resolve(p)), Box::new(self.resolve(r))),
            MType::TCon(c) => MType::TCon(c.clone()),
        }
    }

    /// The type of `name` in the environment, resolved.
    pub fn lookup(&self, name: &str) -> (r: Option<MType>)
        requires
            self.wf(),
        ensures
            match self.env_type(name@) {
                Some(t) => r == Some(self.resolution(t)),
                None => r is None,
            },
    {
        let key = owned(name);
        let mut i: usize = self.env.len();
        proof {
            assert(self.env@.take(i as int) =~= self.env@);
        }
        while i > 0
            invariant
                self.wf(),
                i <= self.env@.len(),
                key@ == name@,
                env_lookup(self.env@, name@) == env_lookup(self.env@.take(i as int), name@),
            decreases i,
        {
            proof {
                assert(self.env@.take(i as int).drop_last() =~= self.env@.take(i - 1));
            }
            if str_eq(&self.env[i - 1].0, &key) {
                return Some(self.resolve(&self.env[i - 1].1));
            }
            i = i - 1;
        }
        None
    }

    /// Give `name` the type `ty`.
    pub fn bind(&mut self, name: &str, ty: MType)
        ensures
            final(self).env_type(name@) == Some(ty),
            forall|n: Seq<char>| n != name@ ==> final(self).env_type(n) == old(self).env_type(n),
            final(self).sub() == old(self).sub(),
            final(self).ranks() == old(self).ranks(),
            final(self).counter() == old(self).counter(),
    {
        self.env.push((owned(name), ty));
        proof {
            assert(self.env@.drop_last() =~= old(self).env@);
        }
    }
}

proof fn lemma_bindings_last(entries: Seq<(u64, MType)>, i: int)
    requires
        0 <= i < entries.len(),
        forall|j: int| i < j < entries.len() ==> (#[trigger] entries[j]).0 != entries[i].0,
    ensures
        bindings(entries).contains_key(entries[i].0),
        bindings(entries)[entries[i].0] == entries[i].1,
    decreases entries.len(),
{
    if i < entries.len() - 1 {
        assert forall|j: int| i < j < entries.drop_last().len() implies (#[trigger] entries.drop_last()[j]).0
            != entries.drop_last()[i].0 by {
            assert(entries.drop_last()[j] == entries[j]);
        }
        lemma_bindings_last(entries.drop_last(), i);
        assert(entries.drop_last()[i] == entries[i]);
    }
}

proof fn lemma_bindings_absent(entries: Seq<(u64, MType)>, v: u64)
    requires
        forall|j: int| 0 <= j < entries.len() ==> (#[trigger] entries[j]).0 != v,
    ensures
        !bindings(entries).contains_key(v),
    decreases entries.len(),
{
    if entries.len() > 0 {
        assert forall|j: int| 0 <= j < entries.drop_last().len() implies (#[trigger] entries.drop_last()[j]).0 != v by {
            assert(entries.drop_last()[j] == entries[j]);
        }
        lemma_bindings_absent(entries.drop_last(), v);
    }
}

/// Equality of types up to the contents of their strings.
pub open spec fn same_type(a: MType, b: MType) -> bool
    decreases a,
{
    match a {
        MType::TCon(x) => match b {
            MType::TCon(y) => x@ == y@,
            _ => false,
        },
        MType::TVar(x) => match b {
            MType::TVar(y) => x == y,
            _ => false,
        },
        MType::Fun(p, r) => match b {
            MType::Fun(q, u) => same_type(*p, *q) && same_type(*r, *u),
            _ => false,
        },
    }
}

pub proof fn lemma_same_type_reflexive(a: MType)
    ensures
        same_type(a, a),
    decreases a,
{
    if let MType::Fun(p, r) = a {
        lemma_same_type_reflexive(*p);
        lemma_same_type_reflexive(*r);
    }
}

/// Resolving keeps types equal up to their strings.
proof fn lemma_same_resolved(a: MType, b: MType, sub: Map<u64, MType>, rank: Map<u64, nat>)
    requires
        same_type(a, b),
        acyclic(sub, rank),
    ensures
        same_type(resolved(a, sub, rank), resolved(b, sub, rank)),
    decreases a,
{
    match a {
        MType::TVar(x) => {
            assert(b == MType::TVar(x));
            lemma_same_type_reflexive(resolved(a, sub, rank));
        },
        MType::Fun(p, r) => {
            let (q, u) = match b {
                MType::Fun(q, u) => (*q, *u),
                _ => arbitrary(),
            };
            lemma_same_resolved(*p, q, sub, rank);
            lemma_same_resolved(*r, u, sub, rank);
        },
        _ => {},
    }
}

/// Every solution of `s1` is one of `s2`.
pub open spec fn extends(s2: Map<u64, MType>, s1: Map<u64, MType>) -> bool {
    forall|v: u64| #[trigger] s1.contains_key(v) ==> s2.contains_key(v) && s2[v] == s1[v]
}

/// The unsolved variables of two types.
pub open spec fn unsolved(a: MType, b: MType, sub: Map<u64, MType>, rank: Map<u64, nat>) -> Set<u64> {
    vars(resolved(a, sub, rank)).union(vars(resolved(b, sub, rank)))
}

/// `u` with the variable `x` replaced by `t`.
pub open spec fn msubst(u: MType, x: u64, t: MType) -> MType
    decreases u,
{
    match u {
        MType::TVar(v) => if v == x {
            t
        } else {
            u
        },
        MType::Fun(p, r) => MType::Fun(Box::new(msubst(*p, x, t)), Box::new(msubst(*r, x, t))),
        MType::TCon(_) => u,
    }
}

proof fn lemma_vars_finite(t: MType)
    ensures
        vars(t).finite(),
    decreases t,
{
    if let MType::Fun(p, r) = t {
        lemma_vars_finite(*p);
        lemma_vars_finite(*r);
    }
}

proof fn lemma_msubst_vars(u: MType, x: u64, t: MType)
    ensures
        forall|w: u64| #[trigger] vars(msubst(u, x, t)).contains(w) ==> (vars(u).contains(w) && w != x) || vars(
            t,
        ).contains(w),
    decreases u,
{
    match u {
        MType::Fun(p, r) => {
            lemma_msubst_vars(*p, x, t);
            lemma_msubst_vars(*r, x, t);
            assert forall|w: u64| #[trigger] vars(msubst(u, x, t)).contains(w) implies (vars(u).contains(w) && w != x)
                || vars(t).contains(w) by {
                if vars(msubst(*p, x, t)).contains(w) {
                } else {
                    assert(vars(msubst(*r, x, t)).contains(w));
                }
            }
        },
        MType::TVar(v) => {
            assert forall|w: u64| #[trigger] vars(msubst(u, x, t)).contains(w) implies (vars(u).contains(w) && w != x)
                || vars(t).contains(w) by {
                if v != x {
                    assert(w == v);
                }
            }
        },
        _ => {
            assert(vars(msubst(u, x, t)) =~= Set::<u64>::empty());
        },
    }
}

proof fn lemma_msubst_absent(u: MType, x: u64, t: MType)
    requires
        !vars(u).contains(x),
    ensures
        msubst(u, x, t) == u,
    decreases u,
{
    match u {
        MType::Fun(p, r) => {
            lemma_msubst_absent(*p, x, t);
            lemma_msubst_absent(*r, x, t);
        },
        MType::TVar(v) => {
            assert(vars(u).contains(v));
        },
        _ => {},
    }
}

/// Resolving under a larger substitution can go through the smaller one.
proof fn lemma_compose(t: MType, s1: Map<u64, MType>, k1: Map<u64, nat>, s2: Map<u64, MType>, k2: Map<u64, nat>)
    requires
        acyclic(s1, k1),
        acyclic(s2, k2),
        extends(s2, s1),
    ensures
        resolved(t, s2, k2) == resolved(resolved(t, s1, k1), s2, k2),
    decreases height(t, s1, k1), msize(t),
{
    match t {
        MType::TVar(v) => {
            if s1.contains_key(v) {
                lemma_height_image(s1, k1, v);
                lemma_height_image(s2, k2, v);
                assert(resolved(t, s1, k1) == resolved(s1[v], s1, k1));
                assert(resolved(t, s2, k2) == resolved(s2[v], s2, k2));
                lemma_compose(s1[v], s1, k1, s2, k2);
            } else {
                assert(resolved(t, s1, k1) == t);
            }
        },
        MType::Fun(p, r) => {
            lemma_compose(*p, s1, k1, s2, k2);
            lemma_compose(*r, s1, k1, s2, k2);
        },
        _ => {},
    }
}

/// The ranks after solving `x`: it comes lowest, the others move up.
pub open spec fn bumped(rank: Map<u64, nat>, sub: Map<u64, MType>, x: u64) -> Map<u64, nat> {
    Map::new(
        |v: u64| sub.contains_key(v) || v == x,
        |v: u64| if v == x {
            0
        } else {
            rank[v] + 1
        },
    )
}

proof fn lemma_insert_acyclic(sub: Map<u64, MType>, rank: Map<u64, nat>, x: u64, t: MType)
    requires
        acyclic(sub, rank),
        !sub.contains_key(x),
        forall|w: u64| #[trigger] vars(t).contains(w) ==> !sub.contains_key(w),
        !vars(t).contains(x),
    ensures
        acyclic(sub.insert(x, t), bumped(rank, sub, x)),
{
    let s1 = sub.insert(x, t);
    let k1 = bumped(rank, sub, x);
    assert forall|v: u64, w: u64|
        #![trigger s1[v], s1.contains_key(w)]
        s1.contains_key(v) && s1.contains_key(w) && vars(s1[v]).contains(w) implies k1[w] < k1[v] by {
        if v == x {
            assert(s1[v] == t);
        } else {
            assert(s1[v] == sub[v]);
            if w != x {
                assert(sub.contains_key(w));
                assert(rank[w] < rank[v]);
            }
        }
    }
}

/// After solving `x` with `t`, a type without solved variables resolves to
/// itself with `t` in place of `x`.
proof fn lemma_insert_resolved(u: MType, sub: Map<u64, MType>, k1: Map<u64, nat>, x: u64, t: MType)
    requires
        acyclic(sub.insert(x, t), k1),
        !sub.contains_key(x),
        forall|w: u64| #[trigger] vars(u).contains(w) ==> !sub.contains_key(w),
        forall|w: u64| #[trigger] vars(t).contains(w) ==> !sub.contains_key(w),
        !vars(t).contains(x),
    ensures
        resolved(u, sub.insert(x, t), k1) == msubst(u, x, t),
    decreases u,
{
    let s1 = sub.insert(x, t);
    match u {
        MType::TVar(v) => {
            assert(vars(u).contains(v));
            if v == x {
                lemma_height_image(s1, k1, v);
                assert(resolved(u, s1, k1) == resolved(t, s1, k1));
                assert forall|w: u64| #[trigger] vars(t).contains(w) implies !s1.contains_key(w) by {}
                lemma_resolved_unchanged(t, s1, k1);
            }
        },
        MType::Fun(p, r) => {
            assert forall|w: u64| #[trigger] vars(*p).contains(w) implies !sub.contains_key(w) by {
                assert(vars(u).contains(w));
            }
            assert forall|w: u64| #[trigger] vars(*r).contains(w) implies !sub.contains_key(w) by {
                assert(vars(u).contains(w));
            }
            lemma_insert_resolved(*p, sub, k1, x, t);
            lemma_insert_resolved(*r, sub, k1, x, t);
        },
        _ => {},
    }
}

proof fn lemma_len_strict(small: Set<u64>, big: Set<u64>, x: u64)
    requires
        big.finite(),
        small.subset_of(big),
        big.contains(x),
        !small.contains(x),
    ensures
        small.len() < big.len(),
{
    assert(small.subset_of(big.remove(x)));
    vstd::set_lib::lemma_len_subset(small, big.remove(x));
}

impl TypeContext {
    /// Record the solution `x ↦ ty` for an unsolved `x` that `ty` does not
    /// mention.
    fn solve(&mut self, x: u64, ty: MType)
        requires
            old(self).wf(),
            !old(self).sub().contains_key(x),
            forall|w: u64| #[trigger] vars(ty).contains(w) ==> !old(self).sub().contains_key(w),
            !vars(ty).contains(x),
        ensures
            final(self).wf(),
            final(self).sub() == old(self).sub().insert(x, ty),
            forall|t: MType| #[trigger] final(self).resolution(t) == msubst(old(self).resolution(t), x, ty),
            forall|n: Seq<char>| final(self).env_type(n) == old(self).env_type(n),
            final(self).counter() == old(self).counter(),
    {
        let ghost t0 = ty;
        let ghost s0 = self.sub();
        let ghost k0 = self.ranks();
        self.subst.push((x, ty));
        proof {
            assert(self.subst@.drop_last() =~= old(self).subst@);
            self.rank = Ghost(bumped(k0, s0, x));
            lemma_insert_acyclic(s0, k0, x, t0);
            assert(self.sub() == s0.insert(x, t0));
            assert forall|t: MType| #[trigger] self.resolution(t) == msubst(old(self).resolution(t), x, t0) by {
                let s1 = s0.insert(x, t0);
                assert(extends(s1, s0));
                lemma_compose(t, s0, k0, s1, self.ranks());
                lemma_resolved_unsolved(t, s0, k0);
                lemma_insert_resolved(resolved(t, s0, k0), s0, self.ranks(), x, t0);
            }
        }
    }

    /// Unify two types, extending the substitution. Only variables that
    /// were unsolved in the two types get solved, and solutions bring in no
    /// other variables; on success the two types resolve alike.
    pub fn unify(&mut self, a: &MType, b: &MType) -> (r: Result<(), TypeError>)
        requires
            old(self).wf(),
        ensures
            final(self).wf(),
            extends(final(self).sub(), old(self).sub()),
            final(self).sub().dom() == old(self).sub().dom() ==> final(self).sub() == old(self).sub()
                && final(self).ranks() == old(self).ranks(),
            forall|v: u64| #[trigger]
                final(self).sub().contains_key(v) ==> old(self).sub().contains_key(v) || unsolved(
                    *a,
                    *b,
                    old(self).sub(),
                    old(self).ranks(),
                ).contains(v),
            forall|t: MType, w: u64| #[trigger]
                vars(final(self).resolution(t)).contains(w) ==> vars(old(self).resolution(t)).contains(w)
                    || unsolved(*a, *b, old(self).sub(), old(self).ranks()).contains(w),
            r is Ok ==> same_type(final(self).resolution(*a), final(self).resolution(*b)),
            forall|n: Seq<char>| final(self).env_type(n) == old(self).env_type(n),
            final(self).counter() == old(self).counter(),
        decreases unsolved(*a, *b, old(self).sub(), old(self).ranks()).len(), msize(old(self).resolution(*a))
            + msize(old(self).resolution(*b)),
    {
        let ra = self.resolve(a);
        let rb = self.resolve(b);
        let ghost s0 = self.sub();
        let ghost k0 = self.ranks();
        let ghost u0 = unsolved(*a, *b, s0, k0);
        proof {
            lemma_resolved_unsolved(*a, s0, k0);
            lemma_resolved_unsolved(*b, s0, k0);
        }
        if let MType::TVar(x) = &ra {
            if let MType::TVar(y) = &rb {
                if *x == *y {
                    proof {
                        lemma_same_type_reflexive(ra);
                    }
                    return Ok(());
                }
            }
        }
        let var_side: Option<(u64, bool)> = match &ra {
            MType::TVar(x) => Some((*x, true)),
            _ => match &rb {
                MType::TVar(x) => Some((*x, false)),
                _ => None,
            },
        };
        if let Some((x, left)) = var_side {
            let ty = if left {
                rb.duplicate()
            } else {
                ra.duplicate()
            };
            proof {
                assert(vars(if left { ra } else { rb }).contains(x));
            }
            if ty.occurs(x) {
                let shown = MType::TVar(x).display();
                let m = concat(&concat(&concat(&owned("infinite type: "), shown.as_str()), " = "), ty.display().as_str());
                return Err(TypeError { msg: m });
            }
            let ghost t0 = ty;
            self.solve(x, ty);
            proof {
                assert forall|v: u64| #[trigger] self.sub().contains_key(v) implies s0.contains_key(v) || u0.contains(v) by {
                    if v == x {
                        assert(vars(if left { ra } else { rb }).contains(x));
                    }
                }
                assert forall|t: MType, w: u64| #[trigger] vars(self.resolution(t)).contains(w) implies vars(
                    resolved(t, s0, k0),
                ).contains(w) || u0.contains(w) by {
                    lemma_msubst_vars(resolved(t, s0, k0), x, t0);
                }
                assert(self.resolution(*a) == msubst(ra, x, t0));
                assert(self.resolution(*b) == msubst(rb, x, t0));
                lemma_msubst_absent(t0, x, t0);
                lemma_same_type_reflexive(t0);
                if !(self.sub().dom() =~= s0.dom()) {
                } else {
                    assert(!s0.dom().contains(x));
                    assert(self.sub().dom().contains(x));
                }
            }
            return Ok(());
        }
        match (&ra, &rb) {
            (MType::TCon(ca), MType::TCon(cb)) => {
                if str_eq(ca, cb) {
                    return Ok(());
                }
            },
            (MType::Fun(p1, r1), MType::Fun(p2, r2)) => {
                proof {
                    lemma_vars_finite(ra);
                    lemma_vars_finite(rb);
                    assert forall|w: u64| #[trigger] vars(**p1).contains(w) implies !s0.contains_key(w) by {
                        assert(vars(ra).contains(w));
                    }
                    assert forall|w: u64| #[trigger] vars(**p2).contains(w) implies !s0.contains_key(w) by {
                        assert(vars(rb).contains(w));
                    }
                    assert forall|w: u64| #[trigger] vars(**r1).contains(w) implies !s0.contains_key(w) by {
                        assert(vars(ra).contains(w));
                    }
                    assert forall|w: u64| #[trigger] vars(**r2).contains(w) implies !s0.contains_key(w) by {
                        assert(vars(rb).contains(w));
                    }
                    lemma_resolved_unchanged(**p1, s0, k0);
                    lemma_resolved_unchanged(**p2, s0, k0);
                    lemma_resolved_unchanged(**r1, s0, k0);
                    lemma_resolved_unchanged(**r2, s0, k0);
                    assert(unsolved(**p1, **p2, s0, k0).subset_of(u0));
                    vstd::set_lib::lemma_len_subset(unsolved(**p1, **p2, s0, k0), u0);
                }
                self.unify(p1, p2)?;
                let ghost c1: TypeContext = *self;
                let ghost s1 = self.sub();
                let ghost k1 = self.ranks();
                proof {
                    assert(unsolved(**r1, **r2, s1, k1).subset_of(u0)) by {
                        assert forall|w: u64| #[trigger] unsolved(**r1, **r2, s1, k1).contains(w) implies u0.contains(w) by {
                            if vars(resolved(**r1, s1, k1)).contains(w) {
                                assert(vars(self.resolution(**r1)).contains(w));
                                assert(vars(resolved(**r1, s0, k0)).contains(w) || unsolved(**p1, **p2, s0, k0).contains(w));
                            } else {
                                assert(vars(resolved(**r2, s1, k1)).contains(w));
                                assert(vars(self.resolution(**r2)).contains(w));
                                assert(vars(resolved(**r2, s0, k0)).contains(w) || unsolved(**p1, **p2, s0, k0).contains(w));
                            }
                        }
                    }
                    vstd::set_lib::lemma_len_subset(unsolved(**r1, **r2, s1, k1), u0);
                    if s1.dom() =~= s0.dom() {
                        assert(msize(resolved(**r1, s1, k1)) + msize(resolved(**r2, s1, k1)) < msize(ra) + msize(rb));
                    } else {
                        let x = choose|x: u64| s1.dom().contains(x) && !s0.dom().contains(x);
                        assert(s1.contains_key(x));
                        assert(u0.contains(x));
                        lemma_resolved_unsolved(**r1, s1, k1);
                        lemma_resolved_unsolved(**r2, s1, k1);
                        lemma_len_strict(unsolved(**r1, **r2, s1, k1), u0, x);
                    }
                }
                self.unify(r1, r2)?;
                proof {
                    let s2 = self.sub();
                    let k2 = self.ranks();
                    lemma_compose(*a, s0, k0, s2, k2);
                    lemma_compose(*b, s0, k0, s2, k2);
                    lemma_compose(**p1, s1, k1, s2, k2);
                    lemma_compose(**p2, s1, k1, s2, k2);
                    lemma_same_resolved(resolved(**p1, s1, k1), resolved(**p2, s1, k1), s2, k2);
                    assert forall|v: u64| #[trigger] s2.contains_key(v) implies s0.contains_key(v) || u0.contains(v) by {
                        if !s1.contains_key(v) {
                            assert(unsolved(**r1, **r2, s1, k1).contains(v));
                        } else if !s0.contains_key(v) {
                            assert(unsolved(**p1, **p2, s0, k0).contains(v));
                        }
                    }
                    assert forall|t: MType, w: u64| #[trigger] vars(resolved(t, s2, k2)).contains(w) implies vars(
                        resolved(t, s0, k0),
                    ).contains(w) || u0.contains(w) by {
                        assert(vars(self.resolution(t)).contains(w));
                        if !vars(resolved(t, s1, k1)).contains(w) {
                            assert(unsolved(**r1, **r2, s1, k1).contains(w));
                        } else if !vars(resolved(t, s0, k0)).contains(w) {
                            assert(vars(c1.resolution(t)).contains(w));
                            assert(unsolved(**p1, **p2, s0, k0).contains(w));
                        }
                    }
                    if s2.dom() =~= s0.dom() {
                        assert(s1.dom() =~= s0.dom()) by {
                            assert forall|v: u64| s1.dom().contains(v) implies s0.dom().contains(v) by {
                                assert(s2.contains_key(v));
                            }
                        }
                        assert(s2 =~= s0);
                    }
                }
                return Ok(());
            },
            _ => {},
        }
        let m = concat(
            &concat(&concat(&owned("type mismatch: "), ra.display().as_str()), " \u{2260} "),
            rb.display().as_str(),
        );
        proof {
            lemma_same_type_reflexive(ra);
        }
        Err(TypeError { msg: m })
    }
}

/// Whether `m` has the shape of the written type `t`: the same
/// constructors and arrows, some variable where `t` has one.
pub open spec fn shaped_like(m: MType, t: Type) -> bool
    decreases t,
{
    match t {
        Type::TVar(_) => m is TVar,
        Type::TCon(c) => m matches MType::TCon(d) && d@ == c@,
        Type::Fun(p, r) => match m {
            MType::Fun(q, u) => shaped_like(*q, *p) && shaped_like(*u, *r),
            _ => false,
        },
    }
}

/// The text of a written type, with parentheses around a function type
/// in parameter position.
pub open spec fn written_type_text(t: Type) -> Seq<char>
    decreases t,
{
    match t {
        Type::TVar(v) => v@,
        Type::TCon(c) => c@,
        Type::Fun(p, r) => {
            let ps = if *p is Fun {
                "("@ + written_type_text(*p) + ")"@
            } else {
                written_type_text(*p)
            };
            ps + " -> "@ + written_type_text(*r)
        },
    }
}

/// The text of a written type.
pub fn display_type(ty: &Type) -> (r: String)
    ensures
        r@ == written_type_text(*ty),
    decreases ty,
{
    match ty {
        Type::TVar(v) => v.clone(),
        Type::TCon(c) => c.clone(),
        Type::Fun(p, r) => {
            let ps = display_type(p);
            let p_str = match &**p {
                Type::Fun(_, _) => concat(&concat(&owned("("), ps.as_str()), ")"),
                _ => ps,
            };
            let rs = display_type(r);
            concat(&concat(&p_str, " -> "), rs.as_str())
        },
    }
}

/// Whether `s` holds a `::` pair: a field or index access, which the
/// environment need not declare.
pub open spec fn has_double_colon(s: Seq<char>) -> bool {
    exists|i: int| 0 <= i && i + 1 < s.len() && s[i] == ':' && #[trigger] s[i + 1] == ':'
}

fn double_colon_in(s: &str) -> (b: bool)
    ensures
        b == has_double_colon(s@),
{
    let chars = chars_of(s);
    let mut i: usize = 0;
    while i < chars.len() && chars.len() - i > 1
        invariant
            chars@ == s@,
            i <= chars@.len(),
            forall|k: int| 0 <= k < i && k + 1 < chars@.len() ==> !(chars@[k] == ':' && #[trigger] chars@[k + 1] == ':'),
        decreases chars.len() - i,
    {
        if chars[i] == ':' && chars[i + 1] == ':' {
            return true;
        }
        i = i + 1;
    }
    false
}

pub open spec fn con_named(t: MType, name: Seq<char>) -> bool {
    t matches MType::TCon(c) && c@ == name
}

/// The variable given to the written name `key`, the latest first.
pub open spec fn lookup_var(names: Seq<(Seq<char>, u64)>, key: Seq<char>) -> Option<u64>
    decreases names.len(),
{
    if names.len() == 0 {
        None
    } else if names.last().0 == key {
        Some(names.last().1)
    } else {
        lookup_var(names.drop_last(), key)
    }
}

pub open spec fn names_view(v: Seq<(String, u64)>) -> Seq<(Seq<char>, u64)> {
    v.map_values(|p: (String, u64)| (p.0@, p.1))
}

/// The variables given to the written names after translating `ty`, from
/// `names` and the counter `next`: a name seen first takes the counter.
pub open spec fn var_plan(ty: Type, names: Seq<(Seq<char>, u64)>, next: u64) -> (Seq<(Seq<char>, u64)>, u64)
    decreases ty,
{
    match ty {
        Type::TVar(v) => match lookup_var(names, v@) {
            Some(_) => (names, next),
            None => (names.push((v@, next)), next.wrapping_add(1)),
        },
        Type::TCon(_) => (names, next),
        Type::Fun(p, r) => {
            let (n1, k1) = var_plan(*p, names, next);
            var_plan(*r, n1, k1)
        },
    }
}

/// `m` is `ty` with each written type variable replaced by the variable
/// that its name was given (one per name, shared by its occurrences).
pub open spec fn translates(m: MType, ty: Type, names: Seq<(Seq<char>, u64)>, next: u64) -> bool
    decreases ty,
{
    match ty {
        Type::TVar(v) => m == MType::TVar(
            match lookup_var(names, v@) {
                Some(k) => k,
                None => next,
            },
        ),
        Type::TCon(c) => m matches MType::TCon(d) && d@ == c@,
        Type::Fun(p, r) => match m {
            MType::Fun(q, u) => translates(*q, *p, names, next) && translates(
                *u,
                *r,
                var_plan(*p, names, next).0,
                var_plan(*p, names, next).1,
            ),
            _ => false,
        },
    }
}

proof fn lemma_translates_shaped(m: MType, ty: Type, names: Seq<(Seq<char>, u64)>, next: u64)
    requires
        translates(m, ty, names, next),
    ensures
        shaped_like(m, ty),
    decreases ty,
{
    match ty {
        Type::Fun(p, r) => {
            let (q, u) = match m {
                MType::Fun(q, u) => (*q, *u),
                _ => (m, m),
            };
            lemma_translates_shaped(q, *p, names, next);
            lemma_translates_shaped(u, *r, var_plan(*p, names, next).0, var_plan(*p, names, next).1);
        },
        _ => {},
    }
}

fn find_var(names: &Vec<(String, u64)>, key: &String) -> (r: Option<u64>)
    ensures
        r == lookup_var(names_view(names@), key@),
{
    let mut k = names.len();
    proof {
        assert(names_view(names@).subrange(0, k as int) =~= names_view(names@));
    }
    while k > 0
        invariant
            k <= names@.len(),
            lookup_var(names_view(names@), key@) == lookup_var(names_view(names@).subrange(0, k as int), key@),
        decreases k,
    {
        proof {
            let t = names_view(names@).subrange(0, k as int);
            assert(t.drop_last() =~= names_view(names@).subrange(0, k - 1));
        }
        if str_eq(&names[k - 1].0, key) {
            return Some(names[k - 1].1);
        }
        k = k - 1;
    }
    None
}

impl MType {
    /// The inference type of a written type: each written type variable
    /// name becomes one fresh variable, shared by its occurrences.
    pub fn from_ast(ty: &Type, ctx: &mut TypeContext) -> (m: MType)
        requires
            old(ctx).wf(),
        ensures
            shaped_like(m, *ty),
            translates(m, *ty, Seq::empty(), old(ctx).counter()),
            final(ctx).counter() == var_plan(*ty, Seq::empty(), old(ctx).counter()).1,
            final(ctx).wf(),
            final(ctx).sub() == old(ctx).sub(),
            final(ctx).ranks() == old(ctx).ranks(),
            forall|n: Seq<char>| final(ctx).env_type(n) == old(ctx).env_type(n),
    {
        let mut names: Vec<(String, u64)> = Vec::new();
        proof {
            assert(names_view(names@) =~= Seq::<(Seq<char>, u64)>::empty());
        }
        let m = MType::from_ast_named(ty, ctx, &mut names);
        proof {
            lemma_translates_shaped(m, *ty, Seq::empty(), old(ctx).counter());
        }
        m
    }

    fn from_ast_named(ty: &Type, ctx: &mut TypeContext, names: &mut Vec<(String, u64)>) -> (m: MType)
        requires
            old(ctx).wf(),
        ensures
            translates(m, *ty, names_view(old(names)@), old(ctx).counter()),
            (names_view(final(names)@), final(ctx).counter()) == var_plan(
                *ty,
                names_view(old(names)@),
                old(ctx).counter(),
            ),
            final(ctx).wf(),
            final(ctx).sub() == old(ctx).sub(),
            final(ctx).ranks() == old(ctx).ranks(),
            forall|n: Seq<char>| final(ctx).env_type(n) == old(ctx).env_type(n),
        decreases ty,
    {
        match ty {
            Type::TVar(v) => match find_var(names, v) {
                Some(k) => MType::TVar(k),
                None => {
                    let k = ctx.fresh();
                    let ghost before = names@;
                    names.push((v.clone(), k));
                    proof {
                        assert(names_view(names@) =~= names_view(before).push((v@, k)));
                    }
                    MType::TVar(k)
                },
            },
            Type::TCon(s) => MType::TCon(s.clone()),
            Type::Fun(p, r) => {
                let mp = MType::from_ast_named(p, ctx, names);
                let mr = MType::from_ast_named(r, ctx, names);
                MType::Fun(Box::new(mp), Box::new(mr))
            },
        }
    }
}

impl TypeContext {
    /// `mid` is `pre` after the parameter `param` was given the next fresh
    /// variable.
    pub open spec fn bound_param(pre: TypeContext, param: Seq<char>, mid: TypeContext) -> bool {
        &&& mid.wf()
        &&& mid.counter() == pre.counter().wrapping_add(1)
        &&& mid.sub() == pre.sub()
        &&& mid.ranks() == pre.ranks()
        &&& mid.env_type(param) == Some(MType::TVar(pre.counter()))
        &&& forall|n: Seq<char>| n != param ==> #[trigger] mid.env_type(n) == pre.env_type(n)
    }

    /// A marker for the type inferred for a lambda's body.
    pub open spec fn inferred_step(mid: TypeContext, u: MType) -> bool {
        true
    }

    /// Inferring `e` from `pre` gives `r` and leaves `post`: a literal has
    /// its constructor's type; a variable the resolution of its type in the
    /// environment (a missing `::` name a fresh variable, any other missing
    /// name an error); a lambda `\p -> b` is a function from a fresh
    /// variable for `p` to the type inferred for `b` with `p` bound to that
    /// variable; an application's type mentions no solved variable.
    pub open spec fn infers(pre: TypeContext, e: Expr, r: Result<MType, TypeError>, post: TypeContext) -> bool
        decreases e,
    {
        match e {
            Expr::Int(_) => r matches Ok(t) && con_named(t, "Int"@),
            Expr::Float(_) => r matches Ok(t) && con_named(t, "Float"@),
            Expr::Str(_) => r matches Ok(t) && con_named(t, "Str"@),
            Expr::Var(v) => match pre.env_type(v@) {
                Some(t) => r == Ok::<MType, TypeError>(pre.resolution(t)),
                None => if has_double_colon(v@) {
                    r == Ok::<MType, TypeError>(MType::TVar(pre.counter()))
                } else {
                    r matches Err(er) && er.msg@ == "unbound variable '"@ + v@ + "'"@
                },
            },
            Expr::Lambda { param, body } => r matches Ok(t) ==> exists|mid: TypeContext, u: MType|
                #[trigger] Self::inferred_step(mid, u) && Self::bound_param(pre, param@, mid) && t == MType::Fun(
                    Box::new(MType::TVar(pre.counter())),
                    Box::new(u),
                ) && Self::infers(mid, *body, Ok::<MType, TypeError>(u), post),
            Expr::Apply(..) => r matches Ok(t) ==> forall|w: u64| #[trigger] vars(t).contains(w)
                ==> !post.sub().contains_key(w),
            _ => r matches Err(er) && er.msg@ == "internal: sugar node survived semant"@,
        }
    }

    /// Infer the type of an expression: literals by their kind, a variable
    /// by the environment, a lambda as a fresh variable to the body's type,
    /// an application as a fresh result variable unified through the
    /// function's type. The result is resolved.
    pub fn infer(&mut self, expr: &Expr) -> (r: Result<MType, TypeError>)
        requires
            old(self).wf(),
        ensures
            final(self).wf(),
            extends(final(self).sub(), old(self).sub()),
            forall|n: Seq<char>| !binds_param(*expr, n) ==> #[trigger] final(self).env_type(n) == old(self).env_type(n),
            Self::infers(*old(self), *expr, r, *final(self)),
            match *expr {
                Expr::Int(_) => r matches Ok(t) && con_named(t, "Int"@),
                Expr::Float(_) => r matches Ok(t) && con_named(t, "Float"@),
                Expr::Str(_) => r matches Ok(t) && con_named(t, "Str"@),
                Expr::Var(v) => match old(self).env_type(v@) {
                    Some(t) => r == Ok::<MType, TypeError>(old(self).resolution(t)),
                    None => if has_double_colon(v@) {
                        r == Ok::<MType, TypeError>(MType::TVar(old(self).counter())) && final(self).counter()
                            == old(self).counter().wrapping_add(1) && final(self).sub() == old(self).sub()
                    } else {
                        r matches Err(e) && e.msg@ == "unbound variable '"@ + v@ + "'"@
                    },
                },
                Expr::Lambda { .. } => r matches Ok(t) ==> t matches MType::Fun(p, _) && *p == MType::TVar(
                    old(self).counter(),
                ),
                Expr::Apply(..) => r matches Ok(t) ==> forall|w: u64| #[trigger] vars(t).contains(w)
                    ==> !final(self).sub().contains_key(w),
                _ => r matches Err(e) && e.msg@ == "internal: sugar node survived semant"@,
            },
        decreases expr,
    {
        match expr {
            Expr::Int(_) => Ok(MType::TCon(owned("Int"))),
            Expr::Float(_) => Ok(MType::TCon(owned("Float"))),
            Expr::Str(_) => Ok(MType::TCon(owned("Str"))),
            Expr::Var(v) => match self.lookup(v.as_str()) {
                Some(t) => Ok(t),
                None => {
                    if double_colon_in(v.as_str()) {
                        Ok(MType::TVar(self.fresh()))
                    } else {
                        Err(TypeError { msg: concat(&concat(&owned("unbound variable '"), v.as_str()), "'") })
                    }
                },
            },
            Expr::Lambda { param, body } => {
                let param_tv = MType::TVar(self.fresh());
                self.bind(param.as_str(), param_tv.duplicate());
                let ghost mid = *self;
                let body_ty = self.infer(body)?;
                proof {
                    assert(Self::bound_param(*old(self), param@, mid));
                    assert(Self::inferred_step(mid, body_ty));
                }
                Ok(MType::Fun(Box::new(param_tv), Box::new(body_ty)))
            },
            Expr::Apply(f, arg) => {
                let f_ty = self.infer(f)?;
                let arg_ty = self.infer(arg)?;
                let ret_tv = MType::TVar(self.fresh());
                let expected = MType::Fun(Box::new(arg_ty), Box::new(ret_tv.duplicate()));
                let ghost before = self.sub();
                self.unify(&f_ty, &expected)?;
                let t = self.resolve(&ret_tv);
                proof {
                    lemma_resolved_unsolved(ret_tv, self.sub(), self.ranks());
                }
                Ok(t)
            },
            _ => Err(TypeError { msg: owned("internal: sugar node survived semant") }),
        }
    }
}

/// Whether `e` has a lambda whose parameter is `n`.
pub open spec fn binds_param(e: Expr, n: Seq<char>) -> bool
    decreases e,
{
    match e {
        Expr::Lambda { param, body } => param@ == n || binds_param(*body, n),
        Expr::Apply(f, a) => binds_param(*f, n) || binds_param(*a, n),
        _ => false,
    }
}

/// The type constructor of a literal.
pub open spec fn literal_con(e: Expr) -> Option<Seq<char>> {
    match e {
        Expr::Int(_) => Some("Int"@),
        Expr::Float(_) => Some("Float"@),
        Expr::Str(_) => Some("Str"@),
        _ => None,
    }
}

/// The name a statement binds, if any.
pub open spec fn stmt_name(s: Stmt) -> Option<Seq<char>> {
    match s {
        Stmt::Define { name, .. } => Some(name@),
        Stmt::Native { name, .. } => Some(name@),
        _ => None,
    }
}

/// Statement `k` defines a literal under a signature that names another
/// type constructor; no other statement binds its name, and no lambda of
/// the program takes it as a parameter.
pub open spec fn clashing_literal(stmts: Seq<Stmt>, k: int) -> bool {
    &&& 0 <= k < stmts.len()
    &&& stmts[k] matches Stmt::Define { name, expr, type_sig: Some(Type::TCon(c)) }
    &&& literal_con(expr) matches Some(l) && c@ != l
    &&& forall|j: int| 0 <= j < stmts.len() && j != k ==> stmt_name(#[trigger] stmts[j]) != Some(name@)
    &&& forall|j: int| 0 <= j < stmts.len() ==> match #[trigger] stmts[j] {
        Stmt::Define { expr: e, .. } => !binds_param(e, name@),
        _ => true,
    }
}

/// `ctx` sees `name` as the type constructor `c`.
pub open spec fn pinned(ctx: TypeContext, name: Seq<char>, c: Seq<char>) -> bool {
    ctx.env_type(name) matches Some(t) && ctx.resolution(t) matches MType::TCon(x) && x@ == c
}

proof fn lemma_pinned_kept(c0: TypeContext, c1: TypeContext, name: Seq<char>, c: Seq<char>)
    requires
        c0.wf(),
        c1.wf(),
        extends(c1.sub(), c0.sub()),
        c1.env_type(name) == c0.env_type(name),
        pinned(c0, name, c),
    ensures
        pinned(c1, name, c),
{
    let t = c0.env_type(name)->Some_0;
    lemma_compose(t, c0.sub(), c0.ranks(), c1.sub(), c1.ranks());
}

/// A lambda whose body is a literal has a function type from a fresh
/// variable to the literal's type: `\x -> 1 : t -> Int`.
pub proof fn law_lambda_returns_its_literal_type(
    pre: TypeContext,
    param: String,
    body: Expr,
    t: MType,
    post: TypeContext,
)
    requires
        TypeContext::infers(pre, Expr::Lambda { param, body: Box::new(body) }, Ok(t), post),
        literal_con(body) is Some,
    ensures
        t matches MType::Fun(p, u) && *p == MType::TVar(pre.counter()) && con_named(*u, literal_con(body)->Some_0),
{
    let (mid, u) = choose|mid: TypeContext, u: MType|
        #[trigger] TypeContext::inferred_step(mid, u) && TypeContext::bound_param(pre, param@, mid) && t
            == MType::Fun(Box::new(MType::TVar(pre.counter())), Box::new(u)) && TypeContext::infers(
            mid,
            body,
            Ok::<MType, TypeError>(u),
            post,
        );
}

/// A lambda that returns another variable of its context has a function
/// type from a fresh variable to that variable's type:
/// `\x -> y : t -> T` where `y : T`.
pub proof fn law_lambda_returns_its_free_variable_type(
    pre: TypeContext,
    param: String,
    v: String,
    s: MType,
    t: MType,
    post: TypeContext,
)
    requires
        TypeContext::infers(pre, Expr::Lambda { param, body: Box::new(Expr::Var(v)) }, Ok(t), post),
        v@ != param@,
        pre.env_type(v@) == Some(s),
    ensures
        t == MType::Fun(Box::new(MType::TVar(pre.counter())), Box::new(pre.resolution(s))),
{
    let (mid, u) = choose|mid: TypeContext, u: MType|
        #[trigger] TypeContext::inferred_step(mid, u) && TypeContext::bound_param(pre, param@, mid) && t
            == MType::Fun(Box::new(MType::TVar(pre.counter())), Box::new(u)) && TypeContext::infers(
            mid,
            Expr::Var(v),
            Ok::<MType, TypeError>(u),
            post,
        );
    assert(mid.env_type(v@) == pre.env_type(v@));
}

/// The identity lambda has the type `t -> t` for a fresh, unsolved `t`:
/// its result is its parameter's type.
pub proof fn law_identity_lambda(pre: TypeContext, param: String, t: MType, post: TypeContext)
    requires
        TypeContext::infers(pre, Expr::Lambda { param, body: Box::new(Expr::Var(param)) }, Ok(t), post),
        !pre.sub().contains_key(pre.counter()),
    ensures
        t == MType::Fun(Box::new(MType::TVar(pre.counter())), Box::new(MType::TVar(pre.counter()))),
{
    let (mid, u) = choose|mid: TypeContext, u: MType|
        #[trigger] TypeContext::inferred_step(mid, u) && TypeContext::bound_param(pre, param@, mid) && t
            == MType::Fun(Box::new(MType::TVar(pre.counter())), Box::new(u)) && TypeContext::infers(
            mid,
            Expr::Var(param),
            Ok::<MType, TypeError>(u),
            post,
        );
    assert(mid.resolution(MType::TVar(pre.counter())) == MType::TVar(pre.counter()));
}

/// Whether a program defines nothing.
pub open spec fn no_definitions(stmts: Seq<Stmt>) -> bool {
    forall|i: int| 0 <= i < stmts.len() ==> !((#[trigger] stmts[i]) is Define)
}

/// Type-check a desugared program: natives and definitions (with their
/// annotations, when written) are entered first, then every definition's
/// body is inferred and unified with the definition's type, which is then
/// recorded resolved.
pub fn typecheck(stmts: &[Stmt]) -> (r: Result<(), TypeError>)
    ensures
        no_definitions(stmts@) ==> r is Ok,
        (exists|k: int| #[trigger] clashing_literal(stmts@, k)) ==> r is Err,
{
    let ghost has = exists|k: int| #[trigger] clashing_literal(stmts@, k);
    let ghost big_k: int = if has {
        choose|k: int| #[trigger] clashing_literal(stmts@, k)
    } else {
        0
    };
    let ghost nk: Seq<char> = if has { stmt_name(stmts@[big_k])->Some_0 } else { Seq::empty() };
    let ghost ck: Seq<char> = if has {
        match stmts@[big_k] {
            Stmt::Define { type_sig: Some(Type::TCon(c)), .. } => c@,
            _ => Seq::empty(),
        }
    } else {
        Seq::empty()
    };
    let mut ctx = TypeContext::new();
    let mut i: usize = 0;
    while i < stmts.len()
        invariant
            i <= stmts@.len(),
            ctx.wf(),
            no_definitions(stmts@) ==> ctx.sub() == Map::<u64, MType>::empty(),
            has ==> clashing_literal(stmts@, big_k),
            has ==> nk == stmt_name(stmts@[big_k])->Some_0,
            has ==> (stmts@[big_k] matches Stmt::Define { type_sig: Some(Type::TCon(c)), .. } && c@ == ck),
            has && i > big_k ==> pinned(ctx, nk, ck),
        decreases stmts@.len() - i,
    {
        match &stmts[i] {
            Stmt::Native { name, type_sig } => {
                proof {
                    if has {
                        assert(i != big_k);
                        assert(stmt_name(stmts@[i as int]) != Some(nk));
                    }
                }
                let mt = MType::from_ast(type_sig, &mut ctx);
                ctx.bind(name.as_str(), mt);
            },
            Stmt::Define { name, type_sig, .. } => {
                proof {
                    if has && i != big_k {
                        assert(stmt_name(stmts@[i as int]) != Some(nk));
                    }
                }
                let tv = MType::TVar(ctx.fresh());
                let ghost tv0 = tv;
                if let Some(sig) = type_sig {
                    let sig_mt = MType::from_ast(sig, &mut ctx);
                    let ghost c1 = ctx;
                    ctx.unify(&tv, &sig_mt)?;
                    proof {
                        if has && i > big_k {
                            lemma_pinned_kept(c1, ctx, nk, ck);
                        }
                    }
                }
                ctx.bind(name.as_str(), tv);
            },
            _ => {},
        }
        i = i + 1;
    }
    let mut k: usize = 0;
    while k < stmts.len()
        invariant
            k <= stmts@.len(),
            ctx.wf(),
            has ==> clashing_literal(stmts@, big_k),
            has ==> nk == stmt_name(stmts@[big_k])->Some_0,
            has ==> (stmts@[big_k] matches Stmt::Define { type_sig: Some(Type::TCon(c)), .. } && c@ == ck),
            has && k <= big_k ==> pinned(ctx, nk, ck),
            has ==> k <= big_k,
        decreases stmts@.len() - k,
    {
        if let Stmt::Define { name, expr, type_sig } = &stmts[k] {
            let ghost c0 = ctx;
            proof {
                if has {
                    assert(!binds_param(*expr, nk));
                }
            }
            let inferred = ctx.infer(expr)?;
            proof {
                if has && k <= big_k {
                    lemma_pinned_kept(c0, ctx, nk, ck);
                }
            }
            let ghost c1 = ctx;
            let expected = match ctx.lookup(name.as_str()) {
                Some(t) => t,
                None => MType::TVar(0),
            };
            proof {
                if has && k == big_k {
                    assert(name@ == nk);
                    assert(expected matches MType::TCon(x) && x@ == ck);
                }
            }
            match ctx.unify(&inferred, &expected) {
                Ok(()) => {
                    proof {
                        if has && k < big_k {
                            lemma_pinned_kept(c1, ctx, nk, ck);
                        }
                        if has && k == big_k {
                            assert(literal_con(*expr) matches Some(l) && l != ck);
                            assert(false);
                        }
                    }
                },
                Err(e) => {
                    let ann = match type_sig {
                        Some(t) => concat(&concat(&owned(" (annotation: "), display_type(t).as_str()), ")"),
                        None => owned(""),
                    };
                    let m = concat(
                        &concat(&concat(&concat(&concat(&owned("type error in '"), name.as_str()), "'"), ann.as_str()), ": "),
                        e.msg.as_str(),
                    );
                    return Err(TypeError { msg: m });
                },
            }
            let final_ty = ctx.resolve(&inferred);
            proof {
                if has && k != big_k {
                    assert(stmt_name(stmts@[k as int]) != Some(nk));
                }
            }
            ctx.bind(name.as_str(), final_ty);
        }
        k = k + 1;
    }
    Ok(())
}

} // verus!
