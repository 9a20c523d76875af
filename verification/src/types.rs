//! Type annotations of definitions, and the names of host functions.

use vstd::prelude::*;

use crate::ir::IrDef;
use crate::text::str_eq;

verus! {

/// A written type: a variable, a constructor, or a function type.
#[derive(Debug)]
pub enum Type {
    /// A type variable: `a`, `b`, ...
    TVar(String),
    /// A type constructor: `Int`, `Str`, `IO`, ...
    TCon(String),
    /// `param -> result`.
    Fun(Box<Type>, Box<Type>),
}

/// The number of arguments of a curried function type.
pub open spec fn type_arity(t: Type) -> nat
    decreases t,
{
    match t {
        Type::Fun(_, ret) => 1 + type_arity(*ret),
        _ => 0,
    }
}

impl Type {
    /// Whether this is the constructor `name`.
    pub fn is(&self, name: &str) -> (b: bool)
        ensures
            b == (*self matches Type::TCon(s) && s@ == name@),
    {
        match self {
            Type::TCon(s) => str_eq(s, &name.to_string()),
            _ => false,
        }
    }

    /// A copy of the type.
    pub fn duplicate(&self) -> (r: Type)
        ensures
            r == *self,
        decreases self,
    {
        match self {
            Type::TVar(v) => Type::TVar(v.clone()),
            Type::TCon(c) => Type::TCon(c.clone()),
            Type::Fun(p, r) => Type::Fun(Box::new(p.duplicate()), Box::new(r.duplicate())),
        }
    }

    /// The number of arguments: `Int -> Int -> Int` has two.
    pub fn arity(&self) -> (n: u32)
        requires
            type_arity(*self) <= u32::MAX,
        ensures
            n == type_arity(*self),
        decreases self,
    {
        match self {
            Type::Fun(_, ret) => 1 + ret.arity(),
            _ => 0,
        }
    }
}

/// Which names of an imported module are brought in.
#[derive(Debug)]
pub enum ImportSpec {
    All,
    Only(Vec<String>),
}

/// The name a definition declares native, if it is a native declaration.
pub open spec fn native_name(d: IrDef) -> Option<Seq<char>> {
    match d {
        IrDef::Native { name, .. } => Some(name@),
        _ => None,
    }
}

/// The names of the functions that the host implements.
pub struct NativeRegistry {
    names: Vec<String>,
}

impl View for NativeRegistry {
    type V = Set<Seq<char>>;

    closed spec fn view(&self) -> Set<Seq<char>> {
        Set::new(|n: Seq<char>| exists|i: int| 0 <= i < self.names@.len() && self.names@[i]@ == n)
    }
}

impl NativeRegistry {
    /// Every name is listed once.
    pub closed spec fn wf(&self) -> bool {
        forall|i: int, j: int|
            0 <= i < j < self.names@.len() ==> (#[trigger] self.names@[i])@ != (#[trigger] self.names@[j])@
    }

    pub fn empty() -> (r: Self)
        ensures
            r.wf(),
            r@ == Set::<Seq<char>>::empty(),
    {
        let r = NativeRegistry { names: Vec::new() };
        proof {
            assert(r@ =~= Set::<Seq<char>>::empty());
        }
        r
    }

    /// Registers `name` as a host function.
    pub fn insert(&mut self, name: String)
        requires
            old(self).wf(),
        ensures
            final(self).wf(),
            final(self)@ == old(self)@.insert(name@),
    {
        if !self.is_native(name.as_str()) {
            let ghost before = self.names@;
            self.names.push(name);
            proof {
                assert forall|n: Seq<char>| #[trigger] self@.contains(n) <==> old(self)@.insert(name@).contains(n) by {
                    if self@.contains(n) {
                        let i = choose|i: int| 0 <= i < self.names@.len() && self.names@[i]@ == n;
                        if i < before.len() {
                            assert(before[i] == self.names@[i]);
                        }
                    }
                    if old(self)@.contains(n) {
                        let i = choose|i: int| 0 <= i < before.len() && before[i]@ == n;
                        assert(self.names@[i] == before[i]);
                    }
                    if n == name@ {
                        assert(self.names@[before.len() as int] == name);
                    }
                }
                assert(self@ =~= old(self)@.insert(name@));
            }
        } else {
            proof {
                assert(self@ =~= old(self)@.insert(name@));
            }
        }
    }

    /// The registry of the names that the definitions declare `native`.
    pub fn from_ir(defs: &[IrDef]) -> (r: Self)
        ensures
            r.wf(),
            forall|n: Seq<char>| r@.contains(n) <==> exists|i: int| 0 <= i < defs@.len() && #[trigger] native_name(defs@[i]) == Some(n),
    {
        let mut reg = NativeRegistry::empty();
        let mut i: usize = 0;
        while i < defs.len()
            invariant
                reg.wf(),
                i <= defs@.len(),
                forall|n: Seq<char>| reg@.contains(n) <==> exists|j: int| 0 <= j < i && #[trigger] native_name(defs@[j]) == Some(n),
            decreases defs@.len() - i,
        {
            let ghost before = reg@;
            if let IrDef::Native { name, .. } = &defs[i] {
                reg.insert(name.clone());
            }
            proof {
                assert forall|n: Seq<char>| reg@.contains(n) <==> exists|j: int| 0 <= j < i + 1 && #[trigger] native_name(defs@[j]) == Some(n) by {
                    if reg@.contains(n) && native_name(defs@[i as int]) != Some(n) {
                        assert(before.contains(n));
                    }
                    if exists|j: int| 0 <= j < i + 1 && #[trigger] native_name(defs@[j]) == Some(n) {
                        let j = choose|j: int| 0 <= j < i + 1 && #[trigger] native_name(defs@[j]) == Some(n);
                        if j < i {
                            assert(before.contains(n));
                        }
                    }
                }
            }
            i = i + 1;
        }
        reg
    }

    pub fn is_native(&self, name: &str) -> (b: bool)
        ensures
            b == self@.contains(name@),
    {
        let key = name.to_string();
        let mut i: usize = 0;
        while i < self.names.len()
            invariant
                i <= self.names@.len(),
                key@ == name@,
                forall|j: int| 0 <= j < i ==> self.names@[j]@ != name@,
            decreases self.names@.len() - i,
        {
            if str_eq(&self.names[i], &key) {
                return true;
            }
            i = i + 1;
        }
        false
    }

    /// Every registered name, each once.
    pub fn all_names(&self) -> (v: Vec<String>)
        requires
            self.wf(),
        ensures
            forall|n: Seq<char>| self@.contains(n) <==> exists|i: int| 0 <= i < v@.len() && (#[trigger] v@[i])@ == n,
            forall|i: int, j: int| 0 <= i < j < v@.len() ==> (#[trigger] v@[i])@ != (#[trigger] v@[j])@,
    {
        let mut v: Vec<String> = Vec::new();
        let mut i: usize = 0;
        while i < self.names.len()
            invariant
                i <= self.names@.len(),
                v@.len() == i,
                forall|j: int| 0 <= j < i ==> (#[trigger] v@[j])@ == self.names@[j]@,
            decreases self.names@.len() - i,
        {
            v.push(self.names[i].clone());
            i = i + 1;
        }
        proof {
            assert forall|n: Seq<char>| self@.contains(n) <==> exists|i: int| 0 <= i < v@.len() && (#[trigger] v@[i])@ == n by {
                if self@.contains(n) {
                    let k = choose|k: int| 0 <= k < self.names@.len() && self.names@[k]@ == n;
                    assert(v@[k]@ == n);
                }
                if exists|i: int| 0 <= i < v@.len() && (#[trigger] v@[i])@ == n {
                    let k = choose|k: int| 0 <= k < v@.len() && (#[trigger] v@[k])@ == n;
                    assert(self.names@[k]@ == n);
                }
            }
        }
        v
    }
}

} // verus!
