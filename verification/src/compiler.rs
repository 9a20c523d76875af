//! Code generation: from the flattened arena to machine bytecode.
//!
//! Every arena slot that is computed gets a register; every function
//! literal gets its body compiled once into the function area, which comes
//! before the code of the entry binding.

use vstd::prelude::*;

use crate::desugarer::{all_desugar_to, desugar, DesugarBinding};
use crate::diagnostics::{Diagnostics, Origin, Severity, Span};
use crate::flattener::{
    bindings_resolve, file_closed, flattened, refs_below, Flatten, FlattenIndex, FlattenValue, FlattenValueKind, Flattener,
};
use crate::names::{IndexMap, NameMap};
use crate::parser::{sp_program, stmt_is, Parser, ProgM, Statement, StmtM};
use crate::tokenizer::{scan, ScanOutcome};
use crate::prelude::{built, lemma_built_room, lemma_built_shape, print, Builtin};
use crate::resolver::{binding_closed, name_set, names_of, resolve_pars, resolve_program_with_source, ModuleSource, Pars};
use crate::table::SlotTable;
use crate::text::{concat, decimal, owned, usize_to_decimal};
use crate::vm::{
    enc1, enc2, enc3r, enc3w, words, DataPool, Instruction, ProgramCount, Register, VirtualMachineData,
};

verus! {

/// Hands out registers in increasing order, like a stack.
#[derive(Debug)]
pub struct Allocator {
    pub register: Register,
    is_full: bool,
}

impl Allocator {
    /// The next register to hand out.
    pub closed spec fn reg(&self) -> Register {
        self.register
    }

    /// Whether the last request found no register left.
    pub closed spec fn full(&self) -> bool {
        self.is_full
    }

    pub fn new() -> (a: Self)
        ensures
            a.reg() == 0,
            !a.full(),
    {
        Allocator { register: 0, is_full: false }
    }

    /// The next free register, or an error when all are in use.
    pub fn allocate(&mut self) -> (r: Result<Register, Diagnostics>)
        ensures
            old(self).reg() == u16::MAX ==> (r matches Err(e) && e.message@ == "overflow register alloc"@
                && e.span == Span { start: 0, end: 0 } && e.severity == Severity::Error && e.origin == Origin::Compiler)
                && final(self).reg() == old(self).reg() && final(self).full(),
            old(self).reg() < u16::MAX ==> r == Ok::<Register, Diagnostics>(old(self).reg())
                && final(self).reg() == old(self).reg() + 1 && !final(self).full(),
    {
        self.is_full = self.register == u16::MAX;
        if self.is_full {
            Err(Diagnostics::compiler_error(owned("overflow register alloc"), Span::zero()))
        } else {
            let reg = self.register;
            self.register = self.register + 1;
            Ok(reg)
        }
    }

    /// Gives back the last `size` registers (all of them if fewer are in use).
    pub fn free(&mut self, size: Register)
        ensures
            final(self).reg() == old(self).reg() - (if size <= old(self).reg() {
                size
            } else {
                old(self).reg()
            }),
            final(self).full() == (final(self).reg() == u16::MAX),
    {
        let n = if size <= self.register {
            size
        } else {
            self.register
        };
        self.register = self.register - n;
        self.is_full = self.register == u16::MAX;
    }
}

/// Giving back what was just handed out restores the allocator.
pub proof fn law_allocate_then_free(before: Allocator, after: Allocator, freed: Allocator)
    requires
        before.reg() < u16::MAX,
        after.reg() == before.reg() + 1,
        freed.reg() == after.reg() - (if 1 <= after.reg() {
            1
        } else {
            after.reg()
        }),
    ensures
        freed.reg() == before.reg(),
{
}

/// Where a compiled function starts and which register holds its parameter.
#[derive(Debug, Clone, Copy)]
pub struct Function {
    pub param_register: Register,
    pub pc: ProgramCount,
}

/// A built-in function: the global name it is bound to and the bytecode
/// it is made of.
pub struct BytecodeFunction {
    pub name: String,
    pub build: Builtin,
}

/// What has been compiled so far, and the tables that tie arena slots to
/// registers, functions and pool entries.
#[derive(Debug)]
pub struct CompileObject {
    pub flatten: Flatten,
    pub allocator: Allocator,
    pub function_map: SlotTable<Function>,
    pub function_bytecode: Vec<Instruction>,
    pub binding_map: SlotTable<Register>,
    pub string_cache: IndexMap,
    pub data_pool: DataPool,
}

pub open spec fn is_prefix<T>(a: Seq<T>, b: Seq<T>) -> bool {
    a.len() <= b.len() && forall|i: int| 0 <= i < a.len() ==> #[trigger] b[i] == a[i]
}

impl CompileObject {
    /// Every compiled function starts inside the function area.
    pub open spec fn functions_in_code(&self) -> bool {
        forall|k: usize|
            #[trigger] self.function_map@.contains_key(k) ==> (self.function_map@[k].pc as int)
                < self.function_bytecode@.len()
    }

    pub open spec fn wf(&self) -> bool {
        &&& file_closed(self.flatten.file@)
        &&& self.flatten.bindings.wf()
        &&& self.binding_map.wf()
        &&& self.function_map.wf()
        &&& self.string_cache.wf()
        &&& self.functions_in_code()
    }

    /// Every cached string names the pool entry that holds it.
    pub open spec fn cache_ok(&self) -> bool {
        forall|s: Seq<char>|
            #[trigger] self.string_cache@.contains_key(s) ==> {
                let i = self.string_cache@[s] as int;
                &&& i < self.data_pool@.len()
                &&& self.data_pool@[i] matches VirtualMachineData::StrPtr(x) && x@ == s
            }
    }

    /// `new` is `old` after more compilation: the arena is the same, code and
    /// pool entries already emitted stay where they are, and every slot
    /// that had a register or a function still has one.
    pub open spec fn extends(old: CompileObject, new: CompileObject) -> bool {
        &&& new.flatten == old.flatten
        &&& is_prefix(old.function_bytecode@, new.function_bytecode@)
        &&& is_prefix(old.data_pool@, new.data_pool@)
        &&& forall|k: usize|
            old.binding_map@.contains_key(k) ==> #[trigger] new.binding_map@.contains_key(k)
        &&& forall|k: usize|
            old.function_map@.contains_key(k) ==> #[trigger] new.function_map@.contains_key(k)
        &&& new.allocator.reg() >= old.allocator.reg()
    }

    pub fn new(flatten: Flatten) -> (c: Self)
        requires
            file_closed(flatten.file@),
            flatten.bindings.wf(),
        ensures
            c.wf(),
            c.cache_ok(),
            c.flatten == flatten,
            c.allocator.reg() == 0,
            c.function_map@ == Map::<usize, Function>::empty(),
            c.binding_map@ == Map::<usize, Register>::empty(),
            c.string_cache@ == Map::<Seq<char>, usize>::empty(),
            c.function_bytecode@ == Seq::<Instruction>::empty(),
            c.data_pool@ == Seq::<VirtualMachineData>::empty(),
    {
        CompileObject {
            flatten,
            allocator: Allocator::new(),
            function_map: SlotTable::new(),
            function_bytecode: Vec::new(),
            binding_map: SlotTable::new(),
            string_cache: IndexMap::new(),
            data_pool: DataPool::new(),
        }
    }

    /// Takes over the tables, code and pool of `object`: its entries win
    /// over those of this object, its code and pool follow this object's.
    pub fn link_object(&mut self, object: CompileObject)
        requires
            old(self).wf(),
            object.wf(),
        ensures
            final(self).wf(),
            final(self).flatten == old(self).flatten,
            final(self).allocator == old(self).allocator,
            final(self).function_map@ == old(self).function_map@.union_prefer_right(object.function_map@),
            final(self).binding_map@ == old(self).binding_map@.union_prefer_right(object.binding_map@),
            final(self).string_cache@ == old(self).string_cache@.union_prefer_right(object.string_cache@),
            final(self).function_bytecode@ == old(self).function_bytecode@ + object.function_bytecode@,
            final(self).data_pool@ == old(self).data_pool@ + object.data_pool@,
    {
        let mut object = object;
        self.function_map.extend_overwrite(&object.function_map);
        self.binding_map.extend_overwrite(&object.binding_map);
        self.string_cache.extend_overwrite(&object.string_cache);
        self.function_bytecode.append(&mut object.function_bytecode);
        self.data_pool.append(&mut object.data_pool);
        proof {
            assert forall|k: usize| #[trigger] self.function_map@.contains_key(k) implies (
            self.function_map@[k].pc as int) < self.function_bytecode@.len() by {
                if object.function_map@.contains_key(k) {
                } else {
                }
            }
        }
    }

    /// The program `code` starts with the function area of `post`, at whose
    /// end `pc` stands (as a `u32`), and goes on with `main`; its pool is that
    /// of `post`.
    pub open spec fn built_from(
        post: CompileObject,
        main: Seq<Instruction>,
        pc: ProgramCount,
        code: Seq<Instruction>,
        pool: Seq<VirtualMachineData>,
    ) -> bool {
        &&& code == post.function_bytecode@ + main
        &&& pc == post.function_bytecode@.len() as u32
        &&& pool == post.data_pool@
    }

    /// `idx` names a slot of the arena that has no register yet.
    pub open spec fn fresh(c: CompileObject, idx: usize) -> bool {
        idx < c.flatten.file@.len() && !c.binding_map@.contains_key(idx)
    }

    /// `post` is `pre` after giving slot `idx` the next register `reg`,
    /// with nothing else emitted.
    pub open spec fn placed(pre: CompileObject, post: CompileObject, idx: usize, reg: Register) -> bool {
        &&& reg == pre.allocator.reg()
        &&& post.allocator.reg() == pre.allocator.reg() + 1
        &&& post.binding_map@ == pre.binding_map@.insert(idx, reg)
        &&& post.function_map@ == pre.function_map@
        &&& post.function_bytecode@ == pre.function_bytecode@
    }

    /// What compiling a fresh constant slot (an integer, a string, or an
    /// unfilled slot) does: it takes the next register, and its code is one
    /// load, or nothing for an unfilled slot that is no compiled function.
    pub open spec fn leaf_spec(
        pre: CompileObject,
        post: CompileObject,
        idx: usize,
        r: Result<(Register, Vec<Instruction>), Diagnostics>,
    ) -> bool {
        let full = pre.allocator.reg() == u16::MAX;
        match pre.flatten.file@[idx as int].kind {
            FlattenValueKind::Int(v) => if full {
                r is Err
            } else {
                r matches Ok((reg, bc)) && Self::placed(pre, post, idx, reg) && post.data_pool@
                    == pre.data_pool@ && bc@.len() == 1 && bc@[0]@ == enc2(
                    7,
                    reg as u64,
                    (v as u32) as u64,
                )
            },
            FlattenValueKind::Unset => if full {
                r is Err
            } else {
                r matches Ok((reg, bc)) && Self::placed(pre, post, idx, reg) && post.data_pool@
                    == pre.data_pool@ && if pre.function_map@.contains_key(idx) {
                    let f = pre.function_map@[idx];
                    bc@.len() == 1 && bc@[0]@ == enc3w(6, reg as u64, f.pc as u64, f.param_register as u64)
                } else {
                    bc@.len() == 0
                }
            },
            FlattenValueKind::String(s) => {
                let cached = pre.string_cache@.contains_key(s@);
                let slot: u32 = if cached {
                    pre.string_cache@[s@] as u32
                } else {
                    pre.data_pool@.len() as u32
                };
                &&& cached ==> post.data_pool@ == pre.data_pool@ && post.string_cache@
                    == pre.string_cache@
                &&& !cached ==> post.data_pool@.len() == pre.data_pool@.len() + 1
                    && post.string_cache@ == pre.string_cache@.insert(s@, slot as usize)
                    && (post.data_pool@.last() matches VirtualMachineData::StrPtr(x) && x@ == s@)
                &&& if full {
                    r is Err
                } else {
                    r matches Ok((reg, bc)) && Self::placed(pre, post, idx, reg) && bc@.len() == 1
                        && bc@[0]@ == enc2(8, reg as u64, slot as u64)
                }
            },
            _ => true,
        }
    }

    /// The end of the chain of variables from slot `i`, following at most
    /// `fuel` links; `None` where the chain is longer.
    pub open spec fn chain_end(file: Seq<FlattenValue>, i: usize, fuel: nat) -> Option<usize>
        decreases fuel,
    {
        if i >= file.len() {
            None
        } else {
            match file[i as int].kind {
                FlattenValueKind::Variable(j) => if fuel == 0 {
                    None
                } else {
                    Self::chain_end(file, j, (fuel - 1) as nat)
                },
                _ => Some(i),
            }
        }
    }

    /// `post` has the tables, code and pool of `pre`.
    pub open spec fn same_tables(pre: CompileObject, post: CompileObject) -> bool {
        &&& post.flatten == pre.flatten
        &&& post.function_map == pre.function_map
        &&& post.function_bytecode@ == pre.function_bytecode@
        &&& post.string_cache@ == pre.string_cache@
        &&& post.data_pool@ == pre.data_pool@
    }

    /// The end of compiling a call whose operands left `m`: the call's code
    /// is `code`; out of tail position the call's slot gets `dest`; and
    /// where the operands compiled no function, their registers are given
    /// back down to `base`.
    pub open spec fn call_done(
        m: CompileObject,
        post: CompileObject,
        idx: usize,
        is_tail: bool,
        dest: Register,
        base: Register,
        fcount: nat,
        code: Seq<u64>,
        r: Result<(Register, Vec<Instruction>), Diagnostics>,
    ) -> bool {
        &&& r matches Ok((reg, bc)) && reg == (if is_tail { 0 } else { dest }) && words(bc@) == code
        &&& Self::same_tables(m, post)
        &&& post.binding_map@ == (if is_tail { m.binding_map@ } else { m.binding_map@.insert(idx, dest) })
        &&& post.allocator.reg() == (if m.function_map.entries_seq().len() == fcount {
            base
        } else {
            m.allocator.reg()
        })
    }

    /// A marker for an intermediate step of a compilation.
    pub open spec fn stepped(
        m: CompileObject,
        r: Result<(Register, Vec<Instruction>), Diagnostics>,
        post: CompileObject,
    ) -> bool {
        true
    }

    /// Compiling slot `idx` of `pre`, in tail position when `is_tail`, with
    /// `depth` nestings left, gives `r` and leaves `post`.
    ///
    /// A slot with a register already gives it, with no code. A constant
    /// takes the next register (`leaf_spec`). A variable compiles the slot it
    /// refers to and shares its register. A call follows its callee's chain
    /// of variables, takes a register for its result, compiles its argument,
    /// then either moves the argument into a compiled function's parameter
    /// and calls (or jumps to) it, or compiles the callee and calls it
    /// through its register. A function takes a register for its parameter
    /// and one for itself, compiles its body in tail position into the
    /// function area, followed by a return, and loads the function.
    pub open spec fn compiles(
        pre: CompileObject,
        idx: usize,
        is_tail: bool,
        depth: nat,
        r: Result<(Register, Vec<Instruction>), Diagnostics>,
        post: CompileObject,
    ) -> bool
        decreases depth,
    {
        let base = pre.allocator.reg();
        if idx >= pre.flatten.file@.len() {
            r is Err && post == pre
        } else if pre.binding_map@.contains_key(idx) {
            post == pre && (r matches Ok((reg, bc)) && reg == pre.binding_map@[idx] && bc@.len() == 0)
        } else {
            match pre.flatten.file@[idx as int].kind {
                FlattenValueKind::Variable(i) => if depth == 0 {
                    r is Err
                } else {
                    exists|ri: Result<(Register, Vec<Instruction>), Diagnostics>, mi: CompileObject|
                        #[trigger] Self::stepped(pre, ri, mi) && Self::compiles(pre, i, is_tail, (depth - 1) as nat, ri, mi)
                            && match ri {
                            Err(e) => r == Err::<(Register, Vec<Instruction>), Diagnostics>(e) && post == mi,
                            Ok((d, vbc)) => r matches Ok((d2, bc)) && d2 == d && bc@ == vbc@ && Self::same_tables(mi, post)
                                && post.allocator == mi.allocator && post.binding_map@ == mi.binding_map@.insert(idx, d),
                        }
                },
                FlattenValueKind::FunctionCall { callee, arg } => if depth == 0 || Self::chain_end(
                    pre.flatten.file@,
                    callee,
                    pre.flatten.file@.len() as nat,
                ) is None || base == u16::MAX {
                    r is Err
                } else {
                    let c = Self::chain_end(pre.flatten.file@, callee, pre.flatten.file@.len() as nat)->Some_0;
                    let fcount = pre.function_map.entries_seq().len();
                    let d1 = (depth - 1) as nat;
                    exists|m1: CompileObject, ra: Result<(Register, Vec<Instruction>), Diagnostics>, m2: CompileObject|
                        #[trigger] Self::stepped(m1, ra, m2) && Self::same_tables(pre, m1) && m1.binding_map@
                            == pre.binding_map@ && m1.allocator.reg() == base + 1 && Self::compiles(m1, arg, false, d1, ra, m2)
                            && match ra {
                            Err(e) => r == Err::<(Register, Vec<Instruction>), Diagnostics>(e) && post == m2,
                            Ok((areg, abc)) => if m2.function_map@.contains_key(c) {
                                let f = m2.function_map@[c];
                                Self::call_done(
                                    m2,
                                    post,
                                    idx,
                                    is_tail,
                                    base,
                                    base,
                                    fcount,
                                    words(abc@) + seq![
                                        enc2(1, f.param_register as u64, areg as u64),
                                        if is_tail { enc1(0, f.pc as u64) } else { enc2(3, base as u64, f.pc as u64) },
                                    ],
                                    r,
                                )
                            } else {
                                exists|rc: Result<(Register, Vec<Instruction>), Diagnostics>, m3: CompileObject|
                                    #[trigger] Self::stepped(m2, rc, m3) && Self::compiles(m2, c, false, d1, rc, m3) && match rc {
                                        Err(e) => r == Err::<(Register, Vec<Instruction>), Diagnostics>(e) && post == m3,
                                        Ok((creg, cbc)) => Self::call_done(
                                            m3,
                                            post,
                                            idx,
                                            is_tail,
                                            base,
                                            base,
                                            fcount,
                                            words(abc@) + words(cbc@) + seq![
                                                if is_tail {
                                                    enc2(5, creg as u64, areg as u64)
                                                } else {
                                                    enc3r(4, base, creg, areg)
                                                },
                                            ],
                                            r,
                                        ),
                                    }
                            },
                        }
                },
                FlattenValueKind::Function { param, body } => if depth == 0 || base + 2 > u16::MAX {
                    r is Err
                } else {
                    exists|m2: CompileObject, rb: Result<(Register, Vec<Instruction>), Diagnostics>, mb: CompileObject|
                        #[trigger] Self::stepped(m2, rb, mb) && Self::same_tables(pre, m2) && m2.allocator.reg() == base + 2
                            && m2.binding_map@ == pre.binding_map@.insert(param, base).insert(idx, (base + 1) as u16)
                            && Self::compiles(m2, body, true, (depth - 1) as nat, rb, mb) && match rb {
                            Err(e) => r == Err::<(Register, Vec<Instruction>), Diagnostics>(e) && post == mb,
                            Ok((breg, bbc)) => {
                                let pc = mb.function_bytecode@.len() as u32;
                                &&& r matches Ok((reg, bc)) && reg == base + 1 && words(bc@) == seq![
                                    enc3w(6, (base + 1) as u64, pc as u64, base as u64),
                                ]
                                &&& post.flatten == mb.flatten
                                &&& post.allocator == mb.allocator
                                &&& post.binding_map@ == mb.binding_map@
                                &&& post.function_map@ == mb.function_map@.insert(
                                    idx,
                                    Function { param_register: base, pc },
                                )
                                &&& words(post.function_bytecode@) == words(mb.function_bytecode@) + words(bbc@) + seq![
                                    enc1(2, breg as u64),
                                ]
                                &&& post.string_cache@ == mb.string_cache@
                                &&& post.data_pool@ == mb.data_pool@
                            },
                        }
                },
                _ => Self::leaf_spec(pre, post, idx, r),
            }
        }
    }

    fn value_error(what: &str, idx: usize) -> (d: Diagnostics)
        ensures
            d.message@ == what@ + decimal(idx as nat),
            d.span.start == 0 && d.span.end == 0,
            d.severity == Severity::Error,
            d.origin == Origin::Compiler,
    {
        let n = usize_to_decimal(idx);
        Diagnostics::compiler_error(concat(&owned(what), n.as_str()), Span::zero())
    }

    /// Compiles slot `value_idx`: returns the register that holds its value
    /// and the code that computes it. In tail position (`is_tail`) a call
    /// becomes a jump and the register returned is 0.
    ///
    /// A slot is compiled once: later requests get its register and no code.
    /// A function's body goes to the function area, and the code returned
    /// loads the function.
    #[verifier::rlimit(100)]
    #[verifier::spinoff_prover]
    fn alloc_value_inner(&mut self, value_idx: FlattenIndex, is_tail: bool, depth: usize) -> (r: Result<
        (Register, Vec<Instruction>),
        Diagnostics,
    >)
        requires
            old(self).wf(),
        ensures
            final(self).wf(),
            Self::extends(*old(self), *final(self)),
            value_idx >= old(self).flatten.file@.len() ==> r is Err && *final(self) == *old(self),
            value_idx < old(self).flatten.file@.len() && old(self).binding_map@.contains_key(value_idx)
                ==> *final(self) == *old(self) && (r matches Ok((reg, bc)) && reg == old(
                self,
            ).binding_map@[value_idx] && bc@.len() == 0),
            r matches Ok((reg, _)) && !is_tail ==> final(self).binding_map@.contains_key(value_idx),
            old(self).cache_ok() && final(self).data_pool@.len() <= u32::MAX ==> final(self).cache_ok(),
            Self::fresh(*old(self), value_idx) ==> Self::leaf_spec(*old(self), *final(self), value_idx, r),
            Self::compiles(*old(self), value_idx, is_tail, depth as nat, r, *final(self)),
        decreases depth,
    {
        if value_idx >= self.flatten.file.len() {
            return Err(Self::value_error("not found value ", value_idx));
        }
        match self.binding_map.get(value_idx) {
            Some(reg) => {
                return Ok((reg, Vec::new()));
            },
            None => {},
        }
        let ghost start = *self;
        let kind = self.flatten.file[value_idx].clone_value().kind;
        proof {
            assert(refs_below(kind, self.flatten.file@.len() as int));
        }
        let mut bytecode: Vec<Instruction> = Vec::new();
        match kind {
            FlattenValueKind::FunctionCall { callee, arg } => {
                if depth == 0 {
                    return Err(Self::value_error("value nested too deeply at ", value_idx));
                }
                let n = self.flatten.file.len();
                let mut callee_idx = callee;
                let mut steps: usize = 0;
                loop
                    invariant
                        *self == start,
                        start == *old(self),
                        value_idx < n,
                        !start.binding_map@.contains_key(value_idx),
                        start.flatten.file@[value_idx as int].kind == (FlattenValueKind::FunctionCall { callee, arg }),
                        depth > 0,
                        self.wf(),
                        n == self.flatten.file@.len(),
                        callee_idx < n,
                        steps <= n,
                        Self::chain_end(start.flatten.file@, callee, n as nat) == Self::chain_end(
                            start.flatten.file@,
                            callee_idx,
                            (n - steps) as nat,
                        ),
                    ensures
                        *self == start,
                        callee_idx < n,
                        Self::chain_end(start.flatten.file@, callee, n as nat) == Some(callee_idx),
                    decreases n - steps,
                {
                    let next = match &self.flatten.file[callee_idx].kind {
                        FlattenValueKind::Variable(i) => Some(*i),
                        _ => None,
                    };
                    match next {
                        Some(i) => {
                            proof {
                                assert(refs_below(self.flatten.file@[callee_idx as int].kind, n as int));
                            }
                            if steps >= n {
                                proof {
                                    assert(Self::chain_end(start.flatten.file@, callee_idx, 0) is None);
                                    assert(Self::chain_end(old(self).flatten.file@, callee, n as nat) is None);
                                    assert(old(self).flatten.file@[value_idx as int].kind == FlattenValueKind::FunctionCall { callee, arg });
                                    assert(!old(self).binding_map@.contains_key(value_idx));
                                    assert(n == old(self).flatten.file@.len());
                                }
                                return Err(Self::value_error("cyclic variable chain at ", value_idx));
                            }
                            callee_idx = i;
                            steps = steps + 1;
                        },
                        None => {
                            proof {
                                assert(!(start.flatten.file@[callee_idx as int].kind is Variable));
                                assert(Self::chain_end(start.flatten.file@, callee_idx, (n - steps) as nat) == Some(
                                    callee_idx,
                                ));
                            }
                            break ;
                        },
                    }
                }
                proof {
                    assert(Self::chain_end(old(self).flatten.file@, callee, n as nat) == Some(callee_idx));
                }
                let base_register = self.allocator.register;
                let func_count_before = self.function_map.len();
                let dest = self.allocator.allocate()?;
                let ghost m1 = *self;
                let ra = self.alloc_value_inner(arg, false, depth - 1);
                let ghost m2 = *self;
                proof {
                    assert(Self::stepped(m1, ra, m2));
                }
                let (arg_reg, mut arg_bc) = match ra {
                    Ok(x) => x,
                    Err(e) => {
                        return Err(e);
                    },
                };
                let ghost abc = arg_bc@;
                bytecode.append(&mut arg_bc);
                match self.function_map.get(callee_idx) {
                    Some(callee_func) => {
                        bytecode.push(Instruction::mov(callee_func.param_register, arg_reg));
                        if is_tail {
                            bytecode.push(Instruction::goto(callee_func.pc));
                            if func_count_before == self.function_map.len() {
                                self.allocator.free(self.allocator.register - base_register);
                            }
                            proof {
                                assert(words(bytecode@) =~= words(abc) + seq![
                                    enc2(1, callee_func.param_register as u64, arg_reg as u64),
                                    enc1(0, callee_func.pc as u64),
                                ]);
                            }
                            Ok((0, bytecode))
                        } else {
                            bytecode.push(Instruction::call(dest, callee_func.pc));
                            self.binding_map.insert(value_idx, dest);
                            if func_count_before == self.function_map.len() {
                                self.allocator.free(self.allocator.register - base_register);
                            }
                            proof {
                                assert(words(bytecode@) =~= words(abc) + seq![
                                    enc2(1, callee_func.param_register as u64, arg_reg as u64),
                                    enc2(3, dest as u64, callee_func.pc as u64),
                                ]);
                            }
                            Ok((dest, bytecode))
                        }
                    },
                    None => {
                        let rc = self.alloc_value_inner(callee_idx, false, depth - 1);
                        let ghost m3 = *self;
                        proof {
                            assert(Self::stepped(m2, rc, m3));
                        }
                        let (callee_reg, mut callee_bc) = match rc {
                            Ok(x) => x,
                            Err(e) => {
                                return Err(e);
                            },
                        };
                        let ghost cbc = callee_bc@;
                        bytecode.append(&mut callee_bc);
                        if is_tail {
                            bytecode.push(Instruction::tail_call_reg(callee_reg, arg_reg));
                            if func_count_before == self.function_map.len() {
                                self.allocator.free(self.allocator.register - base_register);
                            }
                            proof {
                                assert(words(bytecode@) =~= words(abc) + words(cbc) + seq![
                                    enc2(5, callee_reg as u64, arg_reg as u64),
                                ]);
                            }
                            Ok((0, bytecode))
                        } else {
                            bytecode.push(Instruction::call_reg(dest, callee_reg, arg_reg));
                            self.binding_map.insert(value_idx, dest);
                            if func_count_before == self.function_map.len() {
                                self.allocator.free(self.allocator.register - base_register);
                            }
                            proof {
                                assert(words(bytecode@) =~= words(abc) + words(cbc) + seq![
                                    enc3r(4, dest, callee_reg, arg_reg),
                                ]);
                            }
                            Ok((dest, bytecode))
                        }
                    },
                }
            },
            FlattenValueKind::Function { param, body } => {
                if depth == 0 {
                    return Err(Self::value_error("value nested too deeply at ", value_idx));
                }
                let param_register = self.allocator.allocate()?;
                self.binding_map.insert(param, param_register);
                let dest = self.allocator.allocate()?;
                self.binding_map.insert(value_idx, dest);
                let ghost m2 = *self;
                proof {
                    assert(Self::same_tables(*old(self), m2));
                    assert(m2.binding_map@ == old(self).binding_map@.insert(param, param_register).insert(value_idx, dest));
                }
                let rb = self.alloc_value_inner(body, true, depth - 1);
                let ghost mb = *self;
                proof {
                    assert(Self::stepped(m2, rb, mb));
                }
                let (body_register, body_bytecode) = match rb {
                    Ok(x) => x,
                    Err(e) => {
                        return Err(e);
                    },
                };
                let ghost bbc = body_bytecode@;
                let func_pc = self.function_bytecode.len() as u32;
                self.function_map.insert(value_idx, Function { param_register, pc: func_pc });
                let mut func_bytecode = body_bytecode;
                func_bytecode.push(Instruction::ret(body_register));
                self.function_bytecode.append(&mut func_bytecode);
                bytecode.push(Instruction::load_func(dest, func_pc, param_register));
                proof {
                    assert(words(self.function_bytecode@) =~= words(mb.function_bytecode@) + words(bbc) + seq![
                        enc1(2, body_register as u64),
                    ]);
                    assert(words(bytecode@) =~= seq![enc3w(6, dest as u64, func_pc as u64, param_register as u64)]);
                }
                Ok((dest, bytecode))
            },
            FlattenValueKind::Int(int_value) => {
                let dest = self.allocator.allocate()?;
                bytecode.push(Instruction::load_int(dest, int_value));
                self.binding_map.insert(value_idx, dest);
                Ok((dest, bytecode))
            },
            FlattenValueKind::String(str_value) => {
                let pool_idx: u32 = match self.string_cache.get(&str_value) {
                    Some(idx) => idx as u32,
                    None => {
                        let idx = self.data_pool.len();
                        self.data_pool.push(VirtualMachineData::StrPtr(str_value.clone()));
                        self.string_cache.insert(str_value.clone(), idx as usize);
                        idx
                    },
                };
                let dest = self.allocator.allocate()?;
                bytecode.push(Instruction::load_str(dest, pool_idx));
                self.binding_map.insert(value_idx, dest);
                Ok((dest, bytecode))
            },
            FlattenValueKind::Variable(idx) => {
                if depth == 0 {
                    return Err(Self::value_error("value nested too deeply at ", value_idx));
                }
                let ghost m0 = *self;
                let ri = self.alloc_value_inner(idx, is_tail, depth - 1);
                let ghost mi = *self;
                proof {
                    assert(Self::stepped(m0, ri, mi));
                }
                let (dest, mut var_bc) = match ri {
                    Ok(x) => x,
                    Err(e) => {
                        return Err(e);
                    },
                };
                self.binding_map.insert(value_idx, dest);
                bytecode.append(&mut var_bc);
                Ok((dest, bytecode))
            },
            FlattenValueKind::Unset => {
                match self.function_map.get(value_idx) {
                    Some(func) => {
                        let dest = self.allocator.allocate()?;
                        bytecode.push(Instruction::load_func(dest, func.pc, func.param_register));
                        self.binding_map.insert(value_idx, dest);
                        Ok((dest, bytecode))
                    },
                    None => {
                        let dest = self.allocator.allocate()?;
                        self.binding_map.insert(value_idx, dest);
                        Ok((dest, bytecode))
                    },
                }
            },
        }
    }

    /// Compiles slot `value_idx` (not in tail position); see
    /// `alloc_value_inner`.
    pub fn alloc_value(&mut self, value_idx: FlattenIndex) -> (r: Result<(Register, Vec<Instruction>), Diagnostics>)
        requires
            old(self).wf(),
        ensures
            final(self).wf(),
            Self::extends(*old(self), *final(self)),
            value_idx >= old(self).flatten.file@.len() ==> r is Err && *final(self) == *old(self),
            value_idx < old(self).flatten.file@.len() && old(self).binding_map@.contains_key(value_idx)
                ==> *final(self) == *old(self) && (r matches Ok((reg, bc)) && reg == old(
                self,
            ).binding_map@[value_idx] && bc@.len() == 0),
            r is Ok ==> final(self).binding_map@.contains_key(value_idx),
            old(self).cache_ok() && final(self).data_pool@.len() <= u32::MAX ==> final(self).cache_ok(),
            Self::fresh(*old(self), value_idx) ==> Self::leaf_spec(*old(self), *final(self), value_idx, r),
            Self::compiles(*old(self), value_idx, false, usize::MAX as nat, r, *final(self)),
    {
        self.alloc_value_inner(value_idx, false, usize::MAX)
    }

    /// The program that evaluates global binding `binding_name`: its entry
    /// point, its bytecode (the function area, then the binding's own code)
    /// and its data pool.
    pub fn build_binding(self, binding_name: &str) -> (r: Result<(ProgramCount, Vec<Instruction>, DataPool), Diagnostics>)
        requires
            self.wf(),
        ensures
            !self.flatten.bindings@.contains_key(binding_name@) ==> (r matches Err(d) && d.message@
                == "not found binding '"@ + binding_name@ + "'"@),
            r matches Ok((pc, code, pool)) ==> is_prefix(self.function_bytecode@, code@) && is_prefix(
                self.data_pool@,
                pool@,
            ) && (pc as int) <= code@.len(),
            r matches Ok((pc, code, pool)) ==> exists|post: CompileObject, main: Vec<Instruction>|
                Self::extends(self, post) && #[trigger] Self::built_from(post, main@, pc, code@, pool@) && (
                Self::fresh(self, self.flatten.bindings@[binding_name@]) ==> Self::leaf_spec(
                    self,
                    post,
                    self.flatten.bindings@[binding_name@],
                    Ok((post.binding_map@[self.flatten.bindings@[binding_name@]], main)),
                )),
            self.flatten.bindings@.contains_key(binding_name@) && self.binding_map@.contains_key(
                self.flatten.bindings@[binding_name@],
            ) && self.flatten.bindings@[binding_name@] < self.flatten.file@.len() ==> (r matches Ok(
                (pc, code, pool),
            ) && code@ == self.function_bytecode@ && pool@ == self.data_pool@ && pc
                == self.function_bytecode@.len() as u32),
            self.flatten.bindings@.contains_key(binding_name@) ==> exists|
                res: Result<(Register, Vec<Instruction>), Diagnostics>,
                post: CompileObject,
            |
                #[trigger] Self::stepped(self, res, post) && Self::compiles(
                    self,
                    self.flatten.bindings@[binding_name@],
                    false,
                    usize::MAX as nat,
                    res,
                    post,
                ) && match res {
                    Ok((reg, main)) => r matches Ok((pc, code, pool)) && Self::built_from(post, main@, pc, code@, pool@),
                    Err(e) => r == Err::<(ProgramCount, Vec<Instruction>, DataPool), Diagnostics>(e),
                },
    {
        let name = owned(binding_name);
        let mut this = self;
        match this.flatten.bindings.get(&name) {
            Some(value_idx) => {
                let ghost pre = this;
                let res = this.alloc_value(value_idx);
                proof {
                    assert(Self::stepped(pre, res, this));
                }
                let (reg, mut main_bytecode) = match res {
                    Ok(x) => x,
                    Err(e) => {
                        return Err(e);
                    },
                };
                let ghost post = this;
                let ghost main = main_bytecode@;
                let mut func_bytecode = this.function_bytecode;
                let pc = func_bytecode.len() as u32;
                let mut bytecode: Vec<Instruction> = Vec::new();
                bytecode.append(&mut func_bytecode);
                bytecode.append(&mut main_bytecode);
                proof {
                    assert(bytecode@ =~= post.function_bytecode@ + main);
                    assert(Self::built_from(post, main, pc, bytecode@, post.data_pool@));
                }
                Ok((pc, bytecode, this.data_pool))
            },
            None => {
                let msg = concat(&concat(&owned("not found binding '"), binding_name), "'");
                Err(Diagnostics::compiler_error(msg, Span::zero()))
            },
        }
    }
}

/// The compiler: the built-ins every program can use, the arena they are
/// laid out in first, and the roots of outside packages by name.
pub struct Compiler {
    pub bytecode_functions: Vec<BytecodeFunction>,
    pub flattner: Flattener,
    pub externs: NameMap,
}

/// Every built-in whose name the program binds has been compiled.
pub open spec fn builtins_compiled(fs: Seq<BytecodeFunction>, co: CompileObject, upto: int) -> bool {
    forall|j: int|
        0 <= j < upto && #[trigger] co.flatten.bindings@.contains_key(fs[j].name@)
            ==> co.function_map@.contains_key(co.flatten.bindings@[fs[j].name@])
}

impl Compiler {
    pub open spec fn wf(&self) -> bool {
        self.flattner.wf() && self.externs.wf()
    }

    pub fn new() -> (c: Self)
        ensures
            c.wf(),
            c.bytecode_functions@.len() == 0,
            c.flattner.len() == 0,
            c.externs@ == Map::<Seq<char>, Seq<char>>::empty(),
    {
        Compiler { bytecode_functions: Vec::new(), flattner: Flattener::new(), externs: NameMap::new() }
    }

    /// Makes package `name` resolve to the directory `root`.
    pub fn add_extern(&mut self, name: &str, root: &str)
        requires
            old(self).wf(),
        ensures
            final(self).wf(),
            final(self).externs@ == old(self).externs@.insert(name@, root@),
            final(self).bytecode_functions == old(self).bytecode_functions,
            final(self).flattner == old(self).flattner,
    {
        self.externs.insert(owned(name), owned(root));
    }

    /// Adds a built-in: its name is bound, in every program compiled
    /// afterwards, to a slot that the built-in's bytecode fills.
    pub fn insert_bytecode_function(&mut self, bc_func: BytecodeFunction)
        requires
            old(self).wf(),
        ensures
            final(self).wf(),
            final(self).bytecode_functions@ == old(self).bytecode_functions@.push(bc_func),
            final(self).flattner.len() == old(self).flattner.len() + 1,
            final(self).flattner.pool() == old(self).flattner.pool().insert(
                bc_func.name@,
                old(self).flattner.len() as usize,
            ),
            final(self).flattner.scope() == old(self).flattner.scope(),
            final(self).flattner.file() == old(self).flattner.file().push(
                FlattenValue { span: Span { start: 0, end: 0 }, kind: FlattenValueKind::Unset },
            ),
            final(self).externs == old(self).externs,
    {
        self.flattner.insert_binding(
            (bc_func.name.clone(), FlattenValue { span: Span::zero(), kind: FlattenValueKind::Unset }),
        );
        self.bytecode_functions.push(bc_func);
    }

    fn prelude_names(&self) -> (v: Vec<String>)
        ensures
            v@.len() == self.bytecode_functions@.len(),
            forall|i: int| 0 <= i < v@.len() ==> #[trigger] v@[i]@ == self.bytecode_functions@[i].name@,
    {
        let mut v: Vec<String> = Vec::new();
        let mut i: usize = 0;
        while i < self.bytecode_functions.len()
            invariant
                i <= self.bytecode_functions@.len(),
                v@.len() == i,
                forall|j: int| 0 <= j < i ==> #[trigger] v@[j]@ == self.bytecode_functions@[j].name@,
            decreases self.bytecode_functions@.len() - i,
        {
            v.push(self.bytecode_functions[i].name.clone());
            i = i + 1;
        }
        v
    }

    fn extern_list(&self) -> (v: Vec<(String, String)>)
        requires
            self.externs.wf(),
        ensures
            v@.len() == self.externs.entries_seq().len(),
            forall|i: int|
                0 <= i < v@.len() ==> #[trigger] v@[i].0@ == self.externs.entries_seq()[i].0@ && v@[i].1@
                    == self.externs.entries_seq()[i].1@,
    {
        let mut v: Vec<(String, String)> = Vec::new();
        let mut i: usize = 0;
        while i < self.externs.len()
            invariant
                i <= self.externs.entries_seq().len(),
                v@.len() == i,
                forall|j: int|
                    0 <= j < i ==> #[trigger] v@[j].0@ == self.externs.entries_seq()[j].0@ && v@[j].1@
                        == self.externs.entries_seq()[j].1@,
            decreases self.externs.entries_seq().len() - i,
        {
            let (k, r) = self.externs.entry(i);
            v.push((k.clone(), r.clone()));
            i = i + 1;
        }
        v
    }

    /// Flattens `bindings` after the built-ins and compiles the built-ins
    /// that the program binds; the rest is compiled on demand.
    fn compile_bindings(self, bindings: Vec<DesugarBinding>) -> (r: Result<CompileObject, Diagnostics>)
        requires
            self.wf(),
        ensures
            r matches Ok(co) ==> co.wf() && co.cache_ok() && co.binding_map@ == Map::<usize, Register>::empty()
                && builtins_compiled(self.bytecode_functions@, co, self.bytecode_functions@.len() as int),
            r is Ok ==> bindings_resolve(bindings@, self.flattner.scope().dom(), self.flattner.pool().dom()),
            r matches Ok(co) ==> flattened(self.flattner, bindings@, co.flatten),
            bindings_resolve(bindings@, self.flattner.scope().dom(), self.flattner.pool().dom())
                && self.bytecode_functions@.len() <= 8000 ==> r is Ok,
    {
        let ghost n = self.bytecode_functions@.len();
        let ghost fl = self.flattner;
        let ghost bs = bindings@;
        let flatten = self.flattner.flatten(bindings)?;
        let ghost flat = flatten;
        let mut co = CompileObject::new(flatten);
        let mut i: usize = 0;
        while i < self.bytecode_functions.len()
            invariant
                co.flatten == flat,
                flattened(fl, bs, flat),
                fl == self.flattner,
                bs == bindings@,
                co.wf(),
                co.cache_ok(),
                co.binding_map@ == Map::<usize, Register>::empty(),
                i <= self.bytecode_functions@.len(),
                n == self.bytecode_functions@.len(),
                builtins_compiled(self.bytecode_functions@, co, i as int),
                n <= 8000 ==> co.allocator.reg() <= 7 * i && co.function_bytecode@.len() <= 7 * i,
            decreases self.bytecode_functions@.len() - i,
        {
            let ghost before = co;
            match co.flatten.bindings.get(&self.bytecode_functions[i].name) {
                Some(flatten_idx) => {
                    if co.function_bytecode.len() >= 0xffff_0000usize {
                        return Err(
                            Diagnostics::compiler_error(owned("function area too large"), Span::zero()),
                        );
                    }
                    let param_register = co.allocator.allocate()?;
                    let func = Function { param_register, pc: co.function_bytecode.len() as u32 };
                    let ghost mid = co;
                    let outcome = self.bytecode_functions[i].build.build(&mut co, func);
                    proof {
                        if n <= 8000 {
                            lemma_built_room(self.bytecode_functions@[i as int].build, mid, co, func, outcome);
                        }
                    }
                    let mut bytecode = outcome?;
                    proof {
                        lemma_built_shape(self.bytecode_functions@[i as int].build, mid, co, func, Ok(bytecode));
                        assert forall|s: Seq<char>| #[trigger] co.string_cache@.contains_key(s) implies {
                            let k = co.string_cache@[s] as int;
                            &&& k < co.data_pool@.len()
                            &&& co.data_pool@[k] matches VirtualMachineData::StrPtr(x) && x@ == s
                        } by {
                            assert(mid.string_cache@.contains_key(s));
                            assert(co.data_pool@[mid.string_cache@[s] as int] == mid.data_pool@[mid.string_cache@[s] as int]);
                        }
                    }
                    co.function_bytecode.append(&mut bytecode);
                    co.function_map.insert(flatten_idx, func);
                    proof {
                        assert forall|j: int|
                            0 <= j < i + 1 && #[trigger] co.flatten.bindings@.contains_key(
                                self.bytecode_functions@[j].name@,
                            ) implies co.function_map@.contains_key(
                            co.flatten.bindings@[self.bytecode_functions@[j].name@],
                        ) by {
                            if j < i {
                                assert(before.flatten.bindings@.contains_key(self.bytecode_functions@[j].name@));
                            }
                        }
                    }
                },
                None => {},
            }
            i = i + 1;
        }
        Ok(co)
    }

    /// Compiles a program given as source text: the built-ins, then the
    /// text's bindings.
    pub fn compile_source(self, source: &str) -> (r: Result<CompileObject, Diagnostics>)
        requires
            self.wf(),
        ensures
            r matches Ok(co) ==> co.wf() && co.cache_ok() && co.binding_map@ == Map::<usize, Register>::empty()
                && builtins_compiled(self.bytecode_functions@, co, self.bytecode_functions@.len() as int),
            r matches Ok(co) ==> source_program(source@) is Some && exists|stats: Seq<Statement>, bs: Seq<DesugarBinding>|
                statements_are(stats, source_program(source@)->Some_0.statements) && #[trigger] all_desugar_to(
                    bs,
                    stats,
                ) && bindings_resolve(bs, self.flattner.scope().dom(), self.flattner.pool().dom()) && flattened(
                    self.flattner,
                    bs,
                    co.flatten,
                ),
            source_program(source@) is Some && self.bytecode_functions@.len() <= 8000 && (forall|
                stats: Seq<Statement>,
                bs: Seq<DesugarBinding>,
            |
                statements_are(stats, source_program(source@)->Some_0.statements) && #[trigger] all_desugar_to(
                    bs,
                    stats,
                ) ==> bindings_resolve(bs, self.flattner.scope().dom(), self.flattner.pool().dom())) ==> r is Ok,
    {
        let mut parser = Parser::new(source)?;
        let info = parser.parse()?;
        let stats = info.statements;
        let ghost parsed = stats@;
        let bindings = desugar(stats)?;
        proof {
            assert(statements_are(parsed, source_program(source@)->Some_0.statements));
            assert(all_desugar_to(bindings@, parsed));
        }
        self.compile_bindings(bindings)
    }

    /// Compiles the program whose entry file is `path`, reading its modules
    /// through `source`.
    pub fn compile_source_file<S: ModuleSource>(self, source: &S, path: &String) -> (r: Result<
        CompileObject,
        Diagnostics,
    >)
        requires
            self.wf(),
        ensures
            r matches Ok(co) ==> co.wf() && co.cache_ok() && co.binding_map@ == Map::<usize, Register>::empty()
                && builtins_compiled(self.bytecode_functions@, co, self.bytecode_functions@.len() as int),
            r matches Ok(co) ==> exists|bs: Seq<DesugarBinding>| #[trigger] flattened(self.flattner, bs, co.flatten)
                && Self::closed_program(bs, self.bytecode_functions@),
    {
        let prelude_names = self.prelude_names();
        let externs = self.extern_list();
        let bindings = resolve_program_with_source(source, path, &externs, &prelude_names)?;
        let ghost bs = bindings@;
        proof {
            Self::lemma_builtin_names(prelude_names@, self.bytecode_functions@);
        }
        let r = self.compile_bindings(bindings);
        proof {
            if r is Ok {
                assert(flattened(self.flattner, bs, r->Ok_0.flatten));
            }
        }
        r
    }

    /// Compiles a packed bundle of modules.
    pub fn compile_pars(self, pars: &Pars) -> (r: Result<CompileObject, Diagnostics>)
        requires
            self.wf(),
        ensures
            r matches Ok(co) ==> co.wf() && co.cache_ok() && co.binding_map@ == Map::<usize, Register>::empty()
                && builtins_compiled(self.bytecode_functions@, co, self.bytecode_functions@.len() as int),
            (exists|i: int| 0 <= i < pars.files@.len() && (#[trigger] pars.files@[i]).content is Path)
                ==> r is Err,
            r matches Ok(co) ==> exists|bs: Seq<DesugarBinding>| #[trigger] flattened(self.flattner, bs, co.flatten)
                && Self::closed_program(bs, self.bytecode_functions@),
    {
        let prelude_names = self.prelude_names();
        let externs = self.extern_list();
        let bindings = resolve_pars(pars, &externs, &prelude_names)?;
        let ghost bs = bindings@;
        proof {
            Self::lemma_builtin_names(prelude_names@, self.bytecode_functions@);
        }
        let r = self.compile_bindings(bindings);
        proof {
            if r is Ok {
                assert(flattened(self.flattner, bs, r->Ok_0.flatten));
            }
        }
        r
    }

    /// The names of the built-ins `fs`.
    pub open spec fn builtin_names(fs: Seq<BytecodeFunction>) -> Set<Seq<char>> {
        Set::new(|s: Seq<char>| exists|i: int| 0 <= i < fs.len() && (#[trigger] fs[i]).name@ == s)
    }

    /// Every binding of `bs` refers only to bindings of `bs` and to the built-ins `fs`.
    pub open spec fn closed_program(bs: Seq<DesugarBinding>, fs: Seq<BytecodeFunction>) -> bool {
        forall|j: int|
            0 <= j < bs.len() ==> binding_closed(#[trigger] bs[j], Set::empty(), names_of(bs).union(Self::builtin_names(fs)))
    }

    proof fn lemma_builtin_names(v: Seq<String>, fs: Seq<BytecodeFunction>)
        requires
            v.len() == fs.len(),
            forall|i: int| 0 <= i < v.len() ==> #[trigger] v[i]@ == fs[i].name@,
        ensures
            name_set(v) == Self::builtin_names(fs),
    {
        assert forall|s: Seq<char>| name_set(v).contains(s) <==> Self::builtin_names(fs).contains(s) by {
            if name_set(v).contains(s) {
                let i = choose|i: int| 0 <= i < v.len() && (#[trigger] v[i])@ == s;
                assert(fs[i].name@ == s);
            }
            if Self::builtin_names(fs).contains(s) {
                let i = choose|i: int| 0 <= i < fs.len() && (#[trigger] fs[i]).name@ == s;
                assert(v[i]@ == s);
            }
        }
        assert(name_set(v) =~= Self::builtin_names(fs));
    }
}

/// `stats` are the statements `ms`, one for one.
pub open spec fn statements_are(stats: Seq<Statement>, ms: Seq<StmtM>) -> bool {
    &&& stats.len() == ms.len()
    &&& forall|k: int| 0 <= k < ms.len() ==> stmt_is(#[trigger] stats[k], ms[k])
}

/// What `source` declares, where it scans and parses.
pub open spec fn source_program(source: Seq<char>) -> Option<ProgM> {
    match scan(source, 0) {
        ScanOutcome::Tokens(ts) => sp_program(
            ts,
            0,
            Seq::empty(),
            ProgM { statements: Seq::empty(), imports: Seq::empty(), exports: Seq::empty() },
        ),
        _ => None,
    }
}

/// The compiler the command line uses: with `print` and `add`.
pub fn new_compiler() -> (c: Compiler)
    ensures
        c.wf(),
        c.bytecode_functions@.len() == 2,
        c.bytecode_functions@[0].build == Builtin::IoPrint,
        c.bytecode_functions@[1].build == Builtin::MathAdd,
{
    let mut compiler = Compiler::new();
    compiler.insert_bytecode_function(print());
    compiler.insert_bytecode_function(crate::prelude::add());
    compiler
}

} // verus!
