//! Built-in functions, written directly in bytecode.
//!
//! A built-in of several parameters is curried: each parameter after the
//! first is taken by a small function that returns the next one.

use vstd::prelude::*;

use crate::compiler::{BytecodeFunction, CompileObject, Function};
use crate::diagnostics::Diagnostics;
use crate::text::{concat, debug_escape, debug_escaped, decimal, i64_to_text, int_text, owned, u64_to_decimal};
use crate::vm::{
    enc1, enc2, enc3r, enc3w, words, DataPoolIndex, Instruction, ProgramCount, Register,
    VirtualMachineData,
};

verus! {

/// The host function slot that prints its argument.
pub const PRINT_NATIVE: u32 = 0;

/// The host function slot that turns a machine string into a host string.
pub const RUST_STRING_NATIVE: u32 = 1;

/// `post` is `pre` with only the allocator moved on.
pub open spec fn only_allocated(pre: CompileObject, post: CompileObject) -> bool {
    &&& post.flatten == pre.flatten
    &&& post.function_map == pre.function_map
    &&& post.function_bytecode == pre.function_bytecode
    &&& post.binding_map == pre.binding_map
    &&& post.string_cache == pre.string_cache
    &&& post.data_pool@ == pre.data_pool@
}

/// The built-in functions.
#[derive(Debug, Clone, Copy, PartialEq, Eq)]
pub enum Builtin {
    ControllCmp,
    ControllIf,
    MathAdd,
    IoPrint,
    ChurchPair,
    ChurchFirst,
    ChurchSecond,
    FfiRustString,
}

pub open spec fn load_func_word(dest: int, pc: int, param: int) -> u64 {
    enc3w(6, dest as u64, pc as u64, param as u64)
}

pub open spec fn ret_word(src: int) -> u64 {
    enc1(2, src as u64)
}

pub open spec fn call_reg_word(dest: int, func: int, arg: int) -> u64 {
    enc3r(4, dest as u16, func as u16, arg as u16)
}

/// Builds the bytecode of one built-in function.
pub struct FnBuilder<'a> {
    pub bytecode: Vec<Instruction>,
    pub compile_object: &'a mut CompileObject,
    pub param_register: Register,
    pub function: Function,
}

impl<'a> FnBuilder<'a> {
    pub fn new(compile_object: &'a mut CompileObject, func: Function) -> (b: Self)
        ensures
            b.bytecode@ == Seq::<Instruction>::empty(),
            *b.compile_object == *old(compile_object),
            *final(b.compile_object) == *final(compile_object),
            b.param_register == func.param_register,
            b.function == func,
    {
        FnBuilder {
            bytecode: Vec::new(),
            compile_object,
            param_register: func.param_register,
            function: func,
        }
    }

    /// A register from the compile object's allocator.
    pub fn allocate(&mut self) -> (r: Result<Register, Diagnostics>)
        ensures
            final(self).bytecode == old(self).bytecode,
            final(self).param_register == old(self).param_register,
            final(self).function == old(self).function,
            *final(final(self).compile_object) == *final(old(self).compile_object),
            only_allocated(*old(self).compile_object, *final(self).compile_object),
            old(self).compile_object.allocator.reg() == u16::MAX ==> r is Err
                && final(self).compile_object.allocator.reg() == old(self).compile_object.allocator.reg(),
            old(self).compile_object.allocator.reg() < u16::MAX ==> r == Ok::<Register, Diagnostics>(
                old(self).compile_object.allocator.reg(),
            ) && final(self).compile_object.allocator.reg() == old(self).compile_object.allocator.reg()
                + 1,
    {
        self.compile_object.allocator.allocate()
    }

    /// One more parameter: its register, taken by a function that the
    /// code so far returns (loaded from the two instructions emitted here).
    pub fn alloc_param(&mut self) -> (r: Result<Register, Diagnostics>)
        requires
            old(self).function.pc + old(self).bytecode@.len() + 2 <= u32::MAX,
        ensures
            final(self).param_register == old(self).param_register,
            final(self).function == old(self).function,
            *final(final(self).compile_object) == *final(old(self).compile_object),
            only_allocated(*old(self).compile_object, *final(self).compile_object),
            ({
                let r0 = old(self).compile_object.allocator.reg();
                if r0 + 2 <= u16::MAX {
                    &&& r == Ok::<Register, Diagnostics>(r0)
                    &&& final(self).compile_object.allocator.reg() == r0 + 2
                    &&& final(self).bytecode@.len() == old(self).bytecode@.len() + 2
                    &&& words(final(self).bytecode@) == words(old(self).bytecode@).push(
                        load_func_word(
                            r0 + 1,
                            old(self).function.pc + old(self).bytecode@.len() + 2,
                            r0 as int,
                        ),
                    ).push(ret_word(r0 + 1))
                } else {
                    r is Err
                }
            }),
    {
        let param_reg = self.allocate()?;
        let inner_func_reg = self.allocate()?;
        let inner_func_pc = self.function.pc + self.bytecode.len() as u32 + 2;
        let ghost before = self.bytecode@;
        self.bytecode.push(Instruction::load_func(inner_func_reg, inner_func_pc, param_reg));
        self.bytecode.push(Instruction::ret(inner_func_reg));
        proof {
            assert(words(self.bytecode@) =~= words(before).push(self.bytecode@[before.len() as int]@).push(
                self.bytecode@[before.len() as int + 1]@,
            ));
        }
        Ok(param_reg)
    }

    pub fn emit(&mut self, inst: Instruction)
        ensures
            final(self).bytecode@ == old(self).bytecode@.push(inst),
            words(final(self).bytecode@) == words(old(self).bytecode@).push(inst@),
            final(self).param_register == old(self).param_register,
            final(self).function == old(self).function,
            *final(self).compile_object == *old(self).compile_object,
            *final(final(self).compile_object) == *final(old(self).compile_object),
    {
        let ghost before = self.bytecode@;
        self.bytecode.push(inst);
        proof {
            assert(words(self.bytecode@) =~= words(before).push(inst@));
        }
    }

    pub fn build(self) -> (bc: Vec<Instruction>)
        ensures
            bc@ == self.bytecode@,
            *final(self.compile_object) == *old(self.compile_object),
    {
        self.bytecode
    }
}

/// `post` is `pre` with the allocator moved on and `entry` added to the pool.
pub open spec fn allocated_and_pooled(pre: CompileObject, post: CompileObject, entry: VirtualMachineData) -> bool {
    &&& post.flatten == pre.flatten
    &&& post.function_map == pre.function_map
    &&& post.function_bytecode == pre.function_bytecode
    &&& post.binding_map == pre.binding_map
    &&& post.string_cache == pre.string_cache
    &&& post.data_pool@ == pre.data_pool@.push(entry)
}

/// A curried two-parameter built-in whose body is the single instruction
/// `op dest, first, second` followed by returning `dest`.
pub open spec fn binary_built(
    pre: CompileObject,
    post: CompileObject,
    func: Function,
    r: Result<Vec<Instruction>, Diagnostics>,
    op: u64,
) -> bool {
    let r0 = pre.allocator.reg();
    &&& only_allocated(pre, post)
    &&& if r0 + 3 <= u16::MAX {
        &&& post.allocator.reg() == r0 + 3
        &&& r matches Ok(bc) && words(bc@) == seq![
            load_func_word(r0 + 1, func.pc + 2, r0 as int),
            ret_word(r0 + 1),
            enc3r(op, (r0 + 2) as u16, func.param_register, r0),
            ret_word(r0 + 2),
        ]
    } else {
        r is Err
    }
}

/// `if cond then else`: a conditional jump whose target is the instruction right after it, then the `else` return and the `then` return.
pub open spec fn if_built(
    pre: CompileObject,
    post: CompileObject,
    func: Function,
    r: Result<Vec<Instruction>, Diagnostics>,
) -> bool {
    let r0 = pre.allocator.reg();
    let target = (pre.function_bytecode@.len() + 5) as u32;
    &&& only_allocated(pre, post)
    &&& if r0 + 4 <= u16::MAX {
        &&& post.allocator.reg() == r0 + 4
        &&& r matches Ok(bc) && words(bc@) == seq![
            load_func_word(r0 + 1, func.pc + 2, r0 as int),
            ret_word(r0 + 1),
            load_func_word(r0 + 3, func.pc + 4, r0 + 2),
            ret_word(r0 + 3),
            enc2(11, func.param_register as u64, target as u64),
            ret_word(r0 + 2),
            ret_word(r0 as int),
        ]
    } else {
        r is Err
    }
}

/// A one-parameter built-in that hands its argument to host function `native`.
pub open spec fn native_built(
    pre: CompileObject,
    post: CompileObject,
    func: Function,
    r: Result<Vec<Instruction>, Diagnostics>,
    native: u32,
) -> bool {
    let r0 = pre.allocator.reg();
    let slot = pre.data_pool@.len() as u32;
    if r0 < u16::MAX {
        &&& allocated_and_pooled(pre, post, VirtualMachineData::RustFnPtr(native))
        &&& post.allocator.reg() == r0 + 1
        &&& r matches Ok(bc) && words(bc@) == seq![
            enc3w(12, r0 as u64, slot as u64, func.param_register as u64),
            ret_word(r0 as int),
        ]
    } else {
        only_allocated(pre, post) && r is Err
    }
}

/// The Church pair `\x y f -> f x y`.
pub open spec fn pair_built(
    pre: CompileObject,
    post: CompileObject,
    func: Function,
    r: Result<Vec<Instruction>, Diagnostics>,
) -> bool {
    let r0 = pre.allocator.reg();
    let x = func.param_register as int;
    &&& only_allocated(pre, post)
    &&& if r0 + 6 <= u16::MAX {
        &&& post.allocator.reg() == r0 + 6
        &&& r matches Ok(bc) && words(bc@) == seq![
            load_func_word(r0 + 2, func.pc + 2, r0 as int),
            ret_word(r0 + 2),
            load_func_word(r0 + 3, func.pc + 4, r0 + 1),
            ret_word(r0 + 3),
            call_reg_word(r0 + 4, r0 + 1, x),
            call_reg_word(r0 + 5, r0 + 4, r0 as int),
            ret_word(r0 + 5),
        ]
    } else {
        r is Err
    }
}

/// The Church projections: apply the pair to a selector of its first
/// (`take_first`) or second component.
pub open spec fn projection_built(
    pre: CompileObject,
    post: CompileObject,
    func: Function,
    r: Result<Vec<Instruction>, Diagnostics>,
    take_first: bool,
) -> bool {
    let r0 = pre.allocator.reg();
    let p = func.param_register as int;
    &&& only_allocated(pre, post)
    &&& if r0 + 5 <= u16::MAX {
        &&& post.allocator.reg() == r0 + 5
        &&& r matches Ok(bc) && words(bc@) == seq![
            load_func_word(r0 + 2, func.pc + 3, r0 as int),
            call_reg_word(r0 + 4, p, r0 + 2),
            ret_word(r0 + 4),
            load_func_word(r0 + 3, func.pc + 5, r0 + 1),
            ret_word(r0 + 3),
            ret_word(if take_first { r0 as int } else { r0 + 1 }),
        ]
    } else {
        r is Err
    }
}

fn binary_instruction(op: u64, dest: Register, lhs: Register, rhs: Register) -> (i: Instruction)
    requires
        op == 9 || op == 10,
    ensures
        i@ == enc3r(op, dest, lhs, rhs),
{
    if op == 9 {
        Instruction::add_int(dest, lhs, rhs)
    } else {
        Instruction::cmp(dest, lhs, rhs)
    }
}

fn build_binary(compile_object: &mut CompileObject, func: Function, op: u64) -> (r: Result<
    Vec<Instruction>,
    Diagnostics,
>)
    requires
        func.pc + 2 <= u32::MAX,
        op == 9 || op == 10,
    ensures
        binary_built(*old(compile_object), *final(compile_object), func, r, op),
{
    let ghost r0 = compile_object.allocator.reg();
    let mut builder = FnBuilder::new(compile_object, func);
    let lhs = builder.param_register;
    let rhs = builder.alloc_param()?;
    let dest = builder.allocate()?;
    builder.emit(binary_instruction(op, dest, lhs, rhs));
    builder.emit(Instruction::ret(dest));
    let bc = builder.build();
    proof {
        assert(words(bc@) =~= seq![
            load_func_word(r0 + 1, func.pc + 2, r0 as int),
            ret_word(r0 + 1),
            enc3r(op, (r0 + 2) as u16, func.param_register, r0),
            ret_word(r0 + 2),
        ]);
    }
    Ok(bc)
}

fn build_if(compile_object: &mut CompileObject, func: Function) -> (r: Result<Vec<Instruction>, Diagnostics>)
    requires
        func.pc + 4 <= u32::MAX,
        old(compile_object).function_bytecode@.len() + 5 <= usize::MAX,
    ensures
        if_built(*old(compile_object), *final(compile_object), func, r),
{
    let ghost r0 = compile_object.allocator.reg();
    let ghost fb = compile_object.function_bytecode@.len();
    let mut builder = FnBuilder::new(compile_object, func);
    let cond_reg = builder.param_register;
    let true_reg = builder.alloc_param()?;
    let false_reg = builder.alloc_param()?;
    let target = (builder.compile_object.function_bytecode.len() + builder.bytecode.len() + 1) as ProgramCount;
    builder.emit(Instruction::jmp_eq(cond_reg, target));
    builder.emit(Instruction::ret(false_reg));
    builder.emit(Instruction::ret(true_reg));
    let bc = builder.build();
    proof {
        assert(words(bc@) =~= seq![
            load_func_word(r0 + 1, func.pc + 2, r0 as int),
            ret_word(r0 + 1),
            load_func_word(r0 + 3, func.pc + 4, r0 + 2),
            ret_word(r0 + 3),
            enc2(11, func.param_register as u64, ((fb + 5) as u32) as u64),
            ret_word(r0 + 2),
            ret_word(r0 as int),
        ]);
    }
    Ok(bc)
}

fn build_native(compile_object: &mut CompileObject, func: Function, native: u32) -> (r: Result<
    Vec<Instruction>,
    Diagnostics,
>)
    ensures
        native_built(*old(compile_object), *final(compile_object), func, r, native),
{
    let ghost r0 = compile_object.allocator.reg();
    let mut builder = FnBuilder::new(compile_object, func);
    let fn_slot: DataPoolIndex = builder.compile_object.data_pool.len();
    let dest = builder.allocate()?;
    builder.compile_object.data_pool.push(VirtualMachineData::RustFnPtr(native));
    let param = builder.param_register;
    builder.emit(Instruction::rust_call(dest, fn_slot, param));
    builder.emit(Instruction::ret(dest));
    let bc = builder.build();
    proof {
        assert(words(bc@) =~= seq![
            enc3w(12, r0 as u64, fn_slot as u64, func.param_register as u64),
            ret_word(r0 as int),
        ]);
    }
    Ok(bc)
}

fn build_pair(compile_object: &mut CompileObject, func: Function) -> (r: Result<Vec<Instruction>, Diagnostics>)
    requires
        func.pc + 4 <= u32::MAX,
    ensures
        pair_built(*old(compile_object), *final(compile_object), func, r),
{
    let ghost r0 = compile_object.allocator.reg();
    let x_reg = func.param_register;
    let y_reg = compile_object.allocator.allocate()?;
    let f_reg = compile_object.allocator.allocate()?;
    let pair_y_reg = compile_object.allocator.allocate()?;
    let pair_f_reg = compile_object.allocator.allocate()?;
    let f_x_reg = compile_object.allocator.allocate()?;
    let result_reg = compile_object.allocator.allocate()?;
    let pair_y_pc = func.pc + 2;
    let pair_f_pc = func.pc + 4;
    let mut bytecode: Vec<Instruction> = Vec::new();
    bytecode.push(Instruction::load_func(pair_y_reg, pair_y_pc, y_reg));
    bytecode.push(Instruction::ret(pair_y_reg));
    bytecode.push(Instruction::load_func(pair_f_reg, pair_f_pc, f_reg));
    bytecode.push(Instruction::ret(pair_f_reg));
    bytecode.push(Instruction::call_reg(f_x_reg, f_reg, x_reg));
    bytecode.push(Instruction::call_reg(result_reg, f_x_reg, y_reg));
    bytecode.push(Instruction::ret(result_reg));
    proof {
        assert(words(bytecode@) =~= seq![
            load_func_word(r0 + 2, func.pc + 2, r0 as int),
            ret_word(r0 + 2),
            load_func_word(r0 + 3, func.pc + 4, r0 + 1),
            ret_word(r0 + 3),
            call_reg_word(r0 + 4, r0 + 1, x_reg as int),
            call_reg_word(r0 + 5, r0 + 4, r0 as int),
            ret_word(r0 + 5),
        ]);
    }
    Ok(bytecode)
}

fn build_projection(compile_object: &mut CompileObject, func: Function, take_first: bool) -> (r: Result<
    Vec<Instruction>,
    Diagnostics,
>)
    requires
        func.pc + 5 <= u32::MAX,
    ensures
        projection_built(*old(compile_object), *final(compile_object), func, r, take_first),
{
    let ghost r0 = compile_object.allocator.reg();
    let p_reg = func.param_register;
    let x_reg = compile_object.allocator.allocate()?;
    let y_reg = compile_object.allocator.allocate()?;
    let sel_x_reg = compile_object.allocator.allocate()?;
    let sel_y_reg = compile_object.allocator.allocate()?;
    let result_reg = compile_object.allocator.allocate()?;
    let sel_x_pc = func.pc + 3;
    let sel_y_pc = func.pc + 5;
    let mut bytecode: Vec<Instruction> = Vec::new();
    bytecode.push(Instruction::load_func(sel_x_reg, sel_x_pc, x_reg));
    bytecode.push(Instruction::call_reg(result_reg, p_reg, sel_x_reg));
    bytecode.push(Instruction::ret(result_reg));
    bytecode.push(Instruction::load_func(sel_y_reg, sel_y_pc, y_reg));
    bytecode.push(Instruction::ret(sel_y_reg));
    if take_first {
        bytecode.push(Instruction::ret(x_reg));
    } else {
        bytecode.push(Instruction::ret(y_reg));
    }
    proof {
        assert(words(bytecode@) =~= seq![
            load_func_word(r0 + 2, func.pc + 3, r0 as int),
            call_reg_word(r0 + 4, p_reg as int, r0 + 2),
            ret_word(r0 + 4),
            load_func_word(r0 + 3, func.pc + 5, r0 + 1),
            ret_word(r0 + 3),
            ret_word(if take_first { r0 as int } else { r0 + 1 }),
        ]);
    }
    Ok(bytecode)
}

/// The global name a built-in is bound to.
pub open spec fn builtin_name(b: Builtin) -> Seq<char> {
    match b {
        Builtin::ControllCmp => "prelude::controll::cmp"@,
        Builtin::ControllIf => "prelude::controll::if"@,
        Builtin::MathAdd => "prelude::math::add"@,
        Builtin::IoPrint => "prelude::io::print"@,
        Builtin::ChurchPair => "std::church::pair"@,
        Builtin::ChurchFirst => "std::church::first"@,
        Builtin::ChurchSecond => "std::church::second"@,
        Builtin::FfiRustString => "prelude::ffi::rust_string"@,
    }
}

/// What building built-in `b` does to the compile object and returns.
pub open spec fn built(
    b: Builtin,
    pre: CompileObject,
    post: CompileObject,
    func: Function,
    r: Result<Vec<Instruction>, Diagnostics>,
) -> bool {
    match b {
        Builtin::ControllCmp => binary_built(pre, post, func, r, 10),
        Builtin::MathAdd => binary_built(pre, post, func, r, 9),
        Builtin::ControllIf => if_built(pre, post, func, r),
        Builtin::IoPrint => native_built(pre, post, func, r, PRINT_NATIVE),
        Builtin::FfiRustString => native_built(pre, post, func, r, RUST_STRING_NATIVE),
        Builtin::ChurchPair => pair_built(pre, post, func, r),
        Builtin::ChurchFirst => projection_built(pre, post, func, r, true),
        Builtin::ChurchSecond => projection_built(pre, post, func, r, false),
    }
}

/// A built-in emits at least two instructions and touches nothing of the
/// compile object but its allocator and the end of its pool.
pub proof fn lemma_built_shape(
    b: Builtin,
    pre: CompileObject,
    post: CompileObject,
    func: Function,
    r: Result<Vec<Instruction>, Diagnostics>,
)
    requires
        built(b, pre, post, func, r),
    ensures
        r matches Ok(bc) ==> bc@.len() >= 2,
        post.flatten == pre.flatten,
        post.function_map == pre.function_map,
        post.function_bytecode == pre.function_bytecode,
        post.binding_map == pre.binding_map,
        post.string_cache == pre.string_cache,
        post.data_pool@.len() >= pre.data_pool@.len(),
        forall|i: int| 0 <= i < pre.data_pool@.len() ==> #[trigger] post.data_pool@[i] == pre.data_pool@[i],
{
    if r is Ok {
        let bc = r->Ok_0;
        assert(words(bc@).len() == bc@.len());
    }
}

/// With six registers to spare, a built-in compiles, to at most seven
/// instructions and with at most six registers.
pub proof fn lemma_built_room(
    b: Builtin,
    pre: CompileObject,
    post: CompileObject,
    func: Function,
    r: Result<Vec<Instruction>, Diagnostics>,
)
    requires
        built(b, pre, post, func, r),
        pre.allocator.reg() + 6 <= u16::MAX,
    ensures
        r matches Ok(bc) && bc@.len() <= 7,
        post.allocator.reg() <= pre.allocator.reg() + 6,
{
    let bc = r->Ok_0;
    assert(words(bc@).len() == bc@.len());
}

impl Builtin {
    pub fn name(&self) -> (s: String)
        ensures
            s@ == builtin_name(*self),
    {
        match self {
            Builtin::ControllCmp => owned("prelude::controll::cmp"),
            Builtin::ControllIf => owned("prelude::controll::if"),
            Builtin::MathAdd => owned("prelude::math::add"),
            Builtin::IoPrint => owned("prelude::io::print"),
            Builtin::ChurchPair => owned("std::church::pair"),
            Builtin::ChurchFirst => owned("std::church::first"),
            Builtin::ChurchSecond => owned("std::church::second"),
            Builtin::FfiRustString => owned("prelude::ffi::rust_string"),
        }
    }

    /// The bytecode of this built-in for a function that starts at `func.pc`
    /// and takes its first parameter in `func.param_register`.
    pub fn build(&self, compile_object: &mut CompileObject, func: Function) -> (r: Result<
        Vec<Instruction>,
        Diagnostics,
    >)
        requires
            func.pc + 5 <= u32::MAX,
            old(compile_object).function_bytecode@.len() + 5 <= usize::MAX,
        ensures
            built(*self, *old(compile_object), *final(compile_object), func, r),
    {
        match self {
            Builtin::ControllCmp => build_binary(compile_object, func, 10),
            Builtin::MathAdd => build_binary(compile_object, func, 9),
            Builtin::ControllIf => build_if(compile_object, func),
            Builtin::IoPrint => build_native(compile_object, func, PRINT_NATIVE),
            Builtin::FfiRustString => build_native(compile_object, func, RUST_STRING_NATIVE),
            Builtin::ChurchPair => build_pair(compile_object, func),
            Builtin::ChurchFirst => build_projection(compile_object, func, true),
            Builtin::ChurchSecond => build_projection(compile_object, func, false),
        }
    }
}

fn builtin(b: Builtin) -> (f: BytecodeFunction)
    ensures
        f.name@ == builtin_name(b),
        f.build == b,
{
    BytecodeFunction { name: b.name(), build: b }
}

/// `cmp a b`: whether `a` and `b` are equal.
pub fn controll_cmp() -> (f: BytecodeFunction)
    ensures
        f.name@ == builtin_name(Builtin::ControllCmp),
        f.build == Builtin::ControllCmp,
{
    builtin(Builtin::ControllCmp)
}

/// `if c t e`, laid out as `if_built` says: its conditional jump targets
/// the instruction right after it, so a true condition returns `e`, and a
/// false one stays on the jump (see the machine's `JmpEq` step).
pub fn controll_if() -> (f: BytecodeFunction)
    ensures
        f.name@ == builtin_name(Builtin::ControllIf),
        f.build == Builtin::ControllIf,
{
    builtin(Builtin::ControllIf)
}

/// `add a b`: the integer sum.
pub fn add() -> (f: BytecodeFunction)
    ensures
        f.name@ == builtin_name(Builtin::MathAdd),
        f.build == Builtin::MathAdd,
{
    builtin(Builtin::MathAdd)
}

/// `print v`: hands `v` to the host's printing function.
pub fn print() -> (f: BytecodeFunction)
    ensures
        f.name@ == builtin_name(Builtin::IoPrint),
        f.build == Builtin::IoPrint,
{
    builtin(Builtin::IoPrint)
}

/// `rust_string s`: hands `s` to the host's string conversion.
pub fn rust_string() -> (f: BytecodeFunction)
    ensures
        f.name@ == builtin_name(Builtin::FfiRustString),
        f.build == Builtin::FfiRustString,
{
    builtin(Builtin::FfiRustString)
}

/// `pair x y`: the Church pair of `x` and `y`.
pub fn pair() -> (f: BytecodeFunction)
    ensures
        f.name@ == builtin_name(Builtin::ChurchPair),
        f.build == Builtin::ChurchPair,
{
    builtin(Builtin::ChurchPair)
}

/// `first p`: the first component of a Church pair.
pub fn first() -> (f: BytecodeFunction)
    ensures
        f.name@ == builtin_name(Builtin::ChurchFirst),
        f.build == Builtin::ChurchFirst,
{
    builtin(Builtin::ChurchFirst)
}

/// `second p`: the second component of a Church pair.
pub fn second() -> (f: BytecodeFunction)
    ensures
        f.name@ == builtin_name(Builtin::ChurchSecond),
        f.build == Builtin::ChurchSecond,
{
    builtin(Builtin::ChurchSecond)
}

/// How `{:?}` shows a machine value.
pub open spec fn data_text(d: VirtualMachineData) -> Seq<char> {
    match d {
        VirtualMachineData::Bool(b) => if b {
            "Bool(true)"@
        } else {
            "Bool(false)"@
        },
        VirtualMachineData::Int(n) => "Int("@ + int_text(n as int) + ")"@,
        VirtualMachineData::StrPtr(t) => "StrPtr(\""@ + debug_escaped(t@) + "\")"@,
        VirtualMachineData::FuncPtr { pc, param_register } => "FuncPtr { pc: "@ + decimal(pc as nat)
            + ", param_register: "@ + decimal(param_register as nat) + " }"@,
        VirtualMachineData::Nil => "Nil"@,
        VirtualMachineData::RustFnPtr(n) => "RustFnPtr("@ + decimal(n as nat) + ")"@,
        VirtualMachineData::RustFnTrait(n) => "RustFnTrait("@ + decimal(n as nat) + ")"@,
    }
}

/// The text of a machine value, as `{:?}` shows it (see `data_text`).
pub fn data_to_text(d: &VirtualMachineData) -> (s: String)
    ensures
        s@ == data_text(*d),
{
    match d {
        VirtualMachineData::Bool(b) => if *b {
            owned("Bool(true)")
        } else {
            owned("Bool(false)")
        },
        VirtualMachineData::Int(n) => concat(&concat(&owned("Int("), i64_to_text(*n as i64).as_str()), ")"),
        VirtualMachineData::StrPtr(t) => concat(&concat(&owned("StrPtr(\""), debug_escape(t.as_str()).as_str()), "\")"),
        VirtualMachineData::FuncPtr { pc, param_register } => {
            let a = concat(&owned("FuncPtr { pc: "), u64_to_decimal(*pc as u64).as_str());
            let b = concat(&concat(&a, ", param_register: "), u64_to_decimal(*param_register as u64).as_str());
            concat(&b, " }")
        },
        VirtualMachineData::Nil => owned("Nil"),
        VirtualMachineData::RustFnPtr(n) => concat(&concat(&owned("RustFnPtr("), u64_to_decimal(*n as u64).as_str()), ")"),
        VirtualMachineData::RustFnTrait(n) => concat(
            &concat(&owned("RustFnTrait("), u64_to_decimal(*n as u64).as_str()),
            ")",
        ),
    }
}

/// The line `prelude::io::print` writes for its argument: a string as it
/// is, any other value as `{:?}` shows it.
pub fn print_text(arg: &VirtualMachineData) -> (s: String)
    ensures
        s@ == (match *arg {
            VirtualMachineData::StrPtr(t) => t@,
            other => data_text(other),
        }),
{
    match arg {
        VirtualMachineData::StrPtr(t) => t.clone(),
        other => data_to_text(other),
    }
}

/// What `prelude::ffi::rust_string` gives for its argument: a string
/// itself; any other value is an error that names it.
pub fn rust_string_value(arg: VirtualMachineData) -> (r: Result<VirtualMachineData, String>)
    ensures
        match arg {
            VirtualMachineData::StrPtr(t) => r matches Ok(VirtualMachineData::StrPtr(u)) && u@ == t@,
            other => r matches Err(m) && m@ == "expected string, found "@ + data_text(other),
        },
{
    match arg {
        VirtualMachineData::StrPtr(t) => Ok(VirtualMachineData::StrPtr(t)),
        other => Err(concat(&owned("expected string, found "), data_to_text(&other).as_str())),
    }
}

} // verus!
