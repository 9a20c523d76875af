//! The register machine that compiled programs run on: its instruction
//! encoding, its values, its data pool and one step of execution.
//!
//! An instruction is one 64-bit word. The low byte holds the opcode; the
//! operands follow at fixed bit offsets (8, 24, 40 or 48). Registers are
//! 16 bits wide; program counters and pool indices stored at offset 24 next
//! to a field at offset 48 have 24 usable bits.

use vstd::prelude::*;

use crate::text::str_eq;

verus! {

pub type Register = u16;

pub type ProgramCount = u32;

pub type DataPoolIndex = u32;

pub type InstructionSize = u64;

/// The number of registers a machine has.
pub const REGISTER_COUNT: usize = 256;

#[derive(Debug, Clone, Copy, PartialEq, Eq)]
pub enum Opcode {
    Goto,
    Mov,
    Ret,
    Call,
    CallReg,
    TailCallReg,
    LoadFunc,
    LoadInt,
    LoadStr,
    AddInt,
    Cmp,
    JmpEq,
    RustCall,
}

/// The byte an opcode is stored as.
pub open spec fn opcode_code(op: Opcode) -> u64 {
    match op {
        Opcode::Goto => 0,
        Opcode::Mov => 1,
        Opcode::Ret => 2,
        Opcode::Call => 3,
        Opcode::CallReg => 4,
        Opcode::TailCallReg => 5,
        Opcode::LoadFunc => 6,
        Opcode::LoadInt => 7,
        Opcode::LoadStr => 8,
        Opcode::AddInt => 9,
        Opcode::Cmp => 10,
        Opcode::JmpEq => 11,
        Opcode::RustCall => 12,
    }
}

/// The opcode stored as `b`, if any.
pub open spec fn opcode_of(b: u64) -> Option<Opcode> {
    if b == 0 {
        Some(Opcode::Goto)
    } else if b == 1 {
        Some(Opcode::Mov)
    } else if b == 2 {
        Some(Opcode::Ret)
    } else if b == 3 {
        Some(Opcode::Call)
    } else if b == 4 {
        Some(Opcode::CallReg)
    } else if b == 5 {
        Some(Opcode::TailCallReg)
    } else if b == 6 {
        Some(Opcode::LoadFunc)
    } else if b == 7 {
        Some(Opcode::LoadInt)
    } else if b == 8 {
        Some(Opcode::LoadStr)
    } else if b == 9 {
        Some(Opcode::AddInt)
    } else if b == 10 {
        Some(Opcode::Cmp)
    } else if b == 11 {
        Some(Opcode::JmpEq)
    } else if b == 12 {
        Some(Opcode::RustCall)
    } else {
        None
    }
}

/// Decoding a code gives back the opcode it was made from.
pub proof fn lemma_opcode_code_roundtrip(op: Opcode)
    ensures
        opcode_of(opcode_code(op)) == Some(op),
        opcode_code(op) <= 12,
{
}

impl Opcode {
    pub fn code(self) -> (c: u64)
        ensures
            c == opcode_code(self),
    {
        match self {
            Opcode::Goto => 0,
            Opcode::Mov => 1,
            Opcode::Ret => 2,
            Opcode::Call => 3,
            Opcode::CallReg => 4,
            Opcode::TailCallReg => 5,
            Opcode::LoadFunc => 6,
            Opcode::LoadInt => 7,
            Opcode::LoadStr => 8,
            Opcode::AddInt => 9,
            Opcode::Cmp => 10,
            Opcode::JmpEq => 11,
            Opcode::RustCall => 12,
        }
    }

    pub fn from_code(b: u64) -> (r: Option<Opcode>)
        ensures
            r == opcode_of(b),
    {
        if b == 0 {
            Some(Opcode::Goto)
        } else if b == 1 {
            Some(Opcode::Mov)
        } else if b == 2 {
            Some(Opcode::Ret)
        } else if b == 3 {
            Some(Opcode::Call)
        } else if b == 4 {
            Some(Opcode::CallReg)
        } else if b == 5 {
            Some(Opcode::TailCallReg)
        } else if b == 6 {
            Some(Opcode::LoadFunc)
        } else if b == 7 {
            Some(Opcode::LoadInt)
        } else if b == 8 {
            Some(Opcode::LoadStr)
        } else if b == 9 {
            Some(Opcode::AddInt)
        } else if b == 10 {
            Some(Opcode::Cmp)
        } else if b == 11 {
            Some(Opcode::JmpEq)
        } else if b == 12 {
            Some(Opcode::RustCall)
        } else {
            None
        }
    }
}

// Field readers of an instruction word, as the machine decodes it.
pub open spec fn op_field(b: u64) -> u64 {
    b & 0xff
}

pub open spec fn reg_field(b: u64, shift: u64) -> u16 {
    (b >> shift) as u16
}

pub open spec fn word_field(b: u64, shift: u64) -> u32 {
    (b >> shift) as u32
}

/// A 24-bit field at offset 24 (a program counter or pool index that shares
/// its word with a field at offset 48).
pub open spec fn low24_field(b: u64) -> u32 {
    ((b >> 24u64) & 0xffffffu64) as u32
}

pub open spec fn fits24(x: u32) -> bool {
    x < 0x100_0000
}

// Encodings.
pub open spec fn enc1(op: u64, a: u64) -> u64 {
    op | (a << 8u64)
}

pub open spec fn enc2(op: u64, a: u64, b: u64) -> u64 {
    op | (a << 8u64) | (b << 24u64)
}

pub open spec fn enc3(op: u64, a: u64, b: u64, c: u64) -> u64 {
    op | (a << 8u64) | (b << 24u64) | (c << 40u64)
}

pub open spec fn enc3w(op: u64, a: u64, b: u64, c: u64) -> u64 {
    op | (a << 8u64) | (b << 24u64) | (c << 48u64)
}

/// Three register operands at offsets 8, 24 and 40.
pub open spec fn enc3r(op: u64, a: u16, b: u16, c: u16) -> u64 {
    enc3(op, a as u64, b as u64, c as u64)
}

proof fn lemma_enc1(op: u64, a: u32)
    requires
        op <= 12,
    ensures
        op_field(enc1(op, a as u64)) == op,
        word_field(enc1(op, a as u64), 8) == a,
        reg_field(enc1(op, a as u64), 8) == a as u16,
{
    assert(((op | ((a as u64) << 8u64)) & 0xff) == op) by (bit_vector)
        requires
            op <= 12,
    ;
    assert((((op | ((a as u64) << 8u64)) >> 8u64) as u32) == a) by (bit_vector)
        requires
            op <= 12,
    ;
    assert((((op | ((a as u64) << 8u64)) >> 8u64) as u16) == a as u16) by (bit_vector)
        requires
            op <= 12,
    ;
}

proof fn lemma_enc2(op: u64, a: u16, b: u32)
    requires
        op <= 12,
    ensures
        op_field(enc2(op, a as u64, b as u64)) == op,
        reg_field(enc2(op, a as u64, b as u64), 8) == a,
        word_field(enc2(op, a as u64, b as u64), 24) == b,
        reg_field(enc2(op, a as u64, b as u64), 24) == b as u16,
        low24_field(enc2(op, a as u64, b as u64)) == b & 0xffffff,
{
    let x = op | ((a as u64) << 8u64) | ((b as u64) << 24u64);
    assert((x & 0xff) == op) by (bit_vector)
        requires
            op <= 12,
            x == op | ((a as u64) << 8u64) | ((b as u64) << 24u64),
    ;
    assert(((x >> 8u64) as u16) == a) by (bit_vector)
        requires
            op <= 12,
            x == op | ((a as u64) << 8u64) | ((b as u64) << 24u64),
    ;
    assert(((x >> 24u64) as u32) == b) by (bit_vector)
        requires
            op <= 12,
            x == op | ((a as u64) << 8u64) | ((b as u64) << 24u64),
    ;
    assert(((x >> 24u64) as u16) == b as u16) by (bit_vector)
        requires
            op <= 12,
            x == op | ((a as u64) << 8u64) | ((b as u64) << 24u64),
    ;
    assert((((x >> 24u64) & 0xffffffu64) as u32) == b & 0xffffff) by (bit_vector)
        requires
            op <= 12,
            x == op | ((a as u64) << 8u64) | ((b as u64) << 24u64),
    ;
}

proof fn lemma_enc3(op: u64, a: u16, b: u16, c: u16)
    requires
        op <= 12,
    ensures
        op_field(enc3(op, a as u64, b as u64, c as u64)) == op,
        reg_field(enc3(op, a as u64, b as u64, c as u64), 8) == a,
        reg_field(enc3(op, a as u64, b as u64, c as u64), 24) == b,
        reg_field(enc3(op, a as u64, b as u64, c as u64), 40) == c,
{
    let x = op | ((a as u64) << 8u64) | ((b as u64) << 24u64) | ((c as u64) << 40u64);
    assert((x & 0xff) == op && ((x >> 8u64) as u16) == a && ((x >> 24u64) as u16) == b && ((x
        >> 40u64) as u16) == c) by (bit_vector)
        requires
            op <= 12,
            x == op | ((a as u64) << 8u64) | ((b as u64) << 24u64) | ((c as u64) << 40u64),
    ;
}

proof fn lemma_enc3w(op: u64, a: u16, b: u32, c: u16)
    requires
        op <= 12,
    ensures
        op_field(enc3w(op, a as u64, b as u64, c as u64)) == op,
        reg_field(enc3w(op, a as u64, b as u64, c as u64), 8) == a,
        low24_field(enc3w(op, a as u64, b as u64, c as u64)) == b & 0xffffff,
        fits24(b) ==> low24_field(enc3w(op, a as u64, b as u64, c as u64)) == b,
        fits24(b) ==> reg_field(enc3w(op, a as u64, b as u64, c as u64), 48) == c,
{
    let x = op | ((a as u64) << 8u64) | ((b as u64) << 24u64) | ((c as u64) << 48u64);
    assert((x & 0xff) == op && ((x >> 8u64) as u16) == a && (((x >> 24u64) & 0xffffffu64) as u32)
        == b & 0xffffff) by (bit_vector)
        requires
            op <= 12,
            x == op | ((a as u64) << 8u64) | ((b as u64) << 24u64) | ((c as u64) << 48u64),
    ;
    assert(b < 0x100_0000 ==> (((x >> 24u64) & 0xffffffu64) as u32) == b && ((x >> 48u64) as u16)
        == c) by (bit_vector)
        requires
            op <= 12,
            x == op | ((a as u64) << 8u64) | ((b as u64) << 24u64) | ((c as u64) << 48u64),
    ;
}

fn pack3r(op: u64, a: u16, b: u16, c: u16) -> (w: u64)
    requires
        op <= 12,
    ensures
        w == enc3r(op, a, b, c),
        op_field(w) == op,
        reg_field(w, 8) == a,
        reg_field(w, 24) == b,
        reg_field(w, 40) == c,
{
    proof {
        lemma_enc3(op, a, b, c);
    }
    op | ((a as u64) << 8u64) | ((b as u64) << 24u64) | ((c as u64) << 40u64)
}

/// One machine instruction, as its 64-bit word.
#[derive(Debug, Clone, Copy, PartialEq, Eq)]
pub struct Instruction(InstructionSize);

impl View for Instruction {
    type V = u64;

    closed spec fn view(&self) -> u64 {
        self.0
    }
}

/// The words of a piece of bytecode.
pub open spec fn words(code: Seq<Instruction>) -> Seq<u64> {
    code.map_values(|i: Instruction| i@)
}

impl Instruction {
    /// The instruction's word.
    pub fn bits(&self) -> (b: u64)
        ensures
            b == self@,
    {
        self.0
    }

    /// Decodes the opcode; `None` for a low byte that names no opcode.
    pub fn opcode(&self) -> (r: Option<Opcode>)
        ensures
            r == opcode_of(op_field(self@)),
    {
        Opcode::from_code(self.0 & 0xff)
    }

    /// Jump to `pc`.
    pub fn goto(pc: ProgramCount) -> (r: Self)
        ensures
            r@ == enc1(0, pc as u64),
            opcode_of(op_field(r@)) == Some(Opcode::Goto),
            word_field(r@, 8) == pc,
    {
        proof {
            lemma_enc1(0, pc);
        }
        Instruction(0u64 | ((pc as u64) << 8u64))
    }

    /// Copy register `src` into register `dest`.
    pub fn mov(dest: Register, src: Register) -> (r: Self)
        ensures
            r@ == enc2(1, dest as u64, src as u64),
            opcode_of(op_field(r@)) == Some(Opcode::Mov),
            reg_field(r@, 8) == dest,
            reg_field(r@, 24) == src,
    {
        proof {
            lemma_enc2(1, dest, src as u32);
        }
        Instruction(1u64 | ((dest as u64) << 8u64) | ((src as u64) << 24u64))
    }

    /// Return the value of register `src` to the caller.
    pub fn ret(src: Register) -> (r: Self)
        ensures
            r@ == enc1(2, src as u64),
            opcode_of(op_field(r@)) == Some(Opcode::Ret),
            reg_field(r@, 8) == src,
    {
        proof {
            lemma_enc1(2, src as u32);
            assert((src as u32) as u16 == src);
        }
        Instruction(2u64 | ((src as u64) << 8u64))
    }

    /// Call the code at `pc`; its result goes to `dest`. A `pc` of 24 bits
    /// or fewer is read back unchanged.
    pub fn call(dest: Register, pc: ProgramCount) -> (r: Self)
        ensures
            r@ == enc2(3, dest as u64, pc as u64),
            opcode_of(op_field(r@)) == Some(Opcode::Call),
            reg_field(r@, 8) == dest,
            low24_field(r@) == pc & 0xffffff,
            fits24(pc) ==> low24_field(r@) == pc,
    {
        proof {
            lemma_enc2(3, dest, pc);
            assert(pc < 0x100_0000 ==> pc & 0xffffff == pc) by (bit_vector);
        }
        Instruction(3u64 | ((dest as u64) << 8u64) | ((pc as u64) << 24u64))
    }

    /// Call the function value in register `func` with the value of register
    /// `arg`; the result goes to `dest`.
    pub fn call_reg(dest: Register, func: Register, arg: Register) -> (r: Self)
        ensures
            r@ == enc3r(4, dest, func, arg),
            opcode_of(op_field(r@)) == Some(Opcode::CallReg),
            reg_field(r@, 8) == dest,
            reg_field(r@, 24) == func,
            reg_field(r@, 40) == arg,
    {
        Instruction(pack3r(4, dest, func, arg))
    }

    /// Jump into the function value in register `func` with the value of
    /// register `arg`, reusing the current frame.
    pub fn tail_call_reg(func: Register, arg: Register) -> (r: Self)
        ensures
            r@ == enc2(5, func as u64, arg as u64),
            opcode_of(op_field(r@)) == Some(Opcode::TailCallReg),
            reg_field(r@, 8) == func,
            reg_field(r@, 24) == arg,
    {
        proof {
            lemma_enc2(5, func, arg as u32);
        }
        Instruction(5u64 | ((func as u64) << 8u64) | ((arg as u64) << 24u64))
    }

    /// Load into `dest` the function at `pc` whose parameter lives in `param`.
    /// Both come back unchanged when `pc` has 24 bits or fewer.
    pub fn load_func(dest: Register, pc: ProgramCount, param: Register) -> (r: Self)
        ensures
            r@ == enc3w(6, dest as u64, pc as u64, param as u64),
            opcode_of(op_field(r@)) == Some(Opcode::LoadFunc),
            reg_field(r@, 8) == dest,
            low24_field(r@) == pc & 0xffffff,
            fits24(pc) ==> low24_field(r@) == pc,
            fits24(pc) ==> reg_field(r@, 48) == param,
    {
        proof {
            lemma_enc3w(6, dest, pc, param);
        }
        Instruction(
            6u64 | ((dest as u64) << 8u64) | ((pc as u64) << 24u64) | ((param as u64) << 48u64),
        )
    }

    /// Load the integer `value` into `dest`.
    pub fn load_int(dest: Register, value: i32) -> (r: Self)
        ensures
            r@ == enc2(7, dest as u64, (value as u32) as u64),
            opcode_of(op_field(r@)) == Some(Opcode::LoadInt),
            reg_field(r@, 8) == dest,
            word_field(r@, 24) as i32 == value,
    {
        let w: u32 = value as u32;
        proof {
            lemma_enc2(7, dest, w);
            assert((value as u32) as i32 == value) by (bit_vector);
        }
        Instruction(7u64 | ((dest as u64) << 8u64) | ((w as u64) << 24u64))
    }

    /// Load the pool entry `pool_index` into `dest`.
    pub fn load_str(dest: Register, pool_index: DataPoolIndex) -> (r: Self)
        ensures
            r@ == enc2(8, dest as u64, pool_index as u64),
            opcode_of(op_field(r@)) == Some(Opcode::LoadStr),
            reg_field(r@, 8) == dest,
            word_field(r@, 24) == pool_index,
    {
        proof {
            lemma_enc2(8, dest, pool_index);
        }
        Instruction(8u64 | ((dest as u64) << 8u64) | ((pool_index as u64) << 24u64))
    }

    /// `dest := lhs + rhs` on integers.
    pub fn add_int(dest: Register, lhs: Register, rhs: Register) -> (r: Self)
        ensures
            r@ == enc3r(9, dest, lhs, rhs),
            opcode_of(op_field(r@)) == Some(Opcode::AddInt),
            reg_field(r@, 8) == dest,
            reg_field(r@, 24) == lhs,
            reg_field(r@, 40) == rhs,
    {
        Instruction(pack3r(9, dest, lhs, rhs))
    }

    /// `dest := (lhs == rhs)`.
    pub fn cmp(dest: Register, lhs: Register, rhs: Register) -> (r: Self)
        ensures
            r@ == enc3r(10, dest, lhs, rhs),
            opcode_of(op_field(r@)) == Some(Opcode::Cmp),
            reg_field(r@, 8) == dest,
            reg_field(r@, 24) == lhs,
            reg_field(r@, 40) == rhs,
    {
        Instruction(pack3r(10, dest, lhs, rhs))
    }

    /// Jump to `pc` on the value of register `cond` (see [`VirtualMachine::step`]).
    pub fn jmp_eq(cond: Register, pc: ProgramCount) -> (r: Self)
        ensures
            r@ == enc2(11, cond as u64, pc as u64),
            opcode_of(op_field(r@)) == Some(Opcode::JmpEq),
            reg_field(r@, 8) == cond,
            word_field(r@, 24) == pc,
    {
        proof {
            lemma_enc2(11, cond, pc);
        }
        Instruction(11u64 | ((cond as u64) << 8u64) | ((pc as u64) << 24u64))
    }

    /// Call the host function held in pool entry `func` with the value of
    /// register `arg`; the result goes to `dest`.
    pub fn rust_call(dest: Register, func: DataPoolIndex, arg: Register) -> (r: Self)
        ensures
            r@ == enc3w(12, dest as u64, func as u64, arg as u64),
            opcode_of(op_field(r@)) == Some(Opcode::RustCall),
            reg_field(r@, 8) == dest,
            low24_field(r@) == func & 0xffffff,
            fits24(func) ==> low24_field(r@) == func,
            fits24(func) ==> reg_field(r@, 48) == arg,
    {
        proof {
            lemma_enc3w(12, dest, func, arg);
        }
        Instruction(
            12u64 | ((dest as u64) << 8u64) | ((func as u64) << 24u64) | ((arg as u64) << 48u64),
        )
    }
}

/// A host function the machine can call. The host keeps a table of them;
/// a value names one by its slot in that table.
pub trait RustCallFunction {
    fn call(&self, arg: VirtualMachineData) -> VirtualMachineData;
}

/// A value held in a register or in the data pool.
#[derive(Debug)]
pub enum VirtualMachineData {
    Bool(bool),
    Int(i32),
    StrPtr(String),
    FuncPtr { pc: ProgramCount, param_register: Register },
    /// No value.
    Nil,
    /// A plain host function, by its slot in the host's table.
    RustFnPtr(u32),
    /// A host function object, by its slot in the host's table.
    RustFnTrait(u32),
}

/// Equality of machine values: structural, except that any two host
/// function objects compare equal.
pub open spec fn data_eq(a: VirtualMachineData, b: VirtualMachineData) -> bool {
    match (a, b) {
        (VirtualMachineData::RustFnTrait(_), VirtualMachineData::RustFnTrait(_)) => true,
        (VirtualMachineData::StrPtr(x), VirtualMachineData::StrPtr(y)) => x@ == y@,
        _ => a == b,
    }
}

impl VirtualMachineData {
    pub fn clone_data(&self) -> (r: VirtualMachineData)
        ensures
            r == *self,
    {
        match self {
            VirtualMachineData::Bool(b) => VirtualMachineData::Bool(*b),
            VirtualMachineData::Int(i) => VirtualMachineData::Int(*i),
            VirtualMachineData::StrPtr(s) => VirtualMachineData::StrPtr(s.clone()),
            VirtualMachineData::FuncPtr { pc, param_register } => VirtualMachineData::FuncPtr {
                pc: *pc,
                param_register: *param_register,
            },
            VirtualMachineData::Nil => VirtualMachineData::Nil,
            VirtualMachineData::RustFnPtr(f) => VirtualMachineData::RustFnPtr(*f),
            VirtualMachineData::RustFnTrait(f) => VirtualMachineData::RustFnTrait(*f),
        }
    }

    pub fn data_equal(&self, other: &VirtualMachineData) -> (b: bool)
        ensures
            b == data_eq(*self, *other),
    {
        match (self, other) {
            (VirtualMachineData::RustFnTrait(_), VirtualMachineData::RustFnTrait(_)) => true,
            (VirtualMachineData::StrPtr(x), VirtualMachineData::StrPtr(y)) => str_eq(x, y),
            (VirtualMachineData::Bool(x), VirtualMachineData::Bool(y)) => *x == *y,
            (VirtualMachineData::Int(x), VirtualMachineData::Int(y)) => *x == *y,
            (
                VirtualMachineData::FuncPtr { pc: p1, param_register: r1 },
                VirtualMachineData::FuncPtr { pc: p2, param_register: r2 },
            ) => *p1 == *p2 && *r1 == *r2,
            (VirtualMachineData::Nil, VirtualMachineData::Nil) => true,
            (VirtualMachineData::RustFnPtr(x), VirtualMachineData::RustFnPtr(y)) => *x == *y,
            _ => {
                proof {
                    assert(!data_eq(*self, *other));
                }
                false
            },
        }
    }
}

/// Where a call returns to: the instruction after the call, and the
/// register that receives the result.
#[derive(Debug, Clone, Copy)]
pub struct FrameInfo {
    pub return_pc: ProgramCount,
    pub dest_register: Register,
}

/// The constants of a program (strings, host functions), by index.
#[derive(Debug)]
pub struct DataPool(Vec<VirtualMachineData>);

impl View for DataPool {
    type V = Seq<VirtualMachineData>;

    closed spec fn view(&self) -> Seq<VirtualMachineData> {
        self.0@
    }
}

impl DataPool {
    pub fn new() -> (p: Self)
        ensures
            p@ == Seq::<VirtualMachineData>::empty(),
    {
        DataPool(Vec::new())
    }

    /// Moves every entry of `data_pool` to the end of this pool.
    pub fn append(&mut self, data_pool: &mut DataPool)
        ensures
            final(self)@ == old(self)@ + old(data_pool)@,
            final(data_pool)@ == Seq::<VirtualMachineData>::empty(),
    {
        self.0.append(&mut data_pool.0);
    }

    /// The number of entries, as a pool index (truncated to 32 bits).
    pub fn len(&mut self) -> (n: DataPoolIndex)
        ensures
            n == old(self)@.len() as u32,
            final(self)@ == old(self)@,
    {
        self.0.len() as u32
    }

    pub fn push(&mut self, data: VirtualMachineData)
        ensures
            final(self)@ == old(self)@.push(data),
    {
        self.0.push(data);
    }

    /// The entry at `index`, if there is one.
    pub fn get(&self, index: DataPoolIndex) -> (r: Option<&VirtualMachineData>)
        ensures
            (index as int) < self@.len() ==> r == Some(&self@[index as int]),
            (index as int) >= self@.len() ==> r is None,
    {
        if (index as usize) < self.0.len() {
            Some(&self.0[index as usize])
        } else {
            None
        }
    }
}

/// Why the machine stopped short.
#[derive(Debug, Clone, Copy, PartialEq, Eq)]
pub enum VmFault {
    /// A host call is still waiting for its result.
    AwaitingNativeResult,
    /// `resume` was called while no host call was waiting.
    NotAwaitingResult,
    InvalidOpcode,
    RegisterOutOfRange,
    EmptyCallStack,
    NotAFunction,
    NotAnInteger,
    IntegerOverflow,
    PoolIndexOutOfRange,
    NotANativeFunction,
    ProgramCounterOverflow,
}

/// What one step of the machine did.
#[derive(Debug)]
pub enum Step {
    /// An instruction ran; the machine can go on.
    Continue,
    /// The program counter left the bytecode: the program is over.
    Halt,
    /// The program calls host function `func` with `arg`; the host runs it
    /// and hands the result to [`VirtualMachine::resume`].
    RustCall { func: VirtualMachineData, arg: VirtualMachineData },
    /// The instruction cannot run; the machine is unchanged.
    Fault(VmFault),
}

pub struct VirtualMachine {
    bytecode: Vec<Instruction>,
    data_pool: DataPool,
    register_file: Vec<VirtualMachineData>,
    pc: ProgramCount,
    call_stack: Vec<FrameInfo>,
    pending: Option<Register>,
}

impl VirtualMachine {
    pub closed spec fn code(&self) -> Seq<Instruction> {
        self.bytecode@
    }

    pub closed spec fn pool(&self) -> Seq<VirtualMachineData> {
        self.data_pool@
    }

    pub closed spec fn regs(&self) -> Seq<VirtualMachineData> {
        self.register_file@
    }

    pub closed spec fn counter(&self) -> ProgramCount {
        self.pc
    }

    pub closed spec fn frames(&self) -> Seq<FrameInfo> {
        self.call_stack@
    }

    /// The register waiting for the result of a host call, if any.
    pub closed spec fn pending(&self) -> Option<Register> {
        self.pending
    }

    /// `post` is `pre` with registers, frames, counter and pending call replaced.
    pub open spec fn moved(
        pre: VirtualMachine,
        post: VirtualMachine,
        regs: Seq<VirtualMachineData>,
        frames: Seq<FrameInfo>,
        pc: ProgramCount,
        pending: Option<Register>,
    ) -> bool {
        &&& post.code() == pre.code()
        &&& post.pool() == pre.pool()
        &&& post.regs() == regs
        &&& post.frames() == frames
        &&& post.counter() == pc
        &&& post.pending() == pending
    }

    pub open spec fn unchanged(pre: VirtualMachine, post: VirtualMachine) -> bool {
        Self::moved(pre, post, pre.regs(), pre.frames(), pre.counter(), pre.pending())
    }

    pub open spec fn reg_ok(vm: VirtualMachine, r: Register) -> bool {
        (r as int) < vm.regs().len()
    }

    /// `post` is `pre` after writing `v` to register `d` and moving to the
    /// next instruction.
    pub open spec fn wrote(pre: VirtualMachine, post: VirtualMachine, d: Register, v: VirtualMachineData) -> bool {
        Self::moved(
            pre,
            post,
            pre.regs().update(d as int, v),
            pre.frames(),
            (pre.counter() + 1) as u32,
            None,
        )
    }

    /// What one step does, by the opcode of the current instruction.
    pub open spec fn step_spec(pre: VirtualMachine, post: VirtualMachine, out: Step) -> bool {
        let fault = |f: VmFault| Self::unchanged(pre, post) && out == Step::Fault(f);
        let regs = pre.regs();
        let pc = pre.counter();
        if pre.pending() is Some {
            fault(VmFault::AwaitingNativeResult)
        } else if pc as int >= pre.code().len() {
            Self::unchanged(pre, post) && out == Step::Halt
        } else {
            let b = pre.code()[pc as int]@;
            let a8 = reg_field(b, 8);
            let a24 = reg_field(b, 24);
            let a40 = reg_field(b, 40);
            let a48 = reg_field(b, 48);
            match opcode_of(op_field(b)) {
                None => fault(VmFault::InvalidOpcode),
                Some(Opcode::Goto) => Self::moved(pre, post, regs, pre.frames(), word_field(b, 8), None)
                    && out == Step::Continue,
                Some(Opcode::JmpEq) => if !Self::reg_ok(pre, a8) {
                    fault(VmFault::RegisterOutOfRange)
                } else {
                    let stay = regs[a8 as int] == VirtualMachineData::Bool(false) || regs[a8 as int]
                        == VirtualMachineData::Nil;
                    Self::moved(
                        pre,
                        post,
                        regs,
                        pre.frames(),
                        if stay { pc } else { word_field(b, 24) },
                        None,
                    ) && out == Step::Continue
                },
                Some(Opcode::Ret) => if !Self::reg_ok(pre, a8) {
                    fault(VmFault::RegisterOutOfRange)
                } else if pre.frames().len() == 0 {
                    fault(VmFault::EmptyCallStack)
                } else {
                    let frame = pre.frames().last();
                    if !Self::reg_ok(pre, frame.dest_register) {
                        fault(VmFault::RegisterOutOfRange)
                    } else {
                        Self::moved(
                            pre,
                            post,
                            regs.update(frame.dest_register as int, regs[a8 as int]),
                            pre.frames().drop_last(),
                            frame.return_pc,
                            None,
                        ) && out == Step::Continue
                    }
                },
                Some(Opcode::TailCallReg) => if !Self::reg_ok(pre, a8) || !Self::reg_ok(pre, a24) {
                    fault(VmFault::RegisterOutOfRange)
                } else {
                    match regs[a8 as int] {
                        VirtualMachineData::FuncPtr { pc: target, param_register: p } => if !Self::reg_ok(pre, p) {
                            fault(VmFault::RegisterOutOfRange)
                        } else {
                            Self::moved(pre, post, regs.update(p as int, regs[a24 as int]), pre.frames(), target, None)
                                && out == Step::Continue
                        },
                        _ => fault(VmFault::NotAFunction),
                    }
                },
                Some(op) => if pc == u32::MAX {
                    fault(VmFault::ProgramCounterOverflow)
                } else {
                    match op {
                        Opcode::Mov => if !Self::reg_ok(pre, a8) || !Self::reg_ok(pre, a24) {
                            fault(VmFault::RegisterOutOfRange)
                        } else {
                            Self::wrote(pre, post, a8, regs[a24 as int]) && out == Step::Continue
                        },
                        Opcode::Call => Self::moved(
                            pre,
                            post,
                            regs,
                            pre.frames().push(FrameInfo { return_pc: (pc + 1) as u32, dest_register: a8 }),
                            low24_field(b),
                            None,
                        ) && out == Step::Continue,
                        Opcode::CallReg => if !Self::reg_ok(pre, a24) || !Self::reg_ok(pre, a40) {
                            fault(VmFault::RegisterOutOfRange)
                        } else {
                            match regs[a24 as int] {
                                VirtualMachineData::FuncPtr { pc: target, param_register: p } => if !Self::reg_ok(pre, p) {
                                    fault(VmFault::RegisterOutOfRange)
                                } else {
                                    Self::moved(
                                        pre,
                                        post,
                                        regs.update(p as int, regs[a40 as int]),
                                        pre.frames().push(
                                            FrameInfo { return_pc: (pc + 1) as u32, dest_register: a8 },
                                        ),
                                        target,
                                        None,
                                    ) && out == Step::Continue
                                },
                                _ => fault(VmFault::NotAFunction),
                            }
                        },
                        Opcode::LoadFunc => if !Self::reg_ok(pre, a8) {
                            fault(VmFault::RegisterOutOfRange)
                        } else {
                            Self::wrote(
                                pre,
                                post,
                                a8,
                                VirtualMachineData::FuncPtr { pc: low24_field(b), param_register: a48 },
                            ) && out == Step::Continue
                        },
                        Opcode::LoadInt => if !Self::reg_ok(pre, a8) {
                            fault(VmFault::RegisterOutOfRange)
                        } else {
                            Self::wrote(pre, post, a8, VirtualMachineData::Int(word_field(b, 24) as i32))
                                && out == Step::Continue
                        },
                        Opcode::LoadStr => if !Self::reg_ok(pre, a8) {
                            fault(VmFault::RegisterOutOfRange)
                        } else if word_field(b, 24) as int >= pre.pool().len() {
                            fault(VmFault::PoolIndexOutOfRange)
                        } else {
                            Self::wrote(pre, post, a8, pre.pool()[word_field(b, 24) as int])
                                && out == Step::Continue
                        },
                        Opcode::AddInt => if !Self::reg_ok(pre, a8) || !Self::reg_ok(pre, a24)
                            || !Self::reg_ok(pre, a40) {
                            fault(VmFault::RegisterOutOfRange)
                        } else {
                            match (regs[a24 as int], regs[a40 as int]) {
                                (VirtualMachineData::Int(l), VirtualMachineData::Int(r)) => if l + r
                                    < i32::MIN || l + r > i32::MAX {
                                    fault(VmFault::IntegerOverflow)
                                } else {
                                    Self::wrote(pre, post, a8, VirtualMachineData::Int((l + r) as i32))
                                        && out == Step::Continue
                                },
                                _ => fault(VmFault::NotAnInteger),
                            }
                        },
                        Opcode::Cmp => if !Self::reg_ok(pre, a8) || !Self::reg_ok(pre, a24)
                            || !Self::reg_ok(pre, a40) {
                            fault(VmFault::RegisterOutOfRange)
                        } else {
                            Self::wrote(
                                pre,
                                post,
                                a8,
                                VirtualMachineData::Bool(data_eq(regs[a40 as int], regs[a24 as int])),
                            ) && out == Step::Continue
                        },
                        _ => if !Self::reg_ok(pre, a8) || !Self::reg_ok(pre, a48) {
                            fault(VmFault::RegisterOutOfRange)
                        } else if low24_field(b) as int >= pre.pool().len() {
                            fault(VmFault::PoolIndexOutOfRange)
                        } else {
                            let f = pre.pool()[low24_field(b) as int];
                            if f is RustFnPtr || f is RustFnTrait {
                                Self::moved(pre, post, regs, pre.frames(), pc, Some(a8))
                                    && out == (Step::RustCall { func: f, arg: regs[a48 as int] })
                            } else {
                                fault(VmFault::NotANativeFunction)
                            }
                        },
                    }
                },
            }
        }
    }

    /// A machine with no program, all registers empty and no call frames.
    pub fn new() -> (vm: Self)
        ensures
            vm.code() == Seq::<Instruction>::empty(),
            vm.pool() == Seq::<VirtualMachineData>::empty(),
            vm.regs().len() == REGISTER_COUNT,
            forall|i: int| 0 <= i < REGISTER_COUNT ==> vm.regs()[i] == VirtualMachineData::Nil,
            vm.counter() == 0,
            vm.frames() == Seq::<FrameInfo>::empty(),
            vm.pending() is None,
    {
        let mut regs: Vec<VirtualMachineData> = Vec::new();
        let mut i: usize = 0;
        while i < REGISTER_COUNT
            invariant
                i <= REGISTER_COUNT,
                regs@.len() == i,
                forall|j: int| 0 <= j < i ==> regs@[j] == VirtualMachineData::Nil,
            decreases REGISTER_COUNT - i,
        {
            regs.push(VirtualMachineData::Nil);
            i = i + 1;
        }
        VirtualMachine {
            bytecode: Vec::new(),
            data_pool: DataPool::new(),
            register_file: regs,
            pc: 0,
            call_stack: Vec::new(),
            pending: None,
        }
    }

    /// Loads a program: its entry point, its bytecode and its data pool.
    pub fn with_load(self, load: (ProgramCount, Vec<Instruction>, DataPool)) -> (vm: Self)
        ensures
            vm.counter() == load.0,
            vm.code() == load.1@,
            vm.pool() == load.2@,
            vm.regs() == self.regs(),
            vm.frames() == self.frames(),
            vm.pending() == self.pending(),
    {
        let (pc, bytecode, data_pool) = load;
        VirtualMachine {
            bytecode,
            data_pool,
            register_file: self.register_file,
            pc,
            call_stack: self.call_stack,
            pending: self.pending,
        }
    }

    /// The current program counter.
    pub fn program_counter(&self) -> (pc: ProgramCount)
        ensures
            pc == self.counter(),
    {
        self.pc
    }

    /// The value of register `r`, if the machine has such a register.
    pub fn register(&self, r: Register) -> (v: Option<&VirtualMachineData>)
        ensures
            (r as int) < self.regs().len() ==> v == Some(&self.regs()[r as int]),
            (r as int) >= self.regs().len() ==> v is None,
    {
        if (r as usize) < self.register_file.len() {
            Some(&self.register_file[r as usize])
        } else {
            None
        }
    }

    fn has_reg(&self, r: Register) -> (b: bool)
        ensures
            b == Self::reg_ok(*self, r),
    {
        (r as usize) < self.register_file.len()
    }

    fn write_next(&mut self, d: Register, v: VirtualMachineData)
        requires
            Self::reg_ok(*old(self), d),
            old(self).counter() < u32::MAX,
        ensures
            Self::wrote(*old(self), *final(self), d, v),
    {
        self.register_file.set(d as usize, v);
        self.pc = self.pc + 1;
        self.pending = None;
    }

    /// Runs the current instruction (see `step_spec`). A fault leaves the
    /// machine as it was; a host call leaves it waiting for [`Self::resume`].
    pub fn step(&mut self) -> (out: Step)
        ensures
            Self::step_spec(*old(self), *final(self), out),
    {
        if self.pending.is_some() {
            return Step::Fault(VmFault::AwaitingNativeResult);
        }
        if (self.pc as usize) >= self.bytecode.len() {
            return Step::Halt;
        }
        let pc = self.pc;
        let b = self.bytecode[pc as usize].bits();
        let a8 = (b >> 8u64) as u16;
        let a24 = (b >> 24u64) as u16;
        let a40 = (b >> 40u64) as u16;
        let a48 = (b >> 48u64) as u16;
        let op = match Opcode::from_code(b & 0xff) {
            Some(op) => op,
            None => {
                return Step::Fault(VmFault::InvalidOpcode);
            },
        };
        match op {
            Opcode::Goto => {
                self.pc = (b >> 8u64) as u32;
                return Step::Continue;
            },
            Opcode::JmpEq => {
                if !self.has_reg(a8) {
                    return Step::Fault(VmFault::RegisterOutOfRange);
                }
                let stay = match &self.register_file[a8 as usize] {
                    VirtualMachineData::Bool(c) => !*c,
                    VirtualMachineData::Nil => true,
                    _ => false,
                };
                if !stay {
                    self.pc = (b >> 24u64) as u32;
                }
                return Step::Continue;
            },
            Opcode::Ret => {
                if !self.has_reg(a8) {
                    return Step::Fault(VmFault::RegisterOutOfRange);
                }
                if self.call_stack.len() == 0 {
                    return Step::Fault(VmFault::EmptyCallStack);
                }
                let frame = self.call_stack[self.call_stack.len() - 1];
                if !self.has_reg(frame.dest_register) {
                    return Step::Fault(VmFault::RegisterOutOfRange);
                }
                let v = self.register_file[a8 as usize].clone_data();
                self.register_file.set(frame.dest_register as usize, v);
                self.call_stack.pop();
                self.pc = frame.return_pc;
                return Step::Continue;
            },
            Opcode::TailCallReg => {
                if !self.has_reg(a8) || !self.has_reg(a24) {
                    return Step::Fault(VmFault::RegisterOutOfRange);
                }
                let (target, p) = match &self.register_file[a8 as usize] {
                    VirtualMachineData::FuncPtr { pc, param_register } => (*pc, *param_register),
                    _ => {
                        return Step::Fault(VmFault::NotAFunction);
                    },
                };
                if !self.has_reg(p) {
                    return Step::Fault(VmFault::RegisterOutOfRange);
                }
                let v = self.register_file[a24 as usize].clone_data();
                self.register_file.set(p as usize, v);
                self.pc = target;
                return Step::Continue;
            },
            _ => {},
        }
        if pc == u32::MAX {
            return Step::Fault(VmFault::ProgramCounterOverflow);
        }
        match op {
            Opcode::Mov => {
                if !self.has_reg(a8) || !self.has_reg(a24) {
                    return Step::Fault(VmFault::RegisterOutOfRange);
                }
                let v = self.register_file[a24 as usize].clone_data();
                self.write_next(a8, v);
                Step::Continue
            },
            Opcode::Call => {
                self.call_stack.push(FrameInfo { return_pc: pc + 1, dest_register: a8 });
                self.pc = ((b >> 24u64) & 0xffffffu64) as u32;
                Step::Continue
            },
            Opcode::CallReg => {
                if !self.has_reg(a24) || !self.has_reg(a40) {
                    return Step::Fault(VmFault::RegisterOutOfRange);
                }
                let (target, p) = match &self.register_file[a24 as usize] {
                    VirtualMachineData::FuncPtr { pc, param_register } => (*pc, *param_register),
                    _ => {
                        return Step::Fault(VmFault::NotAFunction);
                    },
                };
                if !self.has_reg(p) {
                    return Step::Fault(VmFault::RegisterOutOfRange);
                }
                let v = self.register_file[a40 as usize].clone_data();
                self.register_file.set(p as usize, v);
                self.call_stack.push(FrameInfo { return_pc: pc + 1, dest_register: a8 });
                self.pc = target;
                Step::Continue
            },
            Opcode::LoadFunc => {
                if !self.has_reg(a8) {
                    return Step::Fault(VmFault::RegisterOutOfRange);
                }
                let target = ((b >> 24u64) & 0xffffffu64) as u32;
                self.write_next(a8, VirtualMachineData::FuncPtr { pc: target, param_register: a48 });
                Step::Continue
            },
            Opcode::LoadInt => {
                if !self.has_reg(a8) {
                    return Step::Fault(VmFault::RegisterOutOfRange);
                }
                let w = (b >> 24u64) as u32;
                self.write_next(a8, VirtualMachineData::Int(w as i32));
                Step::Continue
            },
            Opcode::LoadStr => {
                if !self.has_reg(a8) {
                    return Step::Fault(VmFault::RegisterOutOfRange);
                }
                let idx = (b >> 24u64) as u32;
                let v = match self.data_pool.get(idx) {
                    Some(d) => d.clone_data(),
                    None => {
                        return Step::Fault(VmFault::PoolIndexOutOfRange);
                    },
                };
                self.write_next(a8, v);
                Step::Continue
            },
            Opcode::AddInt => {
                if !self.has_reg(a8) || !self.has_reg(a24) || !self.has_reg(a40) {
                    return Step::Fault(VmFault::RegisterOutOfRange);
                }
                let (l, r) = match (&self.register_file[a24 as usize], &self.register_file[a40 as usize]) {
                    (VirtualMachineData::Int(l), VirtualMachineData::Int(r)) => (*l, *r),
                    _ => {
                        return Step::Fault(VmFault::NotAnInteger);
                    },
                };
                match l.checked_add(r) {
                    Some(sum) => {
                        self.write_next(a8, VirtualMachineData::Int(sum));
                        Step::Continue
                    },
                    None => Step::Fault(VmFault::IntegerOverflow),
                }
            },
            Opcode::Cmp => {
                if !self.has_reg(a8) || !self.has_reg(a24) || !self.has_reg(a40) {
                    return Step::Fault(VmFault::RegisterOutOfRange);
                }
                let eq = self.register_file[a40 as usize].data_equal(&self.register_file[a24 as usize]);
                self.write_next(a8, VirtualMachineData::Bool(eq));
                Step::Continue
            },
            _ => {
                if !self.has_reg(a8) || !self.has_reg(a48) {
                    return Step::Fault(VmFault::RegisterOutOfRange);
                }
                let idx = ((b >> 24u64) & 0xffffffu64) as u32;
                let f = match self.data_pool.get(idx) {
                    Some(d) => d.clone_data(),
                    None => {
                        return Step::Fault(VmFault::PoolIndexOutOfRange);
                    },
                };
                match f {
                    VirtualMachineData::RustFnPtr(_) => {},
                    VirtualMachineData::RustFnTrait(_) => {},
                    _ => {
                        return Step::Fault(VmFault::NotANativeFunction);
                    },
                }
                let arg = self.register_file[a48 as usize].clone_data();
                self.pending = Some(a8);
                Step::RustCall { func: f, arg }
            },
        }
    }

    /// Hands the result of the waiting host call to the machine: it goes to
    /// the call's destination register and the machine moves on.
    pub fn resume(&mut self, value: VirtualMachineData) -> (r: Result<(), VmFault>)
        ensures
            match old(self).pending() {
                Some(d) => if Self::reg_ok(*old(self), d) && old(self).counter() < u32::MAX {
                    r is Ok && Self::wrote(*old(self), *final(self), d, value)
                } else {
                    r == Err::<(), VmFault>(VmFault::RegisterOutOfRange) && Self::unchanged(
                        *old(self),
                        *final(self),
                    )
                },
                None => r == Err::<(), VmFault>(VmFault::NotAwaitingResult) && Self::unchanged(
                    *old(self),
                    *final(self),
                ),
            },
    {
        match self.pending {
            Some(d) => {
                if !self.has_reg(d) || self.pc == u32::MAX {
                    return Err(VmFault::RegisterOutOfRange);
                }
                self.write_next(d, value);
                Ok(())
            },
            None => Err(VmFault::NotAwaitingResult),
        }
    }
}

/// A step never changes the program: its bytecode and data pool stay as
/// they were.
pub proof fn law_step_keeps_program(pre: VirtualMachine, post: VirtualMachine, out: Step)
    requires
        VirtualMachine::step_spec(pre, post, out),
    ensures
        post.code() == pre.code(),
        post.pool() == pre.pool(),
        post.regs().len() == pre.regs().len(),
{
}

/// A step that faults, or finds the program over, leaves the machine as it was.
pub proof fn law_fault_leaves_machine_unchanged(pre: VirtualMachine, post: VirtualMachine, out: Step)
    requires
        VirtualMachine::step_spec(pre, post, out),
        out is Fault || out is Halt,
    ensures
        VirtualMachine::unchanged(pre, post),
{
}

/// When no host call is waiting, the machine halts exactly when the
/// program counter has left the bytecode.
pub proof fn law_halt_iff_past_end(pre: VirtualMachine, post: VirtualMachine, out: Step)
    requires
        VirtualMachine::step_spec(pre, post, out),
        pre.pending() is None,
    ensures
        out is Halt <==> pre.counter() as int >= pre.code().len(),
{
}

/// A host call is only ever requested for a host function in the pool, and
/// the machine then waits for its result.
pub proof fn law_host_call_waits(pre: VirtualMachine, post: VirtualMachine, out: Step)
    requires
        VirtualMachine::step_spec(pre, post, out),
        out is RustCall,
    ensures
        post.pending() is Some,
        post.counter() == pre.counter(),
        out->func is RustFnPtr || out->func is RustFnTrait,
        pre.pool().contains(out->func),
{
    let b = pre.code()[pre.counter() as int]@;
    assert(pre.pool()[low24_field(b) as int] == out->func);
}

} // verus!
