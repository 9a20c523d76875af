use parlance::prelude::{print_text, rust_string_value};
use parlance::vm::{
    DataPool, Instruction, Opcode, Step, VirtualMachine, VirtualMachineData, VmFault,
    REGISTER_COUNT,
};

fn run_until_stop(vm: &mut VirtualMachine, limit: usize) -> Step {
    for _ in 0..limit {
        match vm.step() {
            Step::Continue => {}
            other => return other,
        }
    }
    panic!("machine did not stop");
}

fn load(code: Vec<Instruction>, pool: DataPool) -> VirtualMachine {
    VirtualMachine::new().with_load((0, code, pool))
}

#[test]
fn encodings_have_the_documented_layout() {
    assert_eq!(Instruction::goto(0x1234).bits(), 0x1234 << 8);
    assert_eq!(Instruction::mov(3, 4).bits(), 1 | (3 << 8) | (4 << 24));
    assert_eq!(Instruction::ret(7).bits(), 2 | (7 << 8));
    assert_eq!(Instruction::call(1, 9).bits(), 3 | (1 << 8) | (9 << 24));
    assert_eq!(
        Instruction::call_reg(1, 2, 3).bits(),
        4 | (1 << 8) | (2 << 24) | (3 << 40)
    );
    assert_eq!(Instruction::tail_call_reg(5, 6).bits(), 5 | (5 << 8) | (6 << 24));
    assert_eq!(
        Instruction::load_func(1, 20, 2).bits(),
        6 | (1 << 8) | (20 << 24) | (2 << 48)
    );
    assert_eq!(
        Instruction::load_int(2, -1).bits(),
        7 | (2 << 8) | (0xffff_ffffu64 << 24)
    );
    assert_eq!(Instruction::load_str(2, 5).bits(), 8 | (2 << 8) | (5 << 24));
    assert_eq!(
        Instruction::add_int(1, 2, 3).bits(),
        9 | (1 << 8) | (2 << 24) | (3 << 40)
    );
    assert_eq!(Instruction::cmp(1, 2, 3).bits(), 10 | (1 << 8) | (2 << 24) | (3 << 40));
    assert_eq!(Instruction::jmp_eq(4, 12).bits(), 11 | (4 << 8) | (12 << 24));
    assert_eq!(
        Instruction::rust_call(1, 3, 2).bits(),
        12 | (1 << 8) | (3 << 24) | (2 << 48)
    );
}

#[test]
fn opcodes_decode_from_their_low_byte() {
    assert_eq!(Instruction::cmp(1, 2, 3).opcode(), Some(Opcode::Cmp));
    assert_eq!(Instruction::goto(77).opcode(), Some(Opcode::Goto));
    assert_eq!(Instruction::rust_call(0, 0, 0).opcode(), Some(Opcode::RustCall));
    assert_eq!(Opcode::from_code(13), None);
    assert_eq!(Opcode::JmpEq.code(), 11);
}

#[test]
fn new_machine_has_empty_registers() {
    let vm = VirtualMachine::new();
    assert_eq!(vm.program_counter(), 0);
    assert!(matches!(vm.register(0), Some(VirtualMachineData::Nil)));
    assert!(matches!(vm.register((REGISTER_COUNT - 1) as u16), Some(VirtualMachineData::Nil)));
    assert!(vm.register(REGISTER_COUNT as u16).is_none());
}

#[test]
fn adds_integers() {
    let code = vec![
        Instruction::load_int(1, 40),
        Instruction::load_int(2, 2),
        Instruction::add_int(3, 1, 2),
    ];
    let mut vm = load(code, DataPool::new());
    assert!(matches!(run_until_stop(&mut vm, 10), Step::Halt));
    assert!(matches!(vm.register(3), Some(VirtualMachineData::Int(42))));
    assert_eq!(vm.program_counter(), 3);
}

#[test]
fn integer_overflow_is_a_fault() {
    let code = vec![
        Instruction::load_int(1, i32::MAX),
        Instruction::load_int(2, 1),
        Instruction::add_int(3, 1, 2),
    ];
    let mut vm = load(code, DataPool::new());
    assert!(matches!(
        run_until_stop(&mut vm, 10),
        Step::Fault(VmFault::IntegerOverflow)
    ));
    assert_eq!(vm.program_counter(), 2);
}

#[test]
fn calls_return_to_the_caller() {
    // 0: goto 3; 1: load_int r5 7; 2: ret r5; 3: call r6 <- 1; 4: end
    let code = vec![
        Instruction::goto(3),
        Instruction::load_int(5, 7),
        Instruction::ret(5),
        Instruction::call(6, 1),
    ];
    let mut vm = load(code, DataPool::new());
    assert!(matches!(run_until_stop(&mut vm, 20), Step::Halt));
    assert!(matches!(vm.register(6), Some(VirtualMachineData::Int(7))));
}

#[test]
fn compare_and_jump() {
    let code = vec![
        Instruction::load_int(1, 5),
        Instruction::load_int(2, 5),
        Instruction::cmp(3, 1, 2),
        Instruction::jmp_eq(3, 5),
        Instruction::load_int(4, 1),
        Instruction::load_int(4, 2),
    ];
    let mut vm = load(code, DataPool::new());
    assert!(matches!(run_until_stop(&mut vm, 20), Step::Halt));
    assert!(matches!(vm.register(3), Some(VirtualMachineData::Bool(true))));
    assert!(matches!(vm.register(4), Some(VirtualMachineData::Int(2))));
}

#[test]
fn false_condition_does_not_advance() {
    let code = vec![
        Instruction::load_int(1, 5),
        Instruction::load_int(2, 6),
        Instruction::cmp(3, 1, 2),
        Instruction::jmp_eq(3, 0),
    ];
    let mut vm = load(code, DataPool::new());
    for _ in 0..3 {
        assert!(matches!(vm.step(), Step::Continue));
    }
    assert!(matches!(vm.step(), Step::Continue));
    assert_eq!(vm.program_counter(), 3);
    assert!(matches!(vm.step(), Step::Continue));
    assert_eq!(vm.program_counter(), 3);
}

#[test]
fn strings_come_from_the_pool() {
    let mut pool = DataPool::new();
    pool.push(VirtualMachineData::StrPtr("hi".to_string()));
    let mut vm = load(vec![Instruction::load_str(1, 0), Instruction::load_str(2, 1)], pool);
    assert!(matches!(vm.step(), Step::Continue));
    match vm.register(1) {
        Some(VirtualMachineData::StrPtr(s)) => assert_eq!(s, "hi"),
        other => panic!("unexpected {other:?}"),
    }
    assert!(matches!(vm.step(), Step::Fault(VmFault::PoolIndexOutOfRange)));
}

#[test]
fn host_calls_wait_for_their_result() {
    let mut pool = DataPool::new();
    pool.push(VirtualMachineData::RustFnPtr(9));
    let code = vec![Instruction::load_int(1, 3), Instruction::rust_call(2, 0, 1)];
    let mut vm = load(code, pool);
    assert!(matches!(vm.step(), Step::Continue));
    match vm.step() {
        Step::RustCall { func, arg } => {
            assert!(matches!(func, VirtualMachineData::RustFnPtr(9)));
            assert!(matches!(arg, VirtualMachineData::Int(3)));
        }
        other => panic!("unexpected {other:?}"),
    }
    assert!(matches!(vm.step(), Step::Fault(VmFault::AwaitingNativeResult)));
    assert!(vm.resume(VirtualMachineData::Int(4)).is_ok());
    assert!(matches!(vm.register(2), Some(VirtualMachineData::Int(4))));
    assert_eq!(vm.resume(VirtualMachineData::Nil), Err(VmFault::NotAwaitingResult));
    assert!(matches!(vm.step(), Step::Halt));
}

#[test]
fn returning_without_a_caller_is_a_fault() {
    let mut vm = load(vec![Instruction::ret(0)], DataPool::new());
    assert!(matches!(vm.step(), Step::Fault(VmFault::EmptyCallStack)));
    assert_eq!(vm.program_counter(), 0);
}

#[test]
fn bad_opcode_and_register_are_faults() {
    let mut vm = load(vec![Instruction::mov(300, 1)], DataPool::new());
    assert!(matches!(vm.step(), Step::Fault(VmFault::RegisterOutOfRange)));
    let mut vm = load(vec![Instruction::call_reg(0, 1, 2)], DataPool::new());
    assert!(matches!(vm.step(), Step::Fault(VmFault::NotAFunction)));
}

#[test]
fn data_pool_append_and_len() {
    let mut a = DataPool::new();
    a.push(VirtualMachineData::Int(1));
    let mut b = DataPool::new();
    b.push(VirtualMachineData::Bool(true));
    b.push(VirtualMachineData::Nil);
    a.append(&mut b);
    assert_eq!(a.len(), 3);
    assert_eq!(b.len(), 0);
    assert!(matches!(a.get(1), Some(VirtualMachineData::Bool(true))));
    assert!(a.get(3).is_none());
}

#[test]
fn values_compare_structurally() {
    let a = VirtualMachineData::StrPtr("x".to_string());
    let b = VirtualMachineData::StrPtr("x".to_string());
    assert!(a.data_equal(&b));
    assert!(!VirtualMachineData::Int(1).data_equal(&VirtualMachineData::Int(2)));
    assert!(VirtualMachineData::RustFnTrait(1).data_equal(&VirtualMachineData::RustFnTrait(2)));
    assert!(!VirtualMachineData::RustFnPtr(1).data_equal(&VirtualMachineData::RustFnPtr(2)));
}

#[test]
fn rust_string_passes_strings_and_names_other_values() {
    assert!(matches!(
        rust_string_value(VirtualMachineData::StrPtr("hi".to_string())),
        Ok(VirtualMachineData::StrPtr(s)) if s == "hi"
    ));
    assert_eq!(rust_string_value(VirtualMachineData::Int(3)).unwrap_err(), "expected string, found Int(3)");
    assert_eq!(print_text(&VirtualMachineData::StrPtr("a b".to_string())), "a b");
    assert_eq!(print_text(&VirtualMachineData::Bool(true)), "Bool(true)");
    assert_eq!(
        print_text(&VirtualMachineData::FuncPtr { pc: 4, param_register: 2 }),
        "FuncPtr { pc: 4, param_register: 2 }"
    );
}
