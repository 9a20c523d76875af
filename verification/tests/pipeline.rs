use parlance::compiler::{new_compiler, Allocator, CompileObject, Compiler, Function};
use parlance::flattener::{Flatten, FlattenValue, FlattenValueKind};
use parlance::names::IndexMap;
use parlance::diagnostics::Span;
use parlance::prelude::{self as builtins, Builtin, FnBuilder, PRINT_NATIVE};
use parlance::stdlib::Print;
use parlance::vm::{Instruction, Step, VirtualMachine, VirtualMachineData};

fn arena(kinds: Vec<FlattenValueKind>) -> CompileObject {
    let file = kinds
        .into_iter()
        .map(|kind| FlattenValue { span: Span::zero(), kind })
        .collect();
    CompileObject::new(Flatten { file, bindings: IndexMap::new() })
}

/// Runs `main` until its first host call and returns that call's argument.
fn first_host_call(source: &str) -> VirtualMachineData {
    let object = new_compiler().compile_source(source).expect("compiles");
    let program = object.build_binding("main").expect("main is bound");
    let mut vm = VirtualMachine::new().with_load(program);
    for _ in 0..10_000 {
        match vm.step() {
            Step::Continue => {}
            Step::RustCall { func, arg } => {
                assert!(matches!(func, VirtualMachineData::RustFnPtr(PRINT_NATIVE)));
                return arg;
            }
            other => panic!("machine stopped with {other:?}"),
        }
    }
    panic!("no host call");
}

#[test]
fn allocator_hands_out_and_takes_back() {
    let mut a = Allocator::new();
    assert_eq!(a.allocate().ok(), Some(0));
    assert_eq!(a.allocate().ok(), Some(1));
    a.free(1);
    assert_eq!(a.register, 1);
    a.free(10);
    assert_eq!(a.register, 0);
}

#[test]
fn allocator_runs_out() {
    let mut a = Allocator::new();
    a.register = u16::MAX;
    let err = a.allocate().err().expect("no register left");
    assert_eq!(err.message, "overflow register alloc");
    assert_eq!(a.register, u16::MAX);
}

#[test]
fn integer_slot_is_one_load() {
    let mut object = arena(vec![FlattenValueKind::Int(42)]);
    let (reg, code) = object.alloc_value(0).expect("compiles");
    assert_eq!(reg, 0);
    assert_eq!(code.len(), 1);
    assert_eq!(code[0].bits(), Instruction::load_int(0, 42).bits());
    let (again, code) = object.alloc_value(0).expect("compiles");
    assert_eq!(again, 0);
    assert!(code.is_empty());
}

#[test]
fn missing_slot_is_an_error() {
    let mut object = arena(vec![FlattenValueKind::Int(1)]);
    let err = object.alloc_value(5).err().expect("slot 5 does not exist");
    assert_eq!(err.message, "not found value 5");
}

#[test]
fn strings_are_pooled_once() {
    let mut object = arena(vec![
        FlattenValueKind::String("hi".to_string()),
        FlattenValueKind::String("hi".to_string()),
    ]);
    let (r0, c0) = object.alloc_value(0).unwrap();
    let (r1, c1) = object.alloc_value(1).unwrap();
    assert_eq!((r0, r1), (0, 1));
    assert_eq!(c0[0].bits(), Instruction::load_str(0, 0).bits());
    assert_eq!(c1[0].bits(), Instruction::load_str(1, 0).bits());
    assert_eq!(object.data_pool.len(), 1);
}

#[test]
fn functions_go_to_the_function_area() {
    // slot 0: \x -> x, with x in slot 1
    let mut object = arena(vec![
        FlattenValueKind::Function { param: 1, body: 2 },
        FlattenValueKind::Unset,
        FlattenValueKind::Variable(1),
    ]);
    let (reg, code) = object.alloc_value(0).unwrap();
    assert_eq!(reg, 1);
    assert_eq!(code.len(), 1);
    assert_eq!(code[0].bits(), Instruction::load_func(1, 0, 0).bits());
    assert_eq!(object.function_bytecode.len(), 1);
    assert_eq!(object.function_bytecode[0].bits(), Instruction::ret(0).bits());
}

#[test]
fn unknown_binding_is_reported() {
    let object = new_compiler().compile_source("main = 1\n").unwrap();
    let err = object.build_binding("nope").err().expect("not bound");
    assert_eq!(err.message, "not found binding 'nope'");
}

#[test]
fn prints_a_constant() {
    let arg = first_host_call("main = prelude::io::print 42\n");
    assert!(matches!(arg, VirtualMachineData::Int(42)));
}

#[test]
fn prints_a_string() {
    match first_host_call("main = prelude::io::print \"hello\"\n") {
        VirtualMachineData::StrPtr(s) => assert_eq!(s, "hello"),
        other => panic!("unexpected {other:?}"),
    }
}

#[test]
fn adds_through_the_builtin() {
    let arg = first_host_call("main = prelude::io::print (prelude::math::add 40 2)\n");
    assert!(matches!(arg, VirtualMachineData::Int(42)));
}

#[test]
fn user_functions_are_called() {
    let arg = first_host_call("twice x = prelude::math::add x x\nmain = prelude::io::print (twice 21)\n");
    assert!(matches!(arg, VirtualMachineData::Int(42)));
}

#[test]
fn builtin_names() {
    assert_eq!(builtins::controll_cmp().name, "prelude::controll::cmp");
    assert_eq!(builtins::controll_if().name, "prelude::controll::if");
    assert_eq!(builtins::add().name, "prelude::math::add");
    assert_eq!(builtins::print().name, "prelude::io::print");
    assert_eq!(builtins::rust_string().name, "prelude::ffi::rust_string");
    assert_eq!(builtins::pair().name, "std::church::pair");
    assert_eq!(builtins::first().name, "std::church::first");
    assert_eq!(builtins::second().name, "std::church::second");
    assert_eq!(Print.bytecode_function().name, "print");
    assert_eq!(Print.bytecode_function().build, Builtin::IoPrint);
}

#[test]
fn cmp_builtin_bytecode() {
    let mut object = arena(vec![FlattenValueKind::Unset]);
    object.allocator.register = 10;
    let func = Function { param_register: 3, pc: 100 };
    let code = Builtin::ControllCmp.build(&mut object, func).unwrap();
    let bits: Vec<u64> = code.iter().map(|i| i.bits()).collect();
    assert_eq!(
        bits,
        vec![
            Instruction::load_func(11, 102, 10).bits(),
            Instruction::ret(11).bits(),
            Instruction::cmp(12, 3, 10).bits(),
            Instruction::ret(12).bits(),
        ]
    );
    assert_eq!(object.allocator.register, 13);
}

#[test]
fn if_builtin_layout() {
    let mut object = arena(vec![FlattenValueKind::Unset]);
    let func = Function { param_register: 0, pc: 0 };
    object.allocator.register = 1;
    let code = Builtin::ControllIf.build(&mut object, func).unwrap();
    assert_eq!(code.len(), 7);
    assert_eq!(code[4].bits(), Instruction::jmp_eq(0, 5).bits());
    assert_eq!(code[5].bits(), Instruction::ret(3).bits());
    assert_eq!(code[6].bits(), Instruction::ret(1).bits());
}

#[test]
fn print_builtin_registers_its_host_function() {
    let mut object = arena(vec![FlattenValueKind::Unset]);
    let func = Function { param_register: 0, pc: 0 };
    object.allocator.register = 1;
    let code = Builtin::IoPrint.build(&mut object, func).unwrap();
    assert_eq!(code[0].bits(), Instruction::rust_call(1, 0, 0).bits());
    assert_eq!(code[1].bits(), Instruction::ret(1).bits());
    assert!(matches!(object.data_pool.get(0), Some(VirtualMachineData::RustFnPtr(0))));
}

#[test]
fn church_pair_bytecode() {
    let mut object = arena(vec![FlattenValueKind::Unset]);
    let func = Function { param_register: 0, pc: 10 };
    object.allocator.register = 1;
    let code = Builtin::ChurchPair.build(&mut object, func).unwrap();
    let bits: Vec<u64> = code.iter().map(|i| i.bits()).collect();
    assert_eq!(
        bits,
        vec![
            Instruction::load_func(3, 12, 1).bits(),
            Instruction::ret(3).bits(),
            Instruction::load_func(4, 14, 2).bits(),
            Instruction::ret(4).bits(),
            Instruction::call_reg(5, 2, 0).bits(),
            Instruction::call_reg(6, 5, 1).bits(),
            Instruction::ret(6).bits(),
        ]
    );
}

#[test]
fn church_projections_differ_in_the_last_return() {
    let mut a = arena(vec![FlattenValueKind::Unset]);
    let mut b = arena(vec![FlattenValueKind::Unset]);
    let func = Function { param_register: 0, pc: 0 };
    a.allocator.register = 1;
    b.allocator.register = 1;
    let first = Builtin::ChurchFirst.build(&mut a, func).unwrap();
    let second = Builtin::ChurchSecond.build(&mut b, func).unwrap();
    assert_eq!(first.len(), 6);
    assert_eq!(first[5].bits(), Instruction::ret(1).bits());
    assert_eq!(second[5].bits(), Instruction::ret(2).bits());
}

#[test]
fn fn_builder_curries_parameters() {
    let mut object = arena(vec![FlattenValueKind::Unset]);
    let mut builder = FnBuilder::new(&mut object, Function { param_register: 0, pc: 4 });
    let p = builder.alloc_param().unwrap();
    builder.emit(Instruction::ret(p));
    let code = builder.build();
    assert_eq!(code.len(), 3);
    assert_eq!(code[0].bits(), Instruction::load_func(1, 6, 0).bits());
    assert_eq!(object.allocator.register, 2);
}

#[test]
fn compiler_keeps_externs_and_builtins() {
    let mut compiler = Compiler::new();
    compiler.add_extern("std", "/lib/std");
    compiler.insert_bytecode_function(builtins::controll_cmp());
    assert_eq!(compiler.bytecode_functions.len(), 1);
    let object = compiler.compile_source("main = prelude::controll::cmp 1 1\n").unwrap();
    assert_eq!(object.function_bytecode.len(), 4);
}

#[test]
fn parse_errors_are_reported() {
    let err = new_compiler().compile_source("main = \"open\n").err().expect("unterminated string");
    assert!(!err.message.is_empty());
}

#[test]
fn a_missing_binding_is_reported_by_name() {
    let object = parlance::compiler::CompileObject::new(parlance::flattener::Flattener::new().flatten(Vec::new()).unwrap());
    let err = object.build_binding("main").unwrap_err();
    assert_eq!(err.message, "not found binding 'main'");
}
