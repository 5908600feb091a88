//! The code that instrumentation writes, instruction by instruction.
use wasm_hooks::add_hooks::{add_hooks, is_instrumentable, Instrumentation};
use wasm_hooks::ast::{
    BlockType, Code, Function, FunctionIdx, FunctionType, Global, GlobalIdx, GlobalOp, GlobalType, Instr,
    InstrIdx, Label, LocalIdx, LocalOp, Memarg, MemoryIdx, Module, Mutability, Table, TableIdx, Val, ValType,
};
use wasm_hooks::ops::{LoadOp, NumericOp, StoreOp};
use wasm_hooks::static_info::{BrTableInfo, LabelAndLocation, Location};

fn i32_const(value: i32) -> Instr {
    Instr::Const(Val::I32(value))
}

fn call(index: usize) -> Instr {
    Instr::Call(FunctionIdx(index))
}

fn get(local: usize) -> Instr {
    Instr::Local(LocalOp::GetLocal, LocalIdx(local))
}

fn set_local(local: usize) -> Instr {
    Instr::Local(LocalOp::SetLocal, LocalIdx(local))
}

fn tee(local: usize) -> Instr {
    Instr::Local(LocalOp::TeeLocal, LocalIdx(local))
}

fn function(params: Vec<ValType>, results: Vec<ValType>, locals: Vec<ValType>, body: Vec<Instr>) -> Function {
    Function {
        type_: FunctionType { params, results },
        import: None,
        export: None,
        code: Some(Code { locals, body }),
    }
}

fn module(functions: Vec<Function>) -> Module {
    Module { functions, tables: vec![], globals: vec![], start: None }
}

/// Instruments a module with a single function without parameters and results and returns the
/// instructions that stand for those of its body, without those for the entry and for the end.
fn instrumented(body: Vec<Instr>) -> (Vec<Instr>, Vec<ValType>, Vec<String>) {
    let mut module = module(vec![function(vec![], vec![], vec![], body)]);
    assert!(is_instrumentable(&module));
    add_hooks(&mut module);
    let names: Vec<String> = hook_names(&module, 1);
    let code = module.functions.remove(0).code.unwrap();
    let mut body = code.body;
    // begin_function
    body.drain(..3);
    // end_function and the implicit return
    let len = body.len();
    body.drain(len - 7..);
    (body, code.locals, names)
}

fn hook_names(module: &Module, first: usize) -> Vec<String> {
    let mut names: Vec<String> = Vec::new();
    for function in &module.functions[first..] {
        let (from, name) = function.import.as_ref().unwrap();
        assert_eq!(from, "__wasabi_hooks");
        names.push(name.clone());
    }
    names
}

#[test]
fn entry_nop_and_implicit_return() {
    let mut module = module(vec![function(vec![], vec![], vec![], vec![Instr::Nop, Instr::End])]);
    let out = add_hooks(&mut module);
    assert_eq!(
        module.functions[0].code.as_ref().unwrap().body,
        vec![
            i32_const(0),
            i32_const(-1),
            call(1),
            i32_const(0),
            i32_const(0),
            call(2),
            i32_const(0),
            i32_const(1),
            call(3),
            i32_const(0),
            i32_const(-1),
            call(4),
            Instr::End,
        ]
    );
    assert_eq!(hook_names(&module, 1), vec!["begin_function", "nop", "end_function", "return"]);
    for hook in &module.functions[1..] {
        assert_eq!(hook.type_.params, vec![ValType::I32, ValType::I32]);
        assert!(hook.type_.results.is_empty());
        assert!(hook.code.is_none());
    }
    assert_eq!(
        out.js_hooks[1],
        "\"nop\": function (func, instr) {\n    Wasabi.analysis(\"nop\", {func, instr}, []);\n},"
    );
}

#[test]
fn explicit_return_is_not_reported_twice() {
    let body = vec![Instr::Const(Val::I64(7)), Instr::Return, Instr::End];
    let mut module = module(vec![function(vec![], vec![ValType::I64], vec![], body)]);
    add_hooks(&mut module);
    let code = module.functions[0].code.as_ref().unwrap();
    assert_eq!(code.locals, vec![ValType::I64]);
    let ends = code.body.iter().filter(|instr| **instr == Instr::End).count();
    assert_eq!(ends, 1);
    assert_eq!(
        code.body[code.body.len() - 15..],
        vec![
            // return
            tee(0),
            i32_const(0),
            i32_const(1),
            get(0),
            Instr::Numeric(NumericOp::I32WrapI64),
            get(0),
            Instr::Const(Val::I64(32)),
            Instr::Numeric(NumericOp::I64ShrS),
            Instr::Numeric(NumericOp::I32WrapI64),
            call(3),
            Instr::Return,
            // end
            i32_const(0),
            i32_const(2),
            call(4),
            Instr::End,
        ]
    );
    assert_eq!(
        hook_names(&module, 1),
        vec!["begin_function", "i64.const", "return_i64", "end_function"]
    );
    assert_eq!(
        module.functions[3].type_.params,
        vec![ValType::I32, ValType::I32, ValType::I32, ValType::I32]
    );
}

#[test]
fn implicit_return_reports_the_results() {
    let body = vec![i32_const(5), Instr::End];
    let mut module = module(vec![function(vec![ValType::F64], vec![ValType::I32], vec![], body)]);
    add_hooks(&mut module);
    let code = module.functions[0].code.as_ref().unwrap();
    assert_eq!(code.locals, vec![ValType::I32]);
    assert_eq!(
        code.body[code.body.len() - 6..],
        vec![tee(1), i32_const(0), i32_const(-1), get(1), call(4), Instr::End]
    );
    assert_eq!(hook_names(&module, 1)[3], "return_i32");
}

#[test]
fn unreachable_is_reported_before_it_traps() {
    let (body, locals, names) = instrumented(vec![Instr::Unreachable, Instr::End]);
    assert_eq!(body, vec![i32_const(0), i32_const(0), call(2), Instr::Unreachable]);
    assert!(locals.is_empty());
    assert_eq!(names[1], "unreachable");
}

#[test]
fn blocks_and_loops() {
    let (body, locals, names) = instrumented(vec![
        Instr::Block(BlockType(None)),
        Instr::Loop(BlockType(None)),
        Instr::End,
        Instr::End,
        Instr::End,
    ]);
    assert_eq!(
        body,
        vec![
            Instr::Block(BlockType(None)),
            i32_const(0),
            i32_const(0),
            call(2),
            Instr::Loop(BlockType(None)),
            i32_const(0),
            i32_const(1),
            call(3),
            // end of the loop, which began at 1
            i32_const(0),
            i32_const(2),
            i32_const(1),
            call(4),
            Instr::End,
            // end of the block, which began at 0
            i32_const(0),
            i32_const(3),
            i32_const(0),
            call(5),
            Instr::End,
        ]
    );
    assert!(locals.is_empty());
    assert_eq!(
        names,
        vec![
            "begin_function",
            "begin_block",
            "begin_loop",
            "end_loop",
            "end_block",
            "end_function",
            "return"
        ]
    );
}

#[test]
fn if_and_else() {
    let (body, locals, names) = instrumented(vec![
        i32_const(1),
        Instr::If(BlockType(None)),
        Instr::Nop,
        Instr::Else,
        Instr::Nop,
        Instr::End,
        Instr::End,
    ]);
    assert_eq!(
        body[5..],
        vec![
            tee(0),
            i32_const(0),
            i32_const(1),
            get(0),
            call(3),
            Instr::If(BlockType(None)),
            i32_const(0),
            i32_const(1),
            call(4),
            i32_const(0),
            i32_const(2),
            call(5),
            // else: the first branch ends, the second begins
            i32_const(0),
            i32_const(3),
            i32_const(1),
            call(6),
            Instr::Else,
            i32_const(0),
            i32_const(3),
            i32_const(1),
            call(7),
            i32_const(0),
            i32_const(4),
            call(5),
            // end
            i32_const(0),
            i32_const(5),
            i32_const(1),
            i32_const(3),
            call(8),
            Instr::End,
        ]
    );
    assert_eq!(locals, vec![ValType::I32]);
    assert_eq!(
        names[1..8],
        vec!["i32.const", "if", "begin_if", "nop", "end_if", "begin_else", "end_else"]
    );
}

#[test]
fn branches() {
    let (body, locals, names) = instrumented(vec![
        Instr::Block(BlockType(None)),
        Instr::Loop(BlockType(None)),
        i32_const(0),
        Instr::BrIf(Label(1)),
        Instr::Br(Label(0)),
        Instr::End,
        Instr::End,
        Instr::End,
    ]);
    // begin_block, begin_loop and the constant come first
    assert_eq!(
        body[4 + 4 + 5..4 + 4 + 5 + 14],
        vec![
            tee(0),
            i32_const(0),
            i32_const(3),
            i32_const(1),
            // behind the end of the block
            i32_const(7),
            get(0),
            call(5),
            Instr::BrIf(Label(1)),
            i32_const(0),
            i32_const(4),
            i32_const(0),
            // the first instruction of the loop
            i32_const(2),
            call(6),
            Instr::Br(Label(0)),
        ]
    );
    assert_eq!(locals, vec![ValType::I32]);
    assert_eq!(names[4..6], vec!["br_if", "br"]);
}

#[test]
fn br_tables_get_entries_of_their_own() {
    let target = |func: usize, label: usize, instr: usize| LabelAndLocation {
        label: Label(label),
        location: Location { func: FunctionIdx(func), instr: InstrIdx(instr) },
    };
    let first = vec![
        Instr::Block(BlockType(None)),
        i32_const(0),
        Instr::BrTable(vec![Label(0), Label(1)], Label(0)),
        Instr::End,
        Instr::End,
    ];
    let second = vec![i32_const(0), Instr::BrTable(vec![], Label(0)), Instr::End];
    let mut module = module(vec![
        function(vec![], vec![], vec![], first),
        function(vec![], vec![], vec![], second),
    ]);
    let out = add_hooks(&mut module);
    assert_eq!(
        out.info.br_tables,
        vec![
            BrTableInfo {
                table: vec![target(0, 0, 4), target(0, 1, 5)],
                default: target(0, 0, 4),
            },
            BrTableInfo { table: vec![], default: target(1, 0, 3) },
        ]
    );
    let hook = 2 + hook_names(&module, 2).iter().position(|name| name == "br_table").unwrap();
    let expected = |func: i32, at: i32, number: i32| {
        vec![tee(0), i32_const(func), i32_const(at), i32_const(number), get(0), call(hook)]
    };
    let body = &module.functions[0].code.as_ref().unwrap().body;
    assert_eq!(body[3 + 4 + 5..3 + 4 + 5 + 6], expected(0, 2, 0));
    assert_eq!(body[3 + 4 + 5 + 6], Instr::BrTable(vec![Label(0), Label(1)], Label(0)));
    let body = &module.functions[1].code.as_ref().unwrap().body;
    assert_eq!(body[3 + 5..3 + 5 + 6], expected(1, 1, 1));
}

#[test]
fn direct_calls() {
    let callee = function(
        vec![ValType::I32, ValType::F32],
        vec![ValType::F64],
        vec![],
        vec![Instr::Const(Val::F64(0)), Instr::End],
    );
    let caller = function(
        vec![],
        vec![],
        vec![ValType::I64],
        vec![i32_const(1), Instr::Const(Val::F32(0)), call(0), Instr::Drop, Instr::End],
    );
    let mut module = module(vec![callee, caller]);
    add_hooks(&mut module);
    let names = hook_names(&module, 2);
    let hook = |name: &str| call(2 + names.iter().position(|other| other == name).unwrap());
    let code = module.functions[1].code.as_ref().unwrap();
    assert_eq!(
        code.locals,
        vec![ValType::I64, ValType::I32, ValType::F32, ValType::F64, ValType::F64]
    );
    assert_eq!(
        code.body[3 + 5 + 5..3 + 5 + 5 + 20],
        vec![
            // the arguments are saved
            set_local(2),
            tee(1),
            get(2),
            // and reported with the callee
            i32_const(1),
            i32_const(2),
            i32_const(0),
            get(1),
            get(2),
            hook("call_i32_f32"),
            call(0),
            // so is the result
            tee(3),
            i32_const(1),
            i32_const(2),
            get(3),
            hook("call_post_f64"),
            // drop
            set_local(4),
            i32_const(1),
            i32_const(3),
            get(4),
            hook("drop_f64"),
        ]
    );
}

#[test]
fn indirect_calls() {
    let callee = || FunctionType { params: vec![ValType::I64], results: vec![ValType::I32] };
    let body = vec![
        Instr::Const(Val::I64(1)),
        i32_const(2),
        Instr::CallIndirect(callee(), TableIdx(0)),
        Instr::Drop,
        Instr::End,
    ];
    let (body, locals, names) = instrumented(body);
    assert_eq!(locals[..3], vec![ValType::I32, ValType::I64, ValType::I32]);
    let constant = 1 + 2 + 6 + 1;
    assert_eq!(
        body[constant + 5..constant + 5 + 20],
        vec![
            set_local(0),
            tee(1),
            get(0),
            i32_const(0),
            i32_const(2),
            get(0),
            get(1),
            Instr::Numeric(NumericOp::I32WrapI64),
            get(1),
            Instr::Const(Val::I64(32)),
            Instr::Numeric(NumericOp::I64ShrS),
            Instr::Numeric(NumericOp::I32WrapI64),
            call(4),
            Instr::CallIndirect(callee(), TableIdx(0)),
            tee(2),
            i32_const(0),
            i32_const(2),
            get(2),
            call(5),
            set_local(3),
        ]
    );
    assert_eq!(names[3..5], vec!["call_indirect_i64", "call_post_i32"]);
}

#[test]
fn select_is_reported_with_its_type() {
    let (body, locals, names) = instrumented(vec![
        Instr::Const(Val::F64(1)),
        Instr::Const(Val::F64(2)),
        i32_const(0),
        Instr::Select,
        Instr::Drop,
        Instr::End,
    ]);
    assert_eq!(locals[..3], vec![ValType::I32, ValType::F64, ValType::F64]);
    assert_eq!(
        body[15..15 + 12],
        vec![
            set_local(0),
            set_local(2),
            tee(1),
            get(2),
            get(0),
            Instr::Select,
            i32_const(0),
            i32_const(3),
            get(0),
            get(1),
            get(2),
            call(4),
        ]
    );
    assert_eq!(names[3..5], vec!["select_f64_f64", "drop_f64"]);
}

#[test]
fn drop_behind_an_if_has_the_type_of_its_operand() {
    let (body, locals, names) = instrumented(vec![
        Instr::Const(Val::I64(5)),
        i32_const(1),
        Instr::If(BlockType(None)),
        Instr::End,
        Instr::Drop,
        Instr::End,
    ]);
    assert_eq!(locals, vec![ValType::I32, ValType::I64]);
    assert_eq!(
        body[body.len() - 10..],
        vec![
            set_local(1),
            i32_const(0),
            i32_const(4),
            get(1),
            Instr::Numeric(NumericOp::I32WrapI64),
            get(1),
            Instr::Const(Val::I64(32)),
            Instr::Numeric(NumericOp::I64ShrS),
            Instr::Numeric(NumericOp::I32WrapI64),
            call(7),
        ]
    );
    assert_eq!(names[6], "drop_i64");
}

#[test]
fn select_behind_an_if_has_the_type_of_its_operands() {
    let (_, locals, names) = instrumented(vec![
        Instr::Const(Val::F32(1)),
        Instr::Const(Val::F32(2)),
        i32_const(0),
        i32_const(1),
        Instr::If(BlockType(None)),
        Instr::End,
        Instr::Select,
        Instr::Drop,
        Instr::End,
    ]);
    assert_eq!(locals, vec![ValType::I32, ValType::I32, ValType::F32, ValType::F32, ValType::F32]);
    assert!(names.contains(&"select_f32_f32".to_string()));
    assert!(names.contains(&"drop_f32".to_string()));
}

#[test]
fn drop_behind_an_if_with_both_branches() {
    let (_, locals, names) = instrumented(vec![
        Instr::Const(Val::I64(5)),
        i32_const(1),
        Instr::If(BlockType(Some(ValType::F64))),
        Instr::Const(Val::F64(1)),
        Instr::Else,
        Instr::Const(Val::F64(2)),
        Instr::End,
        Instr::Drop,
        Instr::Drop,
        Instr::End,
    ]);
    assert_eq!(locals, vec![ValType::I32, ValType::F64, ValType::I64]);
    let position = |name: &str| names.iter().position(|other| other == name).unwrap();
    assert!(position("drop_f64") < position("drop_i64"));
}

#[test]
fn drop_behind_an_indirect_call_has_the_type_of_its_operand() {
    let nothing = || FunctionType { params: vec![], results: vec![] };
    let (_, locals, names) = instrumented(vec![
        Instr::Const(Val::I64(5)),
        i32_const(0),
        Instr::CallIndirect(nothing(), TableIdx(0)),
        Instr::Drop,
        Instr::End,
    ]);
    assert_eq!(locals, vec![ValType::I32, ValType::I64]);
    assert!(names.contains(&"drop_i64".to_string()));
    // with arguments and a result
    let some = || FunctionType { params: vec![ValType::F32, ValType::F64], results: vec![ValType::I32] };
    let (_, locals, names) = instrumented(vec![
        Instr::Const(Val::I64(5)),
        Instr::Const(Val::F32(0)),
        Instr::Const(Val::F64(0)),
        i32_const(0),
        Instr::CallIndirect(some(), TableIdx(0)),
        Instr::Drop,
        Instr::Drop,
        Instr::End,
    ]);
    assert_eq!(
        locals,
        vec![
            ValType::I32,
            ValType::F32,
            ValType::F64,
            ValType::I32,
            ValType::I32,
            ValType::I64
        ]
    );
    let position = |name: &str| names.iter().position(|other| other == name).unwrap();
    assert!(position("drop_i32") < position("drop_i64"));
}

#[test]
fn variables() {
    let body = vec![
        get(0),
        set_local(1),
        Instr::Global(GlobalOp::GetGlobal, GlobalIdx(0)),
        Instr::Global(GlobalOp::SetGlobal, GlobalIdx(0)),
        Instr::End,
    ];
    let mut module = module(vec![function(vec![ValType::F32], vec![], vec![ValType::F32], body)]);
    module.globals.push(Global {
        type_: GlobalType(ValType::I32, Mutability::Mut),
        init: Some(vec![i32_const(3), Instr::End]),
        import: None,
        export: None,
    });
    let out = add_hooks(&mut module);
    assert_eq!(out.info.globals, vec![ValType::I32]);
    assert_eq!(module.globals.len(), 2);
    let code = module.functions[0].code.as_ref().unwrap();
    let global = || Instr::Global(GlobalOp::GetGlobal, GlobalIdx(0));
    assert_eq!(
        code.body[3..3 + 24],
        vec![
            get(0),
            i32_const(0),
            i32_const(0),
            i32_const(0),
            get(0),
            call(2),
            set_local(1),
            i32_const(0),
            i32_const(1),
            i32_const(1),
            get(1),
            call(3),
            global(),
            i32_const(0),
            i32_const(2),
            i32_const(0),
            global(),
            call(4),
            Instr::Global(GlobalOp::SetGlobal, GlobalIdx(0)),
            i32_const(0),
            i32_const(3),
            i32_const(0),
            global(),
            call(5),
        ]
    );
    assert_eq!(
        hook_names(&module, 1)[1..5],
        vec!["get_local_f32", "set_local_f32", "get_global_i32", "set_global_i32"]
    );
    assert_eq!(code.locals, vec![ValType::F32]);
}

#[test]
fn memory_size_and_grow() {
    let (body, locals, names) = instrumented(vec![
        Instr::MemorySize(MemoryIdx(0)),
        Instr::MemoryGrow(MemoryIdx(0)),
        Instr::Drop,
        Instr::End,
    ]);
    assert_eq!(
        body[..13],
        vec![
            Instr::MemorySize(MemoryIdx(0)),
            i32_const(0),
            i32_const(0),
            Instr::MemorySize(MemoryIdx(0)),
            call(2),
            tee(0),
            Instr::MemoryGrow(MemoryIdx(0)),
            tee(1),
            i32_const(0),
            i32_const(1),
            get(0),
            get(1),
            call(3),
        ]
    );
    assert_eq!(locals, vec![ValType::I32, ValType::I32, ValType::I32]);
    assert_eq!(names[1..4], vec!["memory_size", "memory_grow", "drop_i32"]);
}

#[test]
fn loads_and_stores() {
    let memarg = Memarg { alignment: 3, offset: 16 };
    let (body, locals, names) = instrumented(vec![
        i32_const(8),
        i32_const(4),
        Instr::Load(LoadOp::I64Load, memarg),
        Instr::Store(StoreOp::I64Store, memarg),
        Instr::End,
    ]);
    let halves = |local: usize| {
        vec![
            get(local),
            Instr::Numeric(NumericOp::I32WrapI64),
            get(local),
            Instr::Const(Val::I64(32)),
            Instr::Numeric(NumericOp::I64ShrS),
            Instr::Numeric(NumericOp::I32WrapI64),
        ]
    };
    let mut expected = vec![
        tee(0),
        Instr::Load(LoadOp::I64Load, memarg),
        tee(1),
        i32_const(0),
        i32_const(2),
        i32_const(16),
        i32_const(3),
        get(0),
    ];
    expected.append(&mut halves(1));
    expected.append(&mut vec![
        call(3),
        set_local(3),
        tee(2),
        get(3),
        Instr::Store(StoreOp::I64Store, memarg),
        i32_const(0),
        i32_const(3),
        i32_const(16),
        i32_const(3),
        get(2),
    ]);
    expected.append(&mut halves(3));
    expected.push(call(4));
    assert_eq!(body[10..], expected);
    assert_eq!(locals, vec![ValType::I32, ValType::I64, ValType::I32, ValType::I64]);
    assert_eq!(names[2..4], vec!["i64.load", "i64.store"]);
}

#[test]
fn numeric_operators() {
    let (body, locals, names) = instrumented(vec![
        i32_const(1),
        i32_const(2),
        Instr::Numeric(NumericOp::I32Add),
        Instr::Numeric(NumericOp::F32ConvertI32S),
        Instr::Drop,
        Instr::End,
    ]);
    assert_eq!(
        body[10..10 + 11 + 8],
        vec![
            set_local(1),
            tee(0),
            get(1),
            Instr::Numeric(NumericOp::I32Add),
            tee(2),
            i32_const(0),
            i32_const(2),
            get(0),
            get(1),
            get(2),
            call(3),
            tee(3),
            Instr::Numeric(NumericOp::F32ConvertI32S),
            tee(4),
            i32_const(0),
            i32_const(3),
            get(3),
            get(4),
            call(4),
        ]
    );
    assert_eq!(
        locals,
        vec![ValType::I32, ValType::I32, ValType::I32, ValType::I32, ValType::F32, ValType::F32]
    );
    assert_eq!(names[2..4], vec!["i32.add", "f32.convert_i32_s"]);
}

#[test]
fn constants_are_pushed_again() {
    let (body, _, names) = instrumented(vec![Instr::Const(Val::I64(-5)), Instr::Drop, Instr::End]);
    let constant = || Instr::Const(Val::I64(-5));
    assert_eq!(
        body[..10],
        vec![
            constant(),
            i32_const(0),
            i32_const(0),
            constant(),
            Instr::Numeric(NumericOp::I32WrapI64),
            constant(),
            Instr::Const(Val::I64(32)),
            Instr::Numeric(NumericOp::I64ShrS),
            Instr::Numeric(NumericOp::I32WrapI64),
            call(2),
        ]
    );
    assert_eq!(names[1..3], vec!["i64.const", "drop_i64"]);
}

#[test]
fn start_function_is_guarded() {
    let mut module = module(vec![function(vec![], vec![], vec![], vec![Instr::End])]);
    module.start = Some(FunctionIdx(0));
    let out = add_hooks(&mut module);
    assert_eq!(out.info.start, Some(FunctionIdx(0)));
    assert_eq!(
        module.globals,
        vec![Global {
            type_: GlobalType(ValType::I32, Mutability::Mut),
            init: Some(vec![i32_const(1), Instr::End]),
            import: None,
            export: None,
        }]
    );
    assert_eq!(
        module.functions[0].code.as_ref().unwrap().body[..11],
        vec![
            Instr::Global(GlobalOp::GetGlobal, GlobalIdx(0)),
            Instr::If(BlockType(None)),
            i32_const(0),
            Instr::Global(GlobalOp::SetGlobal, GlobalIdx(0)),
            i32_const(0),
            i32_const(-1),
            call(1),
            Instr::End,
            i32_const(0),
            i32_const(-1),
            call(2),
        ]
    );
    assert_eq!(hook_names(&module, 1)[..2], vec!["start", "begin_function"]);
}

#[test]
fn exports_are_added_where_there_are_none() {
    let mut functions: Vec<Function> = Vec::new();
    for _ in 0..12 {
        functions.push(function(vec![], vec![], vec![], vec![Instr::End]));
    }
    functions[3].export = Some("main".to_string());
    functions[4].code = None;
    functions[4].import = Some(("host".to_string(), "print".to_string()));
    let mut module = module(functions);
    module.tables = vec![Table { export: None }];
    let out: Instrumentation = add_hooks(&mut module);
    let export = |f: usize| module.functions[f].export.clone().unwrap();
    assert_eq!(export(0), "__wasabi_function_0");
    assert_eq!(export(3), "main");
    assert_eq!(export(4), "__wasabi_function_4");
    assert_eq!(export(11), "__wasabi_function_11");
    assert_eq!(module.tables[0].export, Some("__wasabi_table".to_string()));
    // the imported function is left as it is
    assert_eq!(module.functions[4].import, Some(("host".to_string(), "print".to_string())));
    assert!(module.functions[4].code.is_none());
    // the hooks are imported, not exported
    assert!(module.functions[12].export.is_none());
    // and the info knows all that
    assert_eq!(out.info.functions.len(), 12);
    assert_eq!(out.info.functions[3].export, Some("main".to_string()));
    assert_eq!(out.info.functions[11].export, Some("__wasabi_function_11".to_string()));
    assert_eq!(out.info.functions[4].import, Some(("host".to_string(), "print".to_string())));
    assert_eq!(out.info.table_export_name, Some("__wasabi_table".to_string()));
}

#[test]
fn table_export_is_kept() {
    let mut module = module(vec![]);
    module.tables = vec![Table { export: Some("table".to_string()) }];
    let out = add_hooks(&mut module);
    assert_eq!(module.tables[0].export, Some("table".to_string()));
    assert_eq!(out.info.table_export_name, Some("table".to_string()));
    assert!(out.js_hooks.is_empty());
}

#[test]
fn hooks_are_shared() {
    let body = || vec![Instr::Nop, Instr::Nop, Instr::End];
    let mut module = module(vec![
        function(vec![], vec![], vec![], body()),
        function(vec![], vec![], vec![], body()),
    ]);
    let out = add_hooks(&mut module);
    assert_eq!(hook_names(&module, 2), vec!["begin_function", "nop", "end_function", "return"]);
    assert_eq!(out.js_hooks.len(), 4);
    let first = &module.functions[0].code.as_ref().unwrap().body;
    let second = &module.functions[1].code.as_ref().unwrap().body;
    assert_eq!(first[5], call(3));
    assert_eq!(first[8], call(3));
    assert_eq!(second[5], call(3));
}

/// The ways to leave a block for good, each with what it takes and with the number of locals that its
/// own code needs.
fn ways_out() -> Vec<(Vec<Instr>, usize)> {
    vec![
        (vec![Instr::Unreachable], 0),
        (vec![Instr::Br(Label(0))], 0),
        (vec![i32_const(0), Instr::BrTable(vec![Label(0)], Label(0))], 1),
        (vec![Instr::Return], 0),
    ]
}

#[test]
fn unreached_if_needs_no_condition() {
    let (body, locals, names) = instrumented(vec![
        Instr::Unreachable,
        Instr::If(BlockType(None)),
        Instr::End,
        Instr::End,
    ]);
    assert_eq!(
        body,
        vec![
            i32_const(0),
            i32_const(0),
            call(2),
            Instr::Unreachable,
            tee(0),
            i32_const(0),
            i32_const(1),
            get(0),
            call(3),
            Instr::If(BlockType(None)),
            i32_const(0),
            i32_const(1),
            call(4),
            i32_const(0),
            i32_const(2),
            i32_const(1),
            call(5),
            Instr::End,
        ]
    );
    assert_eq!(locals, vec![ValType::I32]);
    assert_eq!(names[1..5], vec!["unreachable", "if", "begin_if", "end_if"]);
    for (mut body, count) in ways_out() {
        body.extend(vec![Instr::If(BlockType(None)), Instr::Else, Instr::End, Instr::End]);
        let (_, locals, _) = instrumented(body);
        assert_eq!(locals, vec![ValType::I32; count + 1]);
    }
}

#[test]
fn unreached_indirect_call_needs_no_index() {
    let nothing = || FunctionType { params: vec![], results: vec![] };
    let mut module = module(vec![function(
        vec![],
        vec![],
        vec![],
        vec![Instr::Unreachable, Instr::CallIndirect(nothing(), TableIdx(0)), Instr::End],
    )]);
    module.tables = vec![Table { export: None }];
    assert!(is_instrumentable(&module));
    add_hooks(&mut module);
    let code = module.functions[0].code.as_ref().unwrap();
    assert_eq!(
        code.body[3..15],
        vec![
            i32_const(0),
            i32_const(0),
            call(2),
            Instr::Unreachable,
            set_local(0),
            get(0),
            i32_const(0),
            i32_const(1),
            get(0),
            call(3),
            Instr::CallIndirect(nothing(), TableIdx(0)),
            i32_const(0),
        ]
    );
    assert_eq!(code.locals, vec![ValType::I32]);
    assert_eq!(hook_names(&module, 1)[1..4], vec!["unreachable", "call_indirect", "call_post"]);
    // with arguments and a result
    let some = || FunctionType { params: vec![ValType::F32, ValType::F64], results: vec![ValType::I64] };
    for (mut body, count) in ways_out() {
        body.extend(vec![Instr::CallIndirect(some(), TableIdx(0)), Instr::Drop, Instr::End]);
        let (_, locals, names) = instrumented(body);
        assert_eq!(
            locals[count..],
            vec![ValType::I32, ValType::F32, ValType::F64, ValType::I64, ValType::I64]
        );
        assert!(names.contains(&"drop_i64".to_string()));
    }
}

#[test]
fn unreached_operands_may_be_missing() {
    for way in 0..ways_out().len() {
        let behind = |rest: Vec<Instr>| {
            let (mut body, count) = ways_out().swap_remove(way);
            body.extend(rest);
            let (_, locals, names) = instrumented(body);
            (locals[count..].to_vec(), names)
        };
        let (locals, names) = behind(vec![Instr::Drop, Instr::End]);
        assert_eq!(locals, vec![ValType::I32]);
        assert!(names.contains(&"drop_i32".to_string()));
        // what is there counts
        let (locals, names) = behind(vec![Instr::Const(Val::F64(1)), Instr::Drop, Instr::Drop, Instr::End]);
        assert_eq!(locals, vec![ValType::F64, ValType::I32]);
        assert!(names.contains(&"drop_f64".to_string()));
        let (locals, _) = behind(vec![Instr::Select, Instr::Drop, Instr::End]);
        assert_eq!(locals, vec![ValType::I32; 4]);
        let (locals, _) = behind(vec![i32_const(1), Instr::Select, Instr::Drop, Instr::End]);
        assert_eq!(locals, vec![ValType::I32; 4]);
        let (locals, names) =
            behind(vec![Instr::Const(Val::F32(1)), i32_const(1), Instr::Select, Instr::Drop, Instr::End]);
        assert_eq!(locals, vec![ValType::I32, ValType::F32, ValType::F32, ValType::F32]);
        assert!(names.contains(&"select_f32_f32".to_string()));
        let (locals, _) = behind(vec![i32_const(1), Instr::Numeric(NumericOp::I64Add), Instr::Drop, Instr::End]);
        assert_eq!(locals, vec![ValType::I64; 4]);
        let (locals, _) = behind(vec![Instr::BrIf(Label(0)), Instr::End]);
        assert_eq!(locals, vec![ValType::I32]);
        // a condition that is there is taken
        let (locals, _) = behind(vec![
            Instr::Const(Val::I64(5)),
            i32_const(1),
            Instr::If(BlockType(None)),
            Instr::End,
            Instr::Drop,
            Instr::End,
        ]);
        assert_eq!(locals, vec![ValType::I32, ValType::I64]);
        let (locals, _) =
            behind(vec![i32_const(1), Instr::If(BlockType(None)), Instr::End, Instr::Drop, Instr::End]);
        assert_eq!(locals, vec![ValType::I32, ValType::I32]);
    }
}

#[test]
fn reached_again_behind_a_block() {
    let can = |body: Vec<Instr>| is_instrumentable(&module(vec![function(vec![], vec![], vec![], body)]));
    for way in 0..ways_out().len() {
        let inside = |before: Vec<Instr>, behind: Vec<Instr>| {
            let mut body = before;
            body.extend(ways_out().swap_remove(way).0);
            body.extend(behind);
            can(body)
        };
        let block = || Instr::Block(BlockType(None));
        let if_ = || Instr::If(BlockType(None));
        // up to the end of the block
        assert!(inside(vec![block()], vec![if_(), Instr::End, Instr::End, Instr::End]));
        assert!(!inside(vec![block()], vec![Instr::End, if_(), Instr::End, Instr::End]));
        assert!(inside(vec![block()], vec![Instr::End, i32_const(1), if_(), Instr::End, Instr::End]));
        // up to the second branch
        assert!(inside(vec![i32_const(1), if_()], vec![Instr::Drop, Instr::Else, Instr::End, Instr::End]));
        assert!(!inside(vec![i32_const(1), if_()], vec![Instr::Else, Instr::Drop, Instr::End, Instr::End]));
        // a block that cannot be reached, and what follows it
        assert!(inside(vec![], vec![block(), Instr::Drop, Instr::End, Instr::Drop, Instr::End]));
        assert!(inside(
            vec![],
            vec![if_(), Instr::Drop, Instr::Else, Instr::Drop, Instr::End, Instr::Drop, Instr::End]
        ));
    }
    // a branch that need not be taken leaves what follows within reach
    assert!(!can(vec![i32_const(0), Instr::BrIf(Label(0)), Instr::Drop, Instr::End]));
}

#[test]
fn what_cannot_be_instrumented() {
    let cannot = |body: Vec<Instr>| !is_instrumentable(&module(vec![function(vec![], vec![], vec![], body)]));
    // the body does not end, or ends too early
    assert!(cannot(vec![]));
    assert!(cannot(vec![Instr::Nop]));
    assert!(cannot(vec![Instr::End, Instr::End]));
    assert!(cannot(vec![Instr::Block(BlockType(None)), Instr::End]));
    // else without if
    assert!(cannot(vec![Instr::Else, Instr::End]));
    assert!(cannot(vec![Instr::Block(BlockType(None)), Instr::Else, Instr::End, Instr::End]));
    // no operands
    assert!(cannot(vec![Instr::Drop, Instr::End]));
    assert!(cannot(vec![i32_const(1), Instr::Numeric(NumericOp::I32Add), Instr::End]));
    assert!(cannot(vec![Instr::If(BlockType(None)), Instr::End, Instr::End]));
    assert!(cannot(vec![
        Instr::CallIndirect(FunctionType { params: vec![], results: vec![] }, TableIdx(0)),
        Instr::End
    ]));
    // the operands of select differ, or its condition is no i32
    assert!(cannot(vec![i32_const(1), Instr::Const(Val::F32(0)), i32_const(1), Instr::Select, Instr::End]));
    assert!(cannot(vec![i32_const(1), i32_const(2), Instr::Const(Val::F32(0)), Instr::Select, Instr::End]));
    assert!(cannot(vec![
        Instr::Unreachable,
        i32_const(1),
        Instr::Const(Val::F32(0)),
        i32_const(1),
        Instr::Select,
        Instr::End
    ]));
    assert!(cannot(vec![Instr::Unreachable, Instr::Const(Val::F32(0)), Instr::Select, Instr::End]));
    assert!(cannot(vec![Instr::Const(Val::F32(0)), Instr::Unreachable, Instr::Select, Instr::End]));
    // what does not exist
    assert!(cannot(vec![Instr::Unreachable, get(0), Instr::End]));
    assert!(cannot(vec![get(0), Instr::End]));
    assert!(cannot(vec![call(1), Instr::End]));
    assert!(cannot(vec![Instr::Global(GlobalOp::GetGlobal, GlobalIdx(0)), Instr::End]));
    assert!(cannot(vec![Instr::Br(Label(1)), Instr::End]));
    assert!(cannot(vec![i32_const(0), Instr::BrIf(Label(1)), Instr::End]));
    assert!(cannot(vec![i32_const(0), Instr::BrTable(vec![Label(1)], Label(0)), Instr::End]));
    assert!(cannot(vec![i32_const(0), Instr::BrTable(vec![Label(0)], Label(1)), Instr::End]));
    // the neighbours of these can
    assert!(!cannot(vec![Instr::End]));
    assert!(!cannot(vec![call(0), Instr::End]));
    assert!(!cannot(vec![Instr::Br(Label(0)), Instr::End]));
    assert!(!cannot(vec![i32_const(1), Instr::Drop, Instr::End]));
    assert!(!cannot(vec![i32_const(1), i32_const(2), i32_const(3), Instr::Select, Instr::Drop, Instr::End]));
}
