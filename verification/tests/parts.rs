//! The parts of which instrumentation is made.
use wasm_hooks::ast::{
    push_index, BlockType, Code, Function, FunctionIdx, FunctionType, GlobalOp, Instr, InstrIdx, InstrType, Label,
    LocalIdx, LocalOp, Module, Val, ValType,
};
use wasm_hooks::block_stack::{BlockKind, BlockStack, BlockStackElement};
use wasm_hooks::convert_i64::{convert_i64_instr, convert_i64_types};
use wasm_hooks::generate_js::generate_js;
use wasm_hooks::hook_map::{HookKey, HookMap, HookOp};
use wasm_hooks::ops::{LoadOp, NumericOp, StoreOp};
use wasm_hooks::static_info::{BrTableInfo, LabelAndLocation, Location, ModuleInfo};
use wasm_hooks::text::push_decimal;
use wasm_hooks::trace::{restore_locals_with_i64_handling, save_stack_to_locals};
use wasm_hooks::type_stack::TypeStack;

fn get(local: usize) -> Instr {
    Instr::Local(LocalOp::GetLocal, LocalIdx(local))
}

fn set_local(local: usize) -> Instr {
    Instr::Local(LocalOp::SetLocal, LocalIdx(local))
}

fn tee(local: usize) -> Instr {
    Instr::Local(LocalOp::TeeLocal, LocalIdx(local))
}

#[test]
fn saving_copies_the_topmost_values() {
    assert_eq!(save_stack_to_locals(&vec![]), vec![]);
    assert_eq!(save_stack_to_locals(&vec![LocalIdx(4)]), vec![tee(4)]);
    assert_eq!(
        save_stack_to_locals(&vec![LocalIdx(4), LocalIdx(7), LocalIdx(5)]),
        vec![set_local(5), set_local(7), tee(4), get(7), get(5)]
    );
}

#[test]
fn restoring_splits_64_bit_integers() {
    let vars = vec![ValType::F32, ValType::I64];
    assert_eq!(
        restore_locals_with_i64_handling(&vec![LocalIdx(0), LocalIdx(1), LocalIdx(0)], &vars),
        vec![
            get(0),
            get(1),
            Instr::Numeric(NumericOp::I32WrapI64),
            get(1),
            Instr::Const(Val::I64(32)),
            Instr::Numeric(NumericOp::I64ShrS),
            Instr::Numeric(NumericOp::I32WrapI64),
            get(0),
        ]
    );
}

#[test]
fn conversion_of_single_values() {
    assert_eq!(convert_i64_instr(get(3), ValType::F64), vec![get(3)]);
    assert_eq!(convert_i64_instr(get(3), ValType::I64).len(), 6);
    assert_eq!(
        convert_i64_types(&vec![ValType::I64, ValType::F32, ValType::I32]),
        vec![ValType::I32, ValType::I32, ValType::F32, ValType::I32]
    );
}

#[test]
fn indices_are_constants() {
    assert_eq!(push_index(0), Instr::Const(Val::I32(0)));
    assert_eq!(push_index(70_000), Instr::Const(Val::I32(70_000)));
    assert_eq!(push_index(4_294_967_295), Instr::Const(Val::I32(-1)));
}

#[test]
fn types_of_instructions() {
    let ty = |inputs: Vec<ValType>, results: Vec<ValType>| InstrType { inputs, results };
    assert_eq!(
        NumericOp::I64Add.to_type(),
        ty(vec![ValType::I64, ValType::I64], vec![ValType::I64])
    );
    assert_eq!(NumericOp::I64Eqz.to_type(), ty(vec![ValType::I64], vec![ValType::I32]));
    assert_eq!(
        NumericOp::F64Lt.to_type(),
        ty(vec![ValType::F64, ValType::F64], vec![ValType::I32])
    );
    assert_eq!(NumericOp::F32DemoteF64.to_type(), ty(vec![ValType::F64], vec![ValType::F32]));
    assert_eq!(LoadOp::I64Load8S.to_type(), ty(vec![ValType::I32], vec![ValType::I64]));
    assert_eq!(StoreOp::F64Store.to_type(), ty(vec![ValType::I32, ValType::F64], vec![]));
    assert_eq!(LocalOp::TeeLocal.to_type(ValType::F32), ty(vec![ValType::F32], vec![ValType::F32]));
    assert_eq!(GlobalOp::SetGlobal.to_type(ValType::F32), ty(vec![ValType::F32], vec![]));
    assert_eq!(Val::F64(0).to_type(), ValType::F64);
}

#[test]
fn type_stack_follows_blocks() {
    let mut stack = TypeStack::new();
    stack.push_val(ValType::I64);
    stack.begin(BlockType(Some(ValType::F32)));
    // the values of the function are out of reach within the block
    assert_eq!(stack.peek(1), None);
    assert!(!stack.instr(&InstrType { inputs: vec![ValType::I64], results: vec![] }));
    assert!(stack.instr(&InstrType { inputs: vec![], results: vec![ValType::I32, ValType::F64] }));
    assert_eq!(stack.peek(1), Some(ValType::F64));
    assert_eq!(stack.peek(2), Some(ValType::I32));
    assert_eq!(stack.peek(3), None);
    assert!(stack.else_());
    assert_eq!(stack.peek(1), None);
    assert!(stack.end());
    assert_eq!(stack.peek(1), Some(ValType::F32));
    assert_eq!(stack.peek(2), Some(ValType::I64));
    assert_eq!(stack.pop_val(), Some(ValType::F32));
    assert_eq!(stack.pop_val(), Some(ValType::I64));
    assert_eq!(stack.pop_val(), None);
    // the end of the function
    assert!(stack.end());
    assert!(!stack.end());
    assert!(!stack.else_());
}

#[test]
fn block_stack_resolves_branches() {
    let body = vec![
        Instr::Block(BlockType(None)),
        Instr::Loop(BlockType(None)),
        Instr::If(BlockType(None)),
        Instr::Else,
        Instr::End,
        Instr::End,
        Instr::End,
        Instr::End,
    ];
    let mut blocks = BlockStack::new(&body).unwrap();
    assert!(blocks.begin(&body[0], InstrIdx(0)));
    assert!(blocks.begin(&body[1], InstrIdx(1)));
    assert!(blocks.begin(&body[2], InstrIdx(2)));
    let targets: Vec<Option<InstrIdx>> = (0..5).map(|label| blocks.br_target(Label(label))).collect();
    assert_eq!(
        targets,
        vec![Some(InstrIdx(5)), Some(InstrIdx(2)), Some(InstrIdx(7)), Some(InstrIdx(8)), None]
    );
    let target = |label: usize, instr: usize| LabelAndLocation {
        label: Label(label),
        location: Location { func: FunctionIdx(9), instr: InstrIdx(instr) },
    };
    assert_eq!(
        BrTableInfo::from_br_table(&vec![Label(1), Label(3)], Label(0), &blocks, FunctionIdx(9)),
        Some(BrTableInfo { table: vec![target(1, 2), target(3, 8)], default: target(0, 5) })
    );
    assert_eq!(BrTableInfo::from_br_table(&vec![], Label(4), &blocks, FunctionIdx(9)), None);
    assert_eq!(BrTableInfo::from_br_table(&vec![Label(4)], Label(0), &blocks, FunctionIdx(9)), None);
    let first = blocks.else_().unwrap();
    assert_eq!(
        first,
        BlockStackElement::If {
            begin_if: InstrIdx(2),
            begin_else: Some(InstrIdx(3)),
            end: InstrIdx(4)
        }
    );
    assert_eq!(first.kind(), BlockKind::If);
    // there is no third branch
    assert_eq!(blocks.else_(), None);
    let kinds: Vec<BlockKind> = (0..4).map(|_| blocks.end().unwrap().kind()).collect();
    assert_eq!(kinds, vec![BlockKind::Else, BlockKind::Loop, BlockKind::Block, BlockKind::Function]);
    assert_eq!(blocks.end(), None);
}

#[test]
fn bodies_that_do_not_nest() {
    assert!(BlockStack::new(&vec![]).is_none());
    assert!(BlockStack::new(&vec![Instr::Block(BlockType(None)), Instr::End]).is_none());
    assert!(BlockStack::new(&vec![Instr::End, Instr::Nop]).is_none());
    assert!(BlockStack::new(&vec![Instr::End]).is_some());
}

#[test]
fn hooks_are_numbered_behind_the_functions() {
    let mut hooks = HookMap::new(7);
    assert_eq!(hooks.request(HookOp::Drop, vec![ValType::I64]), Instr::Call(FunctionIdx(7)));
    assert_eq!(hooks.request(HookOp::Drop, vec![ValType::I32]), Instr::Call(FunctionIdx(8)));
    assert_eq!(hooks.request(HookOp::Drop, vec![ValType::I64]), Instr::Call(FunctionIdx(7)));
    assert_eq!(hooks.request(HookOp::Nop, vec![]), Instr::Call(FunctionIdx(9)));
    let hooks = hooks.finish();
    assert_eq!(hooks.len(), 3);
    assert_eq!(hooks[0].idx, FunctionIdx(7));
    assert_eq!(hooks[2].idx, FunctionIdx(9));
    assert_eq!(
        hooks[0].wasm,
        Function {
            type_: FunctionType {
                params: vec![ValType::I32, ValType::I32, ValType::I32, ValType::I32],
                results: vec![]
            },
            import: Some(("__wasabi_hooks".to_string(), "drop_i64".to_string())),
            export: None,
            code: None,
        }
    );
    assert_eq!(
        hooks[0].js,
        "\"drop_i64\": function (func, instr, a0_low, a0_high) {\n    \
         Wasabi.analysis(\"drop_i64\", {func, instr}, [new Long(a0_low, a0_high)]);\n},"
    );
}

#[test]
fn definition_of_a_hook_with_many_values() {
    let hook = HookKey {
        op: HookOp::Call,
        tys: vec![ValType::F32, ValType::I64, ValType::I32],
    };
    assert_eq!(hook.name(), "call_f32_i64_i32");
    assert_eq!(
        hook.js(),
        "\"call_f32_i64_i32\": function (func, instr, a0, a1, a2_low, a2_high, a3) {\n    \
         Wasabi.analysis(\"call_f32_i64_i32\", {func, instr}, [a0, a1, new Long(a2_low, a2_high), a3]);\n},"
    );
    assert_eq!(HookKey { op: HookOp::End(BlockKind::Else), tys: vec![] }.name(), "end_else");
    assert_eq!(HookKey { op: HookOp::Load(LoadOp::F32Load), tys: vec![] }.name(), "f32.load");
}

#[test]
fn info_of_a_module() {
    let module = Module {
        functions: vec![Function {
            type_: FunctionType { params: vec![ValType::I32], results: vec![ValType::F64] },
            import: None,
            export: Some("f".to_string()),
            code: Some(Code { locals: vec![], body: vec![Instr::End] }),
        }],
        tables: vec![],
        globals: vec![],
        start: Some(FunctionIdx(0)),
    };
    let info = ModuleInfo::from_module(&module);
    assert_eq!(info.functions[0].type_, module.functions[0].type_);
    assert_eq!(info.functions[0].import, None);
    assert_eq!(info.functions[0].export, Some("f".to_string()));
    assert_eq!(info.start, Some(FunctionIdx(0)));
    assert_eq!(info.table_export_name, None);
    assert!(info.globals.is_empty());
    assert!(info.br_tables.is_empty());
}

#[test]
fn decimal_numbers() {
    let mut text = String::from("n");
    push_decimal(&mut text, 0);
    push_decimal(&mut text, 10);
    push_decimal(&mut text, 987_654_321);
    assert_eq!(text, "n010987654321");
}

#[test]
fn script_indents_the_hooks() {
    let hooks = vec!["a {\n  b\n},".to_string(), "c,".to_string()];
    assert_eq!(
        generate_js("{\n  \"x\": 1\n}", &hooks),
        "/*\n * Auto-generated from WASM module to-analyze.\n * DO NOT EDIT.\n */\n\n\
         Wasabi.module.info = {\n  \"x\": 1\n};\n\n\
         Wasabi.module.lowlevelHooks = {\n    a {\n      b\n    },\n    c,\n};\n"
    );
}

#[test]
fn script_without_hooks() {
    assert_eq!(
        generate_js("{}", &vec![]),
        "/*\n * Auto-generated from WASM module to-analyze.\n * DO NOT EDIT.\n */\n\n\
         Wasabi.module.info = {};\n\nWasabi.module.lowlevelHooks = {\n    \n};\n"
    );
}
