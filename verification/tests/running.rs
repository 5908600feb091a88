//! Runs functions as they were and instrumented, on a small interpreter, and compares.
use wasm_hooks::add_hooks::{add_hooks, is_instrumentable};
use wasm_hooks::ast::{
    BlockType, Code, Function, FunctionIdx, FunctionType, Global, GlobalIdx, GlobalOp, GlobalType, Instr, Label,
    LocalIdx, LocalOp, Memarg, MemoryIdx, Module, Mutability, TableIdx, Val, ValType,
};
use wasm_hooks::ops::{LoadOp, NumericOp, StoreOp};

/// A hook call: name and arguments.
type Told = (String, Vec<Val>);

struct Machine<'a> {
    module: &'a Module,
    globals: Vec<Val>,
    memory: Vec<Val>,
    pages: i32,
    log: Vec<Told>,
}

fn as_i32(val: Val) -> i32 {
    match val {
        Val::I32(v) => v,
        other => panic!("not an i32: {:?}", other),
    }
}

fn zero(ty: ValType) -> Val {
    match ty {
        ValType::I32 => Val::I32(0),
        ValType::I64 => Val::I64(0),
        ValType::F32 => Val::F32(0),
        ValType::F64 => Val::F64(0),
    }
}

/// The index of the `end`, or of the `else`, that belongs to what stands before `from`.
fn closing(body: &[Instr], from: usize, stop_at_else: bool) -> usize {
    let mut depth = 0;
    for (i, instr) in body.iter().enumerate().skip(from) {
        match instr {
            Instr::Block(_) | Instr::Loop(_) | Instr::If(_) => depth += 1,
            Instr::Else if depth == 0 && stop_at_else => return i,
            Instr::End if depth == 0 => return i,
            Instr::End => depth -= 1,
            _ => {}
        }
    }
    panic!("block is not closed")
}

impl<'a> Machine<'a> {
    fn new(module: &'a Module) -> Machine<'a> {
        let globals = module
            .globals
            .iter()
            .map(|global| match &global.init.as_ref().unwrap()[0] {
                Instr::Const(val) => *val,
                other => panic!("not a constant: {:?}", other),
            })
            .collect();
        Machine { module, globals, memory: vec![Val::I64(0); 64], pages: 1, log: vec![] }
    }

    /// Calls a function; `None` for a trap.
    fn call(&mut self, function: usize, args: Vec<Val>) -> Option<Vec<Val>> {
        let module = self.module;
        let function = &module.functions[function];
        let code = match &function.code {
            Some(code) => code,
            None => {
                self.log.push((function.import.as_ref().unwrap().1.clone(), args));
                return Some(vec![]);
            }
        };
        let mut locals = args;
        locals.extend(code.locals.iter().map(|ty| zero(*ty)));
        let body = &code.body;
        let mut stack: Vec<Val> = vec![];
        // for each open block: where a branch to it goes, how many values it takes along, and the
        // height of the stack at its entry
        let mut blocks: Vec<(usize, usize, usize)> = vec![(body.len(), function.type_.results.len(), 0)];
        let mut at = 0;
        while at < body.len() {
            let mut branch: Option<usize> = None;
            match &body[at] {
                Instr::Unreachable => return None,
                Instr::Nop => {}
                Instr::Block(BlockType(ty)) => {
                    let results = if ty.is_some() { 1 } else { 0 };
                    blocks.push((closing(body, at + 1, false) + 1, results, stack.len()));
                }
                Instr::Loop(_) => blocks.push((at, 0, stack.len())),
                Instr::If(BlockType(ty)) => {
                    let condition = as_i32(stack.pop()?);
                    let results = if ty.is_some() { 1 } else { 0 };
                    let end = closing(body, at + 1, false);
                    let other = closing(body, at + 1, true);
                    if condition != 0 {
                        blocks.push((end + 1, results, stack.len()));
                    } else if other != end {
                        blocks.push((end + 1, results, stack.len()));
                        at = other;
                    } else {
                        at = end;
                    }
                }
                Instr::Else => {
                    blocks.pop();
                    at = closing(body, at + 1, false);
                }
                Instr::End => {
                    blocks.pop();
                }
                Instr::Br(label) => branch = Some(label.0),
                Instr::BrIf(label) => {
                    if as_i32(stack.pop()?) != 0 {
                        branch = Some(label.0);
                    }
                }
                Instr::BrTable(labels, default) => {
                    let index = as_i32(stack.pop()?) as u32 as usize;
                    branch = Some(labels.get(index).unwrap_or(default).0);
                }
                Instr::Return => branch = Some(blocks.len() - 1),
                Instr::Call(callee) => {
                    let count = self.module.functions[callee.0].type_.params.len();
                    let args = stack.split_off(stack.len() - count);
                    stack.append(&mut self.call(callee.0, args)?);
                }
                Instr::CallIndirect(ty, _) => {
                    let callee = as_i32(stack.pop()?) as usize;
                    let args = stack.split_off(stack.len() - ty.params.len());
                    stack.append(&mut self.call(callee, args)?);
                }
                Instr::Drop => {
                    stack.pop()?;
                }
                Instr::Select => {
                    let condition = as_i32(stack.pop()?);
                    let second = stack.pop()?;
                    let first = stack.pop()?;
                    stack.push(if condition != 0 { first } else { second });
                }
                Instr::Local(LocalOp::GetLocal, local) => stack.push(locals[local.0]),
                Instr::Local(LocalOp::SetLocal, local) => locals[local.0] = stack.pop()?,
                Instr::Local(LocalOp::TeeLocal, local) => locals[local.0] = *stack.last()?,
                Instr::Global(GlobalOp::GetGlobal, global) => stack.push(self.globals[global.0]),
                Instr::Global(GlobalOp::SetGlobal, global) => self.globals[global.0] = stack.pop()?,
                Instr::MemorySize(_) => stack.push(Val::I32(self.pages)),
                Instr::MemoryGrow(_) => {
                    let more = as_i32(stack.pop()?);
                    stack.push(Val::I32(self.pages));
                    self.pages += more;
                }
                Instr::Load(_, memarg) => {
                    let address = as_i32(stack.pop()?) as usize + memarg.offset as usize;
                    stack.push(*self.memory.get(address)?);
                }
                Instr::Store(_, memarg) => {
                    let value = stack.pop()?;
                    let address = as_i32(stack.pop()?) as usize + memarg.offset as usize;
                    *self.memory.get_mut(address)? = value;
                }
                Instr::Const(val) => stack.push(*val),
                Instr::Numeric(op) => {
                    let last = stack.pop()?;
                    let result = match (op, last) {
                        (NumericOp::I32WrapI64, Val::I64(v)) => Val::I32(v as i32),
                        (NumericOp::I64ExtendI32S, Val::I32(v)) => Val::I64(v as i64),
                        (NumericOp::I32Eqz, Val::I32(v)) => Val::I32((v == 0) as i32),
                        _ => match (op, stack.pop()?, last) {
                            (NumericOp::I32Add, Val::I32(a), Val::I32(b)) => Val::I32(a.wrapping_add(b)),
                            (NumericOp::I32Sub, Val::I32(a), Val::I32(b)) => Val::I32(a.wrapping_sub(b)),
                            (NumericOp::I32DivS, Val::I32(a), Val::I32(b)) => Val::I32(a.checked_div(b)?),
                            (NumericOp::I64Mul, Val::I64(a), Val::I64(b)) => Val::I64(a.wrapping_mul(b)),
                            (NumericOp::I64ShrS, Val::I64(a), Val::I64(b)) => Val::I64(a >> b),
                            other => panic!("not covered: {:?}", other),
                        },
                    };
                    stack.push(result);
                }
            }
            at += 1;
            if let Some(label) = branch {
                let (target, results, height) = blocks[blocks.len() - 1 - label];
                let kept = stack.split_off(stack.len() - results);
                stack.truncate(height);
                stack.extend(kept);
                blocks.truncate(blocks.len() - 1 - label);
                at = target;
            }
        }
        Some(stack)
    }
}

fn function(params: Vec<ValType>, results: Vec<ValType>, locals: Vec<ValType>, body: Vec<Instr>) -> Function {
    Function {
        type_: FunctionType { params, results },
        import: None,
        export: None,
        code: Some(Code { locals, body }),
    }
}

fn module(functions: Vec<Function>) -> Module {
    let global = Global {
        type_: GlobalType(ValType::I64, Mutability::Mut),
        init: Some(vec![Instr::Const(Val::I64(3)), Instr::End]),
        import: None,
        export: None,
    };
    Module { functions, tables: vec![], globals: vec![global], start: None }
}

fn i32_const(value: i32) -> Instr {
    Instr::Const(Val::I32(value))
}

fn get(local: usize) -> Instr {
    Instr::Local(LocalOp::GetLocal, LocalIdx(local))
}

fn set_local(local: usize) -> Instr {
    Instr::Local(LocalOp::SetLocal, LocalIdx(local))
}

/// Runs the first function before and after instrumentation, compares what it returns and leaves
/// behind, and returns the hook calls.
fn compare(build: fn() -> Vec<Function>, args: Vec<Val>) -> (Option<Vec<Val>>, Vec<Told>) {
    let before = module(build());
    let mut after = module(build());
    assert!(is_instrumentable(&after));
    add_hooks(&mut after);
    let mut plain = Machine::new(&before);
    let expected = plain.call(0, args.clone());
    assert!(plain.log.is_empty());
    let mut hooked = Machine::new(&after);
    let found = hooked.call(0, args);
    assert_eq!(found, expected);
    assert_eq!(hooked.globals[..1], plain.globals[..]);
    assert_eq!(hooked.memory, plain.memory);
    assert_eq!(hooked.pages, plain.pages);
    (found, hooked.log)
}

fn told(name: &str, args: Vec<Val>) -> Told {
    (name.to_string(), args)
}

fn numbers(values: &[i32]) -> Vec<Val> {
    values.iter().map(|value| Val::I32(*value)).collect()
}

fn straight() -> Vec<Function> {
    let memarg = Memarg { alignment: 3, offset: 2 };
    vec![function(
        vec![ValType::I32],
        vec![ValType::I64],
        vec![ValType::I64],
        vec![
            Instr::Nop,
            i32_const(5),
            Instr::Const(Val::I64(-2)),
            Instr::Store(StoreOp::I64Store, memarg),
            i32_const(5),
            Instr::Load(LoadOp::I64Load, memarg),
            Instr::Global(GlobalOp::GetGlobal, GlobalIdx(0)),
            Instr::Numeric(NumericOp::I64Mul),
            Instr::Local(LocalOp::TeeLocal, LocalIdx(1)),
            Instr::Global(GlobalOp::SetGlobal, GlobalIdx(0)),
            get(1),
            Instr::Const(Val::I64(0x1_0000_0002)),
            get(0),
            Instr::Select,
            Instr::MemorySize(MemoryIdx(0)),
            Instr::MemoryGrow(MemoryIdx(0)),
            Instr::Drop,
            Instr::End,
        ],
    )]
}

#[test]
fn straight_code_runs_as_before_and_is_reported() {
    let (result, log) = compare(straight, numbers(&[0]));
    assert_eq!(result, Some(vec![Val::I64(0x1_0000_0002)]));
    assert_eq!(
        log,
        vec![
            told("begin_function", numbers(&[0, -1])),
            told("nop", numbers(&[0, 0])),
            told("i32.const", numbers(&[0, 1, 5])),
            told("i64.const", numbers(&[0, 2, -2, -1])),
            told("i64.store", numbers(&[0, 3, 2, 3, 5, -2, -1])),
            told("i32.const", numbers(&[0, 4, 5])),
            told("i64.load", numbers(&[0, 5, 2, 3, 5, -2, -1])),
            told("get_global_i64", numbers(&[0, 6, 0, 3, 0])),
            told("i64.mul", numbers(&[0, 7, -2, -1, 3, 0, -6, -1])),
            told("tee_local_i64", numbers(&[0, 8, 1, -6, -1])),
            told("set_global_i64", numbers(&[0, 9, 0, -6, -1])),
            told("get_local_i64", numbers(&[0, 10, 1, -6, -1])),
            told("i64.const", numbers(&[0, 11, 2, 1])),
            told("get_local_i32", numbers(&[0, 12, 0, 0])),
            told("select_i64_i64", numbers(&[0, 13, 0, -6, -1, 2, 1])),
            told("memory_size", numbers(&[0, 14, 1])),
            told("memory_grow", numbers(&[0, 15, 1, 1])),
            told("drop_i32", numbers(&[0, 16, 1])),
            told("end_function", numbers(&[0, 17])),
            told("return_i64", numbers(&[0, -1, 2, 1])),
        ]
    );
    let (result, _) = compare(straight, numbers(&[1]));
    assert_eq!(result, Some(vec![Val::I64(-6)]));
}

fn dividing() -> Vec<Function> {
    vec![function(
        vec![ValType::I32],
        vec![ValType::I32],
        vec![],
        vec![i32_const(7), get(0), Instr::Numeric(NumericOp::I32DivS), Instr::End],
    )]
}

#[test]
fn traps_stay_traps() {
    let (result, log) = compare(dividing, numbers(&[0]));
    assert_eq!(result, None);
    // the operator did not get as far as to be reported
    assert_eq!(log.last(), Some(&told("get_local_i32", numbers(&[0, 1, 0, 0]))));
    let (result, log) = compare(dividing, numbers(&[2]));
    assert_eq!(result, Some(numbers(&[3])));
    assert_eq!(log[3], told("i32.div_s", numbers(&[0, 2, 7, 2, 3])));
}

/// Adds up the numbers from the argument down to one.
fn counting() -> Vec<Function> {
    vec![function(
        vec![ValType::I32],
        vec![ValType::I32],
        vec![ValType::I32],
        vec![
            Instr::Block(BlockType(None)),
            Instr::Loop(BlockType(None)),
            get(0),
            Instr::Numeric(NumericOp::I32Eqz),
            Instr::BrIf(Label(1)),
            get(1),
            get(0),
            Instr::Numeric(NumericOp::I32Add),
            set_local(1),
            get(0),
            i32_const(1),
            Instr::Numeric(NumericOp::I32Sub),
            set_local(0),
            Instr::Br(Label(0)),
            Instr::End,
            Instr::End,
            get(1),
            Instr::Return,
            Instr::End,
        ],
    )]
}

#[test]
fn loops_run_as_before() {
    let (result, log) = compare(counting, numbers(&[4]));
    assert_eq!(result, Some(numbers(&[10])));
    let count = |name: &str| log.iter().filter(|told| told.0 == name).count();
    assert_eq!(count("begin_loop"), 5);
    assert_eq!(count("br"), 4);
    assert_eq!(count("br_if"), 5);
    assert!(log.contains(&told("br", numbers(&[0, 13, 0, 2]))));
    assert!(log.contains(&told("br_if", numbers(&[0, 4, 1, 16, 1]))));
    assert_eq!(log.last(), Some(&told("return_i32", numbers(&[0, 17, 10]))));
}

fn choosing() -> Vec<Function> {
    vec![
        function(
            vec![ValType::I32],
            vec![ValType::I32],
            vec![ValType::I32],
            vec![
                get(0),
                Instr::If(BlockType(None)),
                i32_const(10),
                set_local(1),
                Instr::Else,
                i32_const(20),
                set_local(1),
                Instr::End,
                Instr::Block(BlockType(None)),
                Instr::Block(BlockType(None)),
                get(0),
                Instr::BrTable(vec![Label(0), Label(1)], Label(2)),
                Instr::End,
                get(1),
                i32_const(1),
                Instr::Call(FunctionIdx(1)),
                set_local(1),
                Instr::End,
                get(1),
                Instr::End,
            ],
        ),
        function(
            vec![ValType::I32, ValType::I32],
            vec![ValType::I32],
            vec![],
            vec![get(0), get(1), Instr::Numeric(NumericOp::I32Add), Instr::End],
        ),
    ]
}

#[test]
fn branches_run_as_before() {
    let (result, log) = compare(choosing, numbers(&[0]));
    assert_eq!(result, Some(numbers(&[21])));
    assert!(log.contains(&told("if", numbers(&[0, 1, 0]))));
    assert!(!log.contains(&told("begin_if", numbers(&[0, 1]))));
    assert!(log.contains(&told("end_else", numbers(&[0, 7, 1, 4]))));
    assert!(log.contains(&told("br_table", numbers(&[0, 11, 0, 0]))));
    // the call is announced, then the callee is entered, and the result comes last
    let first = log.iter().position(|told| told.0 == "call_i32_i32").unwrap();
    assert_eq!(log[first], told("call_i32_i32", numbers(&[0, 15, 1, 20, 1])));
    assert_eq!(log[first + 1], told("begin_function", numbers(&[1, -1])));
    assert!(log[first..].contains(&told("call_post_i32", numbers(&[0, 15, 21]))));
    let (result, log) = compare(choosing, numbers(&[1]));
    assert_eq!(result, Some(numbers(&[10])));
    assert!(log.contains(&told("begin_if", numbers(&[0, 1]))));
    assert!(log.contains(&told("end_if", numbers(&[0, 4, 1]))));
    assert!(!log.contains(&told("begin_else", numbers(&[0, 4, 1]))));
}

fn calling_indirectly() -> Vec<Function> {
    vec![
        function(
            vec![],
            vec![ValType::I64],
            vec![],
            vec![
                Instr::Const(Val::I64(-1)),
                i32_const(1),
                Instr::CallIndirect(
                    FunctionType { params: vec![ValType::I64], results: vec![ValType::I64] },
                    TableIdx(0),
                ),
                Instr::End,
            ],
        ),
        function(
            vec![ValType::I64],
            vec![ValType::I64],
            vec![],
            vec![get(0), get(0), Instr::Numeric(NumericOp::I64Mul), Instr::End],
        ),
    ]
}

#[test]
fn indirect_calls_run_as_before() {
    let (result, log) = compare(calling_indirectly, vec![]);
    assert_eq!(result, Some(vec![Val::I64(1)]));
    assert!(log.contains(&told("call_indirect_i64", numbers(&[0, 2, 1, -1, -1]))));
    assert!(log.contains(&told("call_post_i64", numbers(&[0, 2, 1, 0]))));
}

#[test]
fn start_is_reported_once() {
    let mut module = module(vec![function(vec![], vec![], vec![], vec![Instr::End])]);
    module.start = Some(FunctionIdx(0));
    add_hooks(&mut module);
    let mut machine = Machine::new(&module);
    machine.call(0, vec![]);
    machine.call(0, vec![]);
    // the global for the start is cleared, the module's own one is as it was
    assert_eq!(machine.globals, vec![Val::I64(3), Val::I32(0)]);
    let names: Vec<&str> = machine.log.iter().map(|told| told.0.as_str()).collect();
    assert_eq!(
        names,
        vec![
            "start",
            "begin_function",
            "end_function",
            "return",
            "begin_function",
            "end_function",
            "return"
        ]
    );
    assert_eq!(machine.log[0].1, numbers(&[0, -1]));
}

fn dropping() -> Vec<Function> {
    vec![function(
        vec![ValType::I32],
        vec![ValType::I64],
        vec![],
        vec![
            Instr::Const(Val::I64(7)),
            Instr::Const(Val::I64(8)),
            get(0),
            get(0),
            Instr::If(BlockType(None)),
            Instr::Nop,
            Instr::Else,
            Instr::End,
            Instr::Select,
            Instr::Const(Val::I64(9)),
            Instr::Const(Val::I64(10)),
            i32_const(1),
            Instr::CallIndirect(
                FunctionType { params: vec![ValType::I64], results: vec![ValType::I64] },
                TableIdx(0),
            ),
            Instr::Drop,
            Instr::Drop,
            Instr::End,
        ],
    ),
    function(
        vec![ValType::I64],
        vec![ValType::I64],
        vec![],
        vec![get(0), Instr::End],
    )]
}

#[test]
fn values_below_an_if_and_an_indirect_call_are_reported() {
    let (result, log) = compare(dropping, numbers(&[1]));
    assert_eq!(result, Some(vec![Val::I64(7)]));
    assert!(log.contains(&told("select_i64_i64", numbers(&[0, 8, 1, 7, 0, 8, 0]))));
    assert!(log.contains(&told("drop_i64", numbers(&[0, 13, 10, 0]))));
    assert!(log.contains(&told("drop_i64", numbers(&[0, 14, 9, 0]))));
    let (result, _) = compare(dropping, numbers(&[0]));
    assert_eq!(result, Some(vec![Val::I64(8)]));
}

fn passing_on() -> Vec<Function> {
    vec![function(vec![ValType::I64], vec![ValType::I64], vec![], vec![get(0), Instr::End])]
}

#[test]
fn halves_give_back_the_whole() {
    let values = [0, 1, -1, i64::MIN, i64::MAX, 0x1234_5678_9abc_def0, -0x1_0000_0000, 0xffff_ffff];
    for value in values {
        let (result, log) = compare(passing_on, vec![Val::I64(value)]);
        assert_eq!(result, Some(vec![Val::I64(value)]));
        let (name, args) = &log[1];
        assert_eq!(name, "get_local_i64");
        let low = as_i32(args[3]) as u32 as u64;
        let high = as_i32(args[4]) as u32 as u64;
        assert_eq!((high << 32 | low) as i64, value);
    }
}

fn leaving() -> Vec<Function> {
    vec![function(
        vec![ValType::I32],
        vec![ValType::I64],
        vec![],
        vec![
            Instr::Block(BlockType(None)),
            get(0),
            Instr::If(BlockType(None)),
            Instr::Br(Label(1)),
            Instr::If(BlockType(None)),
            Instr::Drop,
            Instr::End,
            Instr::CallIndirect(FunctionType { params: vec![], results: vec![] }, TableIdx(0)),
            Instr::Else,
            Instr::Const(Val::I64(3)),
            Instr::Return,
            i32_const(1),
            Instr::Select,
            Instr::Drop,
            Instr::Drop,
            Instr::End,
            Instr::End,
            Instr::Const(Val::I64(4)),
            Instr::Const(Val::I64(5)),
            Instr::Drop,
            Instr::End,
        ],
    )]
}

#[test]
fn code_around_unreached_code_runs_as_before() {
    let (result, log) = compare(leaving, numbers(&[1]));
    assert_eq!(result, Some(vec![Val::I64(4)]));
    assert!(log.contains(&told("drop_i64", numbers(&[0, 19, 5, 0]))));
    let (result, log) = compare(leaving, numbers(&[0]));
    assert_eq!(result, Some(vec![Val::I64(3)]));
    assert!(log.contains(&told("return_i64", numbers(&[0, 10, 3, 0]))));
}
