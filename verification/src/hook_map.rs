//! The hooks: functions that the host provides and that instrumented code calls. One exists for
//! each kind of event and each combination of types with which the event occurs.
use vstd::prelude::*;
use vstd::string::*;

use crate::ast::{Function, FunctionIdx, FunctionType, GlobalOp, Instr, LocalOp, ValType};
use crate::block_stack::BlockKind;
use crate::convert_i64::{convert_i64_types, lowered_types};
use crate::ops::{LoadOp, NumericOp, StoreOp};
use crate::text::{decimal, push_decimal};

verus! {

/// The events at which hooks are called.
#[derive(Clone, Copy, PartialEq, Eq, Structural, Debug)]
pub enum HookOp {
    Start,
    BeginFunction,
    BeginBlock,
    BeginLoop,
    BeginIf,
    BeginElse,
    End(BlockKind),
    Nop,
    Unreachable,
    If,
    Br,
    BrIf,
    BrTable,
    Return,
    Call,
    CallIndirect,
    CallPost,
    Drop,
    Select,
    Local(LocalOp),
    Global(GlobalOp),
    MemorySize,
    MemoryGrow,
    Load(LoadOp),
    Store(StoreOp),
    Const(ValType),
    Numeric(NumericOp),
}

/// A hook: the event, and the types of the values that it has at hand where the event alone does
/// not fix them.
#[verifier::ext_equal]
pub ghost struct HookId {
    pub op: HookOp,
    pub tys: Seq<ValType>,
}

impl HookId {
    /// The values that the hook is told besides the location of the event, in order.
    pub open spec fn args(self) -> Seq<ValType> {
        match self.op {
            HookOp::Start | HookOp::BeginFunction | HookOp::BeginBlock | HookOp::BeginLoop
            | HookOp::BeginIf | HookOp::Nop | HookOp::Unreachable => seq![],
            HookOp::BeginElse => seq![ValType::I32],
            HookOp::End(kind) => match kind {
                BlockKind::Function => seq![],
                BlockKind::Block | BlockKind::Loop | BlockKind::If => seq![ValType::I32],
                BlockKind::Else => seq![ValType::I32, ValType::I32],
            },
            HookOp::If => seq![ValType::I32],
            HookOp::Br => seq![ValType::I32, ValType::I32],
            HookOp::BrIf => seq![ValType::I32, ValType::I32, ValType::I32],
            HookOp::BrTable => seq![ValType::I32, ValType::I32],
            HookOp::Return | HookOp::CallPost | HookOp::Drop => self.tys,
            HookOp::Call | HookOp::CallIndirect | HookOp::Select | HookOp::Local(_)
            | HookOp::Global(_) => seq![ValType::I32] + self.tys,
            HookOp::MemorySize => seq![ValType::I32],
            HookOp::MemoryGrow => seq![ValType::I32, ValType::I32],
            HookOp::Load(op) => seq![ValType::I32, ValType::I32, ValType::I32, op.value()],
            HookOp::Store(op) => seq![ValType::I32, ValType::I32, ValType::I32, op.value()],
            HookOp::Const(ty) => seq![ty],
            HookOp::Numeric(op) => op.signature().params + op.signature().results,
        }
    }

    /// The parameters of the hook: function and instruction of the location, then the values.
    pub open spec fn params(self) -> Seq<ValType> {
        seq![ValType::I32, ValType::I32] + lowered_types(self.args())
    }

    /// The name of the event.
    pub open spec fn event(self) -> Seq<char> {
        match self.op {
            HookOp::Start => "start"@,
            HookOp::BeginFunction => "begin_function"@,
            HookOp::BeginBlock => "begin_block"@,
            HookOp::BeginLoop => "begin_loop"@,
            HookOp::BeginIf => "begin_if"@,
            HookOp::BeginElse => "begin_else"@,
            HookOp::End(BlockKind::Function) => "end_function"@,
            HookOp::End(BlockKind::Block) => "end_block"@,
            HookOp::End(BlockKind::Loop) => "end_loop"@,
            HookOp::End(BlockKind::If) => "end_if"@,
            HookOp::End(BlockKind::Else) => "end_else"@,
            HookOp::Nop => "nop"@,
            HookOp::Unreachable => "unreachable"@,
            HookOp::If => "if"@,
            HookOp::Br => "br"@,
            HookOp::BrIf => "br_if"@,
            HookOp::BrTable => "br_table"@,
            HookOp::Return => "return"@,
            HookOp::Call => "call"@,
            HookOp::CallIndirect => "call_indirect"@,
            HookOp::CallPost => "call_post"@,
            HookOp::Drop => "drop"@,
            HookOp::Select => "select"@,
            HookOp::Local(LocalOp::GetLocal) => "get_local"@,
            HookOp::Local(LocalOp::SetLocal) => "set_local"@,
            HookOp::Local(LocalOp::TeeLocal) => "tee_local"@,
            HookOp::Global(GlobalOp::GetGlobal) => "get_global"@,
            HookOp::Global(GlobalOp::SetGlobal) => "set_global"@,
            HookOp::MemorySize => "memory_size"@,
            HookOp::MemoryGrow => "memory_grow"@,
            HookOp::Load(op) => op.mnemonic(),
            HookOp::Store(op) => op.mnemonic(),
            HookOp::Const(ValType::I32) => "i32.const"@,
            HookOp::Const(ValType::I64) => "i64.const"@,
            HookOp::Const(ValType::F32) => "f32.const"@,
            HookOp::Const(ValType::F64) => "f64.const"@,
            HookOp::Numeric(op) => op.mnemonic(),
        }
    }

    /// The name of the hook: the event's, with the types behind it.
    pub open spec fn name(self) -> Seq<char> {
        self.event() + type_suffix(self.tys)
    }

    /// The host's definition of the hook: it passes the event on to the analysis, with 64-bit
    /// integers put together again.
    pub open spec fn js(self) -> Seq<char> {
        "\""@ + self.name() + "\": function (func, instr"@ + js_params(self.args())
            + ") {\n    Wasabi.analysis(\""@ + self.name() + "\", {func, instr}, ["@ + js_args(self.args())
            + "]);\n},"@
    }
}

pub open spec fn type_word(ty: ValType) -> Seq<char> {
    match ty {
        ValType::I32 => "i32"@,
        ValType::I64 => "i64"@,
        ValType::F32 => "f32"@,
        ValType::F64 => "f64"@,
    }
}

/// Each type, with an underscore before it.
pub open spec fn type_suffix(tys: Seq<ValType>) -> Seq<char>
    decreases tys.len(),
{
    if tys.len() == 0 {
        seq![]
    } else {
        type_suffix(tys.drop_last()) + "_"@ + type_word(tys.last())
    }
}

/// The host's parameters for values of types `tys`: two for each 64-bit integer.
pub open spec fn js_params(tys: Seq<ValType>) -> Seq<char>
    decreases tys.len(),
{
    if tys.len() == 0 {
        seq![]
    } else {
        let n = decimal((tys.len() - 1) as nat);
        js_params(tys.drop_last()) + if tys.last() == ValType::I64 {
            ", a"@ + n + "_low, a"@ + n + "_high"@
        } else {
            ", a"@ + n
        }
    }
}

/// The host's expressions for values of types `tys`, in a list.
pub open spec fn js_args(tys: Seq<ValType>) -> Seq<char>
    decreases tys.len(),
{
    if tys.len() == 0 {
        seq![]
    } else {
        let n = decimal((tys.len() - 1) as nat);
        let before = js_args(tys.drop_last());
        let separator = if tys.len() == 1 { seq![] } else { ", "@ };
        before + separator + if tys.last() == ValType::I64 {
            "new Long(a"@ + n + "_low, a"@ + n + "_high)"@
        } else {
            "a"@ + n
        }
    }
}

/// The name of the event.
fn event_name(op: HookOp) -> (name: &'static str)
    ensures
        forall|tys: Seq<ValType>| name@ == (#[trigger] (HookId { op, tys }).event()),
{
    match op {
        HookOp::Start => "start",
        HookOp::BeginFunction => "begin_function",
        HookOp::BeginBlock => "begin_block",
        HookOp::BeginLoop => "begin_loop",
        HookOp::BeginIf => "begin_if",
        HookOp::BeginElse => "begin_else",
        HookOp::End(BlockKind::Function) => "end_function",
        HookOp::End(BlockKind::Block) => "end_block",
        HookOp::End(BlockKind::Loop) => "end_loop",
        HookOp::End(BlockKind::If) => "end_if",
        HookOp::End(BlockKind::Else) => "end_else",
        HookOp::Nop => "nop",
        HookOp::Unreachable => "unreachable",
        HookOp::If => "if",
        HookOp::Br => "br",
        HookOp::BrIf => "br_if",
        HookOp::BrTable => "br_table",
        HookOp::Return => "return",
        HookOp::Call => "call",
        HookOp::CallIndirect => "call_indirect",
        HookOp::CallPost => "call_post",
        HookOp::Drop => "drop",
        HookOp::Select => "select",
        HookOp::Local(LocalOp::GetLocal) => "get_local",
        HookOp::Local(LocalOp::SetLocal) => "set_local",
        HookOp::Local(LocalOp::TeeLocal) => "tee_local",
        HookOp::Global(GlobalOp::GetGlobal) => "get_global",
        HookOp::Global(GlobalOp::SetGlobal) => "set_global",
        HookOp::MemorySize => "memory_size",
        HookOp::MemoryGrow => "memory_grow",
        HookOp::Load(op) => op.name(),
        HookOp::Store(op) => op.name(),
        HookOp::Const(ValType::I32) => "i32.const",
        HookOp::Const(ValType::I64) => "i64.const",
        HookOp::Const(ValType::F32) => "f32.const",
        HookOp::Const(ValType::F64) => "f64.const",
        HookOp::Numeric(op) => op.name(),
    }
}

/// The values that the hook for `op` with the types `tys` is told besides the location.
fn arg_types(op: HookOp, tys: &Vec<ValType>) -> (args: Vec<ValType>)
    ensures
        args@ == (HookId { op, tys: tys@ }).args(),
{
    let mut args: Vec<ValType> = Vec::new();
    let mut with_types = false;
    match op {
        HookOp::Start | HookOp::BeginFunction | HookOp::BeginBlock | HookOp::BeginLoop
        | HookOp::BeginIf | HookOp::Nop | HookOp::Unreachable => {},
        HookOp::End(BlockKind::Function) => {},
        HookOp::BeginElse | HookOp::If | HookOp::MemorySize => {
            args.push(ValType::I32);
        },
        HookOp::End(BlockKind::Block) | HookOp::End(BlockKind::Loop) | HookOp::End(BlockKind::If) => {
            args.push(ValType::I32);
        },
        HookOp::End(BlockKind::Else) | HookOp::Br | HookOp::BrTable | HookOp::MemoryGrow => {
            args.push(ValType::I32);
            args.push(ValType::I32);
        },
        HookOp::BrIf => {
            args.push(ValType::I32);
            args.push(ValType::I32);
            args.push(ValType::I32);
        },
        HookOp::Return | HookOp::CallPost | HookOp::Drop => {
            with_types = true;
        },
        HookOp::Call | HookOp::CallIndirect | HookOp::Select | HookOp::Local(_) | HookOp::Global(_) => {
            args.push(ValType::I32);
            with_types = true;
        },
        HookOp::Load(op) => {
            args.push(ValType::I32);
            args.push(ValType::I32);
            args.push(ValType::I32);
            args.push(op.value_type());
        },
        HookOp::Store(op) => {
            args.push(ValType::I32);
            args.push(ValType::I32);
            args.push(ValType::I32);
            args.push(op.value_type());
        },
        HookOp::Const(ty) => {
            args.push(ty);
        },
        HookOp::Numeric(op) => {
            let mut ty = op.to_type();
            args.append(&mut ty.inputs);
            args.append(&mut ty.results);
        },
    }
    if with_types {
        let ghost before = args@;
        assert(before + tys@.take(0) =~= before);
        for i in 0..tys.len()
            invariant
                args@ == before + tys@.take(i as int),
        {
            args.push(tys[i]);
            assert(before + tys@.take(i + 1) =~= (before + tys@.take(i as int)).push(tys@[i as int]));
        }
        assert(tys@.take(tys@.len() as int) =~= tys@);
    }
    assert(args@ =~= (HookId { op, tys: tys@ }).args());
    args
}

fn push_type_suffix(out: &mut String, tys: &Vec<ValType>)
    ensures
        final(out)@ == old(out)@ + type_suffix(tys@),
{
    assert(old(out)@ + type_suffix(tys@.take(0)) =~= old(out)@);
    for i in 0..tys.len()
        invariant
            out@ == old(out)@ + type_suffix(tys@.take(i as int)),
    {
        out.append("_");
        out.append(
            match tys[i] {
                ValType::I32 => "i32",
                ValType::I64 => "i64",
                ValType::F32 => "f32",
                ValType::F64 => "f64",
            },
        );
        assert(tys@.take(i + 1).drop_last() =~= tys@.take(i as int));
        assert(out@ =~= old(out)@ + type_suffix(tys@.take(i + 1)));
    }
    assert(tys@.take(tys@.len() as int) =~= tys@);
}

fn push_js_params(out: &mut String, tys: &Vec<ValType>)
    ensures
        final(out)@ == old(out)@ + js_params(tys@),
{
    assert(old(out)@ + js_params(tys@.take(0)) =~= old(out)@);
    for i in 0..tys.len()
        invariant
            out@ == old(out)@ + js_params(tys@.take(i as int)),
    {
        out.append(", a");
        push_decimal(out, i);
        if tys[i] == ValType::I64 {
            out.append("_low, a");
            push_decimal(out, i);
            out.append("_high");
        }
        assert(tys@.take(i + 1).drop_last() =~= tys@.take(i as int));
        assert(out@ =~= old(out)@ + js_params(tys@.take(i + 1)));
    }
    assert(tys@.take(tys@.len() as int) =~= tys@);
}

fn push_js_args(out: &mut String, tys: &Vec<ValType>)
    ensures
        final(out)@ == old(out)@ + js_args(tys@),
{
    assert(old(out)@ + js_args(tys@.take(0)) =~= old(out)@);
    for i in 0..tys.len()
        invariant
            out@ == old(out)@ + js_args(tys@.take(i as int)),
    {
        if i > 0 {
            out.append(", ");
        }
        if tys[i] == ValType::I64 {
            out.append("new Long(a");
            push_decimal(out, i);
            out.append("_low, a");
            push_decimal(out, i);
            out.append("_high)");
        } else {
            out.append("a");
            push_decimal(out, i);
        }
        assert(tys@.take(i + 1).drop_last() =~= tys@.take(i as int));
        assert(out@ =~= old(out)@ + js_args(tys@.take(i + 1)));
    }
    assert(tys@.take(tys@.len() as int) =~= tys@);
}

/// A hook as the event and the types that name it.
#[derive(PartialEq, Eq, Debug)]
pub struct HookKey {
    pub op: HookOp,
    pub tys: Vec<ValType>,
}

impl View for HookKey {
    type V = HookId;

    open spec fn view(&self) -> HookId {
        HookId { op: self.op, tys: self.tys@ }
    }
}

impl HookKey {
    /// Whether two keys name the same hook.
    fn same(&self, op: HookOp, tys: &Vec<ValType>) -> (b: bool)
        ensures
            b == (self@ == (HookId { op, tys: tys@ })),
    {
        if self.op != op || self.tys.len() != tys.len() {
            return false;
        }
        for i in 0..tys.len()
            invariant
                self.tys@.len() == tys@.len(),
                self.tys@.take(i as int) =~= tys@.take(i as int),
        {
            if self.tys[i] != tys[i] {
                assert(self.tys@[i as int] != tys@[i as int]);
                return false;
            }
            assert(self.tys@.take(i + 1) =~= self.tys@.take(i as int).push(self.tys@[i as int]));
            assert(tys@.take(i + 1) =~= tys@.take(i as int).push(tys@[i as int]));
        }
        assert(self.tys@.take(tys@.len() as int) =~= self.tys@);
        assert(tys@.take(tys@.len() as int) =~= tys@);
        true
    }

    /// The name of the hook.
    pub fn name(&self) -> (name: String)
        ensures
            name@ == self@.name(),
    {
        let mut name = event_name(self.op).to_owned();
        assert(name@ == self@.event());
        push_type_suffix(&mut name, &self.tys);
        name
    }

    /// The host's definition of the hook.
    pub fn js(&self) -> (js: String)
        ensures
            js@ == self@.js(),
    {
        let name = self.name();
        let args = arg_types(self.op, &self.tys);
        let mut js = "\"".to_owned();
        js.append(name.as_str());
        js.append("\": function (func, instr");
        push_js_params(&mut js, &args);
        js.append(") {\n    Wasabi.analysis(\"");
        js.append(name.as_str());
        js.append("\", {func, instr}, [");
        push_js_args(&mut js, &args);
        js.append("]);\n},");
        js
    }

    /// The hook as a function of the module: an import.
    pub fn wasm(&self) -> (function: Function)
        ensures
            is_hook_function(function, self@),
    {
        let args = arg_types(self.op, &self.tys);
        let mut params = vec![ValType::I32, ValType::I32];
        let mut lowered = convert_i64_types(&args);
        params.append(&mut lowered);
        assert(params@ =~= self@.params());
        Function {
            type_: FunctionType { params, results: Vec::new() },
            import: Some(("__wasabi_hooks".to_owned(), self.name())),
            export: None,
            code: None,
        }
    }
}

/// Whether the function is the import of the hook.
pub open spec fn is_hook_function(function: Function, id: HookId) -> bool {
    &&& function.type_.params@ == id.params()
    &&& function.type_.results@.len() == 0
    &&& function.import matches Some((module, name)) && module@ == "__wasabi_hooks"@ && name@ == id.name()
    &&& function.export is None
    &&& function.code is None
}

/// A hook that was asked for: the index of its function, the function, and the host's definition.
#[derive(PartialEq, Eq, Debug)]
pub struct Hook {
    pub idx: FunctionIdx,
    pub wasm: Function,
    pub js: String,
}

/// The ids with `id` behind them, unless they hold it already.
pub open spec fn requested(ids: Seq<HookId>, id: HookId) -> Seq<HookId> {
    if ids.contains(id) {
        ids
    } else {
        ids.push(id)
    }
}

/// The call of the hook `id`, where the first of the hooks `ids` is the function with index `first`.
pub open spec fn hook_call(ids: Seq<HookId>, first: nat, id: HookId) -> Instr {
    Instr::Call(FunctionIdx((first + ids.index_of(id)) as usize))
}

/// The hooks that were asked for, in the order in which they first were. Their functions follow
/// those of the module.
#[derive(Debug)]
pub struct HookMap {
    keys: Vec<HookKey>,
    function_count: usize,
}

impl View for HookMap {
    type V = Seq<HookId>;

    closed spec fn view(&self) -> Seq<HookId> {
        self.keys@.map_values(|key: HookKey| key@)
    }
}

impl HookMap {
    /// No hook occurs twice.
    pub closed spec fn wf(&self) -> bool {
        self@.no_duplicates()
    }

    /// The index of the first hook's function.
    pub closed spec fn first(&self) -> nat {
        self.function_count as nat
    }

    /// No hooks yet; their functions will follow `function_count` others.
    pub fn new(function_count: usize) -> (map: HookMap)
        ensures
            map.wf(),
            map@ == Seq::<HookId>::empty(),
            map.first() == function_count,
    {
        let map = HookMap { keys: Vec::new(), function_count };
        assert(map@ =~= Seq::<HookId>::empty());
        map
    }

    /// The call of the hook for `op` with the types `tys`, which is added if it is new.
    pub fn request(&mut self, op: HookOp, tys: Vec<ValType>) -> (call: Instr)
        requires
            old(self).wf(),
            old(self).first() + old(self)@.len() <= usize::MAX,
        ensures
            final(self).wf(),
            final(self).first() == old(self).first(),
            final(self)@ == requested(old(self)@, HookId { op, tys: tys@ }),
            call == hook_call(final(self)@, final(self).first(), HookId { op, tys: tys@ }),
    {
        let ghost id = HookId { op, tys: tys@ };
        for i in 0..self.keys.len()
            invariant
                *self == *old(self),
                self.wf(),
                self.first() + self@.len() <= usize::MAX,
                id == (HookId { op, tys: tys@ }),
                forall|k: int| 0 <= k < i ==> self@[k] != id,
        {
            if self.keys[i].same(op, &tys) {
                assert(self@[i as int] == id);
                assert(self@.contains(id));
                assert(self@.index_of(id) == i);
                return Instr::Call(FunctionIdx(self.function_count + i));
            }
        }
        let idx: usize = self.function_count + self.keys.len();
        assert(!self@.contains(id));
        self.keys.push(HookKey { op, tys });
        assert(self@ =~= old(self)@.push(id));
        assert(self@[self@.len() - 1] == id);
        assert(self@.index_of(id) == self@.len() - 1);
        Instr::Call(FunctionIdx(idx))
    }

    /// The hooks, in the order of their functions.
    pub fn finish(self) -> (hooks: Vec<Hook>)
        requires
            self.first() + self@.len() <= usize::MAX,
        ensures
            hooks@.len() == self@.len(),
            forall|k: int|
                #![trigger hooks@[k]]
                0 <= k < hooks@.len() ==> {
                    &&& hooks@[k].idx.0 == self.first() + k
                    &&& is_hook_function(hooks@[k].wasm, self@[k])
                    &&& hooks@[k].js@ == self@[k].js()
                },
    {
        let mut hooks: Vec<Hook> = Vec::new();
        for i in 0..self.keys.len()
            invariant
                self.first() + self@.len() <= usize::MAX,
                hooks@.len() == i,
                forall|k: int|
                    #![trigger hooks@[k]]
                    0 <= k < i ==> {
                        &&& hooks@[k].idx.0 == self.first() + k
                        &&& is_hook_function(hooks@[k].wasm, self@[k])
                        &&& hooks@[k].js@ == self@[k].js()
                    },
        {
            let key = &self.keys[i];
            assert(self@[i as int] == key@);
            hooks.push(
                Hook {
                    idx: FunctionIdx(self.function_count + i),
                    wasm: key.wasm(),
                    js: key.js(),
                },
            );
        }
        hooks
    }
}

} // verus!
