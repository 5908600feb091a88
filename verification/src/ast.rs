//! The parts of a WebAssembly module that instrumentation reads and writes.
use vstd::prelude::*;

use crate::ops::{LoadOp, NumericOp, StoreOp};

verus! {

/// The types of values.
#[derive(Clone, Copy, PartialEq, Eq, Structural, Debug)]
pub enum ValType {
    I32,
    I64,
    F32,
    F64,
}

/// Constants. A floating-point constant is held by its bit pattern.
#[derive(Clone, Copy, PartialEq, Eq, Structural, Debug)]
pub enum Val {
    I32(i32),
    I64(i64),
    F32(u32),
    F64(u64),
}

impl Val {
    pub open spec fn ty(self) -> ValType {
        match self {
            Val::I32(_) => ValType::I32,
            Val::I64(_) => ValType::I64,
            Val::F32(_) => ValType::F32,
            Val::F64(_) => ValType::F64,
        }
    }

    /// The type of the constant.
    pub fn to_type(self) -> (ty: ValType)
        ensures
            ty == self.ty(),
    {
        match self {
            Val::I32(_) => ValType::I32,
            Val::I64(_) => ValType::I64,
            Val::F32(_) => ValType::F32,
            Val::F64(_) => ValType::F64,
        }
    }
}

/// The result of a block, where it has one.
#[derive(Clone, Copy, PartialEq, Eq, Debug)]
pub struct BlockType(pub Option<ValType>);

#[derive(Clone, Copy, PartialEq, Eq, Structural, Debug)]
pub enum Mutability {
    Const,
    Mut,
}

#[derive(Clone, Copy, PartialEq, Eq, Structural, Debug)]
pub struct GlobalType(pub ValType, pub Mutability);

/// Index of a function in its module.
#[derive(Clone, Copy, PartialEq, Eq, Structural, Debug)]
pub struct FunctionIdx(pub usize);

/// Index of a parameter or local variable in its function.
#[derive(Clone, Copy, PartialEq, Eq, Structural, Debug)]
pub struct LocalIdx(pub usize);

/// Index of a global variable in its module.
#[derive(Clone, Copy, PartialEq, Eq, Structural, Debug)]
pub struct GlobalIdx(pub usize);

/// Index of a table in its module.
#[derive(Clone, Copy, PartialEq, Eq, Structural, Debug)]
pub struct TableIdx(pub usize);

/// Index of a memory in its module.
#[derive(Clone, Copy, PartialEq, Eq, Structural, Debug)]
pub struct MemoryIdx(pub usize);

/// Index of an instruction in its function's body.
#[derive(Clone, Copy, PartialEq, Eq, Structural, Debug)]
pub struct InstrIdx(pub usize);

/// A branch label: how many enclosing blocks lie between the branch and its target.
#[derive(Clone, Copy, PartialEq, Eq, Structural, Debug)]
pub struct Label(pub usize);

/// The types that a function or an instruction takes and gives.
#[verifier::ext_equal]
pub ghost struct Signature {
    pub params: Seq<ValType>,
    pub results: Seq<ValType>,
}

/// The type of a function.
#[derive(PartialEq, Eq, Debug)]
pub struct FunctionType {
    pub params: Vec<ValType>,
    pub results: Vec<ValType>,
}

impl View for FunctionType {
    type V = Signature;

    open spec fn view(&self) -> Signature {
        Signature { params: self.params@, results: self.results@ }
    }
}

/// The type of an instruction.
#[derive(PartialEq, Eq, Debug)]
pub struct InstrType {
    pub inputs: Vec<ValType>,
    pub results: Vec<ValType>,
}

impl View for InstrType {
    type V = Signature;

    open spec fn view(&self) -> Signature {
        Signature { params: self.inputs@, results: self.results@ }
    }
}

/// The constant offset and the alignment of a memory access.
#[derive(Clone, Copy, PartialEq, Eq, Structural, Debug)]
pub struct Memarg {
    pub alignment: u32,
    pub offset: u32,
}

#[derive(Clone, Copy, PartialEq, Eq, Structural, Debug)]
pub enum LocalOp {
    GetLocal,
    SetLocal,
    TeeLocal,
}

impl LocalOp {
    /// The types that the access to a variable of type `ty` takes and gives.
    pub open spec fn signature(self, ty: ValType) -> Signature {
        match self {
            LocalOp::GetLocal => Signature { params: seq![], results: seq![ty] },
            LocalOp::SetLocal => Signature { params: seq![ty], results: seq![] },
            LocalOp::TeeLocal => Signature { params: seq![ty], results: seq![ty] },
        }
    }

    /// The types that the access to a variable of type `ty` takes and gives.
    pub fn to_type(self, ty: ValType) -> (instr_ty: InstrType)
        ensures
            instr_ty@ == self.signature(ty),
    {
        let instr_ty = match self {
            LocalOp::GetLocal => InstrType { inputs: vec![], results: vec![ty] },
            LocalOp::SetLocal => InstrType { inputs: vec![ty], results: vec![] },
            LocalOp::TeeLocal => InstrType { inputs: vec![ty], results: vec![ty] },
        };
        assert(instr_ty@ =~= self.signature(ty));
        instr_ty
    }
}

#[derive(Clone, Copy, PartialEq, Eq, Structural, Debug)]
pub enum GlobalOp {
    GetGlobal,
    SetGlobal,
}

impl GlobalOp {
    /// The types that the access to a variable of type `ty` takes and gives.
    pub open spec fn signature(self, ty: ValType) -> Signature {
        match self {
            GlobalOp::GetGlobal => Signature { params: seq![], results: seq![ty] },
            GlobalOp::SetGlobal => Signature { params: seq![ty], results: seq![] },
        }
    }

    /// The types that the access to a variable of type `ty` takes and gives.
    pub fn to_type(self, ty: ValType) -> (instr_ty: InstrType)
        ensures
            instr_ty@ == self.signature(ty),
    {
        let instr_ty = match self {
            GlobalOp::GetGlobal => InstrType { inputs: vec![], results: vec![ty] },
            GlobalOp::SetGlobal => InstrType { inputs: vec![ty], results: vec![] },
        };
        assert(instr_ty@ =~= self.signature(ty));
        instr_ty
    }
}

/// Instructions, with `block`, `loop`, `if`, `else` and `end` as delimiters of a flat sequence.
#[derive(PartialEq, Eq, Debug)]
pub enum Instr {
    Unreachable,
    Nop,
    Block(BlockType),
    Loop(BlockType),
    If(BlockType),
    Else,
    End,
    Br(Label),
    BrIf(Label),
    BrTable(Vec<Label>, Label),
    Return,
    Call(FunctionIdx),
    CallIndirect(FunctionType, TableIdx),
    Drop,
    Select,
    Local(LocalOp, LocalIdx),
    Global(GlobalOp, GlobalIdx),
    MemorySize(MemoryIdx),
    MemoryGrow(MemoryIdx),
    Load(LoadOp, Memarg),
    Store(StoreOp, Memarg),
    Const(Val),
    Numeric(NumericOp),
}

/// The instruction that hands an index (of a function, instruction, variable and so on) or a label
/// to a hook: a 32-bit constant with the low 32 bits of the index.
pub open spec fn index_const(index: usize) -> Instr {
    Instr::Const(Val::I32(index as i32))
}

/// The instruction that hands an index (of a function, instruction, variable and so on) or a label
/// to a hook.
pub fn push_index(index: usize) -> (instr: Instr)
    ensures
        instr == index_const(index),
        index <= i32::MAX ==> (instr matches Instr::Const(Val::I32(val)) && val as int == index as int),
{
    Instr::Const(Val::I32(index as i32))
}

/// Local variables (without the parameters) and instructions of a function.
#[derive(PartialEq, Eq, Debug)]
pub struct Code {
    pub locals: Vec<ValType>,
    pub body: Vec<Instr>,
}

/// A function: imported where it has no code.
#[derive(PartialEq, Eq, Debug)]
pub struct Function {
    pub type_: FunctionType,
    pub import: Option<(String, String)>,
    pub export: Option<String>,
    pub code: Option<Code>,
}

/// The indices of `count` variables from `first` on.
pub open spec fn consecutive(first: nat, count: nat) -> Seq<LocalIdx> {
    Seq::new(count, |i: int| LocalIdx((first + i) as usize))
}

/// A global variable: imported where it has no initial value.
#[derive(PartialEq, Eq, Debug)]
pub struct Global {
    pub type_: GlobalType,
    pub init: Option<Vec<Instr>>,
    pub import: Option<(String, String)>,
    pub export: Option<String>,
}

/// A table of functions.
#[derive(PartialEq, Eq, Debug)]
pub struct Table {
    pub export: Option<String>,
}

/// A module, as far as instrumentation reads or writes it.
#[derive(PartialEq, Eq, Debug)]
pub struct Module {
    pub functions: Vec<Function>,
    pub tables: Vec<Table>,
    pub globals: Vec<Global>,
    pub start: Option<FunctionIdx>,
}

} // verus!
