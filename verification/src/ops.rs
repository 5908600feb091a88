//! The typed operators of WebAssembly: numeric operators, loads and stores, with the value types
//! that they take and give and with their mnemonics.
use vstd::prelude::*;

use crate::ast::{InstrType, Signature, ValType};

verus! {

/// Numeric operators: tests, comparisons, arithmetic and conversions.
#[derive(Clone, Copy, PartialEq, Eq, Structural, Debug)]
pub enum NumericOp {
    I32Eqz, I32Eq, I32Ne, I32LtS, I32LtU, I32GtS, I32GtU, I32LeS, I32LeU, I32GeS, I32GeU, I32Clz
    , I32Ctz, I32Popcnt, I32Add, I32Sub, I32Mul, I32DivS, I32DivU, I32RemS, I32RemU, I32And, I32Or
    , I32Xor, I32Shl, I32ShrS, I32ShrU, I32Rotl, I32Rotr, I64Eqz, I64Eq, I64Ne, I64LtS, I64LtU
    , I64GtS, I64GtU, I64LeS, I64LeU, I64GeS, I64GeU, I64Clz, I64Ctz, I64Popcnt, I64Add, I64Sub
    , I64Mul, I64DivS, I64DivU, I64RemS, I64RemU, I64And, I64Or, I64Xor, I64Shl, I64ShrS, I64ShrU
    , I64Rotl, I64Rotr, F32Eq, F32Ne, F32Lt, F32Gt, F32Le, F32Ge, F32Abs, F32Neg, F32Ceil, F32Floor
    , F32Trunc, F32Nearest, F32Sqrt, F32Add, F32Sub, F32Mul, F32Div, F32Min, F32Max, F32Copysign
    , F64Eq, F64Ne, F64Lt, F64Gt, F64Le, F64Ge, F64Abs, F64Neg, F64Ceil, F64Floor, F64Trunc
    , F64Nearest, F64Sqrt, F64Add, F64Sub, F64Mul, F64Div, F64Min, F64Max, F64Copysign, I32WrapI64
    , I32TruncF32S, I32TruncF32U, I32TruncF64S, I32TruncF64U, I64ExtendI32S, I64ExtendI32U
    , I64TruncF32S, I64TruncF32U, I64TruncF64S, I64TruncF64U, F32ConvertI32S, F32ConvertI32U
    , F32ConvertI64S, F32ConvertI64U, F32DemoteF64, F64ConvertI32S, F64ConvertI32U, F64ConvertI64S
    , F64ConvertI64U, F64PromoteF32, I32ReinterpretF32, I64ReinterpretF64, F32ReinterpretI32
    , F64ReinterpretI64,
}

impl NumericOp {
    /// The type of every operand of the operator.
    pub open spec fn operand(self) -> ValType {
        match self {
            NumericOp::I32Eqz | NumericOp::I32Eq | NumericOp::I32Ne | NumericOp::I32LtS
            | NumericOp::I32LtU | NumericOp::I32GtS | NumericOp::I32GtU | NumericOp::I32LeS
            | NumericOp::I32LeU | NumericOp::I32GeS | NumericOp::I32GeU | NumericOp::I32Clz
            | NumericOp::I32Ctz | NumericOp::I32Popcnt | NumericOp::I32Add | NumericOp::I32Sub
            | NumericOp::I32Mul | NumericOp::I32DivS | NumericOp::I32DivU | NumericOp::I32RemS
            | NumericOp::I32RemU | NumericOp::I32And | NumericOp::I32Or | NumericOp::I32Xor
            | NumericOp::I32Shl | NumericOp::I32ShrS | NumericOp::I32ShrU | NumericOp::I32Rotl
            | NumericOp::I32Rotr | NumericOp::I64ExtendI32S | NumericOp::I64ExtendI32U
            | NumericOp::F32ConvertI32S | NumericOp::F32ConvertI32U | NumericOp::F64ConvertI32S
            | NumericOp::F64ConvertI32U | NumericOp::F32ReinterpretI32 => ValType::I32,
            NumericOp::I64Eqz | NumericOp::I64Eq | NumericOp::I64Ne | NumericOp::I64LtS
            | NumericOp::I64LtU | NumericOp::I64GtS | NumericOp::I64GtU | NumericOp::I64LeS
            | NumericOp::I64LeU | NumericOp::I64GeS | NumericOp::I64GeU | NumericOp::I64Clz
            | NumericOp::I64Ctz | NumericOp::I64Popcnt | NumericOp::I64Add | NumericOp::I64Sub
            | NumericOp::I64Mul | NumericOp::I64DivS | NumericOp::I64DivU | NumericOp::I64RemS
            | NumericOp::I64RemU | NumericOp::I64And | NumericOp::I64Or | NumericOp::I64Xor
            | NumericOp::I64Shl | NumericOp::I64ShrS | NumericOp::I64ShrU | NumericOp::I64Rotl
            | NumericOp::I64Rotr | NumericOp::I32WrapI64 | NumericOp::F32ConvertI64S
            | NumericOp::F32ConvertI64U | NumericOp::F64ConvertI64S | NumericOp::F64ConvertI64U
            | NumericOp::F64ReinterpretI64 => ValType::I64,
            NumericOp::F32Eq | NumericOp::F32Ne | NumericOp::F32Lt | NumericOp::F32Gt
            | NumericOp::F32Le | NumericOp::F32Ge | NumericOp::F32Abs | NumericOp::F32Neg
            | NumericOp::F32Ceil | NumericOp::F32Floor | NumericOp::F32Trunc | NumericOp::F32Nearest
            | NumericOp::F32Sqrt | NumericOp::F32Add | NumericOp::F32Sub | NumericOp::F32Mul
            | NumericOp::F32Div | NumericOp::F32Min | NumericOp::F32Max | NumericOp::F32Copysign
            | NumericOp::I32TruncF32S | NumericOp::I32TruncF32U | NumericOp::I64TruncF32S
            | NumericOp::I64TruncF32U | NumericOp::F64PromoteF32 | NumericOp::I32ReinterpretF32 => ValType::F32,
            NumericOp::F64Eq | NumericOp::F64Ne | NumericOp::F64Lt | NumericOp::F64Gt
            | NumericOp::F64Le | NumericOp::F64Ge | NumericOp::F64Abs | NumericOp::F64Neg
            | NumericOp::F64Ceil | NumericOp::F64Floor | NumericOp::F64Trunc | NumericOp::F64Nearest
            | NumericOp::F64Sqrt | NumericOp::F64Add | NumericOp::F64Sub | NumericOp::F64Mul
            | NumericOp::F64Div | NumericOp::F64Min | NumericOp::F64Max | NumericOp::F64Copysign
            | NumericOp::I32TruncF64S | NumericOp::I32TruncF64U | NumericOp::I64TruncF64S
            | NumericOp::I64TruncF64U | NumericOp::F32DemoteF64 | NumericOp::I64ReinterpretF64 => ValType::F64,
        }
    }

    /// Whether the operator takes two operands.
    pub open spec fn is_binary(self) -> bool {
        match self {
            NumericOp::I32Eqz | NumericOp::I32Clz | NumericOp::I32Ctz | NumericOp::I32Popcnt
            | NumericOp::I64Eqz | NumericOp::I64Clz | NumericOp::I64Ctz | NumericOp::I64Popcnt
            | NumericOp::F32Abs | NumericOp::F32Neg | NumericOp::F32Ceil | NumericOp::F32Floor
            | NumericOp::F32Trunc | NumericOp::F32Nearest | NumericOp::F32Sqrt | NumericOp::F64Abs
            | NumericOp::F64Neg | NumericOp::F64Ceil | NumericOp::F64Floor | NumericOp::F64Trunc
            | NumericOp::F64Nearest | NumericOp::F64Sqrt | NumericOp::I32WrapI64
            | NumericOp::I32TruncF32S | NumericOp::I32TruncF32U | NumericOp::I32TruncF64S
            | NumericOp::I32TruncF64U | NumericOp::I64ExtendI32S | NumericOp::I64ExtendI32U
            | NumericOp::I64TruncF32S | NumericOp::I64TruncF32U | NumericOp::I64TruncF64S
            | NumericOp::I64TruncF64U | NumericOp::F32ConvertI32S | NumericOp::F32ConvertI32U
            | NumericOp::F32ConvertI64S | NumericOp::F32ConvertI64U | NumericOp::F32DemoteF64
            | NumericOp::F64ConvertI32S | NumericOp::F64ConvertI32U | NumericOp::F64ConvertI64S
            | NumericOp::F64ConvertI64U | NumericOp::F64PromoteF32 | NumericOp::I32ReinterpretF32
            | NumericOp::I64ReinterpretF64 | NumericOp::F32ReinterpretI32
            | NumericOp::F64ReinterpretI64 => false,
            _ => true,
        }
    }

    /// The type of the operator's result.
    pub open spec fn result(self) -> ValType {
        match self {
            NumericOp::I32Eqz | NumericOp::I32Eq | NumericOp::I32Ne | NumericOp::I32LtS
            | NumericOp::I32LtU | NumericOp::I32GtS | NumericOp::I32GtU | NumericOp::I32LeS
            | NumericOp::I32LeU | NumericOp::I32GeS | NumericOp::I32GeU | NumericOp::I32Clz
            | NumericOp::I32Ctz | NumericOp::I32Popcnt | NumericOp::I32Add | NumericOp::I32Sub
            | NumericOp::I32Mul | NumericOp::I32DivS | NumericOp::I32DivU | NumericOp::I32RemS
            | NumericOp::I32RemU | NumericOp::I32And | NumericOp::I32Or | NumericOp::I32Xor
            | NumericOp::I32Shl | NumericOp::I32ShrS | NumericOp::I32ShrU | NumericOp::I32Rotl
            | NumericOp::I32Rotr | NumericOp::I64Eqz | NumericOp::I64Eq | NumericOp::I64Ne
            | NumericOp::I64LtS | NumericOp::I64LtU | NumericOp::I64GtS | NumericOp::I64GtU
            | NumericOp::I64LeS | NumericOp::I64LeU | NumericOp::I64GeS | NumericOp::I64GeU
            | NumericOp::F32Eq | NumericOp::F32Ne | NumericOp::F32Lt | NumericOp::F32Gt
            | NumericOp::F32Le | NumericOp::F32Ge | NumericOp::F64Eq | NumericOp::F64Ne
            | NumericOp::F64Lt | NumericOp::F64Gt | NumericOp::F64Le | NumericOp::F64Ge
            | NumericOp::I32WrapI64 | NumericOp::I32TruncF32S | NumericOp::I32TruncF32U
            | NumericOp::I32TruncF64S | NumericOp::I32TruncF64U | NumericOp::I32ReinterpretF32 => ValType::I32,
            NumericOp::I64Clz | NumericOp::I64Ctz | NumericOp::I64Popcnt | NumericOp::I64Add
            | NumericOp::I64Sub | NumericOp::I64Mul | NumericOp::I64DivS | NumericOp::I64DivU
            | NumericOp::I64RemS | NumericOp::I64RemU | NumericOp::I64And | NumericOp::I64Or
            | NumericOp::I64Xor | NumericOp::I64Shl | NumericOp::I64ShrS | NumericOp::I64ShrU
            | NumericOp::I64Rotl | NumericOp::I64Rotr | NumericOp::I64ExtendI32S
            | NumericOp::I64ExtendI32U | NumericOp::I64TruncF32S | NumericOp::I64TruncF32U
            | NumericOp::I64TruncF64S | NumericOp::I64TruncF64U | NumericOp::I64ReinterpretF64 => ValType::I64,
            NumericOp::F32Abs | NumericOp::F32Neg | NumericOp::F32Ceil | NumericOp::F32Floor
            | NumericOp::F32Trunc | NumericOp::F32Nearest | NumericOp::F32Sqrt | NumericOp::F32Add
            | NumericOp::F32Sub | NumericOp::F32Mul | NumericOp::F32Div | NumericOp::F32Min
            | NumericOp::F32Max | NumericOp::F32Copysign | NumericOp::F32ConvertI32S
            | NumericOp::F32ConvertI32U | NumericOp::F32ConvertI64S | NumericOp::F32ConvertI64U
            | NumericOp::F32DemoteF64 | NumericOp::F32ReinterpretI32 => ValType::F32,
            NumericOp::F64Abs | NumericOp::F64Neg | NumericOp::F64Ceil | NumericOp::F64Floor
            | NumericOp::F64Trunc | NumericOp::F64Nearest | NumericOp::F64Sqrt | NumericOp::F64Add
            | NumericOp::F64Sub | NumericOp::F64Mul | NumericOp::F64Div | NumericOp::F64Min
            | NumericOp::F64Max | NumericOp::F64Copysign | NumericOp::F64ConvertI32S
            | NumericOp::F64ConvertI32U | NumericOp::F64ConvertI64S | NumericOp::F64ConvertI64U
            | NumericOp::F64PromoteF32 | NumericOp::F64ReinterpretI64 => ValType::F64,
        }
    }

    pub open spec fn signature(self) -> Signature {
        Signature {
            params: if self.is_binary() {
                seq![self.operand(), self.operand()]
            } else {
                seq![self.operand()]
            },
            results: seq![self.result()],
        }
    }

    /// The operator's mnemonic.
    pub open spec fn mnemonic(self) -> Seq<char> {
        match self {
            NumericOp::I32Eqz => "i32.eqz"@,
            NumericOp::I32Eq => "i32.eq"@,
            NumericOp::I32Ne => "i32.ne"@,
            NumericOp::I32LtS => "i32.lt_s"@,
            NumericOp::I32LtU => "i32.lt_u"@,
            NumericOp::I32GtS => "i32.gt_s"@,
            NumericOp::I32GtU => "i32.gt_u"@,
            NumericOp::I32LeS => "i32.le_s"@,
            NumericOp::I32LeU => "i32.le_u"@,
            NumericOp::I32GeS => "i32.ge_s"@,
            NumericOp::I32GeU => "i32.ge_u"@,
            NumericOp::I32Clz => "i32.clz"@,
            NumericOp::I32Ctz => "i32.ctz"@,
            NumericOp::I32Popcnt => "i32.popcnt"@,
            NumericOp::I32Add => "i32.add"@,
            NumericOp::I32Sub => "i32.sub"@,
            NumericOp::I32Mul => "i32.mul"@,
            NumericOp::I32DivS => "i32.div_s"@,
            NumericOp::I32DivU => "i32.div_u"@,
            NumericOp::I32RemS => "i32.rem_s"@,
            NumericOp::I32RemU => "i32.rem_u"@,
            NumericOp::I32And => "i32.and"@,
            NumericOp::I32Or => "i32.or"@,
            NumericOp::I32Xor => "i32.xor"@,
            NumericOp::I32Shl => "i32.shl"@,
            NumericOp::I32ShrS => "i32.shr_s"@,
            NumericOp::I32ShrU => "i32.shr_u"@,
            NumericOp::I32Rotl => "i32.rotl"@,
            NumericOp::I32Rotr => "i32.rotr"@,
            NumericOp::I64Eqz => "i64.eqz"@,
            NumericOp::I64Eq => "i64.eq"@,
            NumericOp::I64Ne => "i64.ne"@,
            NumericOp::I64LtS => "i64.lt_s"@,
            NumericOp::I64LtU => "i64.lt_u"@,
            NumericOp::I64GtS => "i64.gt_s"@,
            NumericOp::I64GtU => "i64.gt_u"@,
            NumericOp::I64LeS => "i64.le_s"@,
            NumericOp::I64LeU => "i64.le_u"@,
            NumericOp::I64GeS => "i64.ge_s"@,
            NumericOp::I64GeU => "i64.ge_u"@,
            NumericOp::I64Clz => "i64.clz"@,
            NumericOp::I64Ctz => "i64.ctz"@,
            NumericOp::I64Popcnt => "i64.popcnt"@,
            NumericOp::I64Add => "i64.add"@,
            NumericOp::I64Sub => "i64.sub"@,
            NumericOp::I64Mul => "i64.mul"@,
            NumericOp::I64DivS => "i64.div_s"@,
            NumericOp::I64DivU => "i64.div_u"@,
            NumericOp::I64RemS => "i64.rem_s"@,
            NumericOp::I64RemU => "i64.rem_u"@,
            NumericOp::I64And => "i64.and"@,
            NumericOp::I64Or => "i64.or"@,
            NumericOp::I64Xor => "i64.xor"@,
            NumericOp::I64Shl => "i64.shl"@,
            NumericOp::I64ShrS => "i64.shr_s"@,
            NumericOp::I64ShrU => "i64.shr_u"@,
            NumericOp::I64Rotl => "i64.rotl"@,
            NumericOp::I64Rotr => "i64.rotr"@,
            NumericOp::F32Eq => "f32.eq"@,
            NumericOp::F32Ne => "f32.ne"@,
            NumericOp::F32Lt => "f32.lt"@,
            NumericOp::F32Gt => "f32.gt"@,
            NumericOp::F32Le => "f32.le"@,
            NumericOp::F32Ge => "f32.ge"@,
            NumericOp::F32Abs => "f32.abs"@,
            NumericOp::F32Neg => "f32.neg"@,
            NumericOp::F32Ceil => "f32.ceil"@,
            NumericOp::F32Floor => "f32.floor"@,
            NumericOp::F32Trunc => "f32.trunc"@,
            NumericOp::F32Nearest => "f32.nearest"@,
            NumericOp::F32Sqrt => "f32.sqrt"@,
            NumericOp::F32Add => "f32.add"@,
            NumericOp::F32Sub => "f32.sub"@,
            NumericOp::F32Mul => "f32.mul"@,
            NumericOp::F32Div => "f32.div"@,
            NumericOp::F32Min => "f32.min"@,
            NumericOp::F32Max => "f32.max"@,
            NumericOp::F32Copysign => "f32.copysign"@,
            NumericOp::F64Eq => "f64.eq"@,
            NumericOp::F64Ne => "f64.ne"@,
            NumericOp::F64Lt => "f64.lt"@,
            NumericOp::F64Gt => "f64.gt"@,
            NumericOp::F64Le => "f64.le"@,
            NumericOp::F64Ge => "f64.ge"@,
            NumericOp::F64Abs => "f64.abs"@,
            NumericOp::F64Neg => "f64.neg"@,
            NumericOp::F64Ceil => "f64.ceil"@,
            NumericOp::F64Floor => "f64.floor"@,
            NumericOp::F64Trunc => "f64.trunc"@,
            NumericOp::F64Nearest => "f64.nearest"@,
            NumericOp::F64Sqrt => "f64.sqrt"@,
            NumericOp::F64Add => "f64.add"@,
            NumericOp::F64Sub => "f64.sub"@,
            NumericOp::F64Mul => "f64.mul"@,
            NumericOp::F64Div => "f64.div"@,
            NumericOp::F64Min => "f64.min"@,
            NumericOp::F64Max => "f64.max"@,
            NumericOp::F64Copysign => "f64.copysign"@,
            NumericOp::I32WrapI64 => "i32.wrap_i64"@,
            NumericOp::I32TruncF32S => "i32.trunc_f32_s"@,
            NumericOp::I32TruncF32U => "i32.trunc_f32_u"@,
            NumericOp::I32TruncF64S => "i32.trunc_f64_s"@,
            NumericOp::I32TruncF64U => "i32.trunc_f64_u"@,
            NumericOp::I64ExtendI32S => "i64.extend_i32_s"@,
            NumericOp::I64ExtendI32U => "i64.extend_i32_u"@,
            NumericOp::I64TruncF32S => "i64.trunc_f32_s"@,
            NumericOp::I64TruncF32U => "i64.trunc_f32_u"@,
            NumericOp::I64TruncF64S => "i64.trunc_f64_s"@,
            NumericOp::I64TruncF64U => "i64.trunc_f64_u"@,
            NumericOp::F32ConvertI32S => "f32.convert_i32_s"@,
            NumericOp::F32ConvertI32U => "f32.convert_i32_u"@,
            NumericOp::F32ConvertI64S => "f32.convert_i64_s"@,
            NumericOp::F32ConvertI64U => "f32.convert_i64_u"@,
            NumericOp::F32DemoteF64 => "f32.demote_f64"@,
            NumericOp::F64ConvertI32S => "f64.convert_i32_s"@,
            NumericOp::F64ConvertI32U => "f64.convert_i32_u"@,
            NumericOp::F64ConvertI64S => "f64.convert_i64_s"@,
            NumericOp::F64ConvertI64U => "f64.convert_i64_u"@,
            NumericOp::F64PromoteF32 => "f64.promote_f32"@,
            NumericOp::I32ReinterpretF32 => "i32.reinterpret_f32"@,
            NumericOp::I64ReinterpretF64 => "i64.reinterpret_f64"@,
            NumericOp::F32ReinterpretI32 => "f32.reinterpret_i32"@,
            NumericOp::F64ReinterpretI64 => "f64.reinterpret_i64"@,
        }
    }

    fn operand_type(self) -> (ty: ValType)
        ensures
            ty == self.operand(),
    {
        match self {
            NumericOp::I32Eqz | NumericOp::I32Eq | NumericOp::I32Ne | NumericOp::I32LtS
            | NumericOp::I32LtU | NumericOp::I32GtS | NumericOp::I32GtU | NumericOp::I32LeS
            | NumericOp::I32LeU | NumericOp::I32GeS | NumericOp::I32GeU | NumericOp::I32Clz
            | NumericOp::I32Ctz | NumericOp::I32Popcnt | NumericOp::I32Add | NumericOp::I32Sub
            | NumericOp::I32Mul | NumericOp::I32DivS | NumericOp::I32DivU | NumericOp::I32RemS
            | NumericOp::I32RemU | NumericOp::I32And | NumericOp::I32Or | NumericOp::I32Xor
            | NumericOp::I32Shl | NumericOp::I32ShrS | NumericOp::I32ShrU | NumericOp::I32Rotl
            | NumericOp::I32Rotr | NumericOp::I64ExtendI32S | NumericOp::I64ExtendI32U
            | NumericOp::F32ConvertI32S | NumericOp::F32ConvertI32U | NumericOp::F64ConvertI32S
            | NumericOp::F64ConvertI32U | NumericOp::F32ReinterpretI32 => ValType::I32,
            NumericOp::I64Eqz | NumericOp::I64Eq | NumericOp::I64Ne | NumericOp::I64LtS
            | NumericOp::I64LtU | NumericOp::I64GtS | NumericOp::I64GtU | NumericOp::I64LeS
            | NumericOp::I64LeU | NumericOp::I64GeS | NumericOp::I64GeU | NumericOp::I64Clz
            | NumericOp::I64Ctz | NumericOp::I64Popcnt | NumericOp::I64Add | NumericOp::I64Sub
            | NumericOp::I64Mul | NumericOp::I64DivS | NumericOp::I64DivU | NumericOp::I64RemS
            | NumericOp::I64RemU | NumericOp::I64And | NumericOp::I64Or | NumericOp::I64Xor
            | NumericOp::I64Shl | NumericOp::I64ShrS | NumericOp::I64ShrU | NumericOp::I64Rotl
            | NumericOp::I64Rotr | NumericOp::I32WrapI64 | NumericOp::F32ConvertI64S
            | NumericOp::F32ConvertI64U | NumericOp::F64ConvertI64S | NumericOp::F64ConvertI64U
            | NumericOp::F64ReinterpretI64 => ValType::I64,
            NumericOp::F32Eq | NumericOp::F32Ne | NumericOp::F32Lt | NumericOp::F32Gt
            | NumericOp::F32Le | NumericOp::F32Ge | NumericOp::F32Abs | NumericOp::F32Neg
            | NumericOp::F32Ceil | NumericOp::F32Floor | NumericOp::F32Trunc | NumericOp::F32Nearest
            | NumericOp::F32Sqrt | NumericOp::F32Add | NumericOp::F32Sub | NumericOp::F32Mul
            | NumericOp::F32Div | NumericOp::F32Min | NumericOp::F32Max | NumericOp::F32Copysign
            | NumericOp::I32TruncF32S | NumericOp::I32TruncF32U | NumericOp::I64TruncF32S
            | NumericOp::I64TruncF32U | NumericOp::F64PromoteF32 | NumericOp::I32ReinterpretF32 => ValType::F32,
            NumericOp::F64Eq | NumericOp::F64Ne | NumericOp::F64Lt | NumericOp::F64Gt
            | NumericOp::F64Le | NumericOp::F64Ge | NumericOp::F64Abs | NumericOp::F64Neg
            | NumericOp::F64Ceil | NumericOp::F64Floor | NumericOp::F64Trunc | NumericOp::F64Nearest
            | NumericOp::F64Sqrt | NumericOp::F64Add | NumericOp::F64Sub | NumericOp::F64Mul
            | NumericOp::F64Div | NumericOp::F64Min | NumericOp::F64Max | NumericOp::F64Copysign
            | NumericOp::I32TruncF64S | NumericOp::I32TruncF64U | NumericOp::I64TruncF64S
            | NumericOp::I64TruncF64U | NumericOp::F32DemoteF64 | NumericOp::I64ReinterpretF64 => ValType::F64,
        }
    }

    fn takes_two(self) -> (b: bool)
        ensures
            b == self.is_binary(),
    {
        match self {
            NumericOp::I32Eqz | NumericOp::I32Clz | NumericOp::I32Ctz | NumericOp::I32Popcnt
            | NumericOp::I64Eqz | NumericOp::I64Clz | NumericOp::I64Ctz | NumericOp::I64Popcnt
            | NumericOp::F32Abs | NumericOp::F32Neg | NumericOp::F32Ceil | NumericOp::F32Floor
            | NumericOp::F32Trunc | NumericOp::F32Nearest | NumericOp::F32Sqrt | NumericOp::F64Abs
            | NumericOp::F64Neg | NumericOp::F64Ceil | NumericOp::F64Floor | NumericOp::F64Trunc
            | NumericOp::F64Nearest | NumericOp::F64Sqrt | NumericOp::I32WrapI64
            | NumericOp::I32TruncF32S | NumericOp::I32TruncF32U | NumericOp::I32TruncF64S
            | NumericOp::I32TruncF64U | NumericOp::I64ExtendI32S | NumericOp::I64ExtendI32U
            | NumericOp::I64TruncF32S | NumericOp::I64TruncF32U | NumericOp::I64TruncF64S
            | NumericOp::I64TruncF64U | NumericOp::F32ConvertI32S | NumericOp::F32ConvertI32U
            | NumericOp::F32ConvertI64S | NumericOp::F32ConvertI64U | NumericOp::F32DemoteF64
            | NumericOp::F64ConvertI32S | NumericOp::F64ConvertI32U | NumericOp::F64ConvertI64S
            | NumericOp::F64ConvertI64U | NumericOp::F64PromoteF32 | NumericOp::I32ReinterpretF32
            | NumericOp::I64ReinterpretF64 | NumericOp::F32ReinterpretI32
            | NumericOp::F64ReinterpretI64 => false,
            _ => true,
        }
    }

    fn result_type(self) -> (ty: ValType)
        ensures
            ty == self.result(),
    {
        match self {
            NumericOp::I32Eqz | NumericOp::I32Eq | NumericOp::I32Ne | NumericOp::I32LtS
            | NumericOp::I32LtU | NumericOp::I32GtS | NumericOp::I32GtU | NumericOp::I32LeS
            | NumericOp::I32LeU | NumericOp::I32GeS | NumericOp::I32GeU | NumericOp::I32Clz
            | NumericOp::I32Ctz | NumericOp::I32Popcnt | NumericOp::I32Add | NumericOp::I32Sub
            | NumericOp::I32Mul | NumericOp::I32DivS | NumericOp::I32DivU | NumericOp::I32RemS
            | NumericOp::I32RemU | NumericOp::I32And | NumericOp::I32Or | NumericOp::I32Xor
            | NumericOp::I32Shl | NumericOp::I32ShrS | NumericOp::I32ShrU | NumericOp::I32Rotl
            | NumericOp::I32Rotr | NumericOp::I64Eqz | NumericOp::I64Eq | NumericOp::I64Ne
            | NumericOp::I64LtS | NumericOp::I64LtU | NumericOp::I64GtS | NumericOp::I64GtU
            | NumericOp::I64LeS | NumericOp::I64LeU | NumericOp::I64GeS | NumericOp::I64GeU
            | NumericOp::F32Eq | NumericOp::F32Ne | NumericOp::F32Lt | NumericOp::F32Gt
            | NumericOp::F32Le | NumericOp::F32Ge | NumericOp::F64Eq | NumericOp::F64Ne
            | NumericOp::F64Lt | NumericOp::F64Gt | NumericOp::F64Le | NumericOp::F64Ge
            | NumericOp::I32WrapI64 | NumericOp::I32TruncF32S | NumericOp::I32TruncF32U
            | NumericOp::I32TruncF64S | NumericOp::I32TruncF64U | NumericOp::I32ReinterpretF32 => ValType::I32,
            NumericOp::I64Clz | NumericOp::I64Ctz | NumericOp::I64Popcnt | NumericOp::I64Add
            | NumericOp::I64Sub | NumericOp::I64Mul | NumericOp::I64DivS | NumericOp::I64DivU
            | NumericOp::I64RemS | NumericOp::I64RemU | NumericOp::I64And | NumericOp::I64Or
            | NumericOp::I64Xor | NumericOp::I64Shl | NumericOp::I64ShrS | NumericOp::I64ShrU
            | NumericOp::I64Rotl | NumericOp::I64Rotr | NumericOp::I64ExtendI32S
            | NumericOp::I64ExtendI32U | NumericOp::I64TruncF32S | NumericOp::I64TruncF32U
            | NumericOp::I64TruncF64S | NumericOp::I64TruncF64U | NumericOp::I64ReinterpretF64 => ValType::I64,
            NumericOp::F32Abs | NumericOp::F32Neg | NumericOp::F32Ceil | NumericOp::F32Floor
            | NumericOp::F32Trunc | NumericOp::F32Nearest | NumericOp::F32Sqrt | NumericOp::F32Add
            | NumericOp::F32Sub | NumericOp::F32Mul | NumericOp::F32Div | NumericOp::F32Min
            | NumericOp::F32Max | NumericOp::F32Copysign | NumericOp::F32ConvertI32S
            | NumericOp::F32ConvertI32U | NumericOp::F32ConvertI64S | NumericOp::F32ConvertI64U
            | NumericOp::F32DemoteF64 | NumericOp::F32ReinterpretI32 => ValType::F32,
            NumericOp::F64Abs | NumericOp::F64Neg | NumericOp::F64Ceil | NumericOp::F64Floor
            | NumericOp::F64Trunc | NumericOp::F64Nearest | NumericOp::F64Sqrt | NumericOp::F64Add
            | NumericOp::F64Sub | NumericOp::F64Mul | NumericOp::F64Div | NumericOp::F64Min
            | NumericOp::F64Max | NumericOp::F64Copysign | NumericOp::F64ConvertI32S
            | NumericOp::F64ConvertI32U | NumericOp::F64ConvertI64S | NumericOp::F64ConvertI64U
            | NumericOp::F64PromoteF32 | NumericOp::F64ReinterpretI64 => ValType::F64,
        }
    }

    /// The types that the operator takes from the stack and gives back to it.
    pub fn to_type(self) -> (ty: InstrType)
        ensures
            ty@ == self.signature(),
    {
        let operand = self.operand_type();
        let inputs = if self.takes_two() {
            vec![operand, operand]
        } else {
            vec![operand]
        };
        let ty = InstrType { inputs, results: vec![self.result_type()] };
        assert(ty@.params =~= self.signature().params);
        assert(ty@.results =~= self.signature().results);
        ty
    }

    /// The operator's mnemonic.
    pub fn name(self) -> (name: &'static str)
        ensures
            name@ == self.mnemonic(),
    {
        match self {
            NumericOp::I32Eqz => "i32.eqz",
            NumericOp::I32Eq => "i32.eq",
            NumericOp::I32Ne => "i32.ne",
            NumericOp::I32LtS => "i32.lt_s",
            NumericOp::I32LtU => "i32.lt_u",
            NumericOp::I32GtS => "i32.gt_s",
            NumericOp::I32GtU => "i32.gt_u",
            NumericOp::I32LeS => "i32.le_s",
            NumericOp::I32LeU => "i32.le_u",
            NumericOp::I32GeS => "i32.ge_s",
            NumericOp::I32GeU => "i32.ge_u",
            NumericOp::I32Clz => "i32.clz",
            NumericOp::I32Ctz => "i32.ctz",
            NumericOp::I32Popcnt => "i32.popcnt",
            NumericOp::I32Add => "i32.add",
            NumericOp::I32Sub => "i32.sub",
            NumericOp::I32Mul => "i32.mul",
            NumericOp::I32DivS => "i32.div_s",
            NumericOp::I32DivU => "i32.div_u",
            NumericOp::I32RemS => "i32.rem_s",
            NumericOp::I32RemU => "i32.rem_u",
            NumericOp::I32And => "i32.and",
            NumericOp::I32Or => "i32.or",
            NumericOp::I32Xor => "i32.xor",
            NumericOp::I32Shl => "i32.shl",
            NumericOp::I32ShrS => "i32.shr_s",
            NumericOp::I32ShrU => "i32.shr_u",
            NumericOp::I32Rotl => "i32.rotl",
            NumericOp::I32Rotr => "i32.rotr",
            NumericOp::I64Eqz => "i64.eqz",
            NumericOp::I64Eq => "i64.eq",
            NumericOp::I64Ne => "i64.ne",
            NumericOp::I64LtS => "i64.lt_s",
            NumericOp::I64LtU => "i64.lt_u",
            NumericOp::I64GtS => "i64.gt_s",
            NumericOp::I64GtU => "i64.gt_u",
            NumericOp::I64LeS => "i64.le_s",
            NumericOp::I64LeU => "i64.le_u",
            NumericOp::I64GeS => "i64.ge_s",
            NumericOp::I64GeU => "i64.ge_u",
            NumericOp::I64Clz => "i64.clz",
            NumericOp::I64Ctz => "i64.ctz",
            NumericOp::I64Popcnt => "i64.popcnt",
            NumericOp::I64Add => "i64.add",
            NumericOp::I64Sub => "i64.sub",
            NumericOp::I64Mul => "i64.mul",
            NumericOp::I64DivS => "i64.div_s",
            NumericOp::I64DivU => "i64.div_u",
            NumericOp::I64RemS => "i64.rem_s",
            NumericOp::I64RemU => "i64.rem_u",
            NumericOp::I64And => "i64.and",
            NumericOp::I64Or => "i64.or",
            NumericOp::I64Xor => "i64.xor",
            NumericOp::I64Shl => "i64.shl",
            NumericOp::I64ShrS => "i64.shr_s",
            NumericOp::I64ShrU => "i64.shr_u",
            NumericOp::I64Rotl => "i64.rotl",
            NumericOp::I64Rotr => "i64.rotr",
            NumericOp::F32Eq => "f32.eq",
            NumericOp::F32Ne => "f32.ne",
            NumericOp::F32Lt => "f32.lt",
            NumericOp::F32Gt => "f32.gt",
            NumericOp::F32Le => "f32.le",
            NumericOp::F32Ge => "f32.ge",
            NumericOp::F32Abs => "f32.abs",
            NumericOp::F32Neg => "f32.neg",
            NumericOp::F32Ceil => "f32.ceil",
            NumericOp::F32Floor => "f32.floor",
            NumericOp::F32Trunc => "f32.trunc",
            NumericOp::F32Nearest => "f32.nearest",
            NumericOp::F32Sqrt => "f32.sqrt",
            NumericOp::F32Add => "f32.add",
            NumericOp::F32Sub => "f32.sub",
            NumericOp::F32Mul => "f32.mul",
            NumericOp::F32Div => "f32.div",
            NumericOp::F32Min => "f32.min",
            NumericOp::F32Max => "f32.max",
            NumericOp::F32Copysign => "f32.copysign",
            NumericOp::F64Eq => "f64.eq",
            NumericOp::F64Ne => "f64.ne",
            NumericOp::F64Lt => "f64.lt",
            NumericOp::F64Gt => "f64.gt",
            NumericOp::F64Le => "f64.le",
            NumericOp::F64Ge => "f64.ge",
            NumericOp::F64Abs => "f64.abs",
            NumericOp::F64Neg => "f64.neg",
            NumericOp::F64Ceil => "f64.ceil",
            NumericOp::F64Floor => "f64.floor",
            NumericOp::F64Trunc => "f64.trunc",
            NumericOp::F64Nearest => "f64.nearest",
            NumericOp::F64Sqrt => "f64.sqrt",
            NumericOp::F64Add => "f64.add",
            NumericOp::F64Sub => "f64.sub",
            NumericOp::F64Mul => "f64.mul",
            NumericOp::F64Div => "f64.div",
            NumericOp::F64Min => "f64.min",
            NumericOp::F64Max => "f64.max",
            NumericOp::F64Copysign => "f64.copysign",
            NumericOp::I32WrapI64 => "i32.wrap_i64",
            NumericOp::I32TruncF32S => "i32.trunc_f32_s",
            NumericOp::I32TruncF32U => "i32.trunc_f32_u",
            NumericOp::I32TruncF64S => "i32.trunc_f64_s",
            NumericOp::I32TruncF64U => "i32.trunc_f64_u",
            NumericOp::I64ExtendI32S => "i64.extend_i32_s",
            NumericOp::I64ExtendI32U => "i64.extend_i32_u",
            NumericOp::I64TruncF32S => "i64.trunc_f32_s",
            NumericOp::I64TruncF32U => "i64.trunc_f32_u",
            NumericOp::I64TruncF64S => "i64.trunc_f64_s",
            NumericOp::I64TruncF64U => "i64.trunc_f64_u",
            NumericOp::F32ConvertI32S => "f32.convert_i32_s",
            NumericOp::F32ConvertI32U => "f32.convert_i32_u",
            NumericOp::F32ConvertI64S => "f32.convert_i64_s",
            NumericOp::F32ConvertI64U => "f32.convert_i64_u",
            NumericOp::F32DemoteF64 => "f32.demote_f64",
            NumericOp::F64ConvertI32S => "f64.convert_i32_s",
            NumericOp::F64ConvertI32U => "f64.convert_i32_u",
            NumericOp::F64ConvertI64S => "f64.convert_i64_s",
            NumericOp::F64ConvertI64U => "f64.convert_i64_u",
            NumericOp::F64PromoteF32 => "f64.promote_f32",
            NumericOp::I32ReinterpretF32 => "i32.reinterpret_f32",
            NumericOp::I64ReinterpretF64 => "i64.reinterpret_f64",
            NumericOp::F32ReinterpretI32 => "f32.reinterpret_i32",
            NumericOp::F64ReinterpretI64 => "f64.reinterpret_i64",
        }
    }
}

/// Memory reads, with the width that is read where it is narrower than the result.
#[derive(Clone, Copy, PartialEq, Eq, Structural, Debug)]
pub enum LoadOp {
    I32Load, I64Load, F32Load, F64Load, I32Load8S, I32Load8U, I32Load16S, I32Load16U, I64Load8S
    , I64Load8U, I64Load16S, I64Load16U, I64Load32S, I64Load32U,
}

impl LoadOp {
    /// The type of the value that the operator reads.
    pub open spec fn value(self) -> ValType {
        match self {
            LoadOp::I32Load | LoadOp::I32Load8S | LoadOp::I32Load8U | LoadOp::I32Load16S
            | LoadOp::I32Load16U => ValType::I32,
            LoadOp::I64Load | LoadOp::I64Load8S | LoadOp::I64Load8U | LoadOp::I64Load16S
            | LoadOp::I64Load16U | LoadOp::I64Load32S | LoadOp::I64Load32U => ValType::I64,
            LoadOp::F32Load => ValType::F32,
            LoadOp::F64Load => ValType::F64,
        }
    }

    pub open spec fn signature(self) -> Signature {
        Signature { params: seq![ValType::I32], results: seq![self.value()] }
    }

    /// The operator's mnemonic.
    pub open spec fn mnemonic(self) -> Seq<char> {
        match self {
            LoadOp::I32Load => "i32.load"@,
            LoadOp::I64Load => "i64.load"@,
            LoadOp::F32Load => "f32.load"@,
            LoadOp::F64Load => "f64.load"@,
            LoadOp::I32Load8S => "i32.load8_s"@,
            LoadOp::I32Load8U => "i32.load8_u"@,
            LoadOp::I32Load16S => "i32.load16_s"@,
            LoadOp::I32Load16U => "i32.load16_u"@,
            LoadOp::I64Load8S => "i64.load8_s"@,
            LoadOp::I64Load8U => "i64.load8_u"@,
            LoadOp::I64Load16S => "i64.load16_s"@,
            LoadOp::I64Load16U => "i64.load16_u"@,
            LoadOp::I64Load32S => "i64.load32_s"@,
            LoadOp::I64Load32U => "i64.load32_u"@,
        }
    }

    pub fn value_type(self) -> (ty: ValType)
        ensures
            ty == self.value(),
    {
        match self {
            LoadOp::I32Load | LoadOp::I32Load8S | LoadOp::I32Load8U | LoadOp::I32Load16S
            | LoadOp::I32Load16U => ValType::I32,
            LoadOp::I64Load | LoadOp::I64Load8S | LoadOp::I64Load8U | LoadOp::I64Load16S
            | LoadOp::I64Load16U | LoadOp::I64Load32S | LoadOp::I64Load32U => ValType::I64,
            LoadOp::F32Load => ValType::F32,
            LoadOp::F64Load => ValType::F64,
        }
    }

    /// The types that the operator takes from the stack and gives back to it.
    pub fn to_type(self) -> (ty: InstrType)
        ensures
            ty@ == self.signature(),
    {
        let ty = InstrType { inputs: vec![ValType::I32], results: vec![self.value_type()] };
        assert(ty@.params =~= self.signature().params);
        assert(ty@.results =~= self.signature().results);
        ty
    }

    /// The operator's mnemonic.
    pub fn name(self) -> (name: &'static str)
        ensures
            name@ == self.mnemonic(),
    {
        match self {
            LoadOp::I32Load => "i32.load",
            LoadOp::I64Load => "i64.load",
            LoadOp::F32Load => "f32.load",
            LoadOp::F64Load => "f64.load",
            LoadOp::I32Load8S => "i32.load8_s",
            LoadOp::I32Load8U => "i32.load8_u",
            LoadOp::I32Load16S => "i32.load16_s",
            LoadOp::I32Load16U => "i32.load16_u",
            LoadOp::I64Load8S => "i64.load8_s",
            LoadOp::I64Load8U => "i64.load8_u",
            LoadOp::I64Load16S => "i64.load16_s",
            LoadOp::I64Load16U => "i64.load16_u",
            LoadOp::I64Load32S => "i64.load32_s",
            LoadOp::I64Load32U => "i64.load32_u",
        }
    }
}

/// Memory writes, with the width that is written where it is narrower than the value.
#[derive(Clone, Copy, PartialEq, Eq, Structural, Debug)]
pub enum StoreOp {
    I32Store, I64Store, F32Store, F64Store, I32Store8, I32Store16, I64Store8, I64Store16, I64Store32,
}

impl StoreOp {
    /// The type of the value that the operator writes.
    pub open spec fn value(self) -> ValType {
        match self {
            StoreOp::I32Store | StoreOp::I32Store8 | StoreOp::I32Store16 => ValType::I32,
            StoreOp::I64Store | StoreOp::I64Store8 | StoreOp::I64Store16 | StoreOp::I64Store32 => ValType::I64,
            StoreOp::F32Store => ValType::F32,
            StoreOp::F64Store => ValType::F64,
        }
    }

    pub open spec fn signature(self) -> Signature {
        Signature { params: seq![ValType::I32, self.value()], results: seq![] }
    }

    /// The operator's mnemonic.
    pub open spec fn mnemonic(self) -> Seq<char> {
        match self {
            StoreOp::I32Store => "i32.store"@,
            StoreOp::I64Store => "i64.store"@,
            StoreOp::F32Store => "f32.store"@,
            StoreOp::F64Store => "f64.store"@,
            StoreOp::I32Store8 => "i32.store8"@,
            StoreOp::I32Store16 => "i32.store16"@,
            StoreOp::I64Store8 => "i64.store8"@,
            StoreOp::I64Store16 => "i64.store16"@,
            StoreOp::I64Store32 => "i64.store32"@,
        }
    }

    pub fn value_type(self) -> (ty: ValType)
        ensures
            ty == self.value(),
    {
        match self {
            StoreOp::I32Store | StoreOp::I32Store8 | StoreOp::I32Store16 => ValType::I32,
            StoreOp::I64Store | StoreOp::I64Store8 | StoreOp::I64Store16 | StoreOp::I64Store32 => ValType::I64,
            StoreOp::F32Store => ValType::F32,
            StoreOp::F64Store => ValType::F64,
        }
    }

    /// The types that the operator takes from the stack and gives back to it.
    pub fn to_type(self) -> (ty: InstrType)
        ensures
            ty@ == self.signature(),
    {
        let ty = InstrType { inputs: vec![ValType::I32, self.value_type()], results: vec![] };
        assert(ty@.params =~= self.signature().params);
        assert(ty@.results =~= self.signature().results);
        ty
    }

    /// The operator's mnemonic.
    pub fn name(self) -> (name: &'static str)
        ensures
            name@ == self.mnemonic(),
    {
        match self {
            StoreOp::I32Store => "i32.store",
            StoreOp::I64Store => "i64.store",
            StoreOp::F32Store => "f32.store",
            StoreOp::F64Store => "f64.store",
            StoreOp::I32Store8 => "i32.store8",
            StoreOp::I32Store16 => "i32.store16",
            StoreOp::I64Store8 => "i64.store8",
            StoreOp::I64Store16 => "i64.store16",
            StoreOp::I64Store32 => "i64.store32",
        }
    }
}

} // verus!
