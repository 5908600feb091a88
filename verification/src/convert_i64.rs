//! Hand-over of 64-bit integers to hooks. The host language of the hooks has no 64-bit integers,
//! so each one is handed over as two 32-bit halves, the low one first.
use vstd::prelude::*;

use crate::ast::{GlobalOp, Instr, LocalOp, Val, ValType};
use crate::ops::NumericOp;

verus! {

/// The types under which a value of type `ty` is handed to a hook.
pub open spec fn lowered_type(ty: ValType) -> Seq<ValType> {
    if ty == ValType::I64 {
        seq![ValType::I32, ValType::I32]
    } else {
        seq![ty]
    }
}

/// The types under which values of types `tys` are handed to a hook.
pub open spec fn lowered_types(tys: Seq<ValType>) -> Seq<ValType>
    decreases tys.len(),
{
    if tys.len() == 0 {
        seq![]
    } else {
        lowered_types(tys.drop_last()) + lowered_type(tys.last())
    }
}

/// The instructions that hand to a hook the value of type `ty` that `instr` pushes.
pub open spec fn lowered_instr(instr: Instr, ty: ValType) -> Seq<Instr> {
    if ty == ValType::I64 {
        seq![
            instr,
            Instr::Numeric(NumericOp::I32WrapI64),
            instr,
            Instr::Const(Val::I64(32)),
            Instr::Numeric(NumericOp::I64ShrS),
            Instr::Numeric(NumericOp::I32WrapI64),
        ]
    } else {
        seq![instr]
    }
}

/// Whether the instruction only reads a variable or a constant, so that doing it twice pushes the
/// same value twice.
pub open spec fn is_read(instr: Instr) -> bool {
    ||| instr matches Instr::Local(LocalOp::GetLocal, _)
    ||| instr matches Instr::Global(GlobalOp::GetGlobal, _)
    ||| instr is Const
}

/// The instructions that hand to a hook the value of type `ty` that `instr` pushes.
pub fn convert_i64_instr(instr: Instr, ty: ValType) -> (instrs: Vec<Instr>)
    requires
        is_read(instr),
    ensures
        instrs@ == lowered_instr(instr, ty),
{
    let mut instrs: Vec<Instr> = Vec::new();
    if ty == ValType::I64 {
        let again = match &instr {
            Instr::Local(op, idx) => Instr::Local(*op, *idx),
            Instr::Global(op, idx) => Instr::Global(*op, *idx),
            Instr::Const(val) => Instr::Const(*val),
            _ => Instr::Nop,
        };
        instrs.push(again);
        instrs.push(Instr::Numeric(NumericOp::I32WrapI64));
        instrs.push(instr);
        instrs.push(Instr::Const(Val::I64(32)));
        instrs.push(Instr::Numeric(NumericOp::I64ShrS));
        instrs.push(Instr::Numeric(NumericOp::I32WrapI64));
    } else {
        instrs.push(instr);
    }
    assert(instrs@ =~= lowered_instr(instr, ty));
    instrs
}

/// The types under which values of types `tys` are handed to a hook.
pub fn convert_i64_types(tys: &Vec<ValType>) -> (lowered: Vec<ValType>)
    ensures
        lowered@ == lowered_types(tys@),
{
    let mut lowered: Vec<ValType> = Vec::new();
    for i in 0..tys.len()
        invariant
            lowered@ == lowered_types(tys@.take(i as int)),
    {
        if tys[i] == ValType::I64 {
            lowered.push(ValType::I32);
            lowered.push(ValType::I32);
        } else {
            lowered.push(tys[i]);
        }
        assert(tys@.take(i + 1).drop_last() =~= tys@.take(i as int));
        assert(lowered@ =~= lowered_types(tys@.take(i as int)) + lowered_type(tys@[i as int]));
    }
    assert(tys@.take(tys@.len() as int) =~= tys@);
    lowered
}

} // verus!
