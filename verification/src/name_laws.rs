//! What the names of operators and hooks say: the type that an operator works on, what it takes and
//! gives, and the types that a hook is for can be read off them.
use vstd::prelude::*;

use crate::ast::{Function, GlobalOp, LocalOp, Signature, Val, ValType};
use crate::block_stack::BlockKind;
use crate::convert_i64::{lowered_type, lowered_types};
use crate::hook_map::{is_hook_function, type_suffix, type_word, HookId, HookOp};
use crate::ops::{LoadOp, NumericOp, StoreOp};

verus! {

/// The type whose word stands in the text at index `at`: a letter for integers or floating-point numbers,
/// and the number of bits.
pub open spec fn type_at(text: Seq<char>, at: int) -> Option<ValType> {
    if at < 0 || at + 3 > text.len() {
        None
    } else {
        match (text[at], text[at + 1], text[at + 2]) {
            ('i', '3', '2') => Some(ValType::I32),
            ('i', '6', '4') => Some(ValType::I64),
            ('f', '3', '2') => Some(ValType::F32),
            ('f', '6', '4') => Some(ValType::F64),
            _ => None,
        }
    }
}

/// The type that a conversion converts from, which its name ends with, but for a letter for the sign.
/// `None` if the name is not that of a conversion.
pub open spec fn source_type(name: Seq<char>) -> Option<ValType> {
    let len = name.len();
    if len > 7 && name[len - 4] == '_' {
        type_at(name, len - 3)
    } else if len > 7 && name[len - 6] == '_' && name[len - 2] == '_' {
        type_at(name, len - 5)
    } else {
        None
    }
}

/// Whether the name is that of a comparison: two letters, with a sign where it matters, behind the type.
pub open spec fn names_comparison(name: Seq<char>) -> bool {
    ||| name.len() == 6 && !(name[4] == 'o' && name[5] == 'r')
    ||| name.len() == 8 && name[6] == '_'
}

/// Whether the name is that of an operator with one operand, behind the type.
pub open spec fn names_unary(name: Seq<char>) -> bool {
    let word = name.skip(4);
    ||| word == seq!['c', 'l', 'z']
    ||| word == seq!['c', 't', 'z']
    ||| word == seq!['p', 'o', 'p', 'c', 'n', 't']
    ||| word == seq!['a', 'b', 's']
    ||| word == seq!['n', 'e', 'g']
    ||| word == seq!['c', 'e', 'i', 'l']
    ||| word == seq!['f', 'l', 'o', 'o', 'r']
    ||| word == seq!['t', 'r', 'u', 'n', 'c']
    ||| word == seq!['n', 'e', 'a', 'r', 'e', 's', 't']
    ||| word == seq!['s', 'q', 'r', 't']
}

/// The types that the operator with the given name takes and gives.
pub open spec fn signature_named(name: Seq<char>) -> Option<Signature> {
    match (type_at(name, 0), source_type(name)) {
        (Some(ty), Some(source)) => Some(Signature { params: seq![source], results: seq![ty] }),
        (Some(ty), None) => if name.skip(4) == seq!['e', 'q', 'z'] {
            Some(Signature { params: seq![ty], results: seq![ValType::I32] })
        } else if names_comparison(name) {
            Some(Signature { params: seq![ty, ty], results: seq![ValType::I32] })
        } else if names_unary(name) {
            Some(Signature { params: seq![ty], results: seq![ty] })
        } else {
            Some(Signature { params: seq![ty, ty], results: seq![ty] })
        },
        _ => None,
    }
}

/// The word for what a numeric operator does, which is the same for all types.
pub open spec fn numeric_word(op: NumericOp) -> Seq<char> {
    match op {
        NumericOp::I32Eqz | NumericOp::I64Eqz => "eqz"@,
        NumericOp::I32Eq | NumericOp::I64Eq | NumericOp::F32Eq | NumericOp::F64Eq => "eq"@,
        NumericOp::I32Ne | NumericOp::I64Ne | NumericOp::F32Ne | NumericOp::F64Ne => "ne"@,
        NumericOp::I32LtS | NumericOp::I64LtS => "lt_s"@,
        NumericOp::I32LtU | NumericOp::I64LtU => "lt_u"@,
        NumericOp::I32GtS | NumericOp::I64GtS => "gt_s"@,
        NumericOp::I32GtU | NumericOp::I64GtU => "gt_u"@,
        NumericOp::I32LeS | NumericOp::I64LeS => "le_s"@,
        NumericOp::I32LeU | NumericOp::I64LeU => "le_u"@,
        NumericOp::I32GeS | NumericOp::I64GeS => "ge_s"@,
        NumericOp::I32GeU | NumericOp::I64GeU => "ge_u"@,
        NumericOp::I32Clz | NumericOp::I64Clz => "clz"@,
        NumericOp::I32Ctz | NumericOp::I64Ctz => "ctz"@,
        NumericOp::I32Popcnt | NumericOp::I64Popcnt => "popcnt"@,
        NumericOp::I32Add | NumericOp::I64Add | NumericOp::F32Add | NumericOp::F64Add => "add"@,
        NumericOp::I32Sub | NumericOp::I64Sub | NumericOp::F32Sub | NumericOp::F64Sub => "sub"@,
        NumericOp::I32Mul | NumericOp::I64Mul | NumericOp::F32Mul | NumericOp::F64Mul => "mul"@,
        NumericOp::I32DivS | NumericOp::I64DivS => "div_s"@,
        NumericOp::I32DivU | NumericOp::I64DivU => "div_u"@,
        NumericOp::I32RemS | NumericOp::I64RemS => "rem_s"@,
        NumericOp::I32RemU | NumericOp::I64RemU => "rem_u"@,
        NumericOp::I32And | NumericOp::I64And => "and"@,
        NumericOp::I32Or | NumericOp::I64Or => "or"@,
        NumericOp::I32Xor | NumericOp::I64Xor => "xor"@,
        NumericOp::I32Shl | NumericOp::I64Shl => "shl"@,
        NumericOp::I32ShrS | NumericOp::I64ShrS => "shr_s"@,
        NumericOp::I32ShrU | NumericOp::I64ShrU => "shr_u"@,
        NumericOp::I32Rotl | NumericOp::I64Rotl => "rotl"@,
        NumericOp::I32Rotr | NumericOp::I64Rotr => "rotr"@,
        NumericOp::F32Lt | NumericOp::F64Lt => "lt"@,
        NumericOp::F32Gt | NumericOp::F64Gt => "gt"@,
        NumericOp::F32Le | NumericOp::F64Le => "le"@,
        NumericOp::F32Ge | NumericOp::F64Ge => "ge"@,
        NumericOp::F32Abs | NumericOp::F64Abs => "abs"@,
        NumericOp::F32Neg | NumericOp::F64Neg => "neg"@,
        NumericOp::F32Ceil | NumericOp::F64Ceil => "ceil"@,
        NumericOp::F32Floor | NumericOp::F64Floor => "floor"@,
        NumericOp::F32Trunc | NumericOp::F64Trunc => "trunc"@,
        NumericOp::F32Nearest | NumericOp::F64Nearest => "nearest"@,
        NumericOp::F32Sqrt | NumericOp::F64Sqrt => "sqrt"@,
        NumericOp::F32Div | NumericOp::F64Div => "div"@,
        NumericOp::F32Min | NumericOp::F64Min => "min"@,
        NumericOp::F32Max | NumericOp::F64Max => "max"@,
        NumericOp::F32Copysign | NumericOp::F64Copysign => "copysign"@,
        NumericOp::I32WrapI64 => "wrap_i64"@,
        NumericOp::I32TruncF32S | NumericOp::I64TruncF32S => "trunc_f32_s"@,
        NumericOp::I32TruncF32U | NumericOp::I64TruncF32U => "trunc_f32_u"@,
        NumericOp::I32TruncF64S | NumericOp::I64TruncF64S => "trunc_f64_s"@,
        NumericOp::I32TruncF64U | NumericOp::I64TruncF64U => "trunc_f64_u"@,
        NumericOp::I64ExtendI32S => "extend_i32_s"@,
        NumericOp::I64ExtendI32U => "extend_i32_u"@,
        NumericOp::F32ConvertI32S | NumericOp::F64ConvertI32S => "convert_i32_s"@,
        NumericOp::F32ConvertI32U | NumericOp::F64ConvertI32U => "convert_i32_u"@,
        NumericOp::F32ConvertI64S | NumericOp::F64ConvertI64S => "convert_i64_s"@,
        NumericOp::F32ConvertI64U | NumericOp::F64ConvertI64U => "convert_i64_u"@,
        NumericOp::F32DemoteF64 => "demote_f64"@,
        NumericOp::F64PromoteF32 => "promote_f32"@,
        NumericOp::I32ReinterpretF32 => "reinterpret_f32"@,
        NumericOp::I64ReinterpretF64 => "reinterpret_f64"@,
        NumericOp::F32ReinterpretI32 => "reinterpret_i32"@,
        NumericOp::F64ReinterpretI64 => "reinterpret_i64"@,
    }
}

/// The type that a numeric operator belongs to: the one that it computes or compares.
pub open spec fn numeric_type(op: NumericOp) -> Seq<char> {
    match op {
        NumericOp::I32Eqz | NumericOp::I32Eq | NumericOp::I32Ne | NumericOp::I32LtS
        | NumericOp::I32LtU | NumericOp::I32GtS | NumericOp::I32GtU | NumericOp::I32LeS
        | NumericOp::I32LeU | NumericOp::I32GeS | NumericOp::I32GeU | NumericOp::I32Clz
        | NumericOp::I32Ctz | NumericOp::I32Popcnt | NumericOp::I32Add | NumericOp::I32Sub
        | NumericOp::I32Mul | NumericOp::I32DivS | NumericOp::I32DivU | NumericOp::I32RemS
        | NumericOp::I32RemU | NumericOp::I32And | NumericOp::I32Or | NumericOp::I32Xor
        | NumericOp::I32Shl | NumericOp::I32ShrS | NumericOp::I32ShrU | NumericOp::I32Rotl
        | NumericOp::I32Rotr | NumericOp::I32WrapI64 | NumericOp::I32TruncF32S
        | NumericOp::I32TruncF32U | NumericOp::I32TruncF64S | NumericOp::I32TruncF64U
        | NumericOp::I32ReinterpretF32 => "i32"@,
        NumericOp::I64Eqz | NumericOp::I64Eq | NumericOp::I64Ne | NumericOp::I64LtS
        | NumericOp::I64LtU | NumericOp::I64GtS | NumericOp::I64GtU | NumericOp::I64LeS
        | NumericOp::I64LeU | NumericOp::I64GeS | NumericOp::I64GeU | NumericOp::I64Clz
        | NumericOp::I64Ctz | NumericOp::I64Popcnt | NumericOp::I64Add | NumericOp::I64Sub
        | NumericOp::I64Mul | NumericOp::I64DivS | NumericOp::I64DivU | NumericOp::I64RemS
        | NumericOp::I64RemU | NumericOp::I64And | NumericOp::I64Or | NumericOp::I64Xor
        | NumericOp::I64Shl | NumericOp::I64ShrS | NumericOp::I64ShrU | NumericOp::I64Rotl
        | NumericOp::I64Rotr | NumericOp::I64ExtendI32S | NumericOp::I64ExtendI32U
        | NumericOp::I64TruncF32S | NumericOp::I64TruncF32U | NumericOp::I64TruncF64S
        | NumericOp::I64TruncF64U | NumericOp::I64ReinterpretF64 => "i64"@,
        NumericOp::F32Eq | NumericOp::F32Ne | NumericOp::F32Lt | NumericOp::F32Gt
        | NumericOp::F32Le | NumericOp::F32Ge | NumericOp::F32Abs | NumericOp::F32Neg
        | NumericOp::F32Ceil | NumericOp::F32Floor | NumericOp::F32Trunc
        | NumericOp::F32Nearest | NumericOp::F32Sqrt | NumericOp::F32Add | NumericOp::F32Sub
        | NumericOp::F32Mul | NumericOp::F32Div | NumericOp::F32Min | NumericOp::F32Max
        | NumericOp::F32Copysign | NumericOp::F32ConvertI32S | NumericOp::F32ConvertI32U
        | NumericOp::F32ConvertI64S | NumericOp::F32ConvertI64U | NumericOp::F32DemoteF64
        | NumericOp::F32ReinterpretI32 => "f32"@,
        NumericOp::F64Eq | NumericOp::F64Ne | NumericOp::F64Lt | NumericOp::F64Gt
        | NumericOp::F64Le | NumericOp::F64Ge | NumericOp::F64Abs | NumericOp::F64Neg
        | NumericOp::F64Ceil | NumericOp::F64Floor | NumericOp::F64Trunc
        | NumericOp::F64Nearest | NumericOp::F64Sqrt | NumericOp::F64Add | NumericOp::F64Sub
        | NumericOp::F64Mul | NumericOp::F64Div | NumericOp::F64Min | NumericOp::F64Max
        | NumericOp::F64Copysign | NumericOp::F64ConvertI32S | NumericOp::F64ConvertI32U
        | NumericOp::F64ConvertI64S | NumericOp::F64ConvertI64U | NumericOp::F64PromoteF32
        | NumericOp::F64ReinterpretI64 => "f64"@,
    }
}

/// The names of some of the `i32` operators.
proof fn lemma_i32_names_0(op: NumericOp)
    ensures
        (match op {
            NumericOp::I32Eqz | NumericOp::I32Eq | NumericOp::I32Ne | NumericOp::I32LtS
            | NumericOp::I32LtU | NumericOp::I32GtS | NumericOp::I32GtU | NumericOp::I32LeS
            | NumericOp::I32LeU | NumericOp::I32GeS => true,
            _ => false,
        }) ==> {
            &&& op.mnemonic() == numeric_type(op) + "."@ + numeric_word(op)
            &&& signature_named(op.mnemonic()) == Some(op.signature())
        },
{
    reveal_strlit(".");
    reveal_strlit("eq");
    reveal_strlit("eqz");
    reveal_strlit("ge_s");
    reveal_strlit("gt_s");
    reveal_strlit("gt_u");
    reveal_strlit("i32");
    reveal_strlit("le_s");
    reveal_strlit("le_u");
    reveal_strlit("lt_s");
    reveal_strlit("lt_u");
    reveal_strlit("ne");
    let name = op.mnemonic();
    match op {
        NumericOp::I32Eqz => {
            reveal_strlit("i32.eqz");
            assert(name =~= numeric_type(op) + "."@ + numeric_word(op));
            assert(name.skip(4) =~= seq!['e', 'q', 'z']);
            assert(signature_named(name)->0 =~= op.signature());
        },
        NumericOp::I32Eq => {
            reveal_strlit("i32.eq");
            assert(name =~= numeric_type(op) + "."@ + numeric_word(op));
            assert(name.skip(4) =~= seq!['e', 'q']);
            assert(signature_named(name)->0 =~= op.signature());
        },
        NumericOp::I32Ne => {
            reveal_strlit("i32.ne");
            assert(name =~= numeric_type(op) + "."@ + numeric_word(op));
            assert(name.skip(4) =~= seq!['n', 'e']);
            assert(signature_named(name)->0 =~= op.signature());
        },
        NumericOp::I32LtS => {
            reveal_strlit("i32.lt_s");
            assert(name =~= numeric_type(op) + "."@ + numeric_word(op));
            assert(name.skip(4) =~= seq!['l', 't', '_', 's']);
            assert(signature_named(name)->0 =~= op.signature());
        },
        NumericOp::I32LtU => {
            reveal_strlit("i32.lt_u");
            assert(name =~= numeric_type(op) + "."@ + numeric_word(op));
            assert(name.skip(4) =~= seq!['l', 't', '_', 'u']);
            assert(signature_named(name)->0 =~= op.signature());
        },
        NumericOp::I32GtS => {
            reveal_strlit("i32.gt_s");
            assert(name =~= numeric_type(op) + "."@ + numeric_word(op));
            assert(name.skip(4) =~= seq!['g', 't', '_', 's']);
            assert(signature_named(name)->0 =~= op.signature());
        },
        NumericOp::I32GtU => {
            reveal_strlit("i32.gt_u");
            assert(name =~= numeric_type(op) + "."@ + numeric_word(op));
            assert(name.skip(4) =~= seq!['g', 't', '_', 'u']);
            assert(signature_named(name)->0 =~= op.signature());
        },
        NumericOp::I32LeS => {
            reveal_strlit("i32.le_s");
            assert(name =~= numeric_type(op) + "."@ + numeric_word(op));
            assert(name.skip(4) =~= seq!['l', 'e', '_', 's']);
            assert(signature_named(name)->0 =~= op.signature());
        },
        NumericOp::I32LeU => {
            reveal_strlit("i32.le_u");
            assert(name =~= numeric_type(op) + "."@ + numeric_word(op));
            assert(name.skip(4) =~= seq!['l', 'e', '_', 'u']);
            assert(signature_named(name)->0 =~= op.signature());
        },
        NumericOp::I32GeS => {
            reveal_strlit("i32.ge_s");
            assert(name =~= numeric_type(op) + "."@ + numeric_word(op));
            assert(name.skip(4) =~= seq!['g', 'e', '_', 's']);
            assert(signature_named(name)->0 =~= op.signature());
        },
        _ => {},
    }
}

/// The names of some of the `i32` operators.
proof fn lemma_i32_names_1(op: NumericOp)
    ensures
        (match op {
            NumericOp::I32GeU | NumericOp::I32Clz | NumericOp::I32Ctz | NumericOp::I32Popcnt
            | NumericOp::I32Add | NumericOp::I32Sub | NumericOp::I32Mul | NumericOp::I32DivS
            | NumericOp::I32DivU | NumericOp::I32RemS => true,
            _ => false,
        }) ==> {
            &&& op.mnemonic() == numeric_type(op) + "."@ + numeric_word(op)
            &&& signature_named(op.mnemonic()) == Some(op.signature())
        },
{
    reveal_strlit(".");
    reveal_strlit("add");
    reveal_strlit("clz");
    reveal_strlit("ctz");
    reveal_strlit("div_s");
    reveal_strlit("div_u");
    reveal_strlit("ge_u");
    reveal_strlit("i32");
    reveal_strlit("mul");
    reveal_strlit("popcnt");
    reveal_strlit("rem_s");
    reveal_strlit("sub");
    let name = op.mnemonic();
    match op {
        NumericOp::I32GeU => {
            reveal_strlit("i32.ge_u");
            assert(name =~= numeric_type(op) + "."@ + numeric_word(op));
            assert(name.skip(4) =~= seq!['g', 'e', '_', 'u']);
            assert(signature_named(name)->0 =~= op.signature());
        },
        NumericOp::I32Clz => {
            reveal_strlit("i32.clz");
            assert(name =~= numeric_type(op) + "."@ + numeric_word(op));
            assert(name.skip(4) =~= seq!['c', 'l', 'z']);
            assert(signature_named(name)->0 =~= op.signature());
        },
        NumericOp::I32Ctz => {
            reveal_strlit("i32.ctz");
            assert(name =~= numeric_type(op) + "."@ + numeric_word(op));
            assert(name.skip(4) =~= seq!['c', 't', 'z']);
            assert(signature_named(name)->0 =~= op.signature());
        },
        NumericOp::I32Popcnt => {
            reveal_strlit("i32.popcnt");
            assert(name =~= numeric_type(op) + "."@ + numeric_word(op));
            assert(name.skip(4) =~= seq!['p', 'o', 'p', 'c', 'n', 't']);
            assert(signature_named(name)->0 =~= op.signature());
        },
        NumericOp::I32Add => {
            reveal_strlit("i32.add");
            assert(name =~= numeric_type(op) + "."@ + numeric_word(op));
            assert(name.skip(4) =~= seq!['a', 'd', 'd']);
            assert(signature_named(name)->0 =~= op.signature());
        },
        NumericOp::I32Sub => {
            reveal_strlit("i32.sub");
            assert(name =~= numeric_type(op) + "."@ + numeric_word(op));
            assert(name.skip(4) =~= seq!['s', 'u', 'b']);
            assert(signature_named(name)->0 =~= op.signature());
        },
        NumericOp::I32Mul => {
            reveal_strlit("i32.mul");
            assert(name =~= numeric_type(op) + "."@ + numeric_word(op));
            assert(name.skip(4) =~= seq!['m', 'u', 'l']);
            assert(signature_named(name)->0 =~= op.signature());
        },
        NumericOp::I32DivS => {
            reveal_strlit("i32.div_s");
            assert(name =~= numeric_type(op) + "."@ + numeric_word(op));
            assert(name.skip(4) =~= seq!['d', 'i', 'v', '_', 's']);
            assert(signature_named(name)->0 =~= op.signature());
        },
        NumericOp::I32DivU => {
            reveal_strlit("i32.div_u");
            assert(name =~= numeric_type(op) + "."@ + numeric_word(op));
            assert(name.skip(4) =~= seq!['d', 'i', 'v', '_', 'u']);
            assert(signature_named(name)->0 =~= op.signature());
        },
        NumericOp::I32RemS => {
            reveal_strlit("i32.rem_s");
            assert(name =~= numeric_type(op) + "."@ + numeric_word(op));
            assert(name.skip(4) =~= seq!['r', 'e', 'm', '_', 's']);
            assert(signature_named(name)->0 =~= op.signature());
        },
        _ => {},
    }
}

/// The names of some of the `i32` operators.
proof fn lemma_i32_names_2(op: NumericOp)
    ensures
        (match op {
            NumericOp::I32RemU | NumericOp::I32And | NumericOp::I32Or | NumericOp::I32Xor
            | NumericOp::I32Shl | NumericOp::I32ShrS | NumericOp::I32ShrU | NumericOp::I32Rotl
            | NumericOp::I32Rotr => true,
            _ => false,
        }) ==> {
            &&& op.mnemonic() == numeric_type(op) + "."@ + numeric_word(op)
            &&& signature_named(op.mnemonic()) == Some(op.signature())
        },
{
    reveal_strlit(".");
    reveal_strlit("and");
    reveal_strlit("i32");
    reveal_strlit("or");
    reveal_strlit("rem_u");
    reveal_strlit("rotl");
    reveal_strlit("rotr");
    reveal_strlit("shl");
    reveal_strlit("shr_s");
    reveal_strlit("shr_u");
    reveal_strlit("xor");
    let name = op.mnemonic();
    match op {
        NumericOp::I32RemU => {
            reveal_strlit("i32.rem_u");
            assert(name =~= numeric_type(op) + "."@ + numeric_word(op));
            assert(name.skip(4) =~= seq!['r', 'e', 'm', '_', 'u']);
            assert(signature_named(name)->0 =~= op.signature());
        },
        NumericOp::I32And => {
            reveal_strlit("i32.and");
            assert(name =~= numeric_type(op) + "."@ + numeric_word(op));
            assert(name.skip(4) =~= seq!['a', 'n', 'd']);
            assert(signature_named(name)->0 =~= op.signature());
        },
        NumericOp::I32Or => {
            reveal_strlit("i32.or");
            assert(name =~= numeric_type(op) + "."@ + numeric_word(op));
            assert(name.skip(4) =~= seq!['o', 'r']);
            assert(signature_named(name)->0 =~= op.signature());
        },
        NumericOp::I32Xor => {
            reveal_strlit("i32.xor");
            assert(name =~= numeric_type(op) + "."@ + numeric_word(op));
            assert(name.skip(4) =~= seq!['x', 'o', 'r']);
            assert(signature_named(name)->0 =~= op.signature());
        },
        NumericOp::I32Shl => {
            reveal_strlit("i32.shl");
            assert(name =~= numeric_type(op) + "."@ + numeric_word(op));
            assert(name.skip(4) =~= seq!['s', 'h', 'l']);
            assert(signature_named(name)->0 =~= op.signature());
        },
        NumericOp::I32ShrS => {
            reveal_strlit("i32.shr_s");
            assert(name =~= numeric_type(op) + "."@ + numeric_word(op));
            assert(name.skip(4) =~= seq!['s', 'h', 'r', '_', 's']);
            assert(signature_named(name)->0 =~= op.signature());
        },
        NumericOp::I32ShrU => {
            reveal_strlit("i32.shr_u");
            assert(name =~= numeric_type(op) + "."@ + numeric_word(op));
            assert(name.skip(4) =~= seq!['s', 'h', 'r', '_', 'u']);
            assert(signature_named(name)->0 =~= op.signature());
        },
        NumericOp::I32Rotl => {
            reveal_strlit("i32.rotl");
            assert(name =~= numeric_type(op) + "."@ + numeric_word(op));
            assert(name.skip(4) =~= seq!['r', 'o', 't', 'l']);
            assert(signature_named(name)->0 =~= op.signature());
        },
        NumericOp::I32Rotr => {
            reveal_strlit("i32.rotr");
            assert(name =~= numeric_type(op) + "."@ + numeric_word(op));
            assert(name.skip(4) =~= seq!['r', 'o', 't', 'r']);
            assert(signature_named(name)->0 =~= op.signature());
        },
        _ => {},
    }
}

/// The names of some of the `i64` operators.
proof fn lemma_i64_names_0(op: NumericOp)
    ensures
        (match op {
            NumericOp::I64Eqz | NumericOp::I64Eq | NumericOp::I64Ne | NumericOp::I64LtS
            | NumericOp::I64LtU | NumericOp::I64GtS | NumericOp::I64GtU | NumericOp::I64LeS
            | NumericOp::I64LeU | NumericOp::I64GeS => true,
            _ => false,
        }) ==> {
            &&& op.mnemonic() == numeric_type(op) + "."@ + numeric_word(op)
            &&& signature_named(op.mnemonic()) == Some(op.signature())
        },
{
    reveal_strlit(".");
    reveal_strlit("eq");
    reveal_strlit("eqz");
    reveal_strlit("ge_s");
    reveal_strlit("gt_s");
    reveal_strlit("gt_u");
    reveal_strlit("i64");
    reveal_strlit("le_s");
    reveal_strlit("le_u");
    reveal_strlit("lt_s");
    reveal_strlit("lt_u");
    reveal_strlit("ne");
    let name = op.mnemonic();
    match op {
        NumericOp::I64Eqz => {
            reveal_strlit("i64.eqz");
            assert(name =~= numeric_type(op) + "."@ + numeric_word(op));
            assert(name.skip(4) =~= seq!['e', 'q', 'z']);
            assert(signature_named(name)->0 =~= op.signature());
        },
        NumericOp::I64Eq => {
            reveal_strlit("i64.eq");
            assert(name =~= numeric_type(op) + "."@ + numeric_word(op));
            assert(name.skip(4) =~= seq!['e', 'q']);
            assert(signature_named(name)->0 =~= op.signature());
        },
        NumericOp::I64Ne => {
            reveal_strlit("i64.ne");
            assert(name =~= numeric_type(op) + "."@ + numeric_word(op));
            assert(name.skip(4) =~= seq!['n', 'e']);
            assert(signature_named(name)->0 =~= op.signature());
        },
        NumericOp::I64LtS => {
            reveal_strlit("i64.lt_s");
            assert(name =~= numeric_type(op) + "."@ + numeric_word(op));
            assert(name.skip(4) =~= seq!['l', 't', '_', 's']);
            assert(signature_named(name)->0 =~= op.signature());
        },
        NumericOp::I64LtU => {
            reveal_strlit("i64.lt_u");
            assert(name =~= numeric_type(op) + "."@ + numeric_word(op));
            assert(name.skip(4) =~= seq!['l', 't', '_', 'u']);
            assert(signature_named(name)->0 =~= op.signature());
        },
        NumericOp::I64GtS => {
            reveal_strlit("i64.gt_s");
            assert(name =~= numeric_type(op) + "."@ + numeric_word(op));
            assert(name.skip(4) =~= seq!['g', 't', '_', 's']);
            assert(signature_named(name)->0 =~= op.signature());
        },
        NumericOp::I64GtU => {
            reveal_strlit("i64.gt_u");
            assert(name =~= numeric_type(op) + "."@ + numeric_word(op));
            assert(name.skip(4) =~= seq!['g', 't', '_', 'u']);
            assert(signature_named(name)->0 =~= op.signature());
        },
        NumericOp::I64LeS => {
            reveal_strlit("i64.le_s");
            assert(name =~= numeric_type(op) + "."@ + numeric_word(op));
            assert(name.skip(4) =~= seq!['l', 'e', '_', 's']);
            assert(signature_named(name)->0 =~= op.signature());
        },
        NumericOp::I64LeU => {
            reveal_strlit("i64.le_u");
            assert(name =~= numeric_type(op) + "."@ + numeric_word(op));
            assert(name.skip(4) =~= seq!['l', 'e', '_', 'u']);
            assert(signature_named(name)->0 =~= op.signature());
        },
        NumericOp::I64GeS => {
            reveal_strlit("i64.ge_s");
            assert(name =~= numeric_type(op) + "."@ + numeric_word(op));
            assert(name.skip(4) =~= seq!['g', 'e', '_', 's']);
            assert(signature_named(name)->0 =~= op.signature());
        },
        _ => {},
    }
}

/// The names of some of the `i64` operators.
proof fn lemma_i64_names_1(op: NumericOp)
    ensures
        (match op {
            NumericOp::I64GeU | NumericOp::I64Clz | NumericOp::I64Ctz | NumericOp::I64Popcnt
            | NumericOp::I64Add | NumericOp::I64Sub | NumericOp::I64Mul | NumericOp::I64DivS
            | NumericOp::I64DivU | NumericOp::I64RemS => true,
            _ => false,
        }) ==> {
            &&& op.mnemonic() == numeric_type(op) + "."@ + numeric_word(op)
            &&& signature_named(op.mnemonic()) == Some(op.signature())
        },
{
    reveal_strlit(".");
    reveal_strlit("add");
    reveal_strlit("clz");
    reveal_strlit("ctz");
    reveal_strlit("div_s");
    reveal_strlit("div_u");
    reveal_strlit("ge_u");
    reveal_strlit("i64");
    reveal_strlit("mul");
    reveal_strlit("popcnt");
    reveal_strlit("rem_s");
    reveal_strlit("sub");
    let name = op.mnemonic();
    match op {
        NumericOp::I64GeU => {
            reveal_strlit("i64.ge_u");
            assert(name =~= numeric_type(op) + "."@ + numeric_word(op));
            assert(name.skip(4) =~= seq!['g', 'e', '_', 'u']);
            assert(signature_named(name)->0 =~= op.signature());
        },
        NumericOp::I64Clz => {
            reveal_strlit("i64.clz");
            assert(name =~= numeric_type(op) + "."@ + numeric_word(op));
            assert(name.skip(4) =~= seq!['c', 'l', 'z']);
            assert(signature_named(name)->0 =~= op.signature());
        },
        NumericOp::I64Ctz => {
            reveal_strlit("i64.ctz");
            assert(name =~= numeric_type(op) + "."@ + numeric_word(op));
            assert(name.skip(4) =~= seq!['c', 't', 'z']);
            assert(signature_named(name)->0 =~= op.signature());
        },
        NumericOp::I64Popcnt => {
            reveal_strlit("i64.popcnt");
            assert(name =~= numeric_type(op) + "."@ + numeric_word(op));
            assert(name.skip(4) =~= seq!['p', 'o', 'p', 'c', 'n', 't']);
            assert(signature_named(name)->0 =~= op.signature());
        },
        NumericOp::I64Add => {
            reveal_strlit("i64.add");
            assert(name =~= numeric_type(op) + "."@ + numeric_word(op));
            assert(name.skip(4) =~= seq!['a', 'd', 'd']);
            assert(signature_named(name)->0 =~= op.signature());
        },
        NumericOp::I64Sub => {
            reveal_strlit("i64.sub");
            assert(name =~= numeric_type(op) + "."@ + numeric_word(op));
            assert(name.skip(4) =~= seq!['s', 'u', 'b']);
            assert(signature_named(name)->0 =~= op.signature());
        },
        NumericOp::I64Mul => {
            reveal_strlit("i64.mul");
            assert(name =~= numeric_type(op) + "."@ + numeric_word(op));
            assert(name.skip(4) =~= seq!['m', 'u', 'l']);
            assert(signature_named(name)->0 =~= op.signature());
        },
        NumericOp::I64DivS => {
            reveal_strlit("i64.div_s");
            assert(name =~= numeric_type(op) + "."@ + numeric_word(op));
            assert(name.skip(4) =~= seq!['d', 'i', 'v', '_', 's']);
            assert(signature_named(name)->0 =~= op.signature());
        },
        NumericOp::I64DivU => {
            reveal_strlit("i64.div_u");
            assert(name =~= numeric_type(op) + "."@ + numeric_word(op));
            assert(name.skip(4) =~= seq!['d', 'i', 'v', '_', 'u']);
            assert(signature_named(name)->0 =~= op.signature());
        },
        NumericOp::I64RemS => {
            reveal_strlit("i64.rem_s");
            assert(name =~= numeric_type(op) + "."@ + numeric_word(op));
            assert(name.skip(4) =~= seq!['r', 'e', 'm', '_', 's']);
            assert(signature_named(name)->0 =~= op.signature());
        },
        _ => {},
    }
}

/// The names of some of the `i64` operators.
proof fn lemma_i64_names_2(op: NumericOp)
    ensures
        (match op {
            NumericOp::I64RemU | NumericOp::I64And | NumericOp::I64Or | NumericOp::I64Xor
            | NumericOp::I64Shl | NumericOp::I64ShrS | NumericOp::I64ShrU | NumericOp::I64Rotl
            | NumericOp::I64Rotr => true,
            _ => false,
        }) ==> {
            &&& op.mnemonic() == numeric_type(op) + "."@ + numeric_word(op)
            &&& signature_named(op.mnemonic()) == Some(op.signature())
        },
{
    reveal_strlit(".");
    reveal_strlit("and");
    reveal_strlit("i64");
    reveal_strlit("or");
    reveal_strlit("rem_u");
    reveal_strlit("rotl");
    reveal_strlit("rotr");
    reveal_strlit("shl");
    reveal_strlit("shr_s");
    reveal_strlit("shr_u");
    reveal_strlit("xor");
    let name = op.mnemonic();
    match op {
        NumericOp::I64RemU => {
            reveal_strlit("i64.rem_u");
            assert(name =~= numeric_type(op) + "."@ + numeric_word(op));
            assert(name.skip(4) =~= seq!['r', 'e', 'm', '_', 'u']);
            assert(signature_named(name)->0 =~= op.signature());
        },
        NumericOp::I64And => {
            reveal_strlit("i64.and");
            assert(name =~= numeric_type(op) + "."@ + numeric_word(op));
            assert(name.skip(4) =~= seq!['a', 'n', 'd']);
            assert(signature_named(name)->0 =~= op.signature());
        },
        NumericOp::I64Or => {
            reveal_strlit("i64.or");
            assert(name =~= numeric_type(op) + "."@ + numeric_word(op));
            assert(name.skip(4) =~= seq!['o', 'r']);
            assert(signature_named(name)->0 =~= op.signature());
        },
        NumericOp::I64Xor => {
            reveal_strlit("i64.xor");
            assert(name =~= numeric_type(op) + "."@ + numeric_word(op));
            assert(name.skip(4) =~= seq!['x', 'o', 'r']);
            assert(signature_named(name)->0 =~= op.signature());
        },
        NumericOp::I64Shl => {
            reveal_strlit("i64.shl");
            assert(name =~= numeric_type(op) + "."@ + numeric_word(op));
            assert(name.skip(4) =~= seq!['s', 'h', 'l']);
            assert(signature_named(name)->0 =~= op.signature());
        },
        NumericOp::I64ShrS => {
            reveal_strlit("i64.shr_s");
            assert(name =~= numeric_type(op) + "."@ + numeric_word(op));
            assert(name.skip(4) =~= seq!['s', 'h', 'r', '_', 's']);
            assert(signature_named(name)->0 =~= op.signature());
        },
        NumericOp::I64ShrU => {
            reveal_strlit("i64.shr_u");
            assert(name =~= numeric_type(op) + "."@ + numeric_word(op));
            assert(name.skip(4) =~= seq!['s', 'h', 'r', '_', 'u']);
            assert(signature_named(name)->0 =~= op.signature());
        },
        NumericOp::I64Rotl => {
            reveal_strlit("i64.rotl");
            assert(name =~= numeric_type(op) + "."@ + numeric_word(op));
            assert(name.skip(4) =~= seq!['r', 'o', 't', 'l']);
            assert(signature_named(name)->0 =~= op.signature());
        },
        NumericOp::I64Rotr => {
            reveal_strlit("i64.rotr");
            assert(name =~= numeric_type(op) + "."@ + numeric_word(op));
            assert(name.skip(4) =~= seq!['r', 'o', 't', 'r']);
            assert(signature_named(name)->0 =~= op.signature());
        },
        _ => {},
    }
}

/// The names of some of the `f32` operators.
proof fn lemma_f32_names_0(op: NumericOp)
    ensures
        (match op {
            NumericOp::F32Eq | NumericOp::F32Ne | NumericOp::F32Lt | NumericOp::F32Gt
            | NumericOp::F32Le | NumericOp::F32Ge | NumericOp::F32Abs | NumericOp::F32Neg
            | NumericOp::F32Ceil | NumericOp::F32Floor => true,
            _ => false,
        }) ==> {
            &&& op.mnemonic() == numeric_type(op) + "."@ + numeric_word(op)
            &&& signature_named(op.mnemonic()) == Some(op.signature())
        },
{
    reveal_strlit(".");
    reveal_strlit("abs");
    reveal_strlit("ceil");
    reveal_strlit("eq");
    reveal_strlit("f32");
    reveal_strlit("floor");
    reveal_strlit("ge");
    reveal_strlit("gt");
    reveal_strlit("le");
    reveal_strlit("lt");
    reveal_strlit("ne");
    reveal_strlit("neg");
    let name = op.mnemonic();
    match op {
        NumericOp::F32Eq => {
            reveal_strlit("f32.eq");
            assert(name =~= numeric_type(op) + "."@ + numeric_word(op));
            assert(name.skip(4) =~= seq!['e', 'q']);
            assert(signature_named(name)->0 =~= op.signature());
        },
        NumericOp::F32Ne => {
            reveal_strlit("f32.ne");
            assert(name =~= numeric_type(op) + "."@ + numeric_word(op));
            assert(name.skip(4) =~= seq!['n', 'e']);
            assert(signature_named(name)->0 =~= op.signature());
        },
        NumericOp::F32Lt => {
            reveal_strlit("f32.lt");
            assert(name =~= numeric_type(op) + "."@ + numeric_word(op));
            assert(name.skip(4) =~= seq!['l', 't']);
            assert(signature_named(name)->0 =~= op.signature());
        },
        NumericOp::F32Gt => {
            reveal_strlit("f32.gt");
            assert(name =~= numeric_type(op) + "."@ + numeric_word(op));
            assert(name.skip(4) =~= seq!['g', 't']);
            assert(signature_named(name)->0 =~= op.signature());
        },
        NumericOp::F32Le => {
            reveal_strlit("f32.le");
            assert(name =~= numeric_type(op) + "."@ + numeric_word(op));
            assert(name.skip(4) =~= seq!['l', 'e']);
            assert(signature_named(name)->0 =~= op.signature());
        },
        NumericOp::F32Ge => {
            reveal_strlit("f32.ge");
            assert(name =~= numeric_type(op) + "."@ + numeric_word(op));
            assert(name.skip(4) =~= seq!['g', 'e']);
            assert(signature_named(name)->0 =~= op.signature());
        },
        NumericOp::F32Abs => {
            reveal_strlit("f32.abs");
            assert(name =~= numeric_type(op) + "."@ + numeric_word(op));
            assert(name.skip(4) =~= seq!['a', 'b', 's']);
            assert(signature_named(name)->0 =~= op.signature());
        },
        NumericOp::F32Neg => {
            reveal_strlit("f32.neg");
            assert(name =~= numeric_type(op) + "."@ + numeric_word(op));
            assert(name.skip(4) =~= seq!['n', 'e', 'g']);
            assert(signature_named(name)->0 =~= op.signature());
        },
        NumericOp::F32Ceil => {
            reveal_strlit("f32.ceil");
            assert(name =~= numeric_type(op) + "."@ + numeric_word(op));
            assert(name.skip(4) =~= seq!['c', 'e', 'i', 'l']);
            assert(signature_named(name)->0 =~= op.signature());
        },
        NumericOp::F32Floor => {
            reveal_strlit("f32.floor");
            assert(name =~= numeric_type(op) + "."@ + numeric_word(op));
            assert(name.skip(4) =~= seq!['f', 'l', 'o', 'o', 'r']);
            assert(signature_named(name)->0 =~= op.signature());
        },
        _ => {},
    }
}

/// The names of some of the `f32` operators.
proof fn lemma_f32_names_1(op: NumericOp)
    ensures
        (match op {
            NumericOp::F32Trunc | NumericOp::F32Nearest | NumericOp::F32Sqrt
            | NumericOp::F32Add | NumericOp::F32Sub | NumericOp::F32Mul | NumericOp::F32Div
            | NumericOp::F32Min | NumericOp::F32Max | NumericOp::F32Copysign => true,
            _ => false,
        }) ==> {
            &&& op.mnemonic() == numeric_type(op) + "."@ + numeric_word(op)
            &&& signature_named(op.mnemonic()) == Some(op.signature())
        },
{
    reveal_strlit(".");
    reveal_strlit("add");
    reveal_strlit("copysign");
    reveal_strlit("div");
    reveal_strlit("f32");
    reveal_strlit("max");
    reveal_strlit("min");
    reveal_strlit("mul");
    reveal_strlit("nearest");
    reveal_strlit("sqrt");
    reveal_strlit("sub");
    reveal_strlit("trunc");
    let name = op.mnemonic();
    match op {
        NumericOp::F32Trunc => {
            reveal_strlit("f32.trunc");
            assert(name =~= numeric_type(op) + "."@ + numeric_word(op));
            assert(name.skip(4) =~= seq!['t', 'r', 'u', 'n', 'c']);
            assert(signature_named(name)->0 =~= op.signature());
        },
        NumericOp::F32Nearest => {
            reveal_strlit("f32.nearest");
            assert(name =~= numeric_type(op) + "."@ + numeric_word(op));
            assert(name.skip(4) =~= seq!['n', 'e', 'a', 'r', 'e', 's', 't']);
            assert(signature_named(name)->0 =~= op.signature());
        },
        NumericOp::F32Sqrt => {
            reveal_strlit("f32.sqrt");
            assert(name =~= numeric_type(op) + "."@ + numeric_word(op));
            assert(name.skip(4) =~= seq!['s', 'q', 'r', 't']);
            assert(signature_named(name)->0 =~= op.signature());
        },
        NumericOp::F32Add => {
            reveal_strlit("f32.add");
            assert(name =~= numeric_type(op) + "."@ + numeric_word(op));
            assert(name.skip(4) =~= seq!['a', 'd', 'd']);
            assert(signature_named(name)->0 =~= op.signature());
        },
        NumericOp::F32Sub => {
            reveal_strlit("f32.sub");
            assert(name =~= numeric_type(op) + "."@ + numeric_word(op));
            assert(name.skip(4) =~= seq!['s', 'u', 'b']);
            assert(signature_named(name)->0 =~= op.signature());
        },
        NumericOp::F32Mul => {
            reveal_strlit("f32.mul");
            assert(name =~= numeric_type(op) + "."@ + numeric_word(op));
            assert(name.skip(4) =~= seq!['m', 'u', 'l']);
            assert(signature_named(name)->0 =~= op.signature());
        },
        NumericOp::F32Div => {
            reveal_strlit("f32.div");
            assert(name =~= numeric_type(op) + "."@ + numeric_word(op));
            assert(name.skip(4) =~= seq!['d', 'i', 'v']);
            assert(signature_named(name)->0 =~= op.signature());
        },
        NumericOp::F32Min => {
            reveal_strlit("f32.min");
            assert(name =~= numeric_type(op) + "."@ + numeric_word(op));
            assert(name.skip(4) =~= seq!['m', 'i', 'n']);
            assert(signature_named(name)->0 =~= op.signature());
        },
        NumericOp::F32Max => {
            reveal_strlit("f32.max");
            assert(name =~= numeric_type(op) + "."@ + numeric_word(op));
            assert(name.skip(4) =~= seq!['m', 'a', 'x']);
            assert(signature_named(name)->0 =~= op.signature());
        },
        NumericOp::F32Copysign => {
            reveal_strlit("f32.copysign");
            assert(name =~= numeric_type(op) + "."@ + numeric_word(op));
            assert(name.skip(4) =~= seq!['c', 'o', 'p', 'y', 's', 'i', 'g', 'n']);
            assert(signature_named(name)->0 =~= op.signature());
        },
        _ => {},
    }
}

/// The names of some of the `f64` operators.
proof fn lemma_f64_names_0(op: NumericOp)
    ensures
        (match op {
            NumericOp::F64Eq | NumericOp::F64Ne | NumericOp::F64Lt | NumericOp::F64Gt
            | NumericOp::F64Le | NumericOp::F64Ge | NumericOp::F64Abs | NumericOp::F64Neg
            | NumericOp::F64Ceil | NumericOp::F64Floor => true,
            _ => false,
        }) ==> {
            &&& op.mnemonic() == numeric_type(op) + "."@ + numeric_word(op)
            &&& signature_named(op.mnemonic()) == Some(op.signature())
        },
{
    reveal_strlit(".");
    reveal_strlit("abs");
    reveal_strlit("ceil");
    reveal_strlit("eq");
    reveal_strlit("f64");
    reveal_strlit("floor");
    reveal_strlit("ge");
    reveal_strlit("gt");
    reveal_strlit("le");
    reveal_strlit("lt");
    reveal_strlit("ne");
    reveal_strlit("neg");
    let name = op.mnemonic();
    match op {
        NumericOp::F64Eq => {
            reveal_strlit("f64.eq");
            assert(name =~= numeric_type(op) + "."@ + numeric_word(op));
            assert(name.skip(4) =~= seq!['e', 'q']);
            assert(signature_named(name)->0 =~= op.signature());
        },
        NumericOp::F64Ne => {
            reveal_strlit("f64.ne");
            assert(name =~= numeric_type(op) + "."@ + numeric_word(op));
            assert(name.skip(4) =~= seq!['n', 'e']);
            assert(signature_named(name)->0 =~= op.signature());
        },
        NumericOp::F64Lt => {
            reveal_strlit("f64.lt");
            assert(name =~= numeric_type(op) + "."@ + numeric_word(op));
            assert(name.skip(4) =~= seq!['l', 't']);
            assert(signature_named(name)->0 =~= op.signature());
        },
        NumericOp::F64Gt => {
            reveal_strlit("f64.gt");
            assert(name =~= numeric_type(op) + "."@ + numeric_word(op));
            assert(name.skip(4) =~= seq!['g', 't']);
            assert(signature_named(name)->0 =~= op.signature());
        },
        NumericOp::F64Le => {
            reveal_strlit("f64.le");
            assert(name =~= numeric_type(op) + "."@ + numeric_word(op));
            assert(name.skip(4) =~= seq!['l', 'e']);
            assert(signature_named(name)->0 =~= op.signature());
        },
        NumericOp::F64Ge => {
            reveal_strlit("f64.ge");
            assert(name =~= numeric_type(op) + "."@ + numeric_word(op));
            assert(name.skip(4) =~= seq!['g', 'e']);
            assert(signature_named(name)->0 =~= op.signature());
        },
        NumericOp::F64Abs => {
            reveal_strlit("f64.abs");
            assert(name =~= numeric_type(op) + "."@ + numeric_word(op));
            assert(name.skip(4) =~= seq!['a', 'b', 's']);
            assert(signature_named(name)->0 =~= op.signature());
        },
        NumericOp::F64Neg => {
            reveal_strlit("f64.neg");
            assert(name =~= numeric_type(op) + "."@ + numeric_word(op));
            assert(name.skip(4) =~= seq!['n', 'e', 'g']);
            assert(signature_named(name)->0 =~= op.signature());
        },
        NumericOp::F64Ceil => {
            reveal_strlit("f64.ceil");
            assert(name =~= numeric_type(op) + "."@ + numeric_word(op));
            assert(name.skip(4) =~= seq!['c', 'e', 'i', 'l']);
            assert(signature_named(name)->0 =~= op.signature());
        },
        NumericOp::F64Floor => {
            reveal_strlit("f64.floor");
            assert(name =~= numeric_type(op) + "."@ + numeric_word(op));
            assert(name.skip(4) =~= seq!['f', 'l', 'o', 'o', 'r']);
            assert(signature_named(name)->0 =~= op.signature());
        },
        _ => {},
    }
}

/// The names of some of the `f64` operators.
proof fn lemma_f64_names_1(op: NumericOp)
    ensures
        (match op {
            NumericOp::F64Trunc | NumericOp::F64Nearest | NumericOp::F64Sqrt
            | NumericOp::F64Add | NumericOp::F64Sub | NumericOp::F64Mul | NumericOp::F64Div
            | NumericOp::F64Min | NumericOp::F64Max | NumericOp::F64Copysign => true,
            _ => false,
        }) ==> {
            &&& op.mnemonic() == numeric_type(op) + "."@ + numeric_word(op)
            &&& signature_named(op.mnemonic()) == Some(op.signature())
        },
{
    reveal_strlit(".");
    reveal_strlit("add");
    reveal_strlit("copysign");
    reveal_strlit("div");
    reveal_strlit("f64");
    reveal_strlit("max");
    reveal_strlit("min");
    reveal_strlit("mul");
    reveal_strlit("nearest");
    reveal_strlit("sqrt");
    reveal_strlit("sub");
    reveal_strlit("trunc");
    let name = op.mnemonic();
    match op {
        NumericOp::F64Trunc => {
            reveal_strlit("f64.trunc");
            assert(name =~= numeric_type(op) + "."@ + numeric_word(op));
            assert(name.skip(4) =~= seq!['t', 'r', 'u', 'n', 'c']);
            assert(signature_named(name)->0 =~= op.signature());
        },
        NumericOp::F64Nearest => {
            reveal_strlit("f64.nearest");
            assert(name =~= numeric_type(op) + "."@ + numeric_word(op));
            assert(name.skip(4) =~= seq!['n', 'e', 'a', 'r', 'e', 's', 't']);
            assert(signature_named(name)->0 =~= op.signature());
        },
        NumericOp::F64Sqrt => {
            reveal_strlit("f64.sqrt");
            assert(name =~= numeric_type(op) + "."@ + numeric_word(op));
            assert(name.skip(4) =~= seq!['s', 'q', 'r', 't']);
            assert(signature_named(name)->0 =~= op.signature());
        },
        NumericOp::F64Add => {
            reveal_strlit("f64.add");
            assert(name =~= numeric_type(op) + "."@ + numeric_word(op));
            assert(name.skip(4) =~= seq!['a', 'd', 'd']);
            assert(signature_named(name)->0 =~= op.signature());
        },
        NumericOp::F64Sub => {
            reveal_strlit("f64.sub");
            assert(name =~= numeric_type(op) + "."@ + numeric_word(op));
            assert(name.skip(4) =~= seq!['s', 'u', 'b']);
            assert(signature_named(name)->0 =~= op.signature());
        },
        NumericOp::F64Mul => {
            reveal_strlit("f64.mul");
            assert(name =~= numeric_type(op) + "."@ + numeric_word(op));
            assert(name.skip(4) =~= seq!['m', 'u', 'l']);
            assert(signature_named(name)->0 =~= op.signature());
        },
        NumericOp::F64Div => {
            reveal_strlit("f64.div");
            assert(name =~= numeric_type(op) + "."@ + numeric_word(op));
            assert(name.skip(4) =~= seq!['d', 'i', 'v']);
            assert(signature_named(name)->0 =~= op.signature());
        },
        NumericOp::F64Min => {
            reveal_strlit("f64.min");
            assert(name =~= numeric_type(op) + "."@ + numeric_word(op));
            assert(name.skip(4) =~= seq!['m', 'i', 'n']);
            assert(signature_named(name)->0 =~= op.signature());
        },
        NumericOp::F64Max => {
            reveal_strlit("f64.max");
            assert(name =~= numeric_type(op) + "."@ + numeric_word(op));
            assert(name.skip(4) =~= seq!['m', 'a', 'x']);
            assert(signature_named(name)->0 =~= op.signature());
        },
        NumericOp::F64Copysign => {
            reveal_strlit("f64.copysign");
            assert(name =~= numeric_type(op) + "."@ + numeric_word(op));
            assert(name.skip(4) =~= seq!['c', 'o', 'p', 'y', 's', 'i', 'g', 'n']);
            assert(signature_named(name)->0 =~= op.signature());
        },
        _ => {},
    }
}

/// The names of some of the conversions.
proof fn lemma_conversion_names_0(op: NumericOp)
    ensures
        (match op {
            NumericOp::I32WrapI64 | NumericOp::I32TruncF32S | NumericOp::I32TruncF32U
            | NumericOp::I32TruncF64S | NumericOp::I32TruncF64U | NumericOp::I64ExtendI32S
            | NumericOp::I64ExtendI32U | NumericOp::I64TruncF32S | NumericOp::I64TruncF32U
            | NumericOp::I64TruncF64S => true,
            _ => false,
        }) ==> {
            &&& op.mnemonic() == numeric_type(op) + "."@ + numeric_word(op)
            &&& signature_named(op.mnemonic()) == Some(op.signature())
        },
{
    reveal_strlit(".");
    reveal_strlit("extend_i32_s");
    reveal_strlit("extend_i32_u");
    reveal_strlit("i32");
    reveal_strlit("i64");
    reveal_strlit("trunc_f32_s");
    reveal_strlit("trunc_f32_u");
    reveal_strlit("trunc_f64_s");
    reveal_strlit("trunc_f64_u");
    reveal_strlit("wrap_i64");
    let name = op.mnemonic();
    match op {
        NumericOp::I32WrapI64 => {
            reveal_strlit("i32.wrap_i64");
            assert(name =~= numeric_type(op) + "."@ + numeric_word(op));
            assert(name.skip(4) =~= seq!['w', 'r', 'a', 'p', '_', 'i', '6', '4']);
            assert(signature_named(name)->0 =~= op.signature());
        },
        NumericOp::I32TruncF32S => {
            reveal_strlit("i32.trunc_f32_s");
            assert(name =~= numeric_type(op) + "."@ + numeric_word(op));
            assert(name.skip(4) =~= seq!['t', 'r', 'u', 'n', 'c', '_', 'f', '3', '2', '_', 's']);
            assert(signature_named(name)->0 =~= op.signature());
        },
        NumericOp::I32TruncF32U => {
            reveal_strlit("i32.trunc_f32_u");
            assert(name =~= numeric_type(op) + "."@ + numeric_word(op));
            assert(name.skip(4) =~= seq!['t', 'r', 'u', 'n', 'c', '_', 'f', '3', '2', '_', 'u']);
            assert(signature_named(name)->0 =~= op.signature());
        },
        NumericOp::I32TruncF64S => {
            reveal_strlit("i32.trunc_f64_s");
            assert(name =~= numeric_type(op) + "."@ + numeric_word(op));
            assert(name.skip(4) =~= seq!['t', 'r', 'u', 'n', 'c', '_', 'f', '6', '4', '_', 's']);
            assert(signature_named(name)->0 =~= op.signature());
        },
        NumericOp::I32TruncF64U => {
            reveal_strlit("i32.trunc_f64_u");
            assert(name =~= numeric_type(op) + "."@ + numeric_word(op));
            assert(name.skip(4) =~= seq!['t', 'r', 'u', 'n', 'c', '_', 'f', '6', '4', '_', 'u']);
            assert(signature_named(name)->0 =~= op.signature());
        },
        NumericOp::I64ExtendI32S => {
            reveal_strlit("i64.extend_i32_s");
            assert(name =~= numeric_type(op) + "."@ + numeric_word(op));
            assert(name.skip(4) =~= seq!['e', 'x', 't', 'e', 'n', 'd', '_', 'i', '3', '2', '_', 's']);
            assert(signature_named(name)->0 =~= op.signature());
        },
        NumericOp::I64ExtendI32U => {
            reveal_strlit("i64.extend_i32_u");
            assert(name =~= numeric_type(op) + "."@ + numeric_word(op));
            assert(name.skip(4) =~= seq!['e', 'x', 't', 'e', 'n', 'd', '_', 'i', '3', '2', '_', 'u']);
            assert(signature_named(name)->0 =~= op.signature());
        },
        NumericOp::I64TruncF32S => {
            reveal_strlit("i64.trunc_f32_s");
            assert(name =~= numeric_type(op) + "."@ + numeric_word(op));
            assert(name.skip(4) =~= seq!['t', 'r', 'u', 'n', 'c', '_', 'f', '3', '2', '_', 's']);
            assert(signature_named(name)->0 =~= op.signature());
        },
        NumericOp::I64TruncF32U => {
            reveal_strlit("i64.trunc_f32_u");
            assert(name =~= numeric_type(op) + "."@ + numeric_word(op));
            assert(name.skip(4) =~= seq!['t', 'r', 'u', 'n', 'c', '_', 'f', '3', '2', '_', 'u']);
            assert(signature_named(name)->0 =~= op.signature());
        },
        NumericOp::I64TruncF64S => {
            reveal_strlit("i64.trunc_f64_s");
            assert(name =~= numeric_type(op) + "."@ + numeric_word(op));
            assert(name.skip(4) =~= seq!['t', 'r', 'u', 'n', 'c', '_', 'f', '6', '4', '_', 's']);
            assert(signature_named(name)->0 =~= op.signature());
        },
        _ => {},
    }
}

/// The names of some of the conversions.
proof fn lemma_conversion_names_1(op: NumericOp)
    ensures
        (match op {
            NumericOp::I64TruncF64U | NumericOp::F32ConvertI32S | NumericOp::F32ConvertI32U
            | NumericOp::F32ConvertI64S | NumericOp::F32ConvertI64U | NumericOp::F32DemoteF64
            | NumericOp::F64ConvertI32S | NumericOp::F64ConvertI32U | NumericOp::F64ConvertI64S
            | NumericOp::F64ConvertI64U => true,
            _ => false,
        }) ==> {
            &&& op.mnemonic() == numeric_type(op) + "."@ + numeric_word(op)
            &&& signature_named(op.mnemonic()) == Some(op.signature())
        },
{
    reveal_strlit(".");
    reveal_strlit("convert_i32_s");
    reveal_strlit("convert_i32_u");
    reveal_strlit("convert_i64_s");
    reveal_strlit("convert_i64_u");
    reveal_strlit("demote_f64");
    reveal_strlit("f32");
    reveal_strlit("f64");
    reveal_strlit("i64");
    reveal_strlit("trunc_f64_u");
    let name = op.mnemonic();
    match op {
        NumericOp::I64TruncF64U => {
            reveal_strlit("i64.trunc_f64_u");
            assert(name =~= numeric_type(op) + "."@ + numeric_word(op));
            assert(name.skip(4) =~= seq!['t', 'r', 'u', 'n', 'c', '_', 'f', '6', '4', '_', 'u']);
            assert(signature_named(name)->0 =~= op.signature());
        },
        NumericOp::F32ConvertI32S => {
            reveal_strlit("f32.convert_i32_s");
            assert(name =~= numeric_type(op) + "."@ + numeric_word(op));
            assert(name.skip(4) =~= seq!['c', 'o', 'n', 'v', 'e', 'r', 't', '_', 'i', '3', '2', '_', 's']);
            assert(signature_named(name)->0 =~= op.signature());
        },
        NumericOp::F32ConvertI32U => {
            reveal_strlit("f32.convert_i32_u");
            assert(name =~= numeric_type(op) + "."@ + numeric_word(op));
            assert(name.skip(4) =~= seq!['c', 'o', 'n', 'v', 'e', 'r', 't', '_', 'i', '3', '2', '_', 'u']);
            assert(signature_named(name)->0 =~= op.signature());
        },
        NumericOp::F32ConvertI64S => {
            reveal_strlit("f32.convert_i64_s");
            assert(name =~= numeric_type(op) + "."@ + numeric_word(op));
            assert(name.skip(4) =~= seq!['c', 'o', 'n', 'v', 'e', 'r', 't', '_', 'i', '6', '4', '_', 's']);
            assert(signature_named(name)->0 =~= op.signature());
        },
        NumericOp::F32ConvertI64U => {
            reveal_strlit("f32.convert_i64_u");
            assert(name =~= numeric_type(op) + "."@ + numeric_word(op));
            assert(name.skip(4) =~= seq!['c', 'o', 'n', 'v', 'e', 'r', 't', '_', 'i', '6', '4', '_', 'u']);
            assert(signature_named(name)->0 =~= op.signature());
        },
        NumericOp::F32DemoteF64 => {
            reveal_strlit("f32.demote_f64");
            assert(name =~= numeric_type(op) + "."@ + numeric_word(op));
            assert(name.skip(4) =~= seq!['d', 'e', 'm', 'o', 't', 'e', '_', 'f', '6', '4']);
            assert(signature_named(name)->0 =~= op.signature());
        },
        NumericOp::F64ConvertI32S => {
            reveal_strlit("f64.convert_i32_s");
            assert(name =~= numeric_type(op) + "."@ + numeric_word(op));
            assert(name.skip(4) =~= seq!['c', 'o', 'n', 'v', 'e', 'r', 't', '_', 'i', '3', '2', '_', 's']);
            assert(signature_named(name)->0 =~= op.signature());
        },
        NumericOp::F64ConvertI32U => {
            reveal_strlit("f64.convert_i32_u");
            assert(name =~= numeric_type(op) + "."@ + numeric_word(op));
            assert(name.skip(4) =~= seq!['c', 'o', 'n', 'v', 'e', 'r', 't', '_', 'i', '3', '2', '_', 'u']);
            assert(signature_named(name)->0 =~= op.signature());
        },
        NumericOp::F64ConvertI64S => {
            reveal_strlit("f64.convert_i64_s");
            assert(name =~= numeric_type(op) + "."@ + numeric_word(op));
            assert(name.skip(4) =~= seq!['c', 'o', 'n', 'v', 'e', 'r', 't', '_', 'i', '6', '4', '_', 's']);
            assert(signature_named(name)->0 =~= op.signature());
        },
        NumericOp::F64ConvertI64U => {
            reveal_strlit("f64.convert_i64_u");
            assert(name =~= numeric_type(op) + "."@ + numeric_word(op));
            assert(name.skip(4) =~= seq!['c', 'o', 'n', 'v', 'e', 'r', 't', '_', 'i', '6', '4', '_', 'u']);
            assert(signature_named(name)->0 =~= op.signature());
        },
        _ => {},
    }
}

/// The names of some of the conversions.
proof fn lemma_conversion_names_2(op: NumericOp)
    ensures
        (match op {
            NumericOp::F64PromoteF32 | NumericOp::I32ReinterpretF32
            | NumericOp::I64ReinterpretF64 | NumericOp::F32ReinterpretI32
            | NumericOp::F64ReinterpretI64 => true,
            _ => false,
        }) ==> {
            &&& op.mnemonic() == numeric_type(op) + "."@ + numeric_word(op)
            &&& signature_named(op.mnemonic()) == Some(op.signature())
        },
{
    reveal_strlit(".");
    reveal_strlit("f32");
    reveal_strlit("f64");
    reveal_strlit("i32");
    reveal_strlit("i64");
    reveal_strlit("promote_f32");
    reveal_strlit("reinterpret_f32");
    reveal_strlit("reinterpret_f64");
    reveal_strlit("reinterpret_i32");
    reveal_strlit("reinterpret_i64");
    let name = op.mnemonic();
    match op {
        NumericOp::F64PromoteF32 => {
            reveal_strlit("f64.promote_f32");
            assert(name =~= numeric_type(op) + "."@ + numeric_word(op));
            assert(name.skip(4) =~= seq!['p', 'r', 'o', 'm', 'o', 't', 'e', '_', 'f', '3', '2']);
            assert(signature_named(name)->0 =~= op.signature());
        },
        NumericOp::I32ReinterpretF32 => {
            reveal_strlit("i32.reinterpret_f32");
            assert(name =~= numeric_type(op) + "."@ + numeric_word(op));
            assert(name.skip(4) =~= seq!['r', 'e', 'i', 'n', 't', 'e', 'r', 'p', 'r', 'e', 't', '_', 'f', '3', '2']);
            assert(signature_named(name)->0 =~= op.signature());
        },
        NumericOp::I64ReinterpretF64 => {
            reveal_strlit("i64.reinterpret_f64");
            assert(name =~= numeric_type(op) + "."@ + numeric_word(op));
            assert(name.skip(4) =~= seq!['r', 'e', 'i', 'n', 't', 'e', 'r', 'p', 'r', 'e', 't', '_', 'f', '6', '4']);
            assert(signature_named(name)->0 =~= op.signature());
        },
        NumericOp::F32ReinterpretI32 => {
            reveal_strlit("f32.reinterpret_i32");
            assert(name =~= numeric_type(op) + "."@ + numeric_word(op));
            assert(name.skip(4) =~= seq!['r', 'e', 'i', 'n', 't', 'e', 'r', 'p', 'r', 'e', 't', '_', 'i', '3', '2']);
            assert(signature_named(name)->0 =~= op.signature());
        },
        NumericOp::F64ReinterpretI64 => {
            reveal_strlit("f64.reinterpret_i64");
            assert(name =~= numeric_type(op) + "."@ + numeric_word(op));
            assert(name.skip(4) =~= seq!['r', 'e', 'i', 'n', 't', 'e', 'r', 'p', 'r', 'e', 't', '_', 'i', '6', '4']);
            assert(signature_named(name)->0 =~= op.signature());
        },
        _ => {},
    }
}

/// The name of a numeric operator says what the operator does: it is made up of the type and the word for
/// the operation, and the types that the operator takes and gives are those that can be read off it. A
/// conversion takes the type behind its word and gives the one before it; a test or comparison gives a
/// truth value; all others work on their type alone.
pub proof fn law_numeric_names_tell_the_types(op: NumericOp)
    ensures
        op.mnemonic() == numeric_type(op) + "."@ + numeric_word(op),
        signature_named(op.mnemonic()) == Some(op.signature()),
{
    lemma_i32_names_0(op);
    lemma_i32_names_1(op);
    lemma_i32_names_2(op);
    lemma_i64_names_0(op);
    lemma_i64_names_1(op);
    lemma_i64_names_2(op);
    lemma_f32_names_0(op);
    lemma_f32_names_1(op);
    lemma_f64_names_0(op);
    lemma_f64_names_1(op);
    lemma_conversion_names_0(op);
    lemma_conversion_names_1(op);
    lemma_conversion_names_2(op);
}

/// How many bits a load accesses, and whether it extends their sign, where these are fewer than those of its value.
pub open spec fn load_width(op: LoadOp) -> Seq<char> {
    match op {
        LoadOp::I32Load | LoadOp::I64Load | LoadOp::F32Load | LoadOp::F64Load => ""@,
        LoadOp::I32Load8S | LoadOp::I64Load8S => "8_s"@,
        LoadOp::I32Load8U | LoadOp::I64Load8U => "8_u"@,
        LoadOp::I32Load16S | LoadOp::I64Load16S => "16_s"@,
        LoadOp::I32Load16U | LoadOp::I64Load16U => "16_u"@,
        LoadOp::I64Load32S => "32_s"@,
        LoadOp::I64Load32U => "32_u"@,
    }
}

/// The type that a load belongs to.
pub open spec fn load_type(op: LoadOp) -> Seq<char> {
    match op {
        LoadOp::I32Load | LoadOp::I32Load8S | LoadOp::I32Load8U | LoadOp::I32Load16S
        | LoadOp::I32Load16U => "i32"@,
        LoadOp::I64Load | LoadOp::I64Load8S | LoadOp::I64Load8U | LoadOp::I64Load16S
        | LoadOp::I64Load16U | LoadOp::I64Load32S | LoadOp::I64Load32U => "i64"@,
        LoadOp::F32Load => "f32"@,
        LoadOp::F64Load => "f64"@,
    }
}

/// The name of a load says what it does: what it reads is of the type that its name begins with, at the address that it takes.
pub proof fn law_load_names_tell_the_types(op: LoadOp)
    ensures
        op.mnemonic() == load_type(op) + ".load"@ + load_width(op),
        type_at(op.mnemonic(), 0) == Some(op.value()),
        op.signature() == (Signature { params: seq![ValType::I32], results: seq![op.value()] }),
{
    reveal_strlit("");
    reveal_strlit(".load");
    reveal_strlit("16_s");
    reveal_strlit("16_u");
    reveal_strlit("32_s");
    reveal_strlit("32_u");
    reveal_strlit("8_s");
    reveal_strlit("8_u");
    reveal_strlit("f32");
    reveal_strlit("f64");
    reveal_strlit("i32");
    reveal_strlit("i64");
    let name = op.mnemonic();
    match op {
        LoadOp::I32Load => {
            reveal_strlit("i32.load");
            assert(name =~= load_type(op) + ".load"@ + load_width(op));
        },
        LoadOp::I64Load => {
            reveal_strlit("i64.load");
            assert(name =~= load_type(op) + ".load"@ + load_width(op));
        },
        LoadOp::F32Load => {
            reveal_strlit("f32.load");
            assert(name =~= load_type(op) + ".load"@ + load_width(op));
        },
        LoadOp::F64Load => {
            reveal_strlit("f64.load");
            assert(name =~= load_type(op) + ".load"@ + load_width(op));
        },
        LoadOp::I32Load8S => {
            reveal_strlit("i32.load8_s");
            assert(name =~= load_type(op) + ".load"@ + load_width(op));
        },
        LoadOp::I32Load8U => {
            reveal_strlit("i32.load8_u");
            assert(name =~= load_type(op) + ".load"@ + load_width(op));
        },
        LoadOp::I32Load16S => {
            reveal_strlit("i32.load16_s");
            assert(name =~= load_type(op) + ".load"@ + load_width(op));
        },
        LoadOp::I32Load16U => {
            reveal_strlit("i32.load16_u");
            assert(name =~= load_type(op) + ".load"@ + load_width(op));
        },
        LoadOp::I64Load8S => {
            reveal_strlit("i64.load8_s");
            assert(name =~= load_type(op) + ".load"@ + load_width(op));
        },
        LoadOp::I64Load8U => {
            reveal_strlit("i64.load8_u");
            assert(name =~= load_type(op) + ".load"@ + load_width(op));
        },
        LoadOp::I64Load16S => {
            reveal_strlit("i64.load16_s");
            assert(name =~= load_type(op) + ".load"@ + load_width(op));
        },
        LoadOp::I64Load16U => {
            reveal_strlit("i64.load16_u");
            assert(name =~= load_type(op) + ".load"@ + load_width(op));
        },
        LoadOp::I64Load32S => {
            reveal_strlit("i64.load32_s");
            assert(name =~= load_type(op) + ".load"@ + load_width(op));
        },
        LoadOp::I64Load32U => {
            reveal_strlit("i64.load32_u");
            assert(name =~= load_type(op) + ".load"@ + load_width(op));
        },
    }
}

/// How many bits a store accesses, where these are fewer than those of its value.
pub open spec fn store_width(op: StoreOp) -> Seq<char> {
    match op {
        StoreOp::I32Store | StoreOp::I64Store | StoreOp::F32Store | StoreOp::F64Store => ""@,
        StoreOp::I32Store8 | StoreOp::I64Store8 => "8"@,
        StoreOp::I32Store16 | StoreOp::I64Store16 => "16"@,
        StoreOp::I64Store32 => "32"@,
    }
}

/// The type that a store belongs to.
pub open spec fn store_type(op: StoreOp) -> Seq<char> {
    match op {
        StoreOp::I32Store | StoreOp::I32Store8 | StoreOp::I32Store16 => "i32"@,
        StoreOp::I64Store | StoreOp::I64Store8 | StoreOp::I64Store16 | StoreOp::I64Store32 => "i64"@,
        StoreOp::F32Store => "f32"@,
        StoreOp::F64Store => "f64"@,
    }
}

/// The name of a store says what it does: what it writes is of the type that its name begins with, at the address that it takes
/// before.
pub proof fn law_store_names_tell_the_types(op: StoreOp)
    ensures
        op.mnemonic() == store_type(op) + ".store"@ + store_width(op),
        type_at(op.mnemonic(), 0) == Some(op.value()),
        op.signature() == (Signature { params: seq![ValType::I32, op.value()], results: seq![] }),
{
    reveal_strlit("");
    reveal_strlit(".store");
    reveal_strlit("16");
    reveal_strlit("32");
    reveal_strlit("8");
    reveal_strlit("f32");
    reveal_strlit("f64");
    reveal_strlit("i32");
    reveal_strlit("i64");
    let name = op.mnemonic();
    match op {
        StoreOp::I32Store => {
            reveal_strlit("i32.store");
            assert(name =~= store_type(op) + ".store"@ + store_width(op));
        },
        StoreOp::I64Store => {
            reveal_strlit("i64.store");
            assert(name =~= store_type(op) + ".store"@ + store_width(op));
        },
        StoreOp::F32Store => {
            reveal_strlit("f32.store");
            assert(name =~= store_type(op) + ".store"@ + store_width(op));
        },
        StoreOp::F64Store => {
            reveal_strlit("f64.store");
            assert(name =~= store_type(op) + ".store"@ + store_width(op));
        },
        StoreOp::I32Store8 => {
            reveal_strlit("i32.store8");
            assert(name =~= store_type(op) + ".store"@ + store_width(op));
        },
        StoreOp::I32Store16 => {
            reveal_strlit("i32.store16");
            assert(name =~= store_type(op) + ".store"@ + store_width(op));
        },
        StoreOp::I64Store8 => {
            reveal_strlit("i64.store8");
            assert(name =~= store_type(op) + ".store"@ + store_width(op));
        },
        StoreOp::I64Store16 => {
            reveal_strlit("i64.store16");
            assert(name =~= store_type(op) + ".store"@ + store_width(op));
        },
        StoreOp::I64Store32 => {
            reveal_strlit("i64.store32");
            assert(name =~= store_type(op) + ".store"@ + store_width(op));
        },
    }
}

/// The word for a kind of block.
pub open spec fn kind_word(kind: BlockKind) -> Seq<char> {
    match kind {
        BlockKind::Function => "function"@,
        BlockKind::Block => "block"@,
        BlockKind::Loop => "loop"@,
        BlockKind::If => "if"@,
        BlockKind::Else => "else"@,
    }
}

/// The events are named after what happens. For each kind of block there is one event for its beginning
/// and one for its end, under names that differ in that alone; an instruction has the name that it has in
/// the text format of modules, with an underscore between words; that of a constant begins with its type.
pub proof fn law_events_are_named_after_instructions(id: HookId)
    ensures
        match id.op {
            HookOp::Start => id.event() == "start"@,
            HookOp::BeginFunction => id.event() == "begin_"@ + kind_word(BlockKind::Function),
            HookOp::BeginBlock => id.event() == "begin_"@ + kind_word(BlockKind::Block),
            HookOp::BeginLoop => id.event() == "begin_"@ + kind_word(BlockKind::Loop),
            HookOp::BeginIf => id.event() == "begin_"@ + kind_word(BlockKind::If),
            HookOp::BeginElse => id.event() == "begin_"@ + kind_word(BlockKind::Else),
            HookOp::End(kind) => id.event() == "end_"@ + kind_word(kind),
            HookOp::Nop => id.event() == "nop"@,
            HookOp::Unreachable => id.event() == "unreachable"@,
            HookOp::If => id.event() == kind_word(BlockKind::If),
            HookOp::Br => id.event() == "br"@,
            HookOp::BrIf => id.event() == "br"@ + "_if"@,
            HookOp::BrTable => id.event() == "br"@ + "_table"@,
            HookOp::Return => id.event() == "return"@,
            HookOp::Call => id.event() == "call"@,
            HookOp::CallIndirect => id.event() == "call"@ + "_indirect"@,
            HookOp::CallPost => id.event() == "call"@ + "_post"@,
            HookOp::Drop => id.event() == "drop"@,
            HookOp::Select => id.event() == "select"@,
            HookOp::Local(LocalOp::GetLocal) => id.event() == "get"@ + "_local"@,
            HookOp::Local(LocalOp::SetLocal) => id.event() == "set"@ + "_local"@,
            HookOp::Local(LocalOp::TeeLocal) => id.event() == "tee"@ + "_local"@,
            HookOp::Global(GlobalOp::GetGlobal) => id.event() == "get"@ + "_global"@,
            HookOp::Global(GlobalOp::SetGlobal) => id.event() == "set"@ + "_global"@,
            HookOp::MemorySize => id.event() == "memory"@ + "_size"@,
            HookOp::MemoryGrow => id.event() == "memory"@ + "_grow"@,
            HookOp::Load(op) => id.event() == load_type(op) + ".load"@ + load_width(op),
            HookOp::Store(op) => id.event() == store_type(op) + ".store"@ + store_width(op),
            HookOp::Const(ty) => type_at(id.event(), 0) == Some(ty) && id.event().skip(3) == ".const"@,
            HookOp::Numeric(op) => id.event() == numeric_type(op) + "."@ + numeric_word(op),
        },
{
    reveal_strlit("begin_");
    reveal_strlit("end_");
    reveal_strlit("function");
    reveal_strlit("block");
    reveal_strlit("loop");
    reveal_strlit("if");
    reveal_strlit("else");
    reveal_strlit("br");
    reveal_strlit("_if");
    reveal_strlit("_table");
    reveal_strlit("call");
    reveal_strlit("_indirect");
    reveal_strlit("_post");
    reveal_strlit("get");
    reveal_strlit("set");
    reveal_strlit("tee");
    reveal_strlit("_local");
    reveal_strlit("_global");
    reveal_strlit("memory");
    reveal_strlit("_size");
    reveal_strlit("_grow");
    reveal_strlit(".const");
    reveal_strlit("start");
    reveal_strlit("begin_function");
    reveal_strlit("begin_block");
    reveal_strlit("begin_loop");
    reveal_strlit("begin_if");
    reveal_strlit("begin_else");
    reveal_strlit("end_function");
    reveal_strlit("end_block");
    reveal_strlit("end_loop");
    reveal_strlit("end_if");
    reveal_strlit("end_else");
    reveal_strlit("nop");
    reveal_strlit("unreachable");
    reveal_strlit("br_if");
    reveal_strlit("br_table");
    reveal_strlit("return");
    reveal_strlit("call_indirect");
    reveal_strlit("call_post");
    reveal_strlit("drop");
    reveal_strlit("select");
    reveal_strlit("get_local");
    reveal_strlit("set_local");
    reveal_strlit("tee_local");
    reveal_strlit("get_global");
    reveal_strlit("set_global");
    reveal_strlit("memory_size");
    reveal_strlit("memory_grow");
    reveal_strlit("i32.const");
    reveal_strlit("i64.const");
    reveal_strlit("f32.const");
    reveal_strlit("f64.const");
    match id.op {
        HookOp::Load(op) => law_load_names_tell_the_types(op),
        HookOp::Store(op) => law_store_names_tell_the_types(op),
        HookOp::Numeric(op) => law_numeric_names_tell_the_types(op),
        HookOp::BeginFunction => assert(id.event() =~= "begin_"@ + kind_word(BlockKind::Function)),
        HookOp::BeginBlock => assert(id.event() =~= "begin_"@ + kind_word(BlockKind::Block)),
        HookOp::BeginLoop => assert(id.event() =~= "begin_"@ + kind_word(BlockKind::Loop)),
        HookOp::BeginIf => assert(id.event() =~= "begin_"@ + kind_word(BlockKind::If)),
        HookOp::BeginElse => assert(id.event() =~= "begin_"@ + kind_word(BlockKind::Else)),
        HookOp::End(kind) => assert(id.event() =~= "end_"@ + kind_word(kind)),
        HookOp::BrIf => assert(id.event() =~= "br"@ + "_if"@),
        HookOp::BrTable => assert(id.event() =~= "br"@ + "_table"@),
        HookOp::CallIndirect => assert(id.event() =~= "call"@ + "_indirect"@),
        HookOp::CallPost => assert(id.event() =~= "call"@ + "_post"@),
        HookOp::Local(LocalOp::GetLocal) => assert(id.event() =~= "get"@ + "_local"@),
        HookOp::Local(LocalOp::SetLocal) => assert(id.event() =~= "set"@ + "_local"@),
        HookOp::Local(LocalOp::TeeLocal) => assert(id.event() =~= "tee"@ + "_local"@),
        HookOp::Global(GlobalOp::GetGlobal) => assert(id.event() =~= "get"@ + "_global"@),
        HookOp::Global(GlobalOp::SetGlobal) => assert(id.event() =~= "set"@ + "_global"@),
        HookOp::MemorySize => assert(id.event() =~= "memory"@ + "_size"@),
        HookOp::MemoryGrow => assert(id.event() =~= "memory"@ + "_grow"@),
        HookOp::Const(_) => assert(id.event().skip(3) =~= ".const"@),
        _ => {},
    }
}

/// Words for types can be read back.
pub proof fn law_type_words_tell_the_types(ty: ValType)
    ensures
        type_word(ty).len() == 3,
        type_at(type_word(ty), 0) == Some(ty),
{
    reveal_strlit("i32");
    reveal_strlit("i64");
    reveal_strlit("f32");
    reveal_strlit("f64");
}

proof fn lemma_suffix(tys: Seq<ValType>)
    ensures
        type_suffix(tys).len() == 4 * tys.len(),
        forall|i: int|
            0 <= i < tys.len() ==> #[trigger] type_at(type_suffix(tys), 4 * i + 1) == Some(tys[i]),
        forall|i: int| 0 <= i < tys.len() ==> #[trigger] type_suffix(tys)[4 * i] == '_',
    decreases tys.len(),
{
    if tys.len() > 0 {
        let fewer = tys.drop_last();
        let word = type_word(tys.last());
        lemma_suffix(fewer);
        law_type_words_tell_the_types(tys.last());
        reveal_strlit("_");
        let text = type_suffix(tys);
        let n = type_suffix(fewer).len() as int;
        assert(text.len() == n + 4);
        assert(text[n + 1] == word[0] && text[n + 2] == word[1] && text[n + 3] == word[2]);
        assert forall|i: int| 0 <= i < tys.len() implies #[trigger] type_at(text, 4 * i + 1) == Some(
            tys[i],
        ) by {
            if i < fewer.len() {
                assert(type_at(type_suffix(fewer), 4 * i + 1) == Some(fewer[i]));
                let at = 4 * i + 1;
                assert(text[at] == type_suffix(fewer)[at] && text[at + 1] == type_suffix(fewer)[at + 1]
                    && text[at + 2] == type_suffix(fewer)[at + 2]);
            }
        }
        assert forall|i: int| 0 <= i < tys.len() implies #[trigger] text[4 * i] == '_' by {
            if i < fewer.len() {
                assert(type_suffix(fewer)[4 * i] == '_');
            }
        }
    }
}

/// The name of a hook tells the types that it is for: it begins with the event, and behind that each type
/// can be read back in order, with an underscore before it.
pub proof fn law_hook_names_tell_the_types(id: HookId)
    ensures
        ({
            let n = id.event().len() as int;
            &&& id.name().len() == n + 4 * id.tys.len()
            &&& id.name().take(n) == id.event()
            &&& forall|i: int|
                0 <= i < id.tys.len() ==> #[trigger] type_at(id.name().skip(n), 4 * i + 1) == Some(
                    id.tys[i],
                )
            &&& forall|i: int| 0 <= i < id.tys.len() ==> #[trigger] id.name().skip(n)[4 * i] == '_'
        }),
{
    let n = id.event().len() as int;
    lemma_suffix(id.tys);
    assert(id.name().take(n) =~= id.event());
    assert(id.name().skip(n) =~= type_suffix(id.tys));
    assert forall|i: int| 0 <= i < id.tys.len() implies #[trigger] type_at(id.name().skip(n), 4 * i + 1)
        == Some(id.tys[i]) by {
        assert(type_at(type_suffix(id.tys), 4 * i + 1) == Some(id.tys[i]));
    }
    assert forall|i: int| 0 <= i < id.tys.len() implies #[trigger] id.name().skip(n)[4 * i] == '_' by {
        assert(type_suffix(id.tys)[4 * i] == '_');
    }
}

/// The number of parameters that a value of the type takes.
pub open spec fn parameter_count(ty: ValType) -> nat {
    if ty == ValType::I64 {
        2
    } else {
        1
    }
}

/// A hook is a function that the host provides. It is told the location as two numbers, and then as many
/// values as the event has, of which a 64-bit integer comes as two numbers; and it gives nothing back, so
/// that calling it leaves the stack as it was.
pub proof fn law_hooks_are_imported(function: Function, id: HookId)
    requires
        is_hook_function(function, id),
    ensures
        function.code is None,
        function.export is None,
        function.import matches Some((from, name)) && from@ == "__wasabi_hooks"@ && name@ == id.name(),
        function.type_.results@ == Seq::<ValType>::empty(),
        function.type_.params@.len() == 2 + lowered_count(id.args()),
        function.type_.params@[0] == ValType::I32,
        function.type_.params@[1] == ValType::I32,
        !function.type_.params@.contains(ValType::I64),
{
    lemma_lowered_types(id.args());
    let lowered = lowered_types(id.args());
    let params = seq![ValType::I32, ValType::I32] + lowered;
    assert(function.type_.results@ =~= Seq::<ValType>::empty());
    assert forall|i: int| 0 <= i < params.len() implies params[i] != ValType::I64 by {
        if i >= 2 {
            assert(lowered.contains(lowered[i - 2]));
        }
    }
}

/// The number of parameters that values of the types take.
pub open spec fn lowered_count(tys: Seq<ValType>) -> nat
    decreases tys.len(),
{
    if tys.len() == 0 {
        0
    } else {
        parameter_count(tys[0]) + lowered_count(tys.skip(1))
    }
}

proof fn lemma_count_push(tys: Seq<ValType>, ty: ValType)
    ensures
        lowered_count(tys.push(ty)) == lowered_count(tys) + parameter_count(ty),
    decreases tys.len(),
{
    if tys.len() == 0 {
        assert(tys.push(ty).skip(1) =~= tys);
        assert(lowered_count(tys.push(ty).skip(1)) == 0);
    } else {
        lemma_count_push(tys.skip(1), ty);
        assert(tys.push(ty).skip(1) =~= tys.skip(1).push(ty));
    }
}

pub(crate) proof fn lemma_lowered_types(tys: Seq<ValType>)
    ensures
        lowered_types(tys).len() == lowered_count(tys),
        !lowered_types(tys).contains(ValType::I64),
    decreases tys.len(),
{
    if tys.len() > 0 {
        lemma_lowered_types(tys.drop_last());
        lemma_count_push(tys.drop_last(), tys.last());
        assert(tys.drop_last().push(tys.last()) =~= tys);
        let (a, b) = (lowered_types(tys.drop_last()), lowered_type(tys.last()));
        assert forall|i: int| 0 <= i < (a + b).len() implies (a + b)[i] != ValType::I64 by {
            if i < a.len() {
                assert(a.contains(a[i]));
            }
        }
    }
}

/// A constant has the type of the numbers that it is made of, and no two types share one: integers are of
/// integer types, bit patterns of floating-point types, with as many bits as the type says.
pub proof fn law_constants_have_their_types(val: Val)
    ensures
        match val.ty() {
            ValType::I32 => val is I32,
            ValType::I64 => val is I64,
            ValType::F32 => val is F32,
            ValType::F64 => val is F64,
        },
{
}

} // verus!
