//! What instrumented code consists of: the code that goes in place of each instruction, with the
//! hooks named by what they are for, not yet by the index of their function.
use vstd::prelude::*;

use crate::ast::{
    consecutive, index_const, FunctionIdx, GlobalIdx, GlobalOp, Instr, InstrIdx, LocalIdx, LocalOp,
    Signature, Val, ValType,
};
use crate::block_stack::BlockStackElement;
use crate::convert_i64::{convert_i64_instr, lowered_instr};
use crate::hook_map::{hook_call, requested, HookId, HookOp};

verus! {

/// One step of instrumented code: an instruction, or the call of a hook.
pub ghost enum Emit {
    Plain(Instr),
    Hook(HookId),
}

/// The hooks that are called, in order, each as often as it is.
pub open spec fn calls(trace: Seq<Emit>) -> Seq<HookId>
    decreases trace.len(),
{
    if trace.len() == 0 {
        seq![]
    } else {
        match trace.last() {
            Emit::Plain(_) => calls(trace.drop_last()),
            Emit::Hook(id) => calls(trace.drop_last()).push(id),
        }
    }
}

/// The ids, each at its first occurrence only.
pub open spec fn distinct(ids: Seq<HookId>) -> Seq<HookId>
    decreases ids.len(),
{
    if ids.len() == 0 {
        seq![]
    } else {
        requested(distinct(ids.drop_last()), ids.last())
    }
}

/// The step as an instruction, where the functions of the hooks `ids` begin at index `first`.
pub open spec fn linked_step(step: Emit, ids: Seq<HookId>, first: nat) -> Instr {
    match step {
        Emit::Plain(instr) => instr,
        Emit::Hook(id) => hook_call(ids, first, id),
    }
}

/// The trace as instructions, where the functions of the hooks `ids` begin at index `first`.
pub open spec fn linked(trace: Seq<Emit>, ids: Seq<HookId>, first: nat) -> Seq<Instr> {
    trace.map_values(|step: Emit| linked_step(step, ids, first))
}

pub open spec fn plain(instrs: Seq<Instr>) -> Seq<Emit> {
    instrs.map_values(|instr: Instr| Emit::Plain(instr))
}

/// The call of the hook for `op` with the types `tys`.
pub open spec fn hook(op: HookOp, tys: Seq<ValType>) -> Seq<Emit> {
    seq![Emit::Hook(HookId { op, tys })]
}

pub open spec fn get(local: LocalIdx) -> Instr {
    Instr::Local(LocalOp::GetLocal, local)
}

pub open spec fn set(local: LocalIdx) -> Instr {
    Instr::Local(LocalOp::SetLocal, local)
}

pub open spec fn tee(local: LocalIdx) -> Instr {
    Instr::Local(LocalOp::TeeLocal, local)
}

/// Copies the topmost values of the stack into the locals, the topmost into the last one: all but
/// the lowest value are taken off, the lowest one is copied in place, and the others are put back.
pub open spec fn saved(locals: Seq<LocalIdx>) -> Seq<Instr> {
    if locals.len() == 0 {
        seq![]
    } else {
        let others = locals.skip(1);
        others.reverse().map_values(|local: LocalIdx| set(local)) + seq![tee(locals[0])]
            + others.map_values(|local: LocalIdx| get(local))
    }
}

/// Hands the values of the locals to a hook, in order; `vars` are the types of all variables.
pub open spec fn restored(locals: Seq<LocalIdx>, vars: Seq<ValType>) -> Seq<Instr>
    decreases locals.len(),
{
    if locals.len() == 0 {
        seq![]
    } else {
        restored(locals.drop_last(), vars) + lowered_instr(
            get(locals.last()),
            vars[locals.last().0 as int],
        )
    }
}

/// Code that copies the topmost `locals.len()` values of the stack into the given locals and leaves
/// the stack as it was. The types of the locals must be those of the values.
pub fn save_stack_to_locals(locals: &Vec<LocalIdx>) -> (instrs: Vec<Instr>)
    ensures
        instrs@ == saved(locals@),
{
    let mut instrs: Vec<Instr> = Vec::new();
    let len: usize = locals.len();
    if len == 0 {
        return instrs;
    }
    let ghost others = locals@.skip(1);
    let ghost sets = others.reverse().map_values(|local: LocalIdx| set(local));
    let ghost gets = others.map_values(|local: LocalIdx| get(local));
    let mut i: usize = len;
    while i > 1
        invariant
            1 <= i <= len,
            len == locals@.len(),
            others == locals@.skip(1),
            sets == others.reverse().map_values(|local: LocalIdx| set(local)),
            instrs@ == sets.take(len - i),
        decreases i,
    {
        i = i - 1;
        instrs.push(Instr::Local(LocalOp::SetLocal, locals[i]));
        assert(sets.take(len - i) =~= sets.take(len - i - 1).push(set(locals@[i as int])));
    }
    assert(sets.take(len - 1) =~= sets);
    instrs.push(Instr::Local(LocalOp::TeeLocal, locals[0]));
    let ghost start = sets + seq![tee(locals@[0])];
    assert(instrs@ =~= start + gets.take(0));
    for k in 1..len
        invariant
            len == locals@.len(),
            others == locals@.skip(1),
            gets == others.map_values(|local: LocalIdx| get(local)),
            instrs@ == start + gets.take(k - 1),
    {
        instrs.push(Instr::Local(LocalOp::GetLocal, locals[k]));
        assert(start + gets.take(k as int) =~= (start + gets.take(k - 1)).push(get(locals@[k as int])));
    }
    assert(gets.take(len - 1) =~= gets);
    instrs
}

/// Code that hands the values of the given locals to a hook, with 64-bit integers in two halves.
/// `vars` are the types of all variables of the function.
pub fn restore_locals_with_i64_handling(locals: &Vec<LocalIdx>, vars: &Vec<ValType>) -> (instrs: Vec<Instr>)
    requires
        forall|i: int| 0 <= i < locals@.len() ==> (#[trigger] locals@[i]).0 < vars@.len(),
    ensures
        instrs@ == restored(locals@, vars@),
{
    let mut instrs: Vec<Instr> = Vec::new();
    for i in 0..locals.len()
        invariant
            forall|i: int| 0 <= i < locals@.len() ==> (#[trigger] locals@[i]).0 < vars@.len(),
            instrs@ == restored(locals@.take(i as int), vars@),
    {
        let local = locals[i];
        let mut converted = convert_i64_instr(Instr::Local(LocalOp::GetLocal, local), vars[local.0]);
        instrs.append(&mut converted);
        assert(locals@.take(i + 1).drop_last() =~= locals@.take(i as int));
    }
    assert(locals@.take(locals@.len() as int) =~= locals@);
    instrs
}

/// What is known of an instruction from where it stands: the types that it takes and gives, the
/// block that it leaves, and where it branches to.
#[verifier::ext_equal]
pub ghost struct Site {
    pub sig: Signature,
    pub block: Option<BlockStackElement>,
    pub target: Option<InstrIdx>,
}

/// The types of the local variables that the code for an instruction needs for itself.
pub open spec fn fresh(instr: Instr, sig: Signature) -> Seq<ValType> {
    match instr {
        Instr::If(_) | Instr::BrIf(_) | Instr::BrTable(_, _) => seq![ValType::I32],
        Instr::Return => sig.results,
        Instr::Call(_) => sig.params + sig.results,
        Instr::CallIndirect(_, _) => seq![ValType::I32] + sig.params + sig.results,
        Instr::Drop => sig.params,
        Instr::Select => seq![ValType::I32, sig.params[0], sig.params[0]],
        Instr::MemoryGrow(_) => seq![ValType::I32, ValType::I32],
        Instr::Load(op, _) => seq![ValType::I32, op.value()],
        Instr::Store(op, _) => seq![ValType::I32, op.value()],
        Instr::Numeric(op) => op.signature().params + op.signature().results,
        _ => seq![],
    }
}

/// Hands a location to a hook: the function and the instruction.
pub open spec fn located(func: FunctionIdx, instr: InstrIdx) -> Seq<Emit> {
    plain(seq![index_const(func.0), index_const(instr.0)])
}

/// Hands to a hook the location of what belongs to no instruction.
pub open spec fn located_outside(func: FunctionIdx) -> Seq<Emit> {
    plain(seq![index_const(func.0), Instr::Const(Val::I32((-1) as i32))])
}

/// Hands to a hook where the block that is left began.
pub open spec fn block_begins(block: BlockStackElement) -> Seq<Instr> {
    match block {
        BlockStackElement::Function { .. } => seq![],
        BlockStackElement::Block { begin, .. } => seq![index_const(begin.0)],
        BlockStackElement::Loop { begin, .. } => seq![index_const(begin.0)],
        BlockStackElement::If { begin_if, .. } => seq![index_const(begin_if.0)],
        BlockStackElement::Else { begin_if, begin_else, .. } => seq![
            index_const(begin_if.0),
            index_const(begin_else.0),
        ],
    }
}

/// The index of the `if` of a block.
pub open spec fn if_begin(block: BlockStackElement) -> InstrIdx {
    match block {
        BlockStackElement::If { begin_if, .. } => begin_if,
        BlockStackElement::Else { begin_if, .. } => begin_if,
        _ => InstrIdx(0),
    }
}

/// The code that goes in place of the instruction `instr` at index `at` of the function `func`.
///
/// `vars` are the types of the function's variables so far, behind which the code's own follow;
/// `tables` is the number of `br_table` instructions before this one.
pub open spec fn chunk(
    func: FunctionIdx,
    at: InstrIdx,
    instr: Instr,
    site: Site,
    vars: Seq<ValType>,
    tables: nat,
) -> Seq<Emit> {
    let loc = located(func, at);
    let n = vars.len();
    let tmp = consecutive(n, fresh(instr, site.sig).len());
    let all = vars + fresh(instr, site.sig);
    match instr {
        // the hook stands in for the instruction
        Instr::Nop => loc + hook(HookOp::Nop, seq![]),
        Instr::Unreachable => loc + hook(HookOp::Unreachable, seq![]) + plain(seq![instr]),
        Instr::Block(_) => plain(seq![instr]) + loc + hook(HookOp::BeginBlock, seq![]),
        Instr::Loop(_) => plain(seq![instr]) + loc + hook(HookOp::BeginLoop, seq![]),
        // one hook on either branch, one on the first only
        Instr::If(_) => plain(seq![tee(tmp[0])]) + loc + plain(seq![get(tmp[0])]) + hook(
            HookOp::If,
            seq![],
        ) + plain(seq![instr]) + loc + hook(HookOp::BeginIf, seq![]),
        Instr::Else => {
            let begin_if = plain(seq![index_const(if_begin(site.block->0).0)]);
            loc + begin_if + hook(HookOp::End(site.block->0.spec_kind()), seq![]) + plain(seq![instr])
                + loc + begin_if + hook(HookOp::BeginElse, seq![])
        },
        Instr::End => loc + plain(block_begins(site.block->0)) + hook(
            HookOp::End(site.block->0.spec_kind()),
            seq![],
        ) + plain(seq![instr]),
        Instr::Br(label) => loc + plain(
            seq![index_const(label.0), index_const((site.target->0).0)],
        ) + hook(HookOp::Br, seq![]) + plain(seq![instr]),
        Instr::BrIf(label) => plain(seq![tee(tmp[0])]) + loc + plain(
            seq![index_const(label.0), index_const((site.target->0).0), get(tmp[0])],
        ) + hook(HookOp::BrIf, seq![]) + plain(seq![instr]),
        Instr::BrTable(_, _) => plain(seq![tee(tmp[0])]) + loc + plain(
            seq![index_const(tables as usize), get(tmp[0])],
        ) + hook(HookOp::BrTable, seq![]) + plain(seq![instr]),
        Instr::Return => plain(saved(tmp)) + loc + plain(restored(tmp, all)) + hook(
            HookOp::Return,
            site.sig.results,
        ) + plain(seq![instr]),
        Instr::Call(callee) => {
            let args = consecutive(n, site.sig.params.len());
            plain(saved(args)) + loc + plain(seq![index_const(callee.0)]) + plain(restored(args, all))
                + hook(HookOp::Call, site.sig.params) + plain(seq![instr]) + after_call(
                loc,
                consecutive(n + site.sig.params.len(), site.sig.results.len()),
                all,
                site.sig.results,
            )
        },
        Instr::CallIndirect(_, _) => {
            let args = consecutive(n + 1, site.sig.params.len());
            plain(seq![set(tmp[0])]) + plain(saved(args)) + plain(seq![get(tmp[0])]) + loc + plain(
                seq![get(tmp[0])],
            ) + plain(restored(args, all)) + hook(HookOp::CallIndirect, site.sig.params) + plain(
                seq![instr],
            ) + after_call(
                loc,
                consecutive(n + 1 + site.sig.params.len(), site.sig.results.len()),
                all,
                site.sig.results,
            )
        },
        Instr::Drop => plain(seq![set(tmp[0])]) + loc + plain(
            lowered_instr(get(tmp[0]), site.sig.params[0]),
        ) + hook(HookOp::Drop, site.sig.params),
        Instr::Select => plain(saved(seq![tmp[1], tmp[2], tmp[0]])) + plain(seq![instr]) + loc + plain(
            seq![get(tmp[0])],
        ) + plain(restored(seq![tmp[1], tmp[2]], all)) + hook(
            HookOp::Select,
            seq![site.sig.params[0], site.sig.params[0]],
        ),
        Instr::Local(op, local) => {
            let ty = vars[local.0 as int];
            plain(seq![instr]) + loc + plain(seq![index_const(local.0)]) + plain(
                lowered_instr(get(local), ty),
            ) + hook(HookOp::Local(op), seq![ty])
        },
        Instr::Global(op, global) => {
            let ty = global_value(op, site.sig);
            plain(seq![instr]) + loc + plain(seq![index_const(global.0)]) + plain(
                lowered_instr(Instr::Global(GlobalOp::GetGlobal, global), ty),
            ) + hook(HookOp::Global(op), seq![ty])
        },
        // the size is asked for again instead of kept
        Instr::MemorySize(_) => plain(seq![instr]) + loc + plain(seq![instr]) + hook(
            HookOp::MemorySize,
            seq![],
        ),
        Instr::MemoryGrow(_) => plain(seq![tee(tmp[0]), instr, tee(tmp[1])]) + loc + plain(
            seq![get(tmp[0]), get(tmp[1])],
        ) + hook(HookOp::MemoryGrow, seq![]),
        Instr::Load(op, memarg) => plain(seq![tee(tmp[0]), instr, tee(tmp[1])]) + loc + plain(
            seq![
                Instr::Const(Val::I32(memarg.offset as i32)),
                Instr::Const(Val::I32(memarg.alignment as i32)),
            ],
        ) + plain(restored(tmp, all)) + hook(HookOp::Load(op), seq![]),
        Instr::Store(op, memarg) => plain(saved(tmp)) + plain(seq![instr]) + loc + plain(
            seq![
                Instr::Const(Val::I32(memarg.offset as i32)),
                Instr::Const(Val::I32(memarg.alignment as i32)),
            ],
        ) + plain(restored(tmp, all)) + hook(HookOp::Store(op), seq![]),
        // the constant is pushed again instead of kept
        Instr::Const(val) => plain(seq![instr]) + loc + plain(lowered_instr(instr, val.ty())) + hook(
            HookOp::Const(val.ty()),
            seq![],
        ),
        Instr::Numeric(op) => {
            let inputs = consecutive(n, op.signature().params.len());
            let results = consecutive(n + op.signature().params.len(), op.signature().results.len());
            plain(saved(inputs)) + plain(seq![instr]) + plain(saved(results)) + loc + plain(
                restored(inputs + results, all),
            ) + hook(HookOp::Numeric(op), seq![])
        },
    }
}

/// The type of the value that a global holds, by the types of an access to it.
pub open spec fn global_value(op: GlobalOp, sig: Signature) -> ValType {
    match op {
        GlobalOp::GetGlobal => sig.results[0],
        GlobalOp::SetGlobal => sig.params[0],
    }
}

/// The code behind a call: the results are told to the hook for them.
pub open spec fn after_call(
    loc: Seq<Emit>,
    results: Seq<LocalIdx>,
    vars: Seq<ValType>,
    tys: Seq<ValType>,
) -> Seq<Emit> {
    plain(saved(results)) + loc + plain(restored(results, vars)) + hook(HookOp::CallPost, tys)
}

/// The code at the entry of the module's start function: unless the global says that it has run
/// already, the global is cleared and the hook for the start called.
pub open spec fn start_prologue(func: FunctionIdx, not_executed: GlobalIdx) -> Seq<Emit> {
    plain(
        seq![
            Instr::Global(GlobalOp::GetGlobal, not_executed),
            Instr::If(crate::ast::BlockType(None)),
            Instr::Const(Val::I32(0)),
            Instr::Global(GlobalOp::SetGlobal, not_executed),
        ],
    ) + located_outside(func) + hook(HookOp::Start, seq![]) + plain(seq![Instr::End])
}

/// The code at the entry of a function; `start` holds the global for the start function.
pub open spec fn prologue(func: FunctionIdx, start: Option<GlobalIdx>) -> Seq<Emit> {
    (match start {
        Some(not_executed) => start_prologue(func, not_executed),
        None => seq![],
    }) + located_outside(func) + hook(HookOp::BeginFunction, seq![])
}

/// Whether the function returns by running into the end of its body.
pub open spec fn returns_implicitly(body: Seq<Instr>) -> bool {
    !(body.len() >= 2 && body[body.len() - 2] is Return && body[body.len() - 1] is End)
}

/// The code at the end of a function that returns implicitly; `vars` are the types of the
/// function's variables so far.
pub open spec fn epilogue(func: FunctionIdx, results: Seq<ValType>, vars: Seq<ValType>) -> Seq<Emit> {
    let tmp = consecutive(vars.len(), results.len());
    plain(saved(tmp)) + located_outside(func) + plain(restored(tmp, vars + results)) + hook(
        HookOp::Return,
        results,
    ) + plain(seq![Instr::End])
}

} // verus!
