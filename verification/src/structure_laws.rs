//! How the code of an instrumented function is laid out: the code for the instructions in order,
//! the instructions in it, and the blocks and branches as they were.
use vstd::prelude::*;

use crate::add_hooks::{lemma_last_is_end, lemma_trace_ends};
use crate::ast::{
    consecutive, index_const, BlockType, FunctionIdx, Instr, InstrIdx, LocalIdx, Val, ValType,
};
use crate::chunk_lemmas::is_straight;
use crate::convert_i64::lowered_instr;
use crate::hook_map::HookOp;
use crate::trace::{
    block_begins, chunk, epilogue, fresh, get, hook, if_begin, located, located_outside, plain, prologue,
    restored, returns_implicitly, saved, tee, Emit, Site,
};
use crate::walk::{instrumented, lemma_walkable_prefix, progress, site_at, walkable, Scope};

verus! {

/// The instructions of a trace that open, switch or leave blocks or branch, in order.
pub open spec fn control(trace: Seq<Emit>) -> Seq<Instr>
    decreases trace.len(),
{
    if trace.len() == 0 {
        seq![]
    } else {
        match trace.last() {
            Emit::Plain(instr) => if is_straight(instr) {
                control(trace.drop_last())
            } else {
                control(trace.drop_last()).push(instr)
            },
            Emit::Hook(_) => control(trace.drop_last()),
        }
    }
}

/// Whether a trace has no such instructions.
#[verifier::opaque]
pub open spec fn quiet(trace: Seq<Emit>) -> bool {
    forall|i: int| 0 <= i < trace.len() ==> (#[trigger] trace[i] matches Emit::Plain(instr) ==> is_straight(instr))
}

pub(crate) proof fn lemma_control_add(a: Seq<Emit>, b: Seq<Emit>)
    ensures
        control(a + b) == control(a) + control(b),
    decreases b.len(),
{
    if b.len() == 0 {
        assert(a + b =~= a);
        assert(control(a) + control(b) =~= control(a));
    } else {
        lemma_control_add(a, b.drop_last());
        assert((a + b).drop_last() =~= a + b.drop_last());
        assert(control(a + b) =~= control(a) + control(b));
    }
}

pub(crate) proof fn lemma_quiet_control(trace: Seq<Emit>)
    requires
        quiet(trace),
    ensures
        control(trace) == Seq::<Instr>::empty(),
    decreases trace.len(),
{
    reveal(quiet);
    if trace.len() > 0 {
        assert(trace[trace.len() - 1] == trace.last());
        assert forall|i: int| 0 <= i < trace.drop_last().len() implies (
        #[trigger] trace.drop_last()[i] matches Emit::Plain(instr) ==> is_straight(instr)) by {
            assert(trace[i] == trace.drop_last()[i]);
        }
        lemma_quiet_control(trace.drop_last());
    } else {
        assert(control(trace) =~= seq![]);
    }
}

pub(crate) broadcast proof fn lemma_quiet_add(a: Seq<Emit>, b: Seq<Emit>)
    requires
        quiet(a),
        quiet(b),
    ensures
        #[trigger] quiet(a + b),
{
    reveal(quiet);
    assert forall|i: int| 0 <= i < (a + b).len() implies (
    #[trigger] (a + b)[i] matches Emit::Plain(instr) ==> is_straight(instr)) by {
        if i < a.len() {
            assert((a + b)[i] == a[i]);
        } else {
            assert((a + b)[i] == b[i - a.len()]);
        }
    }
}

broadcast proof fn lemma_quiet_plain(instrs: Seq<Instr>)
    requires
        forall|i: int| 0 <= i < instrs.len() ==> is_straight(#[trigger] instrs[i]),
    ensures
        #[trigger] quiet(plain(instrs)),
{
    reveal(quiet);
}

broadcast proof fn lemma_quiet_saved(locals: Seq<LocalIdx>)
    ensures
        #[trigger] quiet(plain(saved(locals))),
{
    assert forall|i: int| 0 <= i < saved(locals).len() implies is_straight(
        #[trigger] saved(locals)[i],
    ) by {}
    lemma_quiet_plain(saved(locals));
}

proof fn lemma_straight_lowered(read: Instr, ty: ValType)
    requires
        is_straight(read),
    ensures
        forall|i: int|
            0 <= i < lowered_instr(read, ty).len() ==> is_straight(#[trigger] lowered_instr(read, ty)[i]),
{
}

broadcast proof fn lemma_quiet_lowered(read: Instr, ty: ValType)
    requires
        is_straight(read),
    ensures
        #[trigger] quiet(plain(lowered_instr(read, ty))),
{
    lemma_straight_lowered(read, ty);
    lemma_quiet_plain(lowered_instr(read, ty));
}

broadcast proof fn lemma_quiet_restored(locals: Seq<LocalIdx>, vars: Seq<ValType>)
    ensures
        #[trigger] quiet(plain(restored(locals, vars))),
    decreases locals.len(),
{
    if locals.len() == 0 {
        lemma_quiet_plain(restored(locals, vars));
    } else {
        let fewer = restored(locals.drop_last(), vars);
        let one = lowered_instr(get(locals.last()), vars[locals.last().0 as int]);
        lemma_quiet_restored(locals.drop_last(), vars);
        lemma_quiet_lowered(get(locals.last()), vars[locals.last().0 as int]);
        assert(plain(restored(locals, vars)) =~= plain(fewer) + plain(one));
        lemma_quiet_add(plain(fewer), plain(one));
    }
}

broadcast proof fn lemma_quiet_hook(op: HookOp, tys: Seq<ValType>)
    ensures
        #[trigger] quiet(hook(op, tys)),
{
    reveal(quiet);
}

broadcast proof fn lemma_quiet_located(func: FunctionIdx, at: InstrIdx)
    ensures
        #[trigger] quiet(located(func, at)),
{
    lemma_quiet_plain(seq![index_const(func.0), index_const(at.0)]);
}

broadcast proof fn lemma_quiet_located_outside(func: FunctionIdx)
    ensures
        #[trigger] quiet(located_outside(func)),
{
    lemma_quiet_plain(seq![index_const(func.0), Instr::Const(Val::I32((-1) as i32))]);
}

broadcast group group_quiet {
    lemma_quiet_add,
    lemma_quiet_plain,
    lemma_quiet_saved,
    lemma_quiet_lowered,
    lemma_quiet_restored,
    lemma_quiet_hook,
    lemma_quiet_located,
    lemma_quiet_located_outside,
}

/// The code for a straight instruction has no control instructions.
pub(crate) proof fn lemma_straight_is_quiet(
    func: FunctionIdx,
    at: InstrIdx,
    instr: Instr,
    site: Site,
    vars: Seq<ValType>,
    tables: nat,
)
    requires
        is_straight(instr),
    ensures
        quiet(chunk(func, at, instr, site, vars, tables)),
{
    broadcast use group_quiet;

    match instr {
        Instr::Nop => {},
        Instr::Call(_) => {},
        Instr::CallIndirect(_, _) => {},
        Instr::Drop => {},
        Instr::Select => {},
        Instr::Local(_, _) => {},
        Instr::Global(_, _) => {},
        Instr::MemorySize(_) => {},
        Instr::MemoryGrow(_) => {},
        Instr::Load(_, _) => {},
        Instr::Store(_, _) => {},
        Instr::Const(_) => {},
        _ => {},
    }
}

/// The instruction itself is the only control instruction between quiet code.
proof fn lemma_control_of_parts(a: Seq<Emit>, instr: Instr, b: Seq<Emit>)
    requires
        quiet(a),
        quiet(b),
        !is_straight(instr),
    ensures
        control(a + plain(seq![instr]) + b) == seq![instr],
        control(a + plain(seq![instr])) == seq![instr],
        control(plain(seq![instr]) + b) == seq![instr],
{
    let one = plain(seq![instr]);
    lemma_quiet_control(a);
    lemma_quiet_control(b);
    lemma_control_add(a, one);
    lemma_control_add(one, b);
    lemma_control_add(a + one, b);
    assert(one.drop_last() =~= seq![]);
    assert(one.last() == Emit::Plain(instr));
    assert(control(Seq::<Emit>::empty()) =~= seq![]);
    assert(control(one) =~= seq![instr]);
    assert(seq![] + seq![instr] + seq![] =~= seq![instr]);
    assert(seq![] + seq![instr] =~= seq![instr]);
    assert(seq![instr] + seq![] =~= seq![instr]);
}

/// The code for an instruction has the control instruction that it stands for, and no other.
pub(crate) proof fn lemma_control_of_chunk(
    func: FunctionIdx,
    at: InstrIdx,
    instr: Instr,
    site: Site,
    vars: Seq<ValType>,
    tables: nat,
)
    ensures
        control(chunk(func, at, instr, site, vars, tables)) == if is_straight(instr) {
            seq![]
        } else {
            seq![instr]
        },
{
    broadcast use group_quiet;

    let code = chunk(func, at, instr, site, vars, tables);
    let loc = located(func, at);
    let none: Seq<Emit> = seq![];
    let one = plain(seq![instr]);
    let tmp = consecutive(vars.len(), fresh(instr, site.sig).len());
    assert(quiet(plain(Seq::<Instr>::empty())));
    assert(plain(Seq::<Instr>::empty()) =~= none);
    if is_straight(instr) {
        lemma_straight_is_quiet(func, at, instr, site, vars, tables);
        lemma_quiet_control(code);
    } else {
        match instr {
            Instr::Unreachable => {
                lemma_control_of_parts(loc + hook(HookOp::Unreachable, seq![]), instr, none);
            },
            Instr::Block(_) => {
                lemma_control_of_parts(none, instr, loc + hook(HookOp::BeginBlock, seq![]));
                assert(code =~= one + (loc + hook(HookOp::BeginBlock, seq![])));
            },
            Instr::Loop(_) => {
                lemma_control_of_parts(none, instr, loc + hook(HookOp::BeginLoop, seq![]));
                assert(code =~= one + (loc + hook(HookOp::BeginLoop, seq![])));
            },
            Instr::If(_) => {
                let ahead = plain(seq![tee(tmp[0])]) + loc + plain(seq![get(tmp[0])]) + hook(
                    HookOp::If,
                    seq![],
                );
                let behind = loc + hook(HookOp::BeginIf, seq![]);
                lemma_control_of_parts(ahead, instr, behind);
                assert(code =~= ahead + one + behind);
            },
            Instr::Else => {
                let begin = plain(seq![index_const(if_begin(site.block->0).0)]);
                let ahead = loc + begin + hook(HookOp::End(site.block->0.spec_kind()), seq![]);
                let behind = loc + begin + hook(HookOp::BeginElse, seq![]);
                lemma_control_of_parts(ahead, instr, behind);
                assert(code =~= ahead + one + behind);
            },
            Instr::End => {
                lemma_quiet_plain(block_begins(site.block->0));
                let ahead = loc + plain(block_begins(site.block->0)) + hook(
                    HookOp::End(site.block->0.spec_kind()),
                    seq![],
                );
                lemma_control_of_parts(ahead, instr, none);
            },
            Instr::Br(label) => {
                let push = plain(seq![index_const(label.0), index_const((site.target->0).0)]);
                lemma_control_of_parts(loc + push + hook(HookOp::Br, seq![]), instr, none);
            },
            Instr::BrIf(label) => {
                let push = plain(
                    seq![index_const(label.0), index_const((site.target->0).0), get(tmp[0])],
                );
                let ahead = plain(seq![tee(tmp[0])]) + loc + push + hook(HookOp::BrIf, seq![]);
                lemma_control_of_parts(ahead, instr, none);
            },
            Instr::BrTable(_, _) => {
                let push = plain(seq![index_const(tables as usize), get(tmp[0])]);
                let ahead = plain(seq![tee(tmp[0])]) + loc + push + hook(HookOp::BrTable, seq![]);
                lemma_control_of_parts(ahead, instr, none);
            },
            _ => {
                let all = vars + fresh(instr, site.sig);
                let ahead = plain(saved(tmp)) + loc + plain(restored(tmp, all)) + hook(
                    HookOp::Return,
                    site.sig.results,
                );
                lemma_control_of_parts(ahead, instr, none);
            },
        }
    }
}

/// The code at the entry opens and closes a block for the start, and nothing else.
pub(crate) proof fn lemma_control_of_prologue(func: FunctionIdx, start: Option<crate::ast::GlobalIdx>)
    ensures
        control(prologue(func, start)) == if start is Some {
            seq![Instr::If(BlockType(None)), Instr::End]
        } else {
            seq![]
        },
{
    broadcast use group_quiet;

    let enter = located_outside(func) + hook(HookOp::BeginFunction, seq![]);
    match start {
        Some(global) => {
            let read = Instr::Global(crate::ast::GlobalOp::GetGlobal, global);
            let write = Instr::Global(crate::ast::GlobalOp::SetGlobal, global);
            let open = Instr::If(BlockType(None));
            let clear = plain(seq![Instr::Const(Val::I32(0)), write]);
            let report = clear + located_outside(func) + hook(HookOp::Start, seq![]);
            let first = plain(seq![read]) + plain(seq![open]) + report;
            let second = plain(seq![Instr::End]) + enter;
            lemma_control_of_parts(plain(seq![read]), open, report);
            lemma_control_of_parts(report, Instr::End, enter);
            lemma_control_add(first, second);
            assert(plain(seq![read, open, Instr::Const(Val::I32(0)), write]) =~= plain(seq![read])
                + plain(seq![open]) + clear);
            assert(prologue(func, start) =~= first + second);
            assert(seq![open] + seq![Instr::End] =~= seq![open, Instr::End]);
        },
        None => {
            assert(prologue(func, start) =~= enter);
            lemma_quiet_control(enter);
        },
    }
}

proof fn lemma_control_between(scope: Scope, count: nat)
    requires
        count <= scope.body.len(),
        progress(scope, count) is Some,
    ensures
        control(progress(scope, count)->0.trace) == control(prologue(scope.func, scope.start)) + control(
            plain(scope.body.take(count as int)),
        ),
    decreases count,
{
    let head = control(prologue(scope.func, scope.start));
    if count == 0 {
        assert(plain(scope.body.take(0)) =~= seq![]);
        assert(head + control(plain(scope.body.take(0))) =~= head);
    } else {
        let at = (count - 1) as nat;
        let instr = scope.body[at as int];
        lemma_control_between(scope, at);
        let p = progress(scope, at)->0;
        let site = site_at(scope, p.walked, instr);
        let (vars, tables) = (p.walked.vars, p.walked.tables.len());
        lemma_control_of_chunk(scope.func, InstrIdx(at as usize), instr, site, vars, tables);
        lemma_control_add(
            p.trace,
            chunk(scope.func, InstrIdx(at as usize), instr, site, vars, tables),
        );
        let before = plain(scope.body.take(at as int));
        let upto = plain(scope.body.take(count as int));
        assert(upto.drop_last() =~= before);
        assert(upto.last() == Emit::Plain(instr));
        assert(control(progress(scope, count)->0.trace) =~= head + control(upto));
    }
}

/// The code at the end of a function that returns implicitly has the `end` of the function.
pub(crate) proof fn lemma_control_of_epilogue(func: FunctionIdx, results: Seq<ValType>, vars: Seq<ValType>)
    ensures
        control(epilogue(func, results, vars)) == seq![Instr::End],
{
    broadcast use group_quiet;

    let tmp = consecutive(vars.len(), results.len());
    let report = plain(saved(tmp)) + located_outside(func) + plain(restored(tmp, vars + results)) + hook(
        HookOp::Return,
        results,
    );
    assert(quiet(plain(Seq::<Instr>::empty())));
    assert(plain(Seq::<Instr>::empty()) =~= Seq::<Emit>::empty());
    lemma_control_of_parts(report, Instr::End, seq![]);
}

/// Another end of the function in place of the one that is there.
proof fn lemma_control_of_other_end(trace: Seq<Emit>, tail: Seq<Emit>)
    requires
        trace.len() > 0,
        trace.last() == Emit::Plain(Instr::End),
        control(tail) == seq![Instr::End],
    ensures
        control(trace.drop_last() + tail) == control(trace),
{
    lemma_control_add(trace.drop_last(), tail);
    assert(control(trace) =~= control(trace.drop_last()) + control(tail));
}

/// Blocks and branches are as they were: the instructions that open, switch or leave blocks or
/// branch are, in the instrumented function, those of the function in the same order, so that each
/// label stands for the same block; only at the entry of the start function a block is opened and
/// closed again before them.
pub proof fn law_block_structure_is_kept(scope: Scope)
    requires
        walkable(scope),
    ensures
        control(instrumented(scope)) == control(prologue(scope.func, scope.start)) + control(
            plain(scope.body),
        ),
        control(prologue(scope.func, scope.start)) == if scope.start is Some {
            seq![Instr::If(BlockType(None)), Instr::End]
        } else {
            seq![]
        },
{
    let p = progress(scope, scope.body.len())->0;
    lemma_control_of_prologue(scope.func, scope.start);
    assert(control(p.trace) == control(prologue(scope.func, scope.start)) + control(plain(scope.body)))
        by {
        lemma_control_between(scope, scope.body.len());
        assert(scope.body.take(scope.body.len() as int) =~= scope.body);
    }
    if returns_implicitly(scope.body) {
        let tail = epilogue(scope.func, scope.results, p.walked.vars);
        assert(control(p.trace.drop_last() + tail) == control(p.trace)) by {
            lemma_trace_ends(scope);
            lemma_control_of_epilogue(scope.func, scope.results, p.walked.vars);
            lemma_control_of_other_end(p.trace, tail);
        }
    }
}

/// The code for the instructions stands in order: first the code for the entry, then, for each
/// instruction in turn, the code for it.
pub proof fn law_code_stands_in_order(scope: Scope, at: nat)
    requires
        walkable(scope),
        at + 1 < scope.body.len(),
    ensures
        ({
            let p = progress(scope, at)->0;
            let instr = scope.body[at as int];
            let code = chunk(
                scope.func,
                InstrIdx(at as usize),
                instr,
                site_at(scope, p.walked, instr),
                p.walked.vars,
                p.walked.tables.len(),
            );
            let begin = p.trace.len() as int;
            &&& progress(scope, 0)->0.trace == prologue(scope.func, scope.start)
            &&& progress(scope, at + 1)->0.trace.len() == begin + code.len()
            &&& begin + code.len() <= instrumented(scope).len()
            &&& instrumented(scope).subrange(begin, begin + code.len()) == code
        }),
{
    let len = scope.body.len();
    let p = progress(scope, at)->0;
    let q = progress(scope, at + 1)->0;
    let r = progress(scope, len)->0;
    lemma_walkable_prefix(scope, 0, len);
    lemma_walkable_prefix(scope, at, len);
    lemma_walkable_prefix(scope, at + 1, len);
    lemma_trace_prefix(scope, at + 1, len);
    lemma_trace_ends(scope);
    lemma_trace_prefix(scope, at + 1, (len - 1) as nat);
    lemma_walkable_prefix(scope, (len - 1) as nat, len);
    lemma_last_code_is_longer(scope);
    let code = chunk(
        scope.func,
        InstrIdx(at as usize),
        scope.body[at as int],
        site_at(scope, p.walked, scope.body[at as int]),
        p.walked.vars,
        p.walked.tables.len(),
    );
    let begin = p.trace.len() as int;
    let end = q.trace.len() as int;
    assert(q.trace == p.trace + code);
    assert(instrumented(scope).subrange(begin, end) =~= r.trace.take(end).subrange(begin, end));
    assert(q.trace.subrange(begin, end) =~= code);
}

/// The code for the last instruction is not empty.
pub(crate) proof fn lemma_last_code_is_longer(scope: Scope)
    requires
        walkable(scope),
    ensures
        scope.body.len() > 0,
        progress(scope, (scope.body.len() - 1) as nat)->0.trace.len() < progress(
            scope,
            scope.body.len(),
        )->0.trace.len(),
{
    lemma_walkable_prefix(scope, 0, scope.body.len());
    lemma_last_is_end(scope.body);
    let at = scope.body.len() - 1;
    lemma_walkable_prefix(scope, at as nat, scope.body.len());
    let p = progress(scope, at as nat)->0;
    let instr = scope.body[at];
    let (vars, tables) = (p.walked.vars, p.walked.tables.len());
    let site = site_at(scope, p.walked, instr);
    lemma_control_of_chunk(scope.func, InstrIdx(at as usize), instr, site, vars, tables);
}

pub(crate) proof fn lemma_trace_prefix(scope: Scope, from: nat, to: nat)
    requires
        from <= to,
        progress(scope, to) is Some,
    ensures
        progress(scope, from) is Some,
        progress(scope, from)->0.trace.len() <= progress(scope, to)->0.trace.len(),
        progress(scope, from)->0.trace == progress(scope, to)->0.trace.take(
            progress(scope, from)->0.trace.len() as int,
        ),
    decreases to,
{
    let b = progress(scope, to)->0.trace;
    if from == to {
        assert(b.take(b.len() as int) =~= b);
    } else {
        lemma_trace_prefix(scope, from, (to - 1) as nat);
        let a = progress(scope, from)->0.trace;
        let c = progress(scope, (to - 1) as nat)->0.trace;
        let at = (to - 1) as nat;
        let w = progress(scope, at)->0.walked;
        let code = chunk(
            scope.func,
            InstrIdx(at as usize),
            scope.body[at as int],
            site_at(scope, w, scope.body[at as int]),
            w.vars,
            w.tables.len(),
        );
        assert(b == c + code);
        lemma_take_add(c, code, a.len() as int);
    }
}

proof fn lemma_take_add(a: Seq<Emit>, b: Seq<Emit>, k: int)
    requires
        0 <= k <= a.len(),
    ensures
        (a + b).take(k) == a.take(k),
{
    assert((a + b).take(k) =~= a.take(k));
}

/// No instruction gets lost: the code for an instruction holds the instruction itself, except for
/// `nop`, which does nothing, and `drop`, for which the value goes into a variable instead.
pub proof fn law_instruction_is_kept(
    func: FunctionIdx,
    at: InstrIdx,
    instr: Instr,
    site: Site,
    vars: Seq<ValType>,
    tables: nat,
)
    requires
        instr !is Nop,
        instr !is Drop,
    ensures
        chunk(func, at, instr, site, vars, tables).contains(Emit::Plain(instr)),
{
    broadcast use vstd::seq_lib::lemma_seq_concat_contains_all_elements;

    let tmp = consecutive(vars.len(), fresh(instr, site.sig).len());
    assert(plain(seq![instr])[0] == Emit::Plain(instr));
    assert(plain(seq![tee(tmp[0]), instr, tee(tmp[1])])[1] == Emit::Plain(instr));
    match instr {
        Instr::Call(_) => {},
        Instr::CallIndirect(_, _) => {},
        _ => {},
    }
}

} // verus!
