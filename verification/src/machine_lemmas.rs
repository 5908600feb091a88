//! How the pieces of instrumented code run.
use vstd::prelude::*;

use crate::ast::{FunctionIdx, Instr, InstrIdx, LocalIdx, Val, ValType};
use crate::convert_i64::{is_read, lowered_instr, lowered_type, lowered_types};
use crate::hook_map::{HookId, HookOp};
use crate::machine::{
    below, lowered_val, lowered_vals, ready, run, run_instr, run_step, top, typed, Event, Host, State,
};
use crate::ops::NumericOp;
use crate::trace::{get, hook, located, located_outside, plain, restored, saved, tee, Emit};

verus! {

/// Code runs as its parts do, one after the other.
pub(crate) proof fn lemma_run_add(host: Host, a: Seq<Emit>, b: Seq<Emit>, s: State)
    ensures
        run(host, a + b, s) == match run(host, a, s) {
            Some(t) => run(host, b, t),
            None => None,
        },
    decreases b.len(),
{
    if b.len() == 0 {
        assert(a + b =~= a);
    } else {
        lemma_run_add(host, a, b.drop_last(), s);
        assert((a + b).drop_last() =~= a + b.drop_last());
        assert((a + b).last() == b.last());
    }
}

/// A single step runs as what it is.
pub(crate) proof fn lemma_run_one(host: Host, step: Emit, s: State)
    ensures
        run(host, seq![step], s) == run_step(host, step, s),
{
    assert(seq![step].drop_last() =~= Seq::<Emit>::empty());
    assert(run(host, Seq::<Emit>::empty(), s) == Some(s));
}

/// A single instruction runs as what it is.
pub(crate) proof fn lemma_run_instr(host: Host, instr: Instr, s: State)
    ensures
        run(host, plain(seq![instr]), s) == run_instr(host, instr, s),
{
    assert(plain(seq![instr]) =~= seq![Emit::Plain(instr)]);
    lemma_run_one(host, Emit::Plain(instr), s);
}

/// More code, one instruction longer.
pub(crate) proof fn lemma_run_push(host: Host, instrs: Seq<Instr>, instr: Instr, s: State)
    ensures
        run(host, plain(instrs.push(instr)), s) == match run(host, plain(instrs), s) {
            Some(t) => run_instr(host, instr, t),
            None => None,
        },
{
    assert(plain(instrs.push(instr)) =~= plain(instrs) + plain(seq![instr]));
    lemma_run_add(host, plain(instrs), plain(seq![instr]), s);
    match run(host, plain(instrs), s) {
        Some(t) => lemma_run_instr(host, instr, t),
        None => {},
    }
}

/// Constants are pushed.
pub(crate) proof fn lemma_run_consts(host: Host, a: Val, b: Val, s: State)
    ensures
        run(host, plain(seq![Instr::Const(a), Instr::Const(b)]), s) == Some(
            s.with_stack(s.stack + seq![a, b]),
        ),
{
    assert(seq![Instr::Const(a), Instr::Const(b)] =~= seq![Instr::Const(a)].push(Instr::Const(b)));
    lemma_run_push(host, seq![Instr::Const(a)], Instr::Const(b), s);
    lemma_run_instr(host, Instr::Const(a), s);
    assert(s.stack.push(a).push(b) =~= s.stack + seq![a, b]);
}

/// The values that stand for a location.
pub open spec fn location(func: FunctionIdx, at: InstrIdx) -> Seq<Val> {
    seq![Val::I32(func.0 as i32), Val::I32(at.0 as i32)]
}

/// The values that stand for a location that belongs to no instruction.
pub open spec fn location_outside(func: FunctionIdx) -> Seq<Val> {
    seq![Val::I32(func.0 as i32), Val::I32((-1) as i32)]
}

pub(crate) proof fn lemma_run_located(host: Host, func: FunctionIdx, at: InstrIdx, s: State)
    ensures
        run(host, located(func, at), s) == Some(s.with_stack(s.stack + location(func, at))),
{
    lemma_run_consts(host, Val::I32(func.0 as i32), Val::I32(at.0 as i32), s);
}

pub(crate) proof fn lemma_run_located_outside(host: Host, func: FunctionIdx, s: State)
    ensures
        run(host, located_outside(func), s) == Some(s.with_stack(s.stack + location_outside(func))),
{
    lemma_run_consts(host, Val::I32(func.0 as i32), Val::I32((-1) as i32), s);
}

/// The types of values one after the other.
pub(crate) proof fn lemma_typed_add(a: Seq<Val>, b: Seq<Val>)
    ensures
        typed(a + b) == typed(a) + typed(b),
{
    assert(typed(a + b) =~= typed(a) + typed(b));
}

/// Values that were put on the stack are on top of it.
pub(crate) proof fn lemma_top(stack: Seq<Val>, vals: Seq<Val>)
    ensures
        top(stack + vals, vals.len()) == vals,
        below(stack + vals, vals.len()) == stack,
        ready(stack + vals, typed(vals)),
{
    assert(top(stack + vals, vals.len()) =~= vals);
    assert(below(stack + vals, vals.len()) =~= stack);
}

/// Values are handed over under the types for their types.
pub(crate) proof fn lemma_lowered_typed(vals: Seq<Val>)
    ensures
        typed(lowered_vals(vals)) == lowered_types(typed(vals)),
    decreases vals.len(),
{
    if vals.len() == 0 {
        assert(typed(lowered_vals(vals)) =~= lowered_types(typed(vals)));
    } else {
        lemma_lowered_typed(vals.drop_last());
        assert(typed(vals).drop_last() =~= typed(vals.drop_last()));
        lemma_typed_add(lowered_vals(vals.drop_last()), lowered_val(vals.last()));
        assert(typed(lowered_val(vals.last())) =~= lowered_type(vals.last().ty()));
    }
}

pub(crate) proof fn lemma_lowered_add(a: Seq<Val>, b: Seq<Val>)
    ensures
        lowered_vals(a + b) == lowered_vals(a) + lowered_vals(b),
    decreases b.len(),
{
    if b.len() == 0 {
        assert(a + b =~= a);
        assert(lowered_vals(a) + lowered_vals(b) =~= lowered_vals(a));
    } else {
        lemma_lowered_add(a, b.drop_last());
        assert((a + b).drop_last() =~= a + b.drop_last());
        assert(lowered_vals(a + b) =~= lowered_vals(a) + lowered_vals(b));
    }
}

pub(crate) proof fn lemma_lowered_one(val: Val)
    ensures
        lowered_vals(seq![val]) == lowered_val(val),
{
    assert(seq![val].drop_last() =~= Seq::<Val>::empty());
    assert(lowered_vals(Seq::<Val>::empty()) =~= Seq::<Val>::empty());
    assert(lowered_vals(seq![val]) =~= lowered_val(val));
}

/// A hook that finds the location and the values of its event is logged with them.
pub(crate) proof fn lemma_run_hook(host: Host, op: HookOp, tys: Seq<ValType>, at: Seq<Val>, vals: Seq<Val>, stack: Seq<Val>, s: State)
    requires
        at.len() == 2,
        at[0] is I32,
        at[1] is I32,
        typed(vals) == (HookId { op, tys }).args(),
        s.stack == stack + (at + lowered_vals(vals)),
    ensures
        run(host, hook(op, tys), s) == Some(
            s.with_stack(stack).with_event(
                Event { id: HookId { op, tys }, args: at + lowered_vals(vals) },
            ),
        ),
{
    let id = HookId { op, tys };
    let args = at + lowered_vals(vals);
    lemma_run_one(host, Emit::Hook(id), s);
    lemma_lowered_typed(vals);
    lemma_typed_add(at, lowered_vals(vals));
    assert(typed(at) =~= seq![ValType::I32, ValType::I32]);
    assert(typed(args) == id.params());
    lemma_top(stack, args);
}

/// What an instruction that only reads pushes.
pub open spec fn read_val(instr: Instr, s: State) -> Val {
    match instr {
        Instr::Local(_, local) => s.locals[local.0 as int],
        Instr::Global(_, global) => s.globals[global.0 as int],
        Instr::Const(val) => val,
        _ => arbitrary(),
    }
}

/// Whether what an instruction reads exists.
pub open spec fn can_read(instr: Instr, s: State) -> bool {
    match instr {
        Instr::Local(_, local) => local.0 < s.locals.len(),
        Instr::Global(_, global) => global.0 < s.globals.len(),
        _ => true,
    }
}

/// A value is handed over as its halves, or as it is.
pub(crate) proof fn lemma_run_lowered(host: Host, read: Instr, ty: ValType, s: State)
    requires
        is_read(read),
        can_read(read, s),
        read_val(read, s).ty() == ty,
    ensures
        run(host, plain(lowered_instr(read, ty)), s) == Some(
            s.with_stack(s.stack + lowered_val(read_val(read, s))),
        ),
{
    let val = read_val(read, s);
    let wrap = Instr::Numeric(NumericOp::I32WrapI64);
    let shift = Instr::Numeric(NumericOp::I64ShrS);
    if ty == ValType::I64 {
        let v = val->I64_0;
        let low = Val::I32(v as i32);
        let high = Val::I64(v >> 32u64);
        let i1 = seq![read];
        let i2 = i1.push(wrap);
        let i3 = i2.push(read);
        let i4 = i3.push(Instr::Const(Val::I64(32)));
        let i5 = i4.push(shift);
        let i6 = i5.push(wrap);
        assert(lowered_instr(read, ty) =~= i6);
        let s1 = s.with_stack(s.stack.push(val));
        let s2 = s.with_stack(s.stack.push(low));
        let s3 = s2.with_stack(s2.stack.push(val));
        let s4 = s2.with_stack(s2.stack + seq![val, Val::I64(32)]);
        let s5 = s2.with_stack(s2.stack.push(high));
        let s6 = s2.with_stack(s2.stack.push(Val::I32((v >> 32u64) as i32)));
        lemma_run_instr(host, read, s);
        assert(run(host, plain(i1), s) == Some(s1));
        lemma_run_push(host, i1, wrap, s);
        assert(s1.stack =~= s.stack + seq![val]);
        lemma_top(s.stack, seq![val]);
        assert(NumericOp::I32WrapI64.signature().params =~= typed(seq![val]));
        assert(run_instr(host, wrap, s1) == Some(s2));
        lemma_run_push(host, i2, read, s);
        assert(run(host, plain(i3), s) == Some(s3));
        lemma_run_push(host, i3, Instr::Const(Val::I64(32)), s);
        assert(s3.stack.push(Val::I64(32)) =~= s4.stack);
        lemma_run_push(host, i4, shift, s);
        lemma_top(s2.stack, seq![val, Val::I64(32)]);
        assert(NumericOp::I64ShrS.signature().params =~= typed(seq![val, Val::I64(32)]));
        assert((32i64 as u64) % 64 == 32u64);
        assert(run_instr(host, shift, s4) == Some(s5));
        lemma_run_push(host, i5, wrap, s);
        assert(s5.stack =~= s2.stack + seq![high]);
        lemma_top(s2.stack, seq![high]);
        assert(NumericOp::I32WrapI64.signature().params =~= typed(seq![high]));
        assert(run_instr(host, wrap, s5) == Some(s6));
        assert(s6.stack =~= s.stack + lowered_val(val));
    } else {
        assert(lowered_instr(read, ty) =~= seq![read]);
        lemma_run_instr(host, read, s);
        assert(s.stack.push(val) =~= s.stack + lowered_val(val));
    }
}

/// The values that the variables hold.
pub open spec fn values(vars: Seq<Val>, locals: Seq<LocalIdx>) -> Seq<Val> {
    locals.map_values(|local: LocalIdx| vars[local.0 as int])
}

/// Whether the variables exist and none of them occurs twice.
pub open spec fn separate(vars: Seq<Val>, locals: Seq<LocalIdx>) -> bool {
    &&& forall|i: int| 0 <= i < locals.len() ==> (#[trigger] locals[i]).0 < vars.len()
    &&& locals.no_duplicates()
}

/// `after` holds `vals` in the variables `locals`, and in all others what `before` holds.
pub open spec fn stored(before: Seq<Val>, after: Seq<Val>, locals: Seq<LocalIdx>, vals: Seq<Val>) -> bool {
    &&& after.len() == before.len()
    &&& values(after, locals) == vals
    &&& forall|j: int|
        0 <= j < before.len() && !locals.contains(LocalIdx(j as usize)) ==> #[trigger] after[j]
            == before[j]
    &&& typed(after) == typed(before)
}

/// Reading variables pushes their values.
pub(crate) proof fn lemma_run_gets(host: Host, locals: Seq<LocalIdx>, s: State)
    requires
        forall|i: int| 0 <= i < locals.len() ==> (#[trigger] locals[i]).0 < s.locals.len(),
    ensures
        run(host, plain(locals.map_values(|local: LocalIdx| get(local))), s) == Some(
            s.with_stack(s.stack + values(s.locals, locals)),
        ),
    decreases locals.len(),
{
    let gets = locals.map_values(|local: LocalIdx| get(local));
    if locals.len() == 0 {
        assert(plain(gets) =~= seq![]);
        assert(s.stack + values(s.locals, locals) =~= s.stack);
    } else {
        let fewer = locals.drop_last();
        lemma_run_gets(host, fewer, s);
        assert(gets =~= fewer.map_values(|local: LocalIdx| get(local)).push(get(locals.last())));
        lemma_run_push(
            host,
            fewer.map_values(|local: LocalIdx| get(local)),
            get(locals.last()),
            s,
        );
        assert(s.stack + values(s.locals, locals) =~= (s.stack + values(s.locals, fewer)).push(
            s.locals[locals.last().0 as int],
        ));
    }
}

/// Writing variables, the last one first, moves the topmost values of the stack into them.
pub(crate) proof fn lemma_run_sets(host: Host, locals: Seq<LocalIdx>, s: State) -> (t: State)
    requires
        separate(s.locals, locals),
        ready(s.stack, typed(values(s.locals, locals))),
    ensures
        run(host, plain(locals.reverse().map_values(|local: LocalIdx| crate::trace::set(local))), s)
            == Some(t),
        t == (State { stack: below(s.stack, locals.len()), locals: t.locals, ..s }),
        stored(s.locals, t.locals, locals, top(s.stack, locals.len())),
    decreases locals.len(),
{
    let sets = locals.reverse().map_values(|local: LocalIdx| crate::trace::set(local));
    let count = locals.len();
    if count == 0 {
        assert(plain(sets) =~= seq![]);
        assert(below(s.stack, 0) =~= s.stack);
        assert(values(s.locals, locals) =~= top(s.stack, 0));
        s
    } else {
        let last = locals.last();
        let fewer = locals.drop_last();
        let rest = fewer.reverse().map_values(|local: LocalIdx| crate::trace::set(local));
        let vals = top(s.stack, count);
        assert(typed(vals)[count - 1] == vals[count - 1].ty());
        assert(typed(values(s.locals, locals))[count - 1] == s.locals[last.0 as int].ty());
        assert(typed(top(s.stack, 1)) =~= seq![s.locals[last.0 as int].ty()]);
        let s1 = State {
            stack: s.stack.drop_last(),
            locals: s.locals.update(last.0 as int, s.stack.last()),
            ..s
        };
        assert(run_instr(host, crate::trace::set(last), s) == Some(s1));
        assert(!fewer.contains(last));
        assert(values(s1.locals, fewer) =~= values(s.locals, fewer));
        assert(typed(values(s.locals, fewer)) =~= typed(values(s.locals, locals)).drop_last());
        assert(top(s1.stack, fewer.len()) =~= vals.drop_last());
        assert(typed(vals.drop_last()) =~= typed(vals).drop_last());
        let t = lemma_run_sets(host, fewer, s1);
        assert(plain(sets) =~= plain(seq![crate::trace::set(last)]) + plain(rest));
        lemma_run_add(host, plain(seq![crate::trace::set(last)]), plain(rest), s);
        lemma_run_instr(host, crate::trace::set(last), s);
        assert(below(s1.stack, fewer.len()) =~= below(s.stack, count));
        assert(LocalIdx(last.0 as int as usize) == last);
        assert(t.locals[last.0 as int] == s1.locals[last.0 as int]);
        assert(values(t.locals, locals) =~= values(t.locals, fewer).push(t.locals[last.0 as int]));
        assert(vals =~= vals.drop_last().push(s.stack.last()));
        assert(typed(s1.locals) =~= typed(s.locals));
        assert forall|j: int|
            0 <= j < s.locals.len() && !locals.contains(
                LocalIdx(j as usize),
            ) implies #[trigger] t.locals[j] == s.locals[j] by {
            assert(locals[count - 1] == last);
            assert forall|i: int| 0 <= i < fewer.len() implies fewer[i] != LocalIdx(j as usize) by {
                assert(locals[i] == fewer[i]);
            }
        }
        t
    }
}

/// Copying the topmost values of the stack into variables leaves the stack as it was.
pub(crate) proof fn lemma_run_saved(host: Host, locals: Seq<LocalIdx>, s: State) -> (t: State)
    requires
        separate(s.locals, locals),
        ready(s.stack, typed(values(s.locals, locals))),
    ensures
        run(host, plain(saved(locals)), s) == Some(t),
        t == s.with_locals(t.locals),
        stored(s.locals, t.locals, locals, top(s.stack, locals.len())),
{
    let count = locals.len();
    let vals = top(s.stack, count);
    if count == 0 {
        assert(plain(saved(locals)) =~= seq![]);
        assert(values(s.locals, locals) =~= vals);
        s
    } else {
        let first = locals[0];
        let others = locals.skip(1);
        let sets = others.reverse().map_values(|local: LocalIdx| crate::trace::set(local));
        let gets = others.map_values(|local: LocalIdx| get(local));
        assert forall|i: int| 0 <= i < others.len() implies (#[trigger] others[i]).0
            < s.locals.len() by {
            assert(others[i] == locals[i + 1]);
        }
        assert(typed(values(s.locals, others)) =~= typed(values(s.locals, locals)).skip(1));
        assert(top(s.stack, others.len()) =~= vals.skip(1));
        assert(typed(vals.skip(1)) =~= typed(vals).skip(1));
        let a = lemma_run_sets(host, others, s);
        assert(!others.contains(first)) by {
            assert forall|i: int| 0 <= i < others.len() implies others[i] != first by {
                assert(others[i] == locals[i + 1]);
            }
        }
        assert(LocalIdx(first.0 as int as usize) == first);
        assert(a.locals[first.0 as int] == s.locals[first.0 as int]);
        assert(typed(vals)[0] == vals[0].ty());
        assert(typed(values(s.locals, locals))[0] == s.locals[first.0 as int].ty());
        assert(a.stack.last() == vals[0]);
        assert(typed(top(a.stack, 1)) =~= seq![s.locals[first.0 as int].ty()]);
        let b = a.with_locals(a.locals.update(first.0 as int, vals[0]));
        assert(run_instr(host, tee(first), a) == Some(b));
        lemma_run_gets(host, others, b);
        assert(values(b.locals, others) =~= values(a.locals, others));
        let t = b.with_stack(b.stack + values(b.locals, others));
        assert(plain(saved(locals)) =~= plain(sets) + plain(seq![tee(first)]) + plain(gets));
        lemma_run_add(host, plain(sets) + plain(seq![tee(first)]), plain(gets), s);
        lemma_run_add(host, plain(sets), plain(seq![tee(first)]), s);
        lemma_run_instr(host, tee(first), a);
        assert(t.stack =~= s.stack);
        assert(values(t.locals, locals) =~= seq![vals[0]] + values(b.locals, others));
        assert(vals =~= seq![vals[0]] + vals.skip(1));
        assert(typed(t.locals) =~= typed(s.locals)) by {
            assert(typed(a.locals)[first.0 as int] == a.locals[first.0 as int].ty());
            assert(typed(b.locals) =~= typed(a.locals));
        }
        assert forall|j: int|
            0 <= j < s.locals.len() && !locals.contains(
                LocalIdx(j as usize),
            ) implies #[trigger] t.locals[j] == s.locals[j] by {
            assert(locals[0] == first);
            assert forall|i: int| 0 <= i < others.len() implies others[i] != LocalIdx(j as usize) by {
                assert(locals[i + 1] == others[i]);
            }
        }
        t
    }
}

/// Handing variables to a hook pushes their values, with 64-bit integers in halves.
pub(crate) proof fn lemma_run_restored(host: Host, locals: Seq<LocalIdx>, vars: Seq<ValType>, s: State)
    requires
        forall|i: int|
            0 <= i < locals.len() ==> (#[trigger] locals[i]).0 < s.locals.len()
                && s.locals[locals[i].0 as int].ty() == vars[locals[i].0 as int],
    ensures
        run(host, plain(restored(locals, vars)), s) == Some(
            s.with_stack(s.stack + lowered_vals(values(s.locals, locals))),
        ),
    decreases locals.len(),
{
    let vals = values(s.locals, locals);
    if locals.len() == 0 {
        assert(plain(restored(locals, vars)) =~= seq![]);
        assert(s.stack + lowered_vals(vals) =~= s.stack);
    } else {
        let fewer = locals.drop_last();
        let last = locals.last();
        lemma_run_restored(host, fewer, vars, s);
        let t = s.with_stack(s.stack + lowered_vals(values(s.locals, fewer)));
        let one = lowered_instr(get(last), vars[last.0 as int]);
        assert(locals[locals.len() - 1] == last);
        lemma_run_lowered(host, get(last), vars[last.0 as int], t);
        assert(plain(restored(locals, vars)) =~= plain(restored(fewer, vars)) + plain(one));
        lemma_run_add(host, plain(restored(fewer, vars)), plain(one), s);
        assert(vals.drop_last() =~= values(s.locals, fewer));
        assert(s.stack + lowered_vals(vals) =~= t.stack + lowered_val(s.locals[last.0 as int]));
    }
}

} // verus!
