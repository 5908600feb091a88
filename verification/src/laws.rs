//! What holds of instrumentation as a whole: the program does what it did before, and the hooks
//! are told what it does.
use vstd::prelude::*;

use crate::ast::{FunctionIdx, Instr, InstrIdx, LocalIdx, Signature, Val, ValType};
use crate::chunk_lemmas::{
    fits, has_operands, has_variables, is_straight, lemma_straight, signature_in, told, undisturbed,
};
use crate::machine::{
    below, effect_signature, lowered_vals, ready, run, run_effect, run_instr, top, typed, Event, Host,
    State,
};
use crate::machine_lemmas::{
    lemma_run_add, lemma_run_push, lemma_run_restored, lemma_run_saved, lemma_top, lemma_typed_add,
    separate, stored, values,
};
use crate::trace::{chunk, fresh, plain, restored, saved, Emit};
use crate::type_stack::{
    applied, followed, has_values, lemma_followed_unreached, lemma_value_count, value_count, with_values,
    TypeStackElement,
};
use crate::walk::{
    admits, on_stack, progress, signature_at, site_at, types_after, val_at, walked_after, Scope, Walked,
};

verus! {

/// Whether the functions and globals of the running module are those that the scope knows, besides
/// globals behind them.
pub open spec fn runs_in(host: Host, scope: Scope, s: State) -> bool {
    &&& host.functions == scope.functions
    &&& host.own_globals == scope.globals.len()
    &&& scope.globals.len() <= s.globals.len()
    &&& typed(s.globals).take(scope.globals.len() as int) == scope.globals
}

/// Where the operands lie on the stack that the walk expects there, and what the instruction
/// refers to is there, the walk has found out the right types.
proof fn lemma_fits(host: Host, scope: Scope, w: Walked, instr: Instr, s: State)
    requires
        is_straight(instr),
        signature_at(scope, w, instr) is Some,
        runs_in(host, scope, s),
        has_variables(s, w.vars + fresh(instr, site_at(scope, w, instr).sig)),
        ready(
            s.stack,
            match instr {
                Instr::CallIndirect(ty, _) => ty@.params + seq![ValType::I32],
                _ => site_at(scope, w, instr).sig.params,
            },
        ),
    ensures
        fits(host, instr, site_at(scope, w, instr), w.vars, s),
{
    let sig = signature_at(scope, w, instr)->0;
    match instr {
        Instr::Drop => {
            assert(typed(top(s.stack, 1))[0] == s.stack.last().ty());
            assert(sig =~= signature_in(host, instr, s));
        },
        Instr::Select => {
            assert(typed(top(s.stack, 3))[0] == s.stack[s.stack.len() - 3].ty());
            assert(sig =~= signature_in(host, instr, s));
        },
        Instr::Local(_, local) => {
            let all = w.vars + fresh(instr, sig);
            assert(typed(s.locals).take(all.len() as int)[local.0 as int] == all[local.0 as int]);
        },
        Instr::Global(_, global) => {
            assert(typed(s.globals).take(scope.globals.len() as int)[global.0 as int]
                == scope.globals[global.0 as int]);
        },
        _ => {},
    }
}

/// Instrumentation leaves alone what an instruction does. Where an instruction that neither opens,
/// switches or leaves a block nor branches finds its operands, the code that stands for it leads
/// to the same stack, globals and memory and, in the function's own variables, to the same values;
/// it traps where the instruction does; and the hooks are called with the location, the operands
/// and the results of the instruction and what else belongs to it.
pub proof fn law_instruction_runs_as_before(host: Host, scope: Scope, w: Walked, at: InstrIdx, instr: Instr, s: State)
    requires
        is_straight(instr),
        signature_at(scope, w, instr) is Some,
        runs_in(host, scope, s),
        has_variables(s, w.vars + fresh(instr, site_at(scope, w, instr).sig)),
        ready(
            s.stack,
            match instr {
                Instr::CallIndirect(ty, _) => ty@.params + seq![ValType::I32],
                _ => site_at(scope, w, instr).sig.params,
            },
        ),
    ensures
        ({
            let after = run(
                host,
                chunk(scope.func, at, instr, site_at(scope, w, instr), w.vars, w.tables.len()),
                s,
            );
            match run_instr(host, instr, s) {
                Some(t) => after matches Some(u) && undisturbed(t, u, w.vars.len()) && u.log == s.log
                    + told(host, scope.func, at, instr, s, t),
                None => after is None,
            }
        }),
{
    lemma_fits(host, scope, w, instr, s);
    lemma_straight(host, scope.func, at, instr, site_at(scope, w, instr), w.vars, w.tables.len(), s);
}

/// The types of the values above the entry of the innermost block.
pub open spec fn trailing(types: Seq<TypeStackElement>) -> Seq<ValType>
    decreases types.len(),
{
    if types.len() == 0 {
        seq![]
    } else {
        match types.last() {
            TypeStackElement::Val(ty) => trailing(types.drop_last()).push(ty),
            TypeStackElement::Begin(_) => seq![],
        }
    }
}

pub(crate) proof fn lemma_trailing_values(types: Seq<TypeStackElement>, count: nat)
    requires
        has_values(types, count),
    ensures
        count <= trailing(types).len() <= types.len(),
        trailing(types.take(types.len() - count)) == trailing(types).take(
            trailing(types).len() - count,
        ),
        forall|d: int|
            1 <= d <= count ==> #[trigger] val_at(types, d) == Some(
                trailing(types)[trailing(types).len() - d],
            ),
    decreases count,
{
    if count == 0 {
        lemma_trailing_bound(types);
        assert(types.take(types.len() as int) =~= types);
        assert(trailing(types).take(trailing(types).len() as int) =~= trailing(types));
    } else {
        let fewer = types.drop_last();
        assert(types[types.len() - 1] is Val);
        lemma_trailing_values(fewer, (count - 1) as nat);
        assert(types.take(types.len() - count) =~= fewer.take(fewer.len() - (count - 1)));
        assert(trailing(types).take(trailing(types).len() - count) =~= trailing(fewer).take(
            trailing(fewer).len() - (count - 1),
        ));
        assert forall|d: int| 1 <= d <= count implies #[trigger] val_at(types, d) == Some(
            trailing(types)[trailing(types).len() - d],
        ) by {
            if d > 1 {
                assert(val_at(types, d) == val_at(fewer, d - 1));
            }
        }
    }
}

proof fn lemma_trailing_bound(types: Seq<TypeStackElement>)
    ensures
        trailing(types).len() <= types.len(),
    decreases types.len(),
{
    if types.len() > 0 {
        lemma_trailing_bound(types.drop_last());
    }
}

proof fn lemma_trailing_with(types: Seq<TypeStackElement>, tys: Seq<ValType>)
    ensures
        trailing(with_values(types, tys)) == trailing(types) + tys,
    decreases tys.len(),
{
    if tys.len() == 0 {
        assert(with_values(types, tys) =~= types);
        assert(trailing(types) + tys =~= trailing(types));
    } else {
        lemma_trailing_with(types, tys.drop_last());
        let all = with_values(types, tys);
        assert(all.drop_last() =~= with_values(types, tys.drop_last()));
        assert(all.last() == TypeStackElement::Val(tys.last()));
        assert(trailing(types) + tys =~= (trailing(types) + tys.drop_last()).push(tys.last()));
    }
}

/// The instruction takes its operands off the stack and puts its results there, and the variables
/// keep their types.
pub open spec fn has_shape(host: Host, instr: Instr, s: State, t: State) -> bool {
    let sig = on_stack(instr, signature_in(host, instr, s));
    &&& has_operands(host, instr, s.locals.len(), s)
    &&& t.stack.len() == s.stack.len() - sig.params.len() + sig.results.len()
    &&& below(t.stack, sig.results.len()) == below(s.stack, sig.params.len())
    &&& ready(t.stack, sig.results)
    &&& typed(t.locals) == typed(s.locals)
    &&& typed(t.globals) == typed(s.globals)
    &&& t.log == s.log
}

/// The types of globals of which the first ones were replaced by others of the same types.
proof fn lemma_typed_prefix(before: Seq<Val>, first: Seq<Val>, count: int)
    requires
        0 <= count <= before.len(),
        typed(first) == typed(before.take(count)),
    ensures
        typed(first + before.skip(count)) == typed(before),
{
    assert(typed(first).len() == first.len());
    assert(before =~= before.take(count) + before.skip(count));
    lemma_typed_add(first, before.skip(count));
    lemma_typed_add(before.take(count), before.skip(count));
}

proof fn lemma_shape_variable(host: Host, instr: Instr, s: State, t: State)
    requires
        instr is Local || instr is Global,
        run_instr(host, instr, s) == Some(t),
    ensures
        has_shape(host, instr, s, t),
{
    let sig = signature_in(host, instr, s);
    assert(typed(top(s.stack, 0)) =~= seq![]);
    assert(typed(top(t.stack, 0)) =~= seq![]);
    assert(s.stack.len() >= 1 ==> typed(top(s.stack, 1)) =~= seq![s.stack.last().ty()]);
    assert(t.stack.len() >= 1 ==> typed(top(t.stack, 1)) =~= seq![t.stack.last().ty()]);
    assert(below(t.stack, sig.results.len()) =~= below(s.stack, sig.params.len()));
    assert(s.stack.len() >= 1 ==> typed(top(s.stack, 1))[0] == s.stack.last().ty());
    assert(typed(t.locals) =~= typed(s.locals));
    assert(typed(t.globals) =~= typed(s.globals));
}

proof fn lemma_shape_numeric(host: Host, instr: Instr, s: State, t: State)
    requires
        instr is Numeric,
        run_instr(host, instr, s) == Some(t),
    ensures
        has_shape(host, instr, s, t),
{
    let op = instr->Numeric_0;
    let params = op.signature().params;
    assert(op.signature().results =~= seq![op.result()]);
    assert(typed(top(t.stack, 1)) =~= seq![t.stack.last().ty()]);
    assert(below(t.stack, 1) =~= below(s.stack, params.len()));
}

proof fn lemma_shape_effect(host: Host, instr: Instr, sig: Signature, s: State, t: State)
    requires
        instr is Call || instr is CallIndirect || instr is MemoryGrow || instr is Load || instr is Store,
        sig == on_stack(instr, signature_in(host, instr, s)),
        run_instr(host, instr, s) == Some(t),
    ensures
        has_shape(host, instr, s, t),
{
    assert(effect_signature(host, instr) == sig);
    let own = s.globals.take(host.own_globals as int);
    let (vals, globals, _) = (host.effect)(instr, top(s.stack, sig.params.len()), own, s.world)->0;
    assert(typed(vals).len() == vals.len());
    lemma_top(below(s.stack, sig.params.len()), vals);
    lemma_typed_prefix(s.globals, globals, host.own_globals as int);
}

proof fn lemma_shape_other(host: Host, instr: Instr, s: State, t: State)
    requires
        instr is Nop || instr is Drop || instr is Select || instr is MemorySize || instr is Const,
        run_instr(host, instr, s) == Some(t),
    ensures
        has_shape(host, instr, s, t),
{
    let sig = signature_in(host, instr, s);
    assert(typed(top(s.stack, 0)) =~= seq![]);
    assert(typed(top(t.stack, 0)) =~= seq![]);
    assert(s.stack.len() >= 1 ==> typed(top(s.stack, 1)) =~= seq![s.stack.last().ty()]);
    assert(t.stack.len() >= 1 ==> typed(top(t.stack, 1)) =~= seq![t.stack.last().ty()]);
    assert(instr is Select ==> typed(top(s.stack, 3)) =~= sig.params);
    assert(below(t.stack, sig.results.len()) =~= below(s.stack, sig.params.len()));
}

/// A straight instruction that runs has found its operands.
pub(crate) proof fn lemma_shape(host: Host, instr: Instr, s: State, t: State)
    requires
        is_straight(instr),
        run_instr(host, instr, s) == Some(t),
    ensures
        has_shape(host, instr, s, t),
{
    match instr {
        Instr::Local(_, _) | Instr::Global(_, _) => lemma_shape_variable(host, instr, s, t),
        Instr::Numeric(_) => lemma_shape_numeric(host, instr, s, t),
        Instr::Call(_)
        | Instr::CallIndirect(_, _)
        | Instr::MemoryGrow(_)
        | Instr::Load(_, _)
        | Instr::Store(_, _) => {
            lemma_shape_effect(host, instr, on_stack(instr, signature_in(host, instr, s)), s, t)
        },
        _ => lemma_shape_other(host, instr, s, t),
    }
}

/// Where the types on the stack are those that the walk has noted, the walk finds out the types that
/// a straight instruction takes and gives.
proof fn lemma_signature_found(host: Host, scope: Scope, w: Walked, instr: Instr, s: State)
    requires
        is_straight(instr),
        signature_at(scope, w, instr) is Some,
        runs_in(host, scope, s),
        has_variables(s, w.vars),
        ready(s.stack, trailing(w.types)),
        w.reached(),
    ensures
        signature_at(scope, w, instr)->0 == signature_in(host, instr, s),
{
    let sig = signature_at(scope, w, instr)->0;
    let tys = trailing(w.types);
    let vals = top(s.stack, tys.len());
    match instr {
        Instr::Drop => {
            assert(val_at(w.types, 1) is Some);
            assert(has_values(w.types, 1));
            lemma_trailing_values(w.types, 1);
            assert(typed(vals)[tys.len() - 1] == s.stack.last().ty());
            assert(sig =~= signature_in(host, instr, s));
        },
        Instr::Select => {
            assert(val_at(w.types, 3) is Some && val_at(w.types, 2) is Some && val_at(w.types, 1)
                is Some);
            assert(has_values(w.types, 3));
            lemma_trailing_values(w.types, 3);
            assert(typed(vals)[tys.len() - 3] == s.stack[s.stack.len() - 3].ty());
            assert(sig =~= signature_in(host, instr, s));
        },
        Instr::Local(_, local) => {
            assert(typed(s.locals).take(w.vars.len() as int)[local.0 as int]
                == w.vars[local.0 as int]);
        },
        Instr::Global(_, global) => {
            assert(typed(s.globals).take(scope.globals.len() as int)[global.0 as int]
                == scope.globals[global.0 as int]);
        },
        _ => {},
    }
}

/// The types on the stack where values were taken off it and others put there.
proof fn lemma_ready_after(types: Seq<TypeStackElement>, sig: Signature, before: Seq<Val>, after: Seq<Val>)
    requires
        ready(before, trailing(types)),
        applied(types, sig) is Some,
        sig.params.len() <= before.len(),
        after.len() == before.len() - sig.params.len() + sig.results.len(),
        below(after, sig.results.len()) == below(before, sig.params.len()),
        ready(after, sig.results),
    ensures
        ready(after, trailing(applied(types, sig)->0)),
{
    let (k, r) = (sig.params.len(), sig.results.len());
    let tys = trailing(types);
    lemma_trailing_values(types, k);
    lemma_trailing_with(types.take(types.len() - k), sig.results);
    let rest = (tys.len() - k) as nat;
    assert(top(after, rest + r) =~= top(below(after, r), rest) + top(after, r));
    assert(top(below(before, k), rest) =~= top(before, tys.len()).take(rest as int));
    lemma_typed_add(top(below(after, r), rest), top(after, r));
    assert(typed(top(before, tys.len()).take(rest as int)) =~= typed(top(before, tys.len())).take(
        rest as int,
    ));
}

/// The walk knows the types on the stack. Where the values above the entry of the innermost block
/// have the types that the walk has noted before a straight instruction that can be reached, they
/// have the types that it has noted behind it once the instruction has run.
pub proof fn law_types_are_followed(host: Host, scope: Scope, w: Walked, at: int, instr: Instr, s: State, t: State)
    requires
        is_straight(instr),
        admits(scope, w, at, instr),
        runs_in(host, scope, s),
        has_variables(s, w.vars),
        ready(s.stack, trailing(w.types)),
        w.reached(),
        run_instr(host, instr, s) == Some(t),
    ensures
        ready(t.stack, trailing(walked_after(scope, w, at, instr).types)),
        walked_after(scope, w, at, instr).reached(),
        runs_in(host, scope, t),
        has_variables(t, w.vars),
{
    let sig = on_stack(instr, signature_at(scope, w, instr)->0);
    lemma_signature_found(host, scope, w, instr, s);
    lemma_shape(host, instr, s, t);
    assert(walked_after(scope, w, at, instr).types == applied(w.types, sig)->0);
    lemma_ready_after(w.types, sig, s.stack, t.stack);
    assert(typed(t.locals).len() == t.locals.len());
    assert(typed(s.locals).len() == s.locals.len());
    assert(typed(t.globals).len() == t.globals.len());
    assert(typed(s.globals).len() == s.globals.len());
}

/// Whether `u` is `t` with more variables behind its `n` own ones and more globals behind its `g` own
/// ones, the log aside.
pub open spec fn widens(t: State, u: State, n: nat, g: nat) -> bool {
    &&& u.stack == t.stack
    &&& g <= u.globals.len()
    &&& t.globals == u.globals.take(g as int)
    &&& u.world == t.world
    &&& n <= u.locals.len()
    &&& t.locals == u.locals.take(n as int)
}

/// The part of the state of an instrumented function that the function has of its own.
pub open spec fn own_part(scope: Scope, s: State) -> State {
    State {
        locals: s.locals.take((scope.params.len() + scope.locals.len()) as int),
        globals: s.globals.take(scope.globals.len() as int),
        ..s
    }
}

/// A call or memory access does the same where there are more variables and globals.
pub(crate) proof fn lemma_widened_effect(host: Host, instr: Instr, n: nat, s: State, wide: State)
    requires
        widens(s, wide, n, host.own_globals),
    ensures
        match run_effect(host, instr, s) {
            Some(t) => run_effect(host, instr, wide) matches Some(u) && widens(
                t,
                u,
                n,
                host.own_globals,
            ),
            None => run_effect(host, instr, wide) is None,
        },
{
    let g = host.own_globals as int;
    assert(wide.globals.take(g) =~= s.globals.take(g));
    if let Some(t) = run_effect(host, instr, s) {
        let u = run_effect(host, instr, wide)->0;
        let sig = effect_signature(host, instr);
        let (_, globals, _) = (host.effect)(
            instr,
            top(s.stack, sig.params.len()),
            s.globals.take(g),
            s.world,
        )->0;
        assert(typed(globals).len() == globals.len());
        assert(typed(s.globals.take(g)).len() == g);
        assert(t.globals =~= u.globals.take(g));
    }
}

/// An instruction does the same where there are more variables and globals.
proof fn lemma_widened(host: Host, func: FunctionIdx, at: InstrIdx, instr: Instr, n: nat, s: State, t: State, wide: State)
    -> (u: State)
    requires
        is_straight(instr),
        widens(s, wide, n, host.own_globals),
        run_instr(host, instr, s) == Some(t),
    ensures
        run_instr(host, instr, wide) == Some(u),
        widens(t, u, n, host.own_globals),
        told(host, func, at, instr, wide, u) == told(host, func, at, instr, s, t),
{
    let u = run_instr(host, instr, wide)->0;
    match instr {
        Instr::Local(op, local) => {
            assert(s.locals[local.0 as int] == wide.locals[local.0 as int]);
            assert(t.locals =~= u.locals.take(n as int));
            assert(t.locals[local.0 as int] == u.locals[local.0 as int]);
        },
        Instr::Global(op, global) => {
            assert(s.globals[global.0 as int] == wide.globals[global.0 as int]);
            assert(t.globals =~= u.globals.take(host.own_globals as int));
            assert(t.globals[global.0 as int] == u.globals[global.0 as int]);
        },
        Instr::Call(_)
        | Instr::CallIndirect(_, _)
        | Instr::MemoryGrow(_)
        | Instr::Load(_, _)
        | Instr::Store(_, _) => {
            lemma_widened_effect(host, instr, n, s, wide);
        },
        _ => {},
    }
    u
}

/// An instruction leaves globals alone that are none of the module's own.
proof fn lemma_other_globals_kept(host: Host, instr: Instr, s: State, t: State)
    requires
        is_straight(instr),
        host.own_globals <= s.globals.len(),
        instr matches Instr::Global(_, global) ==> global.0 < host.own_globals,
        run_instr(host, instr, s) == Some(t),
    ensures
        t.globals.skip(host.own_globals as int) == s.globals.skip(host.own_globals as int),
{
    let g = host.own_globals as int;
    match instr {
        Instr::Global(_, _) => {
            assert(t.globals.skip(g) =~= s.globals.skip(g));
        },
        Instr::Call(_)
        | Instr::CallIndirect(_, _)
        | Instr::MemoryGrow(_)
        | Instr::Load(_, _)
        | Instr::Store(_, _) => {
            let sig = effect_signature(host, instr);
            let (_, globals, _) = (host.effect)(
                instr,
                top(s.stack, sig.params.len()),
                s.globals.take(g),
                s.world,
            )->0;
            assert(typed(globals).len() == globals.len());
            assert(typed(s.globals.take(g)).len() == g);
            assert(t.globals.skip(g) =~= s.globals.skip(g));
        },
        _ => {},
    }
}

/// The code for the instructions from index `from` up to, but not including, `to`.
pub open spec fn code_between(scope: Scope, from: nat, to: nat) -> Seq<Emit> {
    progress(scope, to)->0.trace.skip(progress(scope, from)->0.trace.len() as int)
}

/// The hook calls that report straight instructions from index `from` up to, but not including,
/// `to`, which run from the state `s` on.
pub open spec fn told_between(host: Host, scope: Scope, from: nat, to: nat, s: State) -> Seq<Event>
    decreases to,
{
    if to <= from {
        seq![]
    } else {
        let at = (to - 1) as nat;
        let before = run(host, plain(scope.body.subrange(from as int, at as int)), s)->0;
        let after = run_instr(host, scope.body[at as int], before)->0;
        told_between(host, scope, from, at, s) + told(
            host,
            scope.func,
            InstrIdx(at as usize),
            scope.body[at as int],
            before,
            after,
        )
    }
}

pub(crate) proof fn lemma_trace_grows(scope: Scope, from: nat, to: nat)
    requires
        from <= to,
        progress(scope, to) is Some,
    ensures
        progress(scope, from) is Some,
        progress(scope, from)->0.trace.len() <= progress(scope, to)->0.trace.len(),
        progress(scope, from)->0.walked.vars.len() <= progress(scope, to)->0.walked.vars.len(),
        progress(scope, from)->0.walked.vars == progress(scope, to)->0.walked.vars.take(
            progress(scope, from)->0.walked.vars.len() as int,
        ),
    decreases to,
{
    let p = progress(scope, to)->0;
    if from == to {
        assert(p.walked.vars.take(p.walked.vars.len() as int) =~= p.walked.vars);
    } else {
        lemma_trace_grows(scope, from, (to - 1) as nat);
        let q = progress(scope, (to - 1) as nat)->0;
        let k = progress(scope, from)->0.walked.vars.len() as int;
        assert(p.walked.vars.take(k) =~= q.walked.vars.take(k));
    }
}

/// What the law below needs to be proved step by step.
spec fn tracked_run(host: Host, scope: Scope, from: nat, to: nat, s: State, t: State, u: State) -> bool {
    let n = scope.params.len() + scope.locals.len();
    let w = progress(scope, to)->0.walked;
    &&& run(host, code_between(scope, from, to), s) == Some(u)
    &&& widens(t, u, n, scope.globals.len())
    &&& u.log == s.log + told_between(
        host,
        scope,
        from,
        to,
        own_part(scope, s),
    )
    &&& typed(u.locals) == typed(s.locals)
    &&& runs_in(host, scope, u)
    &&& ready(u.stack, trailing(w.types))
    &&& w.reached()
}

/// Where the walk has found out the right types for a straight instruction, the code for it runs as
/// the instruction does.
pub(crate) proof fn lemma_typed_step(
    host: Host,
    scope: Scope,
    w: Walked,
    at: nat,
    instr: Instr,
    n: nat,
    before: State,
    after: State,
    s: State,
) -> (u: State)
    requires
        is_straight(instr),
        signature_at(scope, w, instr) is Some,
        runs_in(host, scope, s),
        has_variables(s, w.vars + fresh(instr, site_at(scope, w, instr).sig)),
        site_at(scope, w, instr).sig == signature_in(host, instr, s),
        n <= w.vars.len(),
        widens(before, s, n, scope.globals.len()),
        run_instr(host, instr, before) == Some(after),
    ensures
        run(
            host,
            chunk(
                scope.func,
                InstrIdx(at as usize),
                instr,
                site_at(scope, w, instr),
                w.vars,
                w.tables.len(),
            ),
            s,
        ) == Some(u),
        widens(after, u, n, scope.globals.len()),
        u.log == s.log + told(host, scope.func, InstrIdx(at as usize), instr, before, after),
        typed(u.locals) == typed(s.locals),
        runs_in(host, scope, u),
        u.globals.skip(scope.globals.len() as int) == s.globals.skip(scope.globals.len() as int),
        run_instr(host, instr, s) matches Some(x) && x.stack == u.stack,
{
    let site = site_at(scope, w, instr);
    let x = lemma_widened(host, scope.func, InstrIdx(at as usize), instr, n, before, after, s);
    lemma_shape(host, instr, s, x);
    lemma_other_globals_kept(host, instr, s, x);
    assert(fits(host, instr, site, w.vars, s));
    lemma_straight(host, scope.func, InstrIdx(at as usize), instr, site, w.vars, w.tables.len(), s);
    let u = run(
        host,
        chunk(scope.func, InstrIdx(at as usize), instr, site, w.vars, w.tables.len()),
        s,
    )->0;
    assert(u.locals.take(n as int) =~= x.locals.take(n as int)) by {
        assert(u.locals.take(n as int) =~= u.locals.take(w.vars.len() as int).take(n as int));
        assert(x.locals.take(n as int) =~= x.locals.take(w.vars.len() as int).take(n as int));
    }
    assert(typed(u.globals).len() == u.globals.len());
    assert(typed(s.globals).len() == s.globals.len());
    u
}

proof fn lemma_straight_step(
    host: Host,
    scope: Scope,
    w: Walked,
    at: nat,
    instr: Instr,
    n: nat,
    before: State,
    after: State,
    s: State,
) -> (u: State)
    requires
        is_straight(instr),
        admits(scope, w, at as int, instr),
        runs_in(host, scope, s),
        has_variables(s, w.vars + fresh(instr, site_at(scope, w, instr).sig)),
        ready(s.stack, trailing(w.types)),
        w.reached(),
        n <= w.vars.len(),
        widens(before, s, n, scope.globals.len()),
        run_instr(host, instr, before) == Some(after),
    ensures
        run(
            host,
            chunk(
                scope.func,
                InstrIdx(at as usize),
                instr,
                site_at(scope, w, instr),
                w.vars,
                w.tables.len(),
            ),
            s,
        ) == Some(u),
        widens(after, u, n, scope.globals.len()),
        u.log == s.log + told(host, scope.func, InstrIdx(at as usize), instr, before, after),
        typed(u.locals) == typed(s.locals),
        runs_in(host, scope, u),
        ready(u.stack, trailing(walked_after(scope, w, at as int, instr).types)),
        walked_after(scope, w, at as int, instr).reached(),
{
    let all = w.vars + fresh(instr, site_at(scope, w, instr).sig);
    lemma_fewer_variables(s, all, w.vars.len());
    assert(all.take(w.vars.len() as int) =~= w.vars);
    lemma_signature_found(host, scope, w, instr, s);
    let u = lemma_typed_step(host, scope, w, at, instr, n, before, after, s);
    let x = run_instr(host, instr, s)->0;
    law_types_are_followed(host, scope, w, at as int, instr, s, x);
    u
}

/// The code up to an instruction, and its own.
pub(crate) proof fn lemma_code_between_step(scope: Scope, from: nat, to: nat)
    requires
        from < to,
        progress(scope, to) is Some,
    ensures
        ({
            let at = (to - 1) as nat;
            let w = progress(scope, at)->0.walked;
            let instr = scope.body[at as int];
            &&& progress(scope, at) is Some
            &&& at < scope.body.len()
            &&& admits(scope, w, at as int, instr)
            &&& progress(scope, to)->0.walked == walked_after(scope, w, at as int, instr)
            &&& code_between(scope, from, to) == code_between(scope, from, at) + chunk(
                scope.func,
                InstrIdx(at as usize),
                instr,
                site_at(scope, w, instr),
                w.vars,
                w.tables.len(),
            )
        }),
{
    let at = (to - 1) as nat;
    lemma_trace_grows(scope, from, at);
    let p = progress(scope, at)->0;
    let start = progress(scope, from)->0.trace.len() as int;
    let code = chunk(
        scope.func,
        InstrIdx(at as usize),
        scope.body[at as int],
        site_at(scope, p.walked, scope.body[at as int]),
        p.walked.vars,
        p.walked.tables.len(),
    );
    lemma_skip_add(p.trace, code, start);
}

pub(crate) proof fn lemma_skip_add(a: Seq<Emit>, b: Seq<Emit>, k: int)
    requires
        0 <= k <= a.len(),
    ensures
        (a + b).skip(k) == a.skip(k) + b,
{
    assert((a + b).skip(k) =~= a.skip(k) + b);
}

proof fn lemma_straight_code(host: Host, scope: Scope, from: nat, to: nat, s: State, t: State) -> (u: State)
    requires
        from <= to <= scope.body.len() <= usize::MAX,
        progress(scope, to) is Some,
        forall|k: int| from <= k < to ==> is_straight(#[trigger] scope.body[k]),
        runs_in(host, scope, s),
        has_variables(s, progress(scope, to)->0.walked.vars),
        ready(s.stack, trailing(progress(scope, from)->0.walked.types)),
        progress(scope, from)->0.walked.reached(),
        ({
            let n = scope.params.len() + scope.locals.len();
            run(
                host,
                plain(scope.body.subrange(from as int, to as int)),
                own_part(scope, s),
            ) == Some(t)
        }),
    ensures
        tracked_run(host, scope, from, to, s, t, u),
    decreases to,
{
    let n = scope.params.len() + scope.locals.len();
    let own = own_part(scope, s);
    lemma_trace_grows(scope, 0, to);
    if from == to {
        assert(scope.body.subrange(from as int, to as int) =~= seq![]);
        assert(plain(Seq::<Instr>::empty()) =~= seq![]);
        assert(code_between(scope, from, to) =~= seq![]);
        assert(s.log + Seq::<Event>::empty() =~= s.log);
        s
    } else {
        let at = (to - 1) as nat;
        let instr = scope.body[at as int];
        let vars = progress(scope, to)->0.walked.vars;
        lemma_trace_grows(scope, at, to);
        lemma_fewer_variables(s, vars, progress(scope, at)->0.walked.vars.len());
        assert(scope.body.subrange(from as int, to as int) =~= scope.body.subrange(
            from as int,
            at as int,
        ).push(instr));
        lemma_run_push(host, scope.body.subrange(from as int, at as int), instr, own);
        let before = run(host, plain(scope.body.subrange(from as int, at as int)), own)->0;
        let v = lemma_straight_code(host, scope, from, at, s, before);
        lemma_straight_extend(host, scope, from, to, s, before, t, v)
    }
}

/// One more instruction.
#[verifier::rlimit(40)]
proof fn lemma_straight_extend(
    host: Host,
    scope: Scope,
    from: nat,
    to: nat,
    s: State,
    before: State,
    t: State,
    v: State,
) -> (u: State)
    requires
        from < to <= scope.body.len(),
        progress(scope, to) is Some,
        is_straight(scope.body[to - 1]),
        has_variables(s, progress(scope, to)->0.walked.vars),
        ({
            let n = scope.params.len() + scope.locals.len();
            run(
                host,
                plain(scope.body.subrange(from as int, to - 1)),
                own_part(scope, s),
            ) == Some(before)
        }),
        run_instr(host, scope.body[to - 1], before) == Some(t),
        tracked_run(host, scope, from, (to - 1) as nat, s, before, v),
    ensures
        tracked_run(host, scope, from, to, s, t, u),
{
    let n = scope.params.len() + scope.locals.len();
    let own = own_part(scope, s);
    let at = (to - 1) as nat;
    let instr = scope.body[at as int];
    let w = progress(scope, at)->0.walked;
    lemma_code_between_step(scope, from, to);
    lemma_trace_grows(scope, 0, at);
    lemma_same_variables(s, v, progress(scope, to)->0.walked.vars);
    let u = lemma_straight_step(host, scope, w, at, instr, n, before, t, v);
    let code = chunk(
        scope.func,
        InstrIdx(at as usize),
        instr,
        site_at(scope, w, instr),
        w.vars,
        w.tables.len(),
    );
    lemma_run_add(host, code_between(scope, from, at), code, s);
    let events = told(host, scope.func, InstrIdx(at as usize), instr, before, t);
    assert(told_between(host, scope, from, to, own) == told_between(host, scope, from, at, own)
        + events);
    assert(s.log + told_between(host, scope, from, at, own) + events =~= s.log + told_between(
        host,
        scope,
        from,
        to,
        own,
    ));
    u
}

pub(crate) proof fn lemma_fewer_variables(s: State, vars: Seq<ValType>, count: nat)
    requires
        has_variables(s, vars),
        count <= vars.len(),
    ensures
        has_variables(s, vars.take(count as int)),
{
    assert(typed(s.locals).take(count as int) =~= typed(s.locals).take(vars.len() as int).take(
        count as int,
    ));
}

pub(crate) proof fn lemma_same_variables(s: State, t: State, vars: Seq<ValType>)
    requires
        has_variables(s, vars),
        typed(t.locals) == typed(s.locals),
    ensures
        has_variables(t, vars),
{
    assert(typed(t.locals).len() == t.locals.len());
    assert(typed(s.locals).len() == s.locals.len());
}

/// Instrumentation leaves alone what straight code does. A stretch of instructions that neither
/// open, switch or leave a block nor branch runs to a state in the function as it was; then its
/// instrumented code runs, from the same state with the variables for the hooks behind the
/// function's own ones, to the same stack, globals, memory and own variables, and reports each
/// instruction in order. The stretch must be one that can be reached, and the stack before must have
/// the types that the walk has noted above the entry of the innermost block.
pub proof fn law_straight_code_runs_as_before(host: Host, scope: Scope, from: nat, to: nat, s: State)
    requires
        from <= to <= scope.body.len() <= usize::MAX,
        progress(scope, to) is Some,
        forall|k: int| from <= k < to ==> is_straight(#[trigger] scope.body[k]),
        runs_in(host, scope, s),
        has_variables(s, progress(scope, to)->0.walked.vars),
        ready(s.stack, trailing(progress(scope, from)->0.walked.types)),
        progress(scope, from)->0.walked.reached(),
    ensures
        ({
            let n = scope.params.len() + scope.locals.len();
            let own = own_part(scope, s);
            run(host, plain(scope.body.subrange(from as int, to as int)), own) matches Some(t) ==> {
                &&& run(host, code_between(scope, from, to), s) matches Some(u)
                &&& widens(t, u, n, scope.globals.len())
                &&& u.log == s.log + told_between(host, scope, from, to, own)
            }
        }),
{
    let n = scope.params.len() + scope.locals.len();
    let own = own_part(scope, s);
    if let Some(t) = run(host, plain(scope.body.subrange(from as int, to as int)), own) {
        let u = lemma_straight_code(host, scope, from, to, s, t);
    }
}

/// Operands may be missing where an instruction cannot be reached, and only there: the stack stands in
/// the way of an instruction other than `else` and `end` exactly if the instruction can be reached and
/// takes more values than the innermost block has.
pub proof fn law_only_unreached_operands_may_be_missing(w: Walked, instr: Instr, sig: Signature)
    requires
        !(instr is Else),
        !(instr is End),
    ensures
        types_after(w.types, instr, sig, w.reached()) is Some <==> !w.reached() || has_values(
            w.types,
            operand_count(instr, sig),
        ),
{
    lemma_followed_unreached(w.types, Signature { params: seq![ValType::I32], results: seq![] });
    lemma_followed_unreached(w.types, on_stack(instr, sig));
}

/// An instruction that cannot be reached takes the operands that are there, as far as it takes any, and
/// gives all of its results; what lies below is kept.
pub proof fn law_unreached_code_takes_what_is_there(types: Seq<TypeStackElement>, sig: Signature)
    ensures
        ({
            let there = trailing(types).len();
            let count = if sig.params.len() <= there {
                sig.params.len()
            } else {
                there
            };
            followed(types, sig, false) == Some(
                with_values(types.take(types.len() - count), sig.results),
            )
        }),
{
    lemma_followed_unreached(types, sig);
    lemma_value_count(types);
    lemma_trailing_counted(types);
}

proof fn lemma_trailing_counted(types: Seq<TypeStackElement>)
    ensures
        trailing(types).len() == value_count(types),
    decreases types.len(),
{
    if types.len() > 0 && types.last() is Val {
        lemma_trailing_counted(types.drop_last());
    }
}

/// The number of values that an instruction of type `sig` takes off the stack.
pub open spec fn operand_count(instr: Instr, sig: Signature) -> nat {
    match instr {
        Instr::Block(_) | Instr::Loop(_) => 0,
        Instr::If(_) => 1,
        _ => on_stack(instr, sig).params.len(),
    }
}

/// What follows `unreachable`, `br`, `br_table` or `return` cannot be reached, up to the `else` or
/// `end` of the innermost block. From there on it can be reached again if that block could be reached
/// where it was entered.
pub proof fn law_unreached_code_ends_with_its_block(scope: Scope, w: Walked, at: int, instr: Instr)
    requires
        w.live.len() > 1,
    ensures
        ({
            let after = walked_after(scope, w, at, instr);
            match instr {
                Instr::Unreachable | Instr::Br(_) | Instr::BrTable(_, _) | Instr::Return => {
                    !after.reached()
                },
                Instr::Else | Instr::End => after.reached() == w.live[w.live.len() - 2],
                _ => after.reached() == w.reached(),
            }
        }),
        instr is Block || instr is Loop || instr is If ==> ({
            let after = walked_after(scope, w, at, instr);
            after.live[after.live.len() - 2] == w.reached()
        }),
{
}

/// Copying the topmost values of the stack into variables, of which none occurs twice and each has
/// the type of its value, leaves the stack and all other variables as they were, and the variables
/// hold the values.
pub proof fn law_saving_keeps_the_stack(host: Host, locals: Seq<LocalIdx>, s: State)
    requires
        separate(s.locals, locals),
        ready(s.stack, typed(values(s.locals, locals))),
    ensures
        run(host, plain(saved(locals)), s) matches Some(t) && {
            &&& t == s.with_locals(t.locals)
            &&& stored(s.locals, t.locals, locals, top(s.stack, locals.len()))
        },
{
    let t = lemma_run_saved(host, locals, s);
}

/// Handing variables over pushes their values, each 64-bit integer as two halves, and changes
/// nothing else.
pub proof fn law_variables_are_handed_over(host: Host, locals: Seq<LocalIdx>, vars: Seq<ValType>, s: State)
    requires
        forall|i: int|
            0 <= i < locals.len() ==> (#[trigger] locals[i]).0 < s.locals.len()
                && s.locals[locals[i].0 as int].ty() == vars[locals[i].0 as int],
    ensures
        run(host, plain(restored(locals, vars)), s) == Some(
            s.with_stack(s.stack + lowered_vals(values(s.locals, locals))),
        ),
{
    lemma_run_restored(host, locals, vars, s);
}

} // verus!
