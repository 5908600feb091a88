//! What a call of a function of an instrumented module does and what the hooks are told of it, in terms
//! of what the module declares.
use vstd::prelude::*;

use crate::add_hooks::{
    calls_before, hook_bound, hooks_of, instrumentable, is_instrumented, lemma_last_is_end,
    lemma_trace_ends, scope_of, tables_before, Instrumentation,
};
use crate::ast::{
    BlockType, Function, FunctionIdx, Global, GlobalIdx, GlobalOp, Instr, InstrIdx, Label, Module,
    Mutability, Val, ValType,
};
use crate::block_laws::{
    depth, is_entry_for, law_open_blocks_are_known, law_table_entries_lead_to_their_blocks,
    law_told_targets_are_where_runs_go_on, lemma_closing_depth, lemma_nesting_of_plain, open_at,
};
use crate::block_stack::{closing, lemma_switching_bounds, nestings, BlockKind};
use crate::chunk_lemmas::{event, has_variables};
use crate::emitter::lemma_distinct;
use crate::hook_map::{type_suffix, HookId, HookOp};
use crate::laws::{lemma_trace_grows, own_part, runs_in};
use crate::machine::{lowered_vals, top, typed, Event, Host, State};
use crate::machine_lemmas::{location, location_outside};
use crate::module_laws::{
    is_br_table, law_br_tables_have_entries, law_hook_calls_resolve,
    law_other_instructions_are_taken_over,
};
use crate::program::{after_step, after_steps, branched, called, popped, topmost, Config, Frame};
use crate::program_laws::{
    law_call_runs_as_before, lemma_entry_stands_first, other_globals, started, told_at_entry, told_by,
    told_during,
};
use crate::static_info::ModuleInfo;
use crate::trace::{calls, chunk, distinct, epilogue, linked, plain, prologue, returns_implicitly, Emit};
use crate::walk::{
    admits, instrumented, instrumented_vars, lemma_walkable_prefix, progress, site_at, walkable, Scope,
};

verus! {

/// Whether an index stands right behind a `return`.
spec fn behind_return(body: Seq<Instr>, k: int) -> bool {
    0 < k < body.len() && body[k - 1] is Return
}

/// What holds of all points of a run: it is not right behind a `return`, nor does a branch lead there,
/// and the outermost block is the function.
spec fn is_run_point(scope: Scope, c: Config) -> bool {
    &&& 0 <= c.at <= scope.body.len()
    &&& !behind_return(scope.body, c.at)
    &&& forall|i: int|
        #![trigger c.frames[i]]
        0 <= i < c.frames.len() ==> 0 <= c.frames[i].target <= scope.body.len() && !behind_return(
            scope.body,
            c.frames[i].target,
        )
    &&& c.frames.len() > 0 ==> c.frames[0] == (Frame {
        target: scope.body.len() as int,
        taken: scope.results,
        results: scope.results,
        height: 0,
    })
}

proof fn lemma_branch_is_run_point(scope: Scope, c: Config, label: int, c2: Config)
    requires
        is_run_point(scope, c),
        branched(c, label) == Some(c2),
    ensures
        is_run_point(scope, c2),
{
    let k = c.frames.len() - 1 - label;
    assert(c.frames[k].target <= scope.body.len());
    assert forall|i: int| #![trigger c2.frames[i]] 0 <= i < c2.frames.len() implies c2.frames[i]
        == c.frames[i] by {}
}

proof fn lemma_step_is_run_point(host: Host, scope: Scope, c: Config, c2: Config)
    requires
        is_run_point(scope, c),
        c.frames.len() > 0,
        after_step(host, plain(scope.body), c) == Some(c2),
    ensures
        is_run_point(scope, c2),
{
    let body = scope.body;
    let k = c.at;
    lemma_nesting_of_plain(body);
    assert(plain(body)[k] == Emit::Plain(body[k]));
    lemma_closing_depth(body, k + 1, 0);
    lemma_switching_bounds(nestings(body), k + 1, 0);
    match body[k] {
        Instr::Br(label) => lemma_branch_is_run_point(scope, c, label.0 as int, c2),
        Instr::Return => lemma_branch_is_run_point(scope, c, c.frames.len() - 1, c2),
        Instr::BrIf(label) => {
            if topmost(c.state) != 0 {
                lemma_branch_is_run_point(scope, popped(c), label.0 as int, c2);
            }
        },
        Instr::BrTable(labels, default) => {
            let index = (topmost(c.state) as u32) as int;
            if index < labels@.len() {
                lemma_branch_is_run_point(scope, popped(c), labels@[index].0 as int, c2);
            } else {
                lemma_branch_is_run_point(scope, popped(c), default.0 as int, c2);
            }
        },
        _ => {
            assert forall|i: int| #![trigger c2.frames[i]] 0 <= i < c2.frames.len() implies 0
                <= c2.frames[i].target <= body.len() && !behind_return(body, c2.frames[i].target) by {
                if i < c.frames.len() {
                    assert(c2.frames[i] == c.frames[i]);
                }
            }
        },
    }
}

proof fn lemma_steps_are_run_points(host: Host, scope: Scope, s: State, count: nat)
    requires
        walkable(scope),
        scope.body.len() <= usize::MAX,
        after_steps(host, plain(scope.body), called(plain(scope.body), scope.results, s), count) is Some,
    ensures
        ({
            let code = plain(scope.body);
            let c = after_steps(host, code, called(code, scope.results, s), count)->0;
            &&& is_run_point(scope, c)
            &&& 0 <= c.at < scope.body.len() ==> c.frames.len() == depth(scope.body, c.at)
        }),
    decreases count,
{
    let code = plain(scope.body);
    let c = after_steps(host, code, called(code, scope.results, s), count)->0;
    lemma_nesting_of_plain(scope.body);
    if count > 0 {
        let fewer = (count - 1) as nat;
        lemma_steps_are_run_points(host, scope, s, fewer);
        let before = after_steps(host, code, called(code, scope.results, s), fewer)->0;
        law_open_blocks_are_known(scope, before.at);
        lemma_step_is_run_point(host, scope, before, c);
    }
    if 0 <= c.at < scope.body.len() {
        law_open_blocks_are_known(scope, c.at);
        law_told_targets_are_where_runs_go_on(host, scope, s, count, Label(0));
    }
}

/// Every return is reported. A call of the function that comes to its end by a `return` or by running
/// into the last `end` has called the hook for returns last, with exactly the values that the call leaves:
/// under the location of the `return`, or, for the return at the end, under an index that no instruction
/// has. (A branch to the label of the function is reported as the branch that it is.)
pub proof fn law_returns_are_reported_last(host: Host, scope: Scope, s: State, count: nat)
    requires
        walkable(scope),
        scope.body.len() <= usize::MAX,
        count > 0,
        ({
            let code = plain(scope.body);
            let c = called(code, scope.results, s);
            let before = after_steps(host, code, c, (count - 1) as nat)->0;
            &&& after_steps(host, code, c, count) matches Some(end)
            &&& end.at == scope.body.len()
            &&& scope.body[before.at] is Return || scope.body[before.at] is End
        }),
    ensures
        ({
            let code = plain(scope.body);
            let c = called(code, scope.results, s);
            let before = after_steps(host, code, c, (count - 1) as nat)->0;
            let end = after_steps(host, code, c, count)->0;
            let told = told_during(host, scope, c, count);
            &&& told.len() > 0
            &&& typed(end.state.stack) == scope.results
            &&& told.last() == event(
                HookOp::Return,
                scope.results,
                if scope.body[before.at] is Return {
                    location(scope.func, InstrIdx(before.at as usize))
                } else {
                    location_outside(scope.func)
                },
                end.state.stack,
            )
        }),
{
    let body = scope.body;
    let code = plain(body);
    let fewer = (count - 1) as nat;
    let c = called(code, scope.results, s);
    let before = after_steps(host, code, c, fewer)->0;
    let end = after_steps(host, code, c, count)->0;
    let k = before.at;
    lemma_nesting_of_plain(body);
    lemma_steps_are_run_points(host, scope, s, fewer);
    assert(code[k] == Emit::Plain(body[k]));
    lemma_walkable_prefix(scope, 0, body.len());
    lemma_last_is_end(body);
    law_open_blocks_are_known(scope, k);
    let results = scope.results;
    let stack = before.state.stack;
    let last = told_by(host, scope, before, end);
    if body[k] is Return {
        assert(before.frames[0].taken == results);
        assert(end.state.stack =~= top(stack, results.len()));
        assert(last.last() == event(
            HookOp::Return,
            results,
            location(scope.func, InstrIdx(k as usize)),
            top(stack, results.len()),
        ));
    } else {
        lemma_closing_depth(body, 0, 0);
        assert(k == body.len() - 1);
        assert(depth(body, k + 1) == 0);
        assert(before.frames.len() == 1);
        assert(before.frames.last() == before.frames[0]);
        assert(top(stack, results.len()) =~= stack);
        assert(!behind_return(body, k));
        assert(last.last() == event(HookOp::Return, results, location_outside(scope.func), stack));
    }
    let told = told_during(host, scope, c, count);
    assert(told == told_during(host, scope, c, fewer) + last);
    assert(told.last() == last.last());
}

/// The function with index `f` as the module declares it: the types of its parameters, results and
/// variables, its instructions, and the types of all functions and globals, imported or not. Only of the
/// module's start function it has to be remembered whether it has run, in a global behind all others.
pub open spec fn as_declared(module: Module, f: int) -> Scope {
    let function = module.functions@[f];
    Scope {
        func: FunctionIdx(f as usize),
        params: function.type_.params@,
        results: function.type_.results@,
        locals: (function.code->0).locals@,
        body: (function.code->0).body@,
        functions: module.functions@.map_values(|other: Function| other.type_@),
        globals: module.globals@.map_values(|global: Global| global.type_.0),
        start: if is_start(module, f) {
            Some(GlobalIdx(module.globals@.len() as usize))
        } else {
            None
        },
        earlier: tables_before(module, f as nat),
    }
}

/// Whether the function with index `f` is the one that the module names as its start function.
pub open spec fn is_start(module: Module, f: int) -> bool {
    module.start matches Some(start) && start.0 == f
}

/// Functions are walked as the module declares them.
proof fn lemma_as_declared(module: Module, f: int)
    requires
        0 <= f < module.functions@.len(),
    ensures
        scope_of(module, f) == as_declared(module, f),
{
    let (a, b) = (scope_of(module, f), as_declared(module, f));
    assert(module.functions.len() == module.functions@.len());
    assert(a.functions =~= b.functions);
    assert(a.globals =~= b.globals);
    if let Some(start) = module.start {
        assert(start == FunctionIdx(start.0));
    }
}

/// Whether a host runs the module: it knows the module's functions by their declared types and leaves all
/// but the declared globals alone.
pub open spec fn hosts(host: Host, module: Module) -> bool {
    &&& host.own_globals == module.globals@.len()
    &&& host.functions.len() == module.functions@.len()
    &&& forall|i: int|
        0 <= i < module.functions@.len() ==> #[trigger] host.functions[i] == module.functions@[i].type_@
}

/// Whether the globals are those that the module declares: as many, each with a value of its declared
/// type.
pub open spec fn has_globals(globals: Seq<Val>, module: Module) -> bool {
    &&& globals.len() == module.globals@.len()
    &&& forall|i: int|
        0 <= i < module.globals@.len() ==> (#[trigger] globals[i]).ty() == module.globals@[i].type_.0
}

/// Whether the variables are those that a function with code declares: its parameters, then its locals.
pub open spec fn has_locals(locals: Seq<Val>, function: Function) -> bool {
    &&& locals.len() <= usize::MAX
    &&& typed(locals) == function.type_.params@ + (function.code->0).locals@
}

/// The part of the state of the instrumented module that the module as it was has.
pub open spec fn without_added(before: Module, f: int, s: State) -> State {
    let function = before.functions@[f];
    State {
        locals: s.locals.take(
            (function.type_.params@.len() + (function.code->0).locals@.len()) as int,
        ),
        globals: s.globals.take(before.globals@.len() as int),
        ..s
    }
}

/// The point at which a call of the function as it was begins.
pub open spec fn call_before(before: Module, f: int, s: State) -> Config {
    let function = before.functions@[f];
    called(
        plain((function.code->0).body@),
        function.type_.results@,
        without_added(before, f, s),
    )
}

/// What hooks are told at the entry of a function: the start of the module, if this is the start function
/// and the added global does not say that it has run; and that the function is entered.
pub open spec fn told_first(before: Module, f: int, s: State) -> Seq<Event> {
    let at = seq![Val::I32(f as i32), Val::I32((-1) as i32)];
    if is_start(before, f) && s.globals.last() != Val::I32(0) {
        seq![
            Event { id: HookId { op: HookOp::Start, tys: seq![] }, args: at },
            Event { id: HookId { op: HookOp::BeginFunction, tys: seq![] }, args: at },
        ]
    } else {
        seq![Event { id: HookId { op: HookOp::BeginFunction, tys: seq![] }, args: at }]
    }
}

/// What a state of the instrumented module is for the function as it is walked.
proof fn lemma_state_fits(host: Host, before: Module, after: Module, f: int, s: State)
    requires
        instrumentable(before),
        is_instrumented(before, after),
        0 <= f < before.functions@.len(),
        before.functions@[f].code is Some,
        hosts(host, before),
        has_globals(s.globals, after),
        has_locals(s.locals, after.functions@[f]),
    ensures
        ({
            let scope = as_declared(before, f);
            &&& scope_of(before, f) == scope
            &&& walkable(scope)
            &&& scope.body.len() <= usize::MAX
            &&& has_variables(s, instrumented_vars(scope))
            &&& runs_in(host, scope, s)
            &&& own_part(scope, s) == without_added(before, f, s)
            &&& s.globals.len() == scope.globals.len() + 1
            &&& s.globals.last() is I32
        }),
{
    let scope = as_declared(before, f);
    lemma_as_declared(before, f);
    let function = before.functions@[f];
    let now = after.functions@[f];
    assert(walkable(scope));
    assert((function.code->0).body.len() == (function.code->0).body@.len());
    lemma_trace_grows(scope, 0, scope.body.len());
    let vars = instrumented_vars(scope);
    let own = scope.params + scope.locals;
    let (p, n) = (scope.params.len() as int, scope.locals.len() as int);
    assert(vars.take(own.len() as int) =~= own);
    assert(vars =~= scope.params + vars.skip(p)) by {
        assert forall|i: int| 0 <= i < p implies vars[i] == scope.params[i] by {
            assert(vars.take(own.len() as int)[i] == own[i]);
        }
    }
    assert(typed(s.locals).take(vars.len() as int) =~= vars);
    assert(typed(s.locals).len() == s.locals.len());
    assert(host.functions =~= scope.functions) by {
        assert forall|i: int| 0 <= i < scope.functions.len() implies host.functions[i]
            == scope.functions[i] by {}
    }
    assert(typed(s.globals).take(scope.globals.len() as int) =~= scope.globals) by {
        assert forall|i: int| 0 <= i < scope.globals.len() implies typed(s.globals)[i]
            == scope.globals[i] by {
            assert(s.globals[i].ty() == after.globals@[i].type_.0);
            assert(after.globals@.take(before.globals@.len() as int)[i] == after.globals@[i]);
        }
    }
    assert(s.globals[before.globals@.len() as int].ty() == after.globals@.last().type_.0);
}

/// A call of a function of the instrumented module does what a call of the function did, in every state
/// that fits what the module declares. Where the call comes to its end, so does the call of the
/// instrumented function, with the same results on the stack, the same values in the module's own globals
/// and the function's own variables and the same memory. The hooks are told the start of the module if
/// and only if this is the function that the module names as its start function and it is the first time;
/// then that this function is entered; and then what it does. The added global is cleared by the start
/// function and left alone by all others.
pub proof fn law_module_runs_as_declared(
    host: Host,
    before: Module,
    after: Module,
    f: int,
    s: State,
    count: nat,
) -> (run: (nat, Seq<Emit>))
    requires
        instrumentable(before),
        is_instrumented(before, after),
        0 <= f < before.functions@.len(),
        before.functions@[f].code is Some,
        hosts(host, before),
        has_globals(s.globals, after),
        has_locals(s.locals, after.functions@[f]),
        ({
            let body = (before.functions@[f].code->0).body@;
            after_steps(host, plain(body), call_before(before, f, s), count) matches Some(end) && end.at
                == body.len()
        }),
    ensures
        ({
            let body = (before.functions@[f].code->0).body@;
            let c = call_before(before, f, s);
            let end = after_steps(host, plain(body), c, count)->0;
            let (steps, trace) = run;
            &&& (after.functions@[f].code->0).body@ == linked(
                trace,
                hooks_of(before),
                before.functions@.len(),
            )
            &&& after_steps(
                host,
                trace,
                called(trace, before.functions@[f].type_.results@, s),
                steps,
            ) matches Some(d)
            &&& d.at == trace.len()
            &&& d.state.stack == end.state.stack
            &&& d.state.world == end.state.world
            &&& without_added(before, f, d.state).globals == end.state.globals
            &&& without_added(before, f, d.state).locals == end.state.locals
            &&& d.state.log == s.log + told_first(before, f, s) + told_during(
                host,
                as_declared(before, f),
                c,
                count,
            )
            &&& d.state.globals.len() == s.globals.len()
            &&& d.state.globals.last() == if is_start(before, f) {
                Val::I32(0)
            } else {
                s.globals.last()
            }
        }),
{
    let scope = as_declared(before, f);
    lemma_state_fits(host, before, after, f, s);
    let trace = instrumented(scope);
    let g = scope.globals.len() as int;
    assert(before.globals.len() == before.globals@.len());
    assert(after.functions@[f].code is Some);
    let steps = law_call_runs_as_before(host, scope, s, count);
    let d = after_steps(host, trace, called(trace, scope.results, s), steps)->0;
    lemma_entry_events(scope, s);
    assert(told_at_entry(scope, s) == told_first(before, f, s));
    let others = other_globals(scope, d.state);
    assert(others == other_globals(scope, started(scope, s)));
    assert(others.len() == d.state.globals.len() - g);
    assert(other_globals(scope, started(scope, s)).len() == 1);
    assert(others[0] == d.state.globals[g]);
    assert(other_globals(scope, started(scope, s))[0] == started(scope, s).globals[g]);
    (steps, trace)
}

/// The events at the entry.
proof fn lemma_entry_events(scope: Scope, s: State)
    ensures
        ({
            let at = location_outside(scope.func);
            let start = Event { id: HookId { op: HookOp::Start, tys: seq![] }, args: at };
            let begin = Event { id: HookId { op: HookOp::BeginFunction, tys: seq![] }, args: at };
            told_at_entry(scope, s) == if scope.start matches Some(global) && s.globals[global.0 as int]
                != Val::I32(0) {
                seq![start, begin]
            } else {
                seq![begin]
            }
        }),
{
    let at = location_outside(scope.func);
    let none: Seq<Val> = seq![];
    assert(lowered_vals(none) =~= none);
    assert(at + none =~= at);
    let begin = event(HookOp::BeginFunction, seq![], at, seq![]);
    let start = event(HookOp::Start, seq![], at, seq![]);
    assert(seq![start] + seq![begin] =~= seq![start, begin]);
    assert(Seq::<Event>::empty() + seq![begin] =~= seq![begin]);
}

/// Whether an instruction of the instrumented module calls the hook with the given name.
pub open spec fn calls_hook(after: Module, instr: Instr, name: Seq<char>) -> bool {
    &&& instr matches Instr::Call(callee)
    &&& callee.0 < after.functions@.len()
    &&& after.functions@[callee.0 as int].code is None
    &&& after.functions@[callee.0 as int].import matches Some((from, import)) && from@
        == "__wasabi_hooks"@ && import@ == name
}

/// Whether a body begins with the guarded report of the start: unless the global `g` is cleared, it is
/// cleared, and the hook for the start is told the function `f`.
pub open spec fn reports_start(after: Module, body: Seq<Instr>, f: int, g: int) -> bool {
    &&& body.len() >= 8
    &&& body[0] == Instr::Global(GlobalOp::GetGlobal, GlobalIdx(g as usize))
    &&& body[1] == Instr::If(BlockType(None))
    &&& body[2] == Instr::Const(Val::I32(0))
    &&& body[3] == Instr::Global(GlobalOp::SetGlobal, GlobalIdx(g as usize))
    &&& body[4] == Instr::Const(Val::I32(f as i32))
    &&& body[5] == Instr::Const(Val::I32((-1) as i32))
    &&& calls_hook(after, body[6], "start"@)
    &&& body[7] is End
}

/// The step of the code of an instrumented function.
proof fn lemma_step_in_body(before: Module, after: Module, out: Instrumentation, f: int, i: int)
    requires
        instrumentable(before),
        is_instrumented(before, after),
        out.belongs_to(before, after),
        0 <= f < before.functions@.len(),
        before.functions@[f].code is Some,
        0 <= i < instrumented(as_declared(before, f)).len(),
    ensures
        after.functions@[f].code is Some,
        (after.functions@[f].code->0).body@.len() == instrumented(as_declared(before, f)).len(),
        match instrumented(as_declared(before, f))[i] {
            Emit::Plain(instr) => (after.functions@[f].code->0).body@[i] == instr,
            Emit::Hook(id) => calls_hook(after, (after.functions@[f].code->0).body@[i], id.name()),
        },
{
    lemma_as_declared(before, f);
    assert(after.functions@[f].code is Some);
    match instrumented(as_declared(before, f))[i] {
        Emit::Plain(_) => law_other_instructions_are_taken_over(before, after, f, i),
        Emit::Hook(_) => law_hook_calls_resolve(before, after, out, f, i),
    }
}

/// The steps at the entry of a function, one by one.
proof fn lemma_prologue_steps(func: FunctionIdx, start: Option<GlobalIdx>)
    ensures
        ({
            let head = prologue(func, start);
            let begin = if start is Some {
                8int
            } else {
                0
            };
            let at = Emit::Plain(Instr::Const(Val::I32(func.0 as i32)));
            let outside = Emit::Plain(Instr::Const(Val::I32((-1) as i32)));
            &&& head.len() == begin + 3
            &&& head[begin] == at
            &&& head[begin + 1] == outside
            &&& head[begin + 2] == Emit::Hook(HookId { op: HookOp::BeginFunction, tys: seq![] })
            &&& start matches Some(global) ==> {
                &&& head[0] == Emit::Plain(Instr::Global(GlobalOp::GetGlobal, global))
                &&& head[1] == Emit::Plain(Instr::If(BlockType(None)))
                &&& head[2] == Emit::Plain(Instr::Const(Val::I32(0)))
                &&& head[3] == Emit::Plain(Instr::Global(GlobalOp::SetGlobal, global))
                &&& head[4] == at
                &&& head[5] == outside
                &&& head[6] == Emit::Hook(HookId { op: HookOp::Start, tys: seq![] })
                &&& head[7] == Emit::Plain(Instr::End)
            }
        }),
{
}

/// The steps at the entry of a function stand at the beginning of its code.
proof fn lemma_prologue_in_body(before: Module, after: Module, out: Instrumentation, f: int, i: int)
    requires
        instrumentable(before),
        is_instrumented(before, after),
        out.belongs_to(before, after),
        0 <= f < before.functions@.len(),
        before.functions@[f].code is Some,
        0 <= i < prologue(as_declared(before, f).func, as_declared(before, f).start).len(),
    ensures
        after.functions@[f].code is Some,
        prologue(as_declared(before, f).func, as_declared(before, f).start).len() <= (
        after.functions@[f].code->0).body@.len(),
        match prologue(as_declared(before, f).func, as_declared(before, f).start)[i] {
            Emit::Plain(instr) => (after.functions@[f].code->0).body@[i] == instr,
            Emit::Hook(id) => calls_hook(after, (after.functions@[f].code->0).body@[i], id.name()),
        },
{
    let scope = as_declared(before, f);
    lemma_as_declared(before, f);
    assert(walkable(scope));
    lemma_entry_stands_first(scope);
    lemma_step_in_body(before, after, out, f, i);
}

/// A hook for an event that has no types is named after the event.
proof fn lemma_name_without_types(op: HookOp)
    ensures
        (HookId { op, tys: seq![] }).name() == (HookId { op, tys: seq![] }).event(),
{
    let id = HookId { op, tys: seq![] };
    assert(type_suffix(seq![]) =~= seq![]);
    assert(id.name() =~= id.event());
}

/// The start of the module is reported by the function that the module names as its start function, and
/// by no other: the code of a function begins with the guarded report if and only if it is that function.
/// The report that the function is entered follows, or comes first.
pub proof fn law_the_start_function_reports_the_start(
    before: Module,
    after: Module,
    out: Instrumentation,
    f: int,
)
    requires
        instrumentable(before),
        is_instrumented(before, after),
        out.belongs_to(before, after),
        0 <= f < before.functions@.len(),
        before.functions@[f].code is Some,
    ensures
        ({
            let body = (after.functions@[f].code->0).body@;
            let g = before.globals@.len() as int;
            let begin = if before.start == Some(FunctionIdx(f as usize)) {
                8int
            } else {
                0
            };
            &&& after.functions@[f].code is Some
            &&& reports_start(after, body, f, g) <==> before.start == Some(FunctionIdx(f as usize))
            &&& begin + 3 <= body.len()
            &&& body[begin] == Instr::Const(Val::I32(f as i32))
            &&& body[begin + 1] == Instr::Const(Val::I32((-1) as i32))
            &&& calls_hook(after, body[begin + 2], "begin_function"@)
        }),
{
    let scope = as_declared(before, f);
    assert(before.functions.len() == before.functions@.len());
    assert(before.globals.len() == before.globals@.len());
    if let Some(start) = before.start {
        assert(start == FunctionIdx(start.0));
    }
    assert(is_start(before, f) == (before.start == Some(FunctionIdx(f as usize))));
    let begin = if is_start(before, f) {
        8int
    } else {
        0
    };
    lemma_prologue_steps(scope.func, scope.start);
    lemma_name_without_types(HookOp::Start);
    lemma_name_without_types(HookOp::BeginFunction);
    lemma_prologue_in_body(before, after, out, f, begin);
    lemma_prologue_in_body(before, after, out, f, begin + 1);
    lemma_prologue_in_body(before, after, out, f, begin + 2);
    if is_start(before, f) {
        lemma_prologue_in_body(before, after, out, f, 0);
        lemma_prologue_in_body(before, after, out, f, 1);
        lemma_prologue_in_body(before, after, out, f, 2);
        lemma_prologue_in_body(before, after, out, f, 3);
        lemma_prologue_in_body(before, after, out, f, 4);
        lemma_prologue_in_body(before, after, out, f, 5);
        lemma_prologue_in_body(before, after, out, f, 6);
        lemma_prologue_in_body(before, after, out, f, 7);
    }
}

/// The added global is made to remember that the start function has not run: it is the module's own, can
/// be written, and what it holds at first is a number other than zero. All else that the module declares
/// besides functions and exports is kept.
pub proof fn law_one_global_is_added(before: Module, after: Module)
    requires
        is_instrumented(before, after),
    ensures
        after.globals@.len() == before.globals@.len() + 1,
        forall|i: int|
            0 <= i < before.globals@.len() ==> #[trigger] after.globals@[i] == before.globals@[i],
        ({
            let added = after.globals@.last();
            &&& added.type_.0 == ValType::I32
            &&& added.type_.1 == Mutability::Mut
            &&& added.import is None
            &&& added.export is None
            &&& added.init matches Some(init) && init@.len() == 2 && init@[1] is End && (
            init@[0] matches Instr::Const(Val::I32(v)) && v != 0)
        }),
        after.start == before.start,
        after.tables@.len() == before.tables@.len(),
{
    assert forall|i: int| 0 <= i < before.globals@.len() implies #[trigger] after.globals@[i]
        == before.globals@[i] by {
        assert(after.globals@.take(before.globals@.len() as int)[i] == after.globals@[i]);
    }
}

/// The information on the module is what the module declares, whether a function or global is imported or
/// not: for each function its type and where it is imported from, for each global the type of its value,
/// and the start function.
pub proof fn law_info_is_as_declared(before: Module, after: Module, out: Instrumentation)
    requires
        out.belongs_to(before, after),
    ensures
        out.info.globals@.len() == before.globals@.len(),
        forall|i: int|
            0 <= i < before.globals@.len() ==> #[trigger] out.info.globals@[i]
                == before.globals@[i].type_.0,
        out.info.functions@.len() == before.functions@.len(),
        forall|i: int|
            0 <= i < before.functions@.len() ==> {
                let info = #[trigger] out.info.functions@[i];
                let function = before.functions@[i];
                &&& info.type_.params@ == function.type_.params@
                &&& info.type_.results@ == function.type_.results@
                &&& info.import is Some <==> function.import is Some
                &&& info.import matches Some((from, name)) ==> from@ == (function.import->0).0@ && name@
                    == (function.import->0).1@
            },
        out.info.start == before.start,
        before.tables@.len() == 0 ==> out.info.table_export_name is None,
{
    assert forall|i: int| 0 <= i < before.functions@.len() implies {
        let info = #[trigger] out.info.functions@[i];
        let function = before.functions@[i];
        &&& info.type_.params@ == function.type_.params@
        &&& info.type_.results@ == function.type_.results@
    } by {
        let info = out.info.functions@[i];
        assert(info.type_@ == before.functions@[i].type_@);
        assert(info.type_@.params == info.type_.params@);
        assert(before.functions@[i].type_@.params == before.functions@[i].type_.params@);
        assert(info.type_@.results == info.type_.results@);
    }
}

/// A return at the end of the body is reported in the code exactly if the body does not end with a
/// `return` anyway: ahead of the last `end` the hook for returns with the function's results is called,
/// and else the one for the end of the function.
pub proof fn law_code_reports_the_return_at_the_end(
    before: Module,
    after: Module,
    out: Instrumentation,
    f: int,
)
    requires
        instrumentable(before),
        is_instrumented(before, after),
        out.belongs_to(before, after),
        0 <= f < before.functions@.len(),
        before.functions@[f].code is Some,
    ensures
        ({
            let own = (before.functions@[f].code->0).body@;
            let body = (after.functions@[f].code->0).body@;
            let returned = HookId { op: HookOp::Return, tys: before.functions@[f].type_.results@ };
            let ends_with_return = own.len() >= 2 && own[own.len() - 2] == Instr::Return && own[own.len()
                - 1] == Instr::End;
            &&& after.functions@[f].code is Some
            &&& body.len() >= 2
            &&& body.last() is End
            &&& ends_with_return ==> calls_hook(after, body[body.len() - 2], "end_function"@)
            &&& !ends_with_return ==> calls_hook(after, body[body.len() - 2], returned.name())
        }),
{
    let scope = as_declared(before, f);
    lemma_as_declared(before, f);
    assert(walkable(scope));
    let trace = instrumented(scope);
    let n = scope.body.len() as int;
    assert((before.functions@[f].code->0).body.len() == n);
    lemma_walkable_prefix(scope, 0, scope.body.len());
    lemma_last_is_end(scope.body);
    lemma_trace_ends(scope);
    lemma_walkable_prefix(scope, (n - 1) as nat, scope.body.len());
    law_open_blocks_are_known(scope, n - 1);
    lemma_closing_depth(scope.body, 0, 0);
    assert(depth(scope.body, n) == 0);
    let p = progress(scope, (n - 1) as nat)->0;
    let q = progress(scope, scope.body.len())->0;
    assert(open_at(scope, n - 1)[0] == p.walked.open[0]);
    let site = site_at(scope, p.walked, scope.body[n - 1]);
    let ended = HookId { op: HookOp::End(BlockKind::Function), tys: seq![] };
    lemma_name_without_types(ended.op);
    let code = chunk(
        scope.func,
        InstrIdx((n - 1) as usize),
        scope.body[n - 1],
        site,
        p.walked.vars,
        p.walked.tables.len(),
    );
    assert(q.trace == p.trace + code);
    assert(site.block == Some(p.walked.open.last()));
    assert(p.walked.open.last() is Function);
    assert(code.len() >= 2 && code[code.len() - 2] == Emit::Hook(ended) && code[code.len() - 1]
        == Emit::Plain(Instr::End));
    assert(q.trace[q.trace.len() - 2] == Emit::Hook(ended));
    let own = scope.body;
    let returned = HookId { op: HookOp::Return, tys: scope.results };
    let ends_with_return = own.len() >= 2 && own[own.len() - 2] == Instr::Return && own[own.len() - 1]
        == Instr::End;
    assert(returns_implicitly(own) == !ends_with_return);
    if !ends_with_return {
        let tail = epilogue(scope.func, scope.results, q.walked.vars);
        assert(tail.len() >= 2);
        assert(tail[tail.len() - 2] == Emit::Hook(returned));
        assert(tail[tail.len() - 1] == Emit::Plain(Instr::End));
        assert(trace[trace.len() - 2] == tail[tail.len() - 2]);
        assert(trace[trace.len() - 1] == tail[tail.len() - 1]);
    }
    lemma_step_in_body(before, after, out, f, trace.len() - 2);
    lemma_step_in_body(before, after, out, f, trace.len() - 1);
}

/// How many of the first `count` instructions are `br_table` instructions.
pub open spec fn tables_in(body: Seq<Instr>, count: nat) -> nat
    decreases count,
{
    if count == 0 {
        0
    } else {
        tables_in(body, (count - 1) as nat) + if body[count - 1] is BrTable {
            1nat
        } else {
            0nat
        }
    }
}

/// How many `br_table` instructions the first `count` functions have.
pub open spec fn tables_of(module: Module, count: nat) -> nat
    decreases count,
{
    if count == 0 {
        0
    } else {
        tables_of(module, (count - 1) as nat) + match module.functions@[count - 1].code {
            Some(code) => tables_in(code.body@, code.body@.len()),
            None => 0,
        }
    }
}

proof fn lemma_tables_counted_within(scope: Scope, count: nat)
    requires
        progress(scope, count) is Some,
    ensures
        progress(scope, count)->0.walked.tables.len() == scope.earlier.len() + tables_in(scope.body, count),
    decreases count,
{
    if count > 0 {
        lemma_tables_counted_within(scope, (count - 1) as nat);
    }
}

proof fn lemma_tables_counted(module: Module, count: nat)
    requires
        instrumentable(module),
        count <= module.functions@.len(),
    ensures
        tables_before(module, count).len() == tables_of(module, count),
    decreases count,
{
    if count > 0 {
        let f = count - 1;
        lemma_tables_counted(module, f as nat);
        if module.functions@[f].code is Some {
            let scope = scope_of(module, f);
            lemma_as_declared(module, f);
            assert(walkable(scope));
            lemma_tables_counted_within(scope, scope.body.len());
        }
    }
}

/// Every `br_table` instruction is listed, in the order in which they stand in the module: its hook is told
/// how many come before it, and under that number the list holds for each of its labels in turn, and for
/// the one that stands for all other indices, the label and where it leads, in the same function.
pub proof fn law_br_tables_are_listed(before: Module, after: Module, out: Instrumentation, f: int, at: nat)
    requires
        instrumentable(before),
        out.belongs_to(before, after),
        is_br_table(before, f, at),
    ensures
        ({
            let body = (before.functions@[f].code->0).body@;
            let labels = (body[at as int]->BrTable_0)@;
            let default = body[at as int]->BrTable_1;
            let k = tables_of(before, f as nat) + tables_in(body, at);
            let entry = out.info.br_tables@[k as int];
            &&& out.info.br_tables@.len() == tables_of(before, before.functions@.len())
            &&& progress(as_declared(before, f), at)->0.walked.tables.len() == k
            &&& k < out.info.br_tables@.len()
            &&& entry.table@.len() == labels.len()
            &&& forall|i: int|
                0 <= i < labels.len() ==> is_entry_for(
                    body,
                    f,
                    at as int,
                    labels[i],
                    #[trigger] entry.table@[i],
                )
            &&& is_entry_for(body, f, at as int, default, entry.default)
        }),
{
    let scope = as_declared(before, f);
    let n = before.functions@.len();
    lemma_as_declared(before, f);
    assert(walkable(scope));
    lemma_walkable_prefix(scope, at, scope.body.len());
    lemma_tables_counted_within(scope, at);
    lemma_tables_counted(before, f as nat);
    lemma_tables_counted(before, n);
    law_br_tables_have_entries(before, after, out, f, at);
    assert((before.functions@[f].code->0).body.len() == scope.body.len());
    assert(before.functions.len() == n);
    law_table_entries_lead_to_their_blocks(scope, at as int, FunctionIdx(f as usize));
    assert(out.info.br_targets().len() == out.info.br_tables@.len());
    let k = tables_of(before, f as nat) + tables_in(scope.body, at);
    let entry = out.info.br_tables@[k as int];
    assert(entry@.table == entry.table@);
}

/// No hook is imported in vain: each one is called by some function.
pub proof fn law_every_hook_is_called(module: Module, k: int) -> (call: (int, int))
    requires
        instrumentable(module),
        0 <= k < hooks_of(module).len(),
    ensures
        0 <= call.0 < module.functions@.len(),
        module.functions@[call.0].code is Some,
        0 <= call.1 < instrumented(as_declared(module, call.0)).len(),
        instrumented(as_declared(module, call.0))[call.1] == Emit::Hook(hooks_of(module)[k]),
{
    let n = module.functions@.len();
    let id = hooks_of(module)[k];
    lemma_distinct(calls_before(module, n));
    assert(hooks_of(module).contains(id));
    lemma_among(calls_before(module, n), id);
    let (f, i) = lemma_called_somewhere(module, n, id);
    lemma_as_declared(module, f);
    (f, i)
}

proof fn lemma_called_somewhere(module: Module, count: nat, id: HookId) -> (call: (int, int))
    requires
        count <= module.functions@.len(),
        calls_before(module, count).contains(id),
    ensures
        0 <= call.0 < count,
        module.functions@[call.0].code is Some,
        0 <= call.1 < instrumented(scope_of(module, call.0)).len(),
        instrumented(scope_of(module, call.0))[call.1] == Emit::Hook(id),
    decreases count,
{
    let all = calls_before(module, count);
    let at = choose|at: int| 0 <= at < all.len() && all[at] == id;
    assert(count > 0);
    let f = count - 1;
    let earlier = calls_before(module, f as nat);
    if at < earlier.len() {
        assert(earlier[at] == id);
        lemma_called_somewhere(module, f as nat, id)
    } else {
        let trace = instrumented(scope_of(module, f));
        assert(calls(trace)[at - earlier.len()] == id);
        (f, lemma_call_found(trace, id))
    }
}

proof fn lemma_call_found(trace: Seq<Emit>, id: HookId) -> (i: int)
    requires
        calls(trace).contains(id),
    ensures
        0 <= i < trace.len(),
        trace[i] == Emit::Hook(id),
    decreases trace.len(),
{
    let all = calls(trace);
    let at = choose|at: int| 0 <= at < all.len() && all[at] == id;
    let before = calls(trace.drop_last());
    if at < before.len() {
        assert(before[at] == id);
        lemma_call_found(trace.drop_last(), id)
    } else {
        trace.len() - 1
    }
}

proof fn lemma_among(ids: Seq<HookId>, id: HookId)
    requires
        distinct(ids).contains(id),
    ensures
        ids.contains(id),
    decreases ids.len(),
{
    if ids.len() > 0 {
        let before = ids.drop_last();
        if distinct(before).contains(id) {
            lemma_among(before, id);
            let i = choose|i: int| 0 <= i < before.len() && before[i] == id;
            assert(ids[i] == id);
        } else {
            let k = choose|k: int| 0 <= k < distinct(ids).len() && distinct(ids)[k] == id;
            if k < distinct(before).len() {
                assert(distinct(before)[k] == id);
            }
            assert(ids[ids.len() - 1] == id);
        }
    }
}

proof fn lemma_distinct_prefix(ids: Seq<HookId>, more: Seq<HookId>)
    ensures
        distinct(ids).len() <= distinct(ids + more).len(),
        distinct(ids + more).take(distinct(ids).len() as int) == distinct(ids),
    decreases more.len(),
{
    if more.len() == 0 {
        assert(ids + more =~= ids);
        assert(distinct(ids).take(distinct(ids).len() as int) =~= distinct(ids));
    } else {
        let fewer = more.drop_last();
        lemma_distinct_prefix(ids, fewer);
        assert((ids + more).drop_last() =~= ids + fewer);
        let n = distinct(ids).len() as int;
        assert(distinct(ids + more).take(n) =~= distinct(ids + fewer).take(n));
    }
}

/// Hooks are imported in the order in which the functions first call them: those that the first functions
/// call come before those that only later ones do.
pub proof fn law_hooks_come_in_order(module: Module, from: nat, to: nat)
    requires
        from <= to <= module.functions@.len(),
    ensures
        ({
            let (early, all) = (
                distinct(calls_before(module, from)),
                distinct(calls_before(module, to)),
            );
            &&& early.len() <= all.len()
            &&& all.take(early.len() as int) == early
        }),
    decreases to,
{
    let early = distinct(calls_before(module, from));
    let all = distinct(calls_before(module, to));
    if from == to {
        assert(all.take(early.len() as int) =~= early);
    } else {
        let f = to - 1;
        let before = calls_before(module, f as nat);
        law_hooks_come_in_order(module, from, f as nat);
        if module.functions@[f].code is Some {
            lemma_distinct_prefix(before, calls(instrumented(scope_of(module, f))));
            assert(all.take(early.len() as int) =~= distinct(before).take(early.len() as int)) by {
                let n = distinct(before).len() as int;
                assert(all.take(n).take(early.len() as int) =~= all.take(early.len() as int));
            }
        }
    }
}

/// What is known of a module before its code is walked is what the module declares, whether a function or
/// global is imported or not.
pub proof fn law_description_is_as_declared(info: ModuleInfo, module: Module)
    requires
        info.describes(module),
    ensures
        info.globals@.len() == module.globals@.len(),
        forall|i: int|
            0 <= i < module.globals@.len() ==> #[trigger] info.globals@[i] == module.globals@[i].type_.0,
        info.functions@.len() == module.functions@.len(),
        forall|i: int|
            0 <= i < module.functions@.len() ==> {
                let function = module.functions@[i];
                &&& (#[trigger] info.functions@[i]).type_.params@ == function.type_.params@
                &&& info.functions@[i].type_.results@ == function.type_.results@
                &&& match (info.functions@[i].import, function.import) {
                    (Some((from, name)), Some((module, field))) => from@ == module@ && name@ == field@,
                    (None, None) => true,
                    _ => false,
                }
                &&& match (info.functions@[i].export, function.export) {
                    (Some(name), Some(export)) => name@ == export@,
                    (None, None) => true,
                    _ => false,
                }
            },
        info.start == module.start,
        match info.table_export_name {
            Some(name) => module.tables@.len() > 0 && (module.tables@[0].export matches Some(export) && name@
                == export@),
            None => module.tables@.len() > 0 ==> module.tables@[0].export is None,
        },
{
    assert forall|i: int| 0 <= i < module.functions@.len() implies {
        &&& (#[trigger] info.functions@[i]).type_.params@ == module.functions@[i].type_.params@
        &&& info.functions@[i].type_.results@ == module.functions@[i].type_.results@
    } by {
        let (a, b) = (info.functions@[i].type_, module.functions@[i].type_);
        assert(a@ == b@);
        assert(a@.params == a.params@ && b@.params == b.params@);
        assert(a@.results == a.results@ && b@.results == b.results@);
    }
}

/// An upper bound on the number of hooks that the first `count` functions can need: two for each
/// instruction, and three for entry, start and return.
pub open spec fn hooks_needed(module: Module, count: nat) -> nat
    decreases count,
{
    if count == 0 {
        0
    } else {
        hooks_needed(module, (count - 1) as nat) + match module.functions@[count - 1].code {
            Some(code) => 2 * code.body@.len() + 3,
            None => 0,
        }
    }
}

proof fn lemma_hooks_needed(module: Module, count: nat)
    ensures
        hook_bound(module, count) == hooks_needed(module, count),
    decreases count,
{
    if count > 0 {
        lemma_hooks_needed(module, (count - 1) as nat);
    }
}

/// Nothing else keeps a module from being instrumented: it can be if the body of each of its functions is
/// one block, well nested, in which each instruction is admitted where it stands, and the functions and
/// hooks can be numbered.
pub proof fn law_admitted_modules_are_instrumentable(module: Module)
    requires
        module.functions@.len() + hooks_needed(module, module.functions@.len()) <= usize::MAX,
        forall|f: int|
            0 <= f < module.functions@.len() && (#[trigger] module.functions@[f]).code is Some ==> {
                let scope = as_declared(module, f);
                &&& closing(nestings(scope.body), 0, 0) == Some(scope.body.len() - 1)
                &&& forall|k: nat|
                    k < scope.body.len() && (#[trigger] progress(scope, k)) is Some ==> admits(
                        scope,
                        progress(scope, k)->0.walked,
                        k as int,
                        scope.body[k as int],
                    )
            },
    ensures
        instrumentable(module),
{
    lemma_hooks_needed(module, module.functions@.len());
    assert forall|f: int|
        0 <= f < module.functions@.len() && (#[trigger] module.functions@[f]).code is Some implies walkable(
        scope_of(module, f),
    ) by {
        lemma_as_declared(module, f);
        let scope = as_declared(module, f);
        assert(nestings(scope.body).len() == scope.body.len());
        lemma_admitted(scope, scope.body.len());
    }
}

proof fn lemma_admitted(scope: Scope, count: nat)
    requires
        count <= scope.body.len(),
        closing(nestings(scope.body), 0, 0) == Some(scope.body.len() - 1),
        forall|k: nat|
            k < scope.body.len() && (#[trigger] progress(scope, k)) is Some ==> admits(
                scope,
                progress(scope, k)->0.walked,
                k as int,
                scope.body[k as int],
            ),
    ensures
        progress(scope, count) is Some,
    decreases count,
{
    assert(nestings(scope.body).len() == scope.body.len());
    if count > 0 {
        lemma_admitted(scope, (count - 1) as nat);
    }
}

} // verus!
