//! What holds of whole functions: an instrumented function runs as the function did, through all
//! blocks and branches, and the hooks are told the run.
use vstd::prelude::*;

use crate::add_hooks::lemma_last_is_end;
use crate::ast::{BlockType, FunctionIdx, GlobalIdx, GlobalOp, Instr, InstrIdx, Signature, Val, ValType};
use crate::block_stack::{closing, nesting_of, nestings, switching, Nesting};
use crate::chunk_lemmas::{
    event, fits, has_operands, has_variables, is_straight, lemma_straight, signature_in, told,
    undisturbed,
};
use crate::control_laws::{
    law_control_code_only_observes, law_entry_is_reported, law_implicit_return_is_reported,
    law_start_is_reported_once, told_ahead, told_behind,
};
use crate::hook_map::HookOp;
use crate::laws::{
    lemma_fewer_variables, lemma_same_variables, lemma_shape, lemma_trace_grows, lemma_typed_step,
    lemma_widened_effect, own_part, runs_in, widens,
};
use crate::layout::{
    ahead, behind, code_for, law_blocks_correspond, lemma_closing_skips, lemma_control_quiet,
    lemma_last_is_not_straight, lemma_nesting_of_code, lemma_nesting_of_plain, lemma_parts,
    lemma_positions, lemma_quiet_inside, lemma_step_at, own_code, place, position,
};
use crate::machine::{ready, run, run_instr, top, typed, Event, Host, State};
use crate::machine_lemmas::{lemma_run_add, location_outside};
use crate::program::{
    after_instr, after_step, after_steps, block_results, branched, called, entered, is_at_end, nesting,
    popped, topmost, Config, Frame,
};
use crate::structure_laws::{
    control, lemma_control_add, lemma_control_of_prologue, lemma_last_code_is_longer,
    lemma_straight_is_quiet, lemma_trace_prefix, quiet,
};
use crate::trace::{epilogue, fresh, plain, prologue, returns_implicitly, Emit};
use crate::type_stack::{applied, ended, unwound, with_values, TypeStackElement};
use crate::typing::{
    all_live, entry_of, lemma_applied, lemma_block_types, lemma_leaves, lemma_live_closed,
    lemma_live_opened, lemma_typed_applied, lemma_typed_branched, lemma_typed_entered, lemma_typed_left,
    lemma_typed_popped, lemma_types_at, live_at, marks, noted, typed_frame, typed_point, types_at,
};
use crate::walk::{
    admits, instrumented, instrumented_vars, lemma_walkable_prefix, on_stack, progress, signature_at,
    site_at, val_at, walkable, Scope,
};

verus! {

/// Steps one after the other.
proof fn lemma_steps_add(host: Host, code: Seq<Emit>, c: Config, a: nat, b: nat)
    ensures
        after_steps(host, code, c, a + b) == match after_steps(host, code, c, a) {
            Some(d) => after_steps(host, code, d, b),
            None => None,
        },
    decreases b,
{
    if b > 0 {
        lemma_steps_add(host, code, c, a, (b - 1) as nat);
    }
}

/// A single step.
proof fn lemma_one_step(host: Host, code: Seq<Emit>, c: Config)
    ensures
        after_steps(host, code, c, 1) == after_step(host, code, c),
{
    reveal_with_fuel(after_steps, 2);
}

/// Quiet code runs step by step as it runs as a whole.
proof fn lemma_quiet_steps(host: Host, code: Seq<Emit>, part: Seq<Emit>, c: Config, t: State)
    requires
        0 <= c.at,
        c.at + part.len() <= code.len(),
        forall|i: int| 0 <= i < part.len() ==> code[c.at + i] == #[trigger] part[i],
        quiet(part),
        run(host, part, c.state) == Some(t),
    ensures
        after_steps(host, code, c, part.len()) == Some(Config { at: c.at + part.len(), state: t, ..c }),
    decreases part.len(),
{
    reveal(quiet);
    if part.len() > 0 {
        let fewer = part.drop_last();
        let last = part.last();
        assert forall|i: int| 0 <= i < fewer.len() implies code[c.at + i] == #[trigger] fewer[i] by {
            assert(part[i] == fewer[i]);
        }
        assert forall|i: int| 0 <= i < fewer.len() implies (
        #[trigger] fewer[i] matches Emit::Plain(instr) ==> is_straight(instr)) by {
            assert(part[i] == fewer[i]);
        }
        let u = run(host, fewer, c.state)->0;
        lemma_quiet_steps(host, code, fewer, c, u);
        assert(part[part.len() - 1] == last);
        assert(code[c.at + fewer.len()] == last);
    }
}

/// How many blocks are open before the instruction with index `k`.
pub open spec fn open_blocks(body: Seq<Instr>, k: int) -> int
    decreases k,
{
    if k <= 0 {
        1
    } else {
        open_blocks(body, k - 1) + match nesting_of(body[k - 1]) {
            Nesting::Open => 1int,
            Nesting::Close => -1int,
            _ => 0int,
        }
    }
}

/// Behind the end of a block, or at its second branch, the blocks around it are open.
proof fn lemma_open_behind(body: Seq<Instr>, k: int, depth: nat)
    requires
        0 <= k,
    ensures
        closing(nestings(body), k, depth) matches Some(end) ==> {
            &&& k <= end < body.len()
            &&& body[end] is End
            &&& open_blocks(body, end + 1) == open_blocks(body, k) - depth - 1
        },
        switching(nestings(body), k, depth) matches Some(switch) ==> {
            &&& k <= switch < body.len()
            &&& body[switch] is Else
            &&& open_blocks(body, switch + 1) == open_blocks(body, k) - depth
        },
    decreases body.len() - k,
{
    if k < body.len() {
        assert(nestings(body)[k] == nesting_of(body[k]));
        lemma_open_behind(body, k + 1, depth);
        lemma_open_behind(body, k + 1, depth + 1);
        if depth > 0 {
            lemma_open_behind(body, k + 1, (depth - 1) as nat);
        }
    }
}

/// Whether two open blocks correspond: the one of the function with the given number, and the one
/// of the instrumented function.
pub open spec fn same_block(scope: Scope, number: int, before: Frame, after: Frame) -> bool {
    &&& 0 <= before.target <= scope.body.len()
    &&& open_blocks(scope.body, before.target) == number
    &&& after.target == position(scope, before.target)
    &&& after.taken == before.taken
    &&& after.results == before.results
    &&& after.height == before.height
}

/// Whether open blocks and state correspond at two points of a run: of the one in the function, and
/// of the one in the instrumented function, which has variables for the hooks behind the function's
/// own ones.
pub open spec fn same_rest(host: Host, scope: Scope, before: Config, after: Config) -> bool {
    &&& after.frames.len() == before.frames.len()
    &&& forall|i: int|
        #![trigger before.frames[i]]
        #![trigger after.frames[i]]
        0 <= i < before.frames.len() ==> same_block(scope, i, before.frames[i], after.frames[i])
    &&& before.frames.len() > 0 ==> before.frames[0].results == scope.results
        && before.frames[0].taken == scope.results
    &&& widens(
        before.state,
        after.state,
        scope.params.len() + scope.locals.len(),
        scope.globals.len(),
    )
    &&& has_variables(after.state, instrumented_vars(scope))
    &&& runs_in(host, scope, after.state)
}

/// Whether two points of a run correspond: the one in the function, and the one in the instrumented
/// function.
pub open spec fn same_point(host: Host, scope: Scope, before: Config, after: Config) -> bool {
    &&& 0 <= before.at <= scope.body.len()
    &&& after.at == position(scope, before.at)
    &&& before.frames.len() == open_blocks(scope.body, before.at)
    &&& same_rest(host, scope, before, after)
}

/// The globals behind the module's own ones.
pub open spec fn other_globals(scope: Scope, s: State) -> Seq<Val> {
    s.globals.skip(scope.globals.len() as int)
}

/// Whether the walk has noted the right types for the instruction that comes next. It notes types
/// for `drop` and `select`; for all other instructions they are known without.
spec fn types_are_noted(host: Host, scope: Scope, c: Config) -> bool {
    let instr = scope.body[c.at];
    0 <= c.at < scope.body.len() && (instr is Drop || instr is Select) ==> site_at(
        scope,
        progress(scope, c.at as nat)->0.walked,
        instr,
    ).sig == signature_in(host, instr, c.state)
}

/// The variables that the walk knows at an instruction, and those for the hooks of that instruction,
/// are among those of the instrumented function.
proof fn lemma_variables_at(scope: Scope, k: int, s: State)
    requires
        walkable(scope),
        0 <= k < scope.body.len(),
        has_variables(s, instrumented_vars(scope)),
    ensures
        ({
            let w = progress(scope, k as nat)->0.walked;
            &&& progress(scope, k as nat) is Some
            &&& admits(scope, w, k, scope.body[k])
            &&& has_variables(s, w.vars + fresh(scope.body[k], site_at(scope, w, scope.body[k]).sig))
            &&& scope.params.len() + scope.locals.len() <= w.vars.len()
            &&& w.vars.len() <= instrumented_vars(scope).len()
        }),
{
    let len = scope.body.len();
    lemma_walkable_prefix(scope, (k + 1) as nat, len);
    lemma_trace_grows(scope, (k + 1) as nat, len);
    lemma_trace_grows(scope, 0, k as nat);
    let p = progress(scope, len)->0.walked.vars;
    let q = progress(scope, (k + 1) as nat)->0.walked.vars;
    let all = instrumented_vars(scope);
    assert(all.take(q.len() as int) =~= q) by {
        assert(all.take(q.len() as int) =~= p.take(q.len() as int));
    }
    lemma_fewer_variables(s, all, q.len());
}

/// One step through a straight instruction.
proof fn lemma_straight_point(host: Host, scope: Scope, c: Config, c2: Config, d: Config) -> (m: nat)
    requires
        walkable(scope),
        scope.body.len() <= usize::MAX,
        0 <= c.at < scope.body.len(),
        is_straight(scope.body[c.at]),
        same_point(host, scope, c, d),
        types_are_noted(host, scope, c),
        after_step(host, plain(scope.body), c) == Some(c2),
    ensures
        after_steps(host, instrumented(scope), d, m) matches Some(d2) && same_point(host, scope, c2, d2)
            && d2.state.log == d.state.log + told(
            host,
            scope.func,
            InstrIdx(c.at as usize),
            scope.body[c.at],
            c.state,
            c2.state,
        ) && other_globals(scope, d2.state) == other_globals(scope, d.state),
{
    let k = c.at;
    let instr = scope.body[k];
    let n = scope.params.len() + scope.locals.len();
    let code = instrumented(scope);
    assert(plain(scope.body)[k] == Emit::Plain(instr));
    assert(run_instr(host, instr, c.state) == Some(c2.state));
    lemma_variables_at(scope, k, d.state);
    let w = progress(scope, k as nat)->0.walked;
    let site = site_at(scope, w, instr);
    assert(site.sig == signature_in(host, instr, d.state)) by {
        lemma_noted_signature(host, scope, c, d);
    }
    let u = lemma_typed_step(host, scope, w, k as nat, instr, n, c.state, c2.state, d.state);
    lemma_last_is_not_straight(scope, k);
    lemma_positions(scope, k);
    let part = code_for(scope, k);
    lemma_straight_is_quiet(scope.func, InstrIdx(k as usize), instr, site, w.vars, w.tables.len());
    assert forall|i: int| 0 <= i < part.len() implies code[d.at + i] == #[trigger] part[i] by {
        lemma_step_at(scope, k, i);
    }
    lemma_quiet_steps(host, code, part, d, u);
    lemma_same_variables(d.state, u, instrumented_vars(scope));
    assert(open_blocks(scope.body, k + 1) == open_blocks(scope.body, k));
    part.len()
}

/// The types that the walk has noted for a straight instruction are those in the run.
proof fn lemma_noted_signature(host: Host, scope: Scope, c: Config, d: Config)
    requires
        walkable(scope),
        0 <= c.at < scope.body.len(),
        is_straight(scope.body[c.at]),
        same_point(host, scope, c, d),
        types_are_noted(host, scope, c),
    ensures
        site_at(scope, progress(scope, c.at as nat)->0.walked, scope.body[c.at]).sig == signature_in(
            host,
            scope.body[c.at],
            d.state,
        ),
{
    let instr = scope.body[c.at];
    let s = d.state;
    lemma_variables_at(scope, c.at, s);
    let w = progress(scope, c.at as nat)->0.walked;
    match instr {
        Instr::Local(_, local) => {
            let all = w.vars + fresh(instr, site_at(scope, w, instr).sig);
            assert(typed(s.locals).take(all.len() as int)[local.0 as int] == all[local.0 as int]);
        },
        Instr::Global(_, global) => {
            assert(typed(s.globals).take(scope.globals.len() as int)[global.0 as int]
                == scope.globals[global.0 as int]);
        },
        _ => {},
    }
}

/// The hook calls ahead of the control instruction with index `k`. Where the function returns
/// implicitly, its last instruction has the report of that ahead of it.
pub open spec fn told_before(scope: Scope, k: int, s: State) -> Seq<Event> {
    let w = progress(scope, k as nat)->0.walked;
    let instr = scope.body[k];
    told_ahead(
        scope.func,
        InstrIdx(k as usize),
        instr,
        site_at(scope, w, instr),
        w.tables.len(),
        s,
    ) + if k + 1 == scope.body.len() && returns_implicitly(scope.body) {
        seq![
            event(
                HookOp::Return,
                scope.results,
                location_outside(scope.func),
                top(s.stack, scope.results.len()),
            ),
        ]
    } else {
        seq![]
    }
}

/// The hook calls behind the instruction with index `k`, where the instruction enters a block.
pub open spec fn told_inside(scope: Scope, k: int) -> Seq<Event> {
    let instr = scope.body[k];
    told_behind(
        scope.func,
        InstrIdx(k as usize),
        instr,
        site_at(scope, progress(scope, k as nat)->0.walked, instr),
    )
}

/// The operands that a control instruction finds on the stack.
spec fn operands_ready(scope: Scope, k: int, s: State) -> bool {
    &&& match scope.body[k] {
        Instr::If(_) | Instr::BrIf(_) | Instr::BrTable(_, _) => ready(s.stack, seq![ValType::I32]),
        Instr::Return => ready(s.stack, scope.results),
        _ => true,
    }
    &&& k + 1 == scope.body.len() ==> ready(s.stack, scope.results)
}

/// States that differ in nothing but the log and variables behind the first `n` are alike to a
/// function.
proof fn lemma_undisturbed_rest(host: Host, scope: Scope, c: Config, d: Config, u: State, n: nat)
    requires
        same_rest(host, scope, c, d),
        undisturbed(d.state, u, n),
        scope.params.len() + scope.locals.len() <= n <= d.state.locals.len(),
    ensures
        same_rest(host, scope, c, Config { state: u, ..d }),
{
    let own = (scope.params.len() + scope.locals.len()) as int;
    lemma_same_variables(d.state, u, instrumented_vars(scope));
    assert(u.locals.take(own) =~= u.locals.take(n as int).take(own));
    assert(d.state.locals.take(own) =~= d.state.locals.take(n as int).take(own));
}

/// How the code ahead of a control instruction runs.
proof fn lemma_run_ahead(host: Host, scope: Scope, k: int, s: State) -> (u: State)
    requires
        walkable(scope),
        scope.body.len() <= usize::MAX,
        0 <= k < scope.body.len(),
        !is_straight(scope.body[k]),
        has_variables(s, instrumented_vars(scope)),
        operands_ready(scope, k, s),
    ensures
        run(host, ahead(scope, k), s) == Some(u),
        undisturbed(s, u, progress(scope, k as nat)->0.walked.vars.len()),
        u.log == s.log + told_before(scope, k, s),
{
    let len = scope.body.len();
    let instr = scope.body[k];
    let at = InstrIdx(k as usize);
    lemma_variables_at(scope, k, s);
    let w = progress(scope, k as nat)->0.walked;
    let site = site_at(scope, w, instr);
    assert(typed(top(s.stack, 0)) =~= seq![]);
    let parts = law_control_code_only_observes(host, scope, w, at, instr, s, s);
    let first = run(host, parts.0, s)->0;
    let own = own_code(scope, k);
    let one = plain(seq![instr]);
    assert(own == parts.0 + one + parts.1);
    let events = told_ahead(scope.func, at, instr, site, w.tables.len(), s);
    lemma_parts(scope, k);
    if k + 1 == len && returns_implicitly(scope.body) {
        let vars = progress(scope, len)->0.walked.vars;
        let tail = epilogue(scope.func, scope.results, vars);
        assert(own.drop_last() =~= parts.0) by {
            lemma_last_is_not_straight(scope, k);
            assert(parts.1 =~= seq![]);
        }
        lemma_same_variables(s, first, instrumented_vars(scope));
        law_implicit_return_is_reported(host, scope.func, scope.results, vars, first);
        lemma_run_add(host, parts.0, tail.drop_last(), s);
        let u = run(host, tail.drop_last(), first)->0;
        let report = event(
            HookOp::Return,
            scope.results,
            location_outside(scope.func),
            top(s.stack, scope.results.len()),
        );
        assert(s.log + events + seq![report] =~= s.log + (events + seq![report]));
        let n = w.vars.len() as int;
        lemma_walkable_prefix(scope, k as nat, len);
        lemma_trace_grows(scope, k as nat, len);
        assert(u.locals.take(n) =~= u.locals.take(vars.len() as int).take(n));
        assert(first.locals.take(n) =~= first.locals.take(vars.len() as int).take(n));
        u
    } else {
        assert(ahead(scope, k) =~= parts.0);
        assert(events + seq![] =~= events);
        first
    }
}

/// Steps of the code of an instruction.
proof fn lemma_code_there(scope: Scope, k: int)
    requires
        walkable(scope),
        0 <= k < scope.body.len(),
        !is_straight(scope.body[k]),
    ensures
        ({
            let code = instrumented(scope);
            let (a, b) = (ahead(scope, k), behind(scope, k));
            let (begin, at) = (position(scope, k), place(scope, k));
            &&& 0 <= begin <= at
            &&& at == begin + a.len()
            &&& at + 1 + b.len() == position(scope, k + 1)
            &&& position(scope, k + 1) <= code.len()
            &&& code[at] == Emit::Plain(scope.body[k])
            &&& forall|i: int| 0 <= i < a.len() ==> code[begin + i] == #[trigger] a[i]
            &&& forall|i: int| 0 <= i < b.len() ==> code[at + 1 + i] == #[trigger] b[i]
        }),
{
    let code = instrumented(scope);
    let part = code_for(scope, k);
    let (a, b) = (ahead(scope, k), behind(scope, k));
    let (begin, at) = (position(scope, k), place(scope, k));
    let one = plain(seq![scope.body[k]]);
    lemma_parts(scope, k);
    lemma_positions(scope, k);
    assert(one.len() == 1);
    assert forall|i: int| 0 <= i < a.len() implies code[begin + i] == #[trigger] a[i] by {
        lemma_step_at(scope, k, i);
        assert(part[i] == a[i]);
    }
    assert forall|i: int| 0 <= i < b.len() implies code[at + 1 + i] == #[trigger] b[i] by {
        lemma_step_at(scope, k, a.len() + 1 + i);
        assert(part[a.len() + 1 + i] == b[i]);
    }
    lemma_step_at(scope, k, a.len() as int);
    assert(part[a.len() as int] == one[0]);
}

/// The steps up to a control instruction.
proof fn lemma_steps_ahead(host: Host, scope: Scope, c: Config, d: Config) -> (d1: Config)
    requires
        walkable(scope),
        scope.body.len() <= usize::MAX,
        0 <= c.at < scope.body.len(),
        !is_straight(scope.body[c.at]),
        same_point(host, scope, c, d),
        operands_ready(scope, c.at, c.state),
    ensures
        after_steps(host, instrumented(scope), d, ahead(scope, c.at).len()) == Some(d1),
        d1.at == place(scope, c.at),
        instrumented(scope)[d1.at] == Emit::Plain(scope.body[c.at]),
        0 <= d1.at < instrumented(scope).len(),
        same_rest(host, scope, c, d1),
        d1.state.log == d.state.log + told_before(scope, c.at, c.state),
        d1.state.globals == d.state.globals,
{
    let k = c.at;
    let u = lemma_run_ahead(host, scope, k, d.state);
    lemma_parts(scope, k);
    lemma_code_there(scope, k);
    lemma_quiet_steps(host, instrumented(scope), ahead(scope, k), d, u);
    lemma_variables_at(scope, k, d.state);
    lemma_undisturbed_rest(
        host,
        scope,
        c,
        d,
        u,
        progress(scope, k as nat)->0.walked.vars.len(),
    );
    let d1 = Config { at: place(scope, k), state: u, ..d };
    assert(told_before(scope, k, d.state) == told_before(scope, k, c.state));
    assert(same_rest(host, scope, c, d1));
    d1
}

/// The steps behind an instruction that enters a block.
proof fn lemma_steps_behind(host: Host, scope: Scope, k: int, c: Config, d: Config) -> (d1: Config)
    requires
        walkable(scope),
        scope.body.len() <= usize::MAX,
        0 <= k < scope.body.len(),
        !is_straight(scope.body[k]),
        scope.body[k] !is BrIf,
        scope.body[k] !is BrTable,
        scope.body[k] !is Return,
        d.at == place(scope, k) + 1,
        same_rest(host, scope, c, d),
    ensures
        after_steps(host, instrumented(scope), d, behind(scope, k).len()) == Some(d1),
        d1.at == position(scope, k + 1),
        same_rest(host, scope, c, d1),
        d1.state.log == d.state.log + told_inside(scope, k),
        d1.state.globals == d.state.globals,
{
    let instr = scope.body[k];
    let s = if instr is If {
        d.state.with_stack(d.state.stack.push(Val::I32(0)))
    } else {
        d.state
    };
    lemma_variables_at(scope, k, s);
    let w = progress(scope, k as nat)->0.walked;
    assert(typed(top(s.stack, 0)) =~= seq![]);
    assert(instr is If ==> typed(top(s.stack, 1)) =~= seq![ValType::I32]);
    let parts = law_control_code_only_observes(
        host,
        scope,
        w,
        InstrIdx(k as usize),
        instr,
        s,
        d.state,
    );
    let u = run(host, behind(scope, k), d.state)->0;
    lemma_parts(scope, k);
    lemma_code_there(scope, k);
    lemma_quiet_steps(host, instrumented(scope), behind(scope, k), d, u);
    lemma_undisturbed_rest(host, scope, c, d, u, w.vars.len());
    let d1 = Config { at: position(scope, k + 1), state: u, ..d };
    assert(same_rest(host, scope, c, d1));
    d1
}

/// The hook calls that report the step from `c` to `c2` of the function.
pub open spec fn told_by(host: Host, scope: Scope, c: Config, c2: Config) -> Seq<Event> {
    let k = c.at;
    let instr = scope.body[k];
    if is_straight(instr) {
        told(host, scope.func, InstrIdx(k as usize), instr, c.state, c2.state)
    } else {
        told_before(scope, k, c.state) + match instr {
            Instr::Block(_) | Instr::Loop(_) => told_inside(scope, k),
            Instr::If(_) => if topmost(c.state) != 0 {
                told_inside(scope, k)
            } else {
                match switching(nestings(scope.body), k + 1, 0) {
                    Some(switch) => told_inside(scope, switch),
                    None => seq![],
                }
            },
            _ => seq![],
        }
    }
}

/// A step of the function from a point to which one of the instrumented function corresponds.
spec fn steps_on(host: Host, scope: Scope, c: Config, c2: Config, d: Config) -> bool {
    &&& walkable(scope)
    &&& scope.body.len() <= usize::MAX
    &&& 0 <= c.at < scope.body.len()
    &&& same_point(host, scope, c, d)
    &&& types_are_noted(host, scope, c)
    &&& after_step(host, plain(scope.body), c) == Some(c2)
}

/// With `count` steps the instrumented function comes from `d` to a point to which `c2` corresponds.
pub open spec fn keeps_up(host: Host, scope: Scope, c: Config, c2: Config, d: Config, count: nat) -> bool {
    after_steps(host, instrumented(scope), d, count) matches Some(d2) && same_point(host, scope, c2, d2)
        && d2.state.log == d.state.log + told_by(host, scope, c, c2) && other_globals(scope, d2.state)
        == other_globals(scope, d.state)
}

/// The instruction that a step of the function runs.
proof fn lemma_steps_on(host: Host, scope: Scope, c: Config, c2: Config, d: Config)
    requires
        steps_on(host, scope, c, c2, d),
    ensures
        after_instr(host, plain(scope.body), scope.body[c.at], c) == Some(c2),
        nesting(plain(scope.body)) == nestings(scope.body),
        open_blocks(scope.body, c.at + 1) == open_blocks(scope.body, c.at) + match nesting_of(
            scope.body[c.at],
        ) {
            Nesting::Open => 1int,
            Nesting::Close => -1int,
            _ => 0int,
        },
{
    lemma_nesting_of_plain(scope.body);
    assert(plain(scope.body)[c.at] == Emit::Plain(scope.body[c.at]));
}

/// Where the block that begins or switches at an instruction ends, in both functions.
proof fn lemma_block_ends(scope: Scope, k: int)
    requires
        walkable(scope),
        0 <= k < scope.body.len(),
        !is_straight(scope.body[k]),
    ensures
        ({
            let before = nestings(scope.body);
            let after = nesting(instrumented(scope));
            let at = place(scope, k) + 1;
            &&& match closing(before, k + 1, 0) {
                Some(end) => {
                    &&& closing(after, at, 0) == Some(position(scope, end + 1) - 1)
                    &&& k < end < scope.body.len()
                    &&& open_blocks(scope.body, end + 1) == open_blocks(scope.body, k + 1) - 1
                },
                None => closing(after, at, 0) is None,
            }
            &&& match switching(before, k + 1, 0) {
                Some(switch) => {
                    &&& switching(after, at, 0) == Some(place(scope, switch))
                    &&& k < switch < scope.body.len()
                    &&& scope.body[switch] is Else
                    &&& open_blocks(scope.body, switch + 1) == open_blocks(scope.body, k + 1)
                },
                None => switching(after, at, 0) is None,
            }
        }),
{
    let after = nesting(instrumented(scope));
    lemma_nesting_of_code(scope, k);
    lemma_closing_skips(after, place(scope, k) + 1, position(scope, k + 1), 0);
    law_blocks_correspond(scope, k + 1, 0);
    lemma_open_behind(scope.body, k + 1, 0);
}

/// A branch goes to corresponding points.
proof fn lemma_branched(host: Host, scope: Scope, c: Config, d: Config, label: int, c2: Config)
    requires
        same_rest(host, scope, c, d),
        branched(c, label) == Some(c2),
    ensures
        branched(d, label) matches Some(d2) && same_point(host, scope, c2, d2) && d2.state.log
            == d.state.log && d2.state.globals == d.state.globals,
{
    let k = c.frames.len() - 1 - label;
    let frame = c.frames[k];
    assert(same_block(scope, k, frame, d.frames[k]));
    let d2 = branched(d, label)->0;
    assert forall|i: int| 0 <= i < k implies same_block(
        scope,
        i,
        #[trigger] c2.frames[i],
        d2.frames[i],
    ) by {
        assert(c2.frames[i] == c.frames[i]);
        assert(d2.frames[i] == d.frames[i]);
    }
}

/// Blocks that are entered at corresponding points correspond.
proof fn lemma_entered(host: Host, scope: Scope, c: Config, d: Config, at: int, at2: int, target: int, taken: Seq<ValType>, results: Seq<ValType>)
    requires
        same_rest(host, scope, c, d),
        0 <= target <= scope.body.len(),
        open_blocks(scope.body, target) == c.frames.len(),
        c.frames.len() > 0,
    ensures
        same_rest(
            host,
            scope,
            entered(c, at, target, taken, results),
            entered(d, at2, position(scope, target), taken, results),
        ),
{
    let c2 = entered(c, at, target, taken, results);
    let d2 = entered(d, at2, position(scope, target), taken, results);
    assert forall|i: int| 0 <= i < c2.frames.len() implies same_block(
        scope,
        i,
        #[trigger] c2.frames[i],
        d2.frames[i],
    ) by {
        if i < c.frames.len() {
            assert(c2.frames[i] == c.frames[i]);
            assert(d2.frames[i] == d.frames[i]);
        }
    }
}

/// Blocks that are left at corresponding points correspond.
proof fn lemma_left(host: Host, scope: Scope, c: Config, d: Config, at: int, at2: int)
    requires
        same_rest(host, scope, c, d),
        c.frames.len() > 0,
    ensures
        same_rest(
            host,
            scope,
            (Config { at, frames: c.frames.drop_last(), ..c }),
            (Config { at: at2, frames: d.frames.drop_last(), ..d }),
        ),
{
    let c2 = Config { at, frames: c.frames.drop_last(), ..c };
    let d2 = Config { at: at2, frames: d.frames.drop_last(), ..d };
    assert forall|i: int| 0 <= i < c2.frames.len() implies same_block(
        scope,
        i,
        #[trigger] c2.frames[i],
        d2.frames[i],
    ) by {
        assert(c2.frames[i] == c.frames[i]);
        assert(d2.frames[i] == d.frames[i]);
    }
}

/// Some block is open wherever there is an instruction.
proof fn lemma_open_somewhere(host: Host, scope: Scope, c: Config, c2: Config, d: Config)
    requires
        steps_on(host, scope, c, c2, d),
        !is_straight(scope.body[c.at]),
        c.frames.len() > 0,
    ensures
        scope.body[c.at] is Return ==> ready(c.state.stack, scope.results),
        c.at + 1 == scope.body.len() ==> ready(c.state.stack, scope.results),
        operands_ready(scope, c.at, c.state),
{
    let k = c.at;
    lemma_steps_on(host, scope, c, c2, d);
    lemma_last_is_not_straight(scope, k);
    if k + 1 == scope.body.len() {
        lemma_walkable_prefix(scope, 0, scope.body.len());
        lemma_open_behind(scope.body, 0, 0);
        assert(open_blocks(scope.body, k + 1) == 0);
        assert(c.frames.len() == 1);
        assert(c.frames.last() == c.frames[0]);
    }
}

proof fn lemma_unreachable_point(host: Host, scope: Scope, c: Config, c2: Config, d: Config) -> (m: nat)
    requires
        steps_on(host, scope, c, c2, d),
        scope.body[c.at] is Unreachable,
    ensures
        keeps_up(host, scope, c, c2, d, m),
{
    lemma_steps_on(host, scope, c, c2, d);
    0
}

proof fn lemma_block_point(host: Host, scope: Scope, c: Config, c2: Config, d: Config) -> (m: nat)
    requires
        steps_on(host, scope, c, c2, d),
        scope.body[c.at] is Block,
        c.frames.len() > 0,
    ensures
        keeps_up(host, scope, c, c2, d, m),
{
    let k = c.at;
    let code = instrumented(scope);
    lemma_steps_on(host, scope, c, c2, d);
    lemma_open_somewhere(host, scope, c, c2, d);
    let a = ahead(scope, k).len();
    let d1 = lemma_steps_ahead(host, scope, c, d);
    let before = told_before(scope, k, c.state);
    lemma_block_ends(scope, k);
    let ty = scope.body[k]->Block_0;
    let end = closing(nestings(scope.body), k + 1, 0)->0;
    let d2 = entered(d1, d1.at + 1, position(scope, end + 1), block_results(ty), block_results(ty));
    assert(after_step(host, code, d1) == Some(d2));
    lemma_one_step(host, code, d1);
    lemma_steps_add(host, code, d, a, 1);
    lemma_entered(host, scope, c, d1, k + 1, d1.at + 1, end + 1, block_results(ty), block_results(ty));
    let d3 = lemma_steps_behind(host, scope, k, c2, d2);
    lemma_steps_add(host, code, d, a + 1, behind(scope, k).len());
    assert(d.state.log + before + told_inside(scope, k) =~= d.state.log + (before + told_inside(scope, k)));
    a + 1 + behind(scope, k).len()
}

proof fn lemma_loop_point(host: Host, scope: Scope, c: Config, c2: Config, d: Config) -> (m: nat)
    requires
        steps_on(host, scope, c, c2, d),
        scope.body[c.at] is Loop,
        c.frames.len() > 0,
    ensures
        keeps_up(host, scope, c, c2, d, m),
{
    let k = c.at;
    let code = instrumented(scope);
    lemma_steps_on(host, scope, c, c2, d);
    lemma_open_somewhere(host, scope, c, c2, d);
    let a = ahead(scope, k).len();
    let d1 = lemma_steps_ahead(host, scope, c, d);
    let before = told_before(scope, k, c.state);
    lemma_loop_comes_first(scope, k);
    let ty = scope.body[k]->Loop_0;
    let d2 = entered(d1, d1.at + 1, position(scope, k), seq![], block_results(ty));
    assert(after_step(host, code, d1) == Some(d2));
    lemma_one_step(host, code, d1);
    lemma_steps_add(host, code, d, a, 1);
    lemma_entered(host, scope, c, d1, k + 1, d1.at + 1, k, seq![], block_results(ty));
    let d3 = lemma_steps_behind(host, scope, k, c2, d2);
    lemma_steps_add(host, code, d, a + 1, behind(scope, k).len());
    assert(d.state.log + before + told_inside(scope, k) =~= d.state.log + (before + told_inside(scope, k)));
    a + 1 + behind(scope, k).len()
}

proof fn lemma_if_taken_point(host: Host, scope: Scope, c: Config, c2: Config, d: Config) -> (m: nat)
    requires
        steps_on(host, scope, c, c2, d),
        scope.body[c.at] is If,
        c.frames.len() > 0,
        topmost(c.state) != 0,
    ensures
        keeps_up(host, scope, c, c2, d, m),
{
    let k = c.at;
    let code = instrumented(scope);
    lemma_steps_on(host, scope, c, c2, d);
    lemma_open_somewhere(host, scope, c, c2, d);
    let a = ahead(scope, k).len();
    let d1 = lemma_steps_ahead(host, scope, c, d);
    let before = told_before(scope, k, c.state);
    lemma_block_ends(scope, k);
    let ty = scope.body[k]->If_0;
    let results = block_results(ty);
    let end = closing(nestings(scope.body), k + 1, 0)->0;
    let (rest, rest1) = (popped(c), popped(d1));
    assert(same_rest(host, scope, rest, rest1));
    lemma_one_step(host, code, d1);
    lemma_steps_add(host, code, d, a, 1);
    let d2 = entered(rest1, d1.at + 1, position(scope, end + 1), results, results);
    assert(after_step(host, code, d1) == Some(d2));
    lemma_entered(host, scope, rest, rest1, k + 1, d1.at + 1, end + 1, results, results);
    let d3 = lemma_steps_behind(host, scope, k, c2, d2);
    lemma_steps_add(host, code, d, a + 1, behind(scope, k).len());
    let inside = told_inside(scope, k);
    assert(d.state.log + before + inside =~= d.state.log + (before + inside));
    a + 1 + behind(scope, k).len()
}

proof fn lemma_if_switched_point(host: Host, scope: Scope, c: Config, c2: Config, d: Config) -> (m: nat)
    requires
        steps_on(host, scope, c, c2, d),
        scope.body[c.at] is If,
        c.frames.len() > 0,
        topmost(c.state) == 0,
        switching(nestings(scope.body), c.at + 1, 0) is Some,
    ensures
        keeps_up(host, scope, c, c2, d, m),
{
    let k = c.at;
    let code = instrumented(scope);
    lemma_steps_on(host, scope, c, c2, d);
    lemma_open_somewhere(host, scope, c, c2, d);
    let a = ahead(scope, k).len();
    let d1 = lemma_steps_ahead(host, scope, c, d);
    let before = told_before(scope, k, c.state);
    lemma_block_ends(scope, k);
    let ty = scope.body[k]->If_0;
    let results = block_results(ty);
    let end = closing(nestings(scope.body), k + 1, 0)->0;
    let (rest, rest1) = (popped(c), popped(d1));
    assert(same_rest(host, scope, rest, rest1));
    lemma_one_step(host, code, d1);
    lemma_steps_add(host, code, d, a, 1);
    let switch = switching(nestings(scope.body), k + 1, 0)->0;
    let at2 = place(scope, switch) + 1;
    let d2 = entered(rest1, at2, position(scope, end + 1), results, results);
    assert(after_step(host, code, d1) == Some(d2));
    lemma_entered(host, scope, rest, rest1, switch + 1, at2, end + 1, results, results);
    let d3 = lemma_steps_behind(host, scope, switch, c2, d2);
    lemma_steps_add(host, code, d, a + 1, behind(scope, switch).len());
    let inside = told_inside(scope, switch);
    assert(d.state.log + before + inside =~= d.state.log + (before + inside));
    a + 1 + behind(scope, switch).len()
}

proof fn lemma_if_skipped_point(host: Host, scope: Scope, c: Config, c2: Config, d: Config) -> (m: nat)
    requires
        steps_on(host, scope, c, c2, d),
        scope.body[c.at] is If,
        c.frames.len() > 0,
        topmost(c.state) == 0,
        switching(nestings(scope.body), c.at + 1, 0) is None,
    ensures
        keeps_up(host, scope, c, c2, d, m),
{
    let k = c.at;
    let code = instrumented(scope);
    lemma_steps_on(host, scope, c, c2, d);
    lemma_open_somewhere(host, scope, c, c2, d);
    let a = ahead(scope, k).len();
    let d1 = lemma_steps_ahead(host, scope, c, d);
    let before = told_before(scope, k, c.state);
    lemma_block_ends(scope, k);
    let ty = scope.body[k]->If_0;
    let results = block_results(ty);
    let end = closing(nestings(scope.body), k + 1, 0)->0;
    let (rest, rest1) = (popped(c), popped(d1));
    assert(same_rest(host, scope, rest, rest1));
    lemma_one_step(host, code, d1);
    lemma_steps_add(host, code, d, a, 1);
    let d2 = Config { at: position(scope, end + 1), ..rest1 };
    assert(after_step(host, code, d1) == Some(d2));
    assert(same_rest(host, scope, c2, d2));
    assert(d.state.log + before =~= d.state.log + (before + seq![]));
    a + 1
}

proof fn lemma_if_point(host: Host, scope: Scope, c: Config, c2: Config, d: Config) -> (m: nat)
    requires
        steps_on(host, scope, c, c2, d),
        scope.body[c.at] is If,
        c.frames.len() > 0,
    ensures
        keeps_up(host, scope, c, c2, d, m),
{
    if topmost(c.state) != 0 {
        lemma_if_taken_point(host, scope, c, c2, d)
    } else if switching(nestings(scope.body), c.at + 1, 0) is Some {
        lemma_if_switched_point(host, scope, c, c2, d)
    } else {
        lemma_if_skipped_point(host, scope, c, c2, d)
    }
}

proof fn lemma_else_point(host: Host, scope: Scope, c: Config, c2: Config, d: Config) -> (m: nat)
    requires
        steps_on(host, scope, c, c2, d),
        scope.body[c.at] is Else,
        c.frames.len() > 0,
    ensures
        keeps_up(host, scope, c, c2, d, m),
{
    let k = c.at;
    let code = instrumented(scope);
    lemma_steps_on(host, scope, c, c2, d);
    lemma_open_somewhere(host, scope, c, c2, d);
    let a = ahead(scope, k).len();
    let d1 = lemma_steps_ahead(host, scope, c, d);
    let before = told_before(scope, k, c.state);
    lemma_block_ends(scope, k);
    let end = closing(nestings(scope.body), k + 1, 0)->0;
    let d2 = Config { at: position(scope, end + 1), frames: d1.frames.drop_last(), ..d1 };
    assert(after_step(host, code, d1) == Some(d2));
    lemma_one_step(host, code, d1);
    lemma_steps_add(host, code, d, a, 1);
    lemma_left(host, scope, c, d1, end + 1, position(scope, end + 1));
    assert(d.state.log + before =~= d.state.log + (before + seq![]));
    a + 1
}

proof fn lemma_end_point(host: Host, scope: Scope, c: Config, c2: Config, d: Config) -> (m: nat)
    requires
        steps_on(host, scope, c, c2, d),
        scope.body[c.at] is End,
        c.frames.len() > 0,
    ensures
        keeps_up(host, scope, c, c2, d, m),
{
    let k = c.at;
    let code = instrumented(scope);
    lemma_steps_on(host, scope, c, c2, d);
    lemma_open_somewhere(host, scope, c, c2, d);
    let a = ahead(scope, k).len();
    let d1 = lemma_steps_ahead(host, scope, c, d);
    let before = told_before(scope, k, c.state);
    lemma_code_there(scope, k);
    let d2 = Config { at: position(scope, k + 1), frames: d1.frames.drop_last(), ..d1 };
    assert(same_block(scope, c.frames.len() - 1, c.frames.last(), d1.frames.last()));
    assert(after_step(host, code, d1) == Some(d2));
    lemma_one_step(host, code, d1);
    lemma_steps_add(host, code, d, a, 1);
    lemma_left(host, scope, c, d1, k + 1, position(scope, k + 1));
    assert(d.state.log + before =~= d.state.log + (before + seq![]));
    a + 1
}

proof fn lemma_br_point(host: Host, scope: Scope, c: Config, c2: Config, d: Config) -> (m: nat)
    requires
        steps_on(host, scope, c, c2, d),
        scope.body[c.at] is Br || scope.body[c.at] is Return,
        c.frames.len() > 0,
    ensures
        keeps_up(host, scope, c, c2, d, m),
{
    let k = c.at;
    let code = instrumented(scope);
    lemma_steps_on(host, scope, c, c2, d);
    lemma_open_somewhere(host, scope, c, c2, d);
    let a = ahead(scope, k).len();
    let d1 = lemma_steps_ahead(host, scope, c, d);
    let before = told_before(scope, k, c.state);
    let label = match scope.body[k] {
        Instr::Br(label) => label.0 as int,
        _ => c.frames.len() - 1,
    };
    lemma_branched(host, scope, c, d1, label, c2);
    lemma_one_step(host, code, d1);
    lemma_steps_add(host, code, d, a, 1);
    assert(d.state.log + before =~= d.state.log + (before + seq![]));
    a + 1
}

proof fn lemma_br_if_point(host: Host, scope: Scope, c: Config, c2: Config, d: Config) -> (m: nat)
    requires
        steps_on(host, scope, c, c2, d),
        scope.body[c.at] is BrIf,
        c.frames.len() > 0,
    ensures
        keeps_up(host, scope, c, c2, d, m),
{
    let k = c.at;
    let code = instrumented(scope);
    lemma_steps_on(host, scope, c, c2, d);
    lemma_open_somewhere(host, scope, c, c2, d);
    let a = ahead(scope, k).len();
    let d1 = lemma_steps_ahead(host, scope, c, d);
    let before = told_before(scope, k, c.state);
    lemma_code_there(scope, k);
    let label = (scope.body[k]->BrIf_0).0 as int;
    let (rest, rest1) = (popped(c), popped(d1));
    assert(same_rest(host, scope, rest, rest1));
    lemma_one_step(host, code, d1);
    lemma_steps_add(host, code, d, a, 1);
    if topmost(c.state) != 0 {
        lemma_branched(host, scope, rest, rest1, label, c2);
    } else {
        let d2 = Config { at: position(scope, k + 1), ..rest1 };
        assert(after_step(host, code, d1) == Some(d2));
        assert(same_rest(host, scope, c2, d2));
    }
    assert(d.state.log + before =~= d.state.log + (before + seq![]));
    a + 1
}

proof fn lemma_br_table_point(host: Host, scope: Scope, c: Config, c2: Config, d: Config) -> (m: nat)
    requires
        steps_on(host, scope, c, c2, d),
        scope.body[c.at] is BrTable,
        c.frames.len() > 0,
    ensures
        keeps_up(host, scope, c, c2, d, m),
{
    let k = c.at;
    let code = instrumented(scope);
    lemma_steps_on(host, scope, c, c2, d);
    lemma_open_somewhere(host, scope, c, c2, d);
    let a = ahead(scope, k).len();
    let d1 = lemma_steps_ahead(host, scope, c, d);
    let before = told_before(scope, k, c.state);
    let labels = scope.body[k]->BrTable_0;
    let index = (topmost(c.state) as u32) as int;
    let label = if index < labels@.len() {
        labels@[index].0 as int
    } else {
        (scope.body[k]->BrTable_1).0 as int
    };
    let (rest, rest1) = (popped(c), popped(d1));
    assert(same_rest(host, scope, rest, rest1));
    lemma_branched(host, scope, rest, rest1, label, c2);
    lemma_one_step(host, code, d1);
    lemma_steps_add(host, code, d, a, 1);
    assert(d.state.log + before =~= d.state.log + (before + seq![]));
    a + 1
}

/// The code for a loop begins with the loop.
proof fn lemma_loop_comes_first(scope: Scope, k: int)
    requires
        walkable(scope),
        0 <= k < scope.body.len(),
        scope.body[k] is Loop,
    ensures
        place(scope, k) == position(scope, k),
{
    lemma_last_is_not_straight(scope, k);
    lemma_parts(scope, k);
    let one = plain(seq![scope.body[k]]);
    assert(one.len() == 1);
    assert(code_for(scope, k).len() == 1 + behind(scope, k).len());
}

/// Until the end of a block no more blocks are closed than were opened.
proof fn lemma_open_until(body: Seq<Instr>, from: int, depth: nat, k: int)
    requires
        0 <= from <= k,
        closing(nestings(body), from, depth) matches Some(end) && k <= end,
    ensures
        open_blocks(body, k) >= open_blocks(body, from) - depth,
    decreases k - from,
{
    if from < k {
        assert(nestings(body)[from] == nesting_of(body[from]));
        let inner = match nesting_of(body[from]) {
            Nesting::Open => depth + 1,
            Nesting::Close => (depth - 1) as nat,
            _ => depth,
        };
        lemma_open_until(body, from + 1, inner, k);
        assert(open_blocks(body, from + 1) == open_blocks(body, from) + match nesting_of(body[from]) {
            Nesting::Open => 1int,
            Nesting::Close => -1int,
            _ => 0int,
        });
    }
}

/// One step of the function, and the steps of the instrumented function that correspond to it.
proof fn lemma_point(host: Host, scope: Scope, c: Config, c2: Config, d: Config) -> (m: nat)
    requires
        steps_on(host, scope, c, c2, d),
    ensures
        keeps_up(host, scope, c, c2, d, m),
{
    lemma_walkable_prefix(scope, 0, scope.body.len());
    lemma_open_until(scope.body, 0, 0, c.at);
    match scope.body[c.at] {
        Instr::Unreachable => lemma_unreachable_point(host, scope, c, c2, d),
        Instr::Block(_) => lemma_block_point(host, scope, c, c2, d),
        Instr::Loop(_) => lemma_loop_point(host, scope, c, c2, d),
        Instr::If(_) => lemma_if_point(host, scope, c, c2, d),
        Instr::Else => lemma_else_point(host, scope, c, c2, d),
        Instr::End => lemma_end_point(host, scope, c, c2, d),
        Instr::Br(_) => lemma_br_point(host, scope, c, c2, d),
        Instr::BrIf(_) => lemma_br_if_point(host, scope, c, c2, d),
        Instr::BrTable(_, _) => lemma_br_table_point(host, scope, c, c2, d),
        Instr::Return => lemma_br_point(host, scope, c, c2, d),
        _ => lemma_straight_point(host, scope, c, c2, d),
    }
}

/// The hook calls that report the first `count` steps of the function from `c` on.
pub open spec fn told_during(host: Host, scope: Scope, c: Config, count: nat) -> Seq<Event>
    decreases count,
{
    if count == 0 {
        seq![]
    } else {
        let before = after_steps(host, plain(scope.body), c, (count - 1) as nat)->0;
        let after = after_steps(host, plain(scope.body), c, count)->0;
        told_during(host, scope, c, (count - 1) as nat) + told_by(host, scope, before, after)
    }
}

/// The types that are noted for the operands of an instruction are theirs.
proof fn lemma_operands_noted(types: Seq<TypeStackElement>, sig: Signature, stack: Seq<Val>)
    requires
        typed(stack) == noted(types),
        applied(types, sig) is Some,
    ensures
        sig.params.len() <= stack.len(),
        forall|i: int|
            1 <= i <= sig.params.len() ==> #[trigger] val_at(types, i) == Some(
                stack[stack.len() - i].ty(),
            ),
{
    lemma_applied(types, sig);
    assert(typed(stack).len() == stack.len());
    assert forall|i: int| 1 <= i <= sig.params.len() implies #[trigger] val_at(types, i) == Some(
        stack[stack.len() - i].ty(),
    ) by {
        assert(typed(stack)[stack.len() - i] == stack[stack.len() - i].ty());
    }
}

/// The walk has noted the right types for a `drop` or `select` where it has noted the right types of
/// all that lies on the stack.
proof fn lemma_types_noted(host: Host, scope: Scope, c: Config)
    requires
        walkable(scope),
        typed_point(scope, c),
    ensures
        types_are_noted(host, scope, c),
{
    if 0 <= c.at < scope.body.len() && (scope.body[c.at] is Drop || scope.body[c.at] is Select) {
        let instr = scope.body[c.at];
        let types = types_at(scope, c.at);
        lemma_types_at(scope, c.at);
        let sig = signature_at(scope, progress(scope, c.at as nat)->0.walked, instr)->0;
        assert(progress(scope, c.at as nat)->0.walked.reached());
        assert(applied(types, sig) is Some);
        lemma_operands_noted(types, sig, c.state.stack);
        if instr is Select {
            assert(val_at(types, 3) == Some(c.state.stack[c.state.stack.len() - 3].ty()));
        } else {
            assert(val_at(types, 1) == Some(c.state.stack.last().ty()));
        }
        assert(sig =~= signature_in(host, instr, c.state));
    }
}

/// What is noted behind a straight instruction is right where what is noted before it is.
proof fn lemma_typed_straight(host: Host, scope: Scope, c: Config, c2: Config, d: Config)
    requires
        steps_on(host, scope, c, c2, d),
        is_straight(scope.body[c.at]),
        typed_point(scope, c),
    ensures
        typed_point(scope, c2),
{
    let instr = scope.body[c.at];
    let types = types_at(scope, c.at);
    lemma_steps_on(host, scope, c, c2, d);
    lemma_types_at(scope, c.at);
    lemma_noted_signature(host, scope, c, d);
    let w = progress(scope, c.at as nat)->0.walked;
    let sig = site_at(scope, w, instr).sig;
    assert(run_instr(host, instr, c.state) == Some(c2.state));
    assert(sig == signature_in(host, instr, c.state)) by {
        match instr {
            Instr::Local(_, local) => {
                assert(c.state.locals[local.0 as int] == d.state.locals[local.0 as int]);
            },
            Instr::Global(_, global) => {
                assert(c.state.globals[global.0 as int] == d.state.globals[global.0 as int]);
            },
            _ => {},
        }
    }
    lemma_shape(host, instr, c.state, c2.state);
    assert(w.reached());
    lemma_typed_applied(scope, types, on_stack(instr, sig), c, c2);
}

/// Blocks that lie within the function are inside of others.
proof fn lemma_inner_block(scope: Scope, k: int)
    requires
        walkable(scope),
        0 <= k < scope.body.len(),
    ensures
        open_blocks(scope.body, k) >= 1,
{
    lemma_walkable_prefix(scope, 0, scope.body.len());
    lemma_open_until(scope.body, 0, 0, k);
}

/// What is noted in a block that is entered, and behind it, is right.
proof fn lemma_typed_opened(host: Host, scope: Scope, c: Config, c2: Config, d: Config)
    requires
        steps_on(host, scope, c, c2, d),
        scope.body[c.at] is Block || scope.body[c.at] is Loop || scope.body[c.at] is If,
        typed_point(scope, c),
    ensures
        typed_point(scope, c2),
{
    let k = c.at;
    let types = types_at(scope, k);
    lemma_steps_on(host, scope, c, c2, d);
    lemma_types_at(scope, k);
    lemma_inner_block(scope, k);
    lemma_live_opened(scope, k, c.frames.len());
    match scope.body[k] {
        Instr::Block(ty) => {
            let lower = types.push(TypeStackElement::Begin(ty));
            let end = closing(nestings(scope.body), k + 1, 0)->0;
            assert(lower.take(lower.len() as int) =~= lower);
            lemma_block_types(scope, k + 1, 0, lower, ty);
            assert(lower.drop_last() =~= types);
            let results = block_results(ty);
            lemma_typed_entered(scope, types, ty, c, k + 1, end + 1, results);
        },
        Instr::Loop(ty) => {
            assert(with_values(types, seq![]) =~= types);
            lemma_typed_entered(scope, types, ty, c, k + 1, k, seq![]);
        },
        Instr::If(ty) => {
            let condition = Signature { params: seq![ValType::I32], results: seq![] };
            let rest = applied(types, condition)->0;
            let lower = rest.push(TypeStackElement::Begin(ty));
            let results = block_results(ty);
            let end = closing(nestings(scope.body), k + 1, 0)->0;
            lemma_typed_popped(scope, types, c);
            assert(lower.take(lower.len() as int) =~= lower);
            lemma_block_types(scope, k + 1, 0, lower, ty);
            assert(lower.drop_last() =~= rest);
            if topmost(c.state) != 0 {
                lemma_typed_entered(scope, rest, ty, popped(c), k + 1, end + 1, results);
            } else {
                match switching(nestings(scope.body), k + 1, 0) {
                    Some(switch) => {
                        lemma_typed_entered(scope, rest, ty, popped(c), switch + 1, end + 1, results);
                    },
                    None => {
                        assert(with_values(rest, results) =~= rest);
                    },
                }
            }
        },
        _ => {},
    }
}

/// What is noted behind a block that has come to its end is right.
proof fn lemma_typed_closed(host: Host, scope: Scope, c: Config, c2: Config, d: Config)
    requires
        steps_on(host, scope, c, c2, d),
        scope.body[c.at] is Else || scope.body[c.at] is End,
        typed_point(scope, c),
    ensures
        typed_point(scope, c2),
{
    let k = c.at;
    let types = types_at(scope, k);
    lemma_steps_on(host, scope, c, c2, d);
    lemma_types_at(scope, k);
    lemma_leaves(types);
    let (rest, ty) = unwound(types)->0;
    let results = block_results(ty);
    if scope.body[k] is Else {
        let lower = rest.push(TypeStackElement::Begin(ty));
        let end = closing(nestings(scope.body), k + 1, 0)->0;
        assert(lower.take(lower.len() as int) =~= lower);
        lemma_block_types(scope, k + 1, 0, lower, ty);
        assert(lower.drop_last() =~= rest);
        lemma_open_behind(scope.body, k + 1, 0);
        if end + 1 < scope.body.len() {
            lemma_inner_block(scope, end + 1);
        }
        if c.frames.len() > 1 {
            lemma_live_closed(scope, k, c.frames.len());
        }
        lemma_typed_left(scope, types, c, end + 1);
    } else {
        if k + 1 < scope.body.len() {
            lemma_inner_block(scope, k + 1);
        }
        if c.frames.len() > 1 {
            lemma_live_closed(scope, k, c.frames.len());
        }
        assert(ended(types)->0 =~= with_values(rest, results));
        lemma_typed_left(scope, types, c, k + 1);
    }
}

/// What is noted where a branch leads is right.
proof fn lemma_typed_jump(host: Host, scope: Scope, c: Config, c2: Config, d: Config)
    requires
        steps_on(host, scope, c, c2, d),
        scope.body[c.at] is Br || scope.body[c.at] is BrIf || scope.body[c.at] is BrTable
            || scope.body[c.at] is Return,
        typed_point(scope, c),
    ensures
        typed_point(scope, c2),
{
    let k = c.at;
    let types = types_at(scope, k);
    let condition = Signature { params: seq![ValType::I32], results: seq![] };
    lemma_steps_on(host, scope, c, c2, d);
    lemma_types_at(scope, k);
    match scope.body[k] {
        Instr::Br(label) => lemma_typed_branched(scope, types, c, label.0 as int, c2),
        Instr::Return => lemma_typed_branched(scope, types, c, c.frames.len() - 1, c2),
        Instr::BrIf(label) => {
            let rest = applied(types, condition)->0;
            lemma_typed_popped(scope, types, c);
            if topmost(c.state) != 0 {
                lemma_typed_branched(scope, rest, popped(c), label.0 as int, c2);
            }
        },
        Instr::BrTable(labels, default) => {
            let rest = applied(types, condition)->0;
            let index = (topmost(c.state) as u32) as int;
            lemma_typed_popped(scope, types, c);
            if index < labels@.len() {
                lemma_typed_branched(scope, rest, popped(c), labels@[index].0 as int, c2);
            } else {
                lemma_typed_branched(scope, rest, popped(c), default.0 as int, c2);
            }
        },
        _ => {},
    }
}

/// The walk knows the types on the stack, through all blocks and branches: where it has noted them
/// rightly before an instruction of the function, it has noted them rightly wherever a step leads.
pub proof fn law_types_are_followed_everywhere(host: Host, scope: Scope, c: Config, c2: Config, d: Config)
    requires
        walkable(scope),
        scope.body.len() <= usize::MAX,
        same_point(host, scope, c, d),
        typed_point(scope, c),
        after_step(host, plain(scope.body), c) == Some(c2),
    ensures
        typed_point(scope, c2),
{
    assert(plain(scope.body).len() == scope.body.len());
    lemma_types_noted(host, scope, c);
    match scope.body[c.at] {
        Instr::Unreachable => lemma_steps_on(host, scope, c, c2, d),
        Instr::Block(_) | Instr::Loop(_) | Instr::If(_) => lemma_typed_opened(host, scope, c, c2, d),
        Instr::Else | Instr::End => lemma_typed_closed(host, scope, c, c2, d),
        Instr::Br(_) | Instr::BrIf(_) | Instr::BrTable(_, _) | Instr::Return => lemma_typed_jump(
            host,
            scope,
            c,
            c2,
            d,
        ),
        _ => lemma_typed_straight(host, scope, c, c2, d),
    }
}

/// An instrumented function runs as the function did. Whatever steps the function takes from some
/// point on, through all blocks and branches, the instrumented function takes corresponding steps
/// from the corresponding point on: to the same instruction, with the same open blocks, the same
/// stack, globals and memory and the same values in the function's own variables. Globals that the
/// module has not of its own are left alone. And the hooks are told these steps, one after the other.
/// The point must be one that the function can come to: stack and open blocks have the types that
/// the walk has noted, as they have where the function begins and wherever it comes to from there.
pub proof fn law_function_runs_as_before(host: Host, scope: Scope, c: Config, d: Config, count: nat) -> (m: nat)
    requires
        walkable(scope),
        scope.body.len() <= usize::MAX,
        same_point(host, scope, c, d),
        typed_point(scope, c),
        after_steps(host, plain(scope.body), c, count) is Some,
    ensures
        after_steps(host, instrumented(scope), d, m) matches Some(d2) && same_point(
            host,
            scope,
            after_steps(host, plain(scope.body), c, count)->0,
            d2,
        ) && d2.state.log == d.state.log + told_during(host, scope, c, count) && other_globals(
            scope,
            d2.state,
        ) == other_globals(scope, d.state),
        typed_point(scope, after_steps(host, plain(scope.body), c, count)->0),
    decreases count,
{
    if count == 0 {
        assert(d.state.log + Seq::<Event>::empty() =~= d.state.log);
        0
    } else {
        let fewer = (count - 1) as nat;
        let code = instrumented(scope);
        let a = law_function_runs_as_before(host, scope, c, d, fewer);
        let before = after_steps(host, plain(scope.body), c, fewer)->0;
        let after = after_steps(host, plain(scope.body), c, count)->0;
        let d1 = after_steps(host, code, d, a)->0;
        assert(plain(scope.body).len() == scope.body.len());
        lemma_types_noted(host, scope, before);
        law_types_are_followed_everywhere(host, scope, before, after, d1);
        let b = lemma_point(host, scope, before, after, d1);
        lemma_steps_add(host, code, d, a, b);
        let (first, last) = (
            told_during(host, scope, c, fewer),
            told_by(host, scope, before, after),
        );
        assert(d.state.log + first + last =~= d.state.log + (first + last));
        a + b
    }
}

/// The code for the entry of a function comes first.
pub(crate) proof fn lemma_entry_stands_first(scope: Scope)
    requires
        walkable(scope),
    ensures
        ({
            let head = prologue(scope.func, scope.start);
            &&& position(scope, 0) == head.len() <= instrumented(scope).len()
            &&& forall|i: int| 0 <= i < head.len() ==> instrumented(scope)[i] == #[trigger] head[i]
        }),
{
    let head = prologue(scope.func, scope.start);
    let len = scope.body.len();
    lemma_walkable_prefix(scope, 0, len);
    lemma_last_is_end(scope.body);
    lemma_trace_prefix(scope, 0, len);
    lemma_last_code_is_longer(scope);
    lemma_trace_prefix(scope, 0, (len - 1) as nat);
    let whole = progress(scope, len)->0.trace;
    lemma_positions(scope, 0);
    assert forall|i: int| 0 <= i < head.len() implies instrumented(scope)[i] == #[trigger] head[i] by {
        assert(whole.take(head.len() as int)[i] == whole[i]);
    }
}

/// What is guarded at the entry of the start function is quiet, and so is the report of the entry.
proof fn lemma_guarded_quiet(func: FunctionIdx, global: GlobalIdx, guarded: Seq<Emit>)
    requires
        prologue(func, Some(global)) == plain(
            seq![Instr::Global(GlobalOp::GetGlobal, global), Instr::If(BlockType(None))],
        ) + guarded + plain(seq![Instr::End]) + prologue(func, None),
    ensures
        quiet(guarded),
{
    let head = plain(seq![Instr::Global(GlobalOp::GetGlobal, global), Instr::If(BlockType(None))]);
    let last = plain(seq![Instr::End]);
    lemma_control_of_prologue(func, Some(global));
    lemma_control_add(head + guarded + last, prologue(func, None));
    lemma_control_add(head + guarded, last);
    lemma_control_add(head, guarded);
    assert(head.last() == Emit::Plain(Instr::If(BlockType(None))));
    assert(last.last() == Emit::Plain(Instr::End));
    assert(control(head).len() >= 1);
    assert(control(last).len() >= 1);
    let all = control(prologue(func, Some(global)));
    assert(all.len() == 2);
    assert(all == control(head) + control(guarded) + control(last) + control(prologue(func, None)));
    assert(control(guarded).len() == 0);
    lemma_control_quiet(guarded);
}

/// The state with the global for the start cleared, where the function is the start function.
pub open spec fn started(scope: Scope, s: State) -> State {
    match scope.start {
        Some(global) => State { globals: s.globals.update(global.0 as int, Val::I32(0)), ..s },
        None => s,
    }
}

/// The hook calls at the entry of a function: for the start function, the report of the start where
/// the global for it is not cleared yet; and the report that the function is entered.
pub open spec fn told_at_entry(scope: Scope, s: State) -> Seq<Event> {
    let at = location_outside(scope.func);
    (match scope.start {
        Some(global) => if s.globals[global.0 as int] != Val::I32(0) {
            seq![event(HookOp::Start, seq![], at, seq![])]
        } else {
            seq![]
        },
        None => seq![],
    }) + seq![event(HookOp::BeginFunction, seq![], at, seq![])]
}

/// The steps at the entry of the start function, up to the report that the function is entered.
proof fn lemma_start_steps(host: Host, scope: Scope, global: GlobalIdx, d: Config) -> (m: (nat, Config))
    requires
        walkable(scope),
        scope.start == Some(global),
        global.0 < d.state.globals.len(),
        d.state.globals[global.0 as int] is I32,
        d.at == 0,
    ensures
        after_steps(host, instrumented(scope), d, m.0) == Some(m.1),
        m.1.at + prologue(scope.func, None).len() == prologue(scope.func, scope.start).len(),
        m.1.at >= 0,
        m.1.frames == d.frames,
        m.1.state == (State {
            log: d.state.log + (if d.state.globals[global.0 as int] != Val::I32(0) {
                seq![event(HookOp::Start, seq![], location_outside(scope.func), seq![])]
            } else {
                seq![]
            }),
            ..started(scope, d.state)
        }),
        forall|i: int|
            0 <= i < prologue(scope.func, None).len() ==> instrumented(scope)[m.1.at + i]
                == #[trigger] prologue(scope.func, None)[i],
{
    let code = instrumented(scope);
    let all = prologue(scope.func, Some(global));
    let enter = prologue(scope.func, None);
    let read = Instr::Global(GlobalOp::GetGlobal, global);
    let open = Instr::If(BlockType(None));
    let head = plain(seq![read, open]);
    let last = plain(seq![Instr::End]);
    let s = d.state;
    let flag = s.globals[global.0 as int];
    let guarded = law_start_is_reported_once(host, scope.func, global, s);
    let size = guarded.len() as int;
    lemma_guarded_quiet(scope.func, global, guarded);
    lemma_entry_stands_first(scope);
    // where the pieces stand
    assert(all[0] == head[0] && all[1] == head[1] && all[size + 2] == last[0]);
    assert(code[0] == Emit::Plain(read) && code[1] == Emit::Plain(open) && code[size + 2]
        == Emit::Plain(Instr::End));
    assert forall|i: int| 0 <= i < size implies code[2 + i] == #[trigger] guarded[i] by {
        assert(all[2 + i] == guarded[i]);
    }
    assert forall|i: int| 0 <= i < enter.len() implies code[size + 3 + i] == #[trigger] enter[i] by {
        assert(all[size + 3 + i] == enter[i]);
    }
    // the block of the guard
    lemma_quiet_inside(code, guarded, 2);
    lemma_closing_skips(nesting(code), 2, size + 2, 0);
    assert(nesting(code)[size + 2] == Nesting::Close);
    assert(closing(nesting(code), 2, 0) == Some(size + 2));
    assert(switching(nesting(code), 2, 0) is None);
    // the global is read
    let d1 = Config { at: 1, state: s.with_stack(s.stack.push(flag)), ..d };
    assert(after_step(host, code, d) == Some(d1));
    lemma_one_step(host, code, d);
    // and asked
    assert(typed(top(d1.state.stack, 1)) =~= seq![ValType::I32]);
    assert(d1.state.stack.drop_last() =~= s.stack);
    lemma_one_step(host, code, d1);
    lemma_steps_add(host, code, d, 1, 1);
    let rest = Config { at: 1, ..d };
    assert(popped(d1) == rest);
    if flag != Val::I32(0) {
        let d2 = entered(rest, 2, size + 3, seq![], seq![]);
        assert(block_results(BlockType(None)) =~= seq![]);
        assert(after_step(host, code, d1) == Some(d2));
        let t = run(host, guarded, s)->0;
        lemma_quiet_steps(host, code, guarded, d2, t);
        lemma_steps_add(host, code, d, 2, guarded.len());
        let d3 = Config { at: size + 2, state: t, ..d2 };
        assert(typed(top(t.stack, 0)) =~= seq![]);
        assert(is_at_end(d3));
        let d4 = Config { at: size + 3, frames: d3.frames.drop_last(), ..d3 };
        assert(after_step(host, code, d3) == Some(d4));
        assert(d4.frames =~= d.frames);
        lemma_one_step(host, code, d3);
        lemma_steps_add(host, code, d, 2 + guarded.len(), 1);
        let e = event(HookOp::Start, seq![], location_outside(scope.func), seq![]);
        assert(s.log.push(e) =~= s.log + seq![e]);
        (2 + guarded.len() + 1, d4)
    } else {
        let d2 = Config { at: size + 3, ..rest };
        assert(after_step(host, code, d1) == Some(d2));
        assert(s.globals.update(global.0 as int, Val::I32(0)) =~= s.globals);
        assert(s.log + Seq::<Event>::empty() =~= s.log);
        (2, d2)
    }
}

/// The steps at the entry of a function.
proof fn lemma_entry_steps(host: Host, scope: Scope, vars: Seq<ValType>, d: Config) -> (m: (nat, Config))
    requires
        walkable(scope),
        has_variables(d.state, vars),
        scope.start matches Some(global) ==> global.0 < d.state.globals.len()
            && d.state.globals[global.0 as int] is I32,
        d.at == 0,
    ensures
        after_steps(host, instrumented(scope), d, m.0) == Some(m.1),
        m.1.at == position(scope, 0),
        m.1.frames == d.frames,
        undisturbed(started(scope, d.state), m.1.state, vars.len()),
        m.1.state.log == d.state.log + told_at_entry(scope, d.state),
{
    let code = instrumented(scope);
    let enter = prologue(scope.func, None);
    lemma_entry_stands_first(scope);
    lemma_control_of_prologue(scope.func, None);
    lemma_control_quiet(enter);
    let (a, d1) = match scope.start {
        Some(global) => lemma_start_steps(host, scope, global, d),
        None => (0, d),
    };
    law_entry_is_reported(host, scope.func, vars, d1.state);
    let u = run(host, enter, d1.state)->0;
    lemma_quiet_steps(host, code, enter, d1, u);
    lemma_steps_add(host, code, d, a, enter.len());
    let entry = event(HookOp::BeginFunction, seq![], location_outside(scope.func), seq![]);
    assert(d1.state.log + seq![entry] =~= d.state.log + told_at_entry(scope, d.state));
    (a + enter.len(), Config { at: position(scope, 0), state: u, ..d1 })
}

/// A call of an instrumented function does what a call of the function did: where the function runs
/// to its end, so does the instrumented function, with the same results on the stack, the same
/// globals and memory and the same values in the function's own variables; and the hooks are told
/// that the function is entered, and all that it does. A call of the start function besides clears
/// the global that says that the start function has not run yet, and reports the start ahead of all
/// else where the global was not cleared already. Other globals are left alone.
pub proof fn law_call_runs_as_before(host: Host, scope: Scope, s: State, count: nat) -> (m: nat)
    requires
        walkable(scope),
        scope.body.len() <= usize::MAX,
        has_variables(s, instrumented_vars(scope)),
        runs_in(host, scope, s),
        scope.start matches Some(global) ==> scope.globals.len() <= global.0 < s.globals.len()
            && s.globals[global.0 as int] is I32,
        ({
            let c = called(plain(scope.body), scope.results, own_part(scope, s));
            after_steps(host, plain(scope.body), c, count) matches Some(end) && end.at
                == scope.body.len()
        }),
    ensures
        ({
            let n = scope.params.len() + scope.locals.len();
            let c = called(plain(scope.body), scope.results, own_part(scope, s));
            let end = after_steps(host, plain(scope.body), c, count)->0;
            &&& after_steps(
                host,
                instrumented(scope),
                called(instrumented(scope), scope.results, s),
                m,
            ) matches Some(d)
            &&& d.at == instrumented(scope).len()
            &&& widens(end.state, d.state, n, scope.globals.len())
            &&& d.state.log == s.log + told_at_entry(scope, s) + told_during(host, scope, c, count)
            &&& other_globals(scope, d.state) == other_globals(scope, started(scope, s))
            &&& scope.start matches Some(global) ==> d.state.globals[global.0 as int] == Val::I32(0)
        }),
{
    let code = instrumented(scope);
    let len = scope.body.len();
    let g = scope.globals.len() as int;
    let c = called(plain(scope.body), scope.results, own_part(scope, s));
    let d = called(code, scope.results, s);
    let vars = instrumented_vars(scope);
    lemma_walkable_prefix(scope, 0, len);
    lemma_last_is_end(scope.body);
    lemma_same_variables(s, d.state, vars);
    let (a, d1) = lemma_entry_steps(host, scope, vars, d);
    lemma_points_at_entry(host, scope, s, c, d, d1);
    lemma_typed_entry(scope, c);
    let b = law_function_runs_as_before(host, scope, c, d1, count);
    lemma_steps_add(host, code, d, a, b);
    let e = after_steps(host, code, d1, b)->0;
    if let Some(global) = scope.start {
        lemma_global_kept(e.state.globals, d1.state.globals, g, global.0 as int);
    }
    a + b
}

proof fn lemma_global_kept(a: Seq<Val>, b: Seq<Val>, g: int, k: int)
    requires
        0 <= g <= k < b.len(),
        g <= a.len(),
        a.skip(g) == b.skip(g),
    ensures
        a[k] == b[k],
{
    assert(a.skip(g).len() == a.len() - g);
    assert(b.skip(g).len() == b.len() - g);
    assert(a.skip(g)[k - g] == a[k]);
    assert(b.skip(g)[k - g] == b[k]);
}

/// Behind the code for the entry, the instrumented function is at the point that corresponds to the
/// beginning of the function.
proof fn lemma_points_at_entry(host: Host, scope: Scope, s: State, c: Config, d: Config, d1: Config)
    requires
        walkable(scope),
        has_variables(s, instrumented_vars(scope)),
        runs_in(host, scope, s),
        scope.start matches Some(global) ==> scope.globals.len() <= global.0 < s.globals.len()
            && s.globals[global.0 as int] is I32,
        c == called(plain(scope.body), scope.results, own_part(scope, s)),
        d == called(instrumented(scope), scope.results, s),
        d1.at == position(scope, 0),
        d1.frames == d.frames,
        undisturbed(started(scope, d.state), d1.state, instrumented_vars(scope).len()),
    ensures
        same_point(host, scope, c, d1),
{
    let len = scope.body.len();
    let g = scope.globals.len() as int;
    let cleared = Config { state: started(scope, d.state), ..d };
    lemma_walkable_prefix(scope, 0, len);
    lemma_last_is_end(scope.body);
    assert(cleared.state.globals.take(g) =~= s.globals.take(g));
    assert(typed(cleared.state.globals) =~= typed(s.globals));
    lemma_same_variables(s, cleared.state, instrumented_vars(scope));
    lemma_open_behind(scope.body, 0, 0);
    lemma_trace_grows(scope, 0, len);
    assert(plain(scope.body).len() == len);
    lemma_undisturbed_rest_entry(host, scope, c, cleared, d1.state);
}

/// Where a function begins, stack and open blocks are as the walk has noted them.
proof fn lemma_typed_entry(scope: Scope, c: Config)
    requires
        walkable(scope),
        c.at == 0,
        c.state.stack.len() == 0,
        c.frames.len() == 1,
        c.frames[0].height == 0,
        c.frames[0].target == scope.body.len(),
    ensures
        typed_point(scope, c),
{
    lemma_walkable_prefix(scope, 0, scope.body.len());
    let types = types_at(scope, 0);
    let none: Seq<TypeStackElement> = seq![];
    assert(types.drop_last() =~= none);
    assert(typed(c.state.stack) =~= noted(types)) by {
        assert(noted(none) =~= seq![]);
        assert(noted(types) == noted(none));
    }
    assert(live_at(scope, 0) =~= all_live(1));
    assert(marks(none) == 0);
    assert(entry_of(types, 0).0 == none);
    assert forall|i: int| #![trigger c.frames[i]] 0 <= i < c.frames.len() implies typed_frame(
        scope,
        i,
        entry_of(types, i),
        c.frames[i],
    ) by {
        assert(noted(none).len() == 0);
    }
}

/// Open blocks and state correspond where the two functions begin.
proof fn lemma_undisturbed_rest_entry(host: Host, scope: Scope, c: Config, d: Config, u: State)
    requires
        walkable(scope),
        c.frames.len() == 1,
        d.frames.len() == 1,
        same_block(scope, 0, c.frames[0], d.frames[0]),
        c.frames[0].results == scope.results,
        c.frames[0].taken == scope.results,
        widens(
            c.state,
            d.state,
            scope.params.len() + scope.locals.len(),
            scope.globals.len(),
        ),
        has_variables(d.state, instrumented_vars(scope)),
        runs_in(host, scope, d.state),
        undisturbed(d.state, u, instrumented_vars(scope).len()),
        scope.params.len() + scope.locals.len() <= instrumented_vars(scope).len(),
    ensures
        same_rest(host, scope, c, Config { state: u, ..d }),
{
    assert(same_rest(host, scope, c, d));
    lemma_undisturbed_rest(host, scope, c, d, u, instrumented_vars(scope).len());
}

/// Quiet code that fails as a whole fails step by step.
proof fn lemma_quiet_steps_fail(host: Host, code: Seq<Emit>, part: Seq<Emit>, c: Config)
    requires
        0 <= c.at,
        c.at + part.len() <= code.len(),
        forall|i: int| 0 <= i < part.len() ==> code[c.at + i] == #[trigger] part[i],
        quiet(part),
        run(host, part, c.state) is None,
    ensures
        after_steps(host, code, c, part.len()) is None,
    decreases part.len(),
{
    reveal(quiet);
    let fewer = part.drop_last();
    let last = part.last();
    assert forall|i: int| 0 <= i < fewer.len() implies code[c.at + i] == #[trigger] fewer[i] by {
        assert(part[i] == fewer[i]);
    }
    assert forall|i: int| 0 <= i < fewer.len() implies (
    #[trigger] fewer[i] matches Emit::Plain(instr) ==> is_straight(instr)) by {
        assert(part[i] == fewer[i]);
    }
    match run(host, fewer, c.state) {
        Some(u) => {
            lemma_quiet_steps(host, code, fewer, c, u);
            assert(part[part.len() - 1] == last);
            assert(code[c.at + fewer.len()] == last);
        },
        None => lemma_quiet_steps_fail(host, code, fewer, c),
    }
}

/// A straight instruction that finds its operands and fails does so whatever the variables hold.
proof fn lemma_fails_alike(host: Host, instr: Instr, n: nat, s: State, wide: State)
    requires
        is_straight(instr),
        has_operands(host, instr, n, s),
        widens(s, wide, n, host.own_globals),
        run_instr(host, instr, s) is None,
    ensures
        run_instr(host, instr, wide) is None,
{
    match instr {
        Instr::Call(_)
        | Instr::CallIndirect(_, _)
        | Instr::MemoryGrow(_)
        | Instr::Load(_, _)
        | Instr::Store(_, _) => {
            lemma_widened_effect(host, instr, n, s, wide);
        },
        Instr::Select => {
            let tys = typed(top(s.stack, 3));
            let k = s.stack.len();
            assert(tys[0] == s.stack[k - 3].ty() && tys[1] == s.stack[k - 2].ty() && tys[2] == s.stack[k
                - 1].ty());
        },
        _ => {},
    }
}

/// What traps still traps: where the function fails at `unreachable`, or at a straight instruction
/// that has found its operands, the instrumented function fails at the corresponding point too.
pub proof fn law_traps_stay_traps(host: Host, scope: Scope, c: Config, d: Config) -> (m: nat)
    requires
        walkable(scope),
        scope.body.len() <= usize::MAX,
        0 <= c.at < scope.body.len(),
        same_point(host, scope, c, d),
        typed_point(scope, c),
        after_step(host, plain(scope.body), c) is None,
        scope.body[c.at] is Unreachable || (is_straight(scope.body[c.at]) && has_operands(
            host,
            scope.body[c.at],
            scope.params.len() + scope.locals.len(),
            c.state,
        )),
    ensures
        after_steps(host, instrumented(scope), d, m) is None,
{
    let k = c.at;
    let instr = scope.body[k];
    let code = instrumented(scope);
    let n = scope.params.len() + scope.locals.len();
    lemma_last_is_not_straight(scope, k);
    if instr is Unreachable {
        let d1 = lemma_steps_ahead(host, scope, c, d);
        let a = ahead(scope, k).len();
        lemma_one_step(host, code, d1);
        lemma_steps_add(host, code, d, a, 1);
        a + 1
    } else {
        assert(plain(scope.body)[k] == Emit::Plain(instr));
        lemma_fails_alike(host, instr, n, c.state, d.state);
        lemma_variables_at(scope, k, d.state);
        lemma_types_noted(host, scope, c);
        lemma_noted_signature(host, scope, c, d);
        let w = progress(scope, k as nat)->0.walked;
        let site = site_at(scope, w, instr);
        let at = InstrIdx(k as usize);
        assert(fits(host, instr, site, w.vars, d.state));
        lemma_straight(host, scope.func, at, instr, site, w.vars, w.tables.len(), d.state);
        lemma_straight_is_quiet(scope.func, at, instr, site, w.vars, w.tables.len());
        lemma_positions(scope, k);
        let part = code_for(scope, k);
        assert forall|i: int| 0 <= i < part.len() implies code[d.at + i] == #[trigger] part[i] by {
            lemma_step_at(scope, k, i);
        }
        lemma_quiet_steps_fail(host, code, part, d);
        part.len()
    }
}

} // verus!
