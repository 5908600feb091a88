//! What holds of an instrumented module: what is kept of the module as it was, and how the hooks,
//! the information on the module and the code belong together.
use vstd::prelude::*;

use crate::add_hooks::{
    calls_before, function_export, hooks_of, instrumentable, is_instrumented, scope_of, tables_before,
    Instrumentation,
};
use crate::ast::{FunctionIdx, Instr, Module};
use crate::emitter::{lemma_calls_hold, lemma_distinct};
use crate::hook_map::{hook_call, is_hook_function, HookId};
use crate::laws::lemma_trace_grows;
use crate::static_info::br_targets;
use crate::text::{decimal, digit};
use crate::trace::{calls, linked};
use crate::walk::{instrumented, instrumented_vars, lemma_walkable_prefix, progress, walkable, Scope};

verus! {

/// The calls of a function's code are among those of all functions up to it and behind.
proof fn lemma_calls_kept(module: Module, f: int, count: nat, id: HookId)
    requires
        0 <= f < count <= module.functions@.len(),
        module.functions@[f].code is Some,
        calls(instrumented(scope_of(module, f))).contains(id),
    ensures
        calls_before(module, count).contains(id),
    decreases count,
{
    let last = count - 1;
    let earlier = calls_before(module, last as nat);
    let own = calls(instrumented(scope_of(module, last)));
    if f < last {
        lemma_calls_kept(module, f, last as nat, id);
        let k = choose|k: int| 0 <= k < earlier.len() && earlier[k] == id;
        assert(calls_before(module, count)[k] == id);
    } else {
        let k = choose|k: int| 0 <= k < own.len() && own[k] == id;
        assert(calls_before(module, count)[earlier.len() + k] == id);
    }
}

/// No hook is added twice.
pub proof fn law_hooks_are_distinct(module: Module)
    ensures
        hooks_of(module).no_duplicates(),
{
    lemma_distinct(calls_before(module, module.functions@.len()));
}

/// Every hook that the code of a function calls exists: where the code has a hook call, the
/// instrumented function calls an imported function that is behind the module's own functions, has
/// the type of that hook, and is defined for the host at the same place among the definitions.
pub proof fn law_hook_calls_resolve(before: Module, after: Module, out: Instrumentation, f: int, i: int)
    requires
        is_instrumented(before, after),
        out.belongs_to(before, after),
        0 <= f < before.functions@.len(),
        before.functions@[f].code is Some,
        0 <= i < instrumented(scope_of(before, f)).len(),
        instrumented(scope_of(before, f))[i] is Hook,
    ensures
        ({
            let id = instrumented(scope_of(before, f))[i]->Hook_0;
            let n = before.functions@.len();
            &&& after.functions@[f].code is Some
            &&& after.functions@[f].code->0.body@[i] matches Instr::Call(callee)
            &&& n <= callee.0 < after.functions@.len()
            &&& is_hook_function(after.functions@[callee.0 as int], id)
            &&& out.js_hooks@[callee.0 - n]@ == id.js()
        }),
{
    let trace = instrumented(scope_of(before, f));
    let id = trace[i]->Hook_0;
    let n = before.functions@.len();
    let ids = hooks_of(before);
    let all = calls_before(before, n);
    lemma_calls_hold(trace, i);
    lemma_calls_kept(before, f, n, id);
    lemma_distinct(all);
    let a = choose|a: int| 0 <= a < all.len() && all[a] == id;
    assert(ids.contains(all[a]));
    let k = ids.index_of(id);
    assert(0 <= k < ids.len() && ids[k] == id);
    assert(is_hook_function(after.functions@[n + k], ids[k]));
    assert(after.functions@[f].code is Some);
    assert(linked(trace, ids, n)[i] == hook_call(ids, n, id));
    assert(out.js_hooks@[k]@ == ids[k].js());
    assert(after.functions.len() == after.functions@.len());
}

/// Instructions that are no hook calls are taken over as they are; calls of the module's own
/// functions in particular, whose indices do not change.
pub proof fn law_other_instructions_are_taken_over(before: Module, after: Module, f: int, i: int)
    requires
        is_instrumented(before, after),
        0 <= f < before.functions@.len(),
        before.functions@[f].code is Some,
        0 <= i < instrumented(scope_of(before, f)).len(),
        instrumented(scope_of(before, f))[i] is Plain,
    ensures
        after.functions@[f].code is Some,
        after.functions@[f].code->0.body@[i] == instrumented(scope_of(before, f))[i]->Plain_0,
{
    let trace = instrumented(scope_of(before, f));
    assert(after.functions@[f].code is Some);
    assert(linked(trace, hooks_of(before), before.functions@.len())[i] == trace[i]->Plain_0);
}

/// Every function and every table has an export, and the information on the module knows the names
/// of the functions' exports and of the first table's.
pub proof fn law_everything_is_exported(before: Module, after: Module, out: Instrumentation)
    requires
        is_instrumented(before, after),
        out.belongs_to(before, after),
    ensures
        forall|f: int|
            0 <= f < before.functions@.len() ==> {
                &&& (#[trigger] after.functions@[f]).export is Some
                &&& before.functions@[f].export is Some ==> after.functions@[f].export
                    == before.functions@[f].export
                &&& out.info.functions@[f].export is Some
                &&& (out.info.functions@[f].export->0)@ == (after.functions@[f].export->0)@
            },
        forall|t: int|
            0 <= t < before.tables@.len() ==> {
                &&& (#[trigger] after.tables@[t]).export is Some
                &&& before.tables@[t].export is Some ==> after.tables@[t].export
                    == before.tables@[t].export
            },
        before.tables@.len() > 0 ==> out.info.table_export_name is Some && (
        out.info.table_export_name->0)@ == (after.tables@[0].export->0)@,
{
    assert forall|f: int| 0 <= f < before.functions@.len() implies {
        &&& (#[trigger] after.functions@[f]).export is Some
        &&& before.functions@[f].export is Some ==> after.functions@[f].export
            == before.functions@[f].export
        &&& out.info.functions@[f].export is Some
        &&& (out.info.functions@[f].export->0)@ == (after.functions@[f].export->0)@
    } by {
        let info = out.info.functions@[f];
    }
    if before.tables@.len() > 0 {
        let table = after.tables@[0];
    }
}

proof fn lemma_decimal_injective(a: nat, b: nat)
    requires
        decimal(a) == decimal(b),
    ensures
        a == b,
    decreases a,
{
    assert forall|c: u8, d: u8| c < 10 && d < 10 && #[trigger] digit(c) == #[trigger] digit(d) implies c
        == d by {}
    lemma_decimal_nonempty(a / 10);
    lemma_decimal_nonempty(b / 10);
    assert(decimal(a).last() == digit((a % 10) as u8));
    assert(decimal(b).last() == digit((b % 10) as u8));
    assert(a % 10 == b % 10);
    if a >= 10 && b >= 10 {
        assert(decimal(a).drop_last() =~= decimal(a / 10));
        assert(decimal(b).drop_last() =~= decimal(b / 10));
        lemma_decimal_injective(a / 10, b / 10);
    }
}

proof fn lemma_decimal_nonempty(n: nat)
    ensures
        decimal(n).len() >= 1,
{
}

/// Two functions that have no export get different ones.
pub proof fn law_new_exports_differ(f: nat, g: nat)
    requires
        f != g,
    ensures
        function_export(f) != function_export(g),
{
    if function_export(f) == function_export(g) {
        let prefix = "__wasabi_function_"@;
        assert(decimal(f) =~= (prefix + decimal(f)).skip(prefix.len() as int));
        assert(decimal(g) =~= (prefix + decimal(g)).skip(prefix.len() as int));
        lemma_decimal_injective(f, g);
    }
}

/// The targets found so far are kept.
proof fn lemma_tables_grow_within(scope: Scope, from: nat, to: nat)
    requires
        from <= to,
        progress(scope, to) is Some,
    ensures
        progress(scope, from) is Some,
        progress(scope, from)->0.walked.tables.len() <= progress(scope, to)->0.walked.tables.len(),
        progress(scope, from)->0.walked.tables == progress(scope, to)->0.walked.tables.take(
            progress(scope, from)->0.walked.tables.len() as int,
        ),
    decreases to,
{
    let b = progress(scope, to)->0.walked.tables;
    if from == to {
        assert(b.take(b.len() as int) =~= b);
    } else {
        lemma_tables_grow_within(scope, from, (to - 1) as nat);
        let a = progress(scope, from)->0.walked.tables;
        let c = progress(scope, (to - 1) as nat)->0.walked.tables;
        assert(b.take(a.len() as int) =~= c.take(a.len() as int));
    }
}

/// The targets found in functions before are kept.
proof fn lemma_tables_grow(module: Module, from: nat, to: nat)
    requires
        from <= to <= module.functions@.len(),
        instrumentable(module),
    ensures
        tables_before(module, from).len() <= tables_before(module, to).len(),
        tables_before(module, from) == tables_before(module, to).take(
            tables_before(module, from).len() as int,
        ),
    decreases to,
{
    let b = tables_before(module, to);
    if from == to {
        assert(b.take(b.len() as int) =~= b);
    } else {
        let f = to - 1;
        lemma_tables_grow(module, from, f as nat);
        let a = tables_before(module, from);
        let c = tables_before(module, f as nat);
        if module.functions@[f].code is Some {
            let scope = scope_of(module, f);
            assert(walkable(scope));
            lemma_tables_grow_within(scope, 0, scope.body.len());
            assert(progress(scope, 0)->0.walked.tables == c);
            assert(b.take(a.len() as int) =~= b.take(c.len() as int).take(a.len() as int));
        }
    }
}

/// The number under which the `br_table` instruction with index `at` of the function `f` is known.
pub open spec fn table_number(module: Module, f: int, at: nat) -> nat {
    progress(scope_of(module, f), at)->0.walked.tables.len()
}

/// Whether the instruction with index `at` of the function `f` is a `br_table` instruction.
pub open spec fn is_br_table(module: Module, f: int, at: nat) -> bool {
    &&& 0 <= f < module.functions@.len()
    &&& module.functions@[f].code matches Some(code) && at < code.body@.len() && code.body@[at as int]
        is BrTable
}

/// Every `br_table` instruction has its own entry in the information on the module, under the number
/// that its hook is told, with the targets of its labels.
pub proof fn law_br_tables_have_entries(before: Module, after: Module, out: Instrumentation, f: int, at: nat)
    requires
        instrumentable(before),
        out.belongs_to(before, after),
        is_br_table(before, f, at),
    ensures
        ({
            let k = table_number(before, f, at);
            let open = progress(scope_of(before, f), at)->0.walked.open;
            let instr = before.functions@[f].code->0.body@[at as int];
            &&& k < out.info.br_tables@.len()
            &&& br_targets(open, (instr->BrTable_0)@, instr->BrTable_1, FunctionIdx(f as usize)) == Some(
                out.info.br_tables@[k as int]@,
            )
        }),
{
    let n = before.functions@.len();
    let scope = scope_of(before, f);
    let k = table_number(before, f, at);
    assert(walkable(scope));
    lemma_tables_grow_within(scope, at + 1, scope.body.len());
    lemma_tables_grow(before, (f + 1) as nat, n);
    let here = progress(scope, at + 1)->0.walked.tables;
    let whole = progress(scope, scope.body.len())->0.walked.tables;
    assert(tables_before(before, (f + 1) as nat) == whole);
    assert(here[k as int] == whole[k as int]) by {
        assert(whole.take(here.len() as int)[k as int] == whole[k as int]);
    }
    let all = tables_before(before, n);
    assert(all.take(whole.len() as int)[k as int] == all[k as int]);
    assert(out.info.br_targets()[k as int] == out.info.br_tables@[k as int]@);
}

/// No two `br_table` instructions share an entry.
pub proof fn law_br_table_entries_are_not_shared(module: Module, f: int, at: nat, g: int, bt: nat)
    requires
        instrumentable(module),
        is_br_table(module, f, at),
        is_br_table(module, g, bt),
        f < g || (f == g && at < bt),
    ensures
        table_number(module, f, at) < table_number(module, g, bt),
{
    let scope = scope_of(module, f);
    assert(walkable(scope));
    lemma_tables_grow_within(scope, at + 1, scope.body.len());
    if f == g {
        lemma_walkable_prefix(scope, bt, scope.body.len());
        lemma_tables_grow_within(scope, at + 1, bt);
    } else {
        let other = scope_of(module, g);
        assert(walkable(other));
        lemma_tables_grow(module, (f + 1) as nat, g as nat);
        lemma_walkable_prefix(other, bt, other.body.len());
        lemma_tables_grow_within(other, 0, bt);
    }
}

/// The variables of a function are kept, and those for the hooks follow behind them; and so are its
/// type and, where it is imported, where from.
pub proof fn law_own_variables_come_first(before: Module, after: Module, f: int)
    requires
        instrumentable(before),
        is_instrumented(before, after),
        0 <= f < before.functions@.len(),
    ensures
        after.functions@[f].type_ == before.functions@[f].type_,
        after.functions@[f].import == before.functions@[f].import,
        after.functions@[f].code is Some == before.functions@[f].code is Some,
        before.functions@[f].code matches Some(code) ==> {
            &&& code.locals@.len() <= after.functions@[f].code->0.locals@.len()
            &&& after.functions@[f].code->0.locals@.take(code.locals@.len() as int) == code.locals@
        },
{
    let function = after.functions@[f];
    if before.functions@[f].code is Some {
        let scope = scope_of(before, f);
        assert(walkable(scope));
        lemma_trace_grows(scope, 0, scope.body.len());
        let vars = instrumented_vars(scope);
        let own = scope.params + scope.locals;
        let (p, n) = (scope.params.len() as int, scope.locals.len() as int);
        assert(vars.take(own.len() as int) =~= own);
        assert(vars.skip(p).take(n) =~= scope.locals) by {
            assert forall|i: int| 0 <= i < n implies vars.skip(p).take(n)[i] == scope.locals[i] by {
                assert(vars.take(own.len() as int)[p + i] == own[p + i]);
            }
        }
    }
}

/// Nothing but hooks is added to the functions: the module's own ones keep their indices, and behind them
/// stands one import for each hook, with a definition for the host at the same place among the definitions.
pub proof fn law_only_hooks_are_added(before: Module, after: Module, out: Instrumentation)
    requires
        is_instrumented(before, after),
        out.belongs_to(before, after),
    ensures
        ({
            let n = before.functions@.len();
            &&& after.functions@.len() == n + out.js_hooks@.len()
            &&& out.js_hooks@.len() == hooks_of(before).len()
            &&& forall|k: int|
                0 <= k < out.js_hooks@.len() ==> is_hook_function(
                    after.functions@[n + k],
                    hooks_of(before)[k],
                ) && (#[trigger] out.js_hooks@[k])@ == hooks_of(before)[k].js()
        }),
{
    let ids = hooks_of(before);
    assert forall|k: int| 0 <= k < out.js_hooks@.len() implies is_hook_function(
        after.functions@[before.functions@.len() + k],
        ids[k],
    ) && (#[trigger] out.js_hooks@[k])@ == ids[k].js() by {
        let id = ids[k];
    }
}

} // verus!
