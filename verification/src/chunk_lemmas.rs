//! How the code that stands for an instruction runs, for each kind of instruction.
use vstd::prelude::*;

use crate::ast::{
    consecutive, index_const, FunctionIdx, GlobalOp, Instr, InstrIdx, LocalIdx, Signature, Val, ValType,
};
use crate::convert_i64::lowered_instr;
use crate::hook_map::{HookId, HookOp};
use crate::machine::{
    below, effect_signature, lowered_vals, ready, run, run_instr, top, typed, Event, Host, State,
};
use crate::machine_lemmas::{
    lemma_lowered_add, lemma_lowered_one, lemma_run_add, lemma_run_hook, lemma_run_instr,
    lemma_run_located, lemma_run_lowered, lemma_run_push, lemma_run_restored, lemma_run_saved, lemma_top,
    lemma_typed_add, location, separate, stored, values,
};
use crate::trace::{
    after_call, chunk, fresh, get, global_value, hook, located, plain, restored, saved, tee, Emit, Site,
};

verus! {

/// The call of the hook for `op` and `tys` with a location and values.
pub open spec fn event(op: HookOp, tys: Seq<ValType>, at: Seq<Val>, vals: Seq<Val>) -> Event {
    Event { id: HookId { op, tys }, args: at + lowered_vals(vals) }
}

/// Whether the first variables of the function have the types `vars`.
pub open spec fn has_variables(s: State, vars: Seq<ValType>) -> bool {
    &&& vars.len() <= s.locals.len() <= usize::MAX
    &&& typed(s.locals).take(vars.len() as int) == vars
}

/// Whether the states differ in nothing but the log and the variables from index `n` on.
pub open spec fn undisturbed(t: State, u: State, n: nat) -> bool {
    &&& u.stack == t.stack
    &&& u.globals == t.globals
    &&& u.world == t.world
    &&& u.locals.take(n as int) == t.locals.take(n as int)
    &&& u.locals.len() == t.locals.len()
    &&& typed(u.locals) == typed(t.locals)
}

/// Whether the instruction neither opens, switches or leaves a block nor branches.
pub open spec fn is_straight(instr: Instr) -> bool {
    match instr {
        Instr::Unreachable | Instr::Block(_) | Instr::Loop(_) | Instr::If(_) | Instr::Else | Instr::End
        | Instr::Br(_) | Instr::BrIf(_) | Instr::BrTable(_, _) | Instr::Return => false,
        _ => true,
    }
}

/// The types that a straight instruction takes and gives in the state `s`; of an indirect call,
/// those of the function that is called.
pub open spec fn signature_in(host: Host, instr: Instr, s: State) -> Signature {
    match instr {
        Instr::Call(callee) => host.functions[callee.0 as int],
        Instr::CallIndirect(ty, _) => ty@,
        Instr::Drop => Signature { params: seq![s.stack.last().ty()], results: seq![] },
        Instr::Select => {
            let ty = s.stack[s.stack.len() - 3].ty();
            Signature { params: seq![ty, ty, ValType::I32], results: seq![ty] }
        },
        Instr::Local(op, local) => op.signature(s.locals[local.0 as int].ty()),
        Instr::Global(op, global) => op.signature(s.globals[global.0 as int].ty()),
        Instr::MemorySize(_) => Signature { params: seq![], results: seq![ValType::I32] },
        Instr::MemoryGrow(_) => Signature { params: seq![ValType::I32], results: seq![ValType::I32] },
        Instr::Load(op, _) => op.signature(),
        Instr::Store(op, _) => op.signature(),
        Instr::Const(val) => Signature { params: seq![], results: seq![val.ty()] },
        Instr::Numeric(op) => op.signature(),
        _ => Signature { params: seq![], results: seq![] },
    }
}

/// Whether what the instruction refers to exists and its operands lie on the stack. The function's
/// own variables are the first `n`.
pub open spec fn has_operands(host: Host, instr: Instr, n: nat, s: State) -> bool {
    &&& match instr {
        Instr::Call(callee) => callee.0 < host.functions.len(),
        Instr::Local(_, local) => local.0 < n,
        Instr::Global(_, global) => global.0 < s.globals.len(),
        _ => true,
    }
    &&& ready(
        s.stack,
        match instr {
            Instr::CallIndirect(ty, _) => ty@.params + seq![ValType::I32],
            _ => signature_in(host, instr, s).params,
        },
    )
}

/// The hook calls that report a straight instruction, which leads from the state `s` to `t`.
pub open spec fn told(host: Host, func: FunctionIdx, at: InstrIdx, instr: Instr, s: State, t: State) -> Seq<
    Event,
> {
    let loc = location(func, at);
    let sig = signature_in(host, instr, s);
    let returned = event(HookOp::CallPost, sig.results, loc, top(t.stack, sig.results.len()));
    match instr {
        Instr::Nop => seq![event(HookOp::Nop, seq![], loc, seq![])],
        Instr::Drop => seq![event(HookOp::Drop, sig.params, loc, seq![s.stack.last()])],
        Instr::Select => {
            let vals = top(s.stack, 3);
            seq![
                event(
                    HookOp::Select,
                    seq![sig.params[0], sig.params[0]],
                    loc,
                    seq![vals[2], vals[0], vals[1]],
                ),
            ]
        },
        Instr::Local(op, local) => {
            let val = t.locals[local.0 as int];
            seq![event(HookOp::Local(op), seq![val.ty()], loc, seq![Val::I32(local.0 as i32), val])]
        },
        Instr::Global(op, global) => {
            let val = t.globals[global.0 as int];
            seq![event(HookOp::Global(op), seq![val.ty()], loc, seq![Val::I32(global.0 as i32), val])]
        },
        Instr::MemorySize(_) => seq![event(HookOp::MemorySize, seq![], loc, seq![t.stack.last()])],
        Instr::MemoryGrow(_) => seq![
            event(HookOp::MemoryGrow, seq![], loc, seq![s.stack.last(), t.stack.last()]),
        ],
        Instr::Load(op, memarg) => seq![
            event(
                HookOp::Load(op),
                seq![],
                loc,
                seq![
                    Val::I32(memarg.offset as i32),
                    Val::I32(memarg.alignment as i32),
                    s.stack.last(),
                    t.stack.last(),
                ],
            ),
        ],
        Instr::Store(op, memarg) => seq![
            event(
                HookOp::Store(op),
                seq![],
                loc,
                seq![Val::I32(memarg.offset as i32), Val::I32(memarg.alignment as i32)] + top(s.stack, 2),
            ),
        ],
        Instr::Const(val) => seq![event(HookOp::Const(val.ty()), seq![], loc, seq![val])],
        Instr::Numeric(op) => seq![
            event(
                HookOp::Numeric(op),
                seq![],
                loc,
                top(s.stack, sig.params.len()) + seq![t.stack.last()],
            ),
        ],
        Instr::Call(callee) => seq![
            event(
                HookOp::Call,
                sig.params,
                loc,
                seq![Val::I32(callee.0 as i32)] + top(s.stack, sig.params.len()),
            ),
            returned,
        ],
        Instr::CallIndirect(_, _) => seq![
            event(
                HookOp::CallIndirect,
                sig.params,
                loc,
                seq![s.stack.last()] + top(s.stack.drop_last(), sig.params.len()),
            ),
            returned,
        ],
        _ => seq![],
    }
}

/// The code for a straight instruction does what the instruction does, and reports it.
pub open spec fn runs_alike(
    host: Host,
    func: FunctionIdx,
    at: InstrIdx,
    instr: Instr,
    site: Site,
    vars: Seq<ValType>,
    tables: nat,
    s: State,
) -> bool {
    let after = run(host, chunk(func, at, instr, site, vars, tables), s);
    match run_instr(host, instr, s) {
        Some(t) => after matches Some(u) && undisturbed(t, u, vars.len()) && u.log == s.log + told(
            host,
            func,
            at,
            instr,
            s,
            t,
        ),
        None => after is None,
    }
}

/// What the code for a straight instruction may rely on.
pub open spec fn fits(host: Host, instr: Instr, site: Site, vars: Seq<ValType>, s: State) -> bool {
    &&& has_operands(host, instr, vars.len(), s)
    &&& site.sig == signature_in(host, instr, s)
    &&& has_variables(s, vars + fresh(instr, site.sig))
}

/// The variables that a piece of code has for itself: they exist, have the types that were asked
/// for, and are none of those before.
pub(crate) proof fn lemma_own_variables(s: State, vars: Seq<ValType>, own: Seq<ValType>, from: nat, count: nat)
    requires
        has_variables(s, vars + own),
        from + count <= own.len(),
    ensures
        separate(s.locals, consecutive(vars.len() + from, count)),
        typed(values(s.locals, consecutive(vars.len() + from, count))) == own.subrange(
            from as int,
            (from + count) as int,
        ),
        forall|j: int|
            0 <= j <= usize::MAX && !(vars.len() + from <= j < vars.len() + from + count)
                ==> !(#[trigger] consecutive(vars.len() + from, count).contains(LocalIdx(j as usize))),
        forall|i: int|
            0 <= i < count ==> (#[trigger] consecutive(vars.len() + from, count)[i]).0 == vars.len()
                + from + i && s.locals[vars.len() + from + i].ty() == own[from + i],
{
    let locals = consecutive(vars.len() + from, count);
    let all = vars + own;
    assert forall|i: int| 0 <= i < count implies (#[trigger] locals[i]).0 == vars.len() + from + i
        && s.locals[vars.len() + from + i].ty() == own[from + i] by {
        assert(typed(s.locals).take(all.len() as int)[vars.len() + from + i] == all[vars.len() + from
            + i]);
    }
    assert(typed(values(s.locals, locals)) =~= own.subrange(from as int, (from + count) as int)) by {
        assert forall|i: int| 0 <= i < count implies typed(values(s.locals, locals))[i] == own[from
            + i] by {
            assert(locals[i].0 == vars.len() + from + i);
        }
    }
    assert(locals.no_duplicates()) by {
        assert forall|i: int, j: int| 0 <= i < count && 0 <= j < count && i != j implies locals[i]
            != locals[j] by {
            assert(locals[i].0 == vars.len() + from + i);
            assert(locals[j].0 == vars.len() + from + j);
        }
    }
    assert forall|j: int|
        0 <= j <= usize::MAX && !(vars.len() + from <= j < vars.len() + from
            + count) implies !(#[trigger] locals.contains(LocalIdx(j as usize))) by {
        assert forall|i: int| 0 <= i < count implies locals[i] != LocalIdx(j as usize) by {
            assert(locals[i].0 == vars.len() + from + i);
        }
    }
}

/// Code that pushes a location and the values of an event, then calls the hook for it.
pub(crate) proof fn lemma_run_report(
    host: Host,
    code: Seq<Emit>,
    s: State,
    t: State,
    op: HookOp,
    tys: Seq<ValType>,
    at: Seq<Val>,
    vals: Seq<Val>,
)
    requires
        run(host, code, s) == Some(t.with_stack(t.stack + (at + lowered_vals(vals)))),
        at.len() == 2,
        at[0] is I32,
        at[1] is I32,
        typed(vals) == (HookId { op, tys }).args(),
    ensures
        run(host, code + hook(op, tys), s) == Some(t.with_event(event(op, tys, at, vals))),
{
    let u = t.with_stack(t.stack + (at + lowered_vals(vals)));
    lemma_run_add(host, code, hook(op, tys), s);
    lemma_run_hook(host, op, tys, at, vals, t.stack, u);
    assert(u.with_stack(t.stack) == t);
}

/// Code that ends in state `t`, followed by the call of a hook with a location and values that are
/// pushed in two groups.
pub(crate) proof fn lemma_run_told(
    host: Host,
    code: Seq<Emit>,
    func: FunctionIdx,
    at: InstrIdx,
    push_1: Seq<Instr>,
    vals_1: Seq<Val>,
    push_2: Seq<Instr>,
    vals_2: Seq<Val>,
    op: HookOp,
    tys: Seq<ValType>,
    s: State,
    t: State,
)
    requires
        run(host, code, s) == Some(t),
        ({
            let a = t.with_stack(t.stack + location(func, at));
            let b = a.with_stack(a.stack + lowered_vals(vals_1));
            &&& run(host, plain(push_1), a) == Some(b)
            &&& run(host, plain(push_2), b) == Some(b.with_stack(b.stack + lowered_vals(vals_2)))
        }),
        typed(vals_1 + vals_2) == (HookId { op, tys }).args(),
    ensures
        run(host, code + located(func, at) + plain(push_1) + plain(push_2) + hook(op, tys), s) == Some(
            t.with_event(event(op, tys, location(func, at), vals_1 + vals_2)),
        ),
        push_1.len() == 0 ==> run(
            host,
            code + located(func, at) + plain(push_2) + hook(op, tys),
            s,
        ) == Some(t.with_event(event(op, tys, location(func, at), vals_1 + vals_2))),
        push_2.len() == 0 ==> run(
            host,
            code + located(func, at) + plain(push_1) + hook(op, tys),
            s,
        ) == Some(t.with_event(event(op, tys, location(func, at), vals_1 + vals_2))),
{
    let loc = located(func, at);
    let a = t.with_stack(t.stack + location(func, at));
    let b = a.with_stack(a.stack + lowered_vals(vals_1));
    lemma_run_add(host, code, loc, s);
    lemma_run_located(host, func, at, t);
    lemma_run_add(host, code + loc, plain(push_1), s);
    lemma_run_add(host, code + loc + plain(push_1), plain(push_2), s);
    lemma_lowered_add(vals_1, vals_2);
    assert(b.stack + lowered_vals(vals_2) =~= t.stack + (location(func, at) + lowered_vals(
        vals_1 + vals_2,
    )));
    lemma_run_report(
        host,
        code + loc + plain(push_1) + plain(push_2),
        s,
        t,
        op,
        tys,
        location(func, at),
        vals_1 + vals_2,
    );
    if push_1.len() == 0 {
        assert(code + loc + plain(push_1) =~= code + loc);
    }
    if push_2.len() == 0 {
        assert(code + loc + plain(push_1) + plain(push_2) =~= code + loc + plain(push_1));
    }
}

/// No code pushes no values.
pub(crate) proof fn lemma_run_nothing(host: Host, s: State)
    ensures
        run(host, plain(Seq::<Instr>::empty()), s) == Some(
            s.with_stack(s.stack + lowered_vals(Seq::<Val>::empty())),
        ),
        lowered_vals(Seq::<Val>::empty()) == Seq::<Val>::empty(),
{
    assert(plain(Seq::<Instr>::empty()) =~= seq![]);
    assert(lowered_vals(Seq::<Val>::empty()) =~= Seq::<Val>::empty());
    assert(s.stack + lowered_vals(Seq::<Val>::empty()) =~= s.stack);
}

/// An instruction that pushes a value that is handed over as it is.
pub(crate) proof fn lemma_run_pushing(host: Host, instr: Instr, val: Val, s: State)
    requires
        run_instr(host, instr, s) == Some(s.with_stack(s.stack.push(val))),
        val !is I64,
    ensures
        run(host, plain(seq![instr]), s) == Some(s.with_stack(s.stack + lowered_vals(seq![val]))),
{
    lemma_run_instr(host, instr, s);
    lemma_lowered_one(val);
    assert(s.stack + lowered_vals(seq![val]) =~= s.stack.push(val));
}

/// Two instructions that push a value each, which is handed over as it is.
pub(crate) proof fn lemma_run_pushing_2(host: Host, instr_1: Instr, val_1: Val, instr_2: Instr, val_2: Val, s: State)
    requires
        run_instr(host, instr_1, s) == Some(s.with_stack(s.stack.push(val_1))),
        run_instr(host, instr_2, s.with_stack(s.stack.push(val_1))) == Some(
            s.with_stack(s.stack.push(val_1).push(val_2)),
        ),
        val_1 !is I64,
        val_2 !is I64,
    ensures
        run(host, plain(seq![instr_1, instr_2]), s) == Some(
            s.with_stack(s.stack + lowered_vals(seq![val_1, val_2])),
        ),
{
    assert(seq![instr_1, instr_2] =~= seq![instr_1].push(instr_2));
    lemma_run_push(host, seq![instr_1], instr_2, s);
    lemma_run_instr(host, instr_1, s);
    assert(seq![val_1, val_2] =~= seq![val_1] + seq![val_2]);
    lemma_lowered_add(seq![val_1], seq![val_2]);
    lemma_lowered_one(val_1);
    lemma_lowered_one(val_2);
    assert(s.stack + lowered_vals(seq![val_1, val_2]) =~= s.stack.push(val_1).push(val_2));
}

/// Variables keep their types.
pub(crate) proof fn lemma_types_kept(s: State, t: State, vars: Seq<ValType>)
    requires
        has_variables(s, vars),
        typed(t.locals) == typed(s.locals),
    ensures
        has_variables(t, vars),
        forall|j: int| 0 <= j < vars.len() ==> (#[trigger] t.locals[j]).ty() == vars[j],
{
    assert(typed(t.locals).len() == t.locals.len());
    assert(typed(s.locals).len() == s.locals.len());
    assert forall|j: int| 0 <= j < vars.len() implies (#[trigger] t.locals[j]).ty() == vars[j] by {
        assert(typed(t.locals).take(vars.len() as int)[j] == vars[j]);
    }
}

/// The function's own variables are as before where only others were written.
pub(crate) proof fn lemma_own_untouched(s: State, t: State, vars: Seq<ValType>, locals: Seq<LocalIdx>)
    requires
        vars.len() <= s.locals.len() <= usize::MAX,
        stored(s.locals, t.locals, locals, values(t.locals, locals)),
        forall|i: int| 0 <= i < locals.len() ==> (#[trigger] locals[i]).0 >= vars.len(),
    ensures
        t.locals.take(vars.len() as int) == s.locals.take(vars.len() as int),
{
    assert forall|j: int| 0 <= j < vars.len() implies t.locals[j] == s.locals[j] by {
        assert forall|i: int| 0 <= i < locals.len() implies locals[i] != LocalIdx(j as usize) by {
            assert(locals[i].0 >= vars.len());
        }
    }
    assert(t.locals.take(vars.len() as int) =~= s.locals.take(vars.len() as int));
}

proof fn lemma_nop(
    host: Host,
    func: FunctionIdx,
    at: InstrIdx,
    instr: Instr,
    site: Site,
    vars: Seq<ValType>,
    tables: nat,
    s: State,
)
    requires
        instr is Nop,
        fits(host, instr, site, vars, s),
    ensures
        runs_alike(host, func, at, instr, site, vars, tables, s),
{
    let vals: Seq<Val> = seq![];
    lemma_run_located(host, func, at, s);
    assert(location(func, at) + lowered_vals(vals) =~= location(func, at));
    assert(typed(vals) =~= seq![]);
    lemma_run_report(host, located(func, at), s, s, HookOp::Nop, seq![], location(func, at), vals);
    let e = event(HookOp::Nop, seq![], location(func, at), vals);
    assert(s.log.push(e) =~= s.log + seq![e]);
}

proof fn lemma_drop(
    host: Host,
    func: FunctionIdx,
    at: InstrIdx,
    instr: Instr,
    site: Site,
    vars: Seq<ValType>,
    tables: nat,
    s: State,
)
    requires
        instr is Drop,
        fits(host, instr, site, vars, s),
    ensures
        runs_alike(host, func, at, instr, site, vars, tables, s),
{
    let ty = s.stack.last().ty();
    let v = s.stack.last();
    let n = vars.len();
    let tmp = consecutive(n, 1)[0];
    lemma_own_variables(s, vars, site.sig.params, 0, 1);
    assert(tmp.0 == n);
    assert(typed(top(s.stack, 1)) =~= seq![ty]);
    let a = State { stack: s.stack.drop_last(), locals: s.locals.update(n as int, v), ..s };
    let first = plain(seq![crate::trace::set(tmp)]);
    assert(run_instr(host, crate::trace::set(tmp), s) == Some(a));
    lemma_run_instr(host, crate::trace::set(tmp), s);
    let b = a.with_stack(a.stack + location(func, at));
    lemma_run_nothing(host, b);
    lemma_run_lowered(host, get(tmp), ty, b);
    lemma_lowered_one(v);
    assert(b.stack + Seq::<Val>::empty() =~= b.stack);
    assert(seq![] + seq![v] =~= seq![v]);
    assert(typed(seq![v]) =~= site.sig.params);
    lemma_run_told(
        host,
        first,
        func,
        at,
        seq![],
        seq![],
        lowered_instr(get(tmp), ty),
        seq![v],
        HookOp::Drop,
        site.sig.params,
        s,
        a,
    );
    assert(a.locals.take(n as int) =~= s.locals.take(n as int));
    assert(typed(a.locals) =~= typed(s.locals));
    let e = event(HookOp::Drop, site.sig.params, location(func, at), seq![v]);
    assert(s.log.push(e) =~= s.log + seq![e]);
}

#[verifier::rlimit(40)]
proof fn lemma_select(
    host: Host,
    func: FunctionIdx,
    at: InstrIdx,
    instr: Instr,
    site: Site,
    vars: Seq<ValType>,
    tables: nat,
    s: State,
)
    requires
        instr is Select,
        fits(host, instr, site, vars, s),
    ensures
        runs_alike(host, func, at, instr, site, vars, tables, s),
{
    let ty = site.sig.params[0];
    let n = vars.len();
    let tmp = consecutive(n, 3);
    let locals = seq![tmp[1], tmp[2], tmp[0]];
    let own = fresh(instr, site.sig);
    let all = vars + own;
    let vals = top(s.stack, 3);
    lemma_own_variables(s, vars, own, 0, 3);
    assert(tmp[0].0 == n && tmp[1].0 == n + 1 && tmp[2].0 == n + 2);
    assert(typed(values(s.locals, locals)) =~= seq![ty, ty, ValType::I32]);
    let a = lemma_run_saved(host, locals, s);
    assert(a.locals[n as int] == vals[2]) by {
        assert(values(a.locals, locals)[2] == vals[2]);
    }
    assert(typed(vals)[0] == vals[0].ty() && typed(vals)[1] == vals[1].ty() && typed(vals)[2]
        == vals[2].ty());
    let t = run_instr(host, instr, s)->0;
    assert(run_instr(host, instr, s) is Some);
    let b = run_instr(host, instr, a)->0;
    assert(b == t.with_locals(a.locals));
    let code = plain(saved(locals)) + plain(seq![instr]);
    lemma_run_add(host, plain(saved(locals)), plain(seq![instr]), s);
    lemma_run_instr(host, instr, a);
    let c = b.with_stack(b.stack + location(func, at));
    lemma_run_pushing(host, get(tmp[0]), vals[2], c);
    let d = c.with_stack(c.stack + lowered_vals(seq![vals[2]]));
    let args = seq![tmp[1], tmp[2]];
    lemma_types_kept(s, a, all);
    lemma_run_restored(host, args, all, d);
    assert(values(d.locals, args) =~= seq![vals[0], vals[1]]) by {
        assert(values(a.locals, locals)[0] == vals[0]);
        assert(values(a.locals, locals)[1] == vals[1]);
    }
    assert(seq![vals[2]] + seq![vals[0], vals[1]] =~= seq![vals[2], vals[0], vals[1]]);
    assert(typed(seq![vals[2], vals[0], vals[1]]) =~= seq![ValType::I32] + seq![ty, ty]);
    lemma_run_told(
        host,
        code,
        func,
        at,
        seq![get(tmp[0])],
        seq![vals[2]],
        restored(args, all),
        seq![vals[0], vals[1]],
        HookOp::Select,
        seq![ty, ty],
        s,
        b,
    );
    let e = event(HookOp::Select, seq![ty, ty], location(func, at), seq![vals[2], vals[0], vals[1]]);
    assert(s.log.push(e) =~= s.log + seq![e]);
    lemma_own_untouched(s, a, vars, locals);
}

proof fn lemma_local(
    host: Host,
    func: FunctionIdx,
    at: InstrIdx,
    instr: Instr,
    site: Site,
    vars: Seq<ValType>,
    tables: nat,
    s: State,
)
    requires
        instr is Local,
        fits(host, instr, site, vars, s),
    ensures
        runs_alike(host, func, at, instr, site, vars, tables, s),
{
    let op = instr->Local_0;
    let local = instr->Local_1;
    let ty = s.locals[local.0 as int].ty();
    lemma_types_kept(s, s, vars + fresh(instr, site.sig));
    assert(vars[local.0 as int] == ty);
    let t = run_instr(host, instr, s)->0;
    assert(run_instr(host, instr, s) is Some);
    assert(op is SetLocal || op is TeeLocal ==> typed(top(s.stack, 1))[0] == s.stack.last().ty());
    assert(typed(t.locals) =~= typed(s.locals));
    let val = t.locals[local.0 as int];
    assert(typed(t.locals)[local.0 as int] == val.ty());
    assert(val.ty() == ty);
    lemma_run_instr(host, instr, s);
    let a = t.with_stack(t.stack + location(func, at));
    let index = Val::I32(local.0 as i32);
    lemma_run_pushing(host, index_const(local.0), index, a);
    let b = a.with_stack(a.stack + lowered_vals(seq![index]));
    lemma_run_lowered(host, get(local), ty, b);
    lemma_lowered_one(val);
    assert(seq![index] + seq![val] =~= seq![index, val]);
    assert(typed(seq![index, val]) =~= seq![ValType::I32] + seq![ty]);
    lemma_run_told(
        host,
        plain(seq![instr]),
        func,
        at,
        seq![index_const(local.0)],
        seq![index],
        lowered_instr(get(local), ty),
        seq![val],
        HookOp::Local(op),
        seq![ty],
        s,
        t,
    );
    let e = event(HookOp::Local(op), seq![ty], location(func, at), seq![index, val]);
    assert(s.log.push(e) =~= s.log + seq![e]);
}

proof fn lemma_global(
    host: Host,
    func: FunctionIdx,
    at: InstrIdx,
    instr: Instr,
    site: Site,
    vars: Seq<ValType>,
    tables: nat,
    s: State,
)
    requires
        instr is Global,
        fits(host, instr, site, vars, s),
    ensures
        runs_alike(host, func, at, instr, site, vars, tables, s),
{
    let op = instr->Global_0;
    let global = instr->Global_1;
    let ty = s.globals[global.0 as int].ty();
    assert(global_value(op, site.sig) == ty);
    let t = run_instr(host, instr, s)->0;
    assert(run_instr(host, instr, s) is Some);
    assert(op is SetGlobal ==> typed(top(s.stack, 1))[0] == s.stack.last().ty());
    let val = t.globals[global.0 as int];
    assert(val.ty() == ty);
    lemma_run_instr(host, instr, s);
    let a = t.with_stack(t.stack + location(func, at));
    let index = Val::I32(global.0 as i32);
    let read = Instr::Global(GlobalOp::GetGlobal, global);
    lemma_run_pushing(host, index_const(global.0), index, a);
    let b = a.with_stack(a.stack + lowered_vals(seq![index]));
    lemma_run_lowered(host, read, ty, b);
    lemma_lowered_one(val);
    assert(seq![index] + seq![val] =~= seq![index, val]);
    assert(typed(seq![index, val]) =~= seq![ValType::I32] + seq![ty]);
    lemma_run_told(
        host,
        plain(seq![instr]),
        func,
        at,
        seq![index_const(global.0)],
        seq![index],
        lowered_instr(read, ty),
        seq![val],
        HookOp::Global(op),
        seq![ty],
        s,
        t,
    );
    let e = event(HookOp::Global(op), seq![ty], location(func, at), seq![index, val]);
    assert(s.log.push(e) =~= s.log + seq![e]);
}

proof fn lemma_memory_size(
    host: Host,
    func: FunctionIdx,
    at: InstrIdx,
    instr: Instr,
    site: Site,
    vars: Seq<ValType>,
    tables: nat,
    s: State,
)
    requires
        instr is MemorySize,
        fits(host, instr, site, vars, s),
    ensures
        runs_alike(host, func, at, instr, site, vars, tables, s),
{
    let val = Val::I32((host.memory_size)(s.world));
    let t = s.with_stack(s.stack.push(val));
    lemma_run_instr(host, instr, s);
    let a = t.with_stack(t.stack + location(func, at));
    lemma_run_pushing(host, instr, val, a);
    lemma_run_nothing(host, a.with_stack(a.stack + lowered_vals(seq![val])));
    assert(seq![val] + seq![] =~= seq![val]);
    assert(typed(seq![val]) =~= seq![ValType::I32]);
    lemma_run_told(
        host,
        plain(seq![instr]),
        func,
        at,
        seq![instr],
        seq![val],
        seq![],
        seq![],
        HookOp::MemorySize,
        seq![],
        s,
        t,
    );
    let e = event(HookOp::MemorySize, seq![], location(func, at), seq![val]);
    assert(s.log.push(e) =~= s.log + seq![e]);
}

proof fn lemma_const(
    host: Host,
    func: FunctionIdx,
    at: InstrIdx,
    instr: Instr,
    site: Site,
    vars: Seq<ValType>,
    tables: nat,
    s: State,
)
    requires
        instr is Const,
        fits(host, instr, site, vars, s),
    ensures
        runs_alike(host, func, at, instr, site, vars, tables, s),
{
    let val = instr->Const_0;
    let t = s.with_stack(s.stack.push(val));
    lemma_run_instr(host, instr, s);
    let a = t.with_stack(t.stack + location(func, at));
    lemma_run_nothing(host, a);
    assert(a.stack + Seq::<Val>::empty() =~= a.stack);
    lemma_run_lowered(host, instr, val.ty(), a);
    lemma_lowered_one(val);
    assert(seq![] + seq![val] =~= seq![val]);
    assert(typed(seq![val]) =~= seq![val.ty()]);
    lemma_run_told(
        host,
        plain(seq![instr]),
        func,
        at,
        seq![],
        seq![],
        lowered_instr(instr, val.ty()),
        seq![val],
        HookOp::Const(val.ty()),
        seq![],
        s,
        t,
    );
    let e = event(HookOp::Const(val.ty()), seq![], location(func, at), seq![val]);
    assert(s.log.push(e) =~= s.log + seq![e]);
}

/// Code that fails early fails.
proof fn lemma_fails(host: Host, a: Seq<Emit>, b: Seq<Emit>, c: Seq<Emit>, d: Seq<Emit>, e: Seq<Emit>, s: State)
    requires
        run(host, a, s) is None,
    ensures
        run(host, a + b + c + d, s) is None,
        run(host, a + b + c + d + e, s) is None,
{
    lemma_run_add(host, a, b, s);
    lemma_run_add(host, a + b, c, s);
    lemma_run_add(host, a + b + c, d, s);
    lemma_run_add(host, a + b + c + d, e, s);
}

/// What an operator, memory access or call does, it does whatever the variables hold and whatever
/// was logged.
proof fn lemma_ignores_locals(host: Host, instr: Instr, s: State, locals: Seq<Val>, log: Seq<Event>)
    requires
        instr is Numeric || instr is Select || instr is MemoryGrow || instr is Load || instr is Store
            || instr is Call || instr is CallIndirect,
    ensures
        run_instr(host, instr, State { locals, log, ..s }) == match run_instr(host, instr, s) {
            Some(t) => Some(State { locals, log, ..t }),
            None => None,
        },
        run_instr(host, instr, s) matches Some(t) ==> t.locals == s.locals && t.log == s.log,
{
}

/// A memory access with one operand and one result that are both kept in variables.
proof fn lemma_run_teed(host: Host, instr: Instr, vars: Seq<ValType>, ty: ValType, s: State)
    requires
        instr is MemoryGrow || instr is Load,
        effect_signature(host, instr).params == seq![ValType::I32],
        effect_signature(host, instr).results == seq![ty],
        has_variables(s, vars + seq![ValType::I32, ty]),
        ready(s.stack, seq![ValType::I32]),
    ensures
        ({
            let tmp = consecutive(vars.len(), 2);
            let code = plain(seq![tee(tmp[0]), instr, tee(tmp[1])]);
            match run_instr(host, instr, s) {
                Some(t) => {
                    &&& t.stack.len() > 0
                    &&& t.stack.last().ty() == ty
                    &&& run(host, code, s) == Some(
                        t.with_locals(
                            s.locals.update(vars.len() as int, s.stack.last()).update(
                                vars.len() as int + 1,
                                t.stack.last(),
                            ),
                        ),
                    )
                },
                None => run(host, code, s) is None,
            }
        }),
{
    let n = vars.len();
    let own = seq![ValType::I32, ty];
    let tmp = consecutive(n, 2);
    lemma_own_variables(s, vars, own, 0, 2);
    assert(tmp[0].0 == n && tmp[1].0 == n + 1);
    assert(typed(top(s.stack, 1))[0] == s.stack.last().ty());
    assert(typed(top(s.stack, 1)) =~= seq![s.locals[n as int].ty()]);
    let a = s.with_locals(s.locals.update(n as int, s.stack.last()));
    assert(run_instr(host, tee(tmp[0]), s) == Some(a));
    let i1 = seq![tee(tmp[0])];
    let i2 = i1.push(instr);
    assert(seq![tee(tmp[0]), instr, tee(tmp[1])] =~= i2.push(tee(tmp[1])));
    lemma_run_instr(host, tee(tmp[0]), s);
    lemma_run_push(host, i1, instr, s);
    lemma_run_push(host, i2, tee(tmp[1]), s);
    lemma_ignores_locals(host, instr, s, a.locals, s.log);
    match run_instr(host, instr, s) {
        Some(t) => {
            let results = t.stack.skip(t.stack.len() - 1);
            let b = t.with_locals(a.locals);
            assert(t.stack.last().ty() == ty) by {
                let (vals, _, _) = (host.effect)(
                    instr,
                    top(s.stack, 1),
                    s.globals.take(host.own_globals as int),
                    s.world,
                )->0;
                assert(typed(vals).len() == 1);
                assert(typed(vals)[0] == vals[0].ty());
                assert(t.stack == below(s.stack, 1) + vals);
            }
            assert(typed(top(b.stack, 1)) =~= seq![b.locals[n as int + 1].ty()]);
        },
        None => {},
    }
}

proof fn lemma_memory_grow(
    host: Host,
    func: FunctionIdx,
    at: InstrIdx,
    instr: Instr,
    site: Site,
    vars: Seq<ValType>,
    tables: nat,
    s: State,
)
    requires
        instr is MemoryGrow,
        fits(host, instr, site, vars, s),
    ensures
        runs_alike(host, func, at, instr, site, vars, tables, s),
{
    let n = vars.len();
    let own = fresh(instr, site.sig);
    let all = vars + own;
    let tmp = consecutive(n, 2);
    lemma_own_variables(s, vars, own, 0, 2);
    assert(tmp[0].0 == n && tmp[1].0 == n + 1);
    let code = plain(seq![tee(tmp[0]), instr, tee(tmp[1])]);
    lemma_run_teed(host, instr, vars, ValType::I32, s);
    match run_instr(host, instr, s) {
        Some(t) => {
            let (given, got) = (s.stack.last(), t.stack.last());
            let b = t.with_locals(s.locals.update(n as int, given).update(n as int + 1, got));
            assert(typed(top(s.stack, 1))[0] == given.ty());
            let c = b.with_stack(b.stack + location(func, at));
            lemma_run_pushing_2(host, get(tmp[0]), given, get(tmp[1]), got, c);
            lemma_run_nothing(host, c.with_stack(c.stack + lowered_vals(seq![given, got])));
            assert(seq![given, got] + seq![] =~= seq![given, got]);
            assert(typed(seq![given, got]) =~= own);
            lemma_run_told(
                host,
                code,
                func,
                at,
                seq![get(tmp[0]), get(tmp[1])],
                seq![given, got],
                seq![],
                seq![],
                HookOp::MemoryGrow,
                seq![],
                s,
                b,
            );
            let e = event(HookOp::MemoryGrow, seq![], location(func, at), seq![given, got]);
            assert(s.log.push(e) =~= s.log + seq![e]);
            assert(b.locals.take(n as int) =~= t.locals.take(n as int));
            assert(typed(b.locals) =~= typed(s.locals));
        },
        None => lemma_fails(
            host,
            code,
            located(func, at),
            plain(seq![get(tmp[0]), get(tmp[1])]),
            hook(HookOp::MemoryGrow, seq![]),
            seq![],
            s,
        ),
    }
}

proof fn lemma_load(
    host: Host,
    func: FunctionIdx,
    at: InstrIdx,
    instr: Instr,
    site: Site,
    vars: Seq<ValType>,
    tables: nat,
    s: State,
)
    requires
        instr is Load,
        fits(host, instr, site, vars, s),
    ensures
        runs_alike(host, func, at, instr, site, vars, tables, s),
{
    let n = vars.len();
    let own = fresh(instr, site.sig);
    let all = vars + own;
    let tmp = consecutive(n, 2);
    lemma_own_variables(s, vars, own, 0, 2);
    assert(tmp[0].0 == n && tmp[1].0 == n + 1);
    let code = plain(seq![tee(tmp[0]), instr, tee(tmp[1])]);
    let op = instr->Load_0;
    let memarg = instr->Load_1;
    let (offset, alignment) = (Val::I32(memarg.offset as i32), Val::I32(memarg.alignment as i32));
    let consts = seq![Instr::Const(offset), Instr::Const(alignment)];
    lemma_run_teed(host, instr, vars, op.value(), s);
    match run_instr(host, instr, s) {
        Some(t) => {
            let (given, got) = (s.stack.last(), t.stack.last());
            let b = t.with_locals(s.locals.update(n as int, given).update(n as int + 1, got));
            assert(typed(top(s.stack, 1))[0] == given.ty());
            assert(typed(b.locals) =~= typed(s.locals));
            lemma_types_kept(s, b, all);
            let c = b.with_stack(b.stack + location(func, at));
            lemma_run_pushing_2(host, consts[0], offset, consts[1], alignment, c);
            let d = c.with_stack(c.stack + lowered_vals(seq![offset, alignment]));
            lemma_run_restored(host, tmp, all, d);
            assert(values(d.locals, tmp) =~= seq![given, got]);
            let vals = seq![offset, alignment, given, got];
            assert(seq![offset, alignment] + seq![given, got] =~= vals);
            assert(typed(vals) =~= seq![ValType::I32, ValType::I32, ValType::I32, op.value()]);
            lemma_run_told(
                host,
                code,
                func,
                at,
                consts,
                seq![offset, alignment],
                restored(tmp, all),
                seq![given, got],
                HookOp::Load(op),
                seq![],
                s,
                b,
            );
            let e = event(HookOp::Load(op), seq![], location(func, at), vals);
            assert(s.log.push(e) =~= s.log + seq![e]);
            assert(b.locals.take(n as int) =~= t.locals.take(n as int));
        },
        None => lemma_fails(
            host,
            code,
            located(func, at),
            plain(consts),
            plain(restored(tmp, all)),
            hook(HookOp::Load(op), seq![]),
            s,
        ),
    }
}

#[verifier::rlimit(40)]
proof fn lemma_store(
    host: Host,
    func: FunctionIdx,
    at: InstrIdx,
    instr: Instr,
    site: Site,
    vars: Seq<ValType>,
    tables: nat,
    s: State,
)
    requires
        instr is Store,
        fits(host, instr, site, vars, s),
    ensures
        runs_alike(host, func, at, instr, site, vars, tables, s),
{
    let n = vars.len();
    let own = fresh(instr, site.sig);
    let all = vars + own;
    let tmp = consecutive(n, 2);
    let op = instr->Store_0;
    let memarg = instr->Store_1;
    let (offset, alignment) = (Val::I32(memarg.offset as i32), Val::I32(memarg.alignment as i32));
    let consts = seq![Instr::Const(offset), Instr::Const(alignment)];
    let given = top(s.stack, 2);
    lemma_own_variables(s, vars, own, 0, 2);
    assert(own.subrange(0, 2) =~= op.signature().params);
    let a = lemma_run_saved(host, tmp, s);
    let code = plain(saved(tmp)) + plain(seq![instr]);
    lemma_run_add(host, plain(saved(tmp)), plain(seq![instr]), s);
    lemma_run_instr(host, instr, a);
    lemma_ignores_locals(host, instr, s, a.locals, s.log);
    match run_instr(host, instr, s) {
        Some(t) => {
            let b = t.with_locals(a.locals);
            lemma_types_kept(s, b, all);
            let c = b.with_stack(b.stack + location(func, at));
            lemma_run_pushing_2(host, consts[0], offset, consts[1], alignment, c);
            let d = c.with_stack(c.stack + lowered_vals(seq![offset, alignment]));
            lemma_run_restored(host, tmp, all, d);
            lemma_typed_add(seq![offset, alignment], given);
            assert(typed(seq![offset, alignment]) =~= seq![ValType::I32, ValType::I32]);
            assert(seq![ValType::I32, ValType::I32] + op.signature().params =~= seq![
                ValType::I32,
                ValType::I32,
                ValType::I32,
                op.value(),
            ]);
            lemma_run_told(
                host,
                code,
                func,
                at,
                consts,
                seq![offset, alignment],
                restored(tmp, all),
                given,
                HookOp::Store(op),
                seq![],
                s,
                b,
            );
            let e = event(
                HookOp::Store(op),
                seq![],
                location(func, at),
                seq![offset, alignment] + given,
            );
            assert(s.log.push(e) =~= s.log + seq![e]);
            lemma_own_untouched(s, a, vars, tmp);
        },
        None => lemma_fails(
            host,
            code,
            located(func, at),
            plain(consts),
            plain(restored(tmp, all)),
            hook(HookOp::Store(op), seq![]),
            s,
        ),
    }
}

/// Values that were saved, and others behind them.
proof fn lemma_saved_one_after_the_other(
    n: nat,
    p: nat,
    r: nat,
    given: Seq<Val>,
    got: Seq<Val>,
    before: Seq<Val>,
    after: Seq<Val>,
)
    requires
        n + p + r <= before.len() <= usize::MAX,
        values(before, consecutive(n, p)) == given,
        stored(before, after, consecutive(n + p, r), got),
    ensures
        values(after, consecutive(n, p) + consecutive(n + p, r)) == given + got,
{
    let inputs = consecutive(n, p);
    let results = consecutive(n + p, r);
    assert(values(after, inputs) =~= given) by {
        assert forall|i: int| 0 <= i < p implies values(after, inputs)[i] == given[i] by {
            assert(inputs[i].0 == n + i);
            assert(values(before, inputs)[i] == given[i]);
            assert(!results.contains(LocalIdx((n + i) as usize))) by {
                assert forall|j: int| 0 <= j < r implies results[j] != LocalIdx((n + i) as usize) by {
                    assert(results[j].0 == n + p + j);
                }
            }
            assert(after[n + i] == before[n + i]);
        }
    }
    assert(values(after, inputs + results) =~= values(after, inputs) + values(after, results));
}

/// Code whose operands and results are kept in variables.
proof fn lemma_run_kept(
    host: Host,
    code: Seq<Emit>,
    vars: Seq<ValType>,
    params: Seq<ValType>,
    gives: Seq<ValType>,
    s: State,
    t: State,
) -> (u: State)
    requires
        has_variables(s, vars + (params + gives)),
        ready(s.stack, params),
        ready(t.stack, gives),
        forall|locals: Seq<Val>|
            #![trigger s.with_locals(locals)]
            run(host, code, s.with_locals(locals)) == Some(t.with_locals(locals)),
    ensures
        ({
            let n = vars.len();
            let inputs = consecutive(n, params.len());
            let results = consecutive(n + params.len(), gives.len());
            &&& run(host, plain(saved(inputs)) + code + plain(saved(results)), s) == Some(u)
            &&& u == t.with_locals(u.locals)
            &&& values(u.locals, inputs + results) == top(s.stack, params.len()) + top(
                t.stack,
                gives.len(),
            )
            &&& typed(u.locals) == typed(s.locals)
            &&& u.locals.take(n as int) == s.locals.take(n as int)
        }),
{
    let n = vars.len();
    let own = params + gives;
    let all = vars + own;
    let inputs = consecutive(n, params.len());
    let results = consecutive(n + params.len(), gives.len());
    let (given, got) = (top(s.stack, params.len()), top(t.stack, gives.len()));
    lemma_own_variables(s, vars, own, 0, params.len());
    assert(own.subrange(0, params.len() as int) =~= params);
    assert(own.subrange(params.len() as int, (params.len() + gives.len()) as int) =~= gives);
    let a = lemma_run_saved(host, inputs, s);
    lemma_run_add(host, plain(saved(inputs)), code, s);
    lemma_run_add(host, plain(saved(inputs)) + code, plain(saved(results)), s);
    assert(a == s.with_locals(a.locals));
    let b = t.with_locals(a.locals);
    lemma_types_kept(s, b, all);
    lemma_own_variables(b, vars, own, params.len(), gives.len());
    let c = lemma_run_saved(host, results, b);
    lemma_saved_one_after_the_other(
        n,
        params.len(),
        gives.len(),
        given,
        got,
        a.locals,
        c.locals,
    );
    lemma_own_untouched(s, a, vars, inputs);
    lemma_own_untouched(b, c, vars, results);
    c
}

/// Code that ends in state `t`, followed by the call of a hook with the values of variables.
proof fn lemma_run_reported(
    host: Host,
    code: Seq<Emit>,
    func: FunctionIdx,
    at: InstrIdx,
    locals: Seq<LocalIdx>,
    vars: Seq<ValType>,
    op: HookOp,
    tys: Seq<ValType>,
    s: State,
    t: State,
)
    requires
        run(host, code, s) == Some(t),
        has_variables(t, vars),
        forall|i: int| 0 <= i < locals.len() ==> (#[trigger] locals[i]).0 < vars.len(),
        typed(values(t.locals, locals)) == (HookId { op, tys }).args(),
    ensures
        run(host, code + located(func, at) + plain(restored(locals, vars)) + hook(op, tys), s) == Some(
            t.with_event(event(op, tys, location(func, at), values(t.locals, locals))),
        ),
{
    let vals = values(t.locals, locals);
    let a = t.with_stack(t.stack + location(func, at));
    lemma_types_kept(t, t, vars);
    lemma_run_nothing(host, a);
    assert(a.stack + Seq::<Val>::empty() =~= a.stack);
    lemma_run_restored(host, locals, vars, a);
    assert(seq![] + vals =~= vals);
    lemma_run_told(
        host,
        code,
        func,
        at,
        seq![],
        seq![],
        restored(locals, vars),
        vals,
        op,
        tys,
        s,
        t,
    );
}

/// An operator whose operands and results are kept in variables and then handed to a hook.
proof fn lemma_run_computed(
    host: Host,
    func: FunctionIdx,
    at: InstrIdx,
    code: Seq<Emit>,
    vars: Seq<ValType>,
    params: Seq<ValType>,
    gives: Seq<ValType>,
    op: HookOp,
    s: State,
    t: State,
) -> (u: State)
    requires
        has_variables(s, vars + (params + gives)),
        ready(s.stack, params),
        ready(t.stack, gives),
        forall|locals: Seq<Val>|
            #![trigger s.with_locals(locals)]
            run(host, code, s.with_locals(locals)) == Some(t.with_locals(locals)),
        t.locals == s.locals,
        (HookId { op, tys: seq![] }).args() == params + gives,
    ensures
        ({
            let n = vars.len();
            let inputs = consecutive(n, params.len());
            let results = consecutive(n + params.len(), gives.len());
            &&& run(
                host,
                plain(saved(inputs)) + code + plain(saved(results)) + located(func, at) + plain(
                    restored(inputs + results, vars + (params + gives)),
                ) + hook(op, seq![]),
                s,
            ) == Some(u)
            &&& undisturbed(t, u, n)
            &&& u.log == t.log.push(
                event(
                    op,
                    seq![],
                    location(func, at),
                    top(s.stack, params.len()) + top(t.stack, gives.len()),
                ),
            )
        }),
{
    let n = vars.len();
    let all = vars + (params + gives);
    let inputs = consecutive(n, params.len());
    let results = consecutive(n + params.len(), gives.len());
    let (given, got) = (top(s.stack, params.len()), top(t.stack, gives.len()));
    let c = lemma_run_kept(host, code, vars, params, gives, s, t);
    lemma_types_kept(s, c, all);
    lemma_typed_add(given, got);
    lemma_run_reported(
        host,
        plain(saved(inputs)) + code + plain(saved(results)),
        func,
        at,
        inputs + results,
        all,
        op,
        seq![],
        s,
        c,
    );
    c.with_event(event(op, seq![], location(func, at), given + got))
}

proof fn lemma_numeric(
    host: Host,
    func: FunctionIdx,
    at: InstrIdx,
    instr: Instr,
    site: Site,
    vars: Seq<ValType>,
    tables: nat,
    s: State,
)
    requires
        instr is Numeric,
        fits(host, instr, site, vars, s),
    ensures
        runs_alike(host, func, at, instr, site, vars, tables, s),
{
    let op = instr->Numeric_0;
    let (params, gives) = (op.signature().params, op.signature().results);
    let code = plain(seq![instr]);
    assert forall|locals: Seq<Val>|
        #![trigger s.with_locals(locals)]
        run(host, code, s.with_locals(locals)) == match run_instr(host, instr, s) {
            Some(t) => Some(t.with_locals(locals)),
            None => None,
        } by {
        lemma_run_instr(host, instr, s.with_locals(locals));
        lemma_ignores_locals(host, instr, s, locals, s.log);
    }
    match run_instr(host, instr, s) {
        Some(t) => {
            assert(top(t.stack, 1) =~= seq![t.stack.last()]);
            assert(typed(top(t.stack, 1)) =~= gives);
            let u = lemma_run_computed(
                host,
                func,
                at,
                code,
                vars,
                params,
                gives,
                HookOp::Numeric(op),
                s,
                t,
            );
            let e = u.log.last();
            assert(s.log.push(e) =~= s.log + seq![e]);
        },
        None => lemma_numeric_fails(host, func, at, instr, vars, params, gives, HookOp::Numeric(op), s),
    }
}

/// An operator that traps.
proof fn lemma_numeric_fails(
    host: Host,
    func: FunctionIdx,
    at: InstrIdx,
    instr: Instr,
    vars: Seq<ValType>,
    params: Seq<ValType>,
    gives: Seq<ValType>,
    op: HookOp,
    s: State,
)
    requires
        has_variables(s, vars + (params + gives)),
        ready(s.stack, params),
        forall|locals: Seq<Val>|
            #![trigger s.with_locals(locals)]
            run(host, plain(seq![instr]), s.with_locals(locals)) is None,
    ensures
        ({
            let n = vars.len();
            let inputs = consecutive(n, params.len());
            let results = consecutive(n + params.len(), gives.len());
            run(
                host,
                plain(saved(inputs)) + plain(seq![instr]) + plain(saved(results)) + located(func, at)
                    + plain(restored(inputs + results, vars + (params + gives))) + hook(op, seq![]),
                s,
            ) is None
        }),
{
    let n = vars.len();
    let own = params + gives;
    let inputs = consecutive(n, params.len());
    let results = consecutive(n + params.len(), gives.len());
    let code = plain(saved(inputs)) + plain(seq![instr]);
    lemma_own_variables(s, vars, own, 0, params.len());
    assert(own.subrange(0, params.len() as int) =~= params);
    let a = lemma_run_saved(host, inputs, s);
    assert(a == s.with_locals(a.locals));
    lemma_run_add(host, plain(saved(inputs)), plain(seq![instr]), s);
    lemma_fails(
        host,
        code,
        plain(saved(results)),
        located(func, at),
        plain(restored(inputs + results, vars + own)),
        hook(op, seq![]),
        s,
    );
}

/// The code behind a call reports the results and leaves them on the stack.
proof fn lemma_run_returned(
    host: Host,
    func: FunctionIdx,
    at: InstrIdx,
    vars: Seq<ValType>,
    own: Seq<ValType>,
    from: nat,
    tys: Seq<ValType>,
    s: State,
) -> (u: State)
    requires
        has_variables(s, vars + own),
        from + tys.len() <= own.len(),
        own.subrange(from as int, (from + tys.len()) as int) == tys,
        ready(s.stack, tys),
    ensures
        run(
            host,
            after_call(
                located(func, at),
                consecutive(vars.len() + from, tys.len()),
                vars + own,
                tys,
            ),
            s,
        ) == Some(u),
        undisturbed(s, u, vars.len()),
        u.log == s.log.push(
            event(HookOp::CallPost, tys, location(func, at), top(s.stack, tys.len())),
        ),
{
    let locals = consecutive(vars.len() + from, tys.len());
    let all = vars + own;
    let vals = top(s.stack, tys.len());
    lemma_own_variables(s, vars, own, from, tys.len());
    let a = lemma_run_saved(host, locals, s);
    lemma_types_kept(s, a, all);
    lemma_own_variables(a, vars, own, from, tys.len());
    lemma_run_reported(
        host,
        plain(saved(locals)),
        func,
        at,
        locals,
        all,
        HookOp::CallPost,
        tys,
        s,
        a,
    );
    lemma_own_untouched(s, a, vars, locals);
    a.with_event(event(HookOp::CallPost, tys, location(func, at), vals))
}

/// The code ahead of a call.
pub open spec fn ahead_of_call(func: FunctionIdx, at: InstrIdx, instr: Instr, sig: Signature, vars: Seq<ValType>) -> Seq<
    Emit,
> {
    let n = vars.len();
    let all = vars + fresh(instr, sig);
    let tmp = consecutive(n, fresh(instr, sig).len());
    match instr {
        Instr::Call(callee) => {
            let args = consecutive(n, sig.params.len());
            plain(saved(args)) + located(func, at) + plain(seq![index_const(callee.0)]) + plain(
                restored(args, all),
            ) + hook(HookOp::Call, sig.params)
        },
        _ => {
            let args = consecutive(n + 1, sig.params.len());
            plain(seq![crate::trace::set(tmp[0])]) + plain(saved(args)) + plain(seq![get(tmp[0])])
                + located(func, at) + plain(seq![get(tmp[0])]) + plain(restored(args, all)) + hook(
                HookOp::CallIndirect,
                sig.params,
            )
        },
    }
}

/// The code ahead of a direct call reports it and changes nothing else.
pub(crate) proof fn lemma_run_ahead_of_call(
    host: Host,
    func: FunctionIdx,
    at: InstrIdx,
    instr: Instr,
    site: Site,
    vars: Seq<ValType>,
    s: State,
) -> (u: State)
    requires
        instr is Call,
        fits(host, instr, site, vars, s),
    ensures
        run(host, ahead_of_call(func, at, instr, site.sig, vars), s) == Some(u),
        undisturbed(s, u, vars.len()),
        u.log == s.log.push(
            event(
                HookOp::Call,
                site.sig.params,
                location(func, at),
                seq![Val::I32((instr->Call_0).0 as i32)] + top(s.stack, site.sig.params.len()),
            ),
        ),
{
    let n = vars.len();
    let callee = instr->Call_0;
    let params = site.sig.params;
    let own = fresh(instr, site.sig);
    let all = vars + own;
    let args = consecutive(n, params.len());
    let given = top(s.stack, params.len());
    let index = Val::I32(callee.0 as i32);
    lemma_own_variables(s, vars, own, 0, params.len());
    assert(own.subrange(0, params.len() as int) =~= params);
    let a = lemma_run_saved(host, args, s);
    lemma_types_kept(s, a, all);
    lemma_own_variables(a, vars, own, 0, params.len());
    let b = a.with_stack(a.stack + location(func, at));
    lemma_run_pushing(host, index_const(callee.0), index, b);
    let c = b.with_stack(b.stack + lowered_vals(seq![index]));
    lemma_run_restored(host, args, all, c);
    lemma_typed_add(seq![index], given);
    assert(typed(seq![index]) =~= seq![ValType::I32]);
    lemma_run_told(
        host,
        plain(saved(args)),
        func,
        at,
        seq![index_const(callee.0)],
        seq![index],
        restored(args, all),
        given,
        HookOp::Call,
        params,
        s,
        a,
    );
    lemma_own_untouched(s, a, vars, args);
    a.with_event(event(HookOp::Call, params, location(func, at), seq![index] + given))
}

/// The code ahead of an indirect call reports it and changes nothing else.
#[verifier::rlimit(40)]
pub(crate) proof fn lemma_run_ahead_of_indirect_call(
    host: Host,
    func: FunctionIdx,
    at: InstrIdx,
    instr: Instr,
    site: Site,
    vars: Seq<ValType>,
    s: State,
) -> (u: State)
    requires
        instr is CallIndirect,
        fits(host, instr, site, vars, s),
    ensures
        run(host, ahead_of_call(func, at, instr, site.sig, vars), s) == Some(u),
        undisturbed(s, u, vars.len()),
        u.log == s.log.push(
            event(
                HookOp::CallIndirect,
                site.sig.params,
                location(func, at),
                seq![s.stack.last()] + top(s.stack.drop_last(), site.sig.params.len()),
            ),
        ),
{
    let n = vars.len();
    let params = site.sig.params;
    let own = fresh(instr, site.sig);
    let all = vars + own;
    let tmp = consecutive(n, own.len())[0];
    let args = consecutive(n + 1, params.len());
    let index = s.stack.last();
    let given = top(s.stack.drop_last(), params.len());
    let operands = top(s.stack, params.len() + 1);
    lemma_own_variables(s, vars, own, 0, 1);
    assert(tmp == consecutive(n, 1)[0]);
    assert(tmp.0 == n);
    assert((params + seq![ValType::I32]).len() == params.len() + 1);
    assert(operands =~= given.push(index));
    assert(typed(operands)[params.len() as int] == index.ty());
    assert(typed(given) =~= params) by {
        assert(typed(given) =~= typed(operands).drop_last());
        assert((params + seq![ValType::I32]).drop_last() =~= params);
    }
    assert(typed(top(s.stack, 1)) =~= seq![s.locals[n as int].ty()]);
    // the index goes into its variable
    let a = State { stack: s.stack.drop_last(), locals: s.locals.update(n as int, index), ..s };
    let code_1 = plain(seq![crate::trace::set(tmp)]);
    assert(run_instr(host, crate::trace::set(tmp), s) == Some(a));
    lemma_run_instr(host, crate::trace::set(tmp), s);
    assert(typed(a.locals) =~= typed(s.locals));
    lemma_types_kept(s, a, all);
    // the arguments go into theirs
    lemma_own_variables(a, vars, own, 1, params.len());
    assert(own.subrange(1, (1 + params.len()) as int) =~= params);
    let b = lemma_run_saved(host, args, a);
    lemma_types_kept(s, b, all);
    lemma_own_variables(b, vars, own, 1, params.len());
    assert(!args.contains(LocalIdx(n as int as usize)));
    assert(b.locals[n as int] == index);
    let code_2 = code_1 + plain(saved(args));
    lemma_run_add(host, code_1, plain(saved(args)), s);
    // and the index comes back
    let c = b.with_stack(b.stack.push(index));
    let code_3 = code_2 + plain(seq![get(tmp)]);
    lemma_run_add(host, code_2, plain(seq![get(tmp)]), s);
    lemma_run_instr(host, get(tmp), b);
    assert(c.stack =~= s.stack);
    let d = c.with_stack(c.stack + location(func, at));
    lemma_run_pushing(host, get(tmp), index, d);
    let e = d.with_stack(d.stack + lowered_vals(seq![index]));
    lemma_run_restored(host, args, all, e);
    lemma_typed_add(seq![index], given);
    assert(typed(seq![index]) =~= seq![ValType::I32]);
    lemma_run_told(
        host,
        code_3,
        func,
        at,
        seq![get(tmp)],
        seq![index],
        restored(args, all),
        given,
        HookOp::CallIndirect,
        params,
        s,
        c,
    );
    lemma_own_untouched(a, b, vars, args);
    assert(a.locals.take(n as int) =~= s.locals.take(n as int));
    c.with_event(event(HookOp::CallIndirect, params, location(func, at), seq![index] + given))
}

/// A call between the code that announces it and the code that reports its results.
proof fn lemma_any_call(
    host: Host,
    func: FunctionIdx,
    at: InstrIdx,
    instr: Instr,
    site: Site,
    vars: Seq<ValType>,
    from: nat,
    s: State,
    u: State,
)
    requires
        instr is Call || instr is CallIndirect,
        fits(host, instr, site, vars, s),
        effect_signature(host, instr).results == site.sig.results,
        run(host, ahead_of_call(func, at, instr, site.sig, vars), s) == Some(u),
        undisturbed(s, u, vars.len()),
        from + site.sig.results.len() == fresh(instr, site.sig).len(),
        fresh(instr, site.sig).skip(from as int) == site.sig.results,
    ensures
        ({
            let results = site.sig.results;
            let after = run(
                host,
                ahead_of_call(func, at, instr, site.sig, vars) + plain(seq![instr]) + after_call(
                    located(func, at),
                    consecutive(vars.len() + from, results.len()),
                    vars + fresh(instr, site.sig),
                    results,
                ),
                s,
            );
            match run_instr(host, instr, s) {
                Some(t) => after matches Some(v) && undisturbed(t, v, vars.len()) && v.log == u.log.push(
                    event(
                        HookOp::CallPost,
                        results,
                        location(func, at),
                        top(t.stack, results.len()),
                    ),
                ),
                None => after is None,
            }
        }),
{
    let results = site.sig.results;
    let own = fresh(instr, site.sig);
    let all = vars + own;
    let code_1 = ahead_of_call(func, at, instr, site.sig, vars);
    let code_2 = code_1 + plain(seq![instr]);
    let code_3 = after_call(
        located(func, at),
        consecutive(vars.len() + from, results.len()),
        all,
        results,
    );
    lemma_run_add(host, code_1, plain(seq![instr]), s);
    lemma_run_instr(host, instr, u);
    lemma_ignores_locals(host, instr, s, u.locals, u.log);
    assert(u == (State { locals: u.locals, log: u.log, ..s }));
    lemma_run_add(host, code_2, code_3, s);
    match run_instr(host, instr, s) {
        Some(t) => {
            let w = State { locals: u.locals, log: u.log, ..t };
            lemma_types_kept(s, w, all);
            assert(own.subrange(from as int, (from + results.len()) as int) =~= results) by {
                assert(own.skip(from as int) =~= own.subrange(from as int, own.len() as int));
            }
            let sig = effect_signature(host, instr);
            let (vals, _, _) = (host.effect)(
                instr,
                top(s.stack, sig.params.len()),
                s.globals.take(host.own_globals as int),
                s.world,
            )->0;
            assert(typed(vals).len() == vals.len());
            lemma_top(below(s.stack, sig.params.len()), vals);
            assert(ready(w.stack, results));
            let v = lemma_run_returned(host, func, at, vars, own, from, results, w);
        },
        None => {},
    }
}

proof fn lemma_call(
    host: Host,
    func: FunctionIdx,
    at: InstrIdx,
    instr: Instr,
    site: Site,
    vars: Seq<ValType>,
    tables: nat,
    s: State,
)
    requires
        instr is Call,
        fits(host, instr, site, vars, s),
    ensures
        runs_alike(host, func, at, instr, site, vars, tables, s),
{
    let sig = site.sig;
    let own = fresh(instr, sig);
    assert(own.skip(sig.params.len() as int) =~= sig.results);
    let u = lemma_run_ahead_of_call(host, func, at, instr, site, vars, s);
    lemma_any_call(host, func, at, instr, site, vars, sig.params.len(), s, u);
    if let Some(t) = run_instr(host, instr, s) {
        let events = told(host, func, at, instr, s, t);
        assert(s.log.push(events[0]).push(events[1]) =~= s.log + events);
    }
}

proof fn lemma_call_indirect(
    host: Host,
    func: FunctionIdx,
    at: InstrIdx,
    instr: Instr,
    site: Site,
    vars: Seq<ValType>,
    tables: nat,
    s: State,
)
    requires
        instr is CallIndirect,
        fits(host, instr, site, vars, s),
    ensures
        runs_alike(host, func, at, instr, site, vars, tables, s),
{
    let sig = site.sig;
    let own = fresh(instr, sig);
    assert(own.skip(1 + sig.params.len() as int) =~= sig.results);
    let u = lemma_run_ahead_of_indirect_call(host, func, at, instr, site, vars, s);
    lemma_any_call(host, func, at, instr, site, vars, 1 + sig.params.len(), s, u);
    assert(vars.len() + (1 + sig.params.len()) == vars.len() + 1 + sig.params.len());
    if let Some(t) = run_instr(host, instr, s) {
        let events = told(host, func, at, instr, s, t);
        assert(s.log.push(events[0]).push(events[1]) =~= s.log + events);
    }
}

/// The code for a straight instruction does what the instruction does, and reports it.
pub(crate) proof fn lemma_straight(
    host: Host,
    func: FunctionIdx,
    at: InstrIdx,
    instr: Instr,
    site: Site,
    vars: Seq<ValType>,
    tables: nat,
    s: State,
)
    requires
        is_straight(instr),
        fits(host, instr, site, vars, s),
    ensures
        runs_alike(host, func, at, instr, site, vars, tables, s),
{
    match instr {
        Instr::Nop => lemma_nop(host, func, at, instr, site, vars, tables, s),
        Instr::Call(_) => lemma_call(host, func, at, instr, site, vars, tables, s),
        Instr::CallIndirect(_, _) => lemma_call_indirect(host, func, at, instr, site, vars, tables, s),
        Instr::Drop => lemma_drop(host, func, at, instr, site, vars, tables, s),
        Instr::Select => lemma_select(host, func, at, instr, site, vars, tables, s),
        Instr::Local(_, _) => lemma_local(host, func, at, instr, site, vars, tables, s),
        Instr::Global(_, _) => lemma_global(host, func, at, instr, site, vars, tables, s),
        Instr::MemorySize(_) => lemma_memory_size(host, func, at, instr, site, vars, tables, s),
        Instr::MemoryGrow(_) => lemma_memory_grow(host, func, at, instr, site, vars, tables, s),
        Instr::Load(_, _) => lemma_load(host, func, at, instr, site, vars, tables, s),
        Instr::Store(_, _) => lemma_store(host, func, at, instr, site, vars, tables, s),
        Instr::Const(_) => lemma_const(host, func, at, instr, site, vars, tables, s),
        Instr::Numeric(_) => lemma_numeric(host, func, at, instr, site, vars, tables, s),
        _ => {},
    }
}

} // verus!
