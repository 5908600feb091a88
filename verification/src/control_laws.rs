//! What holds of the code for instructions that open, switch or leave a block, branch or call, and
//! of the code at the entry and at the end of a function: it observes, and leaves alone what it
//! observes.
use vstd::prelude::*;

use crate::ast::{
    consecutive, index_const, FunctionIdx, GlobalIdx, GlobalOp, Instr, InstrIdx, Val, ValType,
};
use crate::block_stack::{BlockKind, BlockStackElement};
use crate::chunk_lemmas::{
    ahead_of_call, event, has_variables, is_straight, lemma_own_untouched, lemma_own_variables,
    lemma_run_ahead_of_call, lemma_run_ahead_of_indirect_call, lemma_run_nothing, lemma_run_pushing,
    lemma_run_pushing_2, lemma_run_report, lemma_run_told, lemma_types_kept, undisturbed,
};
use crate::hook_map::{HookId, HookOp};
use crate::laws::runs_in;
use crate::machine::{lowered_val, lowered_vals, ready, run, run_instr, top, typed, Event, Host, State};
use crate::machine_lemmas::{
    lemma_lowered_add, lemma_lowered_one, lemma_run_add, lemma_run_instr, lemma_run_located_outside,
    lemma_run_push, lemma_run_restored, lemma_run_saved, location, location_outside,
};
use crate::trace::{
    after_call, block_begins, chunk, epilogue, fresh, get, hook, if_begin, located, located_outside,
    plain, prologue, restored, saved, start_prologue, tee, Emit, Site,
};
use crate::walk::{admits, signature_at, site_at, Scope, Walked};

verus! {

/// The values that are pushed for where the block that is left began.
pub open spec fn begins(block: BlockStackElement) -> Seq<Val> {
    match block {
        BlockStackElement::Function { .. } => seq![],
        BlockStackElement::Block { begin, .. } => seq![Val::I32(begin.0 as i32)],
        BlockStackElement::Loop { begin, .. } => seq![Val::I32(begin.0 as i32)],
        BlockStackElement::If { begin_if, .. } => seq![Val::I32(begin_if.0 as i32)],
        BlockStackElement::Else { begin_if, begin_else, .. } => seq![
            Val::I32(begin_if.0 as i32),
            Val::I32(begin_else.0 as i32),
        ],
    }
}

/// Code that observes: it runs to the state it began with, but for the log and the variables from
/// index `n` on.
pub open spec fn observes(host: Host, code: Seq<Emit>, n: nat, s: State, events: Seq<Event>) -> bool {
    run(host, code, s) matches Some(u) && undisturbed(s, u, n) && u.log == s.log + events
}

/// Code that pushes a location and constants or variables and calls a hook with them.
proof fn lemma_observes(
    host: Host,
    func: FunctionIdx,
    at: InstrIdx,
    push: Seq<Instr>,
    vals: Seq<Val>,
    op: HookOp,
    n: nat,
    s: State,
)
    requires
        ({
            let a = s.with_stack(s.stack + location(func, at));
            run(host, plain(push), a) == Some(a.with_stack(a.stack + lowered_vals(vals)))
        }),
        typed(vals) == (HookId { op, tys: seq![] }).args(),
    ensures
        observes(
            host,
            located(func, at) + plain(push) + hook(op, seq![]),
            n,
            s,
            seq![event(op, seq![], location(func, at), vals)],
        ),
        push.len() == 0 ==> observes(
            host,
            located(func, at) + hook(op, seq![]),
            n,
            s,
            seq![event(op, seq![], location(func, at), vals)],
        ),
{
    let none: Seq<Emit> = seq![];
    let a = s.with_stack(s.stack + location(func, at));
    lemma_run_nothing(host, a.with_stack(a.stack + lowered_vals(vals)));
    assert(vals + seq![] =~= vals);
    lemma_run_told(host, none, func, at, push, vals, seq![], seq![], op, seq![], s, s);
    assert(none + located(func, at) =~= located(func, at));
    let e = event(op, seq![], location(func, at), vals);
    assert(s.log.push(e) =~= s.log + seq![e]);
    if push.len() == 0 {
        assert(located(func, at) + plain(push) =~= located(func, at));
    }
}

/// A location alone.
proof fn lemma_observes_place(host: Host, func: FunctionIdx, at: InstrIdx, op: HookOp, n: nat, s: State)
    requires
        (HookId { op, tys: seq![] }).args() == Seq::<ValType>::empty(),
    ensures
        observes(
            host,
            located(func, at) + hook(op, seq![]),
            n,
            s,
            seq![event(op, seq![], location(func, at), seq![])],
        ),
{
    lemma_run_nothing(host, s.with_stack(s.stack + location(func, at)));
    assert(typed(Seq::<Val>::empty()) =~= seq![]);
    lemma_observes(host, func, at, seq![], seq![], op, n, s);
}

/// A location and an index.
proof fn lemma_observes_index(
    host: Host,
    func: FunctionIdx,
    at: InstrIdx,
    index: usize,
    op: HookOp,
    n: nat,
    s: State,
)
    requires
        (HookId { op, tys: seq![] }).args() == seq![ValType::I32],
    ensures
        observes(
            host,
            located(func, at) + plain(seq![index_const(index)]) + hook(op, seq![]),
            n,
            s,
            seq![event(op, seq![], location(func, at), seq![Val::I32(index as i32)])],
        ),
{
    let val = Val::I32(index as i32);
    lemma_run_pushing(host, index_const(index), val, s.with_stack(s.stack + location(func, at)));
    assert(typed(seq![val]) =~= seq![ValType::I32]);
    lemma_observes(host, func, at, seq![index_const(index)], seq![val], op, n, s);
}

/// A location and two indices.
proof fn lemma_observes_indices(
    host: Host,
    func: FunctionIdx,
    at: InstrIdx,
    index_1: usize,
    index_2: usize,
    op: HookOp,
    n: nat,
    s: State,
)
    requires
        (HookId { op, tys: seq![] }).args() == seq![ValType::I32, ValType::I32],
    ensures
        observes(
            host,
            located(func, at) + plain(seq![index_const(index_1), index_const(index_2)]) + hook(
                op,
                seq![],
            ),
            n,
            s,
            seq![
                event(
                    op,
                    seq![],
                    location(func, at),
                    seq![Val::I32(index_1 as i32), Val::I32(index_2 as i32)],
                ),
            ],
        ),
{
    let (val_1, val_2) = (Val::I32(index_1 as i32), Val::I32(index_2 as i32));
    let a = s.with_stack(s.stack + location(func, at));
    lemma_run_pushing_2(host, index_const(index_1), val_1, index_const(index_2), val_2, a);
    assert(typed(seq![val_1, val_2]) =~= seq![ValType::I32, ValType::I32]);
    lemma_observes(
        host,
        func,
        at,
        seq![index_const(index_1), index_const(index_2)],
        seq![val_1, val_2],
        op,
        n,
        s,
    );
}

/// Code that keeps the topmost value in a variable of its own and tells a hook, besides indices,
/// that value.
proof fn lemma_observes_operand(
    host: Host,
    func: FunctionIdx,
    at: InstrIdx,
    push: Seq<Instr>,
    vals: Seq<Val>,
    op: HookOp,
    vars: Seq<ValType>,
    s: State,
)
    requires
        has_variables(s, vars + seq![ValType::I32]),
        ready(s.stack, seq![ValType::I32]),
        forall|t: State| #[trigger]
            run(host, plain(push), t) == Some(t.with_stack(t.stack + lowered_vals(vals))),
        typed(vals.push(s.stack.last())) == (HookId { op, tys: seq![] }).args(),
    ensures
        ({
            let tmp = consecutive(vars.len(), 1)[0];
            observes(
                host,
                plain(seq![tee(tmp)]) + located(func, at) + plain(push.push(get(tmp))) + hook(
                    op,
                    seq![],
                ),
                vars.len(),
                s,
                seq![event(op, seq![], location(func, at), vals.push(s.stack.last()))],
            )
        }),
{
    let n = vars.len();
    let tmp = consecutive(n, 1)[0];
    let v = s.stack.last();
    lemma_own_variables(s, vars, seq![ValType::I32], 0, 1);
    assert(tmp.0 == n);
    assert(typed(top(s.stack, 1))[0] == v.ty());
    assert(typed(top(s.stack, 1)) =~= seq![s.locals[n as int].ty()]);
    let a = s.with_locals(s.locals.update(n as int, v));
    assert(run_instr(host, tee(tmp), s) == Some(a));
    lemma_run_instr(host, tee(tmp), s);
    let b = a.with_stack(a.stack + location(func, at));
    let c = b.with_stack(b.stack + lowered_vals(vals));
    assert(run(host, plain(push), b) == Some(c));
    lemma_run_push(host, push, get(tmp), b);
    assert(vals.push(v) =~= vals + seq![v]);
    lemma_lowered_add(vals, seq![v]);
    lemma_lowered_one(v);
    assert(c.stack.push(v) =~= b.stack + lowered_vals(vals.push(v)));
    lemma_run_nothing(host, b.with_stack(b.stack + lowered_vals(vals.push(v))));
    assert(vals.push(v) + seq![] =~= vals.push(v));
    lemma_run_told(
        host,
        plain(seq![tee(tmp)]),
        func,
        at,
        push.push(get(tmp)),
        vals.push(v),
        seq![],
        seq![],
        op,
        seq![],
        s,
        a,
    );
    let e = event(op, seq![], location(func, at), vals.push(v));
    assert(s.log.push(e) =~= s.log + seq![e]);
    assert(a.locals.take(n as int) =~= s.locals.take(n as int));
    assert(typed(a.locals) =~= typed(s.locals));
}

/// The hook call for the end of a block: which kind of block it is, and where it began.
pub open spec fn told_end(loc: Seq<Val>, block: BlockStackElement) -> Event {
    match block {
        BlockStackElement::Function { .. } => event(
            HookOp::End(BlockKind::Function),
            seq![],
            loc,
            seq![],
        ),
        BlockStackElement::Block { begin, .. } => event(
            HookOp::End(BlockKind::Block),
            seq![],
            loc,
            seq![Val::I32(begin.0 as i32)],
        ),
        BlockStackElement::Loop { begin, .. } => event(
            HookOp::End(BlockKind::Loop),
            seq![],
            loc,
            seq![Val::I32(begin.0 as i32)],
        ),
        BlockStackElement::If { begin_if, .. } => event(
            HookOp::End(BlockKind::If),
            seq![],
            loc,
            seq![Val::I32(begin_if.0 as i32)],
        ),
        BlockStackElement::Else { begin_if, begin_else, .. } => event(
            HookOp::End(BlockKind::Else),
            seq![],
            loc,
            seq![Val::I32(begin_if.0 as i32), Val::I32(begin_else.0 as i32)],
        ),
    }
}

/// The hook calls ahead of an instruction that opens, switches or leaves a block or branches, in the
/// state `s`.
pub open spec fn told_ahead(func: FunctionIdx, at: InstrIdx, instr: Instr, site: Site, tables: nat, s: State) -> Seq<
    Event,
> {
    let loc = location(func, at);
    match instr {
        Instr::Unreachable => seq![event(HookOp::Unreachable, seq![], loc, seq![])],
        Instr::If(_) => seq![event(HookOp::If, seq![], loc, seq![s.stack.last()])],
        Instr::Else | Instr::End => seq![told_end(loc, site.block->0)],
        Instr::Br(label) => seq![
            event(
                HookOp::Br,
                seq![],
                loc,
                seq![Val::I32(label.0 as i32), Val::I32((site.target->0).0 as i32)],
            ),
        ],
        Instr::BrIf(label) => seq![
            event(
                HookOp::BrIf,
                seq![],
                loc,
                seq![
                    Val::I32(label.0 as i32),
                    Val::I32((site.target->0).0 as i32),
                    s.stack.last(),
                ],
            ),
        ],
        Instr::BrTable(_, _) => seq![
            event(
                HookOp::BrTable,
                seq![],
                loc,
                seq![Val::I32((tables as usize) as i32), s.stack.last()],
            ),
        ],
        Instr::Return => seq![
            event(HookOp::Return, site.sig.results, loc, top(s.stack, site.sig.results.len())),
        ],
        _ => seq![],
    }
}

/// The hook calls behind an instruction that opens or switches a block.
pub open spec fn told_behind(func: FunctionIdx, at: InstrIdx, instr: Instr, site: Site) -> Seq<Event> {
    let loc = location(func, at);
    match instr {
        Instr::Block(_) => seq![event(HookOp::BeginBlock, seq![], loc, seq![])],
        Instr::Loop(_) => seq![event(HookOp::BeginLoop, seq![], loc, seq![])],
        Instr::If(_) => seq![event(HookOp::BeginIf, seq![], loc, seq![])],
        Instr::Else => match site.block->0 {
            BlockStackElement::If { begin_if, .. } => seq![
                event(HookOp::BeginElse, seq![], loc, seq![Val::I32(begin_if.0 as i32)]),
            ],
            _ => seq![],
        },
        _ => seq![],
    }
}

/// The code behind an instruction that opens or switches a block.
pub open spec fn code_behind(func: FunctionIdx, at: InstrIdx, instr: Instr, site: Site) -> Seq<Emit> {
    match instr {
        Instr::Block(_) => located(func, at) + hook(HookOp::BeginBlock, seq![]),
        Instr::Loop(_) => located(func, at) + hook(HookOp::BeginLoop, seq![]),
        Instr::If(_) => located(func, at) + hook(HookOp::BeginIf, seq![]),
        Instr::Else => located(func, at) + plain(seq![index_const(if_begin(site.block->0).0)]) + hook(
            HookOp::BeginElse,
            seq![],
        ),
        _ => seq![],
    }
}

/// What the code around an instruction that opens, switches or leaves a block or branches may rely
/// on: what is known of where it stands, its operands, and variables of its own.
pub open spec fn can_observe(instr: Instr, site: Site, vars: Seq<ValType>, s: State) -> bool {
    &&& has_variables(s, vars + fresh(instr, site.sig))
    &&& match instr {
        Instr::If(_) | Instr::BrIf(_) | Instr::BrTable(_, _) => ready(s.stack, seq![ValType::I32]),
        Instr::Return => ready(s.stack, site.sig.results),
        Instr::Else => site.block matches Some(block) && block is If,
        Instr::End => site.block is Some,
        _ => true,
    }
}

/// The code for an instruction is the instruction between code that only observes.
spec fn is_observed(
    host: Host,
    func: FunctionIdx,
    at: InstrIdx,
    instr: Instr,
    site: Site,
    vars: Seq<ValType>,
    tables: nat,
    s: State,
    t: State,
    parts: (Seq<Emit>, Seq<Emit>),
) -> bool {
    &&& chunk(func, at, instr, site, vars, tables) == parts.0 + plain(seq![instr]) + parts.1
    &&& parts.1 == code_behind(func, at, instr, site)
    &&& observes(host, parts.0, vars.len(), s, told_ahead(func, at, instr, site, tables, s))
    &&& observes(host, parts.1, vars.len(), t, told_behind(func, at, instr, site))
}

/// No code observes nothing.
proof fn lemma_observes_nothing(host: Host, n: nat, s: State)
    ensures
        observes(host, seq![], n, s, seq![]),
{
    assert(s.log + Seq::<Event>::empty() =~= s.log);
}

proof fn lemma_unreachable(
    host: Host,
    func: FunctionIdx,
    at: InstrIdx,
    instr: Instr,
    site: Site,
    vars: Seq<ValType>,
    tables: nat,
    s: State,
    t: State,
) -> (parts: (Seq<Emit>, Seq<Emit>))
    requires
        instr is Unreachable,
        can_observe(instr, site, vars, s),
    ensures
        is_observed(host, func, at, instr, site, vars, tables, s, t, parts),
{
    let ahead = located(func, at) + hook(HookOp::Unreachable, seq![]);
    lemma_observes_place(host, func, at, HookOp::Unreachable, vars.len(), s);
    lemma_observes_nothing(host, vars.len(), t);
    assert(ahead + plain(seq![instr]) + seq![] =~= ahead + plain(seq![instr]));
    (ahead, seq![])
}

proof fn lemma_block(
    host: Host,
    func: FunctionIdx,
    at: InstrIdx,
    instr: Instr,
    site: Site,
    vars: Seq<ValType>,
    tables: nat,
    s: State,
    t: State,
) -> (parts: (Seq<Emit>, Seq<Emit>))
    requires
        instr is Block || instr is Loop,
        can_observe(instr, site, vars, s),
    ensures
        is_observed(host, func, at, instr, site, vars, tables, s, t, parts),
{
    let op = if instr is Block {
        HookOp::BeginBlock
    } else {
        HookOp::BeginLoop
    };
    let behind = located(func, at) + hook(op, seq![]);
    lemma_observes_place(host, func, at, op, vars.len(), t);
    lemma_observes_nothing(host, vars.len(), s);
    assert(seq![] + plain(seq![instr]) + behind =~= plain(seq![instr]) + located(func, at) + hook(
        op,
        seq![],
    ));
    (seq![], behind)
}

proof fn lemma_if(
    host: Host,
    func: FunctionIdx,
    at: InstrIdx,
    instr: Instr,
    site: Site,
    vars: Seq<ValType>,
    tables: nat,
    s: State,
    t: State,
) -> (parts: (Seq<Emit>, Seq<Emit>))
    requires
        instr is If,
        can_observe(instr, site, vars, s),
    ensures
        is_observed(host, func, at, instr, site, vars, tables, s, t, parts),
{
    let tmp = consecutive(vars.len(), 1)[0];
    let ahead = plain(seq![tee(tmp)]) + located(func, at) + plain(seq![get(tmp)]) + hook(
        HookOp::If,
        seq![],
    );
    let behind = located(func, at) + hook(HookOp::BeginIf, seq![]);
    let none: Seq<Instr> = seq![];
    let no_vals: Seq<Val> = seq![];
    assert forall|t: State| #[trigger] run(host, plain(none), t) == Some(
        t.with_stack(t.stack + lowered_vals(no_vals)),
    ) by {
        lemma_run_nothing(host, t);
    }
    assert(typed(top(s.stack, 1))[0] == s.stack.last().ty());
    assert(no_vals.push(s.stack.last()) =~= seq![s.stack.last()]);
    assert(typed(seq![s.stack.last()]) =~= seq![ValType::I32]);
    assert(none.push(get(tmp)) =~= seq![get(tmp)]);
    lemma_observes_operand(host, func, at, none, no_vals, HookOp::If, vars, s);
    lemma_observes_place(host, func, at, HookOp::BeginIf, vars.len(), t);
    assert(ahead + plain(seq![instr]) + behind =~= ahead + plain(seq![instr]) + located(func, at)
        + hook(HookOp::BeginIf, seq![]));
    (ahead, behind)
}

proof fn lemma_else(
    host: Host,
    func: FunctionIdx,
    at: InstrIdx,
    instr: Instr,
    site: Site,
    vars: Seq<ValType>,
    tables: nat,
    s: State,
    t: State,
) -> (parts: (Seq<Emit>, Seq<Emit>))
    requires
        instr is Else,
        can_observe(instr, site, vars, s),
    ensures
        is_observed(host, func, at, instr, site, vars, tables, s, t, parts),
{
    let begin = if_begin(site.block->0);
    let push = plain(seq![index_const(begin.0)]);
    let ahead = located(func, at) + push + hook(HookOp::End(BlockKind::If), seq![]);
    let behind = located(func, at) + push + hook(HookOp::BeginElse, seq![]);
    lemma_observes_index(host, func, at, begin.0, HookOp::End(BlockKind::If), vars.len(), s);
    lemma_observes_index(host, func, at, begin.0, HookOp::BeginElse, vars.len(), t);
    assert(ahead + plain(seq![instr]) + behind =~= ahead + plain(seq![instr]) + located(func, at)
        + push + hook(HookOp::BeginElse, seq![]));
    (ahead, behind)
}

proof fn lemma_end(
    host: Host,
    func: FunctionIdx,
    at: InstrIdx,
    instr: Instr,
    site: Site,
    vars: Seq<ValType>,
    tables: nat,
    s: State,
    t: State,
) -> (parts: (Seq<Emit>, Seq<Emit>))
    requires
        instr is End,
        can_observe(instr, site, vars, s),
    ensures
        is_observed(host, func, at, instr, site, vars, tables, s, t, parts),
{
    let block = site.block->0;
    let op = HookOp::End(block.spec_kind());
    let ahead = located(func, at) + plain(block_begins(block)) + hook(op, seq![]);
    match block {
        BlockStackElement::Function { .. } => {
            lemma_observes_place(host, func, at, op, vars.len(), s);
            assert(located(func, at) + plain(block_begins(block)) =~= located(func, at));
        },
        BlockStackElement::Block { begin, .. } => {
            lemma_observes_index(host, func, at, begin.0, op, vars.len(), s);
        },
        BlockStackElement::Loop { begin, .. } => {
            lemma_observes_index(host, func, at, begin.0, op, vars.len(), s);
        },
        BlockStackElement::If { begin_if, .. } => {
            lemma_observes_index(host, func, at, begin_if.0, op, vars.len(), s);
        },
        BlockStackElement::Else { begin_if, begin_else, .. } => {
            lemma_observes_indices(host, func, at, begin_if.0, begin_else.0, op, vars.len(), s);
        },
    }
    lemma_observes_nothing(host, vars.len(), t);
    assert(ahead + plain(seq![instr]) + seq![] =~= ahead + plain(seq![instr]));
    (ahead, seq![])
}

proof fn lemma_br(
    host: Host,
    func: FunctionIdx,
    at: InstrIdx,
    instr: Instr,
    site: Site,
    vars: Seq<ValType>,
    tables: nat,
    s: State,
    t: State,
) -> (parts: (Seq<Emit>, Seq<Emit>))
    requires
        instr is Br,
        can_observe(instr, site, vars, s),
    ensures
        is_observed(host, func, at, instr, site, vars, tables, s, t, parts),
{
    let label = instr->Br_0;
    let target = site.target->0;
    let ahead = located(func, at) + plain(seq![index_const(label.0), index_const(target.0)]) + hook(
        HookOp::Br,
        seq![],
    );
    lemma_observes_indices(host, func, at, label.0, target.0, HookOp::Br, vars.len(), s);
    lemma_observes_nothing(host, vars.len(), t);
    assert(ahead + plain(seq![instr]) + seq![] =~= ahead + plain(seq![instr]));
    (ahead, seq![])
}

proof fn lemma_br_if(
    host: Host,
    func: FunctionIdx,
    at: InstrIdx,
    instr: Instr,
    site: Site,
    vars: Seq<ValType>,
    tables: nat,
    s: State,
    t: State,
) -> (parts: (Seq<Emit>, Seq<Emit>))
    requires
        instr is BrIf,
        can_observe(instr, site, vars, s),
    ensures
        is_observed(host, func, at, instr, site, vars, tables, s, t, parts),
{
    let label = instr->BrIf_0;
    let target = site.target->0;
    let tmp = consecutive(vars.len(), 1)[0];
    let (val_1, val_2) = (Val::I32(label.0 as i32), Val::I32(target.0 as i32));
    let push = seq![index_const(label.0), index_const(target.0)];
    assert forall|t: State| #[trigger] run(host, plain(push), t) == Some(
        t.with_stack(t.stack + lowered_vals(seq![val_1, val_2])),
    ) by {
        lemma_run_pushing_2(host, push[0], val_1, push[1], val_2, t);
    }
    let vals = seq![val_1, val_2, s.stack.last()];
    assert(typed(top(s.stack, 1))[0] == s.stack.last().ty());
    assert(seq![val_1, val_2].push(s.stack.last()) =~= vals);
    assert(typed(vals) =~= seq![ValType::I32, ValType::I32, ValType::I32]);
    assert(push.push(get(tmp)) =~= seq![index_const(label.0), index_const(target.0), get(tmp)]);
    lemma_observes_operand(host, func, at, push, seq![val_1, val_2], HookOp::BrIf, vars, s);
    lemma_observes_nothing(host, vars.len(), t);
    let ahead = plain(seq![tee(tmp)]) + located(func, at) + plain(push.push(get(tmp))) + hook(
        HookOp::BrIf,
        seq![],
    );
    assert(ahead + plain(seq![instr]) + seq![] =~= ahead + plain(seq![instr]));
    (ahead, seq![])
}

proof fn lemma_br_table(
    host: Host,
    func: FunctionIdx,
    at: InstrIdx,
    instr: Instr,
    site: Site,
    vars: Seq<ValType>,
    tables: nat,
    s: State,
    t: State,
) -> (parts: (Seq<Emit>, Seq<Emit>))
    requires
        instr is BrTable,
        can_observe(instr, site, vars, s),
    ensures
        is_observed(host, func, at, instr, site, vars, tables, s, t, parts),
{
    let tmp = consecutive(vars.len(), 1)[0];
    let val = Val::I32((tables as usize) as i32);
    let push = seq![index_const(tables as usize)];
    assert forall|t: State| #[trigger] run(host, plain(push), t) == Some(
        t.with_stack(t.stack + lowered_vals(seq![val])),
    ) by {
        lemma_run_pushing(host, push[0], val, t);
    }
    let vals = seq![val, s.stack.last()];
    assert(typed(top(s.stack, 1))[0] == s.stack.last().ty());
    assert(seq![val].push(s.stack.last()) =~= vals);
    assert(typed(vals) =~= seq![ValType::I32, ValType::I32]);
    assert(push.push(get(tmp)) =~= seq![index_const(tables as usize), get(tmp)]);
    lemma_observes_operand(host, func, at, push, seq![val], HookOp::BrTable, vars, s);
    lemma_observes_nothing(host, vars.len(), t);
    let ahead = plain(seq![tee(tmp)]) + located(func, at) + plain(push.push(get(tmp))) + hook(
        HookOp::BrTable,
        seq![],
    );
    assert(ahead + plain(seq![instr]) + seq![] =~= ahead + plain(seq![instr]));
    (ahead, seq![])
}

proof fn lemma_return(
    host: Host,
    func: FunctionIdx,
    at: InstrIdx,
    instr: Instr,
    site: Site,
    vars: Seq<ValType>,
    tables: nat,
    s: State,
    t: State,
) -> (parts: (Seq<Emit>, Seq<Emit>))
    requires
        instr is Return,
        can_observe(instr, site, vars, s),
    ensures
        is_observed(host, func, at, instr, site, vars, tables, s, t, parts),
{
    let tys = site.sig.results;
    let tmp = consecutive(vars.len(), tys.len());
    let all = vars + tys;
    let vals = top(s.stack, tys.len());
    lemma_own_variables(s, vars, tys, 0, tys.len());
    assert(tys.subrange(0, tys.len() as int) =~= tys);
    let a = lemma_run_saved(host, tmp, s);
    lemma_types_kept(s, a, all);
    lemma_own_variables(a, vars, tys, 0, tys.len());
    let b = a.with_stack(a.stack + location(func, at));
    lemma_run_nothing(host, b);
    assert(b.stack + Seq::<Val>::empty() =~= b.stack);
    lemma_run_restored(host, tmp, all, b);
    assert(seq![] + vals =~= vals);
    lemma_run_told(
        host,
        plain(saved(tmp)),
        func,
        at,
        seq![],
        seq![],
        restored(tmp, all),
        vals,
        HookOp::Return,
        tys,
        s,
        a,
    );
    lemma_own_untouched(s, a, vars, tmp);
    let e = event(HookOp::Return, tys, location(func, at), vals);
    assert(s.log.push(e) =~= s.log + seq![e]);
    let ahead = plain(saved(tmp)) + located(func, at) + plain(restored(tmp, all)) + hook(
        HookOp::Return,
        tys,
    );
    lemma_observes_nothing(host, vars.len(), t);
    assert(ahead + plain(seq![instr]) + seq![] =~= ahead + plain(seq![instr]));
    (ahead, seq![])
}

/// The code for an instruction that opens, switches or leaves a block or branches is the instruction
/// itself between code that only observes: ahead of it the hooks are told the location, the
/// condition, the labels and targets, the blocks that are left and the results; behind it, where it
/// enters a block, that the block begins. Stack, globals, memory and the function's own variables
/// are as they were when the instruction is reached, and when the block is entered.
pub proof fn law_control_code_only_observes(
    host: Host,
    scope: Scope,
    w: Walked,
    at: InstrIdx,
    instr: Instr,
    s: State,
    t: State,
) -> (parts: (Seq<Emit>, Seq<Emit>))
    requires
        !is_straight(instr),
        admits(scope, w, at.0 as int, instr),
        has_variables(s, w.vars + fresh(instr, site_at(scope, w, instr).sig)),
        ready(
            s.stack,
            match instr {
                Instr::If(_) | Instr::BrIf(_) | Instr::BrTable(_, _) => seq![ValType::I32],
                Instr::Return => scope.results,
                _ => seq![],
            },
        ),
    ensures
        ({
            let site = site_at(scope, w, instr);
            let (n, tables) = (w.vars.len(), w.tables.len());
            &&& chunk(scope.func, at, instr, site, w.vars, tables) == parts.0 + plain(seq![instr])
                + parts.1
            &&& parts.1 == code_behind(scope.func, at, instr, site)
            &&& observes(host, parts.0, n, s, told_ahead(scope.func, at, instr, site, tables, s))
            &&& observes(host, parts.1, n, t, told_behind(scope.func, at, instr, site))
        }),
{
    let (func, site, vars, tables) = (
        scope.func,
        site_at(scope, w, instr),
        w.vars,
        w.tables.len(),
    );
    match instr {
        Instr::Unreachable => lemma_unreachable(host, func, at, instr, site, vars, tables, s, t),
        Instr::Block(_) => lemma_block(host, func, at, instr, site, vars, tables, s, t),
        Instr::Loop(_) => lemma_block(host, func, at, instr, site, vars, tables, s, t),
        Instr::If(_) => lemma_if(host, func, at, instr, site, vars, tables, s, t),
        Instr::Else => lemma_else(host, func, at, instr, site, vars, tables, s, t),
        Instr::End => lemma_end(host, func, at, instr, site, vars, tables, s, t),
        Instr::Br(_) => lemma_br(host, func, at, instr, site, vars, tables, s, t),
        Instr::BrIf(_) => lemma_br_if(host, func, at, instr, site, vars, tables, s, t),
        Instr::BrTable(_, _) => lemma_br_table(host, func, at, instr, site, vars, tables, s, t),
        _ => lemma_return(host, func, at, instr, site, vars, tables, s, t),
    }
}

/// The hook for a call is called before the call, whatever the call does: the code for a call is
/// the call itself between other code, and the code ahead of it tells the hook the location, the
/// callee or the index into the table, and the arguments, and leaves all else as it was.
pub proof fn law_call_is_announced(host: Host, scope: Scope, w: Walked, at: InstrIdx, instr: Instr, s: State) -> (parts: (
    Seq<Emit>,
    Seq<Emit>,
))
    requires
        instr is Call || instr is CallIndirect,
        signature_at(scope, w, instr) is Some,
        runs_in(host, scope, s),
        has_variables(s, w.vars + fresh(instr, site_at(scope, w, instr).sig)),
        ready(
            s.stack,
            match instr {
                Instr::CallIndirect(ty, _) => ty@.params + seq![ValType::I32],
                _ => site_at(scope, w, instr).sig.params,
            },
        ),
    ensures
        ({
            let site = site_at(scope, w, instr);
            let count = site.sig.params.len();
            &&& chunk(scope.func, at, instr, site, w.vars, w.tables.len()) == parts.0 + plain(
                seq![instr],
            ) + parts.1
            &&& observes(
                host,
                parts.0,
                w.vars.len(),
                s,
                seq![
                    match instr {
                        Instr::Call(callee) => event(
                            HookOp::Call,
                            site.sig.params,
                            location(scope.func, at),
                            seq![Val::I32(callee.0 as i32)] + top(s.stack, count),
                        ),
                        _ => event(
                            HookOp::CallIndirect,
                            site.sig.params,
                            location(scope.func, at),
                            seq![s.stack.last()] + top(s.stack.drop_last(), count),
                        ),
                    },
                ],
            )
        }),
{
    let site = site_at(scope, w, instr);
    let (sig, n) = (site.sig, w.vars.len());
    let all = w.vars + fresh(instr, sig);
    let ahead = ahead_of_call(scope.func, at, instr, sig, w.vars);
    let loc = located(scope.func, at);
    let behind = match instr {
        Instr::Call(_) => after_call(
            loc,
            consecutive(n + sig.params.len(), sig.results.len()),
            all,
            sig.results,
        ),
        _ => after_call(
            loc,
            consecutive(n + 1 + sig.params.len(), sig.results.len()),
            all,
            sig.results,
        ),
    };
    let u = if instr is Call {
        lemma_run_ahead_of_call(host, scope.func, at, instr, site, w.vars, s)
    } else {
        lemma_run_ahead_of_indirect_call(host, scope.func, at, instr, site, w.vars, s)
    };
    assert(s.log.push(u.log.last()) =~= s.log + seq![u.log.last()]);
    (ahead, behind)
}

/// Code that reports an event that belongs to no instruction, with values from variables.
proof fn lemma_observes_outside(
    host: Host,
    func: FunctionIdx,
    op: HookOp,
    tys: Seq<ValType>,
    vars: Seq<ValType>,
    own: Seq<ValType>,
    s: State,
)
    requires
        has_variables(s, vars + own),
        ready(s.stack, own),
        (HookId { op, tys }).args() == own,
    ensures
        ({
            let tmp = consecutive(vars.len(), own.len());
            observes(
                host,
                plain(saved(tmp)) + located_outside(func) + plain(restored(tmp, vars + own)) + hook(
                    op,
                    tys,
                ),
                vars.len(),
                s,
                seq![event(op, tys, location_outside(func), top(s.stack, own.len()))],
            )
        }),
{
    let tmp = consecutive(vars.len(), own.len());
    let all = vars + own;
    let vals = top(s.stack, own.len());
    lemma_own_variables(s, vars, own, 0, own.len());
    assert(own.subrange(0, own.len() as int) =~= own);
    let a = lemma_run_saved(host, tmp, s);
    lemma_types_kept(s, a, all);
    lemma_own_variables(a, vars, own, 0, own.len());
    let b = a.with_stack(a.stack + location_outside(func));
    lemma_run_add(host, plain(saved(tmp)), located_outside(func), s);
    lemma_run_located_outside(host, func, a);
    lemma_run_restored(host, tmp, all, b);
    let code = plain(saved(tmp)) + located_outside(func) + plain(restored(tmp, all));
    lemma_run_add(host, plain(saved(tmp)) + located_outside(func), plain(restored(tmp, all)), s);
    assert(b.stack + lowered_vals(vals) =~= a.stack + (location_outside(func) + lowered_vals(vals)));
    lemma_run_report(host, code, s, a, op, tys, location_outside(func), vals);
    lemma_own_untouched(s, a, vars, tmp);
    let e = event(op, tys, location_outside(func), vals);
    assert(s.log.push(e) =~= s.log + seq![e]);
}

/// A function that is entered is reported: the code at its entry tells the hook for that the
/// function, under an instruction index that no instruction has, and leaves all else as it was.
pub proof fn law_entry_is_reported(host: Host, func: FunctionIdx, vars: Seq<ValType>, s: State)
    requires
        has_variables(s, vars),
    ensures
        observes(
            host,
            prologue(func, None),
            vars.len(),
            s,
            seq![event(HookOp::BeginFunction, seq![], location_outside(func), seq![])],
        ),
{
    lemma_run_located_outside(host, func, s);
    assert(location_outside(func) + lowered_vals(Seq::<Val>::empty()) =~= location_outside(func)) by {
        lemma_run_nothing(host, s);
    }
    assert(typed(Seq::<Val>::empty()) =~= seq![]);
    assert(seq![] + located_outside(func) =~= located_outside(func));
    lemma_run_report(
        host,
        located_outside(func),
        s,
        s,
        HookOp::BeginFunction,
        seq![],
        location_outside(func),
        seq![],
    );
    let e = event(HookOp::BeginFunction, seq![], location_outside(func), seq![]);
    assert(s.log.push(e) =~= s.log + seq![e]);
}

/// The start of the module is reported once. At the entry of the start function the code asks the
/// global that is set up as one; what is guarded by that clears the global and calls the hook for
/// the start, and leaves all else as it was, so that it is not run again; and the report that the
/// function is entered follows in any case.
pub proof fn law_start_is_reported_once(host: Host, func: FunctionIdx, global: GlobalIdx, s: State) -> (guarded: Seq<
    Emit,
>)
    requires
        global.0 < s.globals.len(),
        s.globals[global.0 as int] is I32,
    ensures
        prologue(func, Some(global)) == plain(
            seq![
                Instr::Global(GlobalOp::GetGlobal, global),
                Instr::If(crate::ast::BlockType(None)),
            ],
        ) + guarded + plain(seq![Instr::End]) + prologue(func, None),
        run(host, guarded, s) == Some(
            State { globals: s.globals.update(global.0 as int, Val::I32(0)), ..s }.with_event(
                event(HookOp::Start, seq![], location_outside(func), seq![]),
            ),
        ),
{
    let zero = Instr::Const(Val::I32(0));
    let write = Instr::Global(GlobalOp::SetGlobal, global);
    let clear = plain(seq![zero, write]);
    let guarded = clear + located_outside(func) + hook(HookOp::Start, seq![]);
    let a = s.with_stack(s.stack.push(Val::I32(0)));
    let t = State { globals: s.globals.update(global.0 as int, Val::I32(0)), ..s };
    assert(seq![zero, write] =~= seq![zero].push(write));
    lemma_run_push(host, seq![zero], write, s);
    lemma_run_instr(host, zero, s);
    assert(typed(top(a.stack, 1)) =~= seq![ValType::I32]);
    assert(a.stack.drop_last() =~= s.stack);
    assert(run(host, clear, s) == Some(t));
    lemma_run_add(host, clear, located_outside(func), s);
    lemma_run_located_outside(host, func, t);
    assert(location_outside(func) + lowered_vals(Seq::<Val>::empty()) =~= location_outside(func)) by {
        lemma_run_nothing(host, s);
    }
    assert(typed(Seq::<Val>::empty()) =~= seq![]);
    lemma_run_report(
        host,
        clear + located_outside(func),
        s,
        t,
        HookOp::Start,
        seq![],
        location_outside(func),
        seq![],
    );
    let head = plain(
        seq![
            Instr::Global(GlobalOp::GetGlobal, global),
            Instr::If(crate::ast::BlockType(None)),
        ],
    );
    assert(plain(
        seq![
            Instr::Global(GlobalOp::GetGlobal, global),
            Instr::If(crate::ast::BlockType(None)),
            zero,
            write,
        ],
    ) =~= head + clear);
    assert(start_prologue(func, global) =~= head + guarded + plain(seq![Instr::End]));
    assert(prologue(func, Some(global)) =~= start_prologue(func, global) + prologue(func, None)) by {
        assert(seq![] + located_outside(func) =~= located_outside(func));
    }
    guarded
}

/// A return at the end of the body is reported: ahead of the last `end`, the code tells the hook for
/// returns the function, under an instruction index that no instruction has, and the results, and
/// leaves them on the stack and all else as it was.
pub proof fn law_implicit_return_is_reported(host: Host, func: FunctionIdx, results: Seq<ValType>, vars: Seq<ValType>, s: State)
    requires
        has_variables(s, vars + results),
        ready(s.stack, results),
    ensures
        epilogue(func, results, vars).last() == Emit::Plain(Instr::End),
        observes(
            host,
            epilogue(func, results, vars).drop_last(),
            vars.len(),
            s,
            seq![event(HookOp::Return, results, location_outside(func), top(s.stack, results.len()))],
        ),
{
    lemma_observes_outside(host, func, HookOp::Return, results, vars, results, s);
    let tmp = consecutive(vars.len(), results.len());
    let code = plain(saved(tmp)) + located_outside(func) + plain(restored(tmp, vars + results)) + hook(
        HookOp::Return,
        results,
    );
    assert(plain(seq![Instr::End])[0] == Emit::Plain(Instr::End));
    assert(epilogue(func, results, vars).drop_last() =~= code);
}

/// Nothing is lost of a 64-bit integer that is handed over as two 32-bit halves.
pub proof fn law_halves_give_back_the_whole(v: i64)
    ensures
        ({
            let halves = lowered_val(Val::I64(v));
            &&& halves.len() == 2
            &&& halves[0] matches Val::I32(low) && halves[1] matches Val::I32(high) && v == ((((
            high as u32) as u64) << 32u64) | ((low as u32) as u64)) as i64
        }),
{
    let low: i32 = v as i32;
    let high: i32 = (v >> 32u64) as i32;
    assert(v == ((((((v >> 32u64) as i32) as u32) as u64) << 32u64) | (((v as i32) as u32) as u64))
        as i64) by (bit_vector);
}

} // verus!
