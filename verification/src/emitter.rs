//! Writes instrumented code.
use vstd::prelude::*;

use crate::ast::{
    consecutive, push_index, BlockType, FunctionIdx, GlobalIdx, GlobalOp, Instr, InstrIdx, LocalIdx,
    LocalOp, Val, ValType,
};
use crate::block_stack::BlockStackElement;
use crate::convert_i64::convert_i64_instr;
use crate::hook_map::{requested, HookId, HookMap, HookOp};
use crate::trace::{
    after_call, block_begins, calls, chunk, distinct, epilogue, fresh, hook, linked, linked_step,
    located, located_outside, plain, prologue, restore_locals_with_i64_handling, save_stack_to_locals,
    start_prologue, Emit,
};
use crate::walk::{push_all, SiteInfo};

verus! {

/// Nothing before a trace is the trace.
pub broadcast proof fn lemma_empty_add(a: Seq<Emit>)
    ensures
        #[trigger] (Seq::<Emit>::empty() + a) == a,
{
    assert(Seq::<Emit>::empty() + a =~= a);
}

/// The calls of one more step.
pub proof fn lemma_calls_push(trace: Seq<Emit>, step: Emit)
    ensures
        calls(trace.push(step)) == match step {
            Emit::Plain(_) => calls(trace),
            Emit::Hook(id) => calls(trace).push(id),
        },
{
    assert(trace.push(step).drop_last() =~= trace);
}

/// No id occurs twice among the distinct ones, and each that was asked for is there.
pub proof fn lemma_distinct(ids: Seq<HookId>)
    ensures
        distinct(ids).no_duplicates(),
        distinct(ids).len() <= ids.len(),
        forall|i: int| 0 <= i < ids.len() ==> distinct(ids).contains(#[trigger] ids[i]),
    decreases ids.len(),
{
    if ids.len() > 0 {
        let before = ids.drop_last();
        lemma_distinct(before);
        assert forall|i: int| 0 <= i < ids.len() implies distinct(ids).contains(#[trigger] ids[i]) by {
            if i < before.len() {
                assert(before[i] == ids[i]);
                assert(distinct(before).contains(ids[i]));
                lemma_requested_keeps(distinct(before), ids.last(), ids[i]);
            } else {
                lemma_requested_holds(distinct(before), ids.last());
            }
        }
    }
}

/// An id that is there stays there, at its place.
pub proof fn lemma_requested_keeps(ids: Seq<HookId>, more: HookId, id: HookId)
    requires
        ids.contains(id),
        ids.no_duplicates(),
    ensures
        requested(ids, more).contains(id),
        requested(ids, more).no_duplicates(),
        requested(ids, more).index_of(id) == ids.index_of(id),
{
    let i = ids.index_of(id);
    assert(0 <= i < ids.len() && ids[i] == id);
    let later = requested(ids, more);
    assert(later[i] == id);
    if !ids.contains(more) {
        assert forall|a: int, b: int| 0 <= a < later.len() && 0 <= b < later.len() && a != b implies
            later[a] != later[b] by {
            if a == ids.len() {
                assert(ids.contains(ids[b]));
            }
            if b == ids.len() {
                assert(ids.contains(ids[a]));
            }
        }
    }
    let k = later.index_of(id);
    assert(0 <= k < later.len() && later[k] == id);
}

/// An id that is asked for is there.
pub proof fn lemma_requested_holds(ids: Seq<HookId>, id: HookId)
    ensures
        requested(ids, id).contains(id),
{
    if !ids.contains(id) {
        assert(requested(ids, id)[ids.len() as int] == id);
    }
}

/// Each hook that a trace calls is among its calls.
pub proof fn lemma_calls_hold(trace: Seq<Emit>, i: int)
    requires
        0 <= i < trace.len(),
        trace[i] is Hook,
    ensures
        calls(trace).contains(trace[i]->Hook_0),
    decreases trace.len(),
{
    let before = trace.drop_last();
    if i < before.len() {
        lemma_calls_hold(before, i);
        let id = trace[i]->Hook_0;
        let k = choose|k: int| 0 <= k < calls(before).len() && calls(before)[k] == id;
        assert(calls(trace)[k] == id);
    } else {
        assert(calls(trace).last() == trace[i]->Hook_0);
    }
}

/// A trace whose hooks are known reads the same when one more hook is asked for.
pub proof fn lemma_linked_stable(trace: Seq<Emit>, ids: Seq<HookId>, more: HookId, first: nat)
    requires
        ids.no_duplicates(),
        forall|i: int| 0 <= i < trace.len() && #[trigger] trace[i] is Hook ==> ids.contains(trace[i]->Hook_0),
    ensures
        linked(trace, requested(ids, more), first) == linked(trace, ids, first),
{
    let later = requested(ids, more);
    assert forall|i: int| 0 <= i < trace.len() implies linked_step(trace[i], later, first)
        == linked_step(#[trigger] trace[i], ids, first) by {
        if trace[i] is Hook {
            lemma_requested_keeps(ids, more, trace[i]->Hook_0);
        }
    }
    assert(linked(trace, later, first) =~= linked(trace, ids, first));
}

/// The instrumented code of one function, as it is written.
pub struct Emitter {
    body: Vec<Instr>,
    hooks: HookMap,
    done: Ghost<Seq<Emit>>,
    current: Ghost<Seq<Emit>>,
    earlier: Ghost<Seq<HookId>>,
    issued: Ghost<nat>,
}

impl View for Emitter {
    type V = Seq<Emit>;

    closed spec fn view(&self) -> Seq<Emit> {
        self.done@ + self.current@
    }
}

impl Emitter {
    /// The code up to the piece that is being written.
    pub closed spec fn done(&self) -> Seq<Emit> {
        self.done@
    }

    /// The piece that is being written.
    pub closed spec fn current(&self) -> Seq<Emit> {
        self.current@
    }

    /// The hooks that the functions before call.
    pub closed spec fn earlier(&self) -> Seq<HookId> {
        self.earlier@
    }

    /// The number of hook calls in this function and those before.
    pub closed spec fn issued(&self) -> nat {
        self.issued@
    }

    /// The index of the first hook's function.
    pub closed spec fn first(&self) -> nat {
        self.hooks.first()
    }

    /// The code is the trace, linked to the hooks that were asked for.
    pub closed spec fn wf(&self) -> bool {
        &&& self.hooks.wf()
        &&& self.hooks@ == distinct(self.earlier@ + calls(self@))
        &&& self.hooks@.len() <= self.issued@
        &&& self.body@ == linked(self@, self.hooks@, self.hooks.first())
    }

    /// Whether `count` more hooks can be called without running out of function indices.
    pub open spec fn has_room(&self, count: nat) -> bool {
        self.first() + self.issued() + count <= usize::MAX
    }

    /// Nothing but the current piece and the number of hook calls differs.
    pub open spec fn continues(&self, before: Emitter) -> bool {
        &&& self.wf()
        &&& self.done() == before.done()
        &&& self.earlier() == before.earlier()
        &&& self.first() == before.first()
        &&& before.issued() <= self.issued()
    }

    /// Starts on a function.
    pub(crate) fn new(hooks: HookMap, Ghost(earlier): Ghost<Seq<HookId>>, Ghost(issued): Ghost<nat>) -> (emitter:
        Emitter)
        requires
            hooks.wf(),
            hooks@ == distinct(earlier),
            hooks@.len() <= issued,
        ensures
            emitter.wf(),
            emitter.done() == Seq::<Emit>::empty(),
            emitter.current() == Seq::<Emit>::empty(),
            emitter.earlier() == earlier,
            emitter.first() == hooks.first(),
            emitter.issued() == issued,
    {
        proof {
            assert(Seq::<Emit>::empty() + Seq::<Emit>::empty() =~= Seq::<Emit>::empty());
            assert(calls(Seq::<Emit>::empty()) =~= Seq::<HookId>::empty());
            assert(earlier + Seq::<HookId>::empty() =~= earlier);
            assert(linked(Seq::<Emit>::empty(), hooks@, hooks.first()) =~= Seq::<Instr>::empty());
        }
        Emitter {
            body: Vec::new(),
            hooks,
            done: Ghost(Seq::empty()),
            current: Ghost(Seq::empty()),
            earlier: Ghost(earlier),
            issued: Ghost(issued),
        }
    }

    /// The code, and the hooks that were asked for.
    pub(crate) fn finish(self) -> (out: (Vec<Instr>, HookMap))
        requires
            self.wf(),
            self.current() == Seq::<Emit>::empty(),
        ensures
            out.0@ == linked(self.done(), out.1@, out.1.first()),
            out.1.wf(),
            out.1@ == distinct(self.earlier() + calls(self.done())),
            out.1@.len() <= self.issued(),
            out.1.first() == self.first(),
    {
        assert(self@ =~= self.done());
        (self.body, self.hooks)
    }

    /// Writes an instruction.
    fn emit(&mut self, instr: Instr)
        requires
            old(self).wf(),
        ensures
            final(self).continues(*old(self)),
            final(self).issued() == old(self).issued(),
            final(self).current() == old(self).current() + plain(seq![instr]),
    {
        let ghost before = self@;
        self.body.push(instr);
        proof {
            self.current@ = self.current@ + plain(seq![instr]);
            assert(self@ =~= before.push(Emit::Plain(instr)));
            lemma_calls_push(before, Emit::Plain(instr));
            assert(linked(self@, self.hooks@, self.hooks.first()) =~= linked(
                before,
                self.hooks@,
                self.hooks.first(),
            ).push(instr));
        }
    }

    /// Writes two instructions.
    fn emit_2(&mut self, first: Instr, second: Instr)
        requires
            old(self).wf(),
        ensures
            final(self).continues(*old(self)),
            final(self).issued() == old(self).issued(),
            final(self).current() == old(self).current() + plain(seq![first, second]),
    {
        self.emit(first);
        self.emit(second);
        assert(plain(seq![first]) + plain(seq![second]) =~= plain(seq![first, second]));
        assert(self.current() =~= old(self).current() + plain(seq![first, second]));
    }

    /// Writes three instructions.
    fn emit_3(&mut self, first: Instr, second: Instr, third: Instr)
        requires
            old(self).wf(),
        ensures
            final(self).continues(*old(self)),
            final(self).issued() == old(self).issued(),
            final(self).current() == old(self).current() + plain(seq![first, second, third]),
    {
        self.emit_2(first, second);
        self.emit(third);
        assert(self.current() =~= old(self).current() + plain(seq![first, second, third]));
    }

    /// Writes instructions.
    fn emit_all(&mut self, instrs: Vec<Instr>)
        requires
            old(self).wf(),
        ensures
            final(self).continues(*old(self)),
            final(self).issued() == old(self).issued(),
            final(self).current() == old(self).current() + plain(instrs@),
    {
        let ghost before = self.current();
        let ghost all = instrs@;
        assert(before + plain(all.take(0)) =~= before);
        for instr in it: instrs
            invariant
                self.continues(*old(self)),
                self.issued() == old(self).issued(),
                it.seq() == all,
                self.current() == before + plain(all.take(it.index() as int)),
        {
            self.emit(instr);
            let ghost i = it.index() as int;
            assert(before + plain(all.take(i + 1)) =~= (before + plain(all.take(i))) + plain(
                seq![all[i]],
            ));
        }
        assert(all.take(all.len() as int) =~= all);
    }

    /// Writes the call of a hook.
    fn emit_hook(&mut self, op: HookOp, tys: Vec<ValType>)
        requires
            old(self).wf(),
            old(self).has_room(1),
        ensures
            final(self).continues(*old(self)),
            final(self).issued() == old(self).issued() + 1,
            final(self).current() == old(self).current() + hook(op, tys@),
    {
        let ghost id = HookId { op, tys: tys@ };
        let ghost before = self@;
        let ghost ids = self.hooks@;
        let ghost first = self.hooks.first();
        let call = self.hooks.request(op, tys);
        self.body.push(call);
        proof {
            self.current@ = self.current@ + hook(op, id.tys);
            assert(self@ =~= before.push(Emit::Hook(id)));
            self.issued@ = self.issued@ + 1;
            let asked = self.earlier@ + calls(before);
            lemma_calls_push(before, Emit::Hook(id));
            assert((self.earlier@ + calls(self@)).drop_last() =~= asked);
            lemma_distinct(asked);
            assert forall|i: int| 0 <= i < before.len() && #[trigger] before[i] is Hook implies ids.contains(
                before[i]->Hook_0,
            ) by {
                lemma_calls_hold(before, i);
                let id = before[i]->Hook_0;
                let k = choose|k: int| 0 <= k < calls(before).len() && calls(before)[k] == id;
                assert(asked[self.earlier@.len() + k] == id);
            }
            lemma_linked_stable(before, ids, id, first);
            assert(linked(self@, self.hooks@, first) =~= linked(before, self.hooks@, first).push(call));
        }
    }

    /// Hands a location to a hook.
    fn emit_location(&mut self, func: FunctionIdx, at: InstrIdx)
        requires
            old(self).wf(),
        ensures
            final(self).continues(*old(self)),
            final(self).issued() == old(self).issued(),
            final(self).current() == old(self).current() + located(func, at),
    {
        self.emit_2(push_index(func.0), push_index(at.0));
    }

    /// Hands to a hook the location of what belongs to no instruction.
    fn emit_outside(&mut self, func: FunctionIdx)
        requires
            old(self).wf(),
        ensures
            final(self).continues(*old(self)),
            final(self).issued() == old(self).issued(),
            final(self).current() == old(self).current() + located_outside(func),
    {
        self.emit_2(push_index(func.0), Instr::Const(Val::I32(-1)));
    }

    /// Writes the code behind a call.
    fn emit_after_call(
        &mut self,
        func: FunctionIdx,
        at: InstrIdx,
        results: Vec<LocalIdx>,
        vars: &Vec<ValType>,
        tys: Vec<ValType>,
    )
        requires
            old(self).wf(),
            old(self).has_room(1),
            forall|i: int| 0 <= i < results@.len() ==> (#[trigger] results@[i]).0 < vars@.len(),
        ensures
            final(self).continues(*old(self)),
            final(self).issued() == old(self).issued() + 1,
            final(self).current() == old(self).current() + after_call(located(func, at), results@, vars@, tys@),
    {
        self.emit_all(save_stack_to_locals(&results));
        self.emit_location(func, at);
        self.emit_all(restore_locals_with_i64_handling(&results, vars));
        self.emit_hook(HookOp::CallPost, tys);
        assert(self.current() =~= old(self).current() + after_call(
            located(func, at),
            results@,
            vars@,
            tys@,
        ));
    }

    /// Hands to a hook where the block that is left began.
    fn emit_block_begins(&mut self, block: BlockStackElement)
        requires
            old(self).wf(),
        ensures
            final(self).continues(*old(self)),
            final(self).issued() == old(self).issued(),
            final(self).current() == old(self).current() + plain(block_begins(block)),
    {
        match block {
            BlockStackElement::Function { .. } => {
                assert(self.current() =~= old(self).current() + plain(block_begins(block)));
            },
            BlockStackElement::Block { begin, .. } => {
                self.emit(push_index(begin.0));
            },
            BlockStackElement::Loop { begin, .. } => {
                self.emit(push_index(begin.0));
            },
            BlockStackElement::If { begin_if, .. } => {
                self.emit(push_index(begin_if.0));
            },
            BlockStackElement::Else { begin_if, begin_else, .. } => {
                self.emit_2(push_index(begin_if.0), push_index(begin_else.0));
            },
        }
    }

    /// The code for `nop`, `unreachable` and the instructions that delimit blocks.
    fn emit_block(
        &mut self,
        func: FunctionIdx,
        at: InstrIdx,
        instr: Instr,
        site: SiteInfo,
        n: usize,
        vars: &Vec<ValType>,
        Ghost(before): Ghost<Seq<ValType>>,
    )
        requires
            old(self).wf(),
            old(self).has_room(2),
            n == before.len(),
            vars@ == before + fresh(instr, site@.sig),
            old(self).current() == Seq::<Emit>::empty(),
            site_fits(instr, site@, before),
            instr is Nop || instr is Unreachable || instr is Block || instr is Loop || instr is If || instr is Else
                || instr is End,
        ensures
            final(self).continues(*old(self)),
            final(self).issued() <= old(self).issued() + 2,
            final(self).current() == chunk(func, at, instr, site@, before, 0),
    {
        broadcast use lemma_empty_add;
        let total: usize = vars.len();
        match instr {
            Instr::Nop => {
                self.emit_location(func, at);
                self.emit_hook(HookOp::Nop, no_types());
            },
            Instr::Unreachable => {
                self.emit_location(func, at);
                self.emit_hook(HookOp::Unreachable, no_types());
                self.emit(Instr::Unreachable);
            },
            Instr::Block(ty) => {
                self.emit(Instr::Block(ty));
                self.emit_location(func, at);
                self.emit_hook(HookOp::BeginBlock, no_types());
            },
            Instr::Loop(ty) => {
                self.emit(Instr::Loop(ty));
                self.emit_location(func, at);
                self.emit_hook(HookOp::BeginLoop, no_types());
            },
            Instr::If(ty) => {
                let condition = LocalIdx(n);
                self.emit(Instr::Local(LocalOp::TeeLocal, condition));
                self.emit_location(func, at);
                self.emit(Instr::Local(LocalOp::GetLocal, condition));
                self.emit_hook(HookOp::If, no_types());
                self.emit(Instr::If(ty));
                self.emit_location(func, at);
                self.emit_hook(HookOp::BeginIf, no_types());
            },
            Instr::Else => {
                if let Some(block) = site.block {
                    let begin_if = match block {
                        BlockStackElement::If { begin_if, .. } => begin_if,
                        BlockStackElement::Else { begin_if, .. } => begin_if,
                        _ => InstrIdx(0),
                    };
                    self.emit_location(func, at);
                    self.emit(push_index(begin_if.0));
                    self.emit_hook(HookOp::End(block.kind()), no_types());
                    self.emit(Instr::Else);
                    self.emit_location(func, at);
                    self.emit(push_index(begin_if.0));
                    self.emit_hook(HookOp::BeginElse, no_types());
                }
            },
            Instr::End => {
                if let Some(block) = site.block {
                    self.emit_location(func, at);
                    self.emit_block_begins(block);
                    self.emit_hook(HookOp::End(block.kind()), no_types());
                    self.emit(Instr::End);
                }
            },
            _ => {},
        }
    }

    /// The code for branches and returns.
    fn emit_branch(
        &mut self,
        func: FunctionIdx,
        at: InstrIdx,
        instr: Instr,
        site: SiteInfo,
        n: usize,
        vars: &Vec<ValType>,
        tables: usize,
        Ghost(before): Ghost<Seq<ValType>>,
    )
        requires
            old(self).wf(),
            old(self).has_room(2),
            n == before.len(),
            vars@ == before + fresh(instr, site@.sig),
            old(self).current() == Seq::<Emit>::empty(),
            site_fits(instr, site@, before),
            instr is Br || instr is BrIf || instr is BrTable || instr is Return,
        ensures
            final(self).continues(*old(self)),
            final(self).issued() <= old(self).issued() + 2,
            final(self).current() == chunk(func, at, instr, site@, before, tables as nat),
    {
        broadcast use lemma_empty_add;
        let total: usize = vars.len();
        match instr {
            Instr::Br(label) => {
                if let Some(target) = site.target {
                    self.emit_location(func, at);
                    self.emit_2(push_index(label.0), push_index(target.0));
                    self.emit_hook(HookOp::Br, no_types());
                    self.emit(Instr::Br(label));
                }
            },
            Instr::BrIf(label) => {
                if let Some(target) = site.target {
                    let condition = LocalIdx(n);
                    self.emit(Instr::Local(LocalOp::TeeLocal, condition));
                    self.emit_location(func, at);
                    self.emit_3(
                        push_index(label.0),
                        push_index(target.0),
                        Instr::Local(LocalOp::GetLocal, condition),
                    );
                    self.emit_hook(HookOp::BrIf, no_types());
                    self.emit(Instr::BrIf(label));
                }
            },
            Instr::BrTable(labels, default) => {
                let index = LocalIdx(n);
                self.emit(Instr::Local(LocalOp::TeeLocal, index));
                self.emit_location(func, at);
                self.emit_2(push_index(tables), Instr::Local(LocalOp::GetLocal, index));
                self.emit_hook(HookOp::BrTable, no_types());
                self.emit(Instr::BrTable(labels, default));
            },
            Instr::Return => {
                let results = locals_from(n, site.ty.results.len());
                self.emit_all(save_stack_to_locals(&results));
                self.emit_location(func, at);
                self.emit_all(restore_locals_with_i64_handling(&results, vars));
                self.emit_hook(HookOp::Return, site.ty.results);
                self.emit(Instr::Return);
            },
            _ => {},
        }
    }

    /// The code for calls.
    #[verifier::rlimit(40)]
    fn emit_call(
        &mut self,
        func: FunctionIdx,
        at: InstrIdx,
        instr: Instr,
        site: SiteInfo,
        n: usize,
        vars: &Vec<ValType>,
        Ghost(before): Ghost<Seq<ValType>>,
    )
        requires
            old(self).wf(),
            old(self).has_room(2),
            n == before.len(),
            vars@ == before + fresh(instr, site@.sig),
            old(self).current() == Seq::<Emit>::empty(),
            site_fits(instr, site@, before),
            instr is Call || instr is CallIndirect,
        ensures
            final(self).continues(*old(self)),
            final(self).issued() <= old(self).issued() + 2,
            final(self).current() == chunk(func, at, instr, site@, before, 0),
    {
        broadcast use lemma_empty_add;
        let total: usize = vars.len();
        match instr {
            Instr::Call(callee) => {
                let args = locals_from(n, site.ty.inputs.len());
                let results = locals_from(n + site.ty.inputs.len(), site.ty.results.len());
                self.emit_all(save_stack_to_locals(&args));
                self.emit_location(func, at);
                self.emit(push_index(callee.0));
                self.emit_all(restore_locals_with_i64_handling(&args, vars));
                self.emit_hook(HookOp::Call, site.ty.inputs);
                self.emit(Instr::Call(callee));
                self.emit_after_call(func, at, results, vars, site.ty.results);
            },
            Instr::CallIndirect(ty, table) => {
                let index = LocalIdx(n);
                let args = locals_from(n + 1, site.ty.inputs.len());
                let results = locals_from(n + 1 + site.ty.inputs.len(), site.ty.results.len());
                self.emit(Instr::Local(LocalOp::SetLocal, index));
                self.emit_all(save_stack_to_locals(&args));
                self.emit(Instr::Local(LocalOp::GetLocal, index));
                self.emit_location(func, at);
                self.emit(Instr::Local(LocalOp::GetLocal, index));
                self.emit_all(restore_locals_with_i64_handling(&args, vars));
                self.emit_hook(HookOp::CallIndirect, site.ty.inputs);
                self.emit(Instr::CallIndirect(ty, table));
                self.emit_after_call(func, at, results, vars, site.ty.results);
            },
            _ => {},
        }
    }

    /// The code for `drop`, `select` and accesses to variables.
    fn emit_variable(
        &mut self,
        func: FunctionIdx,
        at: InstrIdx,
        instr: Instr,
        site: SiteInfo,
        n: usize,
        vars: &Vec<ValType>,
        Ghost(before): Ghost<Seq<ValType>>,
    )
        requires
            old(self).wf(),
            old(self).has_room(2),
            n == before.len(),
            vars@ == before + fresh(instr, site@.sig),
            old(self).current() == Seq::<Emit>::empty(),
            site_fits(instr, site@, before),
            instr is Drop || instr is Select || instr is Local || instr is Global,
        ensures
            final(self).continues(*old(self)),
            final(self).issued() <= old(self).issued() + 2,
            final(self).current() == chunk(func, at, instr, site@, before, 0),
    {
        broadcast use lemma_empty_add;
        let total: usize = vars.len();
        match instr {
            Instr::Drop => {
                let value = LocalIdx(n);
                self.emit(Instr::Local(LocalOp::SetLocal, value));
                self.emit_location(func, at);
                self.emit_all(
                    convert_i64_instr(Instr::Local(LocalOp::GetLocal, value), site.ty.inputs[0]),
                );
                self.emit_hook(HookOp::Drop, site.ty.inputs);
            },
            Instr::Select => {
                let ty = site.ty.inputs[0];
                let condition = LocalIdx(n);
                let first = LocalIdx(n + 1);
                let second = LocalIdx(n + 2);
                let operands = vec![first, second, condition];
                assert(operands@ =~= seq![first, second, condition]);
                self.emit_all(save_stack_to_locals(&operands));
                self.emit(Instr::Select);
                self.emit_location(func, at);
                self.emit(Instr::Local(LocalOp::GetLocal, condition));
                let args = vec![first, second];
                assert(args@ =~= seq![first, second]);
                self.emit_all(restore_locals_with_i64_handling(&args, vars));
                let tys = vec![ty, ty];
                assert(tys@ =~= seq![ty, ty]);
                self.emit_hook(HookOp::Select, tys);
            },
            Instr::Local(op, local) => {
                let ty = vars[local.0];
                self.emit(Instr::Local(op, local));
                self.emit_location(func, at);
                self.emit(push_index(local.0));
                self.emit_all(convert_i64_instr(Instr::Local(LocalOp::GetLocal, local), ty));
                let tys = vec![ty];
                assert(tys@ =~= seq![ty]);
                self.emit_hook(HookOp::Local(op), tys);
            },
            Instr::Global(op, global) => {
                let ty = match op {
                    GlobalOp::GetGlobal => site.ty.results[0],
                    GlobalOp::SetGlobal => site.ty.inputs[0],
                };
                self.emit(Instr::Global(op, global));
                self.emit_location(func, at);
                self.emit(push_index(global.0));
                self.emit_all(convert_i64_instr(Instr::Global(GlobalOp::GetGlobal, global), ty));
                let tys = vec![ty];
                assert(tys@ =~= seq![ty]);
                self.emit_hook(HookOp::Global(op), tys);
            },
            _ => {},
        }
    }

    /// The code for memory accesses, constants and numeric operators.
    fn emit_operator(
        &mut self,
        func: FunctionIdx,
        at: InstrIdx,
        instr: Instr,
        site: SiteInfo,
        n: usize,
        vars: &Vec<ValType>,
        Ghost(before): Ghost<Seq<ValType>>,
    )
        requires
            old(self).wf(),
            old(self).has_room(2),
            n == before.len(),
            vars@ == before + fresh(instr, site@.sig),
            old(self).current() == Seq::<Emit>::empty(),
            site_fits(instr, site@, before),
            instr is MemorySize || instr is MemoryGrow || instr is Load || instr is Store || instr is Const
                || instr is Numeric,
        ensures
            final(self).continues(*old(self)),
            final(self).issued() <= old(self).issued() + 2,
            final(self).current() == chunk(func, at, instr, site@, before, 0),
    {
        broadcast use lemma_empty_add;
        let total: usize = vars.len();
        match instr {
            Instr::MemorySize(memory) => {
                self.emit(Instr::MemorySize(memory));
                self.emit_location(func, at);
                self.emit(Instr::MemorySize(memory));
                self.emit_hook(HookOp::MemorySize, no_types());
            },
            Instr::MemoryGrow(memory) => {
                let input = LocalIdx(n);
                let result = LocalIdx(n + 1);
                self.emit_3(
                    Instr::Local(LocalOp::TeeLocal, input),
                    Instr::MemoryGrow(memory),
                    Instr::Local(LocalOp::TeeLocal, result),
                );
                self.emit_location(func, at);
                self.emit_2(
                    Instr::Local(LocalOp::GetLocal, input),
                    Instr::Local(LocalOp::GetLocal, result),
                );
                self.emit_hook(HookOp::MemoryGrow, no_types());
            },
            Instr::Load(op, memarg) => {
                let tmps = locals_from(n, 2);
                self.emit_3(
                    Instr::Local(LocalOp::TeeLocal, tmps[0]),
                    Instr::Load(op, memarg),
                    Instr::Local(LocalOp::TeeLocal, tmps[1]),
                );
                self.emit_location(func, at);
                self.emit_2(
                    Instr::Const(Val::I32(memarg.offset as i32)),
                    Instr::Const(Val::I32(memarg.alignment as i32)),
                );
                self.emit_all(restore_locals_with_i64_handling(&tmps, vars));
                self.emit_hook(HookOp::Load(op), no_types());
            },
            Instr::Store(op, memarg) => {
                let tmps = locals_from(n, 2);
                self.emit_all(save_stack_to_locals(&tmps));
                self.emit(Instr::Store(op, memarg));
                self.emit_location(func, at);
                self.emit_2(
                    Instr::Const(Val::I32(memarg.offset as i32)),
                    Instr::Const(Val::I32(memarg.alignment as i32)),
                );
                self.emit_all(restore_locals_with_i64_handling(&tmps, vars));
                self.emit_hook(HookOp::Store(op), no_types());
            },
            Instr::Const(val) => {
                self.emit(Instr::Const(val));
                self.emit_location(func, at);
                self.emit_all(convert_i64_instr(Instr::Const(val), val.to_type()));
                self.emit_hook(HookOp::Const(val.to_type()), no_types());
            },
            Instr::Numeric(op) => {
                let ty = op.to_type();
                let inputs = locals_from(n, ty.inputs.len());
                let results = locals_from(n + ty.inputs.len(), ty.results.len());
                let both = locals_from(n, ty.inputs.len() + ty.results.len());
                assert(both@ =~= inputs@ + results@);
                self.emit_all(save_stack_to_locals(&inputs));
                self.emit(Instr::Numeric(op));
                self.emit_all(save_stack_to_locals(&results));
                self.emit_location(func, at);
                self.emit_all(restore_locals_with_i64_handling(&both, vars));
                self.emit_hook(HookOp::Numeric(op), no_types());
            },
            _ => {},
        }
    }

    /// Writes the code that goes in place of the instruction `instr` at index `at` of the function
    /// `func`. `vars` are the types of the function's variables, of which those from `n` on belong
    /// to this code; `tables` is the number of `br_table` instructions before.
    pub(crate) fn emit_instr(
        &mut self,
        func: FunctionIdx,
        at: InstrIdx,
        instr: Instr,
        site: SiteInfo,
        n: usize,
        vars: &Vec<ValType>,
        tables: usize,
        Ghost(before): Ghost<Seq<ValType>>,
    )
        requires
            old(self).wf(),
            old(self).has_room(2),
            n == before.len(),
            vars@ == before + fresh(instr, site@.sig),
            site_fits(instr, site@, before),
            old(self).current() == Seq::<Emit>::empty(),
        ensures
            final(self).wf(),
            final(self).current() == Seq::<Emit>::empty(),
            final(self).done() == old(self).done() + chunk(
                func,
                at,
                instr,
                site@,
                before,
                tables as nat,
            ),
            final(self).earlier() == old(self).earlier(),
            final(self).first() == old(self).first(),
            final(self).issued() <= old(self).issued() + 2,
    {
        match &instr {
            Instr::Nop | Instr::Unreachable | Instr::Block(_) | Instr::Loop(_) | Instr::If(_)
            | Instr::Else | Instr::End => self.emit_block(func, at, instr, site, n, vars, Ghost(before)),
            Instr::Br(_) | Instr::BrIf(_) | Instr::BrTable(_, _) | Instr::Return => self.emit_branch(
                func,
                at,
                instr,
                site,
                n,
                vars,
                tables,
                Ghost(before),
            ),
            Instr::Call(_) | Instr::CallIndirect(_, _) => self.emit_call(
                func,
                at,
                instr,
                site,
                n,
                vars,
                Ghost(before),
            ),
            Instr::Drop | Instr::Select | Instr::Local(_, _) | Instr::Global(_, _) => self.emit_variable(
                func,
                at,
                instr,
                site,
                n,
                vars,
                Ghost(before),
            ),
            _ => self.emit_operator(func, at, instr, site, n, vars, Ghost(before)),
        }
        self.close_piece();
    }

    /// Writes the code at the entry of a function.
    pub(crate) fn emit_prologue(&mut self, func: FunctionIdx, start: Option<GlobalIdx>)
        requires
            old(self).wf(),
            old(self).has_room(2),
            old(self).done() == Seq::<Emit>::empty(),
            old(self).current() == Seq::<Emit>::empty(),
        ensures
            final(self).wf(),
            final(self).done() == prologue(func, start),
            final(self).current() == Seq::<Emit>::empty(),
            final(self).earlier() == old(self).earlier(),
            final(self).first() == old(self).first(),
            final(self).issued() <= old(self).issued() + 2,
    {
        broadcast use lemma_empty_add;

        if let Some(not_executed) = start {
            self.emit_2(
                Instr::Global(GlobalOp::GetGlobal, not_executed),
                Instr::If(BlockType(None)),
            );
            self.emit_2(
                Instr::Const(Val::I32(0)),
                Instr::Global(GlobalOp::SetGlobal, not_executed),
            );
            self.emit_outside(func);
            self.emit_hook(HookOp::Start, no_types());
            self.emit(Instr::End);
            assert(self.current() =~= start_prologue(func, not_executed));
        }
        self.emit_outside(func);
        self.emit_hook(HookOp::BeginFunction, no_types());
        assert(self.current() =~= prologue(func, start));
        self.close_piece();
    }

    /// Writes, before the last `end`, the code for the implicit return of a function. `vars` are
    /// the types of the function's variables, of which those from `n` on belong to this code.
    pub(crate) fn emit_epilogue(
        &mut self,
        func: FunctionIdx,
        results: &Vec<ValType>,
        n: usize,
        vars: &Vec<ValType>,
        Ghost(before): Ghost<Seq<ValType>>,
    )
        requires
            old(self).wf(),
            old(self).has_room(1),
            old(self).done().len() > 0,
            old(self).done().last() == Emit::Plain(Instr::End),
            old(self).current() == Seq::<Emit>::empty(),
            n == before.len(),
            vars@ == before + results@,
        ensures
            final(self).wf(),
            final(self).done() == old(self).done().drop_last() + epilogue(func, results@, before),
            final(self).current() == Seq::<Emit>::empty(),
            final(self).earlier() == old(self).earlier(),
            final(self).first() == old(self).first(),
            final(self).issued() <= old(self).issued() + 1,
    {
        broadcast use lemma_empty_add;

        let total: usize = vars.len();
        let _ = self.body.pop();
        proof {
            assert(self@ =~= self.done@);
            self.done@ = self.done@.drop_last();
            assert(self@ =~= old(self)@.drop_last());
            assert(linked(self@, self.hooks@, self.hooks.first()) =~= linked(
                old(self)@,
                self.hooks@,
                self.hooks.first(),
            ).drop_last());
        }
        let tmps = locals_from(n, results.len());
        let mut tys: Vec<ValType> = Vec::new();
        push_all(&mut tys, results);
        assert(tys@ =~= results@);
        self.emit_all(save_stack_to_locals(&tmps));
        self.emit_outside(func);
        self.emit_all(restore_locals_with_i64_handling(&tmps, vars));
        self.emit_hook(HookOp::Return, tys);
        self.emit(Instr::End);
        self.close_piece();
    }

    /// Ends the current piece.
    fn close_piece(&mut self)
        requires
            old(self).wf(),
        ensures
            final(self).wf(),
            final(self).current() == Seq::<Emit>::empty(),
            final(self).done() == old(self).done() + old(self).current(),
            final(self).earlier() == old(self).earlier(),
            final(self).first() == old(self).first(),
            final(self).issued() == old(self).issued(),
    {
        proof {
            self.done@ = self.done@ + self.current@;
            self.current@ = Seq::empty();
            assert(self@ =~= old(self)@);
        }
    }
}

/// No types.
fn no_types() -> (tys: Vec<ValType>)
    ensures
        tys@ == Seq::<ValType>::empty(),
{
    Vec::new()
}

/// What the walk has found out fits the instruction; `before` are the types of the variables that
/// the instruction may refer to.
pub open spec fn site_fits(instr: Instr, site: crate::trace::Site, before: Seq<ValType>) -> bool {
    match instr {
        Instr::Else | Instr::End => site.block is Some,
        Instr::Br(_) | Instr::BrIf(_) => site.target is Some,
        Instr::Drop => site.sig.params.len() == 1,
        Instr::Select => site.sig.params.len() > 0,
        Instr::Local(_, local) => local.0 < before.len(),
        Instr::Global(GlobalOp::GetGlobal, _) => site.sig.results.len() > 0,
        Instr::Global(GlobalOp::SetGlobal, _) => site.sig.params.len() > 0,
        _ => true,
    }
}

/// The indices of `count` variables from `first` on.
fn locals_from(first: usize, count: usize) -> (locals: Vec<LocalIdx>)
    requires
        first + count <= usize::MAX,
    ensures
        locals@ == consecutive(first as nat, count as nat),
{
    let mut locals: Vec<LocalIdx> = Vec::new();
    for i in 0..count
        invariant
            first + count <= usize::MAX,
            locals@ == consecutive(first as nat, i as nat),
    {
        locals.push(LocalIdx(first + i));
        assert(consecutive(first as nat, (i + 1) as nat) =~= consecutive(first as nat, i as nat).push(
            LocalIdx((first + i) as usize),
        ));
    }
    locals
}

} // verus!
