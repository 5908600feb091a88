//! Where the code for each instruction stands in an instrumented function, and which of its steps
//! delimit the blocks.
use vstd::prelude::*;

use crate::add_hooks::lemma_last_is_end;
use crate::ast::{consecutive, index_const, FunctionIdx, Instr, InstrIdx, ValType};
use crate::block_stack::{closing, nesting_of, nestings, switching, Nesting};
use crate::chunk_lemmas::is_straight;
use crate::control_laws::code_behind;
use crate::hook_map::HookOp;
use crate::program::nesting;
use crate::structure_laws::{
    control, law_code_stands_in_order, lemma_control_add, lemma_control_of_chunk,
    lemma_control_of_epilogue, lemma_last_code_is_longer, lemma_quiet_add, lemma_straight_is_quiet,
    quiet,
};
use crate::trace::{
    chunk, epilogue, fresh, get, hook, if_begin, located, plain, restored, returns_implicitly, saved,
    tee, Emit, Site,
};
use crate::walk::{instrumented, lemma_walkable_prefix, progress, site_at, walkable, Scope};

verus! {

/// Where the code for the instruction with index `k` begins; for the index behind the last
/// instruction, the end of the code.
pub open spec fn position(scope: Scope, k: int) -> int {
    if 0 <= k < scope.body.len() {
        progress(scope, k as nat)->0.trace.len() as int
    } else {
        instrumented(scope).len() as int
    }
}

/// The code for the instruction with index `k`, without what is behind the last instruction.
pub open spec fn own_code(scope: Scope, k: int) -> Seq<Emit> {
    let w = progress(scope, k as nat)->0.walked;
    let instr = scope.body[k];
    chunk(
        scope.func,
        InstrIdx(k as usize),
        instr,
        site_at(scope, w, instr),
        w.vars,
        w.tables.len(),
    )
}

/// The code for the instruction with index `k`. Where the function returns implicitly, the code for
/// that belongs to the last instruction.
pub open spec fn code_for(scope: Scope, k: int) -> Seq<Emit> {
    if k + 1 == scope.body.len() && returns_implicitly(scope.body) {
        own_code(scope, k).drop_last() + epilogue(
            scope.func,
            scope.results,
            progress(scope, scope.body.len())->0.walked.vars,
        )
    } else {
        own_code(scope, k)
    }
}

proof fn lemma_without_last(a: Seq<Emit>, b: Seq<Emit>, c: Seq<Emit>)
    requires
        b.len() > 0,
    ensures
        (a + b).drop_last() + c == a + (b.drop_last() + c),
{
    assert((a + b).drop_last() + c =~= a + (b.drop_last() + c));
}

proof fn lemma_subrange_of_sum(a: Seq<Emit>, b: Seq<Emit>)
    ensures
        (a + b).subrange(a.len() as int, (a + b).len() as int) == b,
{
    assert((a + b).subrange(a.len() as int, (a + b).len() as int) =~= b);
}

/// The code for the instructions stands one behind the other.
pub(crate) proof fn lemma_positions(scope: Scope, k: int)
    requires
        walkable(scope),
        0 <= k < scope.body.len(),
    ensures
        0 <= position(scope, k),
        position(scope, k + 1) == position(scope, k) + code_for(scope, k).len(),
        position(scope, k + 1) <= instrumented(scope).len(),
        instrumented(scope).subrange(position(scope, k), position(scope, k + 1)) == code_for(scope, k),
{
    let len = scope.body.len();
    if k + 1 < len {
        law_code_stands_in_order(scope, k as nat);
    } else {
        lemma_walkable_prefix(scope, k as nat, len);
        lemma_last_code_is_longer(scope);
        let a = progress(scope, k as nat)->0.trace;
        let own = own_code(scope, k);
        assert(progress(scope, len)->0.trace == a + own);
        if returns_implicitly(scope.body) {
            let tail = epilogue(
                scope.func,
                scope.results,
                progress(scope, len)->0.walked.vars,
            );
            lemma_without_last(a, own, tail);
            lemma_subrange_of_sum(a, own.drop_last() + tail);
        } else {
            lemma_subrange_of_sum(a, own);
        }
    }
}

/// A step of the code for an instruction, as a step of the whole.
pub(crate) proof fn lemma_step_at(scope: Scope, k: int, i: int)
    requires
        walkable(scope),
        0 <= k < scope.body.len(),
        0 <= i < code_for(scope, k).len(),
    ensures
        0 <= position(scope, k) + i < instrumented(scope).len(),
        instrumented(scope)[position(scope, k) + i] == code_for(scope, k)[i],
{
    lemma_positions(scope, k);
    assert(instrumented(scope).subrange(position(scope, k), position(scope, k + 1))[i]
        == instrumented(scope)[position(scope, k) + i]);
}

/// Code without control instructions is quiet.
pub(crate) proof fn lemma_control_quiet(trace: Seq<Emit>)
    requires
        control(trace).len() == 0,
    ensures
        quiet(trace),
    decreases trace.len(),
{
    reveal(quiet);
    if trace.len() > 0 {
        let fewer = trace.drop_last();
        lemma_control_quiet(fewer);
        assert forall|i: int| 0 <= i < trace.len() implies (
        #[trigger] trace[i] matches Emit::Plain(instr) ==> is_straight(instr)) by {
            if i < fewer.len() {
                assert(fewer[i] == trace[i]);
            }
        }
    }
}

/// What stands around the only control instruction is quiet.
pub(crate) proof fn lemma_parts_quiet(a: Seq<Emit>, instr: Instr, b: Seq<Emit>)
    requires
        control(a + plain(seq![instr]) + b) == seq![instr],
        !is_straight(instr),
    ensures
        quiet(a),
        quiet(b),
{
    let one = plain(seq![instr]);
    lemma_control_add(a, one);
    lemma_control_add(a + one, b);
    assert(one.drop_last() =~= seq![]);
    assert(one.last() == Emit::Plain(instr));
    assert(control(one).len() == 1);
    assert(control(a).len() + 1 + control(b).len() == 1);
    lemma_control_quiet(a);
    lemma_control_quiet(b);
}

/// Quiet steps are passed over when the end of a block is looked for.
pub(crate) proof fn lemma_closing_skips(nesting: Seq<Nesting>, from: int, to: int, depth: nat)
    requires
        0 <= from <= to <= nesting.len(),
        forall|i: int| from <= i < to ==> (#[trigger] nesting[i]) == Nesting::Inside,
    ensures
        closing(nesting, from, depth) == closing(nesting, to, depth),
        switching(nesting, from, depth) == switching(nesting, to, depth),
    decreases to - from,
{
    if from < to {
        assert(nesting[from] == Nesting::Inside);
        lemma_closing_skips(nesting, from + 1, to, depth);
    }
}

/// The steps of quiet code are inside of blocks.
pub(crate) proof fn lemma_quiet_inside(code: Seq<Emit>, part: Seq<Emit>, at: int)
    requires
        0 <= at,
        at + part.len() <= code.len(),
        forall|i: int| 0 <= i < part.len() ==> code[at + i] == #[trigger] part[i],
        quiet(part),
    ensures
        forall|i: int|
            at <= i < at + part.len() ==> (#[trigger] nesting(code)[i]) == Nesting::Inside,
{
    reveal(quiet);
    assert forall|i: int| at <= i < at + part.len() implies (#[trigger] nesting(code)[i])
        == Nesting::Inside by {
        assert(code[at + (i - at)] == part[i - at]);
    }
}

/// The code behind the instruction with index `k`, where the instruction opens or switches a block.
pub open spec fn behind(scope: Scope, k: int) -> Seq<Emit> {
    let instr = scope.body[k];
    code_behind(
        scope.func,
        InstrIdx(k as usize),
        instr,
        site_at(scope, progress(scope, k as nat)->0.walked, instr),
    )
}

/// The code ahead of the instruction with index `k`, where that is a control instruction.
pub open spec fn ahead(scope: Scope, k: int) -> Seq<Emit> {
    code_for(scope, k).take(code_for(scope, k).len() - 1 - behind(scope, k).len())
}

/// Where the instruction with index `k`, which is a control instruction, stands itself.
pub open spec fn place(scope: Scope, k: int) -> int {
    position(scope, k + 1) - 1 - behind(scope, k).len()
}

/// A control instruction stands between the code ahead of it and the code behind it.
proof fn lemma_chunk_parts(
    func: FunctionIdx,
    at: InstrIdx,
    instr: Instr,
    site: Site,
    vars: Seq<ValType>,
    tables: nat,
) -> (first: Seq<Emit>)
    requires
        !is_straight(instr),
    ensures
        chunk(func, at, instr, site, vars, tables) == first + plain(seq![instr]) + code_behind(
            func,
            at,
            instr,
            site,
        ),
{
    let loc = located(func, at);
    let code = chunk(func, at, instr, site, vars, tables);
    let one = plain(seq![instr]);
    let none: Seq<Emit> = seq![];
    let tmp = consecutive(vars.len(), fresh(instr, site.sig).len());
    let last = code_behind(func, at, instr, site);
    match instr {
        Instr::Block(_) | Instr::Loop(_) => {
            assert(code =~= none + one + last);
            none
        },
        Instr::If(_) => {
            let first = plain(seq![tee(tmp[0])]) + loc + plain(seq![get(tmp[0])]) + hook(
                HookOp::If,
                seq![],
            );
            assert(code =~= first + one + last);
            first
        },
        Instr::Else => {
            let begin = plain(seq![index_const(if_begin(site.block->0).0)]);
            let first = loc + begin + hook(HookOp::End(site.block->0.spec_kind()), seq![]);
            assert(code =~= first + one + last);
            first
        },
        Instr::Return => {
            let first = plain(saved(tmp)) + loc + plain(restored(tmp, vars + fresh(instr, site.sig)))
                + hook(HookOp::Return, site.sig.results);
            assert(code =~= first + one + last);
            first
        },
        _ => {
            let first = code.drop_last();
            assert(one.last() == Emit::Plain(instr));
            assert(code.last() == Emit::Plain(instr));
            assert(code =~= first + one + last);
            first
        },
    }
}

/// The parts of the code for a control instruction.
pub(crate) proof fn lemma_parts(scope: Scope, k: int)
    requires
        walkable(scope),
        0 <= k < scope.body.len(),
        !is_straight(scope.body[k]),
    ensures
        code_for(scope, k) == ahead(scope, k) + plain(seq![scope.body[k]]) + behind(scope, k),
        quiet(ahead(scope, k)),
        quiet(behind(scope, k)),
        place(scope, k) == position(scope, k) + ahead(scope, k).len(),
        k + 1 == scope.body.len() ==> behind(scope, k).len() == 0,
        k + 1 == scope.body.len() && returns_implicitly(scope.body) ==> {
            let tail = epilogue(
                scope.func,
                scope.results,
                progress(scope, scope.body.len())->0.walked.vars,
            );
            &&& own_code(scope, k) == own_code(scope, k).drop_last() + plain(seq![Instr::End])
            &&& ahead(scope, k) == own_code(scope, k).drop_last() + tail.drop_last()
        },
{
    let len = scope.body.len();
    let instr = scope.body[k];
    let w = progress(scope, k as nat)->0.walked;
    let site = site_at(scope, w, instr);
    let (vars, tables) = (w.vars, w.tables.len());
    let one = plain(seq![instr]);
    let first = lemma_chunk_parts(scope.func, InstrIdx(k as usize), instr, site, vars, tables);
    lemma_positions(scope, k);
    lemma_control_of_chunk(scope.func, InstrIdx(k as usize), instr, site, vars, tables);
    lemma_parts_quiet(first, instr, behind(scope, k));
    if k + 1 == len {
        lemma_walkable_prefix(scope, 0, len);
        lemma_last_is_end(scope.body);
    }
    if k + 1 == len && returns_implicitly(scope.body) {
        let all = progress(scope, len)->0.walked.vars;
        let tail = epilogue(scope.func, scope.results, all);
        lemma_control_of_epilogue(scope.func, scope.results, all);
        assert(one.last() == Emit::Plain(Instr::End));
        assert(tail.last() == Emit::Plain(Instr::End));
        let report = tail.drop_last();
        assert(tail =~= report + one + seq![]);
        lemma_parts_quiet(report, instr, seq![]);
        assert(own_code(scope, k).drop_last() =~= first);
        assert(own_code(scope, k) =~= first + one);
        assert(code_for(scope, k) =~= (first + report) + one + behind(scope, k));
        assert(ahead(scope, k) =~= first + report);
        lemma_quiet_add(first, report);
    } else {
        assert(ahead(scope, k) =~= first);
    }
}

/// The nesting of plain code is that of its instructions.
pub(crate) proof fn lemma_nesting_of_plain(body: Seq<Instr>)
    ensures
        nesting(plain(body)) == nestings(body),
{
    assert(nesting(plain(body)) =~= nestings(body));
}

/// The nesting of the code for an instruction is that of the instruction.
pub(crate) proof fn lemma_nesting_of_code(scope: Scope, k: int)
    requires
        walkable(scope),
        0 <= k < scope.body.len(),
    ensures
        ({
            let all = nesting(instrumented(scope));
            let (begin, end) = (position(scope, k), position(scope, k + 1));
            &&& 0 <= begin <= end <= all.len()
            &&& is_straight(scope.body[k]) ==> forall|i: int|
                begin <= i < end ==> (#[trigger] all[i]) == Nesting::Inside
            &&& !is_straight(scope.body[k]) ==> {
                let at = place(scope, k);
                &&& begin <= at < end
                &&& all[at] == nesting_of(scope.body[k])
                &&& forall|i: int| begin <= i < at ==> (#[trigger] all[i]) == Nesting::Inside
                &&& forall|i: int| at < i < end ==> (#[trigger] all[i]) == Nesting::Inside
            }
        }),
{
    let code = instrumented(scope);
    let instr = scope.body[k];
    let begin = position(scope, k);
    let part = code_for(scope, k);
    lemma_positions(scope, k);
    assert forall|i: int| 0 <= i < part.len() implies code[begin + i] == #[trigger] part[i] by {
        lemma_step_at(scope, k, i);
    }
    if is_straight(instr) {
        let w = progress(scope, k as nat)->0.walked;
        lemma_last_is_not_straight(scope, k);
        lemma_straight_is_quiet(
            scope.func,
            InstrIdx(k as usize),
            instr,
            site_at(scope, w, instr),
            w.vars,
            w.tables.len(),
        );
        lemma_quiet_inside(code, part, begin);
    } else {
        lemma_parts(scope, k);
        let (a, b) = (ahead(scope, k), behind(scope, k));
        let at = place(scope, k);
        assert(plain(seq![instr]).len() == 1);
        assert forall|i: int| 0 <= i < a.len() implies code[begin + i] == #[trigger] a[i] by {
            assert(part[i] == a[i]);
        }
        lemma_quiet_inside(code, a, begin);
        assert forall|i: int| 0 <= i < b.len() implies code[at + 1 + i] == #[trigger] b[i] by {
            assert(part[a.len() + 1 + i] == b[i]);
            assert(code[begin + (a.len() + 1 + i)] == part[a.len() + 1 + i]);
        }
        lemma_quiet_inside(code, b, at + 1);
        assert(part[a.len() as int] == plain(seq![instr])[0]);
        assert(code[begin + a.len()] == part[a.len() as int]);
    }
}

/// The last instruction is an `end`.
pub(crate) proof fn lemma_last_is_not_straight(scope: Scope, k: int)
    requires
        walkable(scope),
        0 <= k < scope.body.len(),
    ensures
        k + 1 == scope.body.len() ==> scope.body[k] is End,
{
    lemma_walkable_prefix(scope, 0, scope.body.len());
    lemma_last_is_end(scope.body);
}

/// The blocks of the function and those of the instrumented function correspond: where a block ends,
/// or goes over to its second branch, in the one, it does so in the other, at the same instruction.
pub proof fn law_blocks_correspond(scope: Scope, k: int, depth: nat)
    requires
        walkable(scope),
        0 <= k <= scope.body.len(),
    ensures
        ({
            let before = nestings(scope.body);
            let after = nesting(instrumented(scope));
            &&& closing(after, position(scope, k), depth) == match closing(before, k, depth) {
                Some(end) => Some(place(scope, end)),
                None => None,
            }
            &&& switching(after, position(scope, k), depth) == match switching(before, k, depth) {
                Some(switch) => Some(place(scope, switch)),
                None => None,
            }
        }),
    decreases scope.body.len() - k,
{
    let before = nestings(scope.body);
    let after = nesting(instrumented(scope));
    if k < scope.body.len() {
        let instr = scope.body[k];
        let (begin, end) = (position(scope, k), position(scope, k + 1));
        lemma_nesting_of_code(scope, k);
        assert(before[k] == nesting_of(instr));
        if is_straight(instr) {
            lemma_closing_skips(after, begin, end, depth);
            law_blocks_correspond(scope, k + 1, depth);
        } else {
            let at = place(scope, k);
            lemma_closing_skips(after, begin, at, depth);
            let inner = match nesting_of(instr) {
                Nesting::Open => depth + 1,
                Nesting::Close => if depth > 0 {
                    (depth - 1) as nat
                } else {
                    0
                },
                _ => depth,
            };
            lemma_closing_skips(after, at + 1, end, inner);
            law_blocks_correspond(scope, k + 1, inner);
        }
    }
}

} // verus!
