//! That the walk knows the blocks of a function: which instructions delimit the blocks that are open
//! at an instruction, and where the branches out of them lead.
use vstd::prelude::*;

use crate::add_hooks::lemma_last_is_end;
use crate::ast::{FunctionIdx, Instr, InstrIdx, Label, Val, ValType};
use crate::block_stack::{
    closing, nesting_of, nestings, second_branch, switching, target, BlockKind, BlockStackElement,
    Nesting,
};
use crate::control_laws::{told_ahead, told_behind};
use crate::hook_map::{HookId, HookOp};
use crate::machine::{lowered_vals, Event, Host, State};
use crate::machine_lemmas::location;
use crate::program::{after_step, after_steps, branched, called, nesting, popped, topmost, Config, Frame};
use crate::static_info::{br_targets, LabelAndLocation};
use crate::trace::{plain, Emit};
use crate::walk::{admits, lemma_walkable_prefix, progress, site_at, walkable, walked_after, Scope};

verus! {

/// How many blocks are open before the instruction with index `k`, the function itself included.
pub open spec fn depth(body: Seq<Instr>, k: int) -> int
    decreases k,
{
    if k <= 0 {
        1
    } else {
        depth(body, k - 1) + match body[k - 1] {
            Instr::Block(_) | Instr::Loop(_) | Instr::If(_) => 1int,
            Instr::End => -1int,
            _ => 0int,
        }
    }
}

/// Whether the instruction at `b` opens a block that is closed by the `end` at `e`, with `level` blocks
/// open around it.
pub open spec fn delimits(body: Seq<Instr>, level: int, b: int, e: int) -> bool {
    &&& 0 <= b < e < body.len()
    &&& body[b] is Block || body[b] is Loop || body[b] is If
    &&& body[e] is End
    &&& depth(body, b) == level
    &&& depth(body, e + 1) == level
    &&& forall|j: int| b < j <= e ==> #[trigger] depth(body, j) > level
}

/// Whether the instruction at `j` is an `else` with `level` blocks open around its `if`.
pub open spec fn is_else_of(body: Seq<Instr>, level: int, j: int) -> bool {
    body[j] is Else && depth(body, j) == level + 1
}

/// Whether the `else` at `x` belongs to the `if` at `b` that ends at `e`.
pub open spec fn switches(body: Seq<Instr>, level: int, b: int, x: int, e: int) -> bool {
    &&& b < x < e
    &&& is_else_of(body, level, x)
    &&& forall|j: int| b < j < x ==> !#[trigger] is_else_of(body, level, j)
}

/// Whether the instruction at `k` stands in the given block, and `level` blocks are open around it.
pub open spec fn stands_in(body: Seq<Instr>, k: int, level: int, block: BlockStackElement) -> bool {
    match block {
        BlockStackElement::Function { end } => level == 0 && end.0 == body.len() - 1,
        BlockStackElement::Block { begin, end } => {
            &&& level > 0
            &&& body[begin.0 as int] is Block
            &&& begin.0 < k <= end.0
            &&& delimits(body, level, begin.0 as int, end.0 as int)
        },
        BlockStackElement::Loop { begin, end } => {
            &&& level > 0
            &&& body[begin.0 as int] is Loop
            &&& begin.0 < k <= end.0
            &&& delimits(body, level, begin.0 as int, end.0 as int)
        },
        BlockStackElement::If { begin_if, begin_else, end } => {
            &&& level > 0
            &&& body[begin_if.0 as int] is If
            &&& begin_if.0 < k <= end.0
            &&& delimits(body, level, begin_if.0 as int, end.0 as int)
            &&& match begin_else {
                Some(x) => k <= x.0 && switches(
                    body,
                    level,
                    begin_if.0 as int,
                    x.0 as int,
                    end.0 as int,
                ),
                None => forall|j: int| begin_if.0 < j < end.0 ==> !#[trigger] is_else_of(body, level, j),
            }
        },
        BlockStackElement::Else { begin_if, begin_else, end } => {
            &&& level > 0
            &&& body[begin_if.0 as int] is If
            &&& begin_else.0 < k <= end.0
            &&& delimits(body, level, begin_if.0 as int, end.0 as int)
            &&& switches(body, level, begin_if.0 as int, begin_else.0 as int, end.0 as int)
        },
    }
}

/// The blocks that are open before the instruction with index `k`.
pub open spec fn open_at(scope: Scope, k: int) -> Seq<BlockStackElement> {
    progress(scope, k as nat)->0.walked.open
}

/// The block that is open at `from` with `d` more inside of it: where it is closed.
pub(crate) proof fn lemma_closing_depth(body: Seq<Instr>, from: int, d: nat)
    requires
        0 <= from,
    ensures
        closing(nestings(body), from, d) matches Some(e) ==> {
            &&& from <= e < body.len()
            &&& body[e] is End
            &&& depth(body, e + 1) == depth(body, from) - d - 1
            &&& forall|j: int| from <= j <= e ==> #[trigger] depth(body, j) >= depth(body, from) - d
        },
    decreases body.len() - from,
{
    if from < body.len() {
        assert(nestings(body)[from] == nesting_of(body[from]));
        let inner = match nesting_of(body[from]) {
            Nesting::Open => d + 1,
            Nesting::Close => if d > 0 {
                (d - 1) as nat
            } else {
                0
            },
            _ => d,
        };
        lemma_closing_depth(body, from + 1, inner);
        if let Some(e) = closing(nestings(body), from, d) {
            assert forall|j: int| from <= j <= e implies #[trigger] depth(body, j) >= depth(body, from)
                - d by {
                if j > from {
                    assert(e != from);
                }
            }
        }
    }
}

/// The block that is open at `from` with `d` more inside of it: where it goes over to its second
/// branch, if it does.
proof fn lemma_switching_depth(body: Seq<Instr>, from: int, d: nat)
    requires
        0 <= from,
        closing(nestings(body), from, d) is Some,
    ensures
        match switching(nestings(body), from, d) {
            Some(x) => {
                &&& from <= x < closing(nestings(body), from, d)->0
                &&& body[x] is Else
                &&& depth(body, x) == depth(body, from) - d
                &&& forall|j: int|
                    from <= j < x ==> !(#[trigger] body[j] is Else && depth(body, j) == depth(body, from)
                        - d)
            },
            None => forall|j: int|
                from <= j < closing(nestings(body), from, d)->0 ==> !(#[trigger] body[j] is Else
                    && depth(body, j) == depth(body, from) - d),
        },
    decreases body.len() - from,
{
    if from < body.len() {
        assert(nestings(body)[from] == nesting_of(body[from]));
        lemma_closing_depth(body, from, d);
        match nesting_of(body[from]) {
            Nesting::Open => lemma_switching_depth(body, from + 1, d + 1),
            Nesting::Close => if d > 0 {
                lemma_switching_depth(body, from + 1, (d - 1) as nat);
            },
            Nesting::Switch => if d > 0 {
                lemma_switching_depth(body, from + 1, d);
            } else {
                lemma_closing_depth(body, from + 1, d);
            },
            Nesting::Inside => lemma_switching_depth(body, from + 1, d),
        }
    }
}

/// One step of the walk.
proof fn lemma_walked(scope: Scope, k: int)
    requires
        walkable(scope),
        0 <= k < scope.body.len(),
    ensures
        ({
            let w = progress(scope, k as nat)->0.walked;
            &&& progress(scope, k as nat) is Some
            &&& admits(scope, w, k, scope.body[k])
            &&& progress(scope, (k + 1) as nat)->0.walked == walked_after(scope, w, k, scope.body[k])
        }),
{
    lemma_walkable_prefix(scope, k as nat, scope.body.len());
    lemma_walkable_prefix(scope, (k + 1) as nat, scope.body.len());
}

/// The block that an instruction opens.
proof fn lemma_opened_block(scope: Scope, k: int)
    requires
        walkable(scope),
        scope.body.len() <= usize::MAX,
        0 <= k < scope.body.len(),
        scope.body[k] is Block || scope.body[k] is Loop || scope.body[k] is If,
        depth(scope.body, k) > 0,
    ensures
        open_at(scope, k + 1).len() == open_at(scope, k).len() + 1,
        open_at(scope, k + 1).drop_last() == open_at(scope, k),
        stands_in(scope.body, k + 1, depth(scope.body, k), open_at(scope, k + 1).last()),
{
    let body = scope.body;
    lemma_walked(scope, k);
    lemma_closing_depth(body, k + 1, 0);
    assert(open_at(scope, k + 1).drop_last() =~= open_at(scope, k));
    let e = closing(nestings(body), k + 1, 0)->0;
    assert(delimits(body, depth(body, k), k, e));
    if body[k] is If {
        lemma_switching_depth(body, k + 1, 0);
        let level = depth(body, k);
        match switching(nestings(body), k + 1, 0) {
            Some(x) => {
                assert(is_else_of(body, level, x));
                assert forall|j: int| k < j < x implies !#[trigger] is_else_of(body, level, j) by {
                    assert(!(body[j] is Else && depth(body, j) == level + 1));
                }
            },
            None => {
                assert forall|j: int| k < j < e implies !#[trigger] is_else_of(body, level, j) by {
                    assert(!(body[j] is Else && depth(body, j) == level + 1));
                }
            },
        }
    }
}

/// A block that stays open.
proof fn lemma_stays_open(body: Seq<Instr>, k: int, level: int, block: BlockStackElement)
    requires
        0 <= k < body.len(),
        stands_in(body, k, level, block),
        level < depth(body, k + 1),
        body[k] is Else ==> level + 1 < depth(body, k),
    ensures
        stands_in(body, k + 1, level, block),
{
    if let BlockStackElement::If { begin_if, begin_else: Some(x), end } = block {
        assert(is_else_of(body, level, x.0 as int));
    }
}

/// The walk knows which blocks are open at an instruction, and which instructions delimit them: the
/// function itself, and as many others as were opened before and not closed again, each with the
/// instruction that opened it, the `else` where it has one, and the `end` at which as many blocks are
/// open again as were before it.
pub proof fn law_open_blocks_are_known(scope: Scope, k: int)
    requires
        walkable(scope),
        scope.body.len() <= usize::MAX,
        0 <= k < scope.body.len(),
    ensures
        open_at(scope, k).len() == depth(scope.body, k),
        depth(scope.body, k) > 0,
        forall|i: int|
            0 <= i < open_at(scope, k).len() ==> stands_in(
                scope.body,
                k,
                i,
                #[trigger] open_at(scope, k)[i],
            ),
    decreases k,
{
    let body = scope.body;
    lemma_walkable_prefix(scope, 0, body.len());
    if k > 0 {
        let p = k - 1;
        law_open_blocks_are_known(scope, p);
        lemma_walked(scope, p);
        let (before, after) = (open_at(scope, p), open_at(scope, k));
        lemma_closing_depth(body, 0, 0);
        assert(depth(body, k) >= 1);
        if body[p] is Block || body[p] is Loop || body[p] is If {
            lemma_opened_block(scope, p);
        }
        assert forall|i: int| 0 <= i < after.len() implies stands_in(body, k, i, #[trigger] after[i]) by {
            if i < before.len() && !(body[p] is Else && i == before.len() - 1) {
                assert(after[i] == before[i]) by {
                    if body[p] is Block || body[p] is Loop || body[p] is If {
                        assert(after.drop_last()[i] == after[i]);
                    }
                }
                lemma_stays_open(body, p, i, before[i]);
            } else if body[p] is Else {
                let block = before.last();
                assert(stands_in(body, p, i, before[i]));
                assert(second_branch(block) == Some(after[i]));
                assert(is_else_of(body, i, p));
            }
        }
    } else {
        let w = progress(scope, 0)->0.walked;
        assert(w.open.len() == 1);
    }
}

/// Whether the instruction at `b` opened the block around the instruction at `k` that has `level` blocks
/// around it.
pub open spec fn encloses(body: Seq<Instr>, level: int, b: int, k: int) -> bool {
    &&& 0 <= b < k
    &&& depth(body, b) == level
    &&& forall|j: int| b < j <= k ==> #[trigger] depth(body, j) > level
}

/// Whether `t` is where a branch out of the instruction at `k` goes on that counts `label` blocks from the
/// inside: past the body for the function itself, behind the `loop` for a loop, and else behind the `end`
/// of the block, whether the branch stands in the first branch of an `if` or in the second.
pub open spec fn leads_to(body: Seq<Instr>, k: int, label: int, t: int) -> bool {
    let level = depth(body, k) - 1 - label;
    &&& level == 0 ==> t == body.len()
    &&& forall|b: int| #[trigger]
        encloses(body, level, b, k) && level > 0 ==> if body[b] is Loop {
            t == b + 1
        } else {
            &&& k < t <= body.len()
            &&& body[t - 1] is End
            &&& depth(body, t) == level
            &&& forall|j: int| b < j < t ==> #[trigger] depth(body, j) > level
        }
}

/// A label stands for a block exactly if as many blocks are open, and the target that is found for it is
/// where a branch to that block leads.
pub proof fn law_labels_lead_to_their_blocks(scope: Scope, k: int, label: Label)
    requires
        walkable(scope),
        scope.body.len() <= usize::MAX,
        0 <= k < scope.body.len(),
    ensures
        target(open_at(scope, k), label) is Some <==> label.0 < depth(scope.body, k),
        target(open_at(scope, k), label) matches Some(t) ==> leads_to(
            scope.body,
            k,
            label.0 as int,
            t.0 as int,
        ),
{
    let body = scope.body;
    let open = open_at(scope, k);
    law_open_blocks_are_known(scope, k);
    if label.0 < open.len() {
        let level = open.len() - 1 - label.0;
        let block = open[level];
        let t = (target(open, label)->0).0 as int;
        assert(stands_in(body, k, level, block));
        if level > 0 {
            let begin = block_begin(block);
            assert forall|b: int| #[trigger] encloses(body, level, b, k) implies b == begin by {
                if b < begin {
                    assert(depth(body, begin) > level);
                }
                if begin < b {
                    assert(depth(body, b) > level);
                }
            }
        }
    }
}

/// Whether an entry for a `br_table` instruction at `k` of the function `f` is the one for the label: it
/// holds the label and the place in that function where a branch to the label leads.
pub open spec fn is_entry_for(body: Seq<Instr>, f: int, k: int, label: Label, entry: LabelAndLocation) -> bool {
    &&& entry.label == label
    &&& entry.location.func.0 == f
    &&& leads_to(body, k, label.0 as int, entry.location.instr.0 as int)
}

/// The targets of a `br_table` instruction: for each label in turn, and for the one that stands for all
/// other indices, the label and where it leads, in the function of the instruction.
pub proof fn law_table_entries_lead_to_their_blocks(scope: Scope, k: int, func: FunctionIdx)
    requires
        walkable(scope),
        scope.body.len() <= usize::MAX,
        0 <= k < scope.body.len(),
        scope.body[k] is BrTable,
    ensures
        ({
            let labels = (scope.body[k]->BrTable_0)@;
            let default = scope.body[k]->BrTable_1;
            match br_targets(open_at(scope, k), labels, default, func) {
                Some(targets) => {
                    &&& targets.table.len() == labels.len()
                    &&& forall|i: int|
                        0 <= i < labels.len() ==> is_entry_for(
                            scope.body,
                            func.0 as int,
                            k,
                            labels[i],
                            #[trigger] targets.table[i],
                        )
                    &&& is_entry_for(scope.body, func.0 as int, k, default, targets.default)
                },
                None => default.0 >= depth(scope.body, k) || exists|i: int|
                    0 <= i < labels.len() && (#[trigger] labels[i]).0 >= depth(scope.body, k),
            }
        }),
{
    let labels = (scope.body[k]->BrTable_0)@;
    let default = scope.body[k]->BrTable_1;
    let open = open_at(scope, k);
    law_labels_lead_to_their_blocks(scope, k, default);
    match br_targets(open, labels, default, func) {
        Some(targets) => {
            assert forall|i: int| 0 <= i < labels.len() implies is_entry_for(
                scope.body,
                func.0 as int,
                k,
                labels[i],
                #[trigger] targets.table[i],
            ) by {
                law_labels_lead_to_their_blocks(scope, k, labels[i]);
                assert(target(open, labels[i]) is Some);
            }
        },
        None => if target(open, default) is Some {
            let i = choose|i: int| 0 <= i < labels.len() && target(open, #[trigger] labels[i]) is None;
            law_labels_lead_to_their_blocks(scope, k, labels[i]);
            assert(labels[i].0 >= depth(scope.body, k));
        },
    }
}

/// Whether a block that is open in a run is the one that the walk knows: a branch to it goes on at the
/// target of the frame, and the blocks around it are open there.
spec fn block_frame(scope: Scope, i: int, open: Seq<BlockStackElement>, frame: Frame) -> bool {
    &&& 0 <= frame.target <= scope.body.len()
    &&& match open[i] {
        BlockStackElement::Function { end } => frame.target == end.0 + 1,
        BlockStackElement::Block { begin, end } => frame.target == end.0 + 1,
        BlockStackElement::Loop { begin, end } => frame.target == begin.0,
        BlockStackElement::If { begin_if, begin_else, end } => frame.target == end.0 + 1,
        BlockStackElement::Else { begin_if, begin_else, end } => frame.target == end.0 + 1,
    }
    &&& frame.target < scope.body.len() ==> open_at(scope, frame.target) == open.take(i)
}

/// Whether the blocks that are open at a point of a run are those that the walk knows.
spec fn block_point(scope: Scope, c: Config) -> bool {
    &&& 0 <= c.at <= scope.body.len()
    &&& c.at < scope.body.len() ==> {
        &&& c.frames.len() == open_at(scope, c.at).len()
        &&& forall|i: int|
            #![trigger c.frames[i]]
            0 <= i < c.frames.len() ==> block_frame(scope, i, open_at(scope, c.at), c.frames[i])
    }
}

/// Where a block ends that was entered with the blocks `lower` open, these are open again; where it goes
/// over to its second branch, that branch is open besides them.
proof fn lemma_open_behind_block(scope: Scope, k: int, d: nat, lower: Seq<BlockStackElement>)
    requires
        walkable(scope),
        0 <= k <= scope.body.len(),
        k < scope.body.len() ==> {
            &&& open_at(scope, k).len() == lower.len() + 1 + d
            &&& open_at(scope, k).take(lower.len() as int) == lower
        },
    ensures
        closing(nestings(scope.body), k, d) matches Some(end) ==> open_at(scope, end + 1) == lower,
        switching(nestings(scope.body), k, d) matches Some(switch) ==> {
            let block = open_at(scope, k)[lower.len() as int];
            &&& second_branch(block) is Some
            &&& open_at(scope, switch + 1) == lower.push(second_branch(block)->0)
        },
    decreases scope.body.len() - k,
{
    if k < scope.body.len() {
        let instr = scope.body[k];
        let (open, after) = (open_at(scope, k), open_at(scope, k + 1));
        let n = lower.len() as int;
        lemma_walked(scope, k);
        assert(nestings(scope.body)[k] == nesting_of(instr));
        if nesting_of(instr) is Close && d == 0 {
            assert(after =~= lower);
        } else {
            assert(after.take(n) =~= open.take(n));
            if nesting_of(instr) is Switch && d == 0 {
                assert(after =~= lower.push(second_branch(open[n])->0));
            }
            let inner = match nesting_of(instr) {
                Nesting::Open => d + 1,
                Nesting::Close => (d - 1) as nat,
                _ => d,
            };
            lemma_open_behind_block(scope, k + 1, inner, lower);
        }
    }
}

/// The nesting of the code of a function.
pub(crate) proof fn lemma_nesting_of_plain(body: Seq<Instr>)
    ensures
        nesting(plain(body)) == nestings(body),
        plain(body).len() == body.len(),
{
    assert(nesting(plain(body)) =~= nestings(body));
}

/// A block is entered.
proof fn lemma_block_entered(scope: Scope, c: Config, c2: Config)
    requires
        walkable(scope),
        block_point(scope, c),
        0 <= c.at < scope.body.len(),
        0 <= c2.at < scope.body.len() ==> {
            let open = open_at(scope, c2.at);
            &&& open.len() == c.frames.len() + 1
            &&& open.take(c.frames.len() as int) == open_at(scope, c.at)
            &&& c2.frames.len() == c.frames.len() + 1
            &&& c2.frames.drop_last() == c.frames
            &&& block_frame(scope, c.frames.len() as int, open, c2.frames.last())
        },
        0 <= c2.at <= scope.body.len(),
    ensures
        block_point(scope, c2),
{
    if c2.at < scope.body.len() {
        let (before, open) = (open_at(scope, c.at), open_at(scope, c2.at));
        assert forall|i: int|
            #![trigger c2.frames[i]]
            0 <= i < c2.frames.len() implies block_frame(scope, i, open, c2.frames[i]) by {
            if i < c.frames.len() {
                assert(c2.frames.drop_last()[i] == c.frames[i]);
                assert(block_frame(scope, i, before, c.frames[i]));
                assert(before[i] == open[i]);
                assert(before.take(i) =~= open.take(i));
            }
        }
    }
}

/// Blocks are left.
proof fn lemma_blocks_left(scope: Scope, c: Config, c2: Config, count: int)
    requires
        block_point(scope, c),
        0 <= c.at < scope.body.len(),
        0 <= count <= c.frames.len(),
        c2.frames == c.frames.take(count),
        0 <= c2.at <= scope.body.len(),
        c2.at < scope.body.len() ==> open_at(scope, c2.at) == open_at(scope, c.at).take(count),
    ensures
        block_point(scope, c2),
{
    if c2.at < scope.body.len() {
        let (before, open) = (open_at(scope, c.at), open_at(scope, c2.at));
        assert forall|i: int|
            #![trigger c2.frames[i]]
            0 <= i < c2.frames.len() implies block_frame(scope, i, open, c2.frames[i]) by {
            assert(block_frame(scope, i, before, c.frames[i]));
            assert(open[i] == before[i]);
            assert(before.take(i) =~= open.take(i));
        }
    }
}

/// A branch.
proof fn lemma_blocks_branched(scope: Scope, c: Config, label: int, c2: Config)
    requires
        block_point(scope, c),
        0 <= c.at < scope.body.len(),
        branched(c, label) == Some(c2),
    ensures
        block_point(scope, c2),
{
    let k = c.frames.len() - 1 - label;
    assert(block_frame(scope, k, open_at(scope, c.at), c.frames[k]));
    lemma_blocks_left(scope, c, c2, k);
}

/// Entering a block.
proof fn lemma_blocks_opened(host: Host, scope: Scope, c: Config, c2: Config)
    requires
        walkable(scope),
        scope.body.len() <= usize::MAX,
        block_point(scope, c),
        0 <= c.at < scope.body.len(),
        scope.body[c.at] is Block || scope.body[c.at] is Loop || scope.body[c.at] is If,
        after_step(host, plain(scope.body), c) == Some(c2),
    ensures
        block_point(scope, c2),
{
    let k = c.at;
    let body = scope.body;
    let open = open_at(scope, k);
    let inside = open_at(scope, k + 1);
    lemma_nesting_of_plain(body);
    lemma_walked(scope, k);
    lemma_closing_depth(body, k + 1, 0);
    assert(inside.take(open.len() as int) =~= open);
    lemma_open_behind_block(scope, k + 1, 0, open);
    lemma_walkable_prefix(scope, 0, body.len());
    assert(open.take(c.frames.len() as int) =~= open);
    if c2.frames == c.frames {
        assert(c.frames.take(c.frames.len() as int) =~= c.frames);
        lemma_blocks_left(scope, c, c2, c.frames.len() as int);
    } else {
        assert(c2.frames.drop_last() =~= c.frames);
        if body[k] is If {
            lemma_switching_depth(body, k + 1, 0);
        }
        if 0 <= c2.at < body.len() {
            assert(open_at(scope, c2.at).take(open.len() as int) =~= open);
        }
        lemma_block_entered(scope, c, c2);
    }
}

/// A step of a run leads to where the walk knows the open blocks.
proof fn lemma_blocks_step(host: Host, scope: Scope, c: Config, c2: Config)
    requires
        walkable(scope),
        scope.body.len() <= usize::MAX,
        block_point(scope, c),
        after_step(host, plain(scope.body), c) == Some(c2),
    ensures
        block_point(scope, c2),
{
    let k = c.at;
    let body = scope.body;
    lemma_nesting_of_plain(body);
    assert(plain(body)[k] == Emit::Plain(body[k]));
    lemma_walked(scope, k);
    let open = open_at(scope, k);
    let all = c.frames.len() as int;
    assert(c.frames.take(all) =~= c.frames);
    assert(open.take(all) =~= open);
    match body[k] {
        Instr::Block(_) | Instr::Loop(_) | Instr::If(_) => lemma_blocks_opened(host, scope, c, c2),
        Instr::Else => {
            lemma_closing_depth(body, k + 1, 0);
            let lower = open.drop_last();
            assert(open_at(scope, k + 1).take(lower.len() as int) =~= lower);
            lemma_open_behind_block(scope, k + 1, 0, lower);
            assert(c.frames.drop_last() =~= c.frames.take(all - 1));
            assert(lower =~= open.take(all - 1));
            lemma_blocks_left(scope, c, c2, all - 1);
        },
        Instr::End => {
            assert(c.frames.drop_last() =~= c.frames.take(all - 1));
            assert(open.drop_last() =~= open.take(all - 1));
            lemma_blocks_left(scope, c, c2, all - 1);
        },
        Instr::Br(label) => lemma_blocks_branched(scope, c, label.0 as int, c2),
        Instr::Return => lemma_blocks_branched(scope, c, c.frames.len() - 1, c2),
        Instr::BrIf(label) => {
            if topmost(c.state) != 0 {
                lemma_blocks_branched(scope, popped(c), label.0 as int, c2);
            } else {
                lemma_blocks_left(scope, c, c2, all);
            }
        },
        Instr::BrTable(labels, default) => {
            let index = (topmost(c.state) as u32) as int;
            if index < labels@.len() {
                lemma_blocks_branched(scope, popped(c), labels@[index].0 as int, c2);
            } else {
                lemma_blocks_branched(scope, popped(c), default.0 as int, c2);
            }
        },
        _ => lemma_blocks_left(scope, c, c2, all),
    }
}

/// Wherever a run comes to, the walk knows the open blocks.
proof fn lemma_blocks_steps(host: Host, scope: Scope, s: State, count: nat)
    requires
        walkable(scope),
        scope.body.len() <= usize::MAX,
        after_steps(host, plain(scope.body), called(plain(scope.body), scope.results, s), count) is Some,
    ensures
        block_point(
            scope,
            after_steps(host, plain(scope.body), called(plain(scope.body), scope.results, s), count)->0,
        ),
    decreases count,
{
    let code = plain(scope.body);
    let c = called(code, scope.results, s);
    lemma_nesting_of_plain(scope.body);
    if count == 0 {
        lemma_walkable_prefix(scope, 0, scope.body.len());
        lemma_last_is_end(scope.body);
    } else {
        lemma_blocks_steps(host, scope, s, (count - 1) as nat);
        let before = after_steps(host, code, c, (count - 1) as nat)->0;
        lemma_blocks_step(host, scope, before, after_steps(host, code, c, count)->0);
    }
}

/// Where a run goes on after a branch to the open block of the frame: at the target of the frame; and for
/// a loop, which is entered again there, at the instruction behind.
pub open spec fn goes_on(c: Config, frame: Frame) -> int {
    if frame.target < c.at {
        frame.target + 1
    } else {
        frame.target
    }
}

/// What is told about a branch is what happens. Wherever a run of the function comes to, the blocks that
/// are open are those that the walk knows, and for each label the target that hooks are told, and that is
/// listed for a `br_table` instruction, is the instruction at which the run goes on if the branch is taken,
/// whatever kind of block it leaves.
pub proof fn law_told_targets_are_where_runs_go_on(host: Host, scope: Scope, s: State, count: nat, label: Label)
    requires
        walkable(scope),
        scope.body.len() <= usize::MAX,
        after_steps(host, plain(scope.body), called(plain(scope.body), scope.results, s), count) matches Some(c)
            && 0 <= c.at < scope.body.len(),
    ensures
        ({
            let c = after_steps(
                host,
                plain(scope.body),
                called(plain(scope.body), scope.results, s),
                count,
            )->0;
            let instr = scope.body[c.at];
            let w = progress(scope, c.at as nat)->0.walked;
            let told = target(w.open, label);
            &&& w.open.len() == c.frames.len()
            &&& label.0 < c.frames.len() ==> {
                let frame = c.frames[c.frames.len() - 1 - label.0];
                &&& told matches Some(t) && t.0 == goes_on(c, frame)
                &&& frame.target < c.at ==> scope.body[frame.target] is Loop
                // a branch that is taken goes on there, at once or by entering the loop again
                &&& branched(c, label.0 as int) matches Some(c2) ==> c2.at == frame.target && (
                frame.target < c.at ==> (after_step(host, plain(scope.body), c2) matches Some(c3)
                    && c3.at == (told->0).0))
            }
            &&& (instr == Instr::Br(label) || instr == Instr::BrIf(label)) ==> site_at(scope, w, instr).target
                == told
        }),
{
    let code = plain(scope.body);
    let c = after_steps(host, code, called(code, scope.results, s), count)->0;
    lemma_blocks_steps(host, scope, s, count);
    law_open_blocks_are_known(scope, c.at);
    lemma_nesting_of_plain(scope.body);
    let open = open_at(scope, c.at);
    if label.0 < c.frames.len() {
        let i = c.frames.len() - 1 - label.0;
        let frame = c.frames[i];
        assert(block_frame(scope, i, open, frame));
        assert(stands_in(scope.body, c.at, i, open[i]));
        if frame.target < c.at {
            assert(open[i] is Loop);
            assert(code[frame.target] == Emit::Plain(scope.body[frame.target]));
        }
    }
}

/// Whether a hook call with the location `loc` reports the end, at the instruction `k`, of the block that
/// the instruction at `b` opened: as a block of that kind, with the index `b`, and for the second branch
/// of an `if` besides with the index of its `else`.
pub open spec fn reports_end(body: Seq<Instr>, k: int, b: int, loc: Seq<Val>, told: Event) -> bool {
    let begin = Val::I32(b as i32);
    &&& told.id.tys == Seq::<ValType>::empty()
    &&& match body[b] {
        Instr::Block(_) => told.id.op == HookOp::End(BlockKind::Block) && told.args == loc + seq![begin],
        Instr::Loop(_) => told.id.op == HookOp::End(BlockKind::Loop) && told.args == loc + seq![begin],
        _ => {
            let level = depth(body, b);
            &&& (forall|j: int| b < j < k ==> !#[trigger] is_else_of(body, level, j)) ==> told.id.op
                == HookOp::End(BlockKind::If) && told.args == loc + seq![begin]
            &&& forall|x: int|
                b < x < k && #[trigger] is_else_of(body, level, x) ==> told.id.op == HookOp::End(
                    BlockKind::Else,
                ) && told.args == loc + seq![begin, Val::I32(x as i32)]
        },
    }
}

/// The end of a block is reported as the end of the block that it is: where an `end` or `else` leaves a
/// block, the hook is told the kind of the instruction that opened the block and its index; and where an
/// `else` enters the second branch, the index of the `if`. The last `end` is reported as the end of the
/// function.
#[verifier::rlimit(40)]
pub proof fn law_ends_tell_where_their_blocks_began(scope: Scope, k: int, tables: nat, s: State)
    requires
        walkable(scope),
        scope.body.len() <= usize::MAX,
        0 <= k < scope.body.len(),
        scope.body[k] is End || scope.body[k] is Else,
    ensures
        ({
            let body = scope.body;
            let at = InstrIdx(k as usize);
            let loc = location(scope.func, at);
            let site = site_at(scope, progress(scope, k as nat)->0.walked, body[k]);
            let ahead = told_ahead(scope.func, at, body[k], site, tables, s);
            let behind = told_behind(scope.func, at, body[k], site);
            &&& ahead.len() == 1
            &&& depth(body, k) == 1 ==> ahead[0].id == (HookId {
                op: HookOp::End(BlockKind::Function),
                tys: seq![],
            }) && ahead[0].args == loc
            &&& forall|b: int| #[trigger]
                encloses(body, depth(body, k) - 1, b, k) && depth(body, k) > 1 ==> reports_end(
                    body,
                    k,
                    b,
                    loc,
                    ahead[0],
                )
            &&& body[k] is Else ==> behind.len() == 1 && behind[0].id == (HookId {
                op: HookOp::BeginElse,
                tys: seq![],
            }) && forall|b: int| #[trigger]
                encloses(body, depth(body, k) - 1, b, k) ==> behind[0].args == loc + seq![
                    Val::I32(b as i32),
                ]
            &&& body[k] is End ==> behind.len() == 0
        }),
{
    let body = scope.body;
    law_open_blocks_are_known(scope, k);
    lemma_walked(scope, k);
    let level = depth(body, k) - 1;
    let block = open_at(scope, k).last();
    let loc = location(scope.func, InstrIdx(k as usize));
    assert(stands_in(body, k, level, open_at(scope, k)[level]));
    let begin = block_begin(block);
    assert forall|b: int| #[trigger] encloses(body, level, b, k) && level > 0 implies b == begin by {
        if b < begin {
            assert(depth(body, begin) > level);
        }
        if begin < b {
            assert(depth(body, b) > level);
        }
    }
    if body[k] is Else {
        assert(block is If);
        assert(is_else_of(body, level, k));
    }
    if let BlockStackElement::If { begin_if, begin_else, end } = block {
        if let Some(x) = begin_else {
            assert(is_else_of(body, level, x.0 as int));
            if body[k] is End {
                assert(depth(body, k + 1) == level);
                assert(k + 1 <= end.0);
            }
        }
        assert forall|j: int| begin < j < k implies !#[trigger] is_else_of(body, level, j) by {}
    }
    if let BlockStackElement::Else { begin_if, begin_else, end } = block {
        assert(is_else_of(body, level, begin_else.0 as int));
        lemma_one_else(scope, begin_else.0 as int, k, level);
    }
    lemma_lowered_i32(seq![]);
    lemma_lowered_i32(seq![begin as i32]);
    let none: Seq<Val> = seq![];
    assert(seq![].map_values(|v: i32| Val::I32(v)) =~= none);
    assert(loc + none =~= loc);
    assert(seq![begin as i32].map_values(|v: i32| Val::I32(v)) =~= seq![Val::I32(begin as i32)]);
    if let BlockStackElement::Else { begin_if, begin_else, end } = block {
        lemma_lowered_i32(seq![begin as i32, begin_else.0 as i32]);
        assert(seq![begin as i32, begin_else.0 as i32].map_values(|v: i32| Val::I32(v)) =~= seq![
            Val::I32(begin as i32),
            Val::I32(begin_else.0 as i32),
        ]);
    }
}

/// Where the instruction stands that opened the block.
spec fn block_begin(block: BlockStackElement) -> int {
    match block {
        BlockStackElement::Function { end } => 0,
        BlockStackElement::Block { begin, end } => begin.0 as int,
        BlockStackElement::Loop { begin, end } => begin.0 as int,
        BlockStackElement::If { begin_if, begin_else, end } => begin_if.0 as int,
        BlockStackElement::Else { begin_if, begin_else, end } => begin_if.0 as int,
    }
}

/// 32-bit numbers are handed over as they are.
proof fn lemma_lowered_i32(vals: Seq<i32>)
    ensures
        lowered_vals(vals.map_values(|v: i32| Val::I32(v))) == vals.map_values(|v: i32| Val::I32(v)),
    decreases vals.len(),
{
    let all = vals.map_values(|v: i32| Val::I32(v));
    if vals.len() > 0 {
        lemma_lowered_i32(vals.drop_last());
        assert(all.drop_last() =~= vals.drop_last().map_values(|v: i32| Val::I32(v)));
        assert(lowered_vals(all) =~= all);
    } else {
        assert(lowered_vals(all) =~= all);
    }
}

/// A block goes over to its second branch once.
proof fn lemma_one_else(scope: Scope, x: int, k: int, level: int)
    requires
        walkable(scope),
        scope.body.len() <= usize::MAX,
        0 < x < k < scope.body.len(),
        is_else_of(scope.body, level, x),
        level > 0,
        forall|j: int| x < j <= k ==> #[trigger] depth(scope.body, j) > level,
    ensures
        open_at(scope, k).len() > level,
        open_at(scope, k)[level] is Else,
        forall|j: int| x < j < k ==> !#[trigger] is_else_of(scope.body, level, j),
    decreases k,
{
    let body = scope.body;
    lemma_walked(scope, k - 1);
    law_open_blocks_are_known(scope, k - 1);
    law_open_blocks_are_known(scope, k);
    assert(depth(body, k) > level);
    if x < k - 1 {
        lemma_one_else(scope, x, k - 1, level);
        assert(depth(body, k - 1) > level);
    }
}

} // verus!
