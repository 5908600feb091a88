//! That the walk knows the types on the stack: where it has noted them rightly before an instruction,
//! it has noted them rightly wherever the instruction leads, through all blocks and branches.
use vstd::prelude::*;

use crate::ast::{BlockType, Instr, Signature, ValType};
use crate::block_stack::{closing, nesting_of, nestings, switching, Nesting};
use crate::machine::{below, ready, top, typed};
use crate::machine_lemmas::lemma_typed_add;
use crate::program::{block_results, branched, entered, is_at_end, popped, Config, Frame};
use crate::type_stack::{
    applied, followed, found, has_values, lemma_followed_unreached, unwound, with_values,
    TypeStackElement,
};
use crate::walk::{
    admits, lemma_walkable_prefix, live_after, on_stack, progress, signature_at, types_after, val_at,
    walkable, Scope,
};

verus! {

/// The types of all values that are noted, the lowest one first.
pub open spec fn noted(types: Seq<TypeStackElement>) -> Seq<ValType>
    decreases types.len(),
{
    if types.len() == 0 {
        seq![]
    } else {
        match types.last() {
            TypeStackElement::Val(ty) => noted(types.drop_last()).push(ty),
            TypeStackElement::Begin(_) => noted(types.drop_last()),
        }
    }
}

/// The number of blocks whose entry is noted.
pub open spec fn marks(types: Seq<TypeStackElement>) -> nat
    decreases types.len(),
{
    if types.len() == 0 {
        0
    } else {
        marks(types.drop_last()) + if types.last() is Begin {
            1nat
        } else {
            0nat
        }
    }
}

/// What is noted below the entry of the block with number `i`, the outermost one being number 0; and
/// the type of that block.
pub open spec fn entry_of(types: Seq<TypeStackElement>, i: int) -> (Seq<TypeStackElement>, BlockType)
    decreases types.len(),
{
    if types.len() == 0 {
        (seq![], BlockType(None))
    } else {
        match types.last() {
            TypeStackElement::Begin(ty) => if marks(types.drop_last()) == i {
                (types.drop_last(), ty)
            } else {
                entry_of(types.drop_last(), i)
            },
            TypeStackElement::Val(_) => entry_of(types.drop_last(), i),
        }
    }
}

/// What is noted before the instruction with index `k`.
pub open spec fn types_at(scope: Scope, k: int) -> Seq<TypeStackElement> {
    progress(scope, k as nat)->0.walked.types
}

/// What is noted before the instruction with index `k` on whether the open blocks can be reached.
pub open spec fn live_at(scope: Scope, k: int) -> Seq<bool> {
    progress(scope, k as nat)->0.walked.live
}

/// What is noted where `count` open blocks can be reached.
pub open spec fn all_live(count: nat) -> Seq<bool> {
    Seq::new(count, |i: int| true)
}

/// Whether an open block is as the walk has noted its entry: as many values lie below it as are noted
/// there, it leaves the results of its type, and where a branch to it leads, the values that the
/// branch takes along are noted on top of those below, and that the code can be reached. The outermost
/// block is the function, whose results are not those of the type that is noted for it.
pub open spec fn typed_frame(
    scope: Scope,
    number: int,
    entry: (Seq<TypeStackElement>, BlockType),
    frame: Frame,
) -> bool {
    &&& frame.height == noted(entry.0).len()
    &&& number > 0 ==> frame.results == block_results(entry.1)
    &&& frame.target < scope.body.len() ==> {
        &&& types_at(scope, frame.target) == with_values(entry.0, frame.taken)
        &&& live_at(scope, frame.target) == all_live(number as nat)
    }
}

/// Whether the open blocks are as the walk has noted them.
pub open spec fn typed_frames(scope: Scope, types: Seq<TypeStackElement>, frames: Seq<Frame>) -> bool {
    &&& marks(types) == frames.len()
    &&& forall|i: int|
        #![trigger frames[i]]
        0 <= i < frames.len() ==> typed_frame(scope, i, entry_of(types, i), frames[i])
}

/// Whether stack and open blocks are as noted in `types`.
pub open spec fn typed_by(scope: Scope, types: Seq<TypeStackElement>, c: Config) -> bool {
    &&& typed(c.state.stack) == noted(types)
    &&& typed_frames(scope, types, c.frames)
}

/// Whether stack and open blocks at a point of the function are as the walk has noted them for the
/// instruction that comes next, which is noted as one that can be reached.
pub open spec fn typed_point(scope: Scope, c: Config) -> bool {
    0 <= c.at < scope.body.len() ==> {
        &&& typed_by(scope, types_at(scope, c.at), c)
        &&& live_at(scope, c.at) == all_live(c.frames.len())
    }
}

proof fn lemma_push_val(types: Seq<TypeStackElement>, ty: ValType)
    ensures
        noted(types.push(TypeStackElement::Val(ty))) == noted(types).push(ty),
        marks(types.push(TypeStackElement::Val(ty))) == marks(types),
        forall|i: int|
            entry_of(types.push(TypeStackElement::Val(ty)), i) == #[trigger] entry_of(types, i),
{
    assert(types.push(TypeStackElement::Val(ty)).drop_last() =~= types);
}

proof fn lemma_push_mark(types: Seq<TypeStackElement>, ty: BlockType)
    ensures
        noted(types.push(TypeStackElement::Begin(ty))) == noted(types),
        marks(types.push(TypeStackElement::Begin(ty))) == marks(types) + 1,
        entry_of(types.push(TypeStackElement::Begin(ty)), marks(types) as int) == (types, ty),
        forall|i: int|
            0 <= i < marks(types) ==> entry_of(types.push(TypeStackElement::Begin(ty)), i)
                == #[trigger] entry_of(types, i),
{
    assert(types.push(TypeStackElement::Begin(ty)).drop_last() =~= types);
}

proof fn lemma_with_values(types: Seq<TypeStackElement>, tys: Seq<ValType>)
    ensures
        noted(with_values(types, tys)) == noted(types) + tys,
        marks(with_values(types, tys)) == marks(types),
        forall|i: int| entry_of(with_values(types, tys), i) == #[trigger] entry_of(types, i),
    decreases tys.len(),
{
    if tys.len() == 0 {
        assert(with_values(types, tys) =~= types);
        assert(noted(types) + tys =~= noted(types));
    } else {
        let fewer = with_values(types, tys.drop_last());
        lemma_with_values(types, tys.drop_last());
        lemma_push_val(fewer, tys.last());
        assert(with_values(types, tys) =~= fewer.push(TypeStackElement::Val(tys.last())));
        assert(noted(types) + tys =~= (noted(types) + tys.drop_last()).push(tys.last()));
    }
}

proof fn lemma_without_values(types: Seq<TypeStackElement>, count: nat)
    requires
        has_values(types, count),
    ensures
        count <= noted(types).len(),
        noted(types.take(types.len() - count)) == noted(types).take(noted(types).len() - count),
        marks(types.take(types.len() - count)) == marks(types),
        forall|i: int|
            #![trigger entry_of(types, i)]
            entry_of(types.take(types.len() - count), i) == entry_of(types, i),
        forall|d: int|
            1 <= d <= count ==> #[trigger] val_at(types, d) == Some(noted(types)[noted(types).len() - d]),
    decreases count,
{
    if count == 0 {
        assert(types.take(types.len() as int) =~= types);
        assert(noted(types).take(noted(types).len() as int) =~= noted(types));
    } else {
        let fewer = types.drop_last();
        assert(types[types.len() - 1] is Val);
        assert forall|i: int| fewer.len() - (count - 1) <= i < fewer.len() implies (
        #[trigger] fewer[i]) is Val by {
            assert(types[i] is Val);
        }
        lemma_without_values(fewer, (count - 1) as nat);
        assert(types.take(types.len() - count) =~= fewer.take(fewer.len() - (count - 1)));
        assert(noted(types).take(noted(types).len() - count) =~= noted(fewer).take(
            noted(fewer).len() - (count - 1),
        ));
        assert forall|i: int|
            #![trigger entry_of(types, i)]
            entry_of(types.take(types.len() - count), i) == entry_of(types, i) by {
            assert(entry_of(types, i) == entry_of(fewer, i));
        }
        assert forall|d: int| 1 <= d <= count implies #[trigger] val_at(types, d) == Some(
            noted(types)[noted(types).len() - d],
        ) by {
            if d > 1 {
                assert(val_at(types, d) == val_at(fewer, d - 1));
            }
        }
    }
}

/// An instruction that takes values and gives others.
pub(crate) proof fn lemma_applied(types: Seq<TypeStackElement>, sig: Signature)
    requires
        applied(types, sig) is Some,
    ensures
        ({
            let after = applied(types, sig)->0;
            let k = sig.params.len();
            &&& k <= noted(types).len()
            &&& noted(after) == noted(types).take(noted(types).len() - k) + sig.results
            &&& marks(after) == marks(types)
            &&& forall|i: int| #![trigger entry_of(types, i)] entry_of(after, i) == entry_of(types, i)
            &&& forall|d: int|
                1 <= d <= k ==> #[trigger] val_at(types, d) == Some(
                    noted(types)[noted(types).len() - d],
                )
        }),
{
    let rest = types.take(types.len() - sig.params.len());
    lemma_without_values(types, sig.params.len());
    lemma_with_values(rest, sig.results);
    let after = applied(types, sig)->0;
    assert forall|i: int| #![trigger entry_of(types, i)] entry_of(after, i) == entry_of(types, i) by {
        assert(entry_of(rest, i) == entry_of(types, i));
    }
}

/// What is noted below a block is the lower part of what is noted.
pub(crate) proof fn lemma_entry_is_below(types: Seq<TypeStackElement>, i: int)
    requires
        0 <= i < marks(types),
    ensures
        noted(entry_of(types, i).0).len() <= noted(types).len(),
        noted(entry_of(types, i).0) == noted(types).take(noted(entry_of(types, i).0).len() as int),
        marks(entry_of(types, i).0) == i,
        forall|j: int| 0 <= j < i ==> entry_of(entry_of(types, i).0, j) == #[trigger] entry_of(types, j),
    decreases types.len(),
{
    let fewer = types.drop_last();
    if types.last() is Begin && marks(fewer) == i {
        assert(noted(types).take(noted(types).len() as int) =~= noted(types));
    } else {
        lemma_entry_is_below(fewer, i);
        let k = noted(entry_of(types, i).0).len() as int;
        assert(noted(types).take(k) =~= noted(fewer).take(k));
        assert forall|j: int| 0 <= j < i implies entry_of(entry_of(types, i).0, j) == #[trigger] entry_of(
            types,
            j,
        ) by {
            assert(entry_of(types, j) == entry_of(fewer, j));
        }
    }
}

proof fn lemma_marks_of_prefix(types: Seq<TypeStackElement>, lower: Seq<TypeStackElement>)
    requires
        lower.len() <= types.len(),
        types.take(lower.len() as int) == lower,
    ensures
        marks(lower) <= marks(types),
    decreases types.len(),
{
    if lower.len() < types.len() {
        assert(types.drop_last().take(lower.len() as int) =~= lower);
        lemma_marks_of_prefix(types.drop_last(), lower);
    } else {
        assert(types =~= lower);
    }
}

/// Leaving the innermost block leaves the block that `lower` ends with, or one inside of it.
proof fn lemma_unwound(types: Seq<TypeStackElement>, lower: Seq<TypeStackElement>, ty: BlockType)
    requires
        0 < lower.len() <= types.len(),
        types.take(lower.len() as int) == lower,
        lower.last() == TypeStackElement::Begin(ty),
    ensures
        unwound(types) is Some,
        marks(types) == marks(lower) ==> unwound(types) == Some((lower.drop_last(), ty)),
        marks(types) > marks(lower) ==> {
            let rest = (unwound(types)->0).0;
            &&& lower.len() <= rest.len()
            &&& rest.take(lower.len() as int) == lower
            &&& marks(rest) + 1 == marks(types)
        },
    decreases types.len(),
{
    if lower.len() == types.len() {
        assert(types =~= lower);
    } else {
        let fewer = types.drop_last();
        assert(fewer.take(lower.len() as int) =~= lower);
        lemma_marks_of_prefix(fewer, lower);
        lemma_unwound(fewer, lower, ty);
    }
}

/// Leaving the innermost block.
pub(crate) proof fn lemma_leaves(types: Seq<TypeStackElement>)
    requires
        unwound(types) is Some,
    ensures
        ({
            let rest = (unwound(types)->0).0;
            &&& marks(types) == marks(rest) + 1
            &&& unwound(types) == Some(entry_of(types, marks(rest) as int))
            &&& forall|i: int| 0 <= i < marks(rest) ==> entry_of(types, i) == #[trigger] entry_of(rest, i)
        }),
    decreases types.len(),
{
    if types.last() is Val {
        lemma_leaves(types.drop_last());
    }
}

/// What is noted at an instruction of a function that can be walked.
pub(crate) proof fn lemma_types_at(scope: Scope, k: int)
    requires
        walkable(scope),
        0 <= k < scope.body.len(),
    ensures
        ({
            let w = progress(scope, k as nat)->0.walked;
            let sig = signature_at(scope, w, scope.body[k])->0;
            &&& progress(scope, k as nat) is Some
            &&& admits(scope, w, k, scope.body[k])
            &&& types_after(types_at(scope, k), scope.body[k], sig, w.reached()) == Some(
                types_at(scope, k + 1),
            )
            &&& live_at(scope, k + 1) == live_after(live_at(scope, k), scope.body[k])
        }),
{
    lemma_walkable_prefix(scope, k as nat, scope.body.len());
    lemma_walkable_prefix(scope, (k + 1) as nat, scope.body.len());
}

/// Taking values keeps to the innermost block, whether they are all there or not.
proof fn lemma_followed_above(
    types: Seq<TypeStackElement>,
    sig: Signature,
    reached: bool,
    lower: Seq<TypeStackElement>,
)
    requires
        followed(types, sig, reached) is Some,
        0 < lower.len() <= types.len(),
        types.take(lower.len() as int) == lower,
        lower.last() is Begin,
    ensures
        ({
            let after = followed(types, sig, reached)->0;
            &&& lower.len() <= after.len()
            &&& after.take(lower.len() as int) == lower
            &&& marks(after) == marks(types)
        }),
{
    if reached {
        lemma_applied_above(types, sig, lower);
    } else {
        lemma_followed_unreached(types, sig);
        lemma_applied_above(
            types,
            Signature { params: found(types, sig.params), results: sig.results },
            lower,
        );
    }
}

/// Taking values keeps to the innermost block.
proof fn lemma_applied_above(types: Seq<TypeStackElement>, sig: Signature, lower: Seq<TypeStackElement>)
    requires
        applied(types, sig) is Some,
        0 < lower.len() <= types.len(),
        types.take(lower.len() as int) == lower,
        lower.last() is Begin,
    ensures
        ({
            let after = applied(types, sig)->0;
            &&& lower.len() <= after.len()
            &&& after.take(lower.len() as int) == lower
            &&& marks(after) == marks(types)
        }),
{
    let k = sig.params.len();
    lemma_applied(types, sig);
    if types.len() - k < lower.len() {
        assert(types[lower.len() - 1] == types.take(lower.len() as int)[lower.len() - 1]);
        assert(types[lower.len() - 1] is Val);
    }
    assert(applied(types, sig)->0.take(lower.len() as int) =~= lower);
}

/// Where a block that began with `lower` ends, what is noted outside of it and its results are noted;
/// where it goes over to its second branch, `lower` is.
pub(crate) proof fn lemma_block_types(
    scope: Scope,
    k: int,
    depth: nat,
    lower: Seq<TypeStackElement>,
    ty: BlockType,
)
    requires
        walkable(scope),
        0 <= k <= scope.body.len(),
        k < scope.body.len() ==> {
            &&& 0 < lower.len() <= types_at(scope, k).len()
            &&& types_at(scope, k).take(lower.len() as int) == lower
            &&& lower.last() == TypeStackElement::Begin(ty)
            &&& marks(types_at(scope, k)) == marks(lower) + depth
        },
    ensures
        closing(nestings(scope.body), k, depth) matches Some(end) ==> types_at(scope, end + 1)
            == with_values(lower.drop_last(), block_results(ty)),
        switching(nestings(scope.body), k, depth) matches Some(switch) ==> types_at(scope, switch + 1)
            == lower,
    decreases scope.body.len() - k,
{
    if k < scope.body.len() {
        let instr = scope.body[k];
        let types = types_at(scope, k);
        let after = types_at(scope, k + 1);
        lemma_types_at(scope, k);
        assert(nestings(scope.body)[k] == nesting_of(instr));
        let w = progress(scope, k as nat)->0.walked;
        let sig = signature_at(scope, w, instr)->0;
        let condition = Signature { params: seq![ValType::I32], results: seq![] };
        match instr {
            Instr::Block(inner) => {
                lemma_push_mark(types, inner);
                assert(after.take(lower.len() as int) =~= lower);
                lemma_block_types(scope, k + 1, depth + 1, lower, ty);
            },
            Instr::Loop(inner) => {
                lemma_push_mark(types, inner);
                assert(after.take(lower.len() as int) =~= lower);
                lemma_block_types(scope, k + 1, depth + 1, lower, ty);
            },
            Instr::If(inner) => {
                let rest = followed(types, condition, w.reached())->0;
                lemma_followed_above(types, condition, w.reached(), lower);
                lemma_push_mark(rest, inner);
                assert(after.take(lower.len() as int) =~= rest.take(lower.len() as int));
                lemma_block_types(scope, k + 1, depth + 1, lower, ty);
            },
            Instr::Else => {
                lemma_unwound(types, lower, ty);
                let (rest, inner) = unwound(types)->0;
                lemma_push_mark(rest, inner);
                if depth > 0 {
                    assert(after.take(lower.len() as int) =~= rest.take(lower.len() as int));
                } else {
                    assert(lower =~= lower.drop_last().push(TypeStackElement::Begin(ty)));
                    assert(after.take(lower.len() as int) =~= lower);
                }
                lemma_block_types(scope, k + 1, depth, lower, ty);
            },
            Instr::End => {
                lemma_unwound(types, lower, ty);
                let (rest, inner) = unwound(types)->0;
                assert(after =~= with_values(rest, block_results(inner)));
                if depth > 0 {
                    lemma_with_values(rest, block_results(inner));
                    assert(after.take(lower.len() as int) =~= rest.take(lower.len() as int));
                    lemma_block_types(scope, k + 1, (depth - 1) as nat, lower, ty);
                }
            },
            _ => {
                lemma_followed_above(types, on_stack(instr, sig), w.reached(), lower);
                lemma_block_types(scope, k + 1, depth, lower, ty);
            },
        }
    }
}

/// Where a block ends that was entered where `lower` was noted on what can be reached, this is noted
/// again; and where it goes over to its second branch, that branch can be reached if the first one
/// could.
pub(crate) proof fn lemma_block_live(scope: Scope, k: int, depth: nat, lower: Seq<bool>)
    requires
        walkable(scope),
        0 <= k <= scope.body.len(),
        k < scope.body.len() ==> {
            &&& 0 < lower.len()
            &&& live_at(scope, k).len() == lower.len() + 1 + depth
            &&& live_at(scope, k).take(lower.len() as int) == lower
        },
    ensures
        closing(nestings(scope.body), k, depth) matches Some(end) ==> live_at(scope, end + 1) == lower,
        switching(nestings(scope.body), k, depth) matches Some(switch) ==> live_at(scope, switch + 1)
            == lower.push(lower.last()),
    decreases scope.body.len() - k,
{
    if k < scope.body.len() {
        let instr = scope.body[k];
        let live = live_at(scope, k);
        let after = live_at(scope, k + 1);
        let n = lower.len() as int;
        lemma_types_at(scope, k);
        assert(nestings(scope.body)[k] == nesting_of(instr));
        assert(live[n - 1] == live.take(n)[n - 1]);
        if nesting_of(instr) is Close && depth == 0 {
            assert(after =~= lower);
        } else {
            assert(after.take(n) =~= live.take(n));
            if nesting_of(instr) is Switch && depth == 0 {
                assert(after =~= lower.push(lower.last())) by {
                    assert(after.drop_last() =~= lower);
                }
            }
            let inner = match nesting_of(instr) {
                Nesting::Open => depth + 1,
                Nesting::Close => (depth - 1) as nat,
                _ => depth,
            };
            lemma_block_live(scope, k + 1, inner, lower);
        }
    }
}

/// At the end of a block that can be reached.
pub(crate) proof fn lemma_live_closed(scope: Scope, k: int, count: nat)
    requires
        walkable(scope),
        0 <= k < scope.body.len(),
        count > 1,
        live_at(scope, k) == all_live(count),
    ensures
        scope.body[k] is End ==> live_at(scope, k + 1) == all_live((count - 1) as nat),
        scope.body[k] is Else ==> (closing(nestings(scope.body), k + 1, 0) matches Some(end)
            ==> live_at(scope, end + 1) == all_live((count - 1) as nat)),
{
    let lower = all_live((count - 1) as nat);
    lemma_types_at(scope, k);
    assert(all_live(count).drop_last() =~= lower);
    if scope.body[k] is Else {
        assert(live_at(scope, k + 1).take(lower.len() as int) =~= lower);
        lemma_block_live(scope, k + 1, 0, lower);
    }
}

/// At the entry of a block that can be reached.
pub(crate) proof fn lemma_live_opened(scope: Scope, k: int, count: nat)
    requires
        walkable(scope),
        0 <= k < scope.body.len(),
        count > 0,
        live_at(scope, k) == all_live(count),
        nesting_of(scope.body[k]) is Open,
    ensures
        live_at(scope, k + 1) == all_live(count + 1),
        closing(nestings(scope.body), k + 1, 0) matches Some(end) ==> live_at(scope, end + 1) == all_live(
            count,
        ),
        switching(nestings(scope.body), k + 1, 0) matches Some(switch) ==> live_at(scope, switch + 1)
            == all_live(count + 1),
{
    let lower = all_live(count);
    lemma_types_at(scope, k);
    assert(live_at(scope, k + 1) =~= all_live(count + 1));
    assert(live_at(scope, k + 1).take(lower.len() as int) =~= lower);
    assert(lower.push(lower.last()) =~= all_live(count + 1));
    lemma_block_live(scope, k + 1, 0, lower);
}

/// Values are taken off the stack and others put there.
pub(crate) proof fn lemma_typed_applied(
    scope: Scope,
    types: Seq<TypeStackElement>,
    sig: Signature,
    c: Config,
    c2: Config,
)
    requires
        typed_by(scope, types, c),
        applied(types, sig) is Some,
        c2.frames == c.frames,
        c2.state.stack.len() == c.state.stack.len() - sig.params.len() + sig.results.len(),
        below(c2.state.stack, sig.results.len()) == below(c.state.stack, sig.params.len()),
        ready(c2.state.stack, sig.results),
    ensures
        typed_by(scope, applied(types, sig)->0, c2),
{
    let (k, r) = (sig.params.len(), sig.results.len());
    let (before, after) = (c.state.stack, c2.state.stack);
    let later = applied(types, sig)->0;
    lemma_applied(types, sig);
    assert(typed(before).len() == before.len());
    assert(after =~= below(after, r) + top(after, r));
    lemma_typed_add(below(after, r), top(after, r));
    assert(typed(below(before, k)) =~= typed(before).take(before.len() - k));
    assert forall|i: int|
        #![trigger c2.frames[i]]
        0 <= i < c2.frames.len() implies typed_frame(scope, i, entry_of(later, i), c2.frames[i]) by {
        assert(entry_of(later, i) == entry_of(types, i));
        assert(c2.frames[i] == c.frames[i]);
    }
}

/// The condition or index on top of the stack is taken off.
pub(crate) proof fn lemma_typed_popped(scope: Scope, types: Seq<TypeStackElement>, c: Config)
    requires
        typed_by(scope, types, c),
        applied(types, Signature { params: seq![ValType::I32], results: seq![] }) is Some,
    ensures
        typed_by(
            scope,
            applied(types, Signature { params: seq![ValType::I32], results: seq![] })->0,
            popped(c),
        ),
        c.state.stack.len() > 0,
{
    let sig = Signature { params: seq![ValType::I32], results: seq![] };
    lemma_applied(types, sig);
    assert(typed(c.state.stack).len() == c.state.stack.len());
    let after = popped(c).state.stack;
    assert(below(after, 0) =~= below(c.state.stack, 1));
    assert(typed(top(after, 0)) =~= seq![]);
    lemma_typed_applied(scope, types, sig, c, popped(c));
}

/// A block is left, with some of its values taken along and the others gone.
proof fn lemma_typed_unwound(
    scope: Scope,
    types: Seq<TypeStackElement>,
    c: Config,
    k: int,
    taken: Seq<ValType>,
    c2: Config,
)
    requires
        typed_by(scope, types, c),
        0 <= k < c.frames.len(),
        ready(c.state.stack, taken),
        c.frames[k].height + taken.len() <= c.state.stack.len(),
        c2.frames == c.frames.take(k),
        c2.state.stack == c.state.stack.take(c.frames[k].height as int) + top(
            c.state.stack,
            taken.len(),
        ),
    ensures
        typed_by(scope, with_values(entry_of(types, k).0, taken), c2),
{
    let lower = entry_of(types, k).0;
    let later = with_values(lower, taken);
    let height = c.frames[k].height as int;
    let stack = c.state.stack;
    assert(typed_frame(scope, k, entry_of(types, k), c.frames[k]));
    lemma_entry_is_below(types, k);
    lemma_with_values(lower, taken);
    lemma_typed_add(stack.take(height), top(stack, taken.len()));
    assert(typed(stack.take(height)) =~= typed(stack).take(height));
    assert forall|i: int|
        #![trigger c2.frames[i]]
        0 <= i < c2.frames.len() implies typed_frame(scope, i, entry_of(later, i), c2.frames[i]) by {
        assert(entry_of(later, i) == entry_of(lower, i));
        assert(entry_of(lower, i) == entry_of(types, i));
        assert(c2.frames[i] == c.frames[i]);
    }
}

/// A branch.
pub(crate) proof fn lemma_typed_branched(
    scope: Scope,
    types: Seq<TypeStackElement>,
    c: Config,
    label: int,
    c2: Config,
)
    requires
        typed_by(scope, types, c),
        branched(c, label) == Some(c2),
    ensures
        typed_point(scope, c2),
{
    let k = c.frames.len() - 1 - label;
    let frame = c.frames[k];
    assert(typed_frame(scope, k, entry_of(types, k), frame));
    lemma_typed_unwound(scope, types, c, k, frame.taken, c2);
}

/// A block has come to its end, and what is noted behind it is what was noted below it, and its
/// results.
pub(crate) proof fn lemma_typed_left(
    scope: Scope,
    types: Seq<TypeStackElement>,
    c: Config,
    at: int,
)
    requires
        typed_by(scope, types, c),
        is_at_end(c),
        0 <= at < scope.body.len() ==> {
            let entry = entry_of(types, c.frames.len() - 1);
            &&& c.frames.len() > 1
            &&& types_at(scope, at) == with_values(entry.0, block_results(entry.1))
            &&& live_at(scope, at) == all_live((c.frames.len() - 1) as nat)
        },
    ensures
        typed_point(scope, Config { at, frames: c.frames.drop_last(), ..c }),
{
    let k = c.frames.len() - 1;
    let c2 = Config { at, frames: c.frames.drop_last(), ..c };
    let results = c.frames[k].results;
    assert(typed_frame(scope, k, entry_of(types, k), c.frames[k]));
    assert(c.state.stack =~= c.state.stack.take(c.frames[k].height as int) + top(
        c.state.stack,
        results.len(),
    ));
    assert(c.frames.drop_last() =~= c.frames.take(k));
    lemma_typed_unwound(scope, types, c, k, results, c2);
}

/// A block is entered.
pub(crate) proof fn lemma_typed_entered(
    scope: Scope,
    types: Seq<TypeStackElement>,
    ty: BlockType,
    c: Config,
    at: int,
    target: int,
    taken: Seq<ValType>,
)
    requires
        typed_by(scope, types, c),
        0 <= at < scope.body.len() ==> {
            &&& types_at(scope, at) == types.push(TypeStackElement::Begin(ty))
            &&& live_at(scope, at) == all_live(c.frames.len() + 1)
        },
        target < scope.body.len() ==> {
            &&& types_at(scope, target) == with_values(types, taken)
            &&& live_at(scope, target) == all_live(c.frames.len())
        },
    ensures
        typed_point(scope, entered(c, at, target, taken, block_results(ty))),
{
    let c2 = entered(c, at, target, taken, block_results(ty));
    let later = types.push(TypeStackElement::Begin(ty));
    lemma_push_mark(types, ty);
    assert(typed(c.state.stack).len() == c.state.stack.len());
    assert forall|i: int|
        #![trigger c2.frames[i]]
        0 <= i < c2.frames.len() implies typed_frame(scope, i, entry_of(later, i), c2.frames[i]) by {
        if i < c.frames.len() {
            assert(entry_of(later, i) == entry_of(types, i));
            assert(c2.frames[i] == c.frames[i]);
        }
    }
}

} // verus!
