//! The types of the values that lie on the operand stack at a point of a function's body.
use vstd::prelude::*;

use crate::ast::{BlockType, InstrType, Signature, ValType};

verus! {

/// A value on the operand stack, or the place where a block was entered.
#[derive(Clone, Copy, PartialEq, Eq, Debug)]
pub enum TypeStackElement {
    Val(ValType),
    Begin(BlockType),
}

/// The stack without the values that were pushed since the innermost block was entered, down to and
/// including the mark of that entry; and the type of that block. `None` if no block is open.
pub open spec fn unwound(stack: Seq<TypeStackElement>) -> Option<(Seq<TypeStackElement>, BlockType)>
    decreases stack.len(),
{
    if stack.len() == 0 {
        None
    } else {
        match stack.last() {
            TypeStackElement::Begin(ty) => Some((stack.drop_last(), ty)),
            TypeStackElement::Val(_) => unwound(stack.drop_last()),
        }
    }
}

/// The stack after the innermost block is left: its values are gone, its result is there.
pub open spec fn ended(stack: Seq<TypeStackElement>) -> Option<Seq<TypeStackElement>> {
    match unwound(stack) {
        Some((rest, BlockType(Some(ty)))) => Some(rest.push(TypeStackElement::Val(ty))),
        Some((rest, BlockType(None))) => Some(rest),
        None => None,
    }
}

/// The stack where the first branch of the innermost block is left and its second one is entered.
pub open spec fn switched(stack: Seq<TypeStackElement>) -> Option<Seq<TypeStackElement>> {
    match unwound(stack) {
        Some((rest, ty)) => Some(rest.push(TypeStackElement::Begin(ty))),
        None => None,
    }
}

/// Whether at least `count` values lie on the stack above the entry of the innermost block.
pub open spec fn has_values(stack: Seq<TypeStackElement>, count: nat) -> bool {
    &&& count <= stack.len()
    &&& forall|i: int| stack.len() - count <= i < stack.len() ==> (#[trigger] stack[i]) is Val
}

/// The stack with a value of each of the types `tys` on top.
pub open spec fn with_values(stack: Seq<TypeStackElement>, tys: Seq<ValType>) -> Seq<TypeStackElement> {
    stack + tys.map_values(|ty: ValType| TypeStackElement::Val(ty))
}

/// The stack after an instruction that takes `ty.params` and gives `ty.results`.
pub open spec fn applied(stack: Seq<TypeStackElement>, ty: Signature) -> Option<Seq<TypeStackElement>> {
    if has_values(stack, ty.params.len()) {
        Some(with_values(stack.take(stack.len() - ty.params.len()), ty.results))
    } else {
        None
    }
}

/// The number of values above the entry of the innermost block.
pub open spec fn value_count(stack: Seq<TypeStackElement>) -> nat
    decreases stack.len(),
{
    if stack.len() > 0 && stack.last() is Val {
        value_count(stack.drop_last()) + 1
    } else {
        0
    }
}

/// The operands of the types `tys` as far as the innermost block has values for them; the last one is
/// the topmost value.
pub open spec fn found(stack: Seq<TypeStackElement>, tys: Seq<ValType>) -> Seq<ValType> {
    if has_values(stack, tys.len()) {
        tys
    } else {
        tys.skip(tys.len() - value_count(stack))
    }
}

/// The stack after an instruction that takes `ty.params` and gives `ty.results`. Where the instruction
/// cannot be reached, operands may be missing, and it takes those that are there.
pub open spec fn followed(stack: Seq<TypeStackElement>, ty: Signature, reached: bool) -> Option<
    Seq<TypeStackElement>,
> {
    if reached {
        applied(stack, ty)
    } else {
        applied(stack, Signature { params: found(stack, ty.params), results: ty.results })
    }
}

/// There are as many values as are counted.
pub(crate) proof fn lemma_value_count(stack: Seq<TypeStackElement>)
    ensures
        value_count(stack) <= stack.len(),
        forall|count: nat| #[trigger] has_values(stack, count) <==> count <= value_count(stack),
    decreases stack.len(),
{
    if stack.len() > 0 && stack.last() is Val {
        let fewer = stack.drop_last();
        lemma_value_count(fewer);
        assert forall|count: nat| #[trigger]
            has_values(stack, count) <==> count <= value_count(stack) by {
            if count > 0 {
                let less = (count - 1) as nat;
                assert(has_values(fewer, less) <==> less <= value_count(fewer));
                if has_values(stack, count) {
                    assert forall|i: int| fewer.len() - less <= i < fewer.len() implies (
                    #[trigger] fewer[i]) is Val by {
                        assert(stack[i] is Val);
                    }
                }
                if has_values(fewer, less) {
                    assert forall|i: int| stack.len() - count <= i < stack.len() implies (
                    #[trigger] stack[i]) is Val by {
                        if i < fewer.len() {
                            assert(fewer[i] is Val);
                        }
                    }
                }
            }
        }
    } else {
        assert forall|count: nat| #[trigger]
            has_values(stack, count) <==> count <= value_count(stack) by {
            if 0 < count <= stack.len() {
                assert(!(stack[stack.len() - 1] is Val));
            }
        }
    }
}

/// An instruction that cannot be reached can always be followed.
pub(crate) proof fn lemma_followed_unreached(stack: Seq<TypeStackElement>, ty: Signature)
    ensures
        followed(stack, ty, false) is Some,
        found(stack, ty.params).len() == if has_values(stack, ty.params.len()) {
            ty.params.len()
        } else {
            value_count(stack)
        },
{
    lemma_value_count(stack);
}

/// Keeps track of the types on the operand stack. How many values an instruction takes and which
/// types it gives is followed; that the types it takes are the right ones is not checked.
#[derive(Debug)]
pub struct TypeStack {
    stack: Vec<TypeStackElement>,
}

impl View for TypeStack {
    type V = Seq<TypeStackElement>;

    closed spec fn view(&self) -> Seq<TypeStackElement> {
        self.stack@
    }
}

impl TypeStack {
    /// The stack at the entry of a function.
    pub fn new() -> (stack: TypeStack)
        ensures
            stack@ == seq![TypeStackElement::Begin(BlockType(None))],
    {
        let stack = TypeStack { stack: vec![TypeStackElement::Begin(BlockType(None))] };
        assert(stack@ =~= seq![TypeStackElement::Begin(BlockType(None))]);
        stack
    }

    pub fn push_val(&mut self, ty: ValType)
        ensures
            final(self)@ == old(self)@.push(TypeStackElement::Val(ty)),
    {
        self.stack.push(TypeStackElement::Val(ty));
    }

    /// Takes the topmost value, unless the innermost block has none left.
    pub fn pop_val(&mut self) -> (ty: Option<ValType>)
        ensures
            match ty {
                Some(ty) => old(self)@.len() > 0 && old(self)@.last() == TypeStackElement::Val(ty)
                    && final(self)@ == old(self)@.drop_last(),
                None => !has_values(old(self)@, 1) && final(self)@ == old(self)@,
            },
    {
        match self.stack.pop() {
            Some(TypeStackElement::Val(ty)) => Some(ty),
            Some(TypeStackElement::Begin(ty)) => {
                self.stack.push(TypeStackElement::Begin(ty));
                assert(self.stack@ =~= old(self)@);
                assert(old(self)@[old(self)@.len() - 1] is Begin);
                None
            },
            None => None,
        }
    }

    /// The type of the value that is the `depth`-th from the top, the topmost being the first.
    /// `None` if there is no value there.
    pub fn peek(&self, depth: usize) -> (ty: Option<ValType>)
        ensures
            ty == if 1 <= depth <= self@.len() && self@[self@.len() - depth] is Val {
                Some(self@[self@.len() - depth]->Val_0)
            } else {
                None
            },
    {
        let len: usize = self.stack.len();
        if depth == 0 || depth > len {
            return None;
        }
        match self.stack[len - depth] {
            TypeStackElement::Val(ty) => Some(ty),
            TypeStackElement::Begin(_) => None,
        }
    }

    /// Enters a block.
    pub fn begin(&mut self, ty: BlockType)
        ensures
            final(self)@ == old(self)@.push(TypeStackElement::Begin(ty)),
    {
        self.stack.push(TypeStackElement::Begin(ty));
    }

    /// Removes the values of the innermost block and its entry; or everything, if no block is open.
    fn unwind(&mut self) -> (ty: Option<BlockType>)
        ensures
            match ty {
                Some(ty) => unwound(old(self)@) == Some((final(self)@, ty)),
                None => unwound(old(self)@) is None && final(self)@.len() == 0,
            },
    {
        loop
            invariant
                unwound(self@) == unwound(old(self)@),
            decreases self@.len(),
        {
            match self.stack.pop() {
                Some(TypeStackElement::Val(_)) => {},
                Some(TypeStackElement::Begin(ty)) => {
                    return Some(ty);
                },
                None => {
                    return None;
                },
            }
        }
    }

    /// Leaves the innermost block. Returns false, with nothing left on the stack, if none is open.
    pub fn end(&mut self) -> (ok: bool)
        ensures
            match ended(old(self)@) {
                Some(stack) => ok && final(self)@ == stack,
                None => !ok && final(self)@.len() == 0,
            },
    {
        match self.unwind() {
            Some(BlockType(Some(ty))) => {
                self.push_val(ty);
                true
            },
            Some(BlockType(None)) => true,
            None => false,
        }
    }

    /// Leaves the first branch of the innermost block and enters the second one. Returns false,
    /// with nothing left on the stack, if no block is open.
    pub fn else_(&mut self) -> (ok: bool)
        ensures
            match switched(old(self)@) {
                Some(stack) => ok && final(self)@ == stack,
                None => !ok && final(self)@.len() == 0,
            },
    {
        match self.unwind() {
            Some(ty) => {
                self.begin(ty);
                true
            },
            None => false,
        }
    }

    /// Pushes a value of each type.
    fn push_vals(&mut self, tys: &Vec<ValType>)
        ensures
            final(self)@ == with_values(old(self)@, tys@),
    {
        assert(with_values(old(self)@, tys@.take(0)) =~= old(self)@);
        for i in 0..tys.len()
            invariant
                self@ == with_values(old(self)@, tys@.take(i as int)),
        {
            self.push_val(tys[i]);
            assert(with_values(old(self)@, tys@.take(i + 1)) =~= with_values(
                old(self)@,
                tys@.take(i as int),
            ).push(TypeStackElement::Val(tys@[i as int])));
        }
        assert(tys@.take(tys@.len() as int) =~= tys@);
    }

    /// Removes the values of the innermost block.
    fn clear_block(&mut self)
        ensures
            final(self)@ == old(self)@.take(old(self)@.len() - value_count(old(self)@)),
    {
        assert(old(self)@.take(old(self)@.len() as int) =~= old(self)@);
        loop
            invariant_except_break
                self@.len() <= old(self)@.len(),
                self@ == old(self)@.take(self@.len() as int),
                value_count(self@) + old(self)@.len() == value_count(old(self)@) + self@.len(),
            ensures
                self@ == old(self)@.take(old(self)@.len() - value_count(old(self)@)),
            decreases self@.len(),
        {
            let ghost before = self@;
            match self.pop_val() {
                Some(_) => {
                    assert(self@ =~= old(self)@.take(self@.len() as int));
                },
                None => {
                    proof {
                        lemma_value_count(before);
                    }
                    break;
                },
            }
        }
    }

    /// Whether the innermost block has at least `count` values.
    fn holds(&self, count: usize) -> (ok: bool)
        ensures
            ok == has_values(self@, count as nat),
    {
        let len: usize = self.stack.len();
        if count > len {
            return false;
        }
        for i in len - count..len
            invariant
                len == self@.len(),
                count <= len,
                forall|k: int| len - count <= k < i ==> (#[trigger] self@[k]) is Val,
        {
            match self.stack[i] {
                TypeStackElement::Val(_) => {},
                TypeStackElement::Begin(_) => {
                    assert(!(self@[i as int] is Val));
                    return false;
                },
            }
        }
        true
    }

    /// Follows an instruction of type `ty`. Returns false, with the stack as it was, if it takes
    /// more values than the innermost block has.
    pub fn instr(&mut self, ty: &InstrType) -> (ok: bool)
        ensures
            match applied(old(self)@, ty@) {
                Some(stack) => ok && final(self)@ == stack,
                None => !ok && final(self)@ == old(self)@,
            },
    {
        let count: usize = ty.inputs.len();
        if !self.holds(count) {
            return false;
        }
        let rest_len: usize = self.stack.len() - count;
        self.stack.truncate(rest_len);
        assert(self@ =~= old(self)@.take(old(self)@.len() - count));
        self.push_vals(&ty.results);
        true
    }

    /// Follows an instruction of type `ty`, which can be reached or not. Returns false, with the stack
    /// as it was, if it can be reached and takes more values than the innermost block has.
    pub fn follow(&mut self, ty: &InstrType, reached: bool) -> (ok: bool)
        ensures
            match followed(old(self)@, ty@, reached) {
                Some(stack) => ok && final(self)@ == stack,
                None => !ok && final(self)@ == old(self)@,
            },
    {
        if self.instr(ty) {
            return true;
        }
        if reached {
            return false;
        }
        self.clear_block();
        self.push_vals(&ty.results);
        proof {
            lemma_value_count(old(self)@);
            lemma_followed_unreached(old(self)@, ty@);
        }
        true
    }
}

} // verus!
