//! The blocks that are open at a point of a function's body, and where branches out of them lead.
use vstd::prelude::*;

use crate::ast::{Instr, InstrIdx, Label};

verus! {

/// What an instruction does to the nesting of blocks.
#[derive(Clone, Copy, PartialEq, Eq, Structural, Debug)]
pub enum Nesting {
    Open,
    Switch,
    Close,
    Inside,
}

pub open spec fn nesting_of(instr: Instr) -> Nesting {
    match instr {
        Instr::Block(_) | Instr::Loop(_) | Instr::If(_) => Nesting::Open,
        Instr::Else => Nesting::Switch,
        Instr::End => Nesting::Close,
        _ => Nesting::Inside,
    }
}

pub open spec fn nestings(body: Seq<Instr>) -> Seq<Nesting> {
    body.map_values(|instr: Instr| nesting_of(instr))
}

/// From `from` on, the first closing that is left over when every block that opens in between is
/// paired with a closing of its own; `depth` blocks are open already and come first.
pub open spec fn closing(nesting: Seq<Nesting>, from: int, depth: nat) -> Option<int>
    decreases nesting.len() - from,
{
    if from < 0 || from >= nesting.len() {
        None
    } else {
        match nesting[from] {
            Nesting::Open => closing(nesting, from + 1, depth + 1),
            Nesting::Close => if depth == 0 {
                Some(from)
            } else {
                closing(nesting, from + 1, (depth - 1) as nat)
            },
            _ => closing(nesting, from + 1, depth),
        }
    }
}

/// From `from` on, the first `else` that is not inside a further block; `None` if the block that
/// is open at `from` closes before.
pub open spec fn switching(nesting: Seq<Nesting>, from: int, depth: nat) -> Option<int>
    decreases nesting.len() - from,
{
    if from < 0 || from >= nesting.len() {
        None
    } else {
        match nesting[from] {
            Nesting::Open => switching(nesting, from + 1, depth + 1),
            Nesting::Close => if depth == 0 {
                None
            } else {
                switching(nesting, from + 1, (depth - 1) as nat)
            },
            Nesting::Switch => if depth == 0 {
                Some(from)
            } else {
                switching(nesting, from + 1, depth)
            },
            Nesting::Inside => switching(nesting, from + 1, depth),
        }
    }
}

/// Whether the body is one block that closes with the last instruction.
pub open spec fn well_nested(nesting: Seq<Nesting>) -> bool {
    closing(nesting, 0, 0) == Some(nesting.len() - 1)
}

/// The kinds of blocks. The two branches of an `if` with an `else` count as blocks of their own.
#[derive(Clone, Copy, PartialEq, Eq, Structural, Debug)]
pub enum BlockKind {
    Function,
    Block,
    Loop,
    If,
    Else,
}

/// An open block, with the indices of the instructions that delimit it.
#[allow(inconsistent_fields)]
#[derive(Clone, Copy, PartialEq, Eq, Debug)]
pub enum BlockStackElement {
    Function { end: InstrIdx },
    Block { begin: InstrIdx, end: InstrIdx },
    Loop { begin: InstrIdx, end: InstrIdx },
    If { begin_if: InstrIdx, begin_else: Option<InstrIdx>, end: InstrIdx },
    Else { begin_if: InstrIdx, begin_else: InstrIdx, end: InstrIdx },
}

impl BlockStackElement {
    pub open spec fn spec_kind(self) -> BlockKind {
        match self {
            BlockStackElement::Function { .. } => BlockKind::Function,
            BlockStackElement::Block { .. } => BlockKind::Block,
            BlockStackElement::Loop { .. } => BlockKind::Loop,
            BlockStackElement::If { .. } => BlockKind::If,
            BlockStackElement::Else { .. } => BlockKind::Else,
        }
    }

    pub fn kind(self) -> (kind: BlockKind)
        ensures
            kind == self.spec_kind(),
    {
        match self {
            BlockStackElement::Function { .. } => BlockKind::Function,
            BlockStackElement::Block { .. } => BlockKind::Block,
            BlockStackElement::Loop { .. } => BlockKind::Loop,
            BlockStackElement::If { .. } => BlockKind::If,
            BlockStackElement::Else { .. } => BlockKind::Else,
        }
    }

    /// Whether the delimiters are among the first `len` instructions.
    pub open spec fn within(self, len: nat) -> bool {
        match self {
            BlockStackElement::Function { end } => end.0 < len,
            BlockStackElement::Block { begin, end } => begin.0 < len && end.0 < len,
            BlockStackElement::Loop { begin, end } => begin.0 < len && end.0 < len,
            BlockStackElement::If { begin_if, begin_else, end } => begin_if.0 < len && end.0 < len
                && (begin_else matches Some(begin_else) ==> begin_else.0 < len),
            BlockStackElement::Else { begin_if, begin_else, end } => begin_if.0 < len
                && begin_else.0 < len && end.0 < len,
        }
    }

    /// The instruction that runs next after a branch to this block: the first one of a loop; else
    /// the one behind the end of the block, which for the function's own block is the index just
    /// past its body.
    pub open spec fn continuation(self) -> InstrIdx {
        match self {
            BlockStackElement::Loop { begin, .. } => InstrIdx((begin.0 + 1) as usize),
            BlockStackElement::Function { end } => InstrIdx((end.0 + 1) as usize),
            BlockStackElement::Block { end, .. } => InstrIdx((end.0 + 1) as usize),
            BlockStackElement::If { end, .. } => InstrIdx((end.0 + 1) as usize),
            BlockStackElement::Else { end, .. } => InstrIdx((end.0 + 1) as usize),
        }
    }
}

/// The block that the instruction `instr` at `begin` opens. `None` if it opens none or none that
/// closes.
pub open spec fn opened(nesting: Seq<Nesting>, instr: Instr, begin: int) -> Option<BlockStackElement> {
    match closing(nesting, begin + 1, 0) {
        Some(close) => {
            let end = InstrIdx(close as usize);
            let begin_if = InstrIdx(begin as usize);
            match instr {
                Instr::Block(_) => Some(BlockStackElement::Block { begin: begin_if, end }),
                Instr::Loop(_) => Some(BlockStackElement::Loop { begin: begin_if, end }),
                Instr::If(_) => Some(
                    BlockStackElement::If {
                        begin_if,
                        begin_else: match switching(nesting, begin + 1, 0) {
                            Some(switch) => Some(InstrIdx(switch as usize)),
                            None => None,
                        },
                        end,
                    },
                ),
                _ => None,
            }
        },
        None => None,
    }
}

/// The second branch of an `if` block. `None` if the block is not the first branch of one.
pub open spec fn second_branch(block: BlockStackElement) -> Option<BlockStackElement> {
    match block {
        BlockStackElement::If { begin_if, begin_else: Some(begin_else), end } => Some(
            BlockStackElement::Else { begin_if, begin_else, end },
        ),
        _ => None,
    }
}

/// Where a branch to `label` leads, with `open` the open blocks, the innermost one last. `None` if
/// there is no such block.
pub open spec fn target(open: Seq<BlockStackElement>, label: Label) -> Option<InstrIdx> {
    if label.0 < open.len() {
        Some(open[open.len() - 1 - label.0].continuation())
    } else {
        None
    }
}

pub proof fn lemma_closing_bounds(nesting: Seq<Nesting>, from: int, depth: nat)
    ensures
        closing(nesting, from, depth) matches Some(close) ==> from <= close < nesting.len()
            && nesting[close] == Nesting::Close,
    decreases nesting.len() - from,
{
    if 0 <= from < nesting.len() {
        match nesting[from] {
            Nesting::Open => lemma_closing_bounds(nesting, from + 1, depth + 1),
            Nesting::Close => if depth > 0 {
                lemma_closing_bounds(nesting, from + 1, (depth - 1) as nat);
            },
            _ => lemma_closing_bounds(nesting, from + 1, depth),
        }
    }
}

pub proof fn lemma_switching_bounds(nesting: Seq<Nesting>, from: int, depth: nat)
    ensures
        switching(nesting, from, depth) matches Some(switch) ==> from <= switch < nesting.len()
            && nesting[switch] == Nesting::Switch,
    decreases nesting.len() - from,
{
    if 0 <= from < nesting.len() {
        match nesting[from] {
            Nesting::Open => lemma_switching_bounds(nesting, from + 1, depth + 1),
            Nesting::Close => if depth > 0 {
                lemma_switching_bounds(nesting, from + 1, (depth - 1) as nat);
            },
            Nesting::Switch => if depth > 0 {
                lemma_switching_bounds(nesting, from + 1, depth);
            },
            Nesting::Inside => lemma_switching_bounds(nesting, from + 1, depth),
        }
    }
}

/// The open blocks of a function, the innermost one last.
#[derive(Debug)]
pub struct BlockStack {
    nesting: Vec<Nesting>,
    stack: Vec<BlockStackElement>,
}

impl View for BlockStack {
    type V = Seq<BlockStackElement>;

    closed spec fn view(&self) -> Seq<BlockStackElement> {
        self.stack@
    }
}

impl BlockStack {
    /// What each instruction of the function does to the nesting.
    pub closed spec fn nesting(&self) -> Seq<Nesting> {
        self.nesting@
    }

    /// Every open block is delimited by instructions of the function.
    pub closed spec fn wf(&self) -> bool {
        forall|i: int| 0 <= i < self.stack@.len() ==> (#[trigger] self.stack@[i]).within(self.nesting@.len())
    }

    /// The stack at the entry of a function with the given body. `None` if the body is not well
    /// nested.
    pub fn new(body: &Vec<Instr>) -> (stack: Option<BlockStack>)
        ensures
            match stack {
                Some(stack) => {
                    &&& well_nested(nestings(body@))
                    &&& stack.wf()
                    &&& stack.nesting() == nestings(body@)
                    &&& stack@ == seq![
                        BlockStackElement::Function { end: InstrIdx((body@.len() - 1) as usize) },
                    ]
                },
                None => !well_nested(nestings(body@)),
            },
    {
        let mut nesting: Vec<Nesting> = Vec::new();
        for i in 0..body.len()
            invariant
                nesting@ == nestings(body@.take(i as int)),
        {
            nesting.push(
                match &body[i] {
                    Instr::Block(_) | Instr::Loop(_) | Instr::If(_) => Nesting::Open,
                    Instr::Else => Nesting::Switch,
                    Instr::End => Nesting::Close,
                    _ => Nesting::Inside,
                },
            );
            assert(nestings(body@.take(i + 1)) =~= nestings(body@.take(i as int)).push(
                nesting_of(body@[i as int]),
            ));
        }
        assert(body@.take(body@.len() as int) =~= body@);
        match Self::find_end(&nesting, 0) {
            Some(end) => if end + 1 == nesting.len() {
                let stack = BlockStack {
                    nesting,
                    stack: vec![BlockStackElement::Function { end: InstrIdx(end) }],
                };
                assert(stack@ =~= seq![
                    BlockStackElement::Function { end: InstrIdx((body@.len() - 1) as usize) },
                ]);
                Some(stack)
            } else {
                None
            },
            None => None,
        }
    }

    /// The end of the block that is open at `from`.
    fn find_end(nesting: &Vec<Nesting>, from: usize) -> (end: Option<usize>)
        ensures
            match end {
                Some(end) => closing(nesting@, from as int, 0) == Some(end as int) && from <= end
                    < nesting@.len(),
                None => closing(nesting@, from as int, 0) is None,
            },
    {
        let mut i: usize = from;
        let mut depth: usize = 0;
        while i < nesting.len()
            invariant
                from <= i,
                depth <= i - from,
                closing(nesting@, i as int, depth as nat) == closing(nesting@, from as int, 0),
            decreases nesting@.len() - i,
        {
            match nesting[i] {
                Nesting::Open => {
                    depth = depth + 1;
                },
                Nesting::Close => {
                    if depth == 0 {
                        return Some(i);
                    }
                    depth = depth - 1;
                },
                _ => {},
            }
            i = i + 1;
        }
        None
    }

    /// The `else` of the block that is open at `from`.
    fn find_else(nesting: &Vec<Nesting>, from: usize) -> (switch: Option<usize>)
        ensures
            match switch {
                Some(switch) => switching(nesting@, from as int, 0) == Some(switch as int),
                None => switching(nesting@, from as int, 0) is None,
            },
    {
        let mut i: usize = from;
        let mut depth: usize = 0;
        while i < nesting.len()
            invariant
                from <= i,
                depth <= i - from,
                switching(nesting@, i as int, depth as nat) == switching(nesting@, from as int, 0),
            decreases nesting@.len() - i,
        {
            match nesting[i] {
                Nesting::Open => {
                    depth = depth + 1;
                },
                Nesting::Close => {
                    if depth == 0 {
                        return None;
                    }
                    depth = depth - 1;
                },
                Nesting::Switch => {
                    if depth == 0 {
                        return Some(i);
                    }
                },
                Nesting::Inside => {},
            }
            i = i + 1;
        }
        None
    }

    /// Enters the block that the instruction `instr` at `begin` opens. Returns false, with the
    /// stack as it was, if it opens none or none that closes.
    pub fn begin(&mut self, instr: &Instr, begin: InstrIdx) -> (ok: bool)
        requires
            old(self).wf(),
            begin.0 < old(self).nesting().len(),
        ensures
            final(self).wf(),
            final(self).nesting() == old(self).nesting(),
            match opened(old(self).nesting(), *instr, begin.0 as int) {
                Some(block) => ok && final(self)@ == old(self)@.push(block),
                None => !ok && final(self)@ == old(self)@,
            },
    {
        let len: usize = self.nesting.len();
        assert(begin.0 < len);
        match Self::find_end(&self.nesting, begin.0 + 1) {
            Some(end) => {
                let end = InstrIdx(end);
                match instr {
                    Instr::Block(_) => {
                        self.stack.push(BlockStackElement::Block { begin, end });
                        true
                    },
                    Instr::Loop(_) => {
                        self.stack.push(BlockStackElement::Loop { begin, end });
                        true
                    },
                    Instr::If(_) => {
                        let begin_else = match Self::find_else(&self.nesting, begin.0 + 1) {
                            Some(switch) => Some(InstrIdx(switch)),
                            None => None,
                        };
                        proof {
                            lemma_switching_bounds(self.nesting@, begin.0 + 1, 0);
                        }
                        self.stack.push(BlockStackElement::If { begin_if: begin, begin_else, end });
                        true
                    },
                    _ => false,
                }
            },
            None => false,
        }
    }

    /// Leaves the first branch of the innermost block, which is returned, and enters the second
    /// one. `None`, with the stack as it was, if the innermost block is not an `if` with an `else`.
    pub fn else_(&mut self) -> (block: Option<BlockStackElement>)
        requires
            old(self).wf(),
        ensures
            final(self).wf(),
            final(self).nesting() == old(self).nesting(),
            match block {
                Some(block) => {
                    &&& old(self)@.len() > 0
                    &&& block == old(self)@.last()
                    &&& second_branch(block) matches Some(second)
                    &&& final(self)@ == old(self)@.drop_last().push(second)
                },
                None => final(self)@ == old(self)@ && (old(self)@.len() == 0 || second_branch(
                    old(self)@.last(),
                ) is None),
            },
    {
        if self.stack.len() == 0 {
            return None;
        }
        let block = self.stack[self.stack.len() - 1];
        match block {
            BlockStackElement::If { begin_if, begin_else: Some(begin_else), end } => {
                let _ = self.stack.pop();
                self.stack.push(BlockStackElement::Else { begin_if, begin_else, end });
                Some(block)
            },
            _ => None,
        }
    }

    /// Leaves the innermost block, which is returned. `None` if none is open.
    pub fn end(&mut self) -> (block: Option<BlockStackElement>)
        requires
            old(self).wf(),
        ensures
            final(self).wf(),
            final(self).nesting() == old(self).nesting(),
            match block {
                Some(block) => old(self)@.len() > 0 && block == old(self)@.last() && final(self)@
                    == old(self)@.drop_last(),
                None => old(self)@.len() == 0 && final(self)@ == old(self)@,
            },
    {
        self.stack.pop()
    }

    /// Where a branch to `label` leads. `None` if there is no such block.
    pub fn br_target(&self, label: Label) -> (instr: Option<InstrIdx>)
        requires
            self.wf(),
        ensures
            instr == target(self@, label),
    {
        let open: usize = self.stack.len();
        if label.0 >= open {
            return None;
        }
        let block = self.stack[open - 1 - label.0];
        let len: usize = self.nesting.len();
        assert(block.within(len as nat));
        let instr: usize = match block {
            BlockStackElement::Loop { begin, .. } => begin.0 + 1,
            BlockStackElement::Function { end } => end.0 + 1,
            BlockStackElement::Block { end, .. } => end.0 + 1,
            BlockStackElement::If { end, .. } => end.0 + 1,
            BlockStackElement::Else { end, .. } => end.0 + 1,
        };
        Some(InstrIdx(instr))
    }
}

} // verus!
