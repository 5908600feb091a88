//! The walk over a function's body that finds out, for each instruction, what its hooks have to be
//! told and cannot be read off the instruction alone.
use vstd::prelude::*;

use crate::ast::{FunctionIdx, GlobalIdx, Instr, InstrIdx, InstrType, Signature, ValType};
use crate::block_stack::{
    nestings, opened, second_branch, target, well_nested, BlockStack, BlockStackElement, Nesting,
};
use crate::static_info::{br_targets, copy_types, BrTableInfo, BrTargets, FunctionInfo};
use crate::trace::{chunk, epilogue, fresh, prologue, returns_implicitly, Emit, Site};
use crate::type_stack::{ended, followed, switched, TypeStack, TypeStackElement};

verus! {

/// A function with what the code in it may refer to.
pub ghost struct Scope {
    /// The function.
    pub func: FunctionIdx,
    /// The types of its parameters, results and local variables.
    pub params: Seq<ValType>,
    pub results: Seq<ValType>,
    pub locals: Seq<ValType>,
    /// Its instructions.
    pub body: Seq<Instr>,
    /// The types of the module's functions and globals.
    pub functions: Seq<Signature>,
    pub globals: Seq<ValType>,
    /// For the module's start function, the global that says that it has not run yet.
    pub start: Option<GlobalIdx>,
    /// The targets of the `br_table` instructions of the functions before.
    pub earlier: Seq<BrTargets>,
}

/// The state of the walk before an instruction: the open blocks, the types on the stack, whether the
/// code can be reached, the types of the function's variables, and the targets of the `br_table`
/// instructions so far.
#[verifier::ext_equal]
pub ghost struct Walked {
    pub open: Seq<BlockStackElement>,
    pub types: Seq<TypeStackElement>,
    /// For each open block whether the code in it can be reached: of the innermost one the code at
    /// the instruction, of another one the code where the next block inside of it was entered.
    pub live: Seq<bool>,
    pub vars: Seq<ValType>,
    pub tables: Seq<BrTargets>,
}

impl Walked {
    /// Whether the instruction can be reached.
    pub open spec fn reached(self) -> bool {
        is_live(self.live)
    }
}

/// Whether the code in the innermost block can be reached.
pub open spec fn is_live(live: Seq<bool>) -> bool {
    live.len() > 0 ==> live.last()
}

/// Whether the code in the open blocks can be reached behind the instruction. What follows
/// `unreachable`, `br`, `br_table` or `return` in the same block or branch cannot; where another
/// branch begins, and behind the end of a block, it is as it was where the block was entered.
pub open spec fn live_after(live: Seq<bool>, instr: Instr) -> Seq<bool> {
    match instr {
        Instr::Block(_) | Instr::Loop(_) | Instr::If(_) => live.push(is_live(live)),
        Instr::Else => if live.len() > 1 {
            live.drop_last().push(live[live.len() - 2])
        } else {
            live
        },
        Instr::End => if live.len() > 0 {
            live.drop_last()
        } else {
            live
        },
        Instr::Unreachable | Instr::Br(_) | Instr::BrTable(_, _) | Instr::Return => if live.len() > 0 {
            live.drop_last().push(false)
        } else {
            live
        },
        _ => live,
    }
}

/// The type of the values that a `select` chooses from. `None` if its operands are not on the stack
/// or do not fit. Where it cannot be reached, operands may be missing: what is there has to fit, and
/// values of which none is there count as `i32`.
pub open spec fn selected(types: Seq<TypeStackElement>, reached: bool) -> Option<ValType> {
    match (val_at(types, 3), val_at(types, 2), val_at(types, 1)) {
        (Some(first), Some(second), Some(condition)) => if condition == ValType::I32 && first
            == second {
            Some(first)
        } else {
            None
        },
        (_, second, Some(condition)) => if !reached && condition == ValType::I32 {
            match second {
                Some(second) => Some(second),
                None => Some(ValType::I32),
            }
        } else {
            None
        },
        (_, _, None) => if reached {
            None
        } else {
            Some(ValType::I32)
        },
    }
}

/// The types that an instruction takes and gives; of an indirect call, those of the callee. Of an
/// instruction that opens, switches or leaves a block this is nothing, and of `return` the results
/// of the function are what it gives. `None` if the instruction refers to what does not exist, or if
/// a `drop` or `select` does not find out from the stack what it takes; where a `drop` cannot be
/// reached and finds nothing, it counts as one of an `i32`.
pub open spec fn signature_at(scope: Scope, w: Walked, instr: Instr) -> Option<Signature> {
    match instr {
        Instr::BrIf(_) | Instr::BrTable(_, _) => Some(
            Signature { params: seq![ValType::I32], results: seq![] },
        ),
        Instr::Return => Some(Signature { params: seq![], results: scope.results }),
        Instr::Call(callee) => if callee.0 < scope.functions.len() {
            Some(scope.functions[callee.0 as int])
        } else {
            None
        },
        Instr::CallIndirect(ty, _) => Some(ty@),
        Instr::Drop => match val_at(w.types, 1) {
            Some(ty) => Some(Signature { params: seq![ty], results: seq![] }),
            None => if w.reached() {
                None
            } else {
                Some(Signature { params: seq![ValType::I32], results: seq![] })
            },
        },
        Instr::Select => match selected(w.types, w.reached()) {
            Some(ty) => Some(Signature { params: seq![ty, ty, ValType::I32], results: seq![ty] }),
            None => None,
        },
        Instr::Local(op, local) => if local.0 < w.vars.len() {
            Some(op.signature(w.vars[local.0 as int]))
        } else {
            None
        },
        Instr::Global(op, global) => if global.0 < scope.globals.len() {
            Some(op.signature(scope.globals[global.0 as int]))
        } else {
            None
        },
        Instr::MemorySize(_) => Some(Signature { params: seq![], results: seq![ValType::I32] }),
        Instr::MemoryGrow(_) => Some(
            Signature { params: seq![ValType::I32], results: seq![ValType::I32] },
        ),
        Instr::Load(op, _) => Some(op.signature()),
        Instr::Store(op, _) => Some(op.signature()),
        Instr::Const(val) => Some(Signature { params: seq![], results: seq![val.ty()] }),
        Instr::Numeric(op) => Some(op.signature()),
        _ => Some(Signature { params: seq![], results: seq![] }),
    }
}

/// The type of the value that is the `depth`-th from the top of the stack, the topmost being the
/// first. `None` if there is no value there.
pub open spec fn val_at(types: Seq<TypeStackElement>, depth: int) -> Option<ValType> {
    if 1 <= depth <= types.len() {
        match types[types.len() - depth] {
            TypeStackElement::Val(ty) => Some(ty),
            TypeStackElement::Begin(_) => None,
        }
    } else {
        None
    }
}

/// The open blocks behind the instruction. `None` if it does not fit in where it stands.
pub open spec fn open_after(
    nesting: Seq<Nesting>,
    open: Seq<BlockStackElement>,
    at: int,
    instr: Instr,
) -> Option<Seq<BlockStackElement>> {
    match instr {
        Instr::Block(_) | Instr::Loop(_) | Instr::If(_) => match opened(nesting, instr, at) {
            Some(block) => Some(open.push(block)),
            None => None,
        },
        Instr::Else => if open.len() > 0 {
            match second_branch(open.last()) {
                Some(second) => Some(open.drop_last().push(second)),
                None => None,
            }
        } else {
            None
        },
        Instr::End => if open.len() > 0 {
            Some(open.drop_last())
        } else {
            None
        },
        _ => Some(open),
    }
}

/// What an instruction of type `sig` takes off the stack and puts there. Besides the arguments of
/// the callee, an indirect call takes the index into the table.
pub open spec fn on_stack(instr: Instr, sig: Signature) -> Signature {
    match instr {
        Instr::CallIndirect(_, _) => Signature {
            params: sig.params + seq![ValType::I32],
            results: sig.results,
        },
        _ => sig,
    }
}

/// The types on the stack behind the instruction, which takes and gives `sig`. An `if` takes its
/// condition off the stack before it opens its block. `None` if the instruction can be reached and
/// does not find its operands in the innermost block, or no block is open where one has to be.
pub open spec fn types_after(
    types: Seq<TypeStackElement>,
    instr: Instr,
    sig: Signature,
    reached: bool,
) -> Option<Seq<TypeStackElement>> {
    match instr {
        Instr::Block(ty) => Some(types.push(TypeStackElement::Begin(ty))),
        Instr::Loop(ty) => Some(types.push(TypeStackElement::Begin(ty))),
        Instr::If(ty) => match followed(
            types,
            Signature { params: seq![ValType::I32], results: seq![] },
            reached,
        ) {
            Some(rest) => Some(rest.push(TypeStackElement::Begin(ty))),
            None => None,
        },
        Instr::Else => switched(types),
        Instr::End => ended(types),
        _ => followed(types, on_stack(instr, sig), reached),
    }
}

/// Whether each label of a branch stands for an open block.
pub open spec fn targets_exist(open: Seq<BlockStackElement>, instr: Instr, func: FunctionIdx) -> bool {
    match instr {
        Instr::Br(label) => target(open, label) is Some,
        Instr::BrIf(label) => target(open, label) is Some,
        Instr::BrTable(labels, default) => br_targets(open, labels@, default, func) is Some,
        _ => true,
    }
}

/// Whether the instruction `instr` can stand at index `at`, in the state `w`.
pub open spec fn admits(scope: Scope, w: Walked, at: int, instr: Instr) -> bool {
    &&& signature_at(scope, w, instr) matches Some(sig)
    &&& types_after(w.types, instr, sig, w.reached()) is Some
    &&& open_after(nestings(scope.body), w.open, at, instr) is Some
    &&& targets_exist(w.open, instr, scope.func)
}

/// What is known of the instruction from where it stands.
pub open spec fn site_at(scope: Scope, w: Walked, instr: Instr) -> Site {
    Site {
        sig: signature_at(scope, w, instr)->0,
        block: match instr {
            Instr::Else | Instr::End => Some(w.open.last()),
            _ => None,
        },
        target: match instr {
            Instr::Br(label) => target(w.open, label),
            Instr::BrIf(label) => target(w.open, label),
            _ => None,
        },
    }
}

/// The state behind the instruction.
pub open spec fn walked_after(scope: Scope, w: Walked, at: int, instr: Instr) -> Walked {
    let sig = signature_at(scope, w, instr)->0;
    Walked {
        open: open_after(nestings(scope.body), w.open, at, instr)->0,
        types: types_after(w.types, instr, sig, w.reached())->0,
        live: live_after(w.live, instr),
        vars: w.vars + fresh(instr, sig),
        tables: match instr {
            Instr::BrTable(labels, default) => w.tables.push(
                br_targets(w.open, labels@, default, scope.func)->0,
            ),
            _ => w.tables,
        },
    }
}

/// The state at the entry of the function.
pub open spec fn entry(scope: Scope) -> Walked {
    Walked {
        open: seq![
            BlockStackElement::Function { end: InstrIdx((scope.body.len() - 1) as usize) },
        ],
        types: seq![TypeStackElement::Begin(crate::ast::BlockType(None))],
        live: seq![true],
        vars: scope.params + scope.locals,
        tables: scope.earlier,
    }
}

/// The state of the walk and the code so far.
pub ghost struct Progress {
    pub walked: Walked,
    pub trace: Seq<Emit>,
}

/// The state and the code behind the first `count` instructions. `None` if one of them cannot stand
/// where it does, or the body is not well nested.
pub open spec fn progress(scope: Scope, count: nat) -> Option<Progress>
    decreases count,
{
    if count == 0 {
        if well_nested(nestings(scope.body)) {
            Some(Progress { walked: entry(scope), trace: prologue(scope.func, scope.start) })
        } else {
            None
        }
    } else {
        let at = count - 1;
        match progress(scope, at as nat) {
            Some(p) => if at < scope.body.len() && admits(scope, p.walked, at, scope.body[at]) {
                let instr = scope.body[at];
                Some(
                    Progress {
                        walked: walked_after(scope, p.walked, at, instr),
                        trace: p.trace + chunk(
                            scope.func,
                            InstrIdx(at as usize),
                            instr,
                            site_at(scope, p.walked, instr),
                            p.walked.vars,
                            p.walked.tables.len(),
                        ),
                    },
                )
            } else {
                None
            },
            None => None,
        }
    }
}

/// Whether the whole body can be walked.
pub open spec fn walkable(scope: Scope) -> bool {
    progress(scope, scope.body.len()) is Some
}

/// The instrumented code of the function.
pub open spec fn instrumented(scope: Scope) -> Seq<Emit> {
    let p = progress(scope, scope.body.len())->0;
    if returns_implicitly(scope.body) {
        p.trace.drop_last() + epilogue(scope.func, scope.results, p.walked.vars)
    } else {
        p.trace
    }
}

/// The types of all variables of the instrumented function.
pub open spec fn instrumented_vars(scope: Scope) -> Seq<ValType> {
    let p = progress(scope, scope.body.len())->0;
    if returns_implicitly(scope.body) {
        p.walked.vars + scope.results
    } else {
        p.walked.vars
    }
}

/// A body that can be walked to its end can be walked up to each of its instructions.
pub proof fn lemma_walkable_prefix(scope: Scope, count: nat, total: nat)
    requires
        count <= total,
        progress(scope, total) is Some,
    ensures
        progress(scope, count) is Some,
    decreases total,
{
    if count < total {
        lemma_walkable_prefix(scope, count, (total - 1) as nat);
    }
}

/// What is known of an instruction from where it stands.
pub struct SiteInfo {
    pub ty: InstrType,
    pub block: Option<BlockStackElement>,
    pub target: Option<InstrIdx>,
}

impl View for SiteInfo {
    type V = Site;

    open spec fn view(&self) -> Site {
        Site { sig: self.ty@, block: self.block, target: self.target }
    }
}

/// The function that is walked, and what the code in it may refer to.
pub struct FunctionScope<'a> {
    pub func: FunctionIdx,
    pub results: &'a Vec<ValType>,
    pub functions: &'a Vec<FunctionInfo>,
    pub globals: &'a Vec<ValType>,
}

impl FunctionScope<'_> {
    /// The scope is the same as the one that is meant.
    pub open spec fn agrees(self, scope: Scope) -> bool {
        &&& self.func == scope.func
        &&& self.results@ == scope.results
        &&& self.functions@.map_values(|function: FunctionInfo| function.type_@) == scope.functions
        &&& self.globals@ == scope.globals
    }
}

/// Appends all types.
pub(crate) fn push_all(to: &mut Vec<ValType>, tys: &Vec<ValType>)
    ensures
        final(to)@ == old(to)@ + tys@,
{
    assert(old(to)@ + tys@.take(0) =~= old(to)@);
    for i in 0..tys.len()
        invariant
            to@ == old(to)@ + tys@.take(i as int),
    {
        to.push(tys[i]);
        assert(old(to)@ + tys@.take(i + 1) =~= (old(to)@ + tys@.take(i as int)).push(tys@[i as int]));
    }
    assert(tys@.take(tys@.len() as int) =~= tys@);
}

/// Appends the types of the local variables that the code for the instruction needs for itself.
fn push_fresh(to: &mut Vec<ValType>, instr: &Instr, ty: &InstrType)
    requires
        instr is Select ==> ty.inputs@.len() > 0,
    ensures
        final(to)@ == old(to)@ + fresh(*instr, ty@),
{
    match instr {
        Instr::If(_) | Instr::BrIf(_) | Instr::BrTable(_, _) => {
            to.push(ValType::I32);
        },
        Instr::Return => {
            push_all(to, &ty.results);
        },
        Instr::Call(_) => {
            push_all(to, &ty.inputs);
            push_all(to, &ty.results);
        },
        Instr::CallIndirect(_, _) => {
            to.push(ValType::I32);
            push_all(to, &ty.inputs);
            push_all(to, &ty.results);
        },
        Instr::Drop => {
            push_all(to, &ty.inputs);
        },
        Instr::Select => {
            to.push(ValType::I32);
            to.push(ty.inputs[0]);
            to.push(ty.inputs[0]);
        },
        Instr::MemoryGrow(_) => {
            to.push(ValType::I32);
            to.push(ValType::I32);
        },
        Instr::Load(op, _) => {
            to.push(ValType::I32);
            to.push(op.value_type());
        },
        Instr::Store(op, _) => {
            to.push(ValType::I32);
            to.push(op.value_type());
        },
        Instr::Numeric(op) => {
            let ty = op.to_type();
            push_all(to, &ty.inputs);
            push_all(to, &ty.results);
        },
        _ => {},
    }
    assert(to@ =~= old(to)@ + fresh(*instr, ty@));
}

/// The walk.
pub struct Walk {
    blocks: BlockStack,
    types: TypeStack,
    live: Vec<bool>,
    vars: Vec<ValType>,
    tables: Vec<BrTableInfo>,
}

impl View for Walk {
    type V = Walked;

    closed spec fn view(&self) -> Walked {
        Walked {
            open: self.blocks@,
            types: self.types@,
            live: self.live@,
            vars: self.vars@,
            tables: self.tables@.map_values(|info: BrTableInfo| info@),
        }
    }
}

impl Walk {
    pub closed spec fn wf(&self) -> bool {
        self.blocks.wf()
    }

    /// What the instructions do to the nesting of blocks.
    pub closed spec fn nesting(&self) -> Seq<Nesting> {
        self.blocks.nesting()
    }

    /// Starts at the entry of a function. `None` if its body is not well nested.
    pub(crate) fn new(
        params: &Vec<ValType>,
        locals: &Vec<ValType>,
        body: &Vec<Instr>,
        tables: Vec<BrTableInfo>,
        Ghost(scope): Ghost<Scope>,
    ) -> (walk: Option<Walk>)
        requires
            scope.params == params@,
            scope.locals == locals@,
            scope.body == body@,
            scope.earlier == tables@.map_values(|info: BrTableInfo| info@),
        ensures
            match walk {
                Some(walk) => {
                    &&& progress(scope, 0) is Some
                    &&& walk.wf()
                    &&& walk.nesting() == nestings(scope.body)
                    &&& walk@ == entry(scope)
                },
                None => progress(scope, 0) is None,
            },
    {
        match BlockStack::new(body) {
            Some(blocks) => {
                let mut vars = copy_types(params);
                push_all(&mut vars, locals);
                let live = vec![true];
                assert(live@ =~= seq![true]);
                Some(Walk { blocks, types: TypeStack::new(), live, vars, tables })
            },
            None => None,
        }
    }

    /// The type of the value that is the `depth`-th from the top of the stack.
    fn val_at(&self, depth: usize) -> (ty: Option<ValType>)
        ensures
            ty == val_at(self@.types, depth as int),
    {
        self.types.peek(depth)
    }

    /// Whether the next instruction can be reached.
    fn reached(&self) -> (reached: bool)
        ensures
            reached == self@.reached(),
    {
        self.live.len() == 0 || self.live[self.live.len() - 1]
    }

    /// The type of the values that a `select` chooses from.
    fn selected(&self) -> (ty: Option<ValType>)
        ensures
            ty == selected(self@.types, self@.reached()),
    {
        let ty = match (self.val_at(1), self.val_at(2), self.val_at(3)) {
            (Some(condition), Some(second), Some(first)) => {
                if condition != ValType::I32 || first != second {
                    return None;
                }
                return Some(first);
            },
            (Some(condition), Some(second), None) => {
                if condition != ValType::I32 {
                    return None;
                }
                second
            },
            (Some(condition), None, _) => {
                if condition != ValType::I32 {
                    return None;
                }
                ValType::I32
            },
            (None, _, _) => ValType::I32,
        };
        if self.reached() {
            None
        } else {
            Some(ty)
        }
    }

    /// The types that an instruction takes and gives.
    fn signature(&self, function: &FunctionScope, instr: &Instr, Ghost(scope): Ghost<Scope>) -> (ty:
        Option<InstrType>)
        requires
            function.agrees(scope),
        ensures
            match ty {
                Some(ty) => signature_at(scope, self@, *instr) == Some(ty@),
                None => signature_at(scope, self@, *instr) is None,
            },
    {
        let ty = match instr {
            Instr::BrIf(_) | Instr::BrTable(_, _) => InstrType {
                inputs: vec![ValType::I32],
                results: vec![],
            },
            Instr::Return => InstrType { inputs: vec![], results: copy_types(function.results) },
            Instr::Call(callee) => {
                if callee.0 >= function.functions.len() {
                    return None;
                }
                let callee_ty = &function.functions[callee.0].type_;
                assert(scope.functions[callee.0 as int] == callee_ty@);
                InstrType { inputs: copy_types(&callee_ty.params), results: copy_types(&callee_ty.results) }
            },
            Instr::CallIndirect(callee_ty, _) => InstrType {
                inputs: copy_types(&callee_ty.params),
                results: copy_types(&callee_ty.results),
            },
            Instr::Drop => match self.val_at(1) {
                Some(ty) => InstrType { inputs: vec![ty], results: vec![] },
                None => {
                    if self.reached() {
                        return None;
                    }
                    InstrType { inputs: vec![ValType::I32], results: vec![] }
                },
            },
            Instr::Select => match self.selected() {
                Some(ty) => InstrType { inputs: vec![ty, ty, ValType::I32], results: vec![ty] },
                None => {
                    return None;
                },
            },
            Instr::Local(op, local) => {
                if local.0 >= self.vars.len() {
                    return None;
                }
                op.to_type(self.vars[local.0])
            },
            Instr::Global(op, global) => {
                if global.0 >= function.globals.len() {
                    return None;
                }
                op.to_type(function.globals[global.0])
            },
            Instr::MemorySize(_) => InstrType { inputs: vec![], results: vec![ValType::I32] },
            Instr::MemoryGrow(_) => InstrType {
                inputs: vec![ValType::I32],
                results: vec![ValType::I32],
            },
            Instr::Load(op, _) => op.to_type(),
            Instr::Store(op, _) => op.to_type(),
            Instr::Const(val) => InstrType { inputs: vec![], results: vec![val.to_type()] },
            Instr::Numeric(op) => op.to_type(),
            _ => InstrType { inputs: vec![], results: vec![] },
        };
        assert(ty@ =~= signature_at(scope, self@, *instr)->0);
        Some(ty)
    }

    /// Follows the types on the stack through the instruction. Returns false if it does not fit.
    fn follow_types(&mut self, instr: &Instr, ty: &InstrType) -> (ok: bool)
        ensures
            final(self).blocks == old(self).blocks,
            final(self).live == old(self).live,
            final(self).vars == old(self).vars,
            final(self).tables == old(self).tables,
            ok == (types_after(old(self)@.types, *instr, ty@, old(self)@.reached()) is Some),
            ok ==> types_after(old(self)@.types, *instr, ty@, old(self)@.reached()) == Some(
                final(self)@.types,
            ),
    {
        let reached = self.reached();
        match instr {
            Instr::Block(block_ty) => {
                self.types.begin(*block_ty);
                true
            },
            Instr::Loop(block_ty) => {
                self.types.begin(*block_ty);
                true
            },
            Instr::If(block_ty) => {
                let condition = InstrType { inputs: vec![ValType::I32], results: vec![] };
                assert(condition@ =~= (Signature { params: seq![ValType::I32], results: seq![] }));
                if !self.types.follow(&condition, reached) {
                    return false;
                }
                self.types.begin(*block_ty);
                true
            },
            Instr::Else => self.types.else_(),
            Instr::End => self.types.end(),
            Instr::CallIndirect(_, _) => {
                let mut inputs = copy_types(&ty.inputs);
                inputs.push(ValType::I32);
                let on_stack_ty = InstrType { inputs, results: copy_types(&ty.results) };
                assert(on_stack_ty@ =~= on_stack(*instr, ty@));
                self.types.follow(&on_stack_ty, reached)
            },
            _ => self.types.follow(ty, reached),
        }
    }

    /// Follows through the instruction whether the code can be reached.
    fn follow_live(&mut self, instr: &Instr)
        ensures
            final(self).blocks == old(self).blocks,
            final(self).types == old(self).types,
            final(self).vars == old(self).vars,
            final(self).tables == old(self).tables,
            final(self)@.live == live_after(old(self)@.live, *instr),
    {
        match instr {
            Instr::Block(_) | Instr::Loop(_) | Instr::If(_) => {
                let reached = self.reached();
                self.live.push(reached);
            },
            Instr::Else => {
                let len: usize = self.live.len();
                if len > 1 {
                    let outer = self.live[len - 2];
                    self.live.pop();
                    self.live.push(outer);
                }
            },
            Instr::End => {
                self.live.pop();
            },
            Instr::Unreachable | Instr::Br(_) | Instr::BrTable(_, _) | Instr::Return => {
                if self.live.pop().is_some() {
                    self.live.push(false);
                }
            },
            _ => {},
        }
    }

    /// Follows the open blocks through the instruction, and returns the block that it leaves.
    /// `None` if it does not fit.
    fn follow_blocks(&mut self, instr: &Instr, at: InstrIdx) -> (block: Option<Option<BlockStackElement>>)
        requires
            old(self).wf(),
            at.0 < old(self).nesting().len(),
        ensures
            final(self).wf(),
            final(self).nesting() == old(self).nesting(),
            final(self).types == old(self).types,
            final(self).live == old(self).live,
            final(self).vars == old(self).vars,
            final(self).tables == old(self).tables,
            match block {
                Some(block) => {
                    &&& open_after(old(self).nesting(), old(self)@.open, at.0 as int, *instr) == Some(
                        final(self)@.open,
                    )
                    &&& block == match *instr {
                        Instr::Else | Instr::End => Some(old(self)@.open.last()),
                        _ => None,
                    }
                },
                None => open_after(old(self).nesting(), old(self)@.open, at.0 as int, *instr) is None,
            },
    {
        match instr {
            Instr::Block(_) | Instr::Loop(_) | Instr::If(_) => if self.blocks.begin(instr, at) {
                Some(None)
            } else {
                None
            },
            Instr::Else => match self.blocks.else_() {
                Some(block) => Some(Some(block)),
                None => None,
            },
            Instr::End => match self.blocks.end() {
                Some(block) => Some(Some(block)),
                None => None,
            },
            _ => Some(None),
        }
    }

    /// Where a branch to one label leads. `None` if it leads nowhere.
    fn find_target(&self, instr: &Instr) -> (found: Option<Option<InstrIdx>>)
        requires
            self.wf(),
        ensures
            match *instr {
                Instr::Br(label) => match found {
                    Some(target_) => target_ is Some && target_ == target(self@.open, label),
                    None => target(self@.open, label) is None,
                },
                Instr::BrIf(label) => match found {
                    Some(target_) => target_ is Some && target_ == target(self@.open, label),
                    None => target(self@.open, label) is None,
                },
                _ => found == Some(None::<InstrIdx>),
            },
    {
        match instr {
            Instr::Br(label) => match self.blocks.br_target(*label) {
                Some(target_) => Some(Some(target_)),
                None => None,
            },
            Instr::BrIf(label) => match self.blocks.br_target(*label) {
                Some(target_) => Some(Some(target_)),
                None => None,
            },
            _ => Some(None),
        }
    }

    /// Follows the walk through the instruction `instr` at index `at`, and returns what is known of
    /// it from where it stands. `None` if it cannot stand there; the walk is then of no further
    /// use.
    pub(crate) fn visit(
        &mut self,
        function: &FunctionScope,
        at: InstrIdx,
        instr: &Instr,
        Ghost(scope): Ghost<Scope>,
    ) -> (site: Option<SiteInfo>)
        requires
            old(self).wf(),
            function.agrees(scope),
            old(self).nesting() == nestings(scope.body),
            at.0 < scope.body.len(),
        ensures
            match site {
                Some(site) => {
                    &&& admits(scope, old(self)@, at.0 as int, *instr)
                    &&& site@ == site_at(scope, old(self)@, *instr)
                    &&& final(self).wf()
                    &&& final(self).nesting() == old(self).nesting()
                    &&& final(self)@ == walked_after(scope, old(self)@, at.0 as int, *instr)
                },
                None => !admits(scope, old(self)@, at.0 as int, *instr),
            },
    {
        let ty = match self.signature(function, instr, Ghost(scope)) {
            Some(ty) => ty,
            None => {
                return None;
            },
        };
        let target_ = match self.find_target(instr) {
            Some(target_) => target_,
            None => {
                return None;
            },
        };
        if let Instr::BrTable(labels, default) = instr {
            match BrTableInfo::from_br_table(labels, *default, &self.blocks, function.func) {
                Some(info) => {
                    let ghost before = self@.tables;
                    self.tables.push(info);
                    assert(self@.tables =~= before.push(info@));
                },
                None => {
                    return None;
                },
            }
        }
        if !self.follow_types(instr, &ty) {
            return None;
        }
        let block = match self.follow_blocks(instr, at) {
            Some(block) => block,
            None => {
                return None;
            },
        };
        self.follow_live(instr);
        push_fresh(&mut self.vars, instr, &ty);
        Some(SiteInfo { ty, block, target: target_ })
    }

    /// The types of the function's variables.
    pub(crate) fn variables(&self) -> (vars: &Vec<ValType>)
        ensures
            vars@ == self@.vars,
    {
        &self.vars
    }

    /// The number of `br_table` instructions so far.
    pub(crate) fn table_count(&self) -> (count: usize)
        ensures
            count == self@.tables.len(),
    {
        self.tables.len()
    }

    /// Adds variables.
    pub(crate) fn add_variables(&mut self, tys: &Vec<ValType>)
        ensures
            final(self)@ == (Walked { vars: old(self)@.vars + tys@, ..old(self)@ }),
    {
        push_all(&mut self.vars, tys);
    }

    /// The types of the variables behind the first `param_count`, and the targets of the `br_table`
    /// instructions.
    pub(crate) fn finish(self, param_count: usize) -> (out: (Vec<ValType>, Vec<BrTableInfo>))
        requires
            param_count <= self@.vars.len(),
        ensures
            out.0@ == self@.vars.skip(param_count as int),
            out.1@.map_values(|info: BrTableInfo| info@) == self@.tables,
    {
        let mut walk = self;
        let locals = walk.vars.split_off(param_count);
        assert(locals@ =~= self@.vars.skip(param_count as int));
        (locals, walk.tables)
    }
}

} // verus!
