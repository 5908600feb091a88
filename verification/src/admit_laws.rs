//! What can be instrumented: the walk admits every instruction that could run where it stands.
use vstd::prelude::*;

use crate::ast::{Instr, Signature, ValType};
use crate::block_stack::{closing, nestings, target, BlockStackElement};
use crate::chunk_lemmas::{is_straight, signature_in};
use crate::laws::{lemma_trailing_values, trailing};
use crate::machine::{ready, run_instr, top, typed, Host, State};
use crate::static_info::br_targets;
use crate::type_stack::{has_values, lemma_followed_unreached, unwound, TypeStackElement};
use crate::walk::{admits, on_stack, signature_at, val_at, Scope, Walked};

verus! {

/// How many values an instruction that neither opens, switches or leaves a block nor branches takes off
/// the stack in the state `s`.
pub open spec fn taken_in(host: Host, instr: Instr, s: State) -> nat {
    match instr {
        Instr::CallIndirect(ty, _) => ty@.params.len() + 1,
        _ => signature_in(host, instr, s).params.len(),
    }
}

/// What runs is admitted. Where functions, globals, variables and the values in the innermost block are as
/// the walk knows them, an instruction that neither opens, switches or leaves a block nor branches, that
/// finds its operands in the block and that runs, can be instrumented.
pub proof fn law_what_runs_is_admitted(host: Host, scope: Scope, w: Walked, at: int, instr: Instr, s: State)
    requires
        is_straight(instr),
        run_instr(host, instr, s) is Some,
        host.functions == scope.functions,
        typed(s.globals) == scope.globals,
        typed(s.locals) == w.vars,
        ready(s.stack, trailing(w.types)),
        taken_in(host, instr, s) <= trailing(w.types).len(),
    ensures
        admits(scope, w, at, instr),
{
    let tys = trailing(w.types);
    let count = taken_in(host, instr, s);
    assert(typed(s.globals).len() == s.globals.len());
    assert(typed(s.locals).len() == s.locals.len());
    lemma_trailing_found(w.types, count);
    lemma_trailing_values(w.types, count);
    let vals = top(s.stack, tys.len());
    match instr {
        Instr::Drop => {
            assert(val_at(w.types, 1) is Some);
        },
        Instr::Select => {
            assert(typed(vals)[tys.len() - 3] == s.stack[s.stack.len() - 3].ty());
            assert(typed(vals)[tys.len() - 2] == s.stack[s.stack.len() - 2].ty());
            assert(typed(vals)[tys.len() - 1] == s.stack[s.stack.len() - 1].ty());
            assert(val_at(w.types, 3) == Some(tys[tys.len() - 3]));
            assert(val_at(w.types, 2) == Some(tys[tys.len() - 2]));
            assert(val_at(w.types, 1) == Some(tys[tys.len() - 1]));
        },
        _ => {},
    }
    let sig = signature_at(scope, w, instr)->0;
    assert(on_stack(instr, sig).params.len() == count);
    lemma_followed_unreached(w.types, on_stack(instr, sig));
}

/// As many values as have types noted above the entry of the innermost block are there.
proof fn lemma_trailing_found(types: Seq<TypeStackElement>, count: nat)
    requires
        count <= trailing(types).len(),
    ensures
        has_values(types, count),
    decreases types.len(),
{
    if types.len() > 0 && count > 0 {
        let fewer = types.drop_last();
        lemma_trailing_found(fewer, (count - 1) as nat);
        assert forall|i: int| types.len() - count <= i < types.len() implies (#[trigger] types[i]) is Val by {
            if i < fewer.len() {
                assert(fewer[i] is Val);
            }
        }
    }
}

/// An instruction that opens, switches or leaves a block or branches can be instrumented exactly where it
/// makes sense: what it opens has an end, what it switches is an `if` with an `else`, a block is open that
/// it leaves, its labels stand for open blocks, and a condition or index is there, unless the code cannot
/// be reached.
pub proof fn law_control_is_admitted(scope: Scope, w: Walked, at: int, instr: Instr)
    requires
        !is_straight(instr),
        unwound(w.types) is Some,
    ensures
        ({
            let operand = !w.reached() || has_values(w.types, 1);
            let closes = closing(nestings(scope.body), at + 1, 0) is Some;
            let n = w.open.len();
            admits(scope, w, at, instr) <==> match instr {
                Instr::Block(_) | Instr::Loop(_) => closes,
                Instr::If(_) => closes && operand,
                Instr::Else => n > 0 && (w.open.last() matches BlockStackElement::If { begin_else, .. }
                    && begin_else is Some),
                Instr::End => n > 0,
                Instr::Br(label) => label.0 < n,
                Instr::BrIf(label) => label.0 < n && operand,
                Instr::BrTable(labels, default) => default.0 < n && operand && forall|i: int|
                    0 <= i < labels@.len() ==> (#[trigger] labels@[i]).0 < n,
                _ => true,
            }
        }),
{
    let one = Signature { params: seq![ValType::I32], results: seq![] };
    lemma_followed_unreached(w.types, one);
    let none: Signature = Signature { params: seq![], results: seq![] };
    lemma_followed_unreached(w.types, none);
    lemma_followed_unreached(w.types, Signature { params: seq![], results: scope.results });
    assert(has_values(w.types, 0));
    if let Instr::BrTable(labels, default) = instr {
        let found = br_targets(w.open, labels@, default, scope.func);
        if forall|i: int| 0 <= i < labels@.len() ==> (#[trigger] labels@[i]).0 < w.open.len() {
            assert(forall|i: int|
                0 <= i < labels@.len() ==> target(w.open, #[trigger] labels@[i]) is Some);
        } else {
            let i = choose|i: int| 0 <= i < labels@.len() && (#[trigger] labels@[i]).0 >= w.open.len();
            assert(target(w.open, labels@[i]) is None);
        }
    }
}

} // verus!
