//! A model of how code runs between two branches, for stating what instrumentation preserves.
//!
//! The model covers the instructions that neither open, switch or leave a block nor branch. What
//! the numeric operators, the memory and called functions do is a parameter of the model, except
//! for the two operators that hand 64-bit integers to hooks. Hooks observe: they take their
//! arguments from the stack and are logged with them.
use vstd::prelude::*;

use crate::ast::{GlobalOp, Instr, LocalOp, Signature, Val, ValType};
use crate::hook_map::HookId;
use crate::ops::NumericOp;
use crate::trace::Emit;

verus! {

/// A hook call, with its arguments.
#[verifier::ext_equal]
pub ghost struct Event {
    pub id: HookId,
    pub args: Seq<Val>,
}

/// The state of a running function: operand stack, variables, the globals of the module, all else
/// that instructions may depend on (such as the memory), and the hook calls so far.
#[verifier::ext_equal]
pub ghost struct State {
    pub stack: Seq<Val>,
    pub locals: Seq<Val>,
    pub globals: Seq<Val>,
    pub world: int,
    pub log: Seq<Event>,
}

impl State {
    pub open spec fn with_stack(self, stack: Seq<Val>) -> State {
        State { stack, ..self }
    }

    pub open spec fn with_locals(self, locals: Seq<Val>) -> State {
        State { locals, ..self }
    }

    pub open spec fn with_event(self, event: Event) -> State {
        State { log: self.log.push(event), ..self }
    }
}

/// What instructions do: the types of the module's functions; how many globals the module has of its
/// own; the result of numeric operators (`None` for a trap); the size of the memory; and the results,
/// own globals and world behind memory accesses and calls (`None` for a trap). Globals behind the
/// module's own ones are none of their business.
pub ghost struct Host {
    pub functions: Seq<Signature>,
    pub own_globals: nat,
    pub numeric: spec_fn(NumericOp, Seq<Val>) -> Option<Val>,
    pub memory_size: spec_fn(int) -> i32,
    pub effect: spec_fn(Instr, Seq<Val>, Seq<Val>, int) -> Option<(Seq<Val>, Seq<Val>, int)>,
}

/// The types of the values.
pub open spec fn typed(vals: Seq<Val>) -> Seq<ValType> {
    vals.map_values(|val: Val| val.ty())
}

/// The topmost `count` values.
pub open spec fn top(stack: Seq<Val>, count: nat) -> Seq<Val> {
    stack.skip(stack.len() - count)
}

/// The stack without its topmost `count` values.
pub open spec fn below(stack: Seq<Val>, count: nat) -> Seq<Val> {
    stack.take(stack.len() - count)
}

/// Whether values of the types `tys` lie on top of the stack, the last one topmost.
pub open spec fn ready(stack: Seq<Val>, tys: Seq<ValType>) -> bool {
    tys.len() <= stack.len() && typed(top(stack, tys.len())) == tys
}

/// The result of a numeric operator.
pub open spec fn numeric_result(host: Host, op: NumericOp, inputs: Seq<Val>) -> Option<Val> {
    match (op, inputs) {
        (NumericOp::I32WrapI64, _) => match inputs[0] {
            Val::I64(v) => Some(Val::I32(v as i32)),
            _ => None,
        },
        (NumericOp::I64ShrS, _) => match (inputs[0], inputs[1]) {
            (Val::I64(v), Val::I64(by)) => Some(Val::I64(v >> ((by as u64) % 64))),
            _ => None,
        },
        _ => (host.numeric)(op, inputs),
    }
}

/// The types that a call or memory access takes and gives.
pub open spec fn effect_signature(host: Host, instr: Instr) -> Signature {
    match instr {
        Instr::Call(callee) => host.functions[callee.0 as int],
        Instr::CallIndirect(ty, _) => Signature {
            params: ty@.params + seq![ValType::I32],
            results: ty@.results,
        },
        Instr::MemoryGrow(_) => Signature { params: seq![ValType::I32], results: seq![ValType::I32] },
        Instr::Load(op, _) => op.signature(),
        Instr::Store(op, _) => op.signature(),
        _ => Signature { params: seq![], results: seq![] },
    }
}

/// The state behind a call or memory access.
pub open spec fn run_effect(host: Host, instr: Instr, s: State) -> Option<State> {
    let sig = effect_signature(host, instr);
    let own = s.globals.take(host.own_globals as int);
    if ready(s.stack, sig.params) && host.own_globals <= s.globals.len() {
        match (host.effect)(instr, top(s.stack, sig.params.len()), own, s.world) {
            Some((results, globals, world)) => if typed(results) == sig.results && typed(globals)
                == typed(own) {
                Some(
                    State {
                        stack: below(s.stack, sig.params.len()) + results,
                        globals: globals + s.globals.skip(host.own_globals as int),
                        world,
                        ..s
                    },
                )
            } else {
                None
            },
            None => None,
        }
    } else {
        None
    }
}

/// The state behind an instruction. `None` if it traps, does not find its operands, or is not
/// covered by the model.
pub open spec fn run_instr(host: Host, instr: Instr, s: State) -> Option<State> {
    match instr {
        Instr::Nop => Some(s),
        Instr::Drop => if s.stack.len() > 0 {
            Some(s.with_stack(s.stack.drop_last()))
        } else {
            None
        },
        Instr::Select => if s.stack.len() >= 3 {
            let (a, b, condition) = (
                s.stack[s.stack.len() - 3],
                s.stack[s.stack.len() - 2],
                s.stack[s.stack.len() - 1],
            );
            if a.ty() == b.ty() && condition is I32 {
                Some(
                    s.with_stack(
                        below(s.stack, 3).push(
                            if condition->I32_0 != 0 {
                                a
                            } else {
                                b
                            },
                        ),
                    ),
                )
            } else {
                None
            }
        } else {
            None
        },
        Instr::Local(op, local) => if local.0 < s.locals.len() {
            match op {
                LocalOp::GetLocal => Some(s.with_stack(s.stack.push(s.locals[local.0 as int]))),
                LocalOp::SetLocal => if ready(s.stack, seq![s.locals[local.0 as int].ty()]) {
                    Some(
                        State {
                            stack: s.stack.drop_last(),
                            locals: s.locals.update(local.0 as int, s.stack.last()),
                            ..s
                        },
                    )
                } else {
                    None
                },
                LocalOp::TeeLocal => if ready(s.stack, seq![s.locals[local.0 as int].ty()]) {
                    Some(s.with_locals(s.locals.update(local.0 as int, s.stack.last())))
                } else {
                    None
                },
            }
        } else {
            None
        },
        Instr::Global(op, global) => if global.0 < s.globals.len() {
            match op {
                GlobalOp::GetGlobal => Some(s.with_stack(s.stack.push(s.globals[global.0 as int]))),
                GlobalOp::SetGlobal => if ready(s.stack, seq![s.globals[global.0 as int].ty()]) {
                    Some(
                        State {
                            stack: s.stack.drop_last(),
                            globals: s.globals.update(global.0 as int, s.stack.last()),
                            ..s
                        },
                    )
                } else {
                    None
                },
            }
        } else {
            None
        },
        Instr::MemorySize(_) => Some(s.with_stack(s.stack.push(Val::I32((host.memory_size)(s.world))))),
        Instr::Const(val) => Some(s.with_stack(s.stack.push(val))),
        Instr::Numeric(op) => if ready(s.stack, op.signature().params) {
            match numeric_result(host, op, top(s.stack, op.signature().params.len())) {
                Some(result) => if result.ty() == op.result() {
                    Some(s.with_stack(below(s.stack, op.signature().params.len()).push(result)))
                } else {
                    None
                },
                None => None,
            }
        } else {
            None
        },
        Instr::Call(callee) => if callee.0 < host.functions.len() {
            run_effect(host, instr, s)
        } else {
            None
        },
        Instr::CallIndirect(_, _) | Instr::MemoryGrow(_) | Instr::Load(_, _) | Instr::Store(_, _) => run_effect(
            host,
            instr,
            s,
        ),
        _ => None,
    }
}

/// The state behind the call of a hook. `None` if the hook does not find the arguments that its
/// type asks for.
pub open spec fn run_hook(id: HookId, s: State) -> Option<State> {
    if ready(s.stack, id.params()) {
        let count = id.params().len();
        Some(
            s.with_stack(below(s.stack, count)).with_event(Event { id, args: top(s.stack, count) }),
        )
    } else {
        None
    }
}

/// The state behind one step of instrumented code.
pub open spec fn run_step(host: Host, step: Emit, s: State) -> Option<State> {
    match step {
        Emit::Plain(instr) => run_instr(host, instr, s),
        Emit::Hook(id) => run_hook(id, s),
    }
}

/// The state behind instrumented code.
pub open spec fn run(host: Host, trace: Seq<Emit>, s: State) -> Option<State>
    decreases trace.len(),
{
    if trace.len() == 0 {
        Some(s)
    } else {
        match run(host, trace.drop_last(), s) {
            Some(t) => run_step(host, trace.last(), t),
            None => None,
        }
    }
}

/// A 64-bit integer as two halves, the low one first; any other value as it is.
pub open spec fn lowered_val(val: Val) -> Seq<Val> {
    match val {
        Val::I64(v) => seq![Val::I32(v as i32), Val::I32((v >> 32u64) as i32)],
        _ => seq![val],
    }
}

/// The values with each 64-bit integer as two halves.
pub open spec fn lowered_vals(vals: Seq<Val>) -> Seq<Val>
    decreases vals.len(),
{
    if vals.len() == 0 {
        seq![]
    } else {
        lowered_vals(vals.drop_last()) + lowered_val(vals.last())
    }
}

} // verus!
