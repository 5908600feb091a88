//! A model of how the code of a whole function runs, with blocks and branches.
use vstd::prelude::*;

use crate::ast::{BlockType, Instr, ValType};
use crate::block_stack::{closing, nesting_of, switching, Nesting};
use crate::machine::{ready, run_hook, run_instr, top, Host, State};
use crate::trace::Emit;

verus! {

/// A block that is open: where a branch to it goes on, the types of the values that the branch
/// takes along, the types of the values that the block leaves behind when it comes to its end, and
/// how many values lie on the stack below the block.
#[verifier::ext_equal]
pub ghost struct Frame {
    pub target: int,
    pub taken: Seq<ValType>,
    pub results: Seq<ValType>,
    pub height: nat,
}

/// A point of a run: the step that comes next, the open blocks, the innermost one last, and the
/// state.
#[verifier::ext_equal]
pub ghost struct Config {
    pub at: int,
    pub frames: Seq<Frame>,
    pub state: State,
}

/// What the steps do to the nesting of blocks.
pub open spec fn nesting(code: Seq<Emit>) -> Seq<Nesting> {
    code.map_values(
        |step: Emit|
            match step {
                Emit::Plain(instr) => nesting_of(instr),
                Emit::Hook(_) => Nesting::Inside,
            },
    )
}

/// The types of the values that a block leaves on the stack.
pub open spec fn block_results(ty: BlockType) -> Seq<ValType> {
    match ty.0 {
        Some(ty) => seq![ty],
        None => seq![],
    }
}

/// The number on top of the stack.
pub open spec fn topmost(s: State) -> i32 {
    s.stack.last()->I32_0
}

/// The point behind a branch to `label`. `None` if there is no such block, or the values that the
/// branch takes along are not there.
pub open spec fn branched(c: Config, label: int) -> Option<Config> {
    let k = c.frames.len() - 1 - label;
    if 0 <= label < c.frames.len() {
        let frame = c.frames[k];
        if ready(c.state.stack, frame.taken) && frame.height + frame.taken.len()
            <= c.state.stack.len() {
            Some(
                Config {
                    at: frame.target,
                    frames: c.frames.take(k),
                    state: c.state.with_stack(
                        c.state.stack.take(frame.height as int) + top(
                            c.state.stack,
                            frame.taken.len(),
                        ),
                    ),
                },
            )
        } else {
            None
        }
    } else {
        None
    }
}

/// The point `at` inside a block, where the block has just been entered.
pub open spec fn entered(
    c: Config,
    at: int,
    target: int,
    taken: Seq<ValType>,
    results: Seq<ValType>,
) -> Config {
    Config {
        at,
        frames: c.frames.push(Frame { target, taken, results, height: c.state.stack.len() }),
        ..c
    }
}

/// Whether the innermost block has come to its end: its results, and nothing else of it, lie on the
/// stack.
pub open spec fn is_at_end(c: Config) -> bool {
    &&& c.frames.len() > 0
    &&& ready(c.state.stack, c.frames.last().results)
    &&& c.state.stack.len() == c.frames.last().height + c.frames.last().results.len()
}

/// The point with the topmost value taken off the stack.
pub open spec fn popped(c: Config) -> Config {
    Config { state: c.state.with_stack(c.state.stack.drop_last()), ..c }
}

/// The point behind an `if`.
pub open spec fn after_if(code: Seq<Emit>, ty: BlockType, c: Config) -> Option<Config> {
    let rest = popped(c);
    match closing(nesting(code), c.at + 1, 0) {
        Some(end) => if topmost(c.state) != 0 {
            Some(entered(rest, c.at + 1, end + 1, block_results(ty), block_results(ty)))
        } else {
            match switching(nesting(code), c.at + 1, 0) {
                Some(switch) => Some(
                    entered(rest, switch + 1, end + 1, block_results(ty), block_results(ty)),
                ),
                // there is no branch that could leave a result
                None => if ty.0 is None {
                    Some(Config { at: end + 1, ..rest })
                } else {
                    None
                },
            }
        },
        None => None,
    }
}

/// The point behind an instruction. `None` if it traps or does not find what it needs.
pub open spec fn after_instr(host: Host, code: Seq<Emit>, instr: Instr, c: Config) -> Option<Config> {
    let s = c.state;
    match instr {
        Instr::Unreachable => None,
        Instr::Block(ty) => match closing(nesting(code), c.at + 1, 0) {
            Some(end) => Some(
                entered(c, c.at + 1, end + 1, block_results(ty), block_results(ty)),
            ),
            None => None,
        },
        // a branch to a loop enters it again
        Instr::Loop(ty) => Some(entered(c, c.at + 1, c.at, seq![], block_results(ty))),
        Instr::If(ty) => if ready(s.stack, seq![ValType::I32]) {
            after_if(code, ty, c)
        } else {
            None
        },
        // the first branch has come to its end
        Instr::Else => match closing(nesting(code), c.at + 1, 0) {
            Some(end) => if is_at_end(c) {
                Some(Config { at: end + 1, frames: c.frames.drop_last(), ..c })
            } else {
                None
            },
            None => None,
        },
        Instr::End => if is_at_end(c) {
            Some(Config { at: c.at + 1, frames: c.frames.drop_last(), ..c })
        } else {
            None
        },
        Instr::Br(label) => branched(c, label.0 as int),
        Instr::BrIf(label) => if ready(s.stack, seq![ValType::I32]) {
            if topmost(s) != 0 {
                branched(popped(c), label.0 as int)
            } else {
                Some(Config { at: c.at + 1, ..popped(c) })
            }
        } else {
            None
        },
        Instr::BrTable(labels, default) => if ready(s.stack, seq![ValType::I32]) {
            let index = (topmost(s) as u32) as int;
            if index < labels@.len() {
                branched(popped(c), labels@[index].0 as int)
            } else {
                branched(popped(c), default.0 as int)
            }
        } else {
            None
        },
        Instr::Return => branched(c, c.frames.len() - 1),
        _ => match run_instr(host, instr, s) {
            Some(t) => Some(Config { at: c.at + 1, state: t, ..c }),
            None => None,
        },
    }
}

/// The point behind the next step. `None` if there is none.
pub open spec fn after_step(host: Host, code: Seq<Emit>, c: Config) -> Option<Config> {
    if 0 <= c.at < code.len() {
        match code[c.at] {
            Emit::Plain(instr) => after_instr(host, code, instr, c),
            Emit::Hook(id) => match run_hook(id, c.state) {
                Some(t) => Some(Config { at: c.at + 1, state: t, ..c }),
                None => None,
            },
        }
    } else {
        None
    }
}

/// The point behind the next `count` steps. `None` if the run ends before.
pub open spec fn after_steps(host: Host, code: Seq<Emit>, c: Config, count: nat) -> Option<Config>
    decreases count,
{
    if count == 0 {
        Some(c)
    } else {
        match after_steps(host, code, c, (count - 1) as nat) {
            Some(d) => after_step(host, code, d),
            None => None,
        }
    }
}

/// The point at which a function with the given code and results begins.
pub open spec fn called(code: Seq<Emit>, results: Seq<ValType>, s: State) -> Config {
    Config {
        at: 0,
        frames: seq![Frame { target: code.len() as int, taken: results, results, height: 0 }],
        state: s.with_stack(seq![]),
    }
}

} // verus!
