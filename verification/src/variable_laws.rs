//! That a function gets no more variables than its hooks need.
use vstd::prelude::*;

use crate::add_hooks::{hooks_of, instrumentable, is_instrumented, lemma_trace_ends, scope_of};
use crate::ast::{consecutive, FunctionIdx, Instr, InstrIdx, LocalIdx, LocalOp, Module, ValType};
use crate::laws::lemma_trace_grows;
use crate::trace::{chunk, epilogue, fresh, linked, plain, returns_implicitly, saved, tee, Emit, Site};
use crate::walk::{instrumented, instrumented_vars, progress, site_at, walkable, Scope};

verus! {

/// Whether the step writes the variable with index `j`.
pub open spec fn writes(step: Emit, j: int) -> bool {
    ||| step == Emit::Plain(Instr::Local(LocalOp::SetLocal, LocalIdx(j as usize)))
    ||| step == Emit::Plain(Instr::Local(LocalOp::TeeLocal, LocalIdx(j as usize)))
}

/// Whether the code writes the variable with index `j`.
spec fn written(code: Seq<Emit>, j: int) -> bool {
    exists|i: int| 0 <= i < code.len() && writes(#[trigger] code[i], j)
}

proof fn lemma_written_add(a: Seq<Emit>, b: Seq<Emit>, j: int)
    ensures
        written(a + b, j) == (written(a, j) || written(b, j)),
{
    let all = a + b;
    if written(a, j) {
        let i = choose|i: int| 0 <= i < a.len() && writes(#[trigger] a[i], j);
        assert(writes(all[i], j));
    }
    if written(b, j) {
        let i = choose|i: int| 0 <= i < b.len() && writes(#[trigger] b[i], j);
        assert(writes(all[a.len() + i], j));
    }
    if written(all, j) {
        let i = choose|i: int| 0 <= i < all.len() && writes(#[trigger] all[i], j);
        if i < a.len() {
            assert(writes(a[i], j));
        } else {
            assert(writes(b[i - a.len()], j));
        }
    }
}

/// A variable that values are saved to is written.
proof fn lemma_saved_writes(locals: Seq<LocalIdx>, k: int, j: int)
    requires
        0 <= k < locals.len(),
        locals[k] == LocalIdx(j as usize),
    ensures
        written(plain(saved(locals)), j),
{
    let others = locals.skip(1);
    let sets = others.reverse().map_values(|local: LocalIdx| crate::trace::set(local));
    let code = plain(saved(locals));
    if k == 0 {
        assert(writes(code[sets.len() as int], j));
    } else {
        let i = others.len() - k;
        assert(others.reverse()[i] == others[k - 1]);
        assert(writes(code[i], j));
    }
}

/// The code for an instruction writes each of the variables that it gets.
proof fn lemma_chunk_writes(
    func: FunctionIdx,
    at: InstrIdx,
    instr: Instr,
    site: Site,
    vars: Seq<ValType>,
    tables: nat,
    j: int,
)
    requires
        vars.len() <= j < vars.len() + fresh(instr, site.sig).len(),
        instr is Drop ==> site.sig.params.len() == 1,
    ensures
        written(chunk(func, at, instr, site, vars, tables), j),
{
    let n = vars.len();
    let k = j - n;
    let tmp = consecutive(n, fresh(instr, site.sig).len());
    let (params, results) = (site.sig.params.len(), site.sig.results.len());
    assert forall|a: Seq<Emit>, b: Seq<Emit>| #[trigger]
        written(a + b, j) == (written(a, j) || written(b, j)) by {
        lemma_written_add(a, b, j);
    }
    match instr {
        Instr::If(_) | Instr::BrIf(_) | Instr::BrTable(_, _) => {
            assert(writes(plain(seq![tee(tmp[0])])[0], j));
        },
        Instr::Drop => {
            assert(writes(plain(seq![crate::trace::set(tmp[0])])[0], j));
        },
        Instr::MemoryGrow(_) | Instr::Load(_, _) => {
            assert(writes(plain(seq![tee(tmp[0]), instr, tee(tmp[1])])[2 * k], j));
        },
        Instr::Return | Instr::Store(_, _) => lemma_saved_writes(tmp, k, j),
        Instr::Select => {
            let locals = seq![tmp[1], tmp[2], tmp[0]];
            lemma_saved_writes(
                locals,
                if k == 0 {
                    2
                } else {
                    k - 1
                },
                j,
            );
        },
        Instr::Numeric(op) => {
            let inputs = consecutive(n, op.signature().params.len());
            if k < inputs.len() {
                lemma_saved_writes(inputs, k, j);
            } else {
                let outputs = consecutive(
                    n + op.signature().params.len(),
                    op.signature().results.len(),
                );
                lemma_saved_writes(outputs, k - inputs.len(), j);
            }
        },
        Instr::Call(_) => {
            if k < params {
                lemma_saved_writes(consecutive(n, params), k, j);
            } else {
                lemma_saved_writes(consecutive(n + params, results), k - params, j);
            }
        },
        Instr::CallIndirect(_, _) => {
            if k == 0 {
                assert(writes(plain(seq![crate::trace::set(tmp[0])])[0], j));
            } else if k <= params {
                lemma_saved_writes(consecutive(n + 1, params), k - 1, j);
            } else {
                lemma_saved_writes(consecutive(n + 1 + params, results), k - 1 - params, j);
            }
        },
        _ => {},
    }
}

/// What the first part of the code writes, the code writes.
proof fn lemma_written_front(part: Seq<Emit>, code: Seq<Emit>, j: int)
    requires
        written(part, j),
        part.len() <= code.len(),
        forall|i: int| 0 <= i < part.len() ==> #[trigger] code[i] == part[i],
    ensures
        written(code, j),
{
    let i = choose|i: int| 0 <= i < part.len() && writes(#[trigger] part[i], j);
    assert(writes(code[i], j));
}

/// The code so far writes all variables for hooks so far.
proof fn lemma_progress_writes(scope: Scope, count: nat, j: int)
    requires
        progress(scope, count) is Some,
        scope.params.len() + scope.locals.len() <= j < progress(scope, count)->0.walked.vars.len(),
    ensures
        written(progress(scope, count)->0.trace, j),
    decreases count,
{
    if count > 0 {
        let at = (count - 1) as nat;
        let p = progress(scope, at)->0;
        let instr = scope.body[at as int];
        let site = site_at(scope, p.walked, instr);
        let (vars, tables) = (p.walked.vars, p.walked.tables.len());
        let code = chunk(scope.func, InstrIdx(at as usize), instr, site, vars, tables);
        lemma_written_add(p.trace, code, j);
        if j < vars.len() {
            lemma_progress_writes(scope, at, j);
        } else {
            lemma_chunk_writes(scope.func, InstrIdx(at as usize), instr, site, vars, tables, j);
        }
    }
}

/// No variable is added in vain: each variable behind a function's own ones is written by some instruction
/// of the instrumented function.
pub proof fn law_added_variables_are_written(before: Module, after: Module, f: int, j: int) -> (i: int)
    requires
        instrumentable(before),
        is_instrumented(before, after),
        0 <= f < before.functions@.len(),
        before.functions@[f].code is Some,
        ({
            let params = before.functions@[f].type_.params@.len();
            let own = (before.functions@[f].code->0).locals@.len();
            params + own <= j < params + (after.functions@[f].code->0).locals@.len()
        }),
    ensures
        after.functions@[f].code is Some,
        0 <= i < (after.functions@[f].code->0).body@.len(),
        ({
            let instr = (after.functions@[f].code->0).body@[i];
            instr == Instr::Local(LocalOp::SetLocal, LocalIdx(j as usize)) || instr == Instr::Local(
                LocalOp::TeeLocal,
                LocalIdx(j as usize),
            )
        }),
{
    let scope = scope_of(before, f);
    assert(walkable(scope));
    assert(after.functions@[f].code is Some);
    let len = scope.body.len();
    let p = progress(scope, len)->0;
    let trace = instrumented(scope);
    lemma_trace_ends(scope);
    assert(instrumented_vars(scope).len() >= scope.params.len()) by {
        lemma_trace_grows(scope, 0, len);
    }
    let own = p.trace.drop_last();
    assert(p.trace =~= own + seq![Emit::Plain(Instr::End)]);
    if j < p.walked.vars.len() {
        lemma_progress_writes(scope, len, j);
        lemma_written_add(own, seq![Emit::Plain(Instr::End)], j);
        if returns_implicitly(scope.body) {
            lemma_written_add(own, epilogue(scope.func, scope.results, p.walked.vars), j);
        }
    } else {
        let tmp = consecutive(p.walked.vars.len(), scope.results.len());
        let tail = epilogue(scope.func, scope.results, p.walked.vars);
        lemma_saved_writes(tmp, j - p.walked.vars.len(), j);
        lemma_written_front(plain(saved(tmp)), tail, j);
        lemma_written_add(own, tail, j);
    }
    assert(written(trace, j));
    let i = choose|i: int| 0 <= i < trace.len() && writes(#[trigger] trace[i], j);
    assert(linked(trace, hooks_of(before), before.functions@.len())[i]
        == trace[i]->Plain_0);
    i
}

} // verus!
