//! Instrumentation of a module: every instruction of every function gets calls to hooks, which are
//! told where it stands, what it takes and gives, and what else matters about it.
use vstd::prelude::*;
use vstd::string::*;

use crate::ast::{
    Code, Function, FunctionIdx, Global, GlobalIdx, GlobalType, Instr, InstrIdx, Module, Mutability,
    Table, Val, ValType,
};
use crate::block_stack::{lemma_closing_bounds, nesting_of, nestings, well_nested};
use crate::emitter::{lemma_calls_hold, lemma_distinct, lemma_linked_stable, site_fits, Emitter};
use crate::hook_map::{is_hook_function, HookId, HookMap};
use crate::static_info::{
    global_types, same_names, same_text, signatures, BrTableInfo, BrTargets, FunctionInfo, ModuleInfo,
};
use crate::text::{decimal, push_decimal};
use crate::trace::{calls, chunk, distinct, fresh, linked, plain, returns_implicitly, Emit};
use crate::walk::{
    admits, instrumented, instrumented_vars, lemma_walkable_prefix, progress, site_at, walkable,
    walked_after, FunctionScope, Scope, Walk,
};

verus! {

/// The function with index `f` of the module, where `earlier` are the targets of the `br_table`
/// instructions of the functions before it.
pub open spec fn scope_with(module: Module, f: int, earlier: Seq<BrTargets>) -> Scope {
    let function = module.functions@[f];
    Scope {
        func: FunctionIdx(f as usize),
        params: function.type_.params@,
        results: function.type_.results@,
        locals: function.code->0.locals@,
        body: function.code->0.body@,
        functions: signatures(module),
        globals: global_types(module),
        start: if module.start == Some(FunctionIdx(f as usize)) {
            Some(GlobalIdx(module.globals@.len() as usize))
        } else {
            None
        },
        earlier,
    }
}

/// The targets of the `br_table` instructions of the first `count` functions, in order.
pub open spec fn tables_before(module: Module, count: nat) -> Seq<BrTargets>
    decreases count,
{
    if count == 0 {
        seq![]
    } else {
        let f = count - 1;
        let earlier = tables_before(module, f as nat);
        if module.functions@[f].code is Some {
            let scope = scope_with(module, f, earlier);
            progress(scope, scope.body.len())->0.walked.tables
        } else {
            earlier
        }
    }
}

/// The function with index `f` of the module.
pub open spec fn scope_of(module: Module, f: int) -> Scope {
    scope_with(module, f, tables_before(module, f as nat))
}

/// The hooks that the first `count` functions call when instrumented, in order, each as often as
/// it is called.
pub open spec fn calls_before(module: Module, count: nat) -> Seq<HookId>
    decreases count,
{
    if count == 0 {
        seq![]
    } else {
        let f = count - 1;
        let earlier = calls_before(module, f as nat);
        if module.functions@[f].code is Some {
            earlier + calls(instrumented(scope_of(module, f)))
        } else {
            earlier
        }
    }
}

/// The hooks of the instrumented module, each once, in the order in which they first occur.
pub open spec fn hooks_of(module: Module) -> Seq<HookId> {
    distinct(calls_before(module, module.functions@.len()))
}

/// An upper bound on the number of hooks that the first `count` functions call.
pub open spec fn hook_bound(module: Module, count: nat) -> nat
    decreases count,
{
    if count == 0 {
        0
    } else {
        let f = count - 1;
        let earlier = hook_bound(module, f as nat);
        if module.functions@[f].code is Some {
            earlier + function_bound(module.functions@[f].code->0.body@.len())
        } else {
            earlier
        }
    }
}

/// An upper bound on the number of hooks that a function with `len` instructions calls.
pub open spec fn function_bound(len: nat) -> nat {
    2 * len + 3
}

/// Whether the module can be instrumented: each function that is not imported can be walked, and
/// there are function indices enough for the hooks.
///
/// A function can be walked if its body is one block, well nested, all that its instructions refer to
/// exists, and each instruction finds as many operands in its block as it takes; those of a `select`
/// have to fit together. In code that cannot be reached, behind `unreachable`, `br`, `br_table` or
/// `return`, operands may be missing; what was on the stack before that code counts as there, and the
/// results of a `return` do.
///
/// That there are indices enough holds of every module that fits in memory, since an instruction
/// takes more than two bytes.
pub open spec fn instrumentable(module: Module) -> bool {
    &&& forall|f: int|
        0 <= f < module.functions@.len() && (#[trigger] module.functions@[f]).code is Some
            ==> walkable(scope_of(module, f))
    &&& module.functions@.len() + hook_bound(module, module.functions@.len()) <= usize::MAX
}

/// The export of a function or table is kept, or is `name` where there was none.
pub open spec fn exported(before: Option<String>, after: Option<String>, name: Seq<char>) -> bool {
    match before {
        Some(_) => after == before,
        None => after matches Some(after) && after@ == name,
    }
}

/// The name under which the function with index `f` is exported, if it has none.
pub open spec fn function_export(f: nat) -> Seq<char> {
    "__wasabi_function_"@ + decimal(f)
}

/// The name under which a table is exported, if it has none.
pub open spec fn table_export() -> Seq<char> {
    "__wasabi_table"@
}

/// The function with index `f` after instrumentation, where `ids` are the hooks.
pub open spec fn is_instrumented_function(before: Module, f: int, after: Function, ids: Seq<HookId>) -> bool {
    let function = before.functions@[f];
    let scope = scope_of(before, f);
    &&& after.type_ == function.type_
    &&& after.import == function.import
    &&& exported(function.export, after.export, function_export(f as nat))
    &&& match function.code {
        Some(_) => after.code matches Some(code) && code.locals@ == instrumented_vars(scope).skip(
            scope.params.len() as int,
        ) && code.body@ == linked(instrumented(scope), ids, before.functions@.len()),
        None => after.code is None,
    }
}

/// The global that says that the start function has not run yet.
pub open spec fn is_start_global(global: Global) -> bool {
    &&& global.type_ == GlobalType(ValType::I32, Mutability::Mut)
    &&& global.init matches Some(init) && init@ == seq![Instr::Const(Val::I32(1)), Instr::End]
    &&& global.import is None
    &&& global.export is None
}

/// The module after instrumentation.
pub open spec fn is_instrumented(before: Module, after: Module) -> bool {
    let ids = hooks_of(before);
    let n = before.functions@.len();
    // every table has an export
    &&& after.tables@.len() == before.tables@.len()
    &&& forall|t: int|
        #![trigger after.tables@[t]]
        0 <= t < before.tables@.len() ==> exported(
            before.tables@[t].export,
            after.tables@[t].export,
            table_export(),
        )
    // the functions are instrumented, and the hooks follow them
    &&& after.functions@.len() == n + ids.len()
    &&& forall|f: int|
        #![trigger after.functions@[f]]
        0 <= f < n ==> is_instrumented_function(before, f, after.functions@[f], ids)
    &&& forall|k: int|
        #![trigger ids[k]]
        0 <= k < ids.len() ==> is_hook_function(after.functions@[n + k], ids[k])
    // one global is added
    &&& after.globals@.len() == before.globals@.len() + 1
    &&& after.globals@.take(before.globals@.len() as int) == before.globals@
    &&& is_start_global(after.globals@.last())
    &&& after.start == before.start
}

/// What instrumentation yields besides the instrumented module: what is known of the module, and
/// the host's definitions of the hooks.
#[derive(PartialEq, Eq, Debug)]
pub struct Instrumentation {
    pub info: ModuleInfo,
    pub js_hooks: Vec<String>,
}

impl Instrumentation {
    /// The info is that of the module before instrumentation, but with the exports that
    /// instrumentation adds and with the targets of all `br_table` instructions; and there is a
    /// definition for each hook.
    pub open spec fn belongs_to(self, before: Module, after: Module) -> bool {
        let ids = hooks_of(before);
        let n = before.functions@.len();
        &&& self.info.functions@.len() == n
        &&& forall|f: int|
            #![trigger self.info.functions@[f]]
            0 <= f < n ==> {
                &&& self.info.functions@[f].type_@ == before.functions@[f].type_@
                &&& same_names(self.info.functions@[f].import, before.functions@[f].import)
                &&& same_text(self.info.functions@[f].export, after.functions@[f].export)
            }
        &&& self.info.globals@ == global_types(before)
        &&& self.info.start == before.start
        &&& if before.tables@.len() > 0 {
            same_text(self.info.table_export_name, after.tables@[0].export)
        } else {
            self.info.table_export_name is None
        }
        &&& self.info.br_targets() == tables_before(before, n)
        &&& self.js_hooks@.len() == ids.len()
        &&& forall|k: int|
            #![trigger self.js_hooks@[k]]
            0 <= k < ids.len() ==> self.js_hooks@[k]@ == ids[k].js()
    }
}

/// A body that is well nested ends with `end`.
pub(crate) proof fn lemma_last_is_end(body: Seq<Instr>)
    requires
        well_nested(nestings(body)),
    ensures
        body.len() > 0,
        body.last() is End,
{
    lemma_closing_bounds(nestings(body), 0, 0);
    assert(nestings(body)[body.len() - 1] == nesting_of(body[body.len() - 1]));
}

/// The code for a body that can be walked ends with `end`.
pub(crate) proof fn lemma_trace_ends(scope: Scope)
    requires
        walkable(scope),
    ensures
        scope.body.len() > 0,
        progress(scope, scope.body.len())->0.trace.len() > 0,
        progress(scope, scope.body.len())->0.trace.last() == Emit::Plain(Instr::End),
{
    lemma_walkable_prefix(scope, 0, scope.body.len());
    lemma_last_is_end(scope.body);
    let at = scope.body.len() - 1;
    lemma_walkable_prefix(scope, at as nat, scope.body.len());
    let p = progress(scope, at as nat)->0;
    let code = chunk(
        scope.func,
        InstrIdx(at as usize),
        scope.body[at],
        site_at(scope, p.walked, scope.body[at]),
        p.walked.vars,
        p.walked.tables.len(),
    );
    assert(plain(seq![Instr::End])[0] == Emit::Plain(Instr::End));
    assert(code.last() == Emit::Plain(Instr::End));
}

/// A trace whose hooks are known reads the same when more hooks are asked for.
pub proof fn lemma_linked_extend(trace: Seq<Emit>, asked: Seq<HookId>, more: Seq<HookId>, first: nat)
    requires
        forall|i: int|
            0 <= i < trace.len() && #[trigger] trace[i] is Hook ==> distinct(asked).contains(
                trace[i]->Hook_0,
            ),
    ensures
        linked(trace, distinct(asked + more), first) == linked(trace, distinct(asked), first),
        forall|i: int|
            0 <= i < trace.len() && #[trigger] trace[i] is Hook ==> distinct(asked + more).contains(
                trace[i]->Hook_0,
            ),
    decreases more.len(),
{
    if more.len() == 0 {
        assert(asked + more =~= asked);
    } else {
        let fewer = more.drop_last();
        lemma_linked_extend(trace, asked, fewer, first);
        assert((asked + more).drop_last() =~= asked + fewer);
        lemma_distinct(asked + fewer);
        lemma_linked_stable(trace, distinct(asked + fewer), more.last(), first);
        assert forall|i: int| 0 <= i < trace.len() && #[trigger] trace[i] is Hook implies distinct(
            asked + more,
        ).contains(trace[i]->Hook_0) by {
            crate::emitter::lemma_requested_keeps(
                distinct(asked + fewer),
                more.last(),
                trace[i]->Hook_0,
            );
        }
    }
}

/// The hooks that a trace calls are among the distinct ones, once they were asked for.
pub proof fn lemma_hooks_known(trace: Seq<Emit>, earlier: Seq<HookId>)
    ensures
        forall|i: int|
            0 <= i < trace.len() && #[trigger] trace[i] is Hook ==> distinct(
                earlier + calls(trace),
            ).contains(trace[i]->Hook_0),
{
    let asked = earlier + calls(trace);
    lemma_distinct(asked);
    assert forall|i: int| 0 <= i < trace.len() && #[trigger] trace[i] is Hook implies distinct(
        asked,
    ).contains(trace[i]->Hook_0) by {
        lemma_calls_hold(trace, i);
        let id = trace[i]->Hook_0;
        let k = choose|k: int| 0 <= k < calls(trace).len() && calls(trace)[k] == id;
        assert(asked[earlier.len() + k] == id);
    }
}

/// Whether the function returns by running into the end of its body.
fn has_implicit_return(body: &Vec<Instr>) -> (b: bool)
    ensures
        b == returns_implicitly(body@),
{
    let len: usize = body.len();
    if len < 2 {
        return true;
    }
    match (&body[len - 2], &body[len - 1]) {
        (Instr::Return, Instr::End) => false,
        _ => true,
    }
}

/// One step of the walk, with what the code for the instruction rests on.
proof fn lemma_instruction_walked(scope: Scope, k: nat)
    requires
        k < scope.body.len(),
        progress(scope, k + 1) is Some,
    ensures
        ({
            let instr = scope.body[k as int];
            let p = progress(scope, k)->0;
            let q = progress(scope, k + 1)->0;
            let site = site_at(scope, p.walked, instr);
            &&& progress(scope, k) is Some
            &&& admits(scope, p.walked, k as int, instr)
            &&& q.walked == walked_after(scope, p.walked, k as int, instr)
            &&& q.walked.vars == p.walked.vars + fresh(instr, site.sig)
            &&& q.trace == p.trace + chunk(
                scope.func,
                InstrIdx(k as usize),
                instr,
                site,
                p.walked.vars,
                p.walked.tables.len(),
            )
            &&& site_fits(instr, site, p.walked.vars)
        }),
{
}


/// Instruments one function. `hooks` are the hooks that were asked for so far, which are those of
/// the calls `earlier`; `tables` are the targets of the `br_table` instructions so far.
fn instrument_function(
    func: FunctionIdx,
    function: &mut Function,
    functions: &Vec<FunctionInfo>,
    globals: &Vec<ValType>,
    start: Option<GlobalIdx>,
    tables: Vec<BrTableInfo>,
    hooks: HookMap,
    Ghost(scope): Ghost<Scope>,
    Ghost(earlier): Ghost<Seq<HookId>>,
) -> (out: (Vec<BrTableInfo>, HookMap))
    requires
        old(function).code is Some,
        scope.func == func,
        scope.params == old(function).type_.params@,
        scope.results == old(function).type_.results@,
        scope.locals == old(function).code->0.locals@,
        scope.body == old(function).code->0.body@,
        scope.functions == functions@.map_values(|function: FunctionInfo| function.type_@),
        scope.globals == globals@,
        scope.start == start,
        scope.earlier == tables@.map_values(|info: BrTableInfo| info@),
        walkable(scope),
        hooks.wf(),
        hooks@ == distinct(earlier),
        hooks.first() + hooks@.len() + function_bound(scope.body.len()) <= usize::MAX,
    ensures
        final(function).type_ == old(function).type_,
        final(function).import == old(function).import,
        final(function).export == old(function).export,
        final(function).code is Some,
        final(function).code->0.locals@ == instrumented_vars(scope).skip(scope.params.len() as int),
        final(function).code->0.body@ == linked(instrumented(scope), out.1@, hooks.first()),
        out.0@.map_values(|info: BrTableInfo| info@) == progress(
            scope,
            scope.body.len(),
        )->0.walked.tables,
        out.1.wf(),
        out.1.first() == hooks.first(),
        out.1@ == distinct(earlier + calls(instrumented(scope))),
        out.1@.len() <= hooks@.len() + function_bound(scope.body.len()),
{
    let ghost asked = hooks@.len();
    let ghost len = scope.body.len();
    let ghost first = hooks.first();
    let code = function.code.take().unwrap();
    let implicit_return = has_implicit_return(&code.body);
    let param_count: usize = function.type_.params.len();
    proof {
        lemma_walkable_prefix(scope, 0, len);
    }
    let mut walk = Walk::new(
        &function.type_.params,
        &code.locals,
        &code.body,
        tables,
        Ghost(scope),
    ).unwrap();
    let mut emitter = Emitter::new(hooks, Ghost(earlier), Ghost(asked));
    emitter.emit_prologue(func, start);
    let function_scope = FunctionScope { func, results: &function.type_.results, functions, globals };
    let mut i: usize = 0;
    for instr in it: code.body
        invariant
            it.seq() == scope.body,
            i == it.index(),
            len == scope.body.len(),
            len <= usize::MAX,
            walkable(scope),
            function_scope.agrees(scope),
            func == scope.func,
            walk.wf(),
            walk.nesting() == nestings(scope.body),
            progress(scope, i as nat) is Some,
            walk@ == progress(scope, i as nat)->0.walked,
            walk@.vars.len() >= param_count,
            emitter.wf(),
            emitter.done() == progress(scope, i as nat)->0.trace,
            emitter.current() == Seq::<Emit>::empty(),
            emitter.earlier() == earlier,
            emitter.first() == first,
            emitter.issued() <= asked + 2 + 2 * i,
            first + asked + function_bound(len) <= usize::MAX,
    {
        proof {
            lemma_walkable_prefix(scope, (i + 1) as nat, len);
            lemma_instruction_walked(scope, i as nat);
        }
        let ghost before = walk@;
        let n: usize = walk.variables().len();
        let tables_so_far: usize = walk.table_count();
        let site = walk.visit(&function_scope, InstrIdx(i), &instr, Ghost(scope)).unwrap();
        emitter.emit_instr(
            func,
            InstrIdx(i),
            instr,
            site,
            n,
            walk.variables(),
            tables_so_far,
            Ghost(before.vars),
        );
        i = i + 1;
    }
    proof {
        lemma_trace_ends(scope);
    }
    let n: usize = walk.variables().len();
    if implicit_return {
        let ghost before = walk@.vars;
        walk.add_variables(&function.type_.results);
        emitter.emit_epilogue(func, &function.type_.results, n, walk.variables(), Ghost(before));
    }
    assert(emitter.done() == instrumented(scope));
    assert(walk@.vars == instrumented_vars(scope));
    let (body, hooks) = emitter.finish();
    let (locals, tables) = walk.finish(param_count);
    function.code = Some(Code { locals, body });
    (tables, hooks)
}

/// Makes sure that every table is exported.
fn export_tables(tables: &mut Vec<Table>)
    ensures
        final(tables)@.len() == old(tables)@.len(),
        forall|t: int|
            #![trigger final(tables)@[t]]
            0 <= t < old(tables)@.len() ==> exported(
                old(tables)@[t].export,
                final(tables)@[t].export,
                table_export(),
            ),
{
    let len: usize = tables.len();
    for i in 0..len
        invariant
            len == tables@.len(),
            tables@.len() == old(tables)@.len(),
            forall|t: int|
                #![trigger tables@[t]]
                0 <= t < i ==> exported(old(tables)@[t].export, tables@[t].export, table_export()),
            forall|t: int| #![trigger tables@[t]] i <= t < tables@.len() ==> tables@[t] == old(tables)@[t],
    {
        if tables[i].export.is_none() {
            tables[i].export = Some("__wasabi_table".to_owned());
        }
    }
}

/// Makes sure that every function is exported.
fn export_functions(functions: &mut Vec<Function>)
    ensures
        final(functions)@.len() == old(functions)@.len(),
        forall|f: int|
            #![trigger final(functions)@[f]]
            0 <= f < old(functions)@.len() ==> {
                &&& final(functions)@[f].type_ == old(functions)@[f].type_
                &&& final(functions)@[f].import == old(functions)@[f].import
                &&& final(functions)@[f].code == old(functions)@[f].code
                &&& exported(
                    old(functions)@[f].export,
                    final(functions)@[f].export,
                    function_export(f as nat),
                )
            },
{
    let len: usize = functions.len();
    for i in 0..len
        invariant
            len == functions@.len(),
            functions@.len() == old(functions)@.len(),
            forall|f: int|
                #![trigger functions@[f]]
                0 <= f < i ==> {
                    &&& functions@[f].type_ == old(functions)@[f].type_
                    &&& functions@[f].import == old(functions)@[f].import
                    &&& functions@[f].code == old(functions)@[f].code
                    &&& exported(
                        old(functions)@[f].export,
                        functions@[f].export,
                        function_export(f as nat),
                    )
                },
            forall|f: int|
                #![trigger functions@[f]]
                i <= f < functions@.len() ==> functions@[f] == old(functions)@[f],
    {
        if functions[i].export.is_none() {
            let mut name = "__wasabi_function_".to_owned();
            push_decimal(&mut name, i);
            functions[i].export = Some(name);
        }
    }
}

/// Walks a function's body. Returns the targets of the `br_table` instructions, with those of this
/// function behind those before; `None` if the body cannot be walked.
fn walk_function(
    func: FunctionIdx,
    function: &Function,
    code: &Code,
    info: &ModuleInfo,
    tables: Vec<BrTableInfo>,
    Ghost(scope): Ghost<Scope>,
) -> (out: Option<Vec<BrTableInfo>>)
    requires
        scope.func == func,
        scope.params == function.type_.params@,
        scope.results == function.type_.results@,
        scope.locals == code.locals@,
        scope.body == code.body@,
        scope.functions == info.signatures(),
        scope.globals == info.globals@,
        scope.earlier == tables@.map_values(|info: BrTableInfo| info@),
    ensures
        match out {
            Some(tables) => walkable(scope) && tables@.map_values(|info: BrTableInfo| info@) == progress(
                scope,
                scope.body.len(),
            )->0.walked.tables,
            None => !walkable(scope),
        },
{
    let mut walk = match Walk::new(
        &function.type_.params,
        &code.locals,
        &code.body,
        tables,
        Ghost(scope),
    ) {
        Some(walk) => walk,
        None => {
            proof {
                if walkable(scope) {
                    lemma_walkable_prefix(scope, 0, scope.body.len());
                }
            }
            return None;
        },
    };
    let function_scope = FunctionScope {
        func,
        results: &function.type_.results,
        functions: &info.functions,
        globals: &info.globals,
    };
    for i in 0..code.body.len()
        invariant
            scope.body == code.body@,
            function_scope.agrees(scope),
            walk.wf(),
            walk.nesting() == nestings(scope.body),
            progress(scope, i as nat) is Some,
            walk@ == progress(scope, i as nat)->0.walked,
    {
        if walk.visit(&function_scope, InstrIdx(i), &code.body[i], Ghost(scope)).is_none() {
            proof {
                assert(!admits(
                    scope,
                    progress(scope, i as nat)->0.walked,
                    i as int,
                    scope.body[i as int],
                ));
                assert(progress(scope, (i + 1) as nat) is None);
                if walkable(scope) {
                    lemma_walkable_prefix(scope, (i + 1) as nat, scope.body.len());
                }
            }
            return None;
        }
    }
    let (_, tables) = walk.finish(0);
    Some(tables)
}

/// The bound on the number of hooks grows with the number of functions.
proof fn lemma_hook_bound_grows(module: Module, count: nat, total: nat)
    requires
        count <= total,
    ensures
        hook_bound(module, count) <= hook_bound(module, total),
    decreases total,
{
    if count < total {
        lemma_hook_bound_grows(module, count, (total - 1) as nat);
    }
}

/// Whether the module can be instrumented.
pub fn is_instrumentable(module: &Module) -> (ok: bool)
    ensures
        ok == instrumentable(*module),
{
    let info = ModuleInfo::from_module(module);
    let mut tables: Vec<BrTableInfo> = Vec::new();
    let mut indices: usize = module.functions.len();
    let ghost n = module.functions@.len();
    assert(tables@.map_values(|info: BrTableInfo| info@) =~= tables_before(*module, 0));
    for f in 0..module.functions.len()
        invariant
            n == module.functions@.len(),
            info.signatures() == signatures(*module),
            info.globals@ == global_types(*module),
            tables@.map_values(|info: BrTableInfo| info@) == tables_before(*module, f as nat),
            indices == n + hook_bound(*module, f as nat),
            forall|g: int|
                0 <= g < f && (#[trigger] module.functions@[g]).code is Some ==> walkable(
                    scope_of(*module, g),
                ),
    {
        let function = &module.functions[f];
        proof {
            lemma_hook_bound_grows(*module, (f + 1) as nat, n);
        }
        if let Some(code) = &function.code {
            let ghost scope = scope_of(*module, f as int);
            match walk_function(FunctionIdx(f), function, code, &info, tables, Ghost(scope)) {
                Some(more) => {
                    tables = more;
                },
                None => {
                    assert(module.functions@[f as int].code is Some);
                    return false;
                },
            }
            let len: usize = code.body.len();
            indices = match indices.checked_add(3) {
                Some(sum) => sum,
                None => {
                    return false;
                },
            };
            indices = match indices.checked_add(len) {
                Some(sum) => sum,
                None => {
                    return false;
                },
            };
            indices = match indices.checked_add(len) {
                Some(sum) => sum,
                None => {
                    return false;
                },
            };
        }
    }
    true
}

/// Instruments every instruction of the module with calls to hooks, which are told where it stands,
/// what it takes and gives, and other relevant information.
///
/// Every function and every table is exported, so that the analysis can resolve table indices to
/// functions; only functions that are not imported are instrumented; the hooks follow the other
/// functions.
pub fn add_hooks(module: &mut Module) -> (out: Instrumentation)
    requires
        instrumentable(*old(module)),
    ensures
        is_instrumented(*old(module), *final(module)),
        out.belongs_to(*old(module), *final(module)),
{
    let ghost before = *old(module);
    let ghost n = before.functions@.len();
    export_tables(&mut module.tables);
    export_functions(&mut module.functions);
    let mut info = ModuleInfo::from_module(module);
    let ghost exports = *module;
    assert(signatures(exports) =~= signatures(before));
    assert(global_types(exports) =~= global_types(before));

    let function_count: usize = module.functions.len();
    let mut hooks = HookMap::new(function_count);
    let not_executed = GlobalIdx(module.globals.len());
    let init = vec![Instr::Const(Val::I32(1)), Instr::End];
    assert(init@ =~= seq![Instr::Const(Val::I32(1)), Instr::End]);
    module.globals.push(
        Global {
            type_: GlobalType(ValType::I32, Mutability::Mut),
            init: Some(init),
            import: None,
            export: None,
        },
    );
    let ghost globals = module.globals@;
    assert(globals.take(before.globals@.len() as int) =~= before.globals@);

    let mut tables: Vec<BrTableInfo> = Vec::new();
    assert(tables@.map_values(|info: BrTableInfo| info@) =~= tables_before(before, 0));
    assert(hooks@ =~= distinct(calls_before(before, 0)));
    for f in 0..function_count
        invariant
            instrumentable(before),
            n == before.functions@.len(),
            function_count == n,
            not_executed.0 == before.globals@.len(),
            info.signatures() == signatures(before),
            info.globals@ == global_types(before),
            info.start == before.start,
            info.describes(exports),
            exports.functions@.len() == n,
            exports.tables@ == module.tables@,
            module.functions@.len() == n,
            module.tables@.len() == before.tables@.len(),
            module.globals@ == globals,
            module.start == before.start,
            forall|g: int|
                #![trigger exports.functions@[g]]
                0 <= g < n ==> {
                    &&& exports.functions@[g].type_ == before.functions@[g].type_
                    &&& exports.functions@[g].import == before.functions@[g].import
                    &&& exports.functions@[g].code == before.functions@[g].code
                    &&& exported(
                        before.functions@[g].export,
                        exports.functions@[g].export,
                        function_export(g as nat),
                    )
                },
            forall|g: int|
                #![trigger module.functions@[g]]
                0 <= g < n ==> module.functions@[g].export == exports.functions@[g].export,
            forall|g: int|
                #![trigger module.functions@[g]]
                0 <= g < f ==> is_instrumented_function(before, g, module.functions@[g], hooks@),
            forall|g: int|
                #![trigger module.functions@[g]]
                f <= g < n ==> module.functions@[g] == exports.functions@[g],
            hooks.wf(),
            hooks.first() == n,
            hooks@ == distinct(calls_before(before, f as nat)),
            hooks@.len() <= hook_bound(before, f as nat),
            tables@.map_values(|info: BrTableInfo| info@) == tables_before(before, f as nat),
    {
        let ghost scope = scope_of(before, f as int);
        let ghost earlier = calls_before(before, f as nat);
        let ghost hooks_before = hooks@;
        let ghost functions_before = module.functions@;
        assert(module.functions@[f as int] == exports.functions@[f as int]);
        // only instrument functions that are not imported
        if module.functions[f].code.is_some() {
            let start = match info.start {
                Some(start) => if start.0 == f {
                    Some(not_executed)
                } else {
                    None
                },
                None => None,
            };
            proof {
                lemma_hook_bound_grows(before, (f + 1) as nat, n);
                assert(before.functions@[f as int].code is Some);
            }
            let (more, asked) = instrument_function(
                FunctionIdx(f),
                &mut module.functions[f],
                &info.functions,
                &info.globals,
                start,
                tables,
                hooks,
                Ghost(scope),
                Ghost(earlier),
            );
            tables = more;
            hooks = asked;
            proof {
                assert forall|g: int| 0 <= g < f implies is_instrumented_function(
                    before,
                    g,
                    #[trigger] module.functions@[g],
                    hooks@,
                ) by {
                    assert(module.functions@[g] == functions_before[g]);
                    if before.functions@[g].code is Some {
                        lemma_calls_kept(before, g as nat, f as nat);
                        lemma_linked_extend(
                            instrumented(scope_of(before, g)),
                            earlier,
                            calls(instrumented(scope)),
                            n,
                        );
                    }
                }
            }
        }
    }

    // the hooks follow the other functions
    let ghost ids = hooks@;
    let ghost functions = module.functions@;
    let hooks = hooks.finish();
    let ghost all = hooks@;
    let mut js_hooks: Vec<String> = Vec::new();
    for hook in it: hooks
        invariant
            it.seq() == all,
            all.len() == ids.len(),
            n == before.functions@.len(),
            functions.len() == n,
            forall|k: int|
                #![trigger all[k]]
                0 <= k < all.len() ==> {
                    &&& all[k].idx.0 == n + k
                    &&& is_hook_function(all[k].wasm, ids[k])
                    &&& all[k].js@ == ids[k].js()
                },
            module.tables@ == exports.tables@,
            module.globals@ == globals,
            module.start == before.start,
            module.functions@.len() == n + it.index(),
            module.functions@.take(n as int) == functions,
            forall|k: int|
                #![trigger module.functions@[n + k]]
                0 <= k < it.index() ==> is_hook_function(module.functions@[n + k], ids[k]),
            js_hooks@.len() == it.index(),
            forall|k: int| #![trigger js_hooks@[k]] 0 <= k < it.index() ==> js_hooks@[k]@ == ids[k].js(),
    {
        let ghost k = it.index() as int;
        let ghost added = module.functions@;
        assert(hook == all[k]);
        assert(hook.idx.0 == module.functions@.len());
        js_hooks.push(hook.js);
        module.functions.push(hook.wasm);
        assert(module.functions@.take(n as int) =~= functions);
        assert forall|j: int| 0 <= j < k + 1 implies is_hook_function(
            #[trigger] module.functions@[n + j],
            ids[j],
        ) by {
            if j < k {
                assert(module.functions@[n + j] == added[n + j]);
            }
        }
    }
    info.br_tables = tables;
    proof {
        assert forall|f: int| 0 <= f < n implies is_instrumented_function(
            before,
            f,
            #[trigger] module.functions@[f],
            ids,
        ) by {
            assert(module.functions@[f] == functions[f]);
        }
        assert(module.globals@.last() == globals.last());
    }
    let out = Instrumentation { info, js_hooks };
    proof {
        assert forall|f: int| 0 <= f < n implies same_text(
            (#[trigger] out.info.functions@[f]).export,
            module.functions@[f].export,
        ) by {
            assert(module.functions@[f] == functions[f]);
        }
    }
    out
}

/// The hooks of a function are known once a later function is reached.
proof fn lemma_calls_kept(module: Module, f: nat, count: nat)
    requires
        f < count,
        module.functions@[f as int].code is Some,
    ensures
        forall|i: int|
            0 <= i < instrumented(scope_of(module, f as int)).len() && #[trigger] instrumented(
                scope_of(module, f as int),
            )[i] is Hook ==> distinct(calls_before(module, count)).contains(
                instrumented(scope_of(module, f as int))[i]->Hook_0,
            ),
    decreases count,
{
    let trace = instrumented(scope_of(module, f as int));
    if count == f + 1 {
        lemma_hooks_known(trace, calls_before(module, f));
    } else {
        lemma_calls_kept(module, f, (count - 1) as nat);
        let last = count - 1;
        if module.functions@[last].code is Some {
            lemma_linked_extend(
                trace,
                calls_before(module, last as nat),
                calls(instrumented(scope_of(module, last))),
                0,
            );
        }
    }
}

} // verus!
