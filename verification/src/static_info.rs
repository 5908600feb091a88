//! What is known of a module before it runs and is handed to the analysis beside the hooks.
use vstd::prelude::*;

use crate::ast::{FunctionIdx, FunctionType, InstrIdx, Label, Module, Signature, ValType};
use crate::block_stack::{target, BlockStack, BlockStackElement};

verus! {

/// An instruction of a module.
#[derive(Clone, Copy, PartialEq, Eq, Structural, Debug)]
pub struct Location {
    pub func: FunctionIdx,
    pub instr: InstrIdx,
}

/// A branch label and the instruction that it stands for.
#[derive(Clone, Copy, PartialEq, Eq, Structural, Debug)]
pub struct LabelAndLocation {
    pub label: Label,
    pub location: Location,
}

/// The targets of a `br_table` instruction: one for each index, and one for all other indices.
#[verifier::ext_equal]
pub ghost struct BrTargets {
    pub table: Seq<LabelAndLocation>,
    pub default: LabelAndLocation,
}

/// The targets of a `br_table` instruction: one for each index, and one for all other indices.
#[derive(PartialEq, Eq, Debug)]
pub struct BrTableInfo {
    pub table: Vec<LabelAndLocation>,
    pub default: LabelAndLocation,
}

impl View for BrTableInfo {
    type V = BrTargets;

    open spec fn view(&self) -> BrTargets {
        BrTargets { table: self.table@, default: self.default }
    }
}

/// The label with the location that it stands for where the blocks `open` are open.
pub open spec fn resolved(open: Seq<BlockStackElement>, label: Label, func: FunctionIdx) -> LabelAndLocation {
    LabelAndLocation { label, location: Location { func, instr: target(open, label)->0 } }
}

/// The targets of the `br_table` instruction with the given labels where the blocks `open` are
/// open. `None` if one of the labels stands for no block.
pub open spec fn br_targets(
    open: Seq<BlockStackElement>,
    labels: Seq<Label>,
    default: Label,
    func: FunctionIdx,
) -> Option<BrTargets> {
    if target(open, default) is Some && forall|i: int|
        0 <= i < labels.len() ==> target(open, #[trigger] labels[i]) is Some {
        Some(
            BrTargets {
                table: labels.map_values(|label: Label| resolved(open, label, func)),
                default: resolved(open, default, func),
            },
        )
    } else {
        None
    }
}

impl BrTableInfo {
    /// Resolves the labels of a `br_table` instruction of the function `func`. `None` if one of
    /// them stands for no block.
    pub fn from_br_table(
        labels: &Vec<Label>,
        default: Label,
        blocks: &BlockStack,
        func: FunctionIdx,
    ) -> (info: Option<BrTableInfo>)
        requires
            blocks.wf(),
        ensures
            match info {
                Some(info) => br_targets(blocks@, labels@, default, func) == Some(info@),
                None => br_targets(blocks@, labels@, default, func) is None,
            },
    {
        let mut table: Vec<LabelAndLocation> = Vec::new();
        for i in 0..labels.len()
            invariant
                blocks.wf(),
                table@ == labels@.take(i as int).map_values(
                    |label: Label| resolved(blocks@, label, func),
                ),
                forall|k: int| 0 <= k < i ==> target(blocks@, #[trigger] labels@[k]) is Some,
        {
            match blocks.br_target(labels[i]) {
                Some(instr) => {
                    table.push(
                        LabelAndLocation { label: labels[i], location: Location { func, instr } },
                    );
                },
                None => {
                    assert(target(blocks@, labels@[i as int]) is None);
                    return None;
                },
            }
            assert(table@ =~= labels@.take(i + 1).map_values(
                |label: Label| resolved(blocks@, label, func),
            ));
        }
        assert(labels@.take(labels@.len() as int) =~= labels@);
        match blocks.br_target(default) {
            Some(instr) => Some(
                BrTableInfo {
                    table,
                    default: LabelAndLocation { label: default, location: Location { func, instr } },
                },
            ),
            None => None,
        }
    }
}

/// What is known of a function.
#[derive(PartialEq, Eq, Debug)]
pub struct FunctionInfo {
    pub type_: FunctionType,
    pub import: Option<(String, String)>,
    pub export: Option<String>,
}

/// What is known of a module.
#[derive(PartialEq, Eq, Debug)]
pub struct ModuleInfo {
    pub functions: Vec<FunctionInfo>,
    pub globals: Vec<ValType>,
    pub start: Option<FunctionIdx>,
    pub table_export_name: Option<String>,
    pub br_tables: Vec<BrTableInfo>,
}

impl ModuleInfo {
    /// The types of the functions.
    pub open spec fn signatures(self) -> Seq<Signature> {
        self.functions@.map_values(|function: FunctionInfo| function.type_@)
    }

    /// The targets of the `br_table` instructions.
    pub open spec fn br_targets(self) -> Seq<BrTargets> {
        self.br_tables@.map_values(|info: BrTableInfo| info@)
    }

    /// The info describes the functions, globals, first table and start function of the module.
    /// The `br_table` instructions are not part of that.
    pub open spec fn describes(self, module: Module) -> bool {
        &&& self.functions@.len() == module.functions@.len()
        &&& forall|i: int|
            #![trigger self.functions@[i]]
            0 <= i < self.functions@.len() ==> {
                &&& self.functions@[i].type_@ == module.functions@[i].type_@
                &&& same_names(self.functions@[i].import, module.functions@[i].import)
                &&& same_text(self.functions@[i].export, module.functions@[i].export)
            }
        &&& self.globals@ == global_types(module)
        &&& self.start == module.start
        &&& if module.tables@.len() > 0 {
            same_text(self.table_export_name, module.tables@[0].export)
        } else {
            self.table_export_name is None
        }
    }
}

pub open spec fn same_text(a: Option<String>, b: Option<String>) -> bool {
    match (a, b) {
        (Some(a), Some(b)) => a@ == b@,
        (None, None) => true,
        _ => false,
    }
}

pub open spec fn same_names(a: Option<(String, String)>, b: Option<(String, String)>) -> bool {
    match (a, b) {
        (Some(a), Some(b)) => a.0@ == b.0@ && a.1@ == b.1@,
        (None, None) => true,
        _ => false,
    }
}

/// The types of the module's functions.
pub open spec fn signatures(module: Module) -> Seq<Signature> {
    Seq::new(module.functions@.len(), |i: int| module.functions@[i].type_@)
}

/// The types of the values that the module's globals hold.
pub open spec fn global_types(module: Module) -> Seq<ValType> {
    Seq::new(module.globals@.len(), |i: int| module.globals@[i].type_.0)
}

/// The same types again.
pub(crate) fn copy_types(tys: &Vec<ValType>) -> (copy: Vec<ValType>)
    ensures
        copy@ == tys@,
{
    let mut copy: Vec<ValType> = Vec::new();
    for i in 0..tys.len()
        invariant
            copy@ == tys@.take(i as int),
    {
        copy.push(tys[i]);
        assert(tys@.take(i + 1) =~= tys@.take(i as int).push(tys@[i as int]));
    }
    assert(tys@.take(tys@.len() as int) =~= tys@);
    copy
}

fn copy_text(text: &Option<String>) -> (copy: Option<String>)
    ensures
        same_text(copy, *text),
{
    match text {
        Some(text) => Some(text.clone()),
        None => None,
    }
}

impl ModuleInfo {
    /// The info of a module, with no `br_table` instructions yet.
    pub fn from_module(module: &Module) -> (info: ModuleInfo)
        ensures
            info.describes(*module),
            info.signatures() == signatures(*module),
            info.br_targets() == Seq::<BrTargets>::empty(),
    {
        let mut functions: Vec<FunctionInfo> = Vec::new();
        for i in 0..module.functions.len()
            invariant
                functions@.len() == i,
                forall|k: int|
                    #![trigger functions@[k]]
                    0 <= k < functions@.len() ==> {
                        &&& functions@[k].type_@ == module.functions@[k].type_@
                        &&& same_names(functions@[k].import, module.functions@[k].import)
                        &&& same_text(functions@[k].export, module.functions@[k].export)
                    },
        {
            let function = &module.functions[i];
            let import = match &function.import {
                Some(names) => Some((names.0.clone(), names.1.clone())),
                None => None,
            };
            functions.push(
                FunctionInfo {
                    type_: FunctionType {
                        params: copy_types(&function.type_.params),
                        results: copy_types(&function.type_.results),
                    },
                    import,
                    export: copy_text(&function.export),
                },
            );
        }
        let mut globals: Vec<ValType> = Vec::new();
        for i in 0..module.globals.len()
            invariant
                globals@ == global_types(*module).take(i as int),
        {
            globals.push(module.globals[i].type_.0);
            assert(global_types(*module).take(i + 1) =~= global_types(*module).take(i as int).push(
                global_types(*module)[i as int],
            ));
        }
        assert(global_types(*module).take(module.globals@.len() as int) =~= global_types(*module));
        let table_export_name = if module.tables.len() > 0 {
            copy_text(&module.tables[0].export)
        } else {
            None
        };
        let info = ModuleInfo {
            functions,
            globals,
            start: module.start,
            table_export_name,
            br_tables: Vec::new(),
        };
        assert(info.signatures() =~= signatures(*module));
        assert(info.br_targets() =~= Seq::<BrTargets>::empty());
        info
    }
}

} // verus!
