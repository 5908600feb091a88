//! What holds of the texts that are handed to the host: numbers can be read back, and the script holds
//! the information on the module and the definitions of the hooks.
use vstd::prelude::*;

use crate::add_hooks::is_instrumented;
use crate::ast::{Module, ValType};
use crate::generate_js::{line_separator, script};
use crate::hook_map::{js_args, js_params, HookId};
use crate::name_laws::{lemma_lowered_types, lowered_count, parameter_count};
use crate::text::{
    all_lines, decimal, digit, joined, lemma_joined_extend, lemma_joined_push, lemma_lines_nonempty,
    lines,
};

verus! {

/// The number that a text of digits stands for.
pub open spec fn number(text: Seq<char>) -> int
    decreases text.len(),
{
    if text.len() == 0 {
        0
    } else {
        10 * number(text.drop_last()) + (text.last() as int - '0' as int)
    }
}

/// A number in decimal notation can be read back; it is made of digits, and does not begin with a zero
/// unless it is one.
pub proof fn law_decimal_can_be_read_back(n: nat)
    ensures
        number(decimal(n)) == n,
        decimal(n).len() > 0,
        forall|i: int| 0 <= i < decimal(n).len() ==> '0' <= #[trigger] decimal(n)[i] <= '9',
        decimal(n).len() > 1 ==> decimal(n)[0] != '0',
    decreases n,
{
    let text = decimal(n);
    let last = digit((n % 10) as u8);
    assert(last as int - '0' as int == n % 10 && '0' <= last <= '9');
    if n < 10 {
        assert(text.drop_last() =~= seq![]);
        assert(number(text.drop_last()) == 0);
    } else {
        law_decimal_can_be_read_back(n / 10);
        assert(text.drop_last() =~= decimal(n / 10));
        assert(text[0] == decimal(n / 10)[0]);
        if decimal(n / 10).len() == 1 {
            assert(number(decimal(n / 10)) == n / 10);
            let one = decimal(n / 10);
            assert(one.drop_last() =~= seq![]);
            assert(number(one.drop_last()) == 0);
            assert(one.last() == one[0]);
        }
    }
}

/// What is exported for the first time gets a name that the host can find it by: a function the common
/// words and its index, a table the word for tables.
pub proof fn law_new_exports_tell_the_index(before: Module, after: Module, f: int, t: int)
    requires
        is_instrumented(before, after),
    ensures
        0 <= f < before.functions@.len() && before.functions@[f].export is None ==> {
            let prefix = "__wasabi_function_"@;
            let name = (after.functions@[f].export->0)@;
            &&& after.functions@[f].export is Some
            &&& prefix.len() < name.len()
            &&& name.take(prefix.len() as int) == prefix
            &&& number(name.skip(prefix.len() as int)) == f
            &&& forall|i: int| prefix.len() <= i < name.len() ==> '0' <= #[trigger] name[i] <= '9'
        },
        0 <= t < before.tables@.len() && before.tables@[t].export is None ==> {
            &&& after.tables@[t].export is Some
            &&& (after.tables@[t].export->0)@ == "__wasabi_table"@
        },
{
    if 0 <= f < before.functions@.len() && before.functions@[f].export is None {
        let prefix = "__wasabi_function_"@;
        let name = (after.functions@[f].export->0)@;
        let n = prefix.len() as int;
        assert(after.functions@[f].export is Some);
        law_decimal_can_be_read_back(f as nat);
        assert(name == prefix + decimal(f as nat));
        assert(name.take(n) =~= prefix);
        assert(name.skip(n) =~= decimal(f as nat));
        assert forall|i: int| n <= i < name.len() implies '0' <= #[trigger] name[i] <= '9' by {
            assert(name[i] == decimal(f as nat)[i - n]);
        }
    }
    if 0 <= t < before.tables@.len() && before.tables@[t].export is None {
        let table = after.tables@[t];
    }
}

/// The text with each line break followed by an indentation.
pub open spec fn indented(text: Seq<char>) -> Seq<char>
    decreases text.len(),
{
    if text.len() == 0 {
        seq![]
    } else if text.last() == '\n' {
        indented(text.drop_last()) + seq!['\n', ' ', ' ', ' ', ' ']
    } else {
        indented(text.drop_last()).push(text.last())
    }
}

proof fn lemma_indented_add(a: Seq<char>, b: Seq<char>)
    ensures
        indented(a + b) == indented(a) + indented(b),
    decreases b.len(),
{
    if b.len() == 0 {
        assert(a + b =~= a);
        assert(indented(a) + indented(b) =~= indented(a));
    } else {
        lemma_indented_add(a, b.drop_last());
        assert((a + b).drop_last() =~= a + b.drop_last());
        assert(indented(a + b) =~= indented(a) + indented(b));
    }
}

proof fn lemma_joined_add(a: Seq<Seq<char>>, b: Seq<Seq<char>>, separator: Seq<char>)
    requires
        a.len() > 0,
        b.len() > 0,
    ensures
        joined(a + b, separator) == joined(a, separator) + separator + joined(b, separator),
    decreases b.len(),
{
    if b.len() == 1 {
        assert(a + b =~= a.push(b[0]));
        lemma_joined_push(a, b[0], separator);
    } else {
        lemma_joined_add(a, b.drop_last(), separator);
        assert((a + b).drop_last() =~= a + b.drop_last());
        assert(joined(a + b, separator) =~= joined(a, separator) + separator + joined(b, separator));
    }
}

/// The lines of a text, put together again, are the text; with another separator they are the text with
/// its line breaks replaced by it.
proof fn lemma_lines_joined(text: Seq<char>)
    ensures
        joined(lines(text), seq!['\n']) == text,
        joined(lines(text), seq!['\n', ' ', ' ', ' ', ' ']) == indented(text),
        forall|i: int| 0 <= i < lines(text).len() ==> !(#[trigger] lines(text)[i]).contains('\n'),
    decreases text.len(),
{
    let (short, long) = (seq!['\n'], seq!['\n', ' ', ' ', ' ', ' ']);
    if text.len() == 0 {
        assert(joined(lines(text), short) =~= text);
        assert(joined(lines(text), long) =~= text);
    } else {
        let before = text.drop_last();
        let c = text.last();
        lemma_lines_joined(before);
        lemma_lines_nonempty(before);
        assert(before.push(c) =~= text);
        if c == '\n' {
            lemma_joined_push(lines(before), seq![], short);
            lemma_joined_push(lines(before), seq![], long);
            assert(joined(lines(text), short) =~= text);
            assert(joined(lines(text), long) =~= indented(text));
        } else {
            lemma_joined_extend(lines(before), c, short);
            lemma_joined_extend(lines(before), c, long);
            assert forall|i: int| 0 <= i < lines(text).len() implies !(
            #[trigger] lines(text)[i]).contains('\n') by {
                assert(!lines(before)[i].contains('\n'));
                if i == lines(before).len() - 1 {
                    let line = lines(before)[i];
                    assert forall|k: int| 0 <= k < line.push(c).len() implies line.push(c)[k] != '\n' by {
                        if k < line.len() {
                            assert(line.contains(line[k]));
                        }
                    }
                }
            }
        }
    }
}

/// Splitting a text into lines loses nothing: no line holds a line break, and with a line break between
/// each two the lines are the text.
pub proof fn law_lines_give_back_the_text(text: Seq<char>)
    ensures
        lines(text).len() > 0,
        joined(lines(text), "\n"@) == text,
        forall|i: int| 0 <= i < lines(text).len() ==> !(#[trigger] lines(text)[i]).contains('\n'),
{
    reveal_strlit("\n");
    assert("\n"@ =~= seq!['\n']);
    lemma_lines_nonempty(text);
    lemma_lines_joined(text);
}

proof fn lemma_all_lines_indented(hooks: Seq<Seq<char>>)
    ensures
        hooks.len() > 0 ==> all_lines(hooks).len() > 0,
        joined(all_lines(hooks), seq!['\n', ' ', ' ', ' ', ' ']) == indented(
            joined(hooks, seq!['\n']),
        ),
    decreases hooks.len(),
{
    let (short, long) = (seq!['\n'], seq!['\n', ' ', ' ', ' ', ' ']);
    if hooks.len() > 0 {
        let (before, last) = (hooks.drop_last(), hooks.last());
        lemma_all_lines_indented(before);
        lemma_lines_joined(last);
        lemma_lines_nonempty(last);
        if before.len() == 0 {
            assert(all_lines(before) + lines(last) =~= lines(last));
            assert(hooks =~= seq![last]);
        } else {
            lemma_joined_add(all_lines(before), lines(last), long);
            assert(before.push(last) =~= hooks);
            lemma_joined_push(before, last, short);
            lemma_indented_add(joined(before, short) + short, last);
            lemma_indented_add(joined(before, short), short);
            assert(short.drop_last() =~= seq![]);
            assert(indented(short.drop_last()) =~= seq![]);
            assert(indented(short) =~= long);
        }
    }
}

/// The script hands the information on the module over as it is, and defines all hooks: the definitions
/// stand one below the other in the order in which they were given, with every line of them indented.
pub proof fn law_script_holds_info_and_hooks(module_info: Seq<char>, hooks: Seq<Seq<char>>)
    ensures
        ({
            let assign = "Wasabi.module.info = "@;
            let define = ";\n\nWasabi.module.lowlevelHooks = {\n    "@;
            let defined = indented(joined(hooks, "\n"@));
            let text = script(module_info, hooks);
            let rest = module_info + define + defined + "\n};\n"@;
            &&& text.len() >= assign.len() + rest.len()
            &&& text.skip(text.len() - rest.len()) == rest
            &&& text.take(text.len() - rest.len()).skip(text.len() - rest.len() - assign.len()) == assign
            &&& text.take(2) == "/*"@
            &&& text.take(text.len() - rest.len() - assign.len()).skip(
                text.len() - rest.len() - assign.len() - 5,
            ) == " */\n\n"@
        }),
{
    let assign = "Wasabi.module.info = "@;
    let define = ";\n\nWasabi.module.lowlevelHooks = {\n    "@;
    let head =
        "/*\n * Auto-generated from WASM module to-analyze.\n * DO NOT EDIT.\n */\n\nWasabi.module.info = "@;
    reveal_strlit("\n");
    reveal_strlit("/*");
    reveal_strlit(" */\n\n");
    reveal_strlit("\n    ");
    reveal_strlit("Wasabi.module.info = ");
    reveal_strlit(";\n\nWasabi.module.lowlevelHooks = {\n    ");
    reveal_strlit(
        "/*\n * Auto-generated from WASM module to-analyze.\n * DO NOT EDIT.\n */\n\nWasabi.module.info = ",
    );
    assert("\n"@ =~= seq!['\n']);
    assert(line_separator() =~= seq!['\n', ' ', ' ', ' ', ' ']);
    lemma_all_lines_indented(hooks);
    let defined = indented(joined(hooks, "\n"@));
    let text = script(module_info, hooks);
    let rest = module_info + define + defined + "\n};\n"@;
    assert(text =~= head + rest);
    let n = head.len() as int;
    assert(text.skip(n) =~= rest);
    assert(text.take(n) =~= head);
    assert(head.skip(n - assign.len()) =~= assign);
    assert(text.take(2) =~= "/*"@);
    assert(text.take(n - assign.len()).skip(n - assign.len() - 5) =~= " */\n\n"@);
}

/// The names of the parameters that carry each value: one, or for a 64-bit integer one for each half, the
/// low one first. Different values have different numbers in the names.
pub open spec fn carriers(tys: Seq<ValType>) -> Seq<Seq<Seq<char>>> {
    Seq::new(
        tys.len(),
        |i: int|
            {
                let name = "a"@ + decimal(i as nat);
                if parameter_count(tys[i]) == 2 {
                    seq![name + "_low"@, name + "_high"@]
                } else {
                    seq![name]
                }
            },
    )
}

/// Names in a list of parameters, behind others.
pub open spec fn listed(carriers: Seq<Seq<Seq<char>>>) -> Seq<char>
    decreases carriers.len(),
{
    if carriers.len() == 0 {
        seq![]
    } else {
        listed(carriers.drop_last()) + ", "@ + joined(carriers.last(), ", "@)
    }
}

/// The expressions for the values: the parameter that carries it, or the number made of both halves.
pub open spec fn expressions(carriers: Seq<Seq<Seq<char>>>) -> Seq<Seq<char>> {
    carriers.map_values(
        |names: Seq<Seq<char>>|
            if names.len() == 2 {
                "new Long("@ + names[0] + ", "@ + names[1] + ")"@
            } else {
                names[0]
            },
    )
}

/// How many parameters carry the values.
pub open spec fn carrier_count(carriers: Seq<Seq<Seq<char>>>) -> nat
    decreases carriers.len(),
{
    if carriers.len() == 0 {
        0
    } else {
        carriers[0].len() + carrier_count(carriers.skip(1))
    }
}

proof fn lemma_carrier_count(tys: Seq<ValType>, carriers: Seq<Seq<Seq<char>>>)
    requires
        carriers.len() == tys.len(),
        forall|i: int| 0 <= i < tys.len() ==> (#[trigger] carriers[i]).len() == parameter_count(tys[i]),
    ensures
        carrier_count(carriers) == lowered_count(tys),
    decreases tys.len(),
{
    if tys.len() > 0 {
        assert forall|i: int| 0 <= i < tys.skip(1).len() implies (
        #[trigger] carriers.skip(1)[i]).len() == parameter_count(tys.skip(1)[i]) by {
            assert(carriers[i + 1].len() == parameter_count(tys[i + 1]));
        }
        lemma_carrier_count(tys.skip(1), carriers.skip(1));
    }
}

proof fn lemma_listed(tys: Seq<ValType>)
    ensures
        js_params(tys) == listed(carriers(tys)),
        js_args(tys) == joined(expressions(carriers(tys)), ", "@),
    decreases tys.len(),
{
    let all = carriers(tys);
    if tys.len() > 0 {
        let fewer = tys.drop_last();
        lemma_listed(fewer);
        assert(all.drop_last() =~= carriers(fewer));
        let i = tys.len() - 1;
        let n = decimal(i as nat);
        let name = "a"@ + n;
        reveal_strlit(", a");
        reveal_strlit(", ");
        reveal_strlit("a");
        reveal_strlit("_low, a");
        reveal_strlit("_low");
        reveal_strlit("_high");
        reveal_strlit("_high)");
        reveal_strlit(")");
        reveal_strlit("new Long(");
        reveal_strlit("new Long(a");
        if tys.last() == ValType::I64 {
            let names = seq![name + "_low"@, name + "_high"@];
            assert(names.drop_last() =~= seq![name + "_low"@]);
            assert(joined(names.drop_last(), ", "@) == name + "_low"@);
            assert(joined(names, ", "@) == name + "_low"@ + ", "@ + (name + "_high"@));
            assert(", a"@ + n + "_low, a"@ + n + "_high"@ =~= ", "@ + (name + "_low"@ + ", "@ + (name
                + "_high"@)));
            assert("new Long(a"@ + n + "_low, a"@ + n + "_high)"@ =~= "new Long("@ + (name + "_low"@)
                + ", "@ + (name + "_high"@) + ")"@);
        } else {
            assert(joined(seq![name], ", "@) == name);
            assert(", a"@ + n =~= ", "@ + name);
        }
        assert(js_params(tys) =~= listed(all));
        let (before, one) = (expressions(carriers(fewer)), expressions(all).last());
        assert(expressions(all) =~= before.push(one));
        lemma_joined_push(before, one, ", "@);
        assert(js_args(tys) =~= joined(expressions(all), ", "@)) by {
            if tys.len() == 1 {
                assert(fewer =~= seq![]);
                assert(js_args(fewer) =~= seq![]);
            }
        }
    } else {
        assert(all =~= seq![]);
        assert(expressions(all) =~= seq![]);
    }
}

/// The definition of a hook passes everything on that the hook is told. It goes by the name under which
/// the hook is imported; besides the location it has as many parameters as the import takes values; and it
/// hands the analysis the same name, the location, and for each value an expression made of exactly the
/// parameters that carry it.
pub proof fn law_definitions_pass_everything_on(id: HookId)
    ensures
        ({
            let values = carriers(id.args());
            &&& values.len() == id.args().len()
            &&& id.params().len() == 2 + carrier_count(values)
            &&& id.js() == "\""@ + id.name() + "\": function (func, instr"@ + listed(values)
                + ") {\n    Wasabi.analysis(\""@ + id.name() + "\", {func, instr}, ["@ + joined(
                expressions(values),
                ", "@,
            ) + "]);\n},"@
        }),
{
    let values = carriers(id.args());
    lemma_listed(id.args());
    lemma_carrier_count(id.args(), values);
    lemma_lowered_types(id.args());
}

} // verus!
