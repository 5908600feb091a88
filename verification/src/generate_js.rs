//! The script that gives the analysis what is known of a module and defines the module's hooks.
use vstd::prelude::*;
use vstd::string::*;

use crate::text::{
    all_lines, joined, lemma_joined_extend, lemma_joined_push, lemma_lines_nonempty, lines,
};

verus! {

/// What separates the lines of the hooks' definitions: each one is indented.
pub open spec fn line_separator() -> Seq<char> {
    "\n    "@
}

/// The texts of the strings.
pub open spec fn texts(strings: Seq<String>) -> Seq<Seq<char>> {
    strings.map_values(|s: String| s@)
}

/// The script for a module whose info in JSON is `module_info` and whose hooks are defined by
/// `hooks`. The lines of all definitions follow one another, each indented.
pub open spec fn script(module_info: Seq<char>, hooks: Seq<Seq<char>>) -> Seq<char> {
    "/*\n * Auto-generated from WASM module to-analyze.\n * DO NOT EDIT.\n */\n\nWasabi.module.info = "@
        + module_info + ";\n\nWasabi.module.lowlevelHooks = {\n    "@ + joined(
        all_lines(hooks),
        line_separator(),
    ) + "\n};\n"@
}

proof fn lemma_all_lines_nonempty(texts: Seq<Seq<char>>)
    requires
        texts.len() > 0,
    ensures
        all_lines(texts).len() > 0,
{
    lemma_lines_nonempty(texts.last());
}

/// Appends the lines of all texts, each but the first behind the separator.
fn push_lines(out: &mut String, hooks: &Vec<String>)
    ensures
        final(out)@ == old(out)@ + joined(all_lines(texts(hooks@)), line_separator()),
{
    let ghost base = out@;
    let ghost all = texts(hooks@);
    let ghost sep = line_separator();
    assert(out@ =~= base + joined(all_lines(all.take(0)), sep));
    for i in 0..hooks.len()
        invariant
            all == texts(hooks@),
            sep == line_separator(),
            out@ == base + joined(all_lines(all.take(i as int)), sep),
    {
        let ghost before = all_lines(all.take(i as int));
        let ghost text = all[i as int];
        let hook = hooks[i].as_str();
        if i > 0 {
            out.append("\n    ");
        }
        proof {
            if i > 0 {
                lemma_all_lines_nonempty(all.take(i as int));
            }
            lemma_joined_push(before, seq![], sep);
            assert(before + lines(text.take(0)) =~= before.push(seq![]));
            assert(out@ =~= base + joined(before + lines(text.take(0)), sep));
        }
        for c in it: hook.chars()
            invariant
                it.seq() == text,
                sep == line_separator(),
                out@ == base + joined(before + lines(text.take(it.index() as int)), sep),
        {
            let ghost k = it.index() as int;
            let ghost so_far = lines(text.take(k));
            proof {
                lemma_lines_nonempty(text.take(k));
                assert(text.take(k + 1).drop_last() =~= text.take(k));
                assert(text.take(k + 1).last() == c);
            }
            if c == '\n' {
                out.append("\n    ");
                proof {
                    lemma_joined_push(before + so_far, seq![], sep);
                    assert(before + lines(text.take(k + 1)) =~= (before + so_far).push(seq![]));
                    assert(out@ =~= base + joined((before + so_far).push(seq![]), sep));
                }
            } else {
                out.push(c);
                proof {
                    lemma_joined_extend(before + so_far, c, sep);
                    assert((before + so_far).last() == so_far.last());
                    assert(before + lines(text.take(k + 1)) =~= (before + so_far).update(
                        (before + so_far).len() - 1,
                        so_far.last().push(c),
                    ));
                }
            }
        }
        assert(text.take(text.len() as int) =~= text);
        assert(all.take(i + 1).drop_last() =~= all.take(i as int));
        assert(all.take(i + 1).last() == text);
    }
    assert(all.take(all.len() as int) =~= all);
}

/// The script for a module whose info in JSON is `module_info` and whose hooks are defined by
/// `hooks`.
pub fn generate_js(module_info: &str, hooks: &Vec<String>) -> (js: String)
    ensures
        js@ == script(module_info@, texts(hooks@)),
{
    let mut js =
        "/*\n * Auto-generated from WASM module to-analyze.\n * DO NOT EDIT.\n */\n\nWasabi.module.info = ".to_owned();
    js.append(module_info);
    js.append(";\n\nWasabi.module.lowlevelHooks = {\n    ");
    push_lines(&mut js, hooks);
    js.append("\n};\n");
    js
}

} // verus!
