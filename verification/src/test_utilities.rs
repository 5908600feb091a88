//! Helpers for tests on files: what a validator's run says, which files are WebAssembly modules,
//! and where the outcome of a test goes.
use vstd::prelude::*;
use vstd::string::*;
use vstd::utf8::{decode_utf8, valid_utf8};

verus! {

/// The text that `String::from_utf8_lossy` gives for the bytes.
pub uninterp spec fn utf8_lossy(bytes: Seq<u8>) -> Seq<char>;

/// `String::from_utf8_lossy`: the text of the bytes, with what is no UTF-8 replaced. Bytes that are
/// UTF-8 give the text that they encode.
#[verifier::external_body]
fn from_utf8_lossy(bytes: &Vec<u8>) -> (text: String)
    ensures
        text@ == utf8_lossy(bytes@),
        valid_utf8(bytes@) ==> text@ == decode_utf8(bytes@),
{
    String::from_utf8_lossy(bytes).into_owned()
}

/// How a run of the validator ended: whether it succeeded, and what it wrote to standard error.
#[derive(PartialEq, Eq, Debug)]
pub struct ValidatorOutput {
    pub success: bool,
    pub stderr: Vec<u8>,
}

/// What is said of the file `path` if the validator rejects it and writes `text` to standard error.
pub open spec fn invalid_message(path: Seq<char>, text: Seq<char>) -> Seq<char> {
    "invalid wasm file "@ + path + "\n"@ + text
}

/// What is said of the file `path` if the validator rejects it and writes `text` to standard error.
pub fn invalid_file_message(path: &str, text: &str) -> (message: String)
    ensures
        message@ == "invalid wasm file "@ + path@ + "\n"@ + text@,
        message@ == invalid_message(path@, text@),
{
    let mut message = "invalid wasm file ".to_owned();
    message.append(path);
    message.append("\n");
    message.append(text);
    message
}

/// What a run of the validator on the file `path` says against the file. `None` if the file is valid.
pub open spec fn objection(path: Seq<char>, output: Result<ValidatorOutput, String>) -> Option<Seq<char>> {
    match output {
        Err(error) => Some(error@),
        Ok(output) => if output.success {
            None
        } else {
            Some(invalid_message(path, utf8_lossy(output.stderr@)))
        },
    }
}

/// What a run of the validator on the file `path` says: that the file is valid, or why it is not,
/// or why the validator could not be run.
pub fn wasm_validate(path: &str, output: Result<ValidatorOutput, String>) -> (result: Result<(), String>)
    ensures
        match output {
            Err(error) => result == Err::<(), String>(error),
            Ok(output) => if output.success {
                result == Ok::<(), String>(())
            } else {
                result matches Err(message) && message@ == "invalid wasm file "@ + path@ + "\n"@
                    + utf8_lossy(output.stderr@)
            },
        },
        output matches Ok(output) ==> !output.success && valid_utf8(output.stderr@) ==> (
        result->Err_0)@ == "invalid wasm file "@ + path@ + "\n"@ + decode_utf8(output.stderr@),
        match result {
            Ok(_) => objection(path@, output) is None,
            Err(message) => objection(path@, output) == Some(message@),
        },
{
    match output {
        Err(error) => Err(error),
        Ok(output) => if output.success {
            Ok(())
        } else {
            Err(invalid_file_message(path, from_utf8_lossy(&output.stderr).as_str()))
        },
    }
}

/// A file or directory that was found, with the extension of its name, where it has one that is
/// text.
#[derive(PartialEq, Eq, Debug)]
pub struct FoundEntry<P> {
    pub path: P,
    pub is_dir: bool,
    pub extension: Option<String>,
}

/// Whether the entry is a file, not a directory, with the extension of WebAssembly modules.
pub open spec fn is_wasm<P>(entry: FoundEntry<P>) -> bool {
    &&& !entry.is_dir
    &&& entry.extension matches Some(extension) && extension@ == "wasm"@
}

/// The paths of the files that have the extension of WebAssembly modules, in order; only where all
/// entries could be read.
pub open spec fn wasm_paths<P>(entries: Seq<Result<FoundEntry<P>, String>>) -> Seq<P>
    decreases entries.len(),
{
    if entries.len() == 0 {
        seq![]
    } else {
        let before = wasm_paths(entries.drop_last());
        match entries.last() {
            Ok(entry) => if is_wasm(entry) {
                before.push(entry.path)
            } else {
                before
            },
            Err(_) => before,
        }
    }
}

/// The paths of all WebAssembly modules among what was found under a directory, in order; or the
/// first error, if there was one.
pub open spec fn search_outcome<P>(entries: Seq<Result<FoundEntry<P>, String>>) -> Result<Seq<P>, String>
    decreases entries.len(),
{
    if entries.len() == 0 {
        Ok(seq![])
    } else {
        match (search_outcome(entries.drop_last()), entries.last()) {
            (Err(error), _) => Err(error),
            (Ok(_), Err(error)) => Err(error),
            (Ok(_), Ok(_)) => Ok(wasm_paths(entries)),
        }
    }
}

/// Nothing that could not be read is passed over: all entries have to be readable for paths to be found,
/// and else the first one that is not gives the error.
pub proof fn law_unreadable_entries_are_not_passed_over<P>(entries: Seq<Result<FoundEntry<P>, String>>)
    ensures
        match search_outcome(entries) {
            Ok(paths) => paths == wasm_paths(entries) && forall|i: int|
                0 <= i < entries.len() ==> (#[trigger] entries[i]) is Ok,
            Err(error) => exists|i: int|
                #![trigger entries[i]]
                {
                    &&& 0 <= i < entries.len()
                    &&& entries[i] == Err::<FoundEntry<P>, String>(error)
                    &&& forall|k: int| 0 <= k < i ==> (#[trigger] entries[k]) is Ok
                },
        },
    decreases entries.len(),
{
    if entries.len() > 0 {
        let fewer = entries.drop_last();
        law_unreadable_entries_are_not_passed_over(fewer);
        match search_outcome(fewer) {
            Err(error) => {
                let i = choose|i: int|
                    #![trigger fewer[i]]
                    {
                        &&& 0 <= i < fewer.len()
                        &&& fewer[i] == Err::<FoundEntry<P>, String>(error)
                        &&& forall|k: int| 0 <= k < i ==> (#[trigger] fewer[k]) is Ok
                    };
                assert(entries[i] == Err::<FoundEntry<P>, String>(error));
                assert forall|k: int| 0 <= k < i implies (#[trigger] entries[k]) is Ok by {
                    assert(fewer[k] is Ok);
                }
            },
            Ok(_) => {
                assert forall|k: int| 0 <= k < fewer.len() implies (#[trigger] entries[k]) is Ok by {
                    assert(fewer[k] is Ok);
                }
                assert(entries[entries.len() - 1] == entries.last());
            },
        }
    }
}

/// The paths of all WebAssembly modules among what was found under a directory, in order; or the
/// first error, if there was one.
pub fn wasm_files<P>(entries: Vec<Result<FoundEntry<P>, String>>) -> (files: Result<Vec<P>, String>)
    ensures
        match files {
            Ok(paths) => {
                &&& forall|i: int| 0 <= i < entries@.len() ==> (#[trigger] entries@[i]) is Ok
                &&& paths@ == wasm_paths(entries@)
            },
            Err(error) => exists|i: int|
                #![trigger entries@[i]]
                {
                    &&& 0 <= i < entries@.len()
                    &&& entries@[i] == Err::<FoundEntry<P>, String>(error)
                    &&& forall|k: int| 0 <= k < i ==> (#[trigger] entries@[k]) is Ok
                },
        },
        match files {
            Ok(paths) => search_outcome(entries@) == Ok::<Seq<P>, String>(paths@),
            Err(error) => search_outcome(entries@) == Err::<Seq<P>, String>(error),
        },
{
    let ghost all = entries@;
    let wasm = "wasm".to_owned();
    let mut paths: Vec<P> = Vec::new();
    for entry in it: entries
        invariant
            it.seq() == all,
            wasm@ == "wasm"@,
            forall|i: int| 0 <= i < it.index() ==> (#[trigger] all[i]) is Ok,
            paths@ == wasm_paths(all.take(it.index() as int)),
    {
        let ghost i = it.index() as int;
        assert(all[i] == entry);
        assert(all.take(i + 1).drop_last() =~= all.take(i));
        match entry {
            Ok(entry) => {
                let is_module = match &entry.extension {
                    Some(extension) => !entry.is_dir && *extension == wasm,
                    None => false,
                };
                if is_module {
                    paths.push(entry.path);
                }
            },
            Err(error) => {
                proof {
                    law_unreadable_entries_are_not_passed_over(all);
                }
                return Err(error);
            },
        }
    }
    assert(all.take(all.len() as int) =~= all);
    proof {
        law_unreadable_entries_are_not_passed_over(all);
    }
    Ok(paths)
}

/// Whether `pattern` stands in `text` at index `at`.
pub open spec fn occurs_at(text: Seq<char>, pattern: Seq<char>, at: int) -> bool {
    0 <= at && at + pattern.len() <= text.len() && text.subrange(at, at + pattern.len()) == pattern
}

/// Whether `pattern` stands somewhere in `text`.
pub open spec fn occurs(text: Seq<char>, pattern: Seq<char>) -> bool {
    exists|at: int| #[trigger] occurs_at(text, pattern, at)
}

/// From `from` on, `text` with each occurrence of `pattern` replaced, the leftmost ones first.
pub open spec fn replaced(text: Seq<char>, pattern: Seq<char>, by: Seq<char>, from: int) -> Seq<char>
    decreases text.len() - from,
{
    if from < 0 || from >= text.len() {
        seq![]
    } else if pattern.len() > 0 && occurs_at(text, pattern, from) {
        by + replaced(text, pattern, by, from + pattern.len())
    } else {
        seq![text[from]] + replaced(text, pattern, by, from + 1)
    }
}

/// The directory for the outcomes of a test.
pub open spec fn output_dir(output_subdir: Seq<char>) -> Seq<char> {
    "outputs/"@ + output_subdir + "/"@
}

/// The file for the outcome of a test on `input`: the same file in the directory for outcomes
/// instead of the one for inputs.
pub open spec fn output_path(input: Seq<char>, output_subdir: Seq<char>) -> Seq<char> {
    if occurs(input, "inputs/"@) {
        replaced(input, "inputs/"@, output_dir(output_subdir), 0)
    } else {
        output_dir(output_subdir) + input
    }
}

fn chars_of(text: &str) -> (chars: Vec<char>)
    ensures
        chars@ == text@,
{
    let mut chars: Vec<char> = Vec::new();
    for c in it: text.chars()
        invariant
            it.seq() == text@,
            chars@ == text@.take(it.index() as int),
    {
        chars.push(c);
        let ghost i = it.index() as int;
        assert(text@.take(i + 1) =~= text@.take(i).push(text@[i]));
    }
    assert(text@.take(text@.len() as int) =~= text@);
    chars
}

/// Whether `pattern` stands in `text` at index `at`.
fn stands_at(text: &Vec<char>, pattern: &Vec<char>, at: usize) -> (b: bool)
    ensures
        b == occurs_at(text@, pattern@, at as int),
{
    let len: usize = text.len();
    if at > len || pattern.len() > len - at {
        return false;
    }
    for i in 0..pattern.len()
        invariant
            len == text@.len(),
            at + pattern@.len() <= len,
            forall|k: int| 0 <= k < i ==> text@[at + k] == #[trigger] pattern@[k],
    {
        if text[at + i] != pattern[i] {
            assert(text@.subrange(at as int, at + pattern@.len())[i as int] == text@[at + i]);
            return false;
        }
    }
    assert(text@.subrange(at as int, at + pattern@.len()) =~= pattern@);
    true
}

/// Maps the file of a test's input to the file for its outcome, in a subdirectory of its own: for
/// example `bla.wasm` and `transformXYZ` to `outputs/transformXYZ/bla.wasm`.
pub fn output_file(test_input_file: &str, output_subdir: &str) -> (file: String)
    ensures
        file@ == output_path(test_input_file@, output_subdir@),
{
    let text = chars_of(test_input_file);
    let pattern = chars_of("inputs/");
    proof {
        reveal_strlit("inputs/");
    }
    let mut dir = "outputs/".to_owned();
    dir.append(output_subdir);
    dir.append("/");
    let mut file = String::new();
    let mut found = false;
    let mut i: usize = 0;
    assert(file@ + replaced(text@, pattern@, dir@, 0) =~= replaced(text@, pattern@, dir@, 0));
    while i < text.len()
        invariant
            i <= text@.len(),
            pattern@.len() > 0,
            file@ + replaced(text@, pattern@, dir@, i as int) == replaced(text@, pattern@, dir@, 0),
            found ==> occurs(text@, pattern@),
            !found ==> forall|at: int| at < i ==> !#[trigger] occurs_at(text@, pattern@, at),
        decreases text@.len() - i,
    {
        let ghost before = file@;
        if stands_at(&text, &pattern, i) {
            file.append(dir.as_str());
            assert(before + (dir@ + replaced(text@, pattern@, dir@, i + pattern@.len())) =~= file@
                + replaced(text@, pattern@, dir@, i + pattern@.len()));
            found = true;
            i = i + pattern.len();
        } else {
            file.push(text[i]);
            assert(before + (seq![text@[i as int]] + replaced(text@, pattern@, dir@, i + 1)) =~= file@
                + replaced(text@, pattern@, dir@, i + 1));
            i = i + 1;
        }
    }
    if found {
        assert(file@ + replaced(text@, pattern@, dir@, i as int) =~= file@);
        file
    } else {
        assert forall|at: int| !#[trigger] occurs_at(text@, pattern@, at) by {}
        dir.append(test_input_file);
        dir
    }
}

/// All files with the extension of WebAssembly modules are found, and nothing else: no directory, and
/// no other file.
pub proof fn law_exactly_the_wasm_files<P>(entries: Seq<Result<FoundEntry<P>, String>>, path: P)
    ensures
        wasm_paths(entries).contains(path) <==> exists|i: int|
            #![trigger entries[i]]
            0 <= i < entries.len() && (entries[i] matches Ok(entry) && entry.path == path && !entry.is_dir
                && (entry.extension matches Some(extension) && extension@ == "wasm"@)),
    decreases entries.len(),
{
    let paths = wasm_paths(entries);
    if entries.len() > 0 {
        let fewer = entries.drop_last();
        let before = wasm_paths(fewer);
        let last = entries.last();
        law_exactly_the_wasm_files(fewer, path);
        if paths.contains(path) {
            let k = choose|k: int| 0 <= k < paths.len() && paths[k] == path;
            if k < before.len() {
                assert(before[k] == path);
                let i = choose|i: int|
                    #![trigger fewer[i]]
                    0 <= i < fewer.len() && fewer[i] is Ok && is_wasm(fewer[i]->Ok_0)
                        && fewer[i]->Ok_0.path == path;
                assert(entries[i] == fewer[i]);
            } else {
                assert(entries[entries.len() - 1] == last);
            }
        }
        if exists|i: int|
            #![trigger entries[i]]
            0 <= i < entries.len() && entries[i] is Ok && is_wasm(entries[i]->Ok_0)
                && entries[i]->Ok_0.path == path {
            let i = choose|i: int|
                #![trigger entries[i]]
                0 <= i < entries.len() && entries[i] is Ok && is_wasm(entries[i]->Ok_0)
                    && entries[i]->Ok_0.path == path;
            if i < fewer.len() {
                assert(fewer[i] == entries[i]);
                let k = choose|k: int| 0 <= k < before.len() && before[k] == path;
                assert(paths[k] == path);
            } else {
                assert(paths[before.len() as int] == path);
            }
        }
    }
}

/// Where the pattern does not occur any more, nothing is replaced.
proof fn lemma_nothing_to_replace(text: Seq<char>, pattern: Seq<char>, by: Seq<char>, from: int)
    requires
        0 <= from <= text.len(),
        forall|at: int| from <= at ==> !#[trigger] occurs_at(text, pattern, at),
    ensures
        replaced(text, pattern, by, from) == text.skip(from),
    decreases text.len() - from,
{
    if from < text.len() {
        lemma_nothing_to_replace(text, pattern, by, from + 1);
        assert(text.skip(from) =~= seq![text[from]] + text.skip(from + 1));
    } else {
        assert(text.skip(from) =~= seq![]);
    }
}

/// Up to the next occurrence of the pattern, nothing is replaced.
proof fn lemma_replaced_up_to(text: Seq<char>, pattern: Seq<char>, by: Seq<char>, from: int, next: int)
    requires
        0 <= from <= next <= text.len(),
        forall|at: int| from <= at < next ==> !#[trigger] occurs_at(text, pattern, at),
    ensures
        replaced(text, pattern, by, from) == text.subrange(from, next) + replaced(
            text,
            pattern,
            by,
            next,
        ),
    decreases next - from,
{
    let rest = replaced(text, pattern, by, next);
    if from < next {
        lemma_replaced_up_to(text, pattern, by, from + 1, next);
        assert(text.subrange(from, next) + rest =~= seq![text[from]] + (text.subrange(from + 1, next)
            + rest));
    } else {
        assert(text.subrange(from, next) + rest =~= rest);
    }
}

/// The directory for inputs, where it occurs once in the path of an input, gives way to the
/// directory for outcomes; all else of the path is kept.
pub proof fn law_input_directory_gives_way(before: Seq<char>, after: Seq<char>, output_subdir: Seq<char>)
    requires
        ({
            let input = before + "inputs/"@ + after;
            &&& forall|at: int| at < before.len() ==> !#[trigger] occurs_at(input, "inputs/"@, at)
            &&& !occurs(after, "inputs/"@)
        }),
    ensures
        output_path(before + "inputs/"@ + after, output_subdir) == before + ("outputs/"@ + output_subdir
            + "/"@) + after,
{
    let pattern = "inputs/"@;
    reveal_strlit("inputs/");
    let input = before + pattern + after;
    let by = output_dir(output_subdir);
    let next = before.len() as int;
    let rest = next + pattern.len();
    assert(input.subrange(next, rest) =~= pattern);
    assert(occurs_at(input, pattern, next));
    lemma_replaced_up_to(input, pattern, by, 0, next);
    assert forall|at: int| rest <= at implies !#[trigger] occurs_at(input, pattern, at) by {
        if occurs_at(input, pattern, at) {
            assert(input.subrange(at, at + pattern.len()) =~= after.subrange(
                at - rest,
                at - rest + pattern.len(),
            ));
            assert(occurs_at(after, pattern, at - rest));
        }
    }
    lemma_nothing_to_replace(input, pattern, by, rest);
    assert(input.skip(rest) =~= after);
    assert(input.subrange(0, next) =~= before);
    assert(before + (by + after) =~= before + by + after);
}

/// The files are found in the order in which they were come across: those among the first entries come
/// first, and those among the others follow; and of a single entry nothing but its path is found.
pub proof fn law_wasm_files_come_in_order<P>(
    first: Seq<Result<FoundEntry<P>, String>>,
    others: Seq<Result<FoundEntry<P>, String>>,
)
    ensures
        wasm_paths(first + others) == wasm_paths(first) + wasm_paths(others),
        others.len() == 1 ==> wasm_paths(others).len() <= 1,
    decreases others.len(),
{
    if others.len() == 0 {
        assert(first + others =~= first);
        assert(wasm_paths(first) + wasm_paths(others) =~= wasm_paths(first));
    } else {
        let fewer = others.drop_last();
        law_wasm_files_come_in_order(first, fewer);
        assert((first + others).drop_last() =~= first + fewer);
        assert(wasm_paths(first + others) =~= wasm_paths(first) + wasm_paths(others));
        if others.len() == 1 {
            assert(fewer =~= seq![]);
            assert(wasm_paths(fewer).len() == 0);
        }
    }
}

proof fn lemma_replaced_shift(text: Seq<char>, pattern: Seq<char>, by: Seq<char>, from: int, k: int)
    requires
        0 <= k <= from,
        k <= text.len(),
    ensures
        replaced(text, pattern, by, from) == replaced(text.skip(k), pattern, by, from - k),
    decreases text.len() - from,
{
    if from < text.len() {
        let rest = text.skip(k);
        assert(occurs_at(text, pattern, from) == occurs_at(rest, pattern, from - k)) by {
            if from + pattern.len() <= text.len() {
                assert(text.subrange(from, from + pattern.len()) =~= rest.subrange(
                    from - k,
                    from - k + pattern.len(),
                ));
            }
        }
        lemma_replaced_shift(text, pattern, by, from + 1, k);
        if pattern.len() > 0 && occurs_at(text, pattern, from) {
            lemma_replaced_shift(text, pattern, by, from + pattern.len(), k);
        }
    }
}

/// Wherever the directory for inputs occurs in the path of an input, it gives way to the directory for
/// outcomes: at its first occurrence, and again in what follows behind that; all else of the path is kept.
pub proof fn law_each_input_directory_gives_way(before: Seq<char>, after: Seq<char>, output_subdir: Seq<char>)
    requires
        forall|at: int|
            at < before.len() ==> !#[trigger] occurs_at(before + "inputs/"@ + after, "inputs/"@, at),
    ensures
        output_path(before + "inputs/"@ + after, output_subdir) == before + ("outputs/"@ + output_subdir
            + "/"@) + if occurs(after, "inputs/"@) {
            output_path(after, output_subdir)
        } else {
            after
        },
{
    let pattern = "inputs/"@;
    reveal_strlit("inputs/");
    let input = before + pattern + after;
    let by = output_dir(output_subdir);
    let next = before.len() as int;
    let rest = next + pattern.len();
    assert(input.subrange(next, rest) =~= pattern);
    assert(occurs_at(input, pattern, next));
    lemma_replaced_up_to(input, pattern, by, 0, next);
    lemma_replaced_shift(input, pattern, by, rest, rest);
    assert(input.skip(rest) =~= after);
    assert(input.subrange(0, next) =~= before);
    if !occurs(after, pattern) {
        assert forall|at: int| 0 <= at implies !#[trigger] occurs_at(after, pattern, at) by {}
        lemma_nothing_to_replace(after, pattern, by, 0);
        assert(after.skip(0) =~= after);
    }
    let tail = replaced(after, pattern, by, 0);
    assert(before + (by + tail) =~= before + by + tail);
}

/// A path without the directory for inputs is kept whole, inside of the directory for outcomes.
pub proof fn law_other_paths_are_kept(input: Seq<char>, output_subdir: Seq<char>)
    requires
        !occurs(input, "inputs/"@),
    ensures
        output_path(input, output_subdir) == "outputs/"@ + output_subdir + "/"@ + input,
{
}

/// A file passes exactly if the validator could be run and succeeded. Where it could not be run, the reason
/// for that is given as it is. Where it rejects the file, what is said names the file on the first line,
/// and what the validator wrote follows whole from the second line on.
pub proof fn law_objections_name_file_and_reason(path: Seq<char>, output: Result<ValidatorOutput, String>)
    ensures
        objection(path, output) is None <==> (output matches Ok(output) && output.success),
        output matches Err(error) ==> objection(path, output) == Some(error@),
        output matches Ok(output) ==> !output.success ==> {
            let words = "invalid wasm file "@;
            let reason = utf8_lossy(output.stderr@);
            let message = objection(path, Ok(output))->0;
            let end = words.len() + path.len();
            &&& message.len() == end + 1 + reason.len()
            &&& message.take(words.len() as int) == words
            &&& message.subrange(words.len() as int, end as int) == path
            &&& message[end as int] == '\n'
            &&& message.skip((end + 1) as int) == reason
        },
{
    if let Ok(output) = output {
        if !output.success {
            let words = "invalid wasm file "@;
            let reason = utf8_lossy(output.stderr@);
            let message = objection(path, Ok(output))->0;
            let end = words.len() + path.len();
            reveal_strlit("\n");
            assert(message.take(words.len() as int) =~= words);
            assert(message.subrange(words.len() as int, end as int) =~= path);
            assert(message.skip((end + 1) as int) =~= reason);
        }
    }
}

} // verus!
