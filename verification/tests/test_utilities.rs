//! Helpers for tests on files.
use wasm_hooks::test_utilities::{
    invalid_file_message, output_file, wasm_files, wasm_validate, FoundEntry, ValidatorOutput,
};

fn run(success: bool, stderr: &[u8]) -> Result<ValidatorOutput, String> {
    Ok(ValidatorOutput { success, stderr: stderr.to_vec() })
}

#[test]
fn valid_file() {
    assert_eq!(wasm_validate("a.wasm", run(true, b"ignored")), Ok(()));
}

#[test]
fn invalid_file() {
    assert_eq!(
        wasm_validate("dir/a.wasm", run(false, "b\u{e4}d magic".as_bytes())),
        Err("invalid wasm file dir/a.wasm\nb\u{e4}d magic".to_string())
    );
}

#[test]
fn error_that_is_no_text() {
    assert_eq!(
        wasm_validate("a.wasm", run(false, &[0x66, 0xff, 0x67])),
        Err("invalid wasm file a.wasm\nf\u{fffd}g".to_string())
    );
}

#[test]
fn validator_that_cannot_be_run() {
    assert_eq!(
        wasm_validate("a.wasm", Err("not found".to_string())),
        Err("not found".to_string())
    );
}

fn entry(path: u32, extension: Option<&str>) -> Result<FoundEntry<u32>, String> {
    Ok(FoundEntry { path, is_dir: false, extension: extension.map(|text| text.to_string()) })
}

#[test]
fn only_wasm_files_are_found() {
    let entries = vec![
        entry(1, None),
        entry(2, Some("wasm")),
        entry(3, Some("wast")),
        entry(4, Some("WASM")),
        entry(5, Some("wasm")),
    ];
    assert_eq!(wasm_files(entries), Ok(vec![2, 5]));
    assert_eq!(wasm_files::<u32>(vec![]), Ok(vec![]));
}

#[test]
fn directories_are_not_files() {
    let found = |path: &str, is_dir: bool, extension: Option<&str>| {
        Ok(FoundEntry {
            path: path.to_string(),
            is_dir,
            extension: extension.map(|text| text.to_string()),
        })
    };
    let entries = vec![
        found("r", true, None),
        found("r/d.wasm", true, Some("wasm")),
        found("r/d.wasm/a.wasm", false, Some("wasm")),
    ];
    assert_eq!(wasm_files(entries), Ok(vec!["r/d.wasm/a.wasm".to_string()]));
}

#[test]
fn message_for_an_invalid_file() {
    assert_eq!(invalid_file_message("a b.wasm", "x\ny"), "invalid wasm file a b.wasm\nx\ny");
    assert_eq!(invalid_file_message("", ""), "invalid wasm file \n");
}

#[test]
fn first_error_is_returned() {
    let entries = vec![
        entry(1, Some("wasm")),
        Err("first".to_string()),
        entry(2, Some("wasm")),
        Err("second".to_string()),
    ];
    assert_eq!(wasm_files(entries), Err("first".to_string()));
}

#[test]
fn outcome_of_a_bare_file() {
    assert_eq!(output_file("bla.wasm", "transformXYZ"), "outputs/transformXYZ/bla.wasm");
}

#[test]
fn outcome_of_a_file_among_the_inputs() {
    assert_eq!(output_file("inputs/bla.wasm", "xyz"), "outputs/xyz/bla.wasm");
    assert_eq!(
        output_file("../tests/inputs/some/dir/bla.wasm", "xyz"),
        "../tests/outputs/xyz/some/dir/bla.wasm"
    );
    assert_eq!(output_file("inputs/a/inputs/b", "o"), "outputs/o/a/outputs/o/b");
    assert_eq!(output_file("inputs", "o"), "outputs/o/inputs");
    assert_eq!(output_file("ininputs/b", "o"), "inoutputs/o/b");
}
