use pytest_fixtures_lsp::fixtures::{
    extract_return_type, fixtures_from_pytest, parse_fixtures_output, Fixture,
};

#[test]
fn test_parse_basic() {
    let output = r#"
tmp_path [function] -- /usr/lib/python3.12/site-packages/_pytest/tmpdir.py
    Return a temporary directory path object.

capsys [function] -- /usr/lib/python3.12/site-packages/_pytest/capture.py
    Enable text capturing of writes to sys.stdout and sys.stderr.

my_fixture -- conftest.py
    Custom project fixture.
"#;
    let fixtures = parse_fixtures_output(output);
    assert_eq!(fixtures.len(), 3);
    assert_eq!(fixtures[0].name, "tmp_path");
    assert_eq!(fixtures[0].scope, "function");
    assert!(fixtures[0].docstring.contains("temporary directory"));
    assert_eq!(fixtures[2].name, "my_fixture");
    assert_eq!(fixtures[2].location, "conftest.py");
}

fn names(fs: &[Fixture]) -> Vec<String> {
    fs.iter().map(|f| f.name.clone()).collect()
}

#[test]
fn scope_location_and_docstring_are_taken_from_the_block() {
    let output = "noise before\n    ignored doc\nsession_db [session] -- tests/conftest.py:12\n    First line.\n\tSecond line.\nnot indented\n    Returns: Database\n";
    let fs = parse_fixtures_output(output);
    assert_eq!(fs.len(), 1);
    assert_eq!(fs[0].name, "session_db");
    assert_eq!(fs[0].scope, "session");
    assert_eq!(fs[0].location, "tests/conftest.py:12");
    assert_eq!(fs[0].docstring, "First line.\nSecond line.\nReturns: Database");
    assert_eq!(fs[0].return_type.as_deref(), Some("Database"));
}

#[test]
fn default_scope_is_function_and_missing_bracket_keeps_it() {
    let fs = parse_fixtures_output("a -- x.py\nb [module -- y.py\n");
    assert_eq!(names(&fs), vec!["a", "b"]);
    assert_eq!(fs[0].scope, "function");
    assert_eq!(fs[1].scope, "function");
    assert_eq!(fs[1].docstring, "");
    assert_eq!(fs[1].return_type, None);
}

#[test]
fn crlf_line_endings_and_indented_separator_lines() {
    let fs = parse_fixtures_output("_private [class] -- p.py\r\n    doc -- with separator\r\n");
    assert_eq!(names(&fs), vec!["_private", "doc"]);
    assert_eq!(fs[0].scope, "class");
    assert_eq!(fs[0].location, "p.py");
    assert_eq!(fs[0].docstring, "");
    assert_eq!(fs[1].location, "with separator");
}

#[test]
fn lines_that_do_not_start_with_a_letter_are_not_fixtures() {
    let fs = parse_fixtures_output("--- x -- y\n1abc -- z\n=== errors -- here ===\n");
    assert!(fs.is_empty());
}

#[test]
fn one_fixture_per_fixture_line() {
    let output = "a -- 1\nb -- 2\n    doc\nc -- 3\nplain line\nd [s] -- 4";
    let fs = parse_fixtures_output(output);
    let count = output
        .lines()
        .filter(|l| {
            let t = l.trim();
            !t.is_empty()
                && t.contains(" -- ")
                && t.chars().next().map(|c| c.is_ascii_alphabetic() || c == '_').unwrap_or(false)
        })
        .count();
    assert_eq!(fs.len(), count);
    assert_eq!(names(&fs), vec!["a", "b", "c", "d"]);
    for f in &fs {
        let first = f.name.chars().next().unwrap();
        assert!(first.is_ascii_alphabetic() || first == '_');
        assert_eq!(f.docstring.trim(), f.docstring);
    }
}

#[test]
fn return_type_forms() {
    assert_eq!(extract_return_type("Returns: int").as_deref(), Some("int"));
    assert_eq!(extract_return_type("  RETURN TYPE :  pathlib.Path  ").as_deref(), Some("pathlib.Path"));
    assert_eq!(extract_return_type("returns nothing\nReturns:\nreturns: str").as_deref(), Some("str"));
    assert_eq!(extract_return_type("It returns: x"), None);
    assert_eq!(extract_return_type(""), None);
    assert_eq!(extract_return_type("Return value: int"), None);
}

#[test]
fn pytest_runs_that_failed_give_no_fixtures() {
    assert!(fixtures_from_pytest(false, b"a -- b\n").unwrap().is_empty());
    let fs = fixtures_from_pytest(true, b"a -- b\n    Returns: int\n").unwrap();
    assert_eq!(fs.len(), 1);
    assert_eq!(fs[0].name, "a");
    assert_eq!(fs[0].return_type.as_deref(), Some("int"));
}

#[test]
fn misplaced_brackets_give_no_fixtures() {
    assert!(fixtures_from_pytest(true, b"ok -- a\nbad]x[y -- b\n").is_none());
    assert!(fixtures_from_pytest(false, b"ok -- a\nbad]x[y -- b\n").unwrap().is_empty());
}

#[test]
fn invalid_utf8_is_decoded_lossily() {
    let fs = fixtures_from_pytest(true, b"caf\xff -- x.py\n").unwrap();
    assert_eq!(fs.len(), 1);
    assert_eq!(fs[0].name, "caf\u{FFFD}");
}

fn views(fs: &[Fixture]) -> Vec<(String, String, String, Option<String>, String)> {
    fs.iter()
        .map(|f| (f.name.clone(), f.scope.clone(), f.docstring.clone(), f.return_type.clone(), f.location.clone()))
        .collect()
}

#[test]
fn lines_that_carry_nothing_do_not_change_the_parse() {
    let base = "a [session] -- x.py\n    Doc of a.\n    Returns: int\nb -- y.py\n    Doc of b.\n";
    let noisy = "===== header =====\n    stray doc\na [session] -- x.py\n\n    Doc of a.\n===== errors =====\n    Returns: int\nb -- y.py\n\n    Doc of b.\n\n";
    assert_eq!(views(&parse_fixtures_output(base)), views(&parse_fixtures_output(noisy)));
    let dropped = "b -- y.py\n    Doc of b.\n";
    let with_prefix = "junk\n    more junk\nb -- y.py\n    Doc of b.\n";
    assert_eq!(views(&parse_fixtures_output(dropped)), views(&parse_fixtures_output(with_prefix)));
}

#[test]
fn a_listing_cut_at_a_fixture_line_parses_as_its_parts() {
    let a = "a -- x.py\n    Doc.\n\n";
    let b = "b [module] -- y.py\n    Returns: str\n";
    let whole = format!("{}{}", a, b);
    let mut joined = parse_fixtures_output(a);
    joined.extend(parse_fixtures_output(b));
    assert_eq!(views(&parse_fixtures_output(&whole)), views(&joined));
    let mut from_empty = parse_fixtures_output("");
    from_empty.extend(parse_fixtures_output(b));
    assert_eq!(views(&parse_fixtures_output(b)), views(&from_empty));
}

#[test]
fn return_type_is_one_trimmed_line_of_the_docstring() {
    let doc = "Gives a thing.\nReturns:   Dict[str, int]  \nMore.";
    let t = extract_return_type(doc).unwrap();
    assert_eq!(t, "Dict[str, int]");
    assert!(!t.contains('\n'));
    assert_eq!(t.trim(), t);
    assert!(doc.contains(&t));
}
