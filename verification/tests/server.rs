use pytest_fixtures_lsp::fixtures::Fixture;
use pytest_fixtures_lsp::server::{
    completion_entries, completion_entry, hover_markdown, hover_text, is_conftest, is_test_file,
    package_marker, package_search_start, package_step, uri_to_path, word_at, PackageStep,
    SourcedFixture,
};

fn fx(name: &str, scope: &str, doc: &str, rt: Option<&str>, loc: &str) -> Fixture {
    Fixture {
        name: name.to_string(),
        scope: scope.to_string(),
        docstring: doc.to_string(),
        return_type: rt.map(|s| s.to_string()),
        location: loc.to_string(),
    }
}

fn sourced(f: Fixture, source: &str) -> SourcedFixture {
    SourcedFixture { fixture: f, source: source.to_string() }
}

fn word(line: &str, col: usize) -> String {
    let cs: Vec<char> = line.chars().collect();
    word_at(&cs, col).iter().collect()
}

#[test]
fn uri_paths() {
    assert_eq!(uri_to_path("file:///home/a/test_x.py"), "/home/a/test_x.py");
    assert_eq!(uri_to_path("untitled:1"), "untitled:1");
    assert_eq!(uri_to_path("file:/"), "file:/");
}

#[test]
fn test_files() {
    assert!(is_test_file("/a/b/test_thing.py"));
    assert!(is_test_file("/a/b/thing_test.py"));
    assert!(is_test_file("test_x"));
    assert!(!is_test_file("/a/test_dir/conftest.py"));
    assert!(!is_test_file("/a/b/thing_test.pyc"));
    assert!(!is_test_file(""));
    assert!(is_conftest("/a/b/conftest.py"));
    assert!(!is_conftest("/a/b/conftest.pyc"));
}

#[test]
fn words_under_the_cursor() {
    assert_eq!(word("def test_a(tmp_path, capsys):", 13), "tmp_path");
    assert_eq!(word("def test_a(tmp_path, capsys):", 11), "tmp_path");
    assert_eq!(word("def test_a(tmp_path, capsys):", 19), "tmp_path");
    assert_eq!(word("def test_a(tmp_path, capsys):", 20), "");
    assert_eq!(word("abc", 3), "abc");
    assert_eq!(word("", 0), "");
    assert_eq!(word("é x_1", 2), "");
    assert_eq!(word("é x_1", 3), "x_1");
}

#[test]
fn hover_markdown_parts() {
    let f = fx("db", "session", "A database.", Some("Db"), "conftest.py:3");
    assert_eq!(
        hover_markdown(&f, "global"),
        "**db** `[session]`\n\nReturns: `Db`\n\nA database.\n\n*conftest.py:3*"
    );
    let g = fx("x", "function", "", None, "loc");
    assert_eq!(hover_markdown(&g, "pkg"), "**x** `[function]` \u{1F4E6} `pkg`\n\n*loc*");
}

#[test]
fn hover_finds_the_first_fixture_named_by_the_word() {
    let fixtures = vec![
        sourced(fx("tmp_path", "function", "", None, "first"), "global"),
        sourced(fx("tmp_path", "function", "", None, "second"), "global"),
    ];
    let text = "import os\ndef test_a(tmp_path):\n    pass\n";
    let h = hover_text(text, 1, 14, &fixtures).unwrap();
    assert!(h.contains("*first*"));
    assert_eq!(hover_text(text, 0, 2, &fixtures), None);
    assert_eq!(hover_text(text, 7, 0, &fixtures), None);
    assert_eq!(hover_text(text, 1, 21, &fixtures), None);
}

#[test]
fn completion_items() {
    let f = fx("db", "session", "Doc.", Some("Db"), "c.py");
    let c = completion_entry(&f, "global");
    assert_eq!(c.label, "db");
    assert_eq!(c.label_detail.as_deref(), Some(" \u{2192} Db"));
    assert_eq!(c.detail, "pytest [session][global]");
    assert_eq!(c.insert_text, "db: ${1:Db}");
    assert_eq!(c.sort_text, "!0db");
    assert_eq!(c.documentation.as_deref(), Some("Doc.\n\n*c.py*"));
    let g = fx("y", "function", "", None, "l");
    let d = completion_entry(&g, "pkg");
    assert_eq!(d.label_detail, None);
    assert_eq!(d.insert_text, "y: ${1:Any}");
    assert_eq!(d.documentation, None);
}

#[test]
fn completion_offers_global_and_own_package_fixtures() {
    let fixtures = vec![
        sourced(fx("a", "function", "", None, "l"), "global"),
        sourced(fx("b", "function", "", None, "l"), "pkg1"),
        sourced(fx("c", "function", "", None, "l"), "pkg2"),
    ];
    let labels = |p: Option<&str>| -> Vec<String> {
        completion_entries(p, &fixtures).into_iter().map(|c| c.label).collect()
    };
    assert_eq!(labels(None), vec!["a"]);
    assert_eq!(labels(Some("pkg1")), vec!["a", "b"]);
    assert_eq!(labels(Some("pkg2")), vec!["a", "c"]);
}

#[test]
fn package_search_steps() {
    assert_eq!(package_search_start("/root", "/root/pkg/sub/test_a.py").as_deref(), Some("pkg/sub"));
    assert_eq!(package_search_start("/root", "/root//test_a.py").as_deref(), Some(""));
    assert_eq!(package_search_start("/root", "/other/test_a.py"), None);
    assert_eq!(package_marker("/root", "pkg"), "/root/pkg/pyproject.toml");
    assert_eq!(package_marker("/root", ""), "/root/pyproject.toml");
    match package_step("pkg/sub", true) {
        PackageStep::Found(d) => assert_eq!(d, "pkg/sub"),
        other => panic!("{:?}", other),
    }
    match package_step("pkg/sub", false) {
        PackageStep::Check(d) => assert_eq!(d, "pkg"),
        other => panic!("{:?}", other),
    }
    match package_step("pkg", false) {
        PackageStep::Check(d) => assert_eq!(d, ""),
        other => panic!("{:?}", other),
    }
    assert!(matches!(package_step("", true), PackageStep::NotFound));
}
