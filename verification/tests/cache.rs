use pytest_fixtures_lsp::cache::{
    cache_file_name, cache_file_path, hash_str, is_package_cache_file, merge_cached, project_dir,
    to_lower_hex,
};
use pytest_fixtures_lsp::fixtures::Fixture;
use std::hash::{DefaultHasher, Hash, Hasher};

fn std_hash_hex(s: &str) -> String {
    let mut h = DefaultHasher::new();
    s.hash(&mut h);
    format!("{:x}", h.finish())
}

fn fixture(name: &str, location: &str) -> Fixture {
    Fixture {
        name: name.to_string(),
        scope: "function".to_string(),
        docstring: String::new(),
        return_type: None,
        location: location.to_string(),
    }
}

#[test]
fn hex_is_lower_case_without_leading_zeros() {
    assert_eq!(to_lower_hex(0), "0");
    assert_eq!(to_lower_hex(255), "ff");
    assert_eq!(to_lower_hex(0x1000), "1000");
    assert_eq!(to_lower_hex(u64::MAX), "ffffffffffffffff");
    for n in [1u64, 15, 16, 4095, 123456789, u64::MAX - 1] {
        assert_eq!(u64::from_str_radix(&to_lower_hex(n), 16).unwrap(), n);
        assert_eq!(to_lower_hex(n), format!("{:x}", n));
    }
}

#[test]
fn hash_str_matches_std_hasher() {
    assert_eq!(hash_str("/home/me/project"), std_hash_hex("/home/me/project"));
    assert_ne!(hash_str("/home/me/project"), "/home/me/project");
    assert_eq!(hash_str("a"), hash_str("a"));
}

#[test]
fn project_dir_lives_under_the_cache_root() {
    let h = std_hash_hex("/work/repo");
    assert_eq!(project_dir(Some("/home/u"), "/work/repo"), format!("/home/u/.cache/pytest-fixtures-lsp/{}", h));
    assert_eq!(project_dir(None, "/work/repo"), format!("/tmp/.cache/pytest-fixtures-lsp/{}", h));
    assert_eq!(project_dir(Some("/home/u/"), "/work/repo"), format!("/home/u/.cache/pytest-fixtures-lsp/{}", h));
}

#[test]
fn cache_file_names() {
    assert_eq!(cache_file_name("global"), "global.json");
    assert_eq!(cache_file_name("pkg/a"), format!("{}.json", std_hash_hex("pkg/a")));
    let p = cache_file_path(Some("/h"), "/r", "global");
    assert_eq!(p, format!("/h/.cache/pytest-fixtures-lsp/{}/global.json", std_hash_hex("/r")));
}

#[test]
fn package_cache_files_are_json_but_not_global() {
    assert!(is_package_cache_file("abc.json"));
    assert!(is_package_cache_file("a.b.json"));
    assert!(!is_package_cache_file("global.json"));
    assert!(!is_package_cache_file(".json"));
    assert!(!is_package_cache_file("abc.txt"));
    assert!(!is_package_cache_file("json"));
    assert!(!is_package_cache_file(".."));
    assert!(is_package_cache_file("global.x.json"));
}

#[test]
fn saved_files_are_loaded_as_packages_unless_global() {
    for source in ["global", "pkg", "a/b/c", "", "Global"] {
        let name = cache_file_name(source);
        assert_eq!(is_package_cache_file(&name), source != "global");
    }
}

#[test]
fn merge_keeps_the_first_fixture_of_each_name() {
    let global = vec![fixture("a", "g1"), fixture("b", "g2")];
    let pkg1 = vec![fixture("b", "p1"), fixture("c", "p1")];
    let pkg2 = vec![fixture("c", "p2"), fixture("a", "p2"), fixture("d", "p2")];
    let merged = merge_cached(&vec![global, pkg1, pkg2]);
    let got: Vec<(&str, &str)> = merged.iter().map(|f| (f.name.as_str(), f.location.as_str())).collect();
    assert_eq!(got, vec![("a", "g1"), ("b", "g2"), ("c", "p1"), ("d", "p2")]);
    assert!(merge_cached(&vec![]).is_empty());
}

#[test]
fn merged_names_are_distinct_and_complete() {
    let groups = vec![
        vec![fixture("x", "1"), fixture("x", "2")],
        vec![],
        vec![fixture("y", "3"), fixture("x", "4"), fixture("z", "5")],
    ];
    let merged = merge_cached(&groups);
    let mut names: Vec<&str> = merged.iter().map(|f| f.name.as_str()).collect();
    names.sort();
    names.dedup();
    assert_eq!(names.len(), merged.len());
    assert_eq!(names, vec!["x", "y", "z"]);
}
