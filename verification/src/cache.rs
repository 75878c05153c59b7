//! The on-disk cache of fixtures: where a project's cache lives, how each
//! source's file is named, which files hold package fixtures, and how the
//! cached lists are merged.

use vstd::prelude::*;
use crate::fixtures::{Fixture, FixtureView, fixture_views};
use crate::text::{chars_of, concat_chars, join_path, joined_path, last_index, string_of};

verus! {

/// The hash that std's `DefaultHasher` gives a string.
pub uninterp spec fn str_hash(s: Seq<char>) -> u64;

/// `BuildHasher::hash_one` with std's unseeded `DefaultHasher`: the same as
/// a fresh `DefaultHasher::new()` fed the string and then `finish()`ed.
/// Within one build of the program equal strings hash alike; the value
/// itself is not stated.
#[verifier::external_body]
fn default_hash(s: &str) -> (h: u64)
    ensures
        h == str_hash(s@),
{
    std::hash::BuildHasher::hash_one(
        &std::hash::BuildHasherDefault::<std::hash::DefaultHasher>::default(),
        s,
    )
}

/// The sixteen lower-case hexadecimal digits.
pub open spec fn hex_digits() -> Seq<char> {
    seq!['0', '1', '2', '3', '4', '5', '6', '7', '8', '9', 'a', 'b', 'c', 'd', 'e', 'f']
}

/// A number in lower-case hexadecimal without leading zeros, as
/// `format!("{:x}", n)` writes it.
pub open spec fn lower_hex(n: nat) -> Seq<char>
    decreases n,
{
    if n < 16 {
        seq![hex_digits()[n as int]]
    } else {
        lower_hex(n / 16).push(hex_digits()[(n % 16) as int])
    }
}

fn push_hex(n: u64, out: &mut Vec<char>)
    ensures
        final(out)@ == old(out)@ + lower_hex(n as nat),
    decreases n,
{
    let digits = vec!['0', '1', '2', '3', '4', '5', '6', '7', '8', '9', 'a', 'b', 'c', 'd', 'e', 'f'];
    assert(digits@ =~= hex_digits());
    if n >= 16 {
        push_hex(n / 16, out);
    }
    out.push(digits[(n % 16) as usize]);
    assert(out@ =~= old(out)@ + lower_hex(n as nat));
}

/// A number in lower-case hexadecimal.
pub fn to_lower_hex(n: u64) -> (s: String)
    ensures
        s@ == lower_hex(n as nat),
{
    let mut v: Vec<char> = Vec::new();
    push_hex(n, &mut v);
    assert(v@ =~= lower_hex(n as nat));
    string_of(v.as_slice())
}

/// The lower-case hexadecimal text of a string's std hash.
pub fn hash_str(s: &str) -> (r: String)
    ensures
        r@ == lower_hex(str_hash(s@) as nat),
{
    to_lower_hex(default_hash(s))
}


/// The directory under the home directory that holds the caches.
pub open spec fn cache_root() -> Seq<char> {
    ".cache/pytest-fixtures-lsp"@
}

/// The directory that holds a project's cached fixtures:
/// `<home>/.cache/pytest-fixtures-lsp/<hash of the root>`, with `/tmp` for
/// a missing home directory.
pub open spec fn project_dir_of(home: Option<Seq<char>>, root_dir: Seq<char>) -> Seq<char> {
    let base = match home {
        Some(h) => h,
        None => "/tmp"@,
    };
    joined_path(joined_path(base, cache_root()), lower_hex(str_hash(root_dir) as nat))
}

/// The cache directory of a project, given the `HOME` variable where it is
/// set.
pub fn project_dir(home: Option<&str>, root_dir: &str) -> (r: String)
    ensures
        r@ == project_dir_of(
            match home {
                Some(h) => Some(h@),
                None => None,
            },
            root_dir@,
        ),
{
    proof {
        reveal_strlit(".cache/pytest-fixtures-lsp");
    }
    let base = match home {
        Some(h) => h,
        None => "/tmp",
    };
    let dir = join_path(base, ".cache/pytest-fixtures-lsp");
    let hash = hash_str(root_dir);
    join_path(dir.as_str(), hash.as_str())
}

/// `c` is a lower-case hexadecimal digit.
pub open spec fn hash_digit(c: char) -> bool {
    ('0' <= c && c <= '9') || ('a' <= c && c <= 'f')
}

pub proof fn lemma_lower_hex_chars(n: nat)
    ensures
        lower_hex(n).len() > 0,
        forall|k: int| 0 <= k < lower_hex(n).len() ==> hash_digit(#[trigger] lower_hex(n)[k]),
    decreases n,
{
    let d = hex_digits();
    assert(forall|k: int| 0 <= k < 16 ==> hash_digit(#[trigger] d[k]));
    if n >= 16 {
        lemma_lower_hex_chars(n / 16);
    }
}

/// `"global"`, the source of the fixtures that every package sees.
pub open spec fn global_source() -> Seq<char> {
    "global"@
}

/// The name of the cache file of a source: `global.json` for the global
/// source, else the hash of the source in hexadecimal, then `.json`.
pub open spec fn cache_file_name_of(source: Seq<char>) -> Seq<char> {
    if source == global_source() {
        "global.json"@
    } else {
        lower_hex(str_hash(source) as nat) + ".json"@
    }
}

pub fn cache_file_name(source: &str) -> (r: String)
    ensures
        r@ == cache_file_name_of(source@),
{
    let src = chars_of(source);
    let global = chars_of("global");
    if same_chars(src.as_slice(), global.as_slice()) {
        "global.json".to_string()
    } else {
        let h = chars_of(hash_str(source).as_str());
        let ext = chars_of(".json");
        let v = concat_chars(h.as_slice(), ext.as_slice());
        string_of(v.as_slice())
    }
}

/// Whether two slices hold the same characters.
pub fn same_chars(a: &[char], b: &[char]) -> (r: bool)
    ensures
        r == (a@ == b@),
{
    if a.len() != b.len() {
        return false;
    }
    let mut k: usize = 0;
    while k < a.len()
        invariant
            k <= a@.len() == b@.len(),
            forall|j: int| 0 <= j < k ==> a@[j] == b@[j],
        decreases a@.len() - k,
    {
        if a[k] != b[k] {
            return false;
        }
        k = k + 1;
    }
    assert(a@ =~= b@);
    true
}

/// The path of a source's cache file in a project's cache directory.
pub fn cache_file_path(home: Option<&str>, root_dir: &str, source: &str) -> (r: String)
    ensures
        r@ == joined_path(
            project_dir_of(
                match home {
                    Some(h) => Some(h@),
                    None => None,
                },
                root_dir@,
            ),
            cache_file_name_of(source@),
        ),
{
    let dir = project_dir(home, root_dir);
    let name = cache_file_name(source);
    join_path(dir.as_str(), name.as_str())
}

/// A cache file of a package, as the loader tells it by its file name: its
/// extension (after the last `.`, where the part before is not empty) is
/// `json` and its stem is not `global`.
pub open spec fn is_package_cache(file_name: Seq<char>) -> bool {
    &&& file_name != ".."@
    &&& last_index(file_name, '.') matches Some(i)
    &&& i > 0
    &&& file_name.skip(i + 1) == "json"@
    &&& file_name.take(i) != global_source()
}

pub fn is_package_cache_file(file_name: &str) -> (r: bool)
    ensures
        r == is_package_cache(file_name@),
{
    let name = chars_of(file_name);
    let dots = chars_of("..");
    if same_chars(name.as_slice(), dots.as_slice()) {
        return false;
    }
    let mut i: usize = name.len();
    assert(name@.take(i as int) =~= name@);
    while i > 0 && name[i - 1] != '.'
        invariant
            i <= name@.len(),
            last_index(name@, '.') == last_index(name@.take(i as int), '.'),
        decreases i,
    {
        assert(name@.take(i as int).drop_last() =~= name@.take(i - 1));
        i = i - 1;
    }
    if i <= 1 {
        proof {
            if i == 1 {
                assert(name@.take(1).last() == '.');
            }
        }
        return false;
    }
    assert(name@.take(i as int).last() == '.');
    let json = chars_of("json");
    let global = chars_of("global");
    let ext = &name.as_slice()[i..name.len()];
    let stem = &name.as_slice()[0..i - 1];
    same_chars(ext, json.as_slice()) && !same_chars(stem, global.as_slice())
}

/// The fixtures of several lists, in order, with only the first fixture of
/// each name kept.
pub open spec fn first_of_each_name(fs: Seq<FixtureView>) -> Seq<FixtureView>
    decreases fs.len(),
{
    if fs.len() == 0 {
        seq![]
    } else if exists|j: int| 0 <= j < fs.len() - 1 && #[trigger] fs[j].name == fs.last().name {
        first_of_each_name(fs.drop_last())
    } else {
        first_of_each_name(fs.drop_last()).push(fs.last())
    }
}


/// Some fixture of `fs` has the name `x`.
pub open spec fn has_name(fs: Seq<FixtureView>, x: Seq<char>) -> bool {
    exists|j: int| 0 <= j < fs.len() && #[trigger] fs[j].name == x
}

/// The views of a list of fixture lists.
pub open spec fn group_views(gs: Seq<Vec<Fixture>>) -> Seq<Seq<FixtureView>> {
    gs.map_values(|g: Vec<Fixture>| fixture_views(g@))
}

/// Keeping the first fixture of each name loses no name.
pub proof fn lemma_first_of_each_name_names(fs: Seq<FixtureView>, x: Seq<char>)
    ensures
        has_name(first_of_each_name(fs), x) == has_name(fs, x),
    decreases fs.len(),
{
    if fs.len() > 0 {
        let prev = fs.drop_last();
        let last = fs.last();
        let p = first_of_each_name(prev);
        let r = first_of_each_name(fs);
        lemma_first_of_each_name_names(prev, x);
        if has_name(prev, x) {
            let j = choose|j: int| 0 <= j < prev.len() && #[trigger] prev[j].name == x;
            assert(fs[j].name == x);
        }
        if has_name(fs, x) && last.name != x {
            let j = choose|j: int| 0 <= j < fs.len() && #[trigger] fs[j].name == x;
            assert(prev[j].name == x);
        }
        if exists|i: int| 0 <= i < fs.len() - 1 && #[trigger] fs[i].name == fs.last().name {
            assert(r == p);
            if last.name == x {
                let i = choose|i: int| 0 <= i < fs.len() - 1 && #[trigger] fs[i].name == fs.last().name;
                assert(prev[i].name == x);
            }
        } else {
            assert(r == p.push(last));
            if has_name(p, x) {
                let j = choose|j: int| 0 <= j < p.len() && #[trigger] p[j].name == x;
                assert(r[j].name == x);
            }
            if last.name == x {
                assert(r[r.len() - 1].name == x);
            }
            if has_name(r, x) && last.name != x {
                let j = choose|j: int| 0 <= j < r.len() && #[trigger] r[j].name == x;
                assert(j < r.len() - 1);
                assert(p[j].name == x);
            }
        }
    }
}

fn copy_fixture(f: &Fixture) -> (r: Fixture)
    ensures
        r@ == f@,
{
    Fixture {
        name: f.name.clone(),
        scope: f.scope.clone(),
        docstring: f.docstring.clone(),
        return_type: match &f.return_type {
            Some(t) => Some(t.clone()),
            None => None,
        },
        location: f.location.clone(),
    }
}

fn name_taken(all: &Vec<Fixture>, name: &String) -> (b: bool)
    ensures
        b == has_name(fixture_views(all@), name@),
{
    let mut k: usize = 0;
    while k < all.len()
        invariant
            k <= all@.len(),
            forall|j: int| 0 <= j < k ==> all@[j].name@ != name@,
        decreases all@.len() - k,
    {
        if all[k].name == *name {
            assert(fixture_views(all@)[k as int].name == name@);
            return true;
        }
        k = k + 1;
    }
    assert forall|j: int| 0 <= j < all@.len() implies #[trigger] fixture_views(all@)[j].name
        != name@ by {
        assert(fixture_views(all@)[j] == all@[j]@);
    }
    false
}

/// The cached fixtures of a project, its lists given in the order in which
/// they are read (the global list first): all their fixtures in that order,
/// keeping only the first fixture of each name.
pub fn merge_cached(sources: &Vec<Vec<Fixture>>) -> (r: Vec<Fixture>)
    ensures
        fixture_views(r@) == first_of_each_name(group_views(sources@).flatten()),
{
    let mut all: Vec<Fixture> = Vec::new();
    let ghost gv = group_views(sources@);
    let ghost mut flat: Seq<FixtureView> = seq![];
    let mut g: usize = 0;
    assert(gv.take(0).flatten_alt() =~= seq![]);
    while g < sources.len()
        invariant
            gv == group_views(sources@),
            g <= sources@.len(),
            flat == gv.take(g as int).flatten_alt(),
            fixture_views(all@) == first_of_each_name(flat),
        decreases sources@.len() - g,
    {
        let group = &sources[g];
        let ghost base = flat;
        let mut k: usize = 0;
        assert(base + fixture_views(group@).take(0) =~= base);
        while k < group.len()
            invariant
                gv == group_views(sources@),
                g < sources@.len(),
                group == sources@[g as int],
                k <= group@.len(),
                flat == base + fixture_views(group@).take(k as int),
                fixture_views(all@) == first_of_each_name(flat),
            decreases group@.len() - k,
        {
            let f = &group[k];
            let taken = name_taken(&all, &f.name);
            proof {
                lemma_first_of_each_name_names(flat, f.name@);
                let next = flat.push(f@);
                assert(next.drop_last() =~= flat);
                if has_name(flat, f.name@) {
                    let j = choose|j: int| 0 <= j < flat.len() && #[trigger] flat[j].name == f.name@;
                    assert(next[j].name == next.last().name);
                }
                assert(first_of_each_name(next) == if taken {
                    first_of_each_name(flat)
                } else {
                    first_of_each_name(flat).push(f@)
                });
                assert(base + fixture_views(group@).take(k + 1) =~= next);
                flat = next;
            }
            if !taken {
                let c = copy_fixture(f);
                all.push(c);
                assert(fixture_views(all@) =~= first_of_each_name(flat));
            }
            k = k + 1;
        }
        proof {
            assert(fixture_views(group@).take(k as int) =~= fixture_views(group@));
            assert(gv.take(g + 1).drop_last() =~= gv.take(g as int));
            assert(gv[g as int] == fixture_views(group@));
        }
        g = g + 1;
    }
    proof {
        assert(gv.take(g as int) =~= gv);
        gv.lemma_flatten_and_flatten_alt_are_equivalent();
    }
    all
}


/// The value of a hexadecimal digit.
pub open spec fn hex_digit_value(c: char) -> nat {
    if '0' <= c && c <= '9' {
        (c as u32 - 48) as nat
    } else {
        (c as u32 - 87) as nat
    }
}

/// The number that a text of hexadecimal digits writes.
pub open spec fn hex_value(s: Seq<char>) -> nat
    decreases s.len(),
{
    if s.len() == 0 {
        0
    } else {
        hex_value(s.drop_last()) * 16 + hex_digit_value(s.last())
    }
}

/// Reading back the hexadecimal text of a number gives the number.
pub proof fn lemma_lower_hex_value(n: nat)
    ensures
        hex_value(lower_hex(n)) == n,
    decreases n,
{
    let d = hex_digits();
    assert(forall|k: int| 0 <= k < 16 ==> hex_digit_value(#[trigger] d[k]) == k);
    if n < 16 {
        assert(lower_hex(n).drop_last() =~= Seq::<char>::empty());
        assert(hex_digit_value(d[n as int]) == n);
        assert(lower_hex(n).last() == d[n as int]);
        assert(hex_value(Seq::<char>::empty()) == 0);
        assert(hex_value(lower_hex(n)) == hex_value(Seq::<char>::empty()) * 16 + n);
    } else {
        lemma_lower_hex_value(n / 16);
        assert(lower_hex(n).drop_last() =~= lower_hex(n / 16));
        assert(hex_digit_value(d[(n % 16) as int]) == n % 16);
        assert(lower_hex(n).last() == d[(n % 16) as int]);
        assert(hex_value(lower_hex(n)) == hex_value(lower_hex(n / 16)) * 16 + (n % 16));
        assert(n == (n / 16) * 16 + n % 16);
    }
}

/// Different numbers have different hexadecimal texts, so different hashes
/// give different cache file names.
pub proof fn lemma_lower_hex_injective(a: nat, b: nat)
    requires
        lower_hex(a) == lower_hex(b),
    ensures
        a == b,
{
    lemma_lower_hex_value(a);
    lemma_lower_hex_value(b);
}

proof fn lemma_last_index_json(stem: Seq<char>)
    requires
        forall|k: int| 0 <= k < stem.len() ==> stem[k] != '.',
    ensures
        last_index(stem + ".json"@, '.') == Some(stem.len() as int),
{
    reveal_strlit(".json");
    assert(".json"@ =~= seq!['.', 'j', 's', 'o', 'n']);
    let s = stem + ".json"@;
    let s1 = stem + seq!['.'];
    let s2 = stem + seq!['.', 'j'];
    let s3 = stem + seq!['.', 'j', 's'];
    let s4 = stem + seq!['.', 'j', 's', 'o'];
    assert(last_index(s1, '.') == Some(stem.len() as int));
    assert(s2.drop_last() =~= s1);
    assert(last_index(s2, '.') == Some(stem.len() as int));
    assert(s3.drop_last() =~= s2);
    assert(last_index(s3, '.') == Some(stem.len() as int));
    assert(s4.drop_last() =~= s3);
    assert(last_index(s4, '.') == Some(stem.len() as int));
    assert(s.drop_last() =~= s4);
}

/// What the saver writes is what the loader takes for a package's cache:
/// the cache file of a source counts as a package file exactly when the
/// source is not the global one.
pub proof fn lemma_saved_file_is_loaded(source: Seq<char>)
    ensures
        is_package_cache(cache_file_name_of(source)) <==> source != global_source(),
{
    reveal_strlit("global");
    reveal_strlit("global.json");
    reveal_strlit(".json");
    reveal_strlit("json");
    reveal_strlit("..");
    if source == global_source() {
        let stem = "global"@;
        lemma_last_index_json(stem);
        assert("global.json"@ =~= stem + ".json"@);
        assert(("global.json"@).take(6) =~= stem);
    } else {
        let h = lower_hex(str_hash(source) as nat);
        lemma_lower_hex_chars(str_hash(source) as nat);
        let name = h + ".json"@;
        lemma_last_index_json(h);
        assert(name.take(h.len() as int) =~= h);
        assert(name.skip(h.len() as int + 1) =~= "json"@);
        if h == global_source() {
            assert(hash_digit(h[0]));
        }
        if name == ".."@ {
            assert(name.len() == 2);
        }
    }
}

/// Keeping the first fixture of each name leaves no two fixtures with the
/// same name.
pub proof fn lemma_first_of_each_name_distinct(fs: Seq<FixtureView>)
    ensures
        forall|i: int, j: int|
            0 <= i < j < first_of_each_name(fs).len() ==> #[trigger] first_of_each_name(fs)[i].name
                != #[trigger] first_of_each_name(fs)[j].name,
    decreases fs.len(),
{
    if fs.len() > 0 {
        let prev = fs.drop_last();
        lemma_first_of_each_name_distinct(prev);
        let p = first_of_each_name(prev);
        let r = first_of_each_name(fs);
        if !exists|i: int| 0 <= i < fs.len() - 1 && #[trigger] fs[i].name == fs.last().name {
            lemma_first_of_each_name_names(prev, fs.last().name);
            assert forall|i: int, j: int| 0 <= i < j < r.len() implies #[trigger] r[i].name
                != #[trigger] r[j].name by {
                if j == r.len() - 1 {
                    if r[i].name == r[j].name {
                        assert(p[i].name == fs.last().name);
                        assert(has_name(p, fs.last().name));
                        let w = choose|w: int| 0 <= w < prev.len() && #[trigger] prev[w].name
                            == fs.last().name;
                        assert(fs[w].name == fs.last().name);
                    }
                } else {
                    assert(r[i] == p[i] && r[j] == p[j]);
                }
            }
        }
    }
}

/// The merged cache holds each name of the cached lists exactly once.
pub proof fn lemma_merged_names(groups: Seq<Seq<FixtureView>>, x: Seq<char>)
    ensures
        has_name(first_of_each_name(groups.flatten()), x) == has_name(groups.flatten(), x),
        forall|i: int, j: int|
            0 <= i < j < first_of_each_name(groups.flatten()).len() ==> #[trigger] first_of_each_name(
                groups.flatten(),
            )[i].name != #[trigger] first_of_each_name(groups.flatten())[j].name,
{
    lemma_first_of_each_name_names(groups.flatten(), x);
    lemma_first_of_each_name_distinct(groups.flatten());
}

} // verus!
