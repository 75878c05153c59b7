//! The fixtures that `pytest --fixtures -q` lists, and the parser of that
//! listing.

use vstd::prelude::*;
use vstd::utf8::{decode_utf8, valid_utf8};
use crate::text::{
    char_index, chars_of, find_char, find_slice, find_sub, is_trimmed, is_white_space,
    lemma_char_index, lemma_find_sub, lemma_lines_in_text, lemma_occurs_in_trans,
    lemma_subrange_occurs, lemma_trim_bounds, lemma_trim_shape, lines, occurs_in, single_line,
    slice_views,
    split_lines, string_of, trim, trim_chars,
};

verus! {

/// One pytest fixture as the server knows it.
#[derive(Debug, Clone)]
pub struct Fixture {
    pub name: String,
    pub scope: String,
    pub docstring: String,
    pub return_type: Option<String>,
    pub location: String,
}

/// The mathematical value of a [`Fixture`]: each text as its characters.
#[verifier::ext_equal]
pub struct FixtureView {
    pub name: Seq<char>,
    pub scope: Seq<char>,
    pub docstring: Seq<char>,
    pub return_type: Option<Seq<char>>,
    pub location: Seq<char>,
}

pub open spec fn opt_string_view(o: Option<String>) -> Option<Seq<char>> {
    match o {
        Some(s) => Some(s@),
        None => None,
    }
}

impl View for Fixture {
    type V = FixtureView;

    open spec fn view(&self) -> FixtureView {
        FixtureView {
            name: self.name@,
            scope: self.scope@,
            docstring: self.docstring@,
            return_type: opt_string_view(self.return_type),
            location: self.location@,
        }
    }
}

/// The views of a sequence of fixtures.
pub open spec fn fixture_views(v: Seq<Fixture>) -> Seq<FixtureView> {
    v.map_values(|f: Fixture| f@)
}

/// The separator between a fixture's name and its location: `" -- "`.
pub open spec fn separator() -> Seq<char> {
    seq![' ', '-', '-', ' ']
}

/// The scope a fixture has when its line names none: `"function"`.
pub open spec fn default_scope() -> Seq<char> {
    seq!['f', 'u', 'n', 'c', 't', 'i', 'o', 'n']
}

pub open spec fn is_ascii_alpha(c: char) -> bool {
    ('a' <= c && c <= 'z') || ('A' <= c && c <= 'Z')
}

/// A line that opens a fixture: `name -- path` or `name [scope] -- path`,
/// after trimming, starting with a letter or `_`.
pub open spec fn is_fixture_line(line: Seq<char>) -> bool {
    let t = trim(line);
    &&& t.len() > 0
    &&& t[0] != ' '
    &&& find_sub(t, separator()) is Some
    &&& (is_ascii_alpha(t[0]) || t[0] == '_')
}

/// A line of a fixture's docstring: indented by four spaces or a tab.
pub open spec fn is_doc_line(line: Seq<char>) -> bool {
    seq![' ', ' ', ' ', ' '].is_prefix_of(line) || (line.len() > 0 && line[0] == '\t')
}

/// Where the separator starts in the trimmed fixture line.
pub open spec fn separator_at(line: Seq<char>) -> int {
    match find_sub(trim(line), separator()) {
        Some(i) => i,
        None => 0,
    }
}

/// The trimmed text before the separator: the name and the bracketed scope.
pub open spec fn name_part(line: Seq<char>) -> Seq<char> {
    trim(trim(line).take(separator_at(line)))
}

/// The trimmed text after the separator.
pub open spec fn header_location(line: Seq<char>) -> Seq<char> {
    trim(trim(line).skip(separator_at(line) + 4))
}

/// The fixture's name: the name part up to its first `[`, trimmed.
pub open spec fn header_name(line: Seq<char>) -> Seq<char> {
    let np = name_part(line);
    match char_index(np, '[') {
        Some(b) => trim(np.take(b)),
        None => np,
    }
}

/// The text between the first `[` and the first `]` of the name part, where
/// the line has both.
pub open spec fn header_scope(line: Seq<char>) -> Option<Seq<char>> {
    let np = name_part(line);
    match (char_index(np, '['), char_index(np, ']')) {
        (Some(b), Some(e)) => Some(np.subrange(b + 1, e)),
        _ => None,
    }
}

/// The name part does not hold a `]` before its first `[`. A fixture line
/// that breaks this has no scope text between its brackets, and the listing
/// is not parsed.
pub open spec fn brackets_ordered(line: Seq<char>) -> bool {
    let np = name_part(line);
    match (char_index(np, '['), char_index(np, ']')) {
        (Some(b), Some(e)) => b < e,
        _ => true,
    }
}

/// The docstring lines of a block, each trimmed, in order.
pub open spec fn doc_lines(body: Seq<Seq<char>>) -> Seq<Seq<char>>
    decreases body.len(),
{
    if body.len() == 0 {
        seq![]
    } else if is_doc_line(body.last()) {
        doc_lines(body.drop_last()).push(trim(body.last()))
    } else {
        doc_lines(body.drop_last())
    }
}

/// Lines joined with `'\n'` between them, as `join("\n")` does.
pub open spec fn join_lines(ls: Seq<Seq<char>>) -> Seq<char>
    decreases ls.len(),
{
    if ls.len() == 0 {
        seq![]
    } else if ls.len() == 1 {
        ls[0]
    } else {
        join_lines(ls.drop_last()) + seq!['\n'] + ls.last()
    }
}

/// The docstring of the block of lines that follows a fixture line.
pub open spec fn docstring_of(body: Seq<Seq<char>>) -> Seq<char> {
    trim(join_lines(doc_lines(body)))
}

/// The character lowered if it is an ASCII capital, as a code point.
pub open spec fn lower_code(c: char) -> u32 {
    if 'A' <= c && c <= 'Z' {
        (c as u32 + 32) as u32
    } else {
        c as u32
    }
}

/// `p` (lower case) begins `t` when the ASCII capitals of `t` are lowered.
/// For the patterns used here this is the same as the lower-cased `t`
/// starting with `p`: no character outside ASCII lower-cases to one of
/// `e n p r s t u y` or the space.
pub open spec fn starts_with_lowered(t: Seq<char>, p: Seq<char>) -> bool {
    p.len() <= t.len() && forall|k: int| 0 <= k < p.len() ==> lower_code(#[trigger] t[k]) == p[k] as u32
}

pub open spec fn returns_word() -> Seq<char> {
    seq!['r', 'e', 't', 'u', 'r', 'n', 's']
}

pub open spec fn return_type_words() -> Seq<char> {
    seq!['r', 'e', 't', 'u', 'r', 'n', ' ', 't', 'y', 'p', 'e']
}

/// A docstring line that introduces the return type.
pub open spec fn announces_return(line: Seq<char>) -> bool {
    starts_with_lowered(trim(line), returns_word()) || starts_with_lowered(
        trim(line),
        return_type_words(),
    )
}

/// What follows the first `:` of a line, trimmed; empty where there is no `:`.
pub open spec fn after_colon(line: Seq<char>) -> Seq<char> {
    match char_index(line, ':') {
        Some(i) => trim(line.skip(i + 1)),
        None => seq![],
    }
}

/// The first line that introduces a return type and names one after a `:`.
pub open spec fn return_type_in(ls: Seq<Seq<char>>) -> Option<Seq<char>>
    decreases ls.len(),
{
    if ls.len() == 0 {
        None
    } else if announces_return(ls[0]) && after_colon(ls[0]).len() > 0 {
        Some(after_colon(ls[0]))
    } else {
        return_type_in(ls.drop_first())
    }
}

/// The return type a docstring states.
pub open spec fn return_type_of(doc: Seq<char>) -> Option<Seq<char>> {
    return_type_in(lines(doc))
}

/// The fixture made of a fixture line and the lines up to the next one.
pub open spec fn block_fixture(header: Seq<char>, body: Seq<Seq<char>>) -> FixtureView {
    FixtureView {
        name: header_name(header),
        scope: match header_scope(header) {
            Some(s) => s,
            None => default_scope(),
        },
        docstring: docstring_of(body),
        return_type: return_type_of(docstring_of(body)),
        location: header_location(header),
    }
}

/// The index of the first fixture line at or after `from`, or the number of
/// lines.
pub open spec fn next_header(ls: Seq<Seq<char>>, from: int) -> int
    decreases ls.len() - from,
{
    if from >= ls.len() {
        ls.len() as int
    } else if is_fixture_line(ls[from]) {
        from
    } else {
        next_header(ls, from + 1)
    }
}

pub proof fn lemma_next_header_bounds(ls: Seq<Seq<char>>, from: int)
    requires
        0 <= from,
    ensures
        from <= ls.len() ==> from <= next_header(ls, from) <= ls.len(),
        next_header(ls, from) < ls.len() ==> is_fixture_line(ls[next_header(ls, from)]),
        forall|j: int| from <= j < next_header(ls, from) ==> !is_fixture_line(#[trigger] ls[j]),
    decreases ls.len() - from,
{
    if from < ls.len() && !is_fixture_line(ls[from]) {
        lemma_next_header_bounds(ls, from + 1);
    }
}

/// The fixtures of the blocks that start at fixture line `h` and after it.
pub open spec fn fixtures_from(ls: Seq<Seq<char>>, h: int) -> Seq<FixtureView>
    decreases ls.len() - h,
{
    if 0 <= h < ls.len() {
        let n = next_header(ls, h + 1);
        proof {
            lemma_next_header_bounds(ls, h + 1);
        }
        seq![block_fixture(ls[h], ls.subrange(h + 1, n))] + fixtures_from(ls, n)
    } else {
        seq![]
    }
}

/// The fixtures of a listing given as lines: one for each fixture line, in
/// order; lines before the first fixture line are ignored.
pub open spec fn parse_lines(ls: Seq<Seq<char>>) -> Seq<FixtureView> {
    fixtures_from(ls, next_header(ls, 0))
}

/// The fixtures listed in the output of `pytest --fixtures -q`.
pub open spec fn parsed_fixtures(output: Seq<char>) -> Seq<FixtureView> {
    parse_lines(lines(output))
}

/// Every fixture line of the output has its brackets in order.
pub open spec fn parsable(output: Seq<char>) -> bool {
    forall|k: int|
        0 <= k < lines(output).len() && is_fixture_line(#[trigger] lines(output)[k])
            ==> brackets_ordered(lines(output)[k])
}


fn separator_chars() -> (v: Vec<char>)
    ensures
        v@ == separator(),
{
    let v = vec![' ', '-', '-', ' '];
    assert(v@ =~= separator());
    v
}

fn ascii_alpha(c: char) -> (b: bool)
    ensures
        b == is_ascii_alpha(c),
{
    ('a' <= c && c <= 'z') || ('A' <= c && c <= 'Z')
}

/// Whether a line opens a fixture.
pub fn fixture_line(line: &[char]) -> (b: bool)
    ensures
        b == is_fixture_line(line@),
{
    let t = trim_chars(line);
    if t.len() == 0 || t[0] == ' ' {
        return false;
    }
    let sep = separator_chars();
    let found = find_slice(t, sep.as_slice());
    found.is_some() && (ascii_alpha(t[0]) || t[0] == '_')
}

/// Whether a line belongs to a docstring.
pub fn doc_line(line: &[char]) -> (b: bool)
    ensures
        b == is_doc_line(line@),
{
    let indent = vec![' ', ' ', ' ', ' '];
    assert(indent@ =~= seq![' ', ' ', ' ', ' ']);
    let spaces = if line.len() >= 4 {
        line[0] == ' ' && line[1] == ' ' && line[2] == ' ' && line[3] == ' '
    } else {
        false
    };
    proof {
        if line@.len() >= 4 {
            assert(spaces == (indent@ =~= line@.subrange(0, 4)));
        }
    }
    spaces || (line.len() > 0 && line[0] == '\t')
}

/// The name, bracketed scope and location of a fixture line; `None` where
/// the name part has a `]` before its first `[`.
fn parse_header(line: &[char]) -> (r: Option<(String, Option<String>, String)>)
    requires
        is_fixture_line(line@),
    ensures
        r is Some <==> brackets_ordered(line@),
        r matches Some((n, sc, loc)) ==> {
            &&& n@ == header_name(line@)
            &&& opt_string_view(sc) == header_scope(line@)
            &&& loc@ == header_location(line@)
        },
{
    let t = trim_chars(line);
    let sep = separator_chars();
    let i = match find_slice(t, sep.as_slice()) {
        Some(i) => i,
        None => {
            return None;
        },
    };
    proof {
        lemma_find_sub(t@, sep@);
    }
    assert(i + 4 <= t@.len());
    assert(t@.len() == t.len());
    let np = trim_chars(&t[0..i]);
    let loc = trim_chars(&t[i + 4..t.len()]);
    assert(np@ == name_part(line@));
    assert(loc@ == header_location(line@));
    proof {
        lemma_char_index(np@, '[');
        lemma_char_index(np@, ']');
    }
    match find_char(np, '[') {
        Some(b) => {
            let name = string_of(trim_chars(&np[0..b]));
            match find_char(np, ']') {
                Some(e) => {
                    if e < b {
                        return None;
                    }
                    let scope = string_of(&np[b + 1..e]);
                    Some((name, Some(scope), string_of(loc)))
                },
                None => Some((name, None, string_of(loc))),
            }
        },
        None => Some((string_of(np), None, string_of(loc))),
    }
}

fn lowered(c: char) -> (n: u32)
    ensures
        n == lower_code(c),
{
    if 'A' <= c && c <= 'Z' {
        c as u32 + 32
    } else {
        c as u32
    }
}

fn starts_lowered(t: &[char], p: &[char]) -> (b: bool)
    ensures
        b == starts_with_lowered(t@, p@),
{
    if p.len() > t.len() {
        return false;
    }
    let mut k: usize = 0;
    while k < p.len()
        invariant
            k <= p@.len() <= t@.len(),
            forall|j: int| 0 <= j < k ==> lower_code(#[trigger] t@[j]) == p@[j] as u32,
        decreases p@.len() - k,
    {
        if lowered(t[k]) != p[k] as u32 {
            return false;
        }
        k = k + 1;
    }
    true
}

fn announces(line: &[char]) -> (b: bool)
    ensures
        b == announces_return(line@),
{
    let t = trim_chars(line);
    let w1 = vec!['r', 'e', 't', 'u', 'r', 'n', 's'];
    let w2 = vec!['r', 'e', 't', 'u', 'r', 'n', ' ', 't', 'y', 'p', 'e'];
    assert(w1@ =~= returns_word());
    assert(w2@ =~= return_type_words());
    starts_lowered(t, w1.as_slice()) || starts_lowered(t, w2.as_slice())
}

fn text_after_colon(line: &[char]) -> (r: &[char])
    ensures
        r@ == after_colon(line@),
{
    proof {
        lemma_char_index(line@, ':');
    }
    match find_char(line, ':') {
        Some(i) => {
            assert(i < line.len());
            trim_chars(&line[i + 1..line.len()])
        },
        None => {
            let e: &[char] = &line[0..0];
            assert(e@ =~= seq![]);
            e
        },
    }
}

fn return_type_of_chars(doc: &[char]) -> (r: Option<String>)
    ensures
        opt_string_view(r) == return_type_of(doc@),
{
    let ls = split_lines(doc);
    let ghost sl = lines(doc@);
    let mut k: usize = 0;
    assert(sl.skip(0) =~= sl);
    while k < ls.len()
        invariant
            sl == lines(doc@),
            slice_views(ls@) == sl,
            k <= ls@.len(),
            return_type_in(sl) == return_type_in(sl.skip(k as int)),
        decreases ls@.len() - k,
    {
        let line = ls[k];
        assert(line@ == sl[k as int]);
        assert(sl.skip(k as int)[0] == sl[k as int]);
        if announces(line) {
            let v = text_after_colon(line);
            if v.len() > 0 {
                assert(sl.skip(k as int).len() > 0);
                assert(return_type_in(sl.skip(k as int)) == Some(after_colon(line@)));
                let found = string_of(v);
                assert(opt_string_view(Some(found)) == Some(found@));
                return Some(found);
            }
        }
        assert(sl.skip(k as int).drop_first() =~= sl.skip(k + 1));
        k = k + 1;
    }
    None
}

/// The return type that a docstring states: the text after the `:` of its
/// first line that starts (ignoring case and indentation) with `returns` or
/// `return type` and has a non-empty text after a `:`.
pub fn extract_return_type(docstring: &str) -> (r: Option<String>)
    ensures
        opt_string_view(r) == return_type_of(docstring@),
{
    let cs = chars_of(docstring);
    return_type_of_chars(cs.as_slice())
}


fn append_chars(v: &mut Vec<char>, s: &[char])
    ensures
        final(v)@ == old(v)@ + s@,
{
    let mut k: usize = 0;
    while k < s.len()
        invariant
            k <= s@.len(),
            v@ == old(v)@ + s@.take(k as int),
        decreases s@.len() - k,
    {
        v.push(s[k]);
        k = k + 1;
        assert(v@ =~= old(v)@ + s@.take(k as int));
    }
    assert(s@.take(s@.len() as int) =~= s@);
}

fn default_scope_string() -> (s: String)
    ensures
        s@ == default_scope(),
{
    let v = vec!['f', 'u', 'n', 'c', 't', 'i', 'o', 'n'];
    assert(v@ =~= default_scope());
    string_of(v.as_slice())
}

/// The fixture of a parsed fixture line whose docstring lines, joined, are
/// `joined`.
fn finish_fixture(name: String, scope: Option<String>, location: String, joined: &Vec<char>) -> (f:
    Fixture)
    ensures
        f@ == (FixtureView {
            name: name@,
            scope: match opt_string_view(scope) {
                Some(s) => s,
                None => default_scope(),
            },
            docstring: trim(joined@),
            return_type: return_type_of(trim(joined@)),
            location: location@,
        }),
{
    let doc = trim_chars(joined.as_slice());
    let docstring = string_of(doc);
    let return_type = return_type_of_chars(doc);
    let scope = match scope {
        Some(s) => s,
        None => default_scope_string(),
    };
    Fixture { name, scope, docstring, return_type, location }
}

proof fn lemma_join_push(x: Seq<Seq<char>>, t: Seq<char>)
    ensures
        join_lines(x.push(t)) == if x.len() == 0 {
            t
        } else {
            join_lines(x) + seq!['\n'] + t
        },
{
    assert(x.push(t).drop_last() =~= x);
    if x.len() == 0 {
        assert(x.push(t)[0] == t);
    }
}

proof fn lemma_doc_lines_step(sl: Seq<Seq<char>>, lo: int, i: int)
    requires
        0 <= lo <= i < sl.len(),
    ensures
        doc_lines(sl.subrange(lo, i + 1)) == if is_doc_line(sl[i]) {
            doc_lines(sl.subrange(lo, i)).push(trim(sl[i]))
        } else {
            doc_lines(sl.subrange(lo, i))
        },
{
    assert(sl.subrange(lo, i + 1).drop_last() =~= sl.subrange(lo, i));
}

proof fn lemma_views_push(v: Seq<Fixture>, f: Fixture)
    ensures
        fixture_views(v.push(f)) == fixture_views(v).push(f@),
{
    assert(fixture_views(v.push(f)) =~= fixture_views(v).push(f@));
}

/// Parses the listing, or gives `None` where a fixture line has a `]`
/// before its first `[`.
fn parse_fixtures_checked(output: &str) -> (r: Option<Vec<Fixture>>)
    ensures
        r is Some <==> parsable(output@),
        r matches Some(v) ==> fixture_views(v@) == parsed_fixtures(output@),
{
    let cs = chars_of(output);
    let ls = split_lines(cs.as_slice());
    let ghost sl = lines(output@);
    let mut fixtures: Vec<Fixture> = Vec::new();
    let mut current: Option<(String, Option<String>, String)> = None;
    let ghost mut h: int = 0;
    let mut doc_text: Vec<char> = Vec::new();
    let mut has_docs = false;
    let mut i: usize = 0;
    proof {
        lemma_next_header_bounds(sl, 0);
    }
    while i < ls.len()
        invariant
            sl == lines(output@),
            slice_views(ls@) == sl,
            i <= ls@.len(),
            forall|k: int|
                0 <= k < i && is_fixture_line(#[trigger] lines(output@)[k]) ==> brackets_ordered(
                    lines(output@)[k],
                ),
            current is None ==> fixture_views(fixtures@) + fixtures_from(
                sl,
                next_header(sl, i as int),
            ) == parsed_fixtures(output@),
            current matches Some((n, sc, loc)) ==> {
                &&& 0 <= h < i
                &&& is_fixture_line(sl[h])
                &&& n@ == header_name(sl[h])
                &&& opt_string_view(sc) == header_scope(sl[h])
                &&& loc@ == header_location(sl[h])
                &&& next_header(sl, h + 1) == next_header(sl, i as int)
                &&& doc_text@ == join_lines(doc_lines(sl.subrange(h + 1, i as int)))
                &&& has_docs == (doc_lines(sl.subrange(h + 1, i as int)).len() > 0)
                &&& fixture_views(fixtures@) + fixtures_from(sl, h) == parsed_fixtures(output@)
            },
        decreases ls@.len() - i,
    {
        let line = ls[i];
        assert(line@ == sl[i as int]);
        if fixture_line(line) {
            assert(next_header(sl, i as int) == i);
            match current {
                Some((n, sc, loc)) => {
                    let f = finish_fixture(n, sc, loc, &doc_text);
                    proof {
                        lemma_next_header_bounds(sl, h + 1);
                        lemma_views_push(fixtures@, f);
                        assert(f@ == block_fixture(sl[h], sl.subrange(h + 1, i as int)));
                        assert(fixtures_from(sl, h) == seq![f@] + fixtures_from(sl, i as int));
                        assert(fixture_views(fixtures@.push(f)) + fixtures_from(sl, i as int)
                            =~= fixture_views(fixtures@) + fixtures_from(sl, h));
                    }
                    fixtures.push(f);
                },
                None => {},
            }
            match parse_header(line) {
                Some((n, sc, loc)) => {
                    current = Some((n, sc, loc));
                    proof {
                        h = i as int;
                        assert(sl.subrange(h + 1, i + 1) =~= Seq::<Seq<char>>::empty());
                    }
                    doc_text = Vec::new();
                    has_docs = false;
                },
                None => {
                    assert(!brackets_ordered(lines(output@)[i as int]));
                    return None;
                },
            }
        } else {
            assert(next_header(sl, i as int) == next_header(sl, i + 1));
            match &current {
                Some(_) => {
                    proof {
                        lemma_doc_lines_step(sl, h + 1, i as int);
                    }
                    if doc_line(line) {
                        let t = trim_chars(line);
                        proof {
                            lemma_join_push(doc_lines(sl.subrange(h + 1, i as int)), t@);
                        }
                        if has_docs {
                            doc_text.push('\n');
                        }
                        append_chars(&mut doc_text, t);
                        has_docs = true;
                    }
                },
                None => {},
            }
        }
        i = i + 1;
    }
    match current {
        Some((n, sc, loc)) => {
            let f = finish_fixture(n, sc, loc, &doc_text);
            proof {
                lemma_next_header_bounds(sl, h + 1);
                lemma_views_push(fixtures@, f);
                assert(f@ == block_fixture(sl[h], sl.subrange(h + 1, i as int)));
                assert(next_header(sl, h + 1) == sl.len());
                assert(fixtures_from(sl, sl.len() as int) =~= seq![]);
                assert(fixtures_from(sl, h) =~= seq![f@]);
                assert(fixture_views(fixtures@.push(f)) =~= parsed_fixtures(output@));
            }
            fixtures.push(f);
        },
        None => {
            assert(fixtures_from(sl, sl.len() as int) =~= seq![]);
            assert(fixture_views(fixtures@) =~= parsed_fixtures(output@));
        },
    }
    Some(fixtures)
}


/// Parses the output of `pytest --fixtures -q` into its fixtures: one for
/// each fixture line, in order, with the scope in brackets (else
/// `"function"`), the location after `" -- "`, the indented lines up to the
/// next fixture line as docstring, and the return type that docstring states.
pub fn parse_fixtures_output(output: &str) -> (r: Vec<Fixture>)
    requires
        parsable(output@),
    ensures
        fixture_views(r@) == parsed_fixtures(output@),
{
    match parse_fixtures_checked(output) {
        Some(v) => v,
        None => Vec::new(),
    }
}

/// The text that `String::from_utf8_lossy` makes of some bytes.
pub uninterp spec fn lossy_text(bytes: Seq<u8>) -> Seq<char>;

/// `String::from_utf8_lossy`, made owned: the bytes decoded as UTF-8, each
/// invalid sequence replaced by U+FFFD. Stated: the result is the named
/// text of the bytes, and valid UTF-8 decodes to exactly its characters.
/// Not stated: which characters an invalid sequence becomes.
#[verifier::external_body]
fn decode_lossy(bytes: &[u8]) -> (s: String)
    ensures
        s@ == lossy_text(bytes@),
        valid_utf8(bytes@) ==> s@ == decode_utf8(bytes@),
{
    String::from_utf8_lossy(bytes).into_owned()
}

/// The fixtures of one run of `pytest --fixtures -q`: none where the run
/// failed, else those parsed from its standard output. Where a fixture line
/// holds a `]` before its first `[`, the listing gives no answer (`None`),
/// so that the fixtures known before stay in place.
pub fn fixtures_from_pytest(succeeded: bool, stdout: &[u8]) -> (r: Option<Vec<Fixture>>)
    ensures
        !succeeded ==> (r matches Some(v) && v@.len() == 0),
        succeeded ==> (r is Some <==> parsable(lossy_text(stdout@))),
        succeeded ==> (r matches Some(v) ==> fixture_views(v@) == parsed_fixtures(
            lossy_text(stdout@),
        )),
        succeeded && valid_utf8(stdout@) ==> (r matches Some(v) ==> fixture_views(v@)
            == parsed_fixtures(decode_utf8(stdout@))),
{
    if !succeeded {
        return Some(Vec::new());
    }
    let text = decode_lossy(stdout);
    parse_fixtures_checked(text.as_str())
}


/// A fixture line is refused only for a `]` before the first `[` of its name
/// part. Where the name part has no `[`, or no `]`, or its first `[` comes
/// before its first `]`, the line is accepted; in the last case its scope is
/// the text between the two brackets, whatever that text holds.
pub proof fn lemma_only_misplaced_bracket_refused(line: Seq<char>)
    ensures
        char_index(name_part(line), '[') is None ==> brackets_ordered(line) && header_scope(line)
            is None,
        char_index(name_part(line), ']') is None ==> brackets_ordered(line) && header_scope(line)
            is None,
        char_index(name_part(line), '[') is Some && char_index(name_part(line), ']') is Some ==> {
            let b = char_index(name_part(line), '[')->0;
            let e = char_index(name_part(line), ']')->0;
            &&& brackets_ordered(line) <==> b < e
            &&& b < e ==> header_scope(line) == Some(name_part(line).subrange(b + 1, e))
        },
{
}

/// A listing is parsed unless one of its fixture lines has a `]` before the
/// first `[` of its name part.
pub proof fn lemma_parsable_unless_bracket_misplaced(output: Seq<char>)
    ensures
        parsable(output) <==> forall|k: int|
            0 <= k < lines(output).len() && is_fixture_line(#[trigger] lines(output)[k]) ==> !(
            char_index(name_part(lines(output)[k]), '[') is Some && char_index(
                name_part(lines(output)[k]),
                ']',
            ) is Some && char_index(name_part(lines(output)[k]), ']')->0 < char_index(
                name_part(lines(output)[k]),
                '[',
            )->0),
{
    assert forall|k: int| 0 <= k < lines(output).len() implies brackets_ordered(
        #[trigger] lines(output)[k],
    ) == !(char_index(name_part(lines(output)[k]), '[') is Some && char_index(
        name_part(lines(output)[k]),
        ']',
    ) is Some && char_index(name_part(lines(output)[k]), ']')->0 < char_index(
        name_part(lines(output)[k]),
        '[',
    )->0) by {
        let l = lines(output)[k];
        lemma_char_index(name_part(l), '[');
        lemma_char_index(name_part(l), ']');
        if char_index(name_part(l), '[') is Some && char_index(name_part(l), ']') is Some {
            let b = char_index(name_part(l), '[')->0;
            let e = char_index(name_part(l), ']')->0;
            if b == e {
                assert(name_part(l)[b] == '[');
            }
        }
    }
}

/// A line that introduces a return type and names one after its `:`.
pub open spec fn names_return_type(line: Seq<char>) -> bool {
    announces_return(line) && after_colon(line).len() > 0
}

proof fn lemma_return_type_in_first(ls: Seq<Seq<char>>, k: int)
    requires
        0 <= k < ls.len(),
        names_return_type(ls[k]),
        forall|j: int| 0 <= j < k ==> !names_return_type(#[trigger] ls[j]),
    ensures
        return_type_in(ls) == Some(after_colon(ls[k])),
    decreases k,
{
    if k > 0 {
        assert(!names_return_type(ls[0]));
        assert forall|j: int| 0 <= j < k - 1 implies !names_return_type(
            #[trigger] ls.drop_first()[j],
        ) by {
            assert(ls.drop_first()[j] == ls[j + 1]);
        }
        lemma_return_type_in_first(ls.drop_first(), k - 1);
    }
}

proof fn lemma_return_type_in_none(ls: Seq<Seq<char>>)
    ensures
        return_type_in(ls) is None <==> forall|k: int| 0 <= k < ls.len() ==> !names_return_type(
            #[trigger] ls[k],
        ),
    decreases ls.len(),
{
    if ls.len() > 0 {
        lemma_return_type_in_none(ls.drop_first());
        if !names_return_type(ls[0]) {
            if return_type_in(ls) is None {
                assert forall|k: int| 0 <= k < ls.len() implies !names_return_type(
                    #[trigger] ls[k],
                ) by {
                    if k > 0 {
                        assert(ls[k] == ls.drop_first()[k - 1]);
                    }
                }
            } else {
                assert(!(forall|j: int|
                    0 <= j < ls.drop_first().len() ==> !names_return_type(
                        #[trigger] ls.drop_first()[j],
                    )));
                let j = choose|j: int|
                    0 <= j < ls.drop_first().len() && names_return_type(
                        #[trigger] ls.drop_first()[j],
                    );
                assert(ls[j + 1] == ls.drop_first()[j]);
            }
        }
    }
}

/// The return type of a docstring is named by its first line that
/// introduces a return type (it starts, ignoring case and indentation, with
/// `returns` or `return type`) and has text after its first `:`: the text
/// after that `:`, trimmed, whatever later lines say. Where no line does
/// so, there is none.
pub proof fn lemma_return_type_from_first_naming_line(doc: Seq<char>)
    ensures
        forall|k: int|
            0 <= k < lines(doc).len() && names_return_type(#[trigger] lines(doc)[k]) && (forall|
                j: int,
            | 0 <= j < k ==> !names_return_type(#[trigger] lines(doc)[j])) ==> return_type_of(doc)
                == Some(after_colon(lines(doc)[k])),
        return_type_of(doc) is None <==> forall|k: int|
            0 <= k < lines(doc).len() ==> !names_return_type(#[trigger] lines(doc)[k]),
        lines(doc).len() > 0 && announces_return(lines(doc)[0]) && after_colon(lines(doc)[0]).len()
            > 0 ==> return_type_of(doc) == Some(after_colon(lines(doc)[0])),
{
    let ls = lines(doc);
    assert forall|k: int|
        0 <= k < ls.len() && names_return_type(#[trigger] ls[k]) && (forall|j: int|
            0 <= j < k ==> !names_return_type(#[trigger] ls[j])) implies return_type_of(doc)
        == Some(after_colon(ls[k])) by {
        lemma_return_type_in_first(ls, k);
    }
    lemma_return_type_in_none(ls);
    if ls.len() > 0 && names_return_type(ls[0]) {
        lemma_return_type_in_first(ls, 0);
    }
}

/// The number of fixture lines among some lines.
pub open spec fn fixture_line_count(ls: Seq<Seq<char>>) -> nat
    decreases ls.len(),
{
    if ls.len() == 0 {
        0
    } else {
        (if is_fixture_line(ls[0]) {
            1nat
        } else {
            0nat
        }) + fixture_line_count(ls.drop_first())
    }
}

proof fn lemma_count_from(ls: Seq<Seq<char>>, h: int)
    requires
        0 <= h <= ls.len(),
    ensures
        fixtures_from(ls, next_header(ls, h)).len() == fixture_line_count(ls.skip(h)),
    decreases ls.len() - h,
{
    if h == ls.len() {
        assert(ls.skip(h) =~= Seq::<Seq<char>>::empty());
    } else {
        lemma_count_from(ls, h + 1);
        assert(ls.skip(h).drop_first() =~= ls.skip(h + 1));
        assert(ls.skip(h)[0] == ls[h]);
        lemma_next_header_bounds(ls, h + 1);
    }
}

/// One fixture per fixture line: the listing yields exactly as many fixtures
/// as it has fixture lines.
pub proof fn lemma_one_fixture_per_fixture_line(output: Seq<char>)
    ensures
        parsed_fixtures(output).len() == fixture_line_count(lines(output)),
{
    lemma_count_from(lines(output), 0);
    assert(lines(output).skip(0) =~= lines(output));
}

/// The shape every parsed fixture has: a name that starts with a letter or
/// `_`, a trimmed docstring, and, where a return type is stated, a trimmed
/// non-empty one without newlines that is a run of the docstring's text.
pub open spec fn well_formed_fixture(f: FixtureView) -> bool {
    &&& f.name.len() > 0
    &&& (is_ascii_alpha(f.name[0]) || f.name[0] == '_')
    &&& is_trimmed(f.docstring)
    &&& f.return_type matches Some(t) ==> {
        &&& t.len() > 0
        &&& is_trimmed(t)
        &&& single_line(t)
        &&& occurs_in(t, f.docstring)
    }
}

proof fn lemma_after_colon_in_line(line: Seq<char>)
    ensures
        occurs_in(after_colon(line), line),
{
    lemma_char_index(line, ':');
    match char_index(line, ':') {
        Some(i) => {
            let rest = line.skip(i + 1);
            let (a, b) = lemma_trim_bounds(rest);
            assert(rest.subrange(a, b) =~= line.subrange(i + 1 + a, i + 1 + b));
            lemma_subrange_occurs(line, i + 1 + a, i + 1 + b);
            assert(after_colon(line) == line.subrange(i + 1 + a, i + 1 + b));
        },
        None => {
            lemma_subrange_occurs(line, 0, 0);
            assert(line.subrange(0, 0) =~= after_colon(line));
        },
    }
}

proof fn lemma_return_type_in_shape(ls: Seq<Seq<char>>)
    ensures
        return_type_in(ls) matches Some(t) ==> {
            &&& t.len() > 0
            &&& is_trimmed(t)
            &&& exists|k: int| 0 <= k < ls.len() && occurs_in(t, #[trigger] ls[k])
        },
    decreases ls.len(),
{
    if ls.len() > 0 {
        if announces_return(ls[0]) && after_colon(ls[0]).len() > 0 {
            lemma_after_colon_in_line(ls[0]);
            match char_index(ls[0], ':') {
                Some(i) => lemma_trim_shape(ls[0].skip(i + 1)),
                None => {},
            }
        } else {
            lemma_return_type_in_shape(ls.drop_first());
            if let Some(t) = return_type_in(ls) {
                let k = choose|k: int| 0 <= k < ls.drop_first().len() && occurs_in(
                    t,
                    #[trigger] ls.drop_first()[k],
                );
                assert(ls[k + 1] == ls.drop_first()[k]);
            }
        }
    }
}

proof fn lemma_single_line_part(x: Seq<char>, y: Seq<char>)
    requires
        occurs_in(x, y),
        single_line(y),
    ensures
        single_line(x),
{
    let p = choose|p: int| 0 <= p && p + x.len() <= y.len() && #[trigger] y.subrange(p, p + x.len()) == x;
    assert forall|j: int| 0 <= j < x.len() implies x[j] != '\n' by {
        assert(x[j] == y[p + j]);
    }
}

/// The return type a docstring states is non-empty, trimmed, free of
/// newlines, and a run of the docstring's own text.
pub proof fn lemma_return_type_shape(doc: Seq<char>)
    ensures
        return_type_of(doc) matches Some(t) ==> {
            &&& t.len() > 0
            &&& is_trimmed(t)
            &&& single_line(t)
            &&& occurs_in(t, doc)
        },
{
    let ls = lines(doc);
    lemma_return_type_in_shape(ls);
    lemma_lines_in_text(doc);
    if let Some(t) = return_type_of(doc) {
        let k = choose|k: int| 0 <= k < ls.len() && occurs_in(t, #[trigger] ls[k]);
        lemma_single_line_part(t, ls[k]);
        lemma_occurs_in_trans(t, ls[k], doc);
    }
}

proof fn lemma_header_name_shape(line: Seq<char>)
    requires
        is_fixture_line(line),
    ensures
        header_name(line).len() > 0,
        header_name(line)[0] == trim(line)[0],
{
    let t = trim(line);
    let i = separator_at(line);
    lemma_find_sub(t, separator());
    assert(t.skip(i)[0] == ' ');
    assert(i != 0);
    assert(t.take(i)[0] == t[0]);
    lemma_trim_shape(t);
    lemma_trim_shape(line);
    assert(!is_white_space(t[0]));
    lemma_trim_shape(t.take(i));
    let np = name_part(line);
    assert(np[0] == t[0]);
    lemma_char_index(np, '[');
    match char_index(np, '[') {
        Some(b) => {
            assert(b != 0);
            assert(np.take(b)[0] == np[0]);
            lemma_trim_shape(np.take(b));
        },
        None => {},
    }
}

/// A fixture built from a fixture line is well formed.
pub proof fn lemma_block_fixture_well_formed(header: Seq<char>, body: Seq<Seq<char>>)
    requires
        is_fixture_line(header),
    ensures
        well_formed_fixture(block_fixture(header, body)),
{
    lemma_header_name_shape(header);
    lemma_trim_shape(join_lines(doc_lines(body)));
    lemma_return_type_shape(docstring_of(body));
}

proof fn lemma_fixtures_from_well_formed(ls: Seq<Seq<char>>, h: int)
    requires
        0 <= h <= ls.len(),
        h < ls.len() ==> is_fixture_line(ls[h]),
    ensures
        forall|k: int|
            0 <= k < fixtures_from(ls, h).len() ==> well_formed_fixture(
                #[trigger] fixtures_from(ls, h)[k],
            ),
    decreases ls.len() - h,
{
    if h < ls.len() {
        let n = next_header(ls, h + 1);
        lemma_next_header_bounds(ls, h + 1);
        lemma_fixtures_from_well_formed(ls, n);
        lemma_block_fixture_well_formed(ls[h], ls.subrange(h + 1, n));
        let r = fixtures_from(ls, h);
        assert(r == seq![block_fixture(ls[h], ls.subrange(h + 1, n))] + fixtures_from(ls, n));
        assert forall|k: int| 0 <= k < r.len() implies well_formed_fixture(#[trigger] r[k]) by {
            if k > 0 {
                assert(r[k] == fixtures_from(ls, n)[k - 1]);
            }
        }
    }
}

/// Every fixture the listing yields has a name starting with a letter or
/// `_`, a docstring without surrounding white space, and a return type, where
/// it has one, that is non-empty, trimmed, on one line, and taken from its
/// docstring.
pub proof fn lemma_parsed_fixtures_well_formed(output: Seq<char>)
    ensures
        forall|k: int|
            0 <= k < parsed_fixtures(output).len() ==> well_formed_fixture(
                #[trigger] parsed_fixtures(output)[k],
            ),
{
    let ls = lines(output);
    lemma_next_header_bounds(ls, 0);
    lemma_fixtures_from_well_formed(ls, next_header(ls, 0));
}

} // verus!
