//! What the language server answers: the path of a document, whether a file
//! holds tests, the word under the cursor, and the text of completion items
//! and hovers.

use vstd::prelude::*;
use crate::fixtures::{opt_string_view, Fixture, FixtureView};
use crate::text::{
    chars_of, join_path, joined_path, last_index, lines, occurs_at, push_str, split_lines,
    string_of,
};

verus! {

/// The path of a document: its URI without a leading `file://`.
pub open spec fn path_of_uri(uri: Seq<char>) -> Seq<char> {
    if "file://"@.is_prefix_of(uri) {
        uri.skip("file://"@.len() as int)
    } else {
        uri
    }
}

pub fn uri_to_path(uri: &str) -> (r: String)
    ensures
        r@ == path_of_uri(uri@),
{
    let u = chars_of(uri);
    let scheme = chars_of("file://");
    if occurs_at(u.as_slice(), 0, scheme.as_slice()) {
        assert(u@.skip(0) =~= u@);
        string_of(&u.as_slice()[scheme.len()..u.len()])
    } else {
        assert(u@.skip(0) =~= u@);
        string_of(u.as_slice())
    }
}

/// A saved file whose change calls for collecting the fixtures again.
pub open spec fn is_conftest_path(path: Seq<char>) -> bool {
    "conftest.py"@.is_suffix_of(path)
}

pub fn is_conftest(path: &str) -> (r: bool)
    ensures
        r == is_conftest_path(path@),
{
    let p = chars_of(path);
    let name = chars_of("conftest.py");
    if name.len() > p.len() {
        return false;
    }
    let at = p.len() - name.len();
    let b = occurs_at(p.as_slice(), at, name.as_slice());
    assert(p@.skip(at as int).subrange(0, name@.len() as int) =~= p@.subrange(
        at as int,
        p@.len() as int,
    ));
    b
}

/// The last component of a path: the text after its last `/`.
pub open spec fn file_name_of(path: Seq<char>) -> Seq<char> {
    match last_index(path, '/') {
        Some(i) => path.skip(i + 1),
        None => path,
    }
}

/// A file of tests: its name starts with `test_` or ends with `_test.py`.
pub open spec fn is_test_path(path: Seq<char>) -> bool {
    "test_"@.is_prefix_of(file_name_of(path)) || "_test.py"@.is_suffix_of(file_name_of(path))
}

pub fn is_test_file(path: &str) -> (r: bool)
    ensures
        r == is_test_path(path@),
{
    let p = chars_of(path);
    let mut i: usize = p.len();
    assert(p@.take(i as int) =~= p@);
    while i > 0 && p[i - 1] != '/'
        invariant
            i <= p@.len(),
            last_index(p@, '/') == last_index(p@.take(i as int), '/'),
        decreases i,
    {
        assert(p@.take(i as int).drop_last() =~= p@.take(i - 1));
        i = i - 1;
    }
    proof {
        if i > 0 {
            assert(p@.take(i as int).last() == '/');
        } else {
            assert(p@.take(0) =~= Seq::<char>::empty());
        }
    }
    let name = &p.as_slice()[i..p.len()];
    assert(name@ == file_name_of(path@)) by {
        if i == 0 {
            assert(p@.subrange(0, p@.len() as int) =~= p@);
        } else {
            assert(p@.subrange(i as int, p@.len() as int) =~= p@.skip(i as int));
        }
    }
    let prefix = chars_of("test_");
    let suffix = chars_of("_test.py");
    let starts = occurs_at(name, 0, prefix.as_slice());
    assert(name@.skip(0) =~= name@);
    let ends = if suffix.len() <= name.len() {
        let at = name.len() - suffix.len();
        let b = occurs_at(name, at, suffix.as_slice());
        assert(b == suffix@.is_suffix_of(name@)) by {
            assert(name@.skip(at as int).subrange(0, suffix@.len() as int) =~= name@.subrange(
                at as int,
                name@.len() as int,
            ));
        }
        b
    } else {
        false
    };
    starts || ends
}

/// A character that may be part of a word: an ASCII letter or digit, or `_`.
pub open spec fn is_word_char(c: char) -> bool {
    ('0' <= c && c <= '9') || ('a' <= c && c <= 'z') || ('A' <= c && c <= 'Z') || c == '_'
}

/// How many bytes UTF-8 takes for a character.
pub open spec fn utf8_width(c: char) -> nat {
    let n = c as u32;
    if n < 0x80 {
        1
    } else if n < 0x800 {
        2
    } else if n < 0x10000 {
        3
    } else {
        4
    }
}

/// The byte offset, in UTF-8, of the `k`-th character of a line.
pub open spec fn byte_offset(cs: Seq<char>, k: int) -> nat
    decreases k,
{
    if k <= 0 {
        0
    } else {
        byte_offset(cs, k - 1) + utf8_width(cs[k - 1])
    }
}

/// A byte offset at which a character of the line starts, or its end.
pub open spec fn on_char_boundary(cs: Seq<char>, col: int) -> bool {
    exists|k: int| 0 <= k <= cs.len() && byte_offset(cs, k) == col
}

/// The index of the character that starts at a byte offset.
pub open spec fn char_at_byte(cs: Seq<char>, col: int) -> int {
    choose|k: int| 0 <= k <= cs.len() && byte_offset(cs, k) == col
}

/// Where the run of word characters that ends at index `k` begins.
pub open spec fn word_start(cs: Seq<char>, k: int) -> int
    decreases k,
{
    if k <= 0 {
        0
    } else if is_word_char(cs[k - 1]) {
        word_start(cs, k - 1)
    } else {
        k
    }
}

/// Where the run of word characters that begins at index `k` ends.
pub open spec fn word_end(cs: Seq<char>, k: int) -> int
    decreases cs.len() - k,
{
    if k >= cs.len() {
        k
    } else if is_word_char(cs[k]) {
        word_end(cs, k + 1)
    } else {
        k
    }
}

/// The word of a line around a byte offset: the longest run of word
/// characters that touches it (empty where there is none).
pub open spec fn word_around(cs: Seq<char>, col: int) -> Seq<char> {
    let k = char_at_byte(cs, col);
    cs.subrange(word_start(cs, k), word_end(cs, k))
}

proof fn lemma_byte_offset_increasing(cs: Seq<char>, i: int, j: int)
    requires
        0 <= i < j,
    ensures
        byte_offset(cs, i) < byte_offset(cs, j),
    decreases j - i,
{
    if j - 1 > i {
        lemma_byte_offset_increasing(cs, i, j - 1);
    }
}

fn width(c: char) -> (w: usize)
    ensures
        w == utf8_width(c),
{
    let n = c as u32;
    if n < 0x80 {
        1
    } else if n < 0x800 {
        2
    } else if n < 0x10000 {
        3
    } else {
        4
    }
}

fn word_char(c: char) -> (b: bool)
    ensures
        b == is_word_char(c),
{
    ('0' <= c && c <= '9') || ('a' <= c && c <= 'z') || ('A' <= c && c <= 'Z') || c == '_'
}

proof fn lemma_word_start(cs: Seq<char>, k: int)
    requires
        0 <= k <= cs.len(),
    ensures
        0 <= word_start(cs, k) <= k,
        forall|i: int| word_start(cs, k) <= i < k ==> is_word_char(#[trigger] cs[i]),
        word_start(cs, k) > 0 ==> !is_word_char(cs[word_start(cs, k) - 1]),
    decreases k,
{
    if k > 0 && is_word_char(cs[k - 1]) {
        lemma_word_start(cs, k - 1);
    }
}

proof fn lemma_word_end(cs: Seq<char>, k: int)
    requires
        0 <= k <= cs.len(),
    ensures
        k <= word_end(cs, k) <= cs.len(),
        forall|i: int| k <= i < word_end(cs, k) ==> is_word_char(#[trigger] cs[i]),
        word_end(cs, k) < cs.len() ==> !is_word_char(cs[word_end(cs, k)]),
    decreases cs.len() - k,
{
    if k < cs.len() && is_word_char(cs[k]) {
        lemma_word_end(cs, k + 1);
    }
}

/// The word under the cursor is a run of word characters that touches the
/// cursor and cannot be made longer: the characters just before and just
/// after it are not word characters.
pub proof fn lemma_word_is_maximal_run(cs: Seq<char>, col: int)
    requires
        on_char_boundary(cs, col),
    ensures
        ({
            let k = char_at_byte(cs, col);
            let s = word_start(cs, k);
            let e = word_end(cs, k);
            &&& 0 <= s <= k <= e <= cs.len()
            &&& word_around(cs, col) == cs.subrange(s, e)
            &&& forall|i: int| s <= i < e ==> is_word_char(#[trigger] cs[i])
            &&& s > 0 ==> !is_word_char(cs[s - 1])
            &&& e < cs.len() ==> !is_word_char(cs[e])
        }),
{
    let k = char_at_byte(cs, col);
    lemma_word_start(cs, k);
    lemma_word_end(cs, k);
}

/// The word of a line around the byte offset `col`.
pub fn word_at(line: &[char], col: usize) -> (r: &[char])
    requires
        on_char_boundary(line@, col as int),
    ensures
        r@ == word_around(line@, col as int),
{
    let ghost cs = line@;
    let ghost target = char_at_byte(cs, col as int);
    let mut k: usize = 0;
    let mut off: usize = 0;
    while off < col
        invariant
            cs == line@,
            0 <= target <= cs.len(),
            byte_offset(cs, target) == col,
            k <= target,
            off == byte_offset(cs, k as int),
            off <= col,
        decreases target - k,
    {
        proof {
            assert(k != target);
            if k + 1 < target {
                lemma_byte_offset_increasing(cs, k + 1, target);
            }
        }
        off = off + width(line[k]);
        k = k + 1;
    }
    proof {
        if (k as int) < target {
            lemma_byte_offset_increasing(cs, k as int, target);
        }
    }
    assert(k == target);
    let mut s: usize = k;
    while s > 0 && word_char(line[s - 1])
        invariant
            cs == line@,
            s <= k <= cs.len(),
            word_start(cs, k as int) == word_start(cs, s as int),
        decreases s,
    {
        s = s - 1;
    }
    let mut e: usize = k;
    while e < line.len() && word_char(line[e])
        invariant
            cs == line@,
            k <= e <= cs.len(),
            word_end(cs, k as int) == word_end(cs, e as int),
        decreases cs.len() - e,
    {
        e = e + 1;
    }
    &line[s..e]
}


/// A fixture together with the source it was collected from: `"global"`
/// or the package directory.
#[derive(Debug, Clone)]
pub struct SourcedFixture {
    pub fixture: Fixture,
    pub source: String,
}

impl View for SourcedFixture {
    type V = (FixtureView, Seq<char>);

    open spec fn view(&self) -> (FixtureView, Seq<char>) {
        (self.fixture@, self.source@)
    }
}

pub open spec fn sourced_views(v: Seq<SourcedFixture>) -> Seq<(FixtureView, Seq<char>)> {
    v.map_values(|f: SourcedFixture| f@)
}

/// The hover text of a fixture: its name and scope, its package where it is
/// not global, its return type, its docstring and its location.
pub open spec fn hover_markdown_of(f: FixtureView, source: Seq<char>) -> Seq<char> {
    "**"@ + f.name + "** `["@ + f.scope + "]`"@ + (if source != "global"@ {
        " \u{1F4E6} `"@ + source + "`"@
    } else {
        seq![]
    }) + "\n\n"@ + (match f.return_type {
        Some(t) => "Returns: `"@ + t + "`\n\n"@,
        None => seq![],
    }) + (if f.docstring.len() > 0 {
        f.docstring + "\n\n"@
    } else {
        seq![]
    }) + "*"@ + f.location + "*"@
}

/// The part of the hover text that names the package of a fixture that is
/// not global.
pub open spec fn hover_package_part(source: Seq<char>) -> Seq<char> {
    if source != "global"@ {
        " \u{1F4E6} `"@ + source + "`"@
    } else {
        seq![]
    }
}

/// The hover text of a fixture begins with its name in bold and its scope,
/// and ends with its location in italics; where its docstring is not empty,
/// the docstring and a blank line come right before the location, whatever
/// the return type.
pub proof fn lemma_hover_ends_with_docstring_and_location(f: FixtureView, source: Seq<char>)
    ensures
        ("**"@ + f.name + "** `["@ + f.scope + "]`"@).is_prefix_of(hover_markdown_of(f, source)),
        ("*"@ + f.location + "*"@).is_suffix_of(hover_markdown_of(f, source)),
        f.docstring.len() > 0 ==> (f.docstring + "\n\n"@ + "*"@ + f.location + "*"@).is_suffix_of(
            hover_markdown_of(f, source),
        ),
{
    let h = hover_markdown_of(f, source);
    let head = "**"@ + f.name + "** `["@ + f.scope + "]`"@;
    let tail = "*"@ + f.location + "*"@;
    let ty = match f.return_type {
        Some(t) => "Returns: `"@ + t + "`\n\n"@,
        None => seq![],
    };
    let doc = if f.docstring.len() > 0 {
        f.docstring + "\n\n"@
    } else {
        seq![]
    };
    let mid = hover_package_part(source) + "\n\n"@ + ty;
    assert(h =~= head + mid + doc + tail);
    assert(h.subrange(0, head.len() as int) =~= head);
    assert(h.subrange(h.len() - tail.len(), h.len() as int) =~= tail);
    if f.docstring.len() > 0 {
        let d = f.docstring + "\n\n"@ + "*"@ + f.location + "*"@;
        assert(doc + tail =~= d);
        assert(h.subrange(h.len() - d.len(), h.len() as int) =~= d);
    }
}

/// Where a return type is stated it comes, as ``Returns: `<type>` `` and a
/// blank line, right before the docstring and location.
pub proof fn lemma_hover_return_type_before_docstring(f: FixtureView, source: Seq<char>)
    ensures
        f.return_type matches Some(t) ==> ("Returns: `"@ + t + "`\n\n"@ + (if f.docstring.len() > 0 {
            f.docstring + "\n\n"@
        } else {
            seq![]
        }) + "*"@ + f.location + "*"@).is_suffix_of(hover_markdown_of(f, source)),
{
    if let Some(t) = f.return_type {
        let h = hover_markdown_of(f, source);
        let head = "**"@ + f.name + "** `["@ + f.scope + "]`"@ + hover_package_part(source)
            + "\n\n"@;
        let e = "Returns: `"@ + t + "`\n\n"@ + (if f.docstring.len() > 0 {
            f.docstring + "\n\n"@
        } else {
            seq![]
        }) + "*"@ + f.location + "*"@;
        assert(h =~= head + e);
        assert(h.subrange(h.len() - e.len(), h.len() as int) =~= e);
    }
}

/// Without a return type, the hover text is exactly the name and scope, the
/// package where the fixture is not global, a blank line, the docstring and
/// a blank line where the docstring is not empty, and the location.
pub proof fn lemma_hover_without_return_type(f: FixtureView, source: Seq<char>)
    requires
        f.return_type is None,
    ensures
        f.docstring.len() > 0 ==> hover_markdown_of(f, source) == "**"@ + f.name + "** `["@
            + f.scope + "]`"@ + hover_package_part(source) + "\n\n"@ + f.docstring + "\n\n"@ + "*"@
            + f.location + "*"@,
        f.docstring.len() == 0 ==> hover_markdown_of(f, source) == "**"@ + f.name + "** `["@
            + f.scope + "]`"@ + hover_package_part(source) + "\n\n"@ + "*"@ + f.location + "*"@,
        source == "global"@ ==> hover_package_part(source) == Seq::<char>::empty(),
        source != "global"@ ==> hover_package_part(source) == " \u{1F4E6} `"@ + source + "`"@,
{
    let h = hover_markdown_of(f, source);
    let head = "**"@ + f.name + "** `["@ + f.scope + "]`"@ + hover_package_part(source) + "\n\n"@;
    if f.docstring.len() > 0 {
        assert(h =~= head + f.docstring + "\n\n"@ + "*"@ + f.location + "*"@);
    } else {
        assert(h =~= head + "*"@ + f.location + "*"@);
    }
}

fn push_chars(v: &mut Vec<char>, s: &String)
    ensures
        final(v)@ == old(v)@ + s@,
{
    push_str(v, s.as_str());
}

pub fn hover_markdown(f: &Fixture, source: &str) -> (r: String)
    ensures
        r@ == hover_markdown_of(f@, source@),
{
    let mut v: Vec<char> = Vec::new();
    push_str(&mut v, "**");
    push_chars(&mut v, &f.name);
    push_str(&mut v, "** `[");
    push_chars(&mut v, &f.scope);
    push_str(&mut v, "]`");
    let ghost head = v@;
    let src = chars_of(source);
    let global = chars_of("global");
    let is_global = crate::cache::same_chars(src.as_slice(), global.as_slice());
    if !is_global {
        push_str(&mut v, " \u{1F4E6} `");
        push_str(&mut v, source);
        push_str(&mut v, "`");
    }
    let ghost with_source = v@;
    push_str(&mut v, "\n\n");
    let ghost with_break = v@;
    match &f.return_type {
        Some(t) => {
            push_str(&mut v, "Returns: `");
            push_chars(&mut v, t);
            push_str(&mut v, "`\n\n");
        },
        None => {},
    }
    let ghost with_type = v@;
    if !f.docstring.as_str().is_empty() {
        push_chars(&mut v, &f.docstring);
        push_str(&mut v, "\n\n");
    }
    let ghost with_doc = v@;
    push_str(&mut v, "*");
    push_chars(&mut v, &f.location);
    push_str(&mut v, "*");
    proof {
        let x = f@;
        assert(head =~= "**"@ + x.name + "** `["@ + x.scope + "]`"@);
        assert(with_source =~= head + (if source@ != "global"@ {
            " \u{1F4E6} `"@ + source@ + "`"@
        } else {
            seq![]
        }));
        assert(with_type =~= with_break + (match x.return_type {
            Some(t) => "Returns: `"@ + t + "`\n\n"@,
            None => seq![],
        }));
        assert(with_doc =~= with_type + (if x.docstring.len() > 0 {
            x.docstring + "\n\n"@
        } else {
            seq![]
        }));
        assert(v@ =~= hover_markdown_of(x, source@));
    }
    string_of(v.as_slice())
}


/// The index of the first fixture with the given name.
pub open spec fn first_named(fs: Seq<(FixtureView, Seq<char>)>, w: Seq<char>) -> Option<int>
    decreases fs.len(),
{
    if fs.len() == 0 {
        None
    } else if fs[0].0.name == w {
        Some(0)
    } else {
        match first_named(fs.drop_first(), w) {
            Some(i) => Some(i + 1),
            None => None,
        }
    }
}

/// The hover of a document at a line and byte column: the hover text of the
/// first fixture named by the word there; none past the last line, on no
/// word, or for a word that names no fixture.
pub open spec fn hover_of(
    text: Seq<char>,
    line_no: int,
    col: int,
    fs: Seq<(FixtureView, Seq<char>)>,
) -> Option<Seq<char>> {
    let ls = lines(text);
    if line_no >= ls.len() {
        None
    } else {
        let w = word_around(ls[line_no], col);
        if w.len() == 0 {
            None
        } else {
            match first_named(fs, w) {
                Some(i) => Some(hover_markdown_of(fs[i].0, fs[i].1)),
                None => None,
            }
        }
    }
}

/// The hover text for a position of a document, given the known fixtures.
pub fn hover_text(text: &str, line_no: usize, col: usize, fixtures: &Vec<SourcedFixture>) -> (r:
    Option<String>)
    requires
        line_no < lines(text@).len() ==> on_char_boundary(lines(text@)[line_no as int], col as int),
    ensures
        opt_string_view(r) == hover_of(text@, line_no as int, col as int, sourced_views(fixtures@)),
{
    let cs = chars_of(text);
    let ls = split_lines(cs.as_slice());
    if line_no >= ls.len() {
        return None;
    }
    let line = ls[line_no];
    assert(line@ == lines(text@)[line_no as int]);
    let word = word_at(line, col);
    if word.len() == 0 {
        return None;
    }
    let ghost fs = sourced_views(fixtures@);
    let mut i: usize = 0;
    assert(fs.skip(0) =~= fs);
    while i < fixtures.len()
        invariant
            fs == sourced_views(fixtures@),
            i <= fixtures@.len(),
            line_no < lines(text@).len(),
            word@.len() > 0,
            word@ == word_around(lines(text@)[line_no as int], col as int),
            match first_named(fs.skip(i as int), word@) {
                Some(j) => first_named(fs, word@) == Some(j + i),
                None => first_named(fs, word@) is None,
            },
        decreases fixtures@.len() - i,
    {
        let f = &fixtures[i];
        let name = chars_of(f.fixture.name.as_str());
        assert(fs.skip(i as int)[0] == f@);
        if crate::cache::same_chars(name.as_slice(), word) {
            let md = hover_markdown(&f.fixture, f.source.as_str());
            assert(fs[i as int] == f@);
            assert(fs.skip(i as int).len() > 0);
            assert(fs.skip(i as int)[0].0.name == word@);
            assert(first_named(fs.skip(i as int), word@) == Some(0int));
            assert(first_named(fs, word@) == Some(i as int));
            return Some(md);
        }
        assert(fs.skip(i as int).drop_first() =~= fs.skip(i + 1));
        i = i + 1;
    }
    None
}

/// One completion item, as text.
#[derive(Debug, Clone)]
pub struct CompletionEntry {
    /// The fixture's name.
    pub label: String,
    /// `" → "` and the return type, where there is one.
    pub label_detail: Option<String>,
    /// `pytest [scope][source]`.
    pub detail: String,
    /// The snippet inserted: the name, `: ` and a placeholder for its type.
    pub insert_text: String,
    /// The key that sorts fixtures first: `!0` and the name.
    pub sort_text: String,
    /// The docstring and the location, where the docstring is not empty.
    pub documentation: Option<String>,
}

pub struct CompletionView {
    pub label: Seq<char>,
    pub label_detail: Option<Seq<char>>,
    pub detail: Seq<char>,
    pub insert_text: Seq<char>,
    pub sort_text: Seq<char>,
    pub documentation: Option<Seq<char>>,
}

impl View for CompletionEntry {
    type V = CompletionView;

    open spec fn view(&self) -> CompletionView {
        CompletionView {
            label: self.label@,
            label_detail: opt_string_view(self.label_detail),
            detail: self.detail@,
            insert_text: self.insert_text@,
            sort_text: self.sort_text@,
            documentation: opt_string_view(self.documentation),
        }
    }
}

/// The completion item of a fixture collected from `source`.
pub open spec fn completion_of(f: FixtureView, source: Seq<char>) -> CompletionView {
    CompletionView {
        label: f.name,
        label_detail: match f.return_type {
            Some(t) => Some(" \u{2192} "@ + t),
            None => None,
        },
        detail: "pytest ["@ + f.scope + "]["@ + source + "]"@,
        insert_text: f.name + ": ${1:"@ + (match f.return_type {
            Some(t) => t,
            None => "Any"@,
        }) + "}"@,
        sort_text: "!0"@ + f.name,
        documentation: if f.docstring.len() == 0 {
            None
        } else {
            Some(f.docstring + "\n\n*"@ + f.location + "*"@)
        },
    }
}

fn cat_string(parts: &Vec<char>) -> (s: String)
    ensures
        s@ == parts@,
{
    string_of(parts.as_slice())
}

/// The completion item of a fixture.
pub fn completion_entry(f: &Fixture, source: &str) -> (r: CompletionEntry)
    ensures
        r@ == completion_of(f@, source@),
{
    let label = f.name.clone();
    let label_detail = match &f.return_type {
        Some(t) => {
            let mut v: Vec<char> = Vec::new();
            push_str(&mut v, " \u{2192} ");
            push_chars(&mut v, t);
            Some(cat_string(&v))
        },
        None => None,
    };
    let mut d: Vec<char> = Vec::new();
    push_str(&mut d, "pytest [");
    push_chars(&mut d, &f.scope);
    push_str(&mut d, "][");
    push_str(&mut d, source);
    push_str(&mut d, "]");
    let detail = cat_string(&d);
    let mut ins: Vec<char> = Vec::new();
    push_chars(&mut ins, &f.name);
    push_str(&mut ins, ": ${1:");
    match &f.return_type {
        Some(t) => push_chars(&mut ins, t),
        None => push_str(&mut ins, "Any"),
    }
    push_str(&mut ins, "}");
    let insert_text = cat_string(&ins);
    let mut so: Vec<char> = Vec::new();
    push_str(&mut so, "!0");
    push_chars(&mut so, &f.name);
    let sort_text = cat_string(&so);
    let documentation = if f.docstring.as_str().is_empty() {
        None
    } else {
        let mut doc: Vec<char> = Vec::new();
        push_chars(&mut doc, &f.docstring);
        push_str(&mut doc, "\n\n*");
        push_chars(&mut doc, &f.location);
        push_str(&mut doc, "*");
        Some(cat_string(&doc))
    };
    let r = CompletionEntry { label, label_detail, detail, insert_text, sort_text, documentation };
    proof {
        let x = f@;
        assert(r@.label_detail =~= completion_of(x, source@).label_detail);
        assert(r@.detail =~= completion_of(x, source@).detail);
        assert(r@.insert_text =~= completion_of(x, source@).insert_text);
        assert(r@.sort_text =~= completion_of(x, source@).sort_text);
        assert(r@.documentation =~= completion_of(x, source@).documentation);
    }
    r
}

/// The completion item of a fixture shows its name, sorts it first, names
/// its scope and source, and documents it by its docstring and location
/// whenever the docstring is not empty, whatever its return type; the
/// return type shows only in the label detail and the snippet placeholder,
/// which reads `Any` where there is none.
pub proof fn lemma_completion_item_parts(f: FixtureView, source: Seq<char>)
    ensures
        completion_of(f, source).label == f.name,
        completion_of(f, source).sort_text == "!0"@ + f.name,
        completion_of(f, source).detail == "pytest ["@ + f.scope + "]["@ + source + "]"@,
        f.docstring.len() > 0 ==> completion_of(f, source).documentation == Some(
            f.docstring + "\n\n*"@ + f.location + "*"@,
        ),
        f.docstring.len() == 0 ==> completion_of(f, source).documentation is None,
        f.return_type is None ==> completion_of(f, source).label_detail is None,
        f.return_type is None ==> completion_of(f, source).insert_text == f.name + ": ${1:"@
            + "Any"@ + "}"@,
        f.return_type matches Some(t) ==> completion_of(f, source).label_detail == Some(
            " \u{2192} "@ + t,
        ),
        f.return_type matches Some(t) ==> completion_of(f, source).insert_text == f.name
            + ": ${1:"@ + t + "}"@,
{
}

/// Two fixtures that differ only in their return type get the same
/// completion documentation, name, detail and sort key.
pub proof fn lemma_completion_documentation_ignores_return_type(
    f: FixtureView,
    g: FixtureView,
    source: Seq<char>,
)
    requires
        f.name == g.name,
        f.scope == g.scope,
        f.docstring == g.docstring,
        f.location == g.location,
    ensures
        completion_of(f, source).documentation == completion_of(g, source).documentation,
        completion_of(f, source).label == completion_of(g, source).label,
        completion_of(f, source).detail == completion_of(g, source).detail,
        completion_of(f, source).sort_text == completion_of(g, source).sort_text,
{
}

/// A fixture is offered in a file of a package when it is global or comes
/// from that package.
pub open spec fn offered_in(source: Seq<char>, package: Option<Seq<char>>) -> bool {
    source == "global"@ || package == Some(source)
}

/// The completion items of the fixtures offered in a file, in order.
pub open spec fn completions_of(
    package: Option<Seq<char>>,
    fs: Seq<(FixtureView, Seq<char>)>,
) -> Seq<CompletionView>
    decreases fs.len(),
{
    if fs.len() == 0 {
        seq![]
    } else if offered_in(fs.last().1, package) {
        completions_of(package, fs.drop_last()).push(completion_of(fs.last().0, fs.last().1))
    } else {
        completions_of(package, fs.drop_last())
    }
}

pub open spec fn completion_views(v: Seq<CompletionEntry>) -> Seq<CompletionView> {
    v.map_values(|c: CompletionEntry| c@)
}

/// The completion items for a file of the given package (`None` where the
/// file is in no package).
pub fn completion_entries(package: Option<&str>, fixtures: &Vec<SourcedFixture>) -> (r: Vec<
    CompletionEntry,
>)
    ensures
        completion_views(r@) == completions_of(
            match package {
                Some(p) => Some(p@),
                None => None,
            },
            sourced_views(fixtures@),
        ),
{
    let ghost pkg = match package {
        Some(p) => Some(p@),
        None => None,
    };
    let ghost fs = sourced_views(fixtures@);
    let global = chars_of("global");
    let pkg_chars: Option<Vec<char>> = match package {
        Some(p) => Some(chars_of(p)),
        None => None,
    };
    let mut out: Vec<CompletionEntry> = Vec::new();
    let mut i: usize = 0;
    assert(fs.take(0) =~= Seq::<(FixtureView, Seq<char>)>::empty());
    while i < fixtures.len()
        invariant
            fs == sourced_views(fixtures@),
            global@ == "global"@,
            pkg == (match package {
                Some(p) => Some(p@),
                None => None,
            }),
            match pkg_chars {
                Some(v) => pkg == Some(v@),
                None => pkg is None,
            },
            i <= fixtures@.len(),
            completion_views(out@) == completions_of(pkg, fs.take(i as int)),
        decreases fixtures@.len() - i,
    {
        let f = &fixtures[i];
        let src = chars_of(f.source.as_str());
        let offered = crate::cache::same_chars(src.as_slice(), global.as_slice()) || match &pkg_chars {
            Some(p) => crate::cache::same_chars(src.as_slice(), p.as_slice()),
            None => false,
        };
        assert(fs.take(i + 1).drop_last() =~= fs.take(i as int));
        assert(fs.take(i + 1).last() == f@);
        if offered {
            let c = completion_entry(&f.fixture, f.source.as_str());
            out.push(c);
        }
        assert(completion_views(out@) =~= completions_of(pkg, fs.take(i + 1)));
        i = i + 1;
    }
    assert(fs.take(i as int) =~= fs);
    out
}


/// The directory that `Path::parent` gives for a path: the path without its
/// final component, `None` for the empty path or a root.
pub uninterp spec fn path_parent(p: Seq<char>) -> Option<Seq<char>>;

/// `Path::parent`, its result taken as text. What it gives for each path
/// is named, not stated.
#[verifier::external_body]
fn parent_dir(p: &str) -> (r: Option<String>)
    ensures
        opt_string_view(r) == path_parent(p@),
{
    match std::path::Path::new(p).parent() {
        Some(d) => Some(d.to_string_lossy().into_owned()),
        None => None,
    }
}

/// A path without its leading `/`s.
pub open spec fn without_leading_slashes(p: Seq<char>) -> Seq<char>
    decreases p.len(),
{
    if p.len() > 0 && p[0] == '/' {
        without_leading_slashes(p.drop_first())
    } else {
        p
    }
}

/// The first directory in which a file's package is looked for: the parent
/// of the file's path relative to the root; none for a file outside the
/// root.
pub open spec fn package_search_start_of(root: Seq<char>, file: Seq<char>) -> Option<Seq<char>> {
    if root.is_prefix_of(file) {
        path_parent(without_leading_slashes(file.skip(root.len() as int)))
    } else {
        None
    }
}

pub fn package_search_start(root: &str, file_path: &str) -> (r: Option<String>)
    ensures
        opt_string_view(r) == package_search_start_of(root@, file_path@),
{
    let f = chars_of(file_path);
    let rt = chars_of(root);
    assert(f@.skip(0) =~= f@);
    if !occurs_at(f.as_slice(), 0, rt.as_slice()) {
        return None;
    }
    let mut i: usize = rt.len();
    assert(rt@.len() <= f@.len());
    while i < f.len() && f[i] == '/'
        invariant
            rt@.len() <= i <= f@.len(),
            without_leading_slashes(f@.skip(rt@.len() as int)) == without_leading_slashes(
                f@.skip(i as int),
            ),
        decreases f@.len() - i,
    {
        assert(f@.skip(i as int).drop_first() =~= f@.skip(i + 1));
        i = i + 1;
    }
    let rest = string_of(&f.as_slice()[i..f.len()]);
    assert(rest@ =~= f@.skip(i as int));
    assert(without_leading_slashes(f@.skip(i as int)) == f@.skip(i as int));
    parent_dir(rest.as_str())
}

/// The file whose presence marks a package directory:
/// `<root>/<dir>/pyproject.toml`.
pub open spec fn package_marker_of(root: Seq<char>, dir: Seq<char>) -> Seq<char> {
    joined_path(joined_path(root, dir), "pyproject.toml"@)
}

pub fn package_marker(root: &str, dir: &str) -> (r: String)
    ensures
        r@ == package_marker_of(root@, dir@),
{
    let d = join_path(root, dir);
    join_path(d.as_str(), "pyproject.toml")
}

/// The next move in the search for a file's package.
#[derive(Debug)]
pub enum PackageStep {
    /// The file belongs to the package in this directory.
    Found(String),
    /// Look next in this directory.
    Check(String),
    /// The file belongs to no package.
    NotFound,
}

/// One step of the search for a file's package: a directory is the package
/// when its marker exists and it is not the root itself (the empty relative
/// path); else the search goes on in its parent, and ends where there is
/// none.
pub fn package_step(dir: &str, marker_exists: bool) -> (r: PackageStep)
    ensures
        marker_exists && dir@.len() > 0 ==> (r matches PackageStep::Found(d) && d@ == dir@),
        !(marker_exists && dir@.len() > 0) ==> match path_parent(dir@) {
            Some(p) => (r matches PackageStep::Check(d) && d@ == p),
            None => r is NotFound,
        },
{
    if marker_exists && !dir.is_empty() {
        return PackageStep::Found(dir.to_string());
    }
    match parent_dir(dir) {
        Some(p) => PackageStep::Check(p),
        None => PackageStep::NotFound,
    }
}

} // verus!
