//! Character-level text model: the views of `str` and `String` are
//! `Seq<char>`, and the operations of std's `str` used by the server
//! (`trim`, `lines`, `starts_with`, `find`, `split_once`) are stated here
//! over those sequences.

use vstd::prelude::*;

verus! {

/// The Unicode `White_Space` property, which `char::is_whitespace` tests
/// and `str::trim` removes.
pub open spec fn is_white_space(c: char) -> bool {
    let n = c as u32;
    ||| 0x09 <= n <= 0x0D
    ||| n == 0x20
    ||| n == 0x85
    ||| n == 0xA0
    ||| n == 0x1680
    ||| 0x2000 <= n <= 0x200A
    ||| n == 0x2028
    ||| n == 0x2029
    ||| n == 0x202F
    ||| n == 0x205F
    ||| n == 0x3000
}

pub fn white_space(c: char) -> (b: bool)
    ensures
        b == is_white_space(c),
{
    let n = c as u32;
    (0x09 <= n && n <= 0x0D) || n == 0x20 || n == 0x85 || n == 0xA0 || n == 0x1680 || (0x2000
        <= n && n <= 0x200A) || n == 0x2028 || n == 0x2029 || n == 0x202F || n == 0x205F || n
        == 0x3000
}

/// `s` without its leading white space.
pub open spec fn trim_start(s: Seq<char>) -> Seq<char>
    decreases s.len(),
{
    if s.len() > 0 && is_white_space(s[0]) {
        trim_start(s.drop_first())
    } else {
        s
    }
}

/// `s` without its trailing white space.
pub open spec fn trim_end(s: Seq<char>) -> Seq<char>
    decreases s.len(),
{
    if s.len() > 0 && is_white_space(s.last()) {
        trim_end(s.drop_last())
    } else {
        s
    }
}

/// What `str::trim` gives back.
pub open spec fn trim(s: Seq<char>) -> Seq<char> {
    trim_end(trim_start(s))
}

/// Index of the last occurrence of `c` in `s`.
pub open spec fn last_index(s: Seq<char>, c: char) -> Option<int>
    decreases s.len(),
{
    if s.len() == 0 {
        None
    } else if s.last() == c {
        Some(s.len() - 1)
    } else {
        last_index(s.drop_last(), c)
    }
}

/// Appends the characters of a string slice.
pub fn push_str(v: &mut Vec<char>, s: &str)
    ensures
        final(v)@ == old(v)@ + s@,
{
    let cs = chars_of(s);
    let mut k: usize = 0;
    while k < cs.len()
        invariant
            k <= cs@.len(),
            cs@ == s@,
            v@ == old(v)@ + cs@.take(k as int),
        decreases cs@.len() - k,
    {
        v.push(cs[k]);
        k = k + 1;
        assert(v@ =~= old(v)@ + cs@.take(k as int));
    }
    assert(cs@.take(cs@.len() as int) =~= cs@);
}

/// A sequence with no white space at either end.
pub open spec fn is_trimmed(s: Seq<char>) -> bool {
    s.len() > 0 ==> !is_white_space(s[0]) && !is_white_space(s.last())
}

pub proof fn lemma_trim_start_shape(s: Seq<char>)
    ensures
        trim_start(s).len() > 0 ==> !is_white_space(trim_start(s)[0]),
        trim_start(s).len() <= s.len(),
    decreases s.len(),
{
    if s.len() > 0 && is_white_space(s[0]) {
        lemma_trim_start_shape(s.drop_first());
    }
}

pub proof fn lemma_trim_end_shape(s: Seq<char>)
    ensures
        trim_end(s).len() > 0 ==> !is_white_space(trim_end(s).last()),
        s.len() > 0 && !is_white_space(s[0]) ==> trim_end(s).len() > 0 && trim_end(s)[0] == s[0],
    decreases s.len(),
{
    if s.len() > 0 && is_white_space(s.last()) {
        lemma_trim_end_shape(s.drop_last());
    }
}

/// What `trim` gives back has no white space at either end, and a text that
/// starts with a character other than white space keeps that character first.
pub proof fn lemma_trim_shape(s: Seq<char>)
    ensures
        is_trimmed(trim(s)),
        s.len() > 0 && !is_white_space(s[0]) ==> trim(s).len() > 0 && trim(s)[0] == s[0],
{
    lemma_trim_start_shape(s);
    lemma_trim_end_shape(trim_start(s));
    lemma_trim_end_shape(s);
}

/// Trimming a trimmed text changes nothing.
pub proof fn lemma_trim_of_trimmed(s: Seq<char>)
    requires
        is_trimmed(s),
    ensures
        trim(s) == s,
{
}

/// Trimming twice is trimming once.
pub proof fn lemma_trim_idempotent(s: Seq<char>)
    ensures
        trim(trim(s)) == trim(s),
{
    lemma_trim_shape(s);
    lemma_trim_of_trimmed(trim(s));
}

/// `x` occurs in `s` as a run of consecutive characters.
pub open spec fn occurs_in(x: Seq<char>, s: Seq<char>) -> bool {
    exists|p: int| 0 <= p && p + x.len() <= s.len() && #[trigger] s.subrange(p, p + x.len()) == x
}

/// No character of `s` is a newline.
pub open spec fn single_line(s: Seq<char>) -> bool {
    forall|j: int| 0 <= j < s.len() ==> s[j] != '\n'
}

/// A run inside a run inside `s` is a run inside `s`.
pub proof fn lemma_occurs_in_trans(x: Seq<char>, y: Seq<char>, z: Seq<char>)
    requires
        occurs_in(x, y),
        occurs_in(y, z),
    ensures
        occurs_in(x, z),
{
    let p = choose|p: int| 0 <= p && p + x.len() <= y.len() && #[trigger] y.subrange(p, p + x.len()) == x;
    let q = choose|q: int| 0 <= q && q + y.len() <= z.len() && #[trigger] z.subrange(q, q + y.len()) == y;
    assert(z.subrange(q + p, q + p + x.len()) =~= x);
}

/// A part `s.subrange(a, b)` occurs in `s`.
pub proof fn lemma_subrange_occurs(s: Seq<char>, a: int, b: int)
    requires
        0 <= a <= b <= s.len(),
    ensures
        occurs_in(s.subrange(a, b), s),
{
    assert(s.subrange(a, a + s.subrange(a, b).len()) =~= s.subrange(a, b));
}

/// What `trim` leaves is a run of the text it trims.
pub proof fn lemma_trim_bounds(s: Seq<char>) -> (r: (int, int))
    ensures
        0 <= r.0 <= r.1 <= s.len(),
        trim(s) == s.subrange(r.0, r.1),
{
    let a = lemma_trim_start_bounds(s);
    let t = trim_start(s);
    let b = lemma_trim_end_bounds(t);
    assert(s.subrange(a, s.len() as int).subrange(0, b) =~= s.subrange(a, a + b));
    (a, a + b)
}

proof fn lemma_trim_start_bounds(s: Seq<char>) -> (a: int)
    ensures
        0 <= a <= s.len(),
        trim_start(s) == s.subrange(a, s.len() as int),
    decreases s.len(),
{
    if s.len() > 0 && is_white_space(s[0]) {
        let a = lemma_trim_start_bounds(s.drop_first());
        assert(s.drop_first().subrange(a, s.drop_first().len() as int) =~= s.subrange(
            a + 1,
            s.len() as int,
        ));
        a + 1
    } else {
        assert(s.subrange(0, s.len() as int) =~= s);
        0
    }
}

proof fn lemma_trim_end_bounds(s: Seq<char>) -> (b: int)
    ensures
        0 <= b <= s.len(),
        trim_end(s) == s.subrange(0, b),
    decreases s.len(),
{
    if s.len() > 0 && is_white_space(s.last()) {
        let b = lemma_trim_end_bounds(s.drop_last());
        assert(s.drop_last().subrange(0, b) =~= s.subrange(0, b));
        b
    } else {
        assert(s.subrange(0, s.len() as int) =~= s);
        s.len() as int
    }
}

/// Each line that `lines` yields is a run of the text with no newline in it.
pub proof fn lemma_lines_in_text(s: Seq<char>)
    ensures
        forall|k: int|
            0 <= k < lines(s).len() ==> occurs_in(#[trigger] lines(s)[k], s) && single_line(
                lines(s)[k],
            ),
    decreases s.len(),
{
    if s.len() > 0 {
        lemma_char_index(s, '\n');
        match char_index(s, '\n') {
            Some(i) => {
                let rest = s.skip(i + 1);
                lemma_lines_in_text(rest);
                let first = strip_cr(s.take(i));
                let n = if s.take(i).len() > 0 && s.take(i).last() == '\r' {
                    i - 1
                } else {
                    i
                };
                assert(first =~= s.subrange(0, n));
                lemma_subrange_occurs(s, 0, n);
                lemma_subrange_occurs(s, i + 1, s.len() as int);
                assert(rest =~= s.subrange(i + 1, s.len() as int));
                let ls = lines(s);
                assert(ls == seq![first] + lines(rest));
                assert forall|k: int| 0 <= k < ls.len() implies occurs_in(#[trigger] ls[k], s)
                    && single_line(ls[k]) by {
                    if k > 0 {
                        assert(ls[k] == lines(rest)[k - 1]);
                        lemma_occurs_in_trans(ls[k], rest, s);
                        assert(single_line(lines(rest)[k - 1]));
                    } else {
                        assert forall|j: int| 0 <= j < first.len() implies first[j] != '\n' by {
                            assert(first[j] == s[j]);
                        }
                    }
                }
            },
            None => {
                assert(lines(s) == seq![s]);
                lemma_subrange_occurs(s, 0, s.len() as int);
                assert(s.subrange(0, s.len() as int) =~= s);
            },
        }
    }
}

/// The characters of a string slice, in order.
pub fn chars_of(s: &str) -> (v: Vec<char>)
    ensures
        v@ == s@,
{
    let mut v: Vec<char> = Vec::new();
    for c in it: s.chars()
        invariant
            v@ == it.seq().take(it.index() as int),
            it.seq() == s@,
    {
        v.push(c);
    }
    v
}

/// `String::push`: appends one character at the end.
#[verifier::external_body]
fn push_char(s: &mut String, c: char)
    ensures
        final(s)@ == old(s)@.push(c),
{
    s.push(c);
}

/// A `String` holding exactly the given characters.
pub fn string_of(cs: &[char]) -> (s: String)
    ensures
        s@ == cs@,
{
    let mut s = String::new();
    let mut i: usize = 0;
    while i < cs.len()
        invariant
            i <= cs@.len(),
            s@ == cs@.take(i as int),
        decreases cs@.len() - i,
    {
        push_char(&mut s, cs[i]);
        i = i + 1;
        assert(s@ =~= cs@.take(i as int));
    }
    assert(cs@.take(cs@.len() as int) =~= cs@);
    s
}

/// The trimmed part of a slice of characters.
pub fn trim_chars(s: &[char]) -> (r: &[char])
    ensures
        r@ == trim(s@),
{
    let mut lo: usize = 0;
    let mut hi: usize = s.len();
    assert(s@.subrange(0, s@.len() as int) =~= s@);
    while lo < hi && white_space(s[lo])
        invariant
            lo <= hi == s@.len(),
            trim_start(s@) == trim_start(s@.subrange(lo as int, hi as int)),
        decreases hi - lo,
    {
        assert(s@.subrange(lo as int, hi as int).drop_first() =~= s@.subrange(
            lo + 1,
            hi as int,
        ));
        lo = lo + 1;
    }
    let ghost start = lo;
    assert(trim_start(s@) == s@.subrange(lo as int, hi as int));
    while lo < hi && white_space(s[hi - 1])
        invariant
            start <= lo <= hi <= s@.len(),
            trim(s@) == trim_end(s@.subrange(lo as int, hi as int)),
        decreases hi - lo,
    {
        assert(s@.subrange(lo as int, hi as int).drop_last() =~= s@.subrange(
            lo as int,
            hi - 1,
        ));
        hi = hi - 1;
    }
    &s[lo..hi]
}


/// Index of the first occurrence of `c` in `s`, as `str::find` with a `char`
/// pattern gives it (counted in characters).
pub open spec fn char_index(s: Seq<char>, c: char) -> Option<int>
    decreases s.len(),
{
    if s.len() == 0 {
        None
    } else if s[0] == c {
        Some(0)
    } else {
        match char_index(s.drop_first(), c) {
            Some(i) => Some(i + 1),
            None => None,
        }
    }
}

/// Index of the first occurrence of the pattern `p` in `s`, as `str::find`
/// with a string pattern gives it (counted in characters).
pub open spec fn find_sub(s: Seq<char>, p: Seq<char>) -> Option<int>
    decreases s.len(),
{
    if p.is_prefix_of(s) {
        Some(0)
    } else if s.len() == 0 {
        None
    } else {
        match find_sub(s.drop_first(), p) {
            Some(i) => Some(i + 1),
            None => None,
        }
    }
}

/// A line without the `'\r'` of a `"\r\n"` line ending.
pub open spec fn strip_cr(l: Seq<char>) -> Seq<char> {
    if l.len() > 0 && l.last() == '\r' {
        l.drop_last()
    } else {
        l
    }
}

/// What `str::lines` yields: the text split at each `'\n'`, a `'\r'` just
/// before a `'\n'` dropped, and no empty line after a final `'\n'`.
pub open spec fn lines(s: Seq<char>) -> Seq<Seq<char>>
    decreases s.len(),
{
    if s.len() == 0 {
        seq![]
    } else {
        match char_index(s, '\n') {
            Some(i) => if 0 <= i < s.len() {
                seq![strip_cr(s.take(i))] + lines(s.skip(i + 1))
            } else {
                seq![s]
            },
            None => seq![s],
        }
    }
}

/// The views of a sequence of character slices.
pub open spec fn slice_views(v: Seq<&[char]>) -> Seq<Seq<char>> {
    v.map_values(|x: &[char]| x@)
}

/// The views of a sequence of strings.
pub open spec fn string_views(v: Seq<String>) -> Seq<Seq<char>> {
    v.map_values(|x: String| x@)
}

pub proof fn lemma_char_index(s: Seq<char>, c: char)
    ensures
        char_index(s, c) matches Some(i) ==> 0 <= i < s.len() && s[i] == c && forall|j: int|
            0 <= j < i ==> s[j] != c,
        char_index(s, c) is None ==> forall|j: int| 0 <= j < s.len() ==> s[j] != c,
    decreases s.len(),
{
    if s.len() > 0 {
        lemma_char_index(s.drop_first(), c);
        if s[0] != c {
            assert forall|j: int| 1 <= j < s.len() implies s[j] == s.drop_first()[j - 1] by {}
        }
    }
}

pub proof fn lemma_find_sub(s: Seq<char>, p: Seq<char>)
    ensures
        find_sub(s, p) matches Some(i) ==> 0 <= i && i + p.len() <= s.len() && p.is_prefix_of(
            s.skip(i),
        ),
    decreases s.len(),
{
    if !p.is_prefix_of(s) && s.len() > 0 {
        lemma_find_sub(s.drop_first(), p);
        if let Some(i) = find_sub(s.drop_first(), p) {
            assert(s.drop_first().skip(i) =~= s.skip(i + 1));
        }
    }
}

/// The first index of `c` in `s`, or `None`.
pub fn find_char(s: &[char], c: char) -> (r: Option<usize>)
    ensures
        r matches Some(i) ==> char_index(s@, c) == Some(i as int),
        r is None ==> char_index(s@, c) is None,
{
    let mut i: usize = 0;
    assert(s@.skip(0) =~= s@);
    while i < s.len()
        invariant
            i <= s@.len(),
            match char_index(s@.skip(i as int), c) {
                Some(j) => char_index(s@, c) == Some(j + i),
                None => char_index(s@, c) is None,
            },
        decreases s@.len() - i,
    {
        if s[i] == c {
            return Some(i);
        }
        assert(s@.skip(i as int).drop_first() =~= s@.skip(i + 1));
        i = i + 1;
    }
    None
}

/// Whether `p` occurs in `s` at index `i`.
pub fn occurs_at(s: &[char], i: usize, p: &[char]) -> (b: bool)
    requires
        i <= s@.len(),
    ensures
        b == p@.is_prefix_of(s@.skip(i as int)),
{
    if p.len() > s.len() - i {
        return false;
    }
    let mut k: usize = 0;
    while k < p.len()
        invariant
            k <= p@.len(),
            i + p@.len() <= s@.len(),
            s@.len() <= usize::MAX,
            forall|j: int| 0 <= j < k ==> p@[j] == s@[i + j],
        decreases p@.len() - k,
    {
        if p[k] != s[i + k] {
            assert(s@.skip(i as int).subrange(0, p@.len() as int)[k as int] == s@[i + k]);
            return false;
        }
        k = k + 1;
    }
    assert(p@ =~= s@.skip(i as int).subrange(0, p@.len() as int));
    true
}

/// The first index at which `p` occurs in `s`, or `None`.
pub fn find_slice(s: &[char], p: &[char]) -> (r: Option<usize>)
    ensures
        r matches Some(i) ==> find_sub(s@, p@) == Some(i as int),
        r is None ==> find_sub(s@, p@) is None,
{
    let mut i: usize = 0;
    assert(s@.skip(0) =~= s@);
    loop
        invariant
            i <= s@.len(),
            match find_sub(s@.skip(i as int), p@) {
                Some(j) => find_sub(s@, p@) == Some(j + i),
                None => find_sub(s@, p@) is None,
            },
        decreases s@.len() - i,
    {
        if occurs_at(s, i, p) {
            return Some(i);
        }
        if i == s.len() {
            return None;
        }
        assert(s@.skip(i as int).drop_first() =~= s@.skip(i + 1));
        i = i + 1;
    }
}

/// The lines of a slice of characters, as `str::lines` splits them.
pub fn split_lines(s: &[char]) -> (r: Vec<&[char]>)
    ensures
        slice_views(r@) == lines(s@),
{
    let mut out: Vec<&[char]> = Vec::new();
    let mut rest: &[char] = s;
    while rest.len() > 0
        invariant
            lines(s@) == slice_views(out@) + lines(rest@),
        decreases rest@.len(),
    {
        let ghost old_out = out@;
        let ghost old_rest = rest@;
        match find_char(rest, '\n') {
            Some(i) => {
                proof {
                    lemma_char_index(rest@, '\n');
                }
                let mut line: &[char] = &rest[0..i];
                if i > 0 && rest[i - 1] == '\r' {
                    line = &rest[0..i - 1];
                }
                assert(line@ == strip_cr(rest@.take(i as int)));
                out.push(line);
                rest = &rest[i + 1..rest.len()];
                assert(old_rest.skip(i + 1) =~= rest@);
            },
            None => {
                out.push(rest);
                rest = &rest[rest.len()..rest.len()];
            },
        }
        assert(slice_views(out@) =~= slice_views(old_out) + seq![out@.last()@]);
    }
    assert(lines(rest@) =~= seq![]);
    assert(lines(s@) =~= slice_views(out@));
    out
}


/// What `Path::join` gives on Unix: an absolute path replaces the base;
/// else a `'/'` goes between the two, unless the base is empty or already
/// ends in `'/'`.
pub open spec fn joined_path(base: Seq<char>, rel: Seq<char>) -> Seq<char> {
    if rel.len() > 0 && rel[0] == '/' {
        rel
    } else if base.len() == 0 || base.last() == '/' {
        base + rel
    } else {
        base + seq!['/'] + rel
    }
}

/// The characters of two slices, one after the other.
pub fn concat_chars(a: &[char], b: &[char]) -> (v: Vec<char>)
    ensures
        v@ == a@ + b@,
{
    let mut v: Vec<char> = Vec::new();
    let mut k: usize = 0;
    while k < a.len()
        invariant
            k <= a@.len(),
            v@ == a@.take(k as int),
        decreases a@.len() - k,
    {
        v.push(a[k]);
        k = k + 1;
        assert(v@ =~= a@.take(k as int));
    }
    let mut j: usize = 0;
    assert(a@.take(a@.len() as int) =~= a@);
    while j < b.len()
        invariant
            j <= b@.len(),
            v@ == a@ + b@.take(j as int),
        decreases b@.len() - j,
    {
        v.push(b[j]);
        j = j + 1;
        assert(v@ =~= a@ + b@.take(j as int));
    }
    assert(b@.take(b@.len() as int) =~= b@);
    v
}

/// A path joined onto a base path, as `Path::join` and `to_string_lossy`
/// give it for text paths on Unix.
pub fn join_path(base: &str, rel: &str) -> (r: String)
    ensures
        r@ == joined_path(base@, rel@),
{
    let b = chars_of(base);
    let r = chars_of(rel);
    if r.len() > 0 && r[0] == '/' {
        string_of(r.as_slice())
    } else if b.len() == 0 || b[b.len() - 1] == '/' {
        let v = concat_chars(b.as_slice(), r.as_slice());
        string_of(v.as_slice())
    } else {
        let mut b2 = b;
        b2.push('/');
        let v = concat_chars(b2.as_slice(), r.as_slice());
        string_of(v.as_slice())
    }
}

} // verus!
