//! Laws of the fixture listing parser that relate the parses of different
//! texts: lines that carry nothing are skipped, and a listing cut at a
//! fixture line parses as its two parts one after the other.

use vstd::prelude::*;
use crate::fixtures::{
    block_fixture, doc_lines, fixtures_from, is_doc_line, is_fixture_line, lemma_next_header_bounds,
    next_header, parse_lines, parsed_fixtures, FixtureView,
};
use crate::text::{char_index, lemma_char_index, lines};

verus! {

proof fn lemma_next_header_prefix(la: Seq<Seq<char>>, lb: Seq<Seq<char>>, j: int)
    requires
        0 <= j <= la.len(),
        lb.len() == 0 || is_fixture_line(lb[0]),
    ensures
        next_header(la + lb, j) == next_header(la, j),
    decreases la.len() - j,
{
    if j < la.len() {
        assert((la + lb)[j] == la[j]);
        lemma_next_header_prefix(la, lb, j + 1);
    } else {
        if lb.len() > 0 {
            assert((la + lb)[j] == lb[0]);
        }
    }
}

proof fn lemma_next_header_shift(la: Seq<Seq<char>>, lb: Seq<Seq<char>>, j: int)
    requires
        0 <= j,
    ensures
        next_header(la + lb, la.len() + j) == la.len() + next_header(lb, j),
    decreases lb.len() - j,
{
    if j < lb.len() {
        assert((la + lb)[la.len() + j] == lb[j]);
        lemma_next_header_shift(la, lb, j + 1);
    }
}

proof fn lemma_fixtures_from_shift(la: Seq<Seq<char>>, lb: Seq<Seq<char>>, h: int)
    requires
        0 <= h,
    ensures
        fixtures_from(la + lb, la.len() + h) == fixtures_from(lb, h),
    decreases lb.len() - h,
{
    if h < lb.len() {
        let n = next_header(lb, h + 1);
        lemma_next_header_bounds(lb, h + 1);
        lemma_next_header_shift(la, lb, h + 1);
        lemma_fixtures_from_shift(la, lb, n);
        assert((la + lb)[la.len() + h] == lb[h]);
        assert((la + lb).subrange(la.len() + h + 1, la.len() + n) =~= lb.subrange(h + 1, n));
        assert(la.len() + (h + 1) == la.len() + h + 1);
    }
}

proof fn lemma_fixtures_from_prefix(la: Seq<Seq<char>>, lb: Seq<Seq<char>>, h: int)
    requires
        0 <= h <= la.len(),
        lb.len() == 0 || is_fixture_line(lb[0]),
    ensures
        fixtures_from(la + lb, h) == fixtures_from(la, h) + fixtures_from(lb, 0),
    decreases la.len() - h,
{
    if h == la.len() {
        lemma_fixtures_from_shift(la, lb, 0);
        assert(fixtures_from(la, h) =~= Seq::<FixtureView>::empty());
        assert(fixtures_from(la + lb, h) =~= fixtures_from(la, h) + fixtures_from(lb, 0));
    } else {
        let n = next_header(la, h + 1);
        lemma_next_header_bounds(la, h + 1);
        lemma_next_header_prefix(la, lb, h + 1);
        lemma_fixtures_from_prefix(la, lb, n);
        assert((la + lb)[h] == la[h]);
        assert((la + lb).subrange(h + 1, n) =~= la.subrange(h + 1, n));
        assert(fixtures_from(la + lb, h) =~= fixtures_from(la, h) + fixtures_from(lb, 0));
    }
}

/// Parsing lines cut before a fixture line gives the parse of the first part
/// followed by the parse of the second.
pub proof fn lemma_parse_lines_concat(la: Seq<Seq<char>>, lb: Seq<Seq<char>>)
    requires
        lb.len() == 0 || is_fixture_line(lb[0]),
    ensures
        parse_lines(la + lb) == parse_lines(la) + parse_lines(lb),
{
    lemma_next_header_bounds(la, 0);
    lemma_next_header_prefix(la, lb, 0);
    lemma_fixtures_from_prefix(la, lb, next_header(la, 0));
    assert(next_header(lb, 0) == 0);
}

proof fn lemma_char_index_concat(a: Seq<char>, b: Seq<char>, c: char)
    requires
        char_index(a, c) is Some,
    ensures
        char_index(a + b, c) == char_index(a, c),
    decreases a.len(),
{
    if a[0] != c {
        assert((a + b).drop_first() =~= a.drop_first() + b);
        lemma_char_index_concat(a.drop_first(), b, c);
    }
}

/// The lines of two texts, the first empty or ending in a newline, joined
/// are the lines of the first followed by those of the second.
pub proof fn lemma_lines_concat(a: Seq<char>, b: Seq<char>)
    requires
        a.len() == 0 || a.last() == '\n',
    ensures
        lines(a + b) == lines(a) + lines(b),
    decreases a.len(),
{
    if a.len() == 0 {
        assert(a + b =~= b);
        assert(lines(a) =~= Seq::<Seq<char>>::empty());
        assert(lines(a + b) =~= lines(a) + lines(b));
    } else {
        lemma_char_index(a, '\n');
        if char_index(a, '\n') is None {
            assert(a[a.len() - 1] == '\n');
        }
        let i = char_index(a, '\n')->0;
        lemma_char_index_concat(a, b, '\n');
        let rest = a.skip(i + 1);
        assert((a + b).take(i) =~= a.take(i));
        assert((a + b).skip(i + 1) =~= rest + b);
        if rest.len() > 0 {
            assert(rest.last() == a.last());
        }
        lemma_lines_concat(rest, b);
        assert(lines(a + b) =~= lines(a) + lines(b));
    }
}

/// A listing cut where a fixture line begins parses as its two parts: where
/// the first text is empty or ends in a newline and the second begins with
/// a fixture line, the fixtures of the whole are those of the first text
/// followed by those of the second.
pub proof fn lemma_parse_concat_at_fixture_line(a: Seq<char>, b: Seq<char>)
    requires
        a.len() == 0 || a.last() == '\n',
        lines(b).len() > 0,
        is_fixture_line(lines(b)[0]),
    ensures
        parsed_fixtures(a + b) == parsed_fixtures(a) + parsed_fixtures(b),
{
    lemma_lines_concat(a, b);
    lemma_parse_lines_concat(lines(a), lines(b));
}


/// A line that carries nothing: neither a fixture line nor a docstring line
/// (a blank line, a separator, an error message).
pub open spec fn is_noise_line(l: Seq<char>) -> bool {
    !is_fixture_line(l) && !is_doc_line(l)
}

/// The lines without those that carry nothing.
pub open spec fn significant_lines(ls: Seq<Seq<char>>) -> Seq<Seq<char>>
    decreases ls.len(),
{
    if ls.len() == 0 {
        seq![]
    } else if is_noise_line(ls[0]) {
        significant_lines(ls.drop_first())
    } else {
        seq![ls[0]] + significant_lines(ls.drop_first())
    }
}

proof fn lemma_significant_concat(x: Seq<Seq<char>>, y: Seq<Seq<char>>)
    ensures
        significant_lines(x + y) == significant_lines(x) + significant_lines(y),
    decreases x.len(),
{
    if x.len() == 0 {
        assert(x + y =~= y);
        assert(significant_lines(x) + significant_lines(y) =~= significant_lines(y));
    } else {
        assert((x + y).drop_first() =~= x.drop_first() + y);
        assert((x + y)[0] == x[0]);
        lemma_significant_concat(x.drop_first(), y);
        assert(significant_lines(x + y) =~= significant_lines(x) + significant_lines(y));
    }
}

proof fn lemma_doc_lines_concat(x: Seq<Seq<char>>, y: Seq<Seq<char>>)
    ensures
        doc_lines(x + y) == doc_lines(x) + doc_lines(y),
    decreases y.len(),
{
    if y.len() == 0 {
        assert(x + y =~= x);
        assert(doc_lines(x) + doc_lines(y) =~= doc_lines(x));
    } else {
        assert((x + y).drop_last() =~= x + y.drop_last());
        assert((x + y).last() == y.last());
        lemma_doc_lines_concat(x, y.drop_last());
        assert(doc_lines(x + y) =~= doc_lines(x) + doc_lines(y));
    }
}

proof fn lemma_doc_lines_significant(x: Seq<Seq<char>>)
    ensures
        doc_lines(significant_lines(x)) == doc_lines(x),
    decreases x.len(),
{
    if x.len() > 0 {
        let head = seq![x[0]];
        assert(x =~= head + x.drop_first());
        lemma_doc_lines_concat(head, x.drop_first());
        lemma_doc_lines_significant(x.drop_first());
        assert(head.drop_last() =~= Seq::<Seq<char>>::empty());
        if !is_noise_line(x[0]) {
            lemma_doc_lines_concat(head, significant_lines(x.drop_first()));
        } else {
            assert(head.last() == x[0]);
            assert(doc_lines(head.drop_last()) =~= Seq::<Seq<char>>::empty());
            assert(doc_lines(head) =~= Seq::<Seq<char>>::empty());
        }
    }
}

proof fn lemma_significant_no_header(x: Seq<Seq<char>>)
    requires
        forall|i: int| 0 <= i < x.len() ==> !is_fixture_line(#[trigger] x[i]),
    ensures
        forall|i: int|
            0 <= i < significant_lines(x).len() ==> !is_fixture_line(
                #[trigger] significant_lines(x)[i],
            ),
    decreases x.len(),
{
    if x.len() > 0 {
        assert forall|i: int| 0 <= i < x.drop_first().len() implies !is_fixture_line(
            #[trigger] x.drop_first()[i],
        ) by {
            assert(x.drop_first()[i] == x[i + 1]);
        }
        lemma_significant_no_header(x.drop_first());
        let r = significant_lines(x);
        if is_noise_line(x[0]) {
            assert(r == significant_lines(x.drop_first()));
        } else {
            assert forall|i: int| 0 <= i < r.len() implies !is_fixture_line(#[trigger] r[i]) by {
                if i > 0 {
                    assert(r[i] == significant_lines(x.drop_first())[i - 1]);
                } else {
                    assert(r[0] == x[0]);
                }
            }
        }
    } else {
        assert(significant_lines(x) =~= Seq::<Seq<char>>::empty());
    }
}

proof fn lemma_next_header_none(ls: Seq<Seq<char>>, j: int)
    requires
        0 <= j <= ls.len(),
        forall|i: int| j <= i < ls.len() ==> !is_fixture_line(#[trigger] ls[i]),
    ensures
        next_header(ls, j) == ls.len(),
    decreases ls.len() - j,
{
    if j < ls.len() {
        lemma_next_header_none(ls, j + 1);
    }
}

/// From a fixture line on (or from the end), the fixtures do not depend on
/// the lines that carry nothing.
proof fn lemma_fixtures_from_significant(ls: Seq<Seq<char>>, h: int)
    requires
        0 <= h <= ls.len(),
        h < ls.len() ==> is_fixture_line(ls[h]),
    ensures
        fixtures_from(ls, h) == fixtures_from(significant_lines(ls.skip(h)), 0),
    decreases ls.len() - h,
{
    if h == ls.len() {
        assert(ls.skip(h) =~= Seq::<Seq<char>>::empty());
    } else {
        let n = next_header(ls, h + 1);
        lemma_next_header_bounds(ls, h + 1);
        lemma_fixtures_from_significant(ls, n);
        let m = ls.subrange(h + 1, n);
        let t = significant_lines(ls.skip(n));
        let head = seq![ls[h]];
        assert(ls.skip(h) =~= head + m + ls.skip(n));
        lemma_significant_concat(head + m, ls.skip(n));
        lemma_significant_concat(head, m);
        assert(significant_lines(head) =~= head) by {
            assert(head.drop_first() =~= Seq::<Seq<char>>::empty());
            assert(head[0] == ls[h]);
            assert(significant_lines(head.drop_first()) =~= Seq::<Seq<char>>::empty());
        }
        let sm = significant_lines(m);
        let la = head + sm;
        let s = la + t;
        assert(significant_lines(ls.skip(h)) == s);
        // The block of lines after the fixture line holds no fixture line.
        assert forall|i: int| 0 <= i < m.len() implies !is_fixture_line(#[trigger] m[i]) by {
            assert(m[i] == ls[h + 1 + i]);
        }
        lemma_significant_no_header(m);
        assert forall|i: int| 1 <= i < la.len() implies !is_fixture_line(#[trigger] la[i]) by {
            assert(la[i] == sm[i - 1]);
        }
        // What follows begins with the next fixture line.
        if n < ls.len() {
            assert(ls.skip(n)[0] == ls[n]);
            assert(t[0] == ls[n]) by {
                assert(ls.skip(n)[0] == ls[n]);
            }
        }
        lemma_next_header_none(la, 1);
        lemma_next_header_prefix(la, t, 1);
        lemma_fixtures_from_shift(la, t, 0);
        assert(s[0] == ls[h]);
        assert(s.subrange(1, la.len() as int) =~= sm);
        lemma_doc_lines_significant(m);
        assert(block_fixture(ls[h], sm) == block_fixture(ls[h], m));
        assert(fixtures_from(s, 0) =~= seq![block_fixture(ls[h], m)] + fixtures_from(t, 0));
    }
}

proof fn lemma_next_header_skip_prefix(ls: Seq<Seq<char>>, k: int, j: int)
    requires
        0 <= j <= k <= ls.len(),
        forall|i: int| j <= i < k ==> !is_fixture_line(#[trigger] ls[i]),
    ensures
        next_header(ls, j) == next_header(ls, k),
    decreases k - j,
{
    if j < k {
        lemma_next_header_skip_prefix(ls, k, j + 1);
    }
}

/// Dropping lines before the first fixture line leaves the parse as it is.
pub proof fn lemma_parse_lines_drop_prefix(ls: Seq<Seq<char>>, k: int)
    requires
        0 <= k <= next_header(ls, 0),
    ensures
        parse_lines(ls.skip(k)) == parse_lines(ls),
{
    lemma_next_header_bounds(ls, 0);
    let p = ls.take(k);
    let r = ls.skip(k);
    assert(ls =~= p + r);
    lemma_next_header_skip_prefix(ls, k, 0);
    assert(p.len() == k);
    lemma_next_header_shift(p, r, 0);
    lemma_fixtures_from_shift(p, r, next_header(r, 0));
}

/// Lines that carry nothing do not change the parse: the listing parses as
/// it does without them.
pub proof fn lemma_noise_lines_ignored(ls: Seq<Seq<char>>)
    ensures
        parse_lines(significant_lines(ls)) == parse_lines(ls),
{
    let h = next_header(ls, 0);
    lemma_next_header_bounds(ls, 0);
    lemma_fixtures_from_significant(ls, h);
    let p = ls.take(h);
    let z = significant_lines(ls.skip(h));
    assert(ls =~= p + ls.skip(h));
    lemma_significant_concat(p, ls.skip(h));
    assert forall|i: int| 0 <= i < p.len() implies !is_fixture_line(#[trigger] p[i]) by {
        assert(p[i] == ls[i]);
    }
    lemma_significant_no_header(p);
    let sp = significant_lines(p);
    let whole = sp + z;
    assert(significant_lines(ls) == whole);
    assert forall|i: int| 0 <= i < sp.len() implies !is_fixture_line(#[trigger] whole[i]) by {
        assert(whole[i] == sp[i]);
    }
    lemma_next_header_skip_prefix(whole, sp.len() as int, 0);
    lemma_next_header_bounds(whole, 0);
    lemma_parse_lines_drop_prefix(whole, sp.len() as int);
    assert(whole.skip(sp.len() as int) =~= z);
    if h < ls.len() {
        assert(ls.skip(h)[0] == ls[h]);
        assert(z[0] == ls[h]);
    }
    assert(next_header(z, 0) == 0);
}

/// Adding a line that carries nothing anywhere in a listing leaves its
/// fixtures as they are.
pub proof fn lemma_noise_line_added(o1: Seq<char>, o2: Seq<char>, k: int, x: Seq<char>)
    requires
        0 <= k <= lines(o1).len(),
        is_noise_line(x),
        lines(o2) == lines(o1).take(k) + seq![x] + lines(o1).skip(k),
    ensures
        parsed_fixtures(o2) == parsed_fixtures(o1),
{
    let l1 = lines(o1);
    let a = l1.take(k);
    let b = l1.skip(k);
    let one = seq![x];
    assert(l1 =~= a + b);
    lemma_significant_concat(a + one, b);
    lemma_significant_concat(a, one);
    lemma_significant_concat(a, b);
    assert(significant_lines(one) =~= Seq::<Seq<char>>::empty()) by {
        assert(one.drop_first() =~= Seq::<Seq<char>>::empty());
        assert(one[0] == x);
        assert(significant_lines(one.drop_first()) =~= Seq::<Seq<char>>::empty());
    }
    assert(significant_lines(lines(o2)) =~= significant_lines(l1));
    lemma_noise_lines_ignored(l1);
    lemma_noise_lines_ignored(lines(o2));
}

/// Dropping whole lines before the first fixture line leaves the fixtures as
/// they are.
pub proof fn lemma_lines_before_first_fixture_dropped(o1: Seq<char>, o2: Seq<char>, k: int)
    requires
        0 <= k <= next_header(lines(o1), 0),
        lines(o2) == lines(o1).skip(k),
    ensures
        parsed_fixtures(o2) == parsed_fixtures(o1),
{
    lemma_parse_lines_drop_prefix(lines(o1), k);
}

} // verus!
