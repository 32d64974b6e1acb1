//! Splitting text into lines and reassembling text from lines.
//!
//! Text is a sequence of characters whose line breaks are `'\n'` or
//! `"\r\n"`; a line's content excludes its break, so reassembling with
//! single `'\n'` characters normalizes the breaks. A carriage return not
//! followed by a line feed is ordinary text. A trailing break closes the
//! last line rather than opening an empty one, so `a\nb\n` and `a\nb`
//! both split into two lines.

use vstd::prelude::*;

verus! {

/// A single line break.
pub open spec fn nl() -> Seq<char> {
    seq!['\n']
}

/// The index of the first line break of `t`, or `t.len()` when none
/// occurs.
pub open spec fn first_nl(t: Seq<char>) -> int
    decreases t.len(),
{
    if t.len() == 0 {
        0
    } else if t[0] == '\n' {
        0
    } else {
        1 + first_nl(t.skip(1))
    }
}

pub proof fn lemma_first_nl_bounds(t: Seq<char>)
    ensures
        0 <= first_nl(t) <= t.len(),
    decreases t.len(),
{
    if t.len() > 0 && t[0] != '\n' {
        lemma_first_nl_bounds(t.skip(1));
    }
}

/// Nothing before the first line break is a line break, and the character
/// at it, when it lies within the text, is one.
pub proof fn lemma_first_nl_props(t: Seq<char>)
    ensures
        forall|j: int| 0 <= j < first_nl(t) ==> t[j] != '\n',
        first_nl(t) < t.len() ==> t[first_nl(t)] == '\n',
    decreases t.len(),
{
    if t.len() > 0 && t[0] != '\n' {
        lemma_first_nl_bounds(t.skip(1));
        lemma_first_nl_props(t.skip(1));
        assert forall|j: int| 0 <= j < first_nl(t) implies t[j] != '\n' by {
            if j > 0 {
                assert(t.skip(1)[j - 1] == t[j]);
            }
        }
        if first_nl(t) < t.len() {
            assert(t[first_nl(t)] == t.skip(1)[first_nl(t.skip(1))]);
        }
    }
}

/// `first_nl` is where the characters say it is.
pub proof fn lemma_first_nl_at(t: Seq<char>, k: int)
    requires
        0 <= k <= t.len(),
        forall|j: int| 0 <= j < k ==> t[j] != '\n',
        k < t.len() ==> t[k] == '\n',
    ensures
        first_nl(t) == k,
    decreases t.len(),
{
    if t.len() > 0 && t[0] != '\n' {
        assert forall|j: int| 0 <= j < k - 1 implies t.skip(1)[j] != '\n' by {
            assert(t.skip(1)[j] == t[j + 1]);
        }
        assert(k - 1 < t.skip(1).len() ==> t.skip(1)[k - 1] == t[k]);
        lemma_first_nl_at(t.skip(1), k - 1);
    }
}

/// A line's content: the text up to its break, without the carriage
/// return of a `"\r\n"` break.
pub open spec fn strip_cr(l: Seq<char>) -> Seq<char> {
    if l.len() > 0 && l[l.len() - 1] == '\r' {
        l.drop_last()
    } else {
        l
    }
}

/// The lines of a text, split at line breaks.
pub open spec fn lines_of(t: Seq<char>) -> Seq<Seq<char>>
    decreases t.len(),
{
    if t.len() == 0 {
        Seq::empty()
    } else {
        let i = first_nl(t);
        if i < 0 || i >= t.len() {
            seq![t]
        } else {
            seq![strip_cr(t.take(i))] + lines_of(t.skip(i + 1))
        }
    }
}

/// Each line followed by a line break, concatenated.
pub open spec fn cat_nl(ls: Seq<Seq<char>>) -> Seq<char>
    decreases ls.len(),
{
    if ls.len() == 0 {
        Seq::empty()
    } else {
        ls[0] + nl() + cat_nl(ls.skip(1))
    }
}

/// Lines joined by single line breaks, with no trailing one.
pub open spec fn join_nl(ls: Seq<Seq<char>>) -> Seq<char>
    decreases ls.len(),
{
    if ls.len() == 0 {
        Seq::empty()
    } else if ls.len() == 1 {
        ls[0]
    } else {
        ls[0] + nl() + join_nl(ls.skip(1))
    }
}

pub proof fn lemma_cat_nl_push(ls: Seq<Seq<char>>, x: Seq<char>)
    ensures
        cat_nl(ls.push(x)) == cat_nl(ls) + x + nl(),
    decreases ls.len(),
{
    if ls.len() == 0 {
        assert(ls.push(x).skip(1) =~= Seq::<Seq<char>>::empty());
        assert(ls.push(x)[0] == x);
        assert(cat_nl(ls.push(x)) == x + nl() + cat_nl(ls.push(x).skip(1)));
        assert(cat_nl(ls.push(x).skip(1)) == Seq::<char>::empty());
        assert(cat_nl(ls) == Seq::<char>::empty());
        assert(cat_nl(ls.push(x)) =~= cat_nl(ls) + x + nl());
    } else {
        assert(ls.push(x).skip(1) =~= ls.skip(1).push(x));
        lemma_cat_nl_push(ls.skip(1), x);
        assert(ls.push(x)[0] == ls[0]);
        let a = ls[0] + nl();
        let b = cat_nl(ls.skip(1));
        assert(cat_nl(ls.push(x)) == a + (b + x + nl()));
        assert(cat_nl(ls) == a + b);
        vstd::seq_lib::lemma_concat_associative(a, b, x);
        vstd::seq_lib::lemma_concat_associative(a, b + x, nl());
        assert(cat_nl(ls.push(x)) == cat_nl(ls) + x + nl());
    }
}

pub proof fn lemma_join_nl_push(ls: Seq<Seq<char>>, x: Seq<char>)
    ensures
        ls.len() == 0 ==> join_nl(ls.push(x)) == x,
        ls.len() > 0 ==> join_nl(ls.push(x)) == join_nl(ls) + nl() + x,
    decreases ls.len(),
{
    if ls.len() == 0 {
        assert(join_nl(ls.push(x)) == ls.push(x)[0]);
    } else {
        assert(ls.push(x).skip(1) =~= ls.skip(1).push(x));
        lemma_join_nl_push(ls.skip(1), x);
        assert(join_nl(ls.push(x)) =~= join_nl(ls) + nl() + x);
    }
}

/// Splitting may be cut at any line boundary: the lines of a text are the
/// lines of the part up to the boundary followed by the lines of the rest.
pub proof fn lemma_lines_split(t: Seq<char>, pos: int)
    requires
        0 <= pos <= t.len(),
        pos == 0 || t[pos - 1] == '\n',
    ensures
        lines_of(t) == lines_of(t.take(pos)) + lines_of(t.skip(pos)),
    decreases pos,
{
    if pos == 0 {
        assert(t.take(0) =~= Seq::<char>::empty());
        assert(t.skip(0) =~= t);
        assert(lines_of(t.take(0)) + lines_of(t.skip(0)) =~= lines_of(t));
    } else {
        let i = first_nl(t);
        lemma_first_nl_bounds(t);
        lemma_first_nl_props(t);
        assert(i <= pos - 1) by {
            if i > pos - 1 {
                assert(t[pos - 1] != '\n');
            }
        }
        let u = t.take(pos);
        assert forall|j: int| 0 <= j < i implies u[j] != '\n' by {
            assert(u[j] == t[j]);
        }
        assert(i < u.len() ==> u[i] == t[i]);
        lemma_first_nl_at(u, i);
        let t2 = t.skip(i + 1);
        let pos2 = pos - i - 1;
        assert(pos2 == 0 || t2[pos2 - 1] == t[pos - 1]);
        lemma_lines_split(t2, pos2);
        assert(u.take(i) =~= t.take(i));
        assert(u.skip(i + 1) =~= t2.take(pos2));
        assert(t.skip(pos) =~= t2.skip(pos2));
        assert(seq![strip_cr(t.take(i))] + (lines_of(t2.take(pos2)) + lines_of(t2.skip(pos2)))
            =~= (seq![strip_cr(t.take(i))] + lines_of(t2.take(pos2))) + lines_of(t2.skip(pos2)));
    }
}

/// Extending the processed part of a text by one full line appends that
/// line to its split.
pub proof fn lemma_lines_extend(t: Seq<char>, pos: int, j: int)
    requires
        0 <= pos <= j <= t.len(),
        pos == 0 || t[pos - 1] == '\n',
        forall|x: int| pos <= x < j ==> t[x] != '\n',
        j < t.len() ==> t[j] == '\n',
        j == t.len() ==> pos < j,
    ensures
        j < t.len() ==> lines_of(t.take(j + 1)) == lines_of(t.take(pos)).push(
            strip_cr(t.subrange(pos, j)),
        ),
        j == t.len() ==> lines_of(t) == lines_of(t.take(pos)).push(t.subrange(pos, j)),
{
    let v = t.subrange(pos, j);
    if j < t.len() {
        let t1 = t.take(j + 1);
        assert(pos == 0 || t1[pos - 1] == '\n');
        lemma_lines_split(t1, pos);
        assert(t1.take(pos) =~= t.take(pos));
        let w = t1.skip(pos);
        assert(w =~= v + nl());
        assert forall|x: int| 0 <= x < v.len() implies w[x] != '\n' by {
            assert(w[x] == t[pos + x]);
        }
        assert(w[v.len() as int] == '\n');
        lemma_first_nl_at(w, v.len() as int);
        assert(w.len() == v.len() + 1);
        assert(w.take(v.len() as int) =~= v);
        assert(w.skip(v.len() as int + 1) =~= Seq::<char>::empty());
        assert(lines_of(w) == seq![strip_cr(w.take(v.len() as int))] + lines_of(
            w.skip(v.len() as int + 1),
        ));
        assert(lines_of(w) =~= seq![strip_cr(v)]);
        assert(lines_of(t.take(pos)) + seq![strip_cr(v)] =~= lines_of(t.take(pos)).push(
            strip_cr(v),
        ));
    } else {
        lemma_lines_split(t, pos);
        let w = t.skip(pos);
        assert(w =~= v);
        assert(w.len() > 0);
        assert forall|x: int| 0 <= x < w.len() implies w[x] != '\n' by {
            assert(w[x] == t[pos + x]);
        }
        lemma_first_nl_at(w, w.len() as int);
        assert(lines_of(w) =~= seq![v]);
        assert(lines_of(t.take(pos)) + seq![v] =~= lines_of(t.take(pos)).push(v));
    }
}

/// The views of a vector of line slices.
pub open spec fn line_views(ls: Seq<&str>) -> Seq<Seq<char>> {
    ls.map_values(|l: &str| l@)
}

/// Finds the next line break at or after `from`.
pub fn find_nl(s: &str, from: usize) -> (r: usize)
    requires
        from <= s@.len(),
    ensures
        from <= r <= s@.len(),
        forall|x: int| from <= x < r ==> s@[x] != '\n',
        r < s@.len() ==> s@[r as int] == '\n',
{
    let n = s.unicode_len();
    let mut i = from;
    while i < n
        invariant
            from <= i <= n,
            n == s@.len(),
            forall|x: int| from <= x < i ==> s@[x] != '\n',
        decreases n - i,
    {
        if s.get_char(i) == '\n' {
            return i;
        }
        i += 1;
    }
    n
}

/// Splits a text into its lines.
pub fn split_lines<'a>(text: &'a str) -> (out: Vec<&'a str>)
    ensures
        line_views(out@) == lines_of(text@),
{
    let n = text.unicode_len();
    let mut out: Vec<&str> = Vec::new();
    let mut pos: usize = 0;
    proof {
        assert(text@.take(0) =~= Seq::<char>::empty());
        assert(line_views(out@) =~= lines_of(text@.take(0)));
    }
    while pos < n
        invariant
            n == text@.len(),
            pos <= n,
            pos == n || pos == 0 || text@[pos - 1] == '\n',
            line_views(out@) == lines_of(text@.take(pos as int)),
        decreases n - pos,
    {
        let j = find_nl(text, pos);
        let line = if j < n && j > pos && text.get_char(j - 1) == '\r' {
            text.substring_char(pos, j - 1)
        } else {
            text.substring_char(pos, j)
        };
        let ghost prev = line_views(out@);
        out.push(line);
        proof {
            assert(line_views(out@) =~= prev.push(line@));
            lemma_lines_extend(text@, pos as int, j as int);
            let v = text@.subrange(pos as int, j as int);
            if j < n {
                if j > pos && text@[j - 1] == '\r' {
                    assert(v.len() > 0 && v[v.len() - 1] == text@[j - 1]);
                    assert(strip_cr(v) =~= text@.subrange(pos as int, j as int - 1));
                } else {
                    if v.len() > 0 {
                        assert(v[v.len() - 1] == text@[j - 1]);
                    }
                    assert(strip_cr(v) == v);
                }
            }
        }
        if j < n {
            pos = j + 1;
        } else {
            proof {
                assert(text@.take(n as int) =~= text@);
            }
            pos = n;
        }
    }
    proof {
        assert(text@.take(n as int) =~= text@);
    }
    out
}

} // verus!
