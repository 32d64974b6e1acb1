//! Text shaping helpers for presenting suggestions.

use vstd::prelude::*;
use crate::suggestion::{is_space_char, is_space};
use crate::lines::{lines_of, join_nl, nl, line_views, split_lines, lemma_join_nl_push};

verus! {

/// Returns true when the string holds a character that is not whitespace.
pub fn not_empty(s: &&str) -> (r: bool)
    ensures
        r == exists|i: int| 0 <= i < s@.len() && !is_space_char(s@[i]),
{
    let n = s.unicode_len();
    let mut i: usize = 0;
    while i < n
        invariant
            i <= n,
            n == s@.len(),
            forall|j: int| 0 <= j < i ==> is_space_char(s@[j]),
        decreases n - i,
    {
        if !is_space(s.get_char(i)) {
            return true;
        }
        i += 1;
    }
    false
}

/// What each separator becomes: a line break plus alignment under the
/// info label that precedes the message.
pub open spec fn lint_sep_repl() -> Seq<char> {
    seq!['\n', ' ', ' ', ' ', ' ', ' ', ' ', '#', '[']
}

/// A lint separator starts at position `i` of `t`.
pub open spec fn sep_at(t: Seq<char>, i: int) -> bool {
    0 <= i && i + 4 <= t.len() && t[i] == ',' && t[i + 1] == ' ' && t[i + 2] == '#' && t[i + 3]
        == '['
}

/// The text with each lint separator, found left to right without
/// overlap, replaced by a break and alignment.
pub open spec fn replace_sep(t: Seq<char>) -> Seq<char>
    decreases t.len(),
{
    if sep_at(t, 0) {
        lint_sep_repl() + replace_sep(t.skip(4))
    } else if t.len() == 0 {
        Seq::empty()
    } else {
        seq![t[0]] + replace_sep(t.skip(1))
    }
}

/// A stretch with no separator start passes through `replace_sep`
/// verbatim.
proof fn lemma_replace_plain(t: Seq<char>, j: int)
    requires
        0 <= j <= t.len(),
        forall|x: int| 0 <= x < j ==> !sep_at(t, x),
    ensures
        replace_sep(t) == t.take(j) + replace_sep(t.skip(j)),
    decreases j,
{
    if j == 0 {
        assert(t.take(0) =~= Seq::<char>::empty());
        assert(t.skip(0) =~= t);
        assert(t.take(0) + replace_sep(t.skip(0)) =~= replace_sep(t));
    } else {
        assert(!sep_at(t, 0));
        let t1 = t.skip(1);
        assert forall|x: int| 0 <= x < j - 1 implies !sep_at(t1, x) by {
            assert(!sep_at(t, x + 1));
            assert(t1.len() == t.len() - 1);
            if 0 <= x && x + 4 <= t1.len() {
                assert(t1[x] == t[x + 1] && t1[x + 1] == t[x + 2] && t1[x + 2] == t[x + 3] && t1[x
                    + 3] == t[x + 4]);
            }
        }
        lemma_replace_plain(t1, j - 1);
        assert(t1.skip(j - 1) =~= t.skip(j));
        assert(t.take(j) =~= seq![t[0]] + t1.take(j - 1));
        vstd::seq_lib::lemma_concat_associative(seq![t[0]], t1.take(j - 1), replace_sep(t.skip(j)));
    }
}

/// Finds the next lint separator start at or after `from`.
fn find_sep(s: &str, from: usize) -> (r: usize)
    requires
        from <= s@.len(),
    ensures
        from <= r <= s@.len(),
        forall|x: int| from <= x < r ==> !sep_at(s@, x),
        r < s@.len() ==> sep_at(s@, r as int),
{
    let n = s.unicode_len();
    let mut j = from;
    while j < n
        invariant
            from <= j <= n,
            n == s@.len(),
            forall|x: int| from <= x < j ==> !sep_at(s@, x),
        decreases n - j,
    {
        if n - j >= 4 && s.get_char(j) == ',' && s.get_char(j + 1) == ' ' && s.get_char(j + 2)
            == '#' && s.get_char(j + 3) == '[' {
            return j;
        }
        j += 1;
    }
    n
}

/// Breaks a diagnostic message before each lint attribute reference and
/// aligns the attribute under the info label.
pub fn split_at_lint_name(s: &str) -> (r: String)
    ensures
        r@ == replace_sep(s@),
{
    let n = s.unicode_len();
    let mut out = String::new();
    let mut i: usize = 0;
    proof {
        assert(s@.skip(0) =~= s@);
        assert(out@ + replace_sep(s@) =~= replace_sep(s@));
    }
    while i < n
        invariant
            n == s@.len(),
            i <= n,
            replace_sep(s@) == out@ + replace_sep(s@.skip(i as int)),
        decreases n - i,
    {
        let j = find_sep(s, i);
        let ghost prev = out@;
        out.append(s.substring_char(i, j));
        proof {
            let ti = s@.skip(i as int);
            assert forall|x: int| 0 <= x < j - i implies !sep_at(ti, x) by {
                assert(!sep_at(s@, x + i));
                if 0 <= x && x + 4 <= ti.len() {
                    assert(ti[x] == s@[x + i] && ti[x + 1] == s@[x + i + 1] && ti[x + 2] == s@[x + i
                        + 2] && ti[x + 3] == s@[x + i + 3]);
                }
            }
            lemma_replace_plain(ti, j - i);
            assert(ti.take(j - i) =~= s@.subrange(i as int, j as int));
            assert(ti.skip(j - i) =~= s@.skip(j as int));
            vstd::seq_lib::lemma_concat_associative(
                prev,
                s@.subrange(i as int, j as int),
                replace_sep(s@.skip(j as int)),
            );
        }
        if j < n {
            let ghost prev2 = out@;
            out.append("\n      #[");
            proof {
                reveal_strlit("\n      #[");
                assert("\n      #["@ =~= lint_sep_repl());
                let tj = s@.skip(j as int);
                assert(sep_at(tj, 0)) by {
                    assert(tj[0] == s@[j as int] && tj[1] == s@[j as int + 1] && tj[2] == s@[
                        j as int + 2] && tj[3] == s@[j as int + 3]);
                }
                assert(tj.skip(4) =~= s@.skip(j as int + 4));
                vstd::seq_lib::lemma_concat_associative(
                    prev2,
                    lint_sep_repl(),
                    replace_sep(s@.skip(j as int + 4)),
                );
            }
            i = j + 4;
        } else {
            i = n;
        }
    }
    proof {
        assert(s@.skip(n as int) =~= Seq::<char>::empty());
        assert(out@ + replace_sep(s@.skip(n as int)) =~= out@);
    }
    out
}

/// A run of spaces.
pub open spec fn space_seq(n: int) -> Seq<char> {
    Seq::new(
        if n >= 0 {
            n as nat
        } else {
            0
        },
        |i: int| ' ',
    )
}

/// Each line of the text preceded by `size` spaces, the lines joined by
/// single line breaks with no trailing one.
pub open spec fn indent_spec(size: int, t: Seq<char>) -> Seq<char> {
    join_nl(lines_of(t).map_values(|l: Seq<char>| space_seq(size) + l))
}

/// Indents every line of a text by the given number of spaces.
pub fn indent(size: u32, s: &str) -> (r: String)
    ensures
        r@ == indent_spec(size as int, s@),
{
    let size_us = size as usize;
    let mut ws = String::new();
    let mut k: usize = 0;
    proof {
        assert(ws@ =~= space_seq(0));
    }
    while k < size_us
        invariant
            k <= size_us,
            ws@ == space_seq(k as int),
        decreases size_us - k,
    {
        ws.append(" ");
        proof {
            reveal_strlit(" ");
            assert(" "@ =~= seq![' ']);
            assert(space_seq(k as int) + seq![' '] =~= space_seq(k as int + 1));
        }
        k += 1;
    }
    let lines = split_lines(s);
    let ghost mapped = lines_of(s@).map_values(|l: Seq<char>| space_seq(size as int) + l);
    let n_lines = lines.len();
    let mut out = String::new();
    let mut i: usize = 0;
    proof {
        assert(mapped.take(0) =~= Seq::<Seq<char>>::empty());
    }
    while i < n_lines
        invariant
            line_views(lines@) == lines_of(s@),
            mapped == lines_of(s@).map_values(|l: Seq<char>| space_seq(size as int) + l),
            ws@ == space_seq(size as int),
            n_lines == lines@.len(),
            i <= n_lines,
            out@ == join_nl(mapped.take(i as int)),
        decreases n_lines - i,
    {
        let ghost prev = out@;
        if i > 0 {
            out.append("\n");
        }
        out.append(ws.as_str());
        out.append(lines[i]);
        proof {
            reveal_strlit("\n");
            assert("\n"@ =~= nl());
            assert(mapped.take(i as int + 1) =~= mapped.take(i as int).push(mapped[i as int]));
            lemma_join_nl_push(mapped.take(i as int), mapped[i as int]);
            assert(mapped[i as int] == space_seq(size as int) + lines@[i as int]@);
            if i > 0 {
                vstd::seq_lib::lemma_concat_associative(
                    prev + nl(),
                    space_seq(size as int),
                    lines@[i as int]@,
                );
            } else {
                assert(out@ =~= mapped[0]);
            }
        }
        i += 1;
    }
    proof {
        assert(mapped.take(n_lines as int) =~= mapped);
    }
    out
}

} // verus!
