//! Assembly of patched file contents and application of an accepted set.
//!
//! A suggestion's edit replaces the inclusive character span between its
//! start and end positions. The patched text is assembled from the lines
//! of the old text: the lines strictly before the span's first line, each
//! with its break; the part of the span's first line before the start
//! column; the replacement, verbatim; the rest of the span's last line
//! from the end column on, followed by that line's break; a further break
//! closing the replaced section; and the lines strictly after the span's
//! last line, each with their break. The output is assembled from line
//! contents and single `'\n'` characters alone, so its breaks are always
//! single newlines — a `"\r\n"` break in the old text is normalized — and
//! it always ends with a line break.
//!
//! An accepted set is applied in reverse acceptance order — not reverse
//! source-position order — and each edit is applied to the file content
//! as left by the edits applied before it.

use vstd::prelude::*;
use crate::suggestion::{Suggestion, SuggestionModel, LineRange};
use crate::dedup::models;
use crate::lines::{lines_of, cat_nl, nl, line_views, split_lines, lemma_cat_nl_push};

verus! {

/// The first `k` characters of a line, or all of it when `k` reaches past
/// its end.
pub open spec fn prefix_of(l: Seq<char>, k: int) -> Seq<char> {
    if k < 0 {
        Seq::empty()
    } else if k <= l.len() {
        l.take(k)
    } else {
        l
    }
}

/// The characters of a line from position `k` on; nothing when `k`
/// reaches past its end.
pub open spec fn suffix_from(l: Seq<char>, k: int) -> Seq<char> {
    if k < 0 {
        l
    } else if k <= l.len() {
        l.skip(k)
    } else {
        Seq::empty()
    }
}

/// The line at index `i`, or the empty line when the text is shorter.
pub open spec fn line_at(ls: Seq<Seq<char>>, i: int) -> Seq<char> {
    if 0 <= i < ls.len() {
        ls[i]
    } else {
        Seq::empty()
    }
}

/// The first `k` lines, or all of them when `k` reaches past the end.
pub open spec fn take_lines(ls: Seq<Seq<char>>, k: int) -> Seq<Seq<char>> {
    if k < 0 {
        Seq::empty()
    } else if k <= ls.len() {
        ls.take(k)
    } else {
        ls
    }
}

/// The lines from index `k` on, or none when `k` reaches past the end.
pub open spec fn drop_lines(ls: Seq<Seq<char>>, k: int) -> Seq<Seq<char>> {
    if k < 0 {
        ls
    } else if k <= ls.len() {
        ls.skip(k)
    } else {
        Seq::empty()
    }
}

/// The text that replacing the span `range` of `t` with `repl` assembles.
pub open spec fn patched(t: Seq<char>, range: LineRange, repl: Seq<char>) -> Seq<char> {
    let ls = lines_of(t);
    let sl = range.start.line - 1;
    let sc = range.start.column - 1;
    let el = range.end.line - 1;
    let ec = range.end.column - 1;
    cat_nl(take_lines(ls, sl)) + prefix_of(line_at(ls, sl), sc) + repl + suffix_from(
        line_at(ls, el),
        ec,
    ) + nl() + nl() + cat_nl(drop_lines(ls, el + 1))
}

/// Assembles the content of `text` with the suggestion's span replaced by
/// its replacement text.
pub fn apply_suggestion_to_text(text: &str, s: &Suggestion) -> (out: String)
    requires
        s.wf(),
    ensures
        out@ == patched(text@, s.line_range, s@.replacement),
{
    let lines = split_lines(text);
    let ghost ls = lines_of(text@);
    let n_lines = lines.len();
    let sl = s.line_range.start.line - 1;
    let sc = s.line_range.start.column - 1;
    let el = s.line_range.end.line - 1;
    let ec = s.line_range.end.column - 1;

    let mut out = String::new();
    proof {
        reveal_strlit("\n");
        assert("\n"@ =~= nl());
    }

    // Lines strictly before the span, each with its break.
    let head_end = if sl < n_lines {
        sl
    } else {
        n_lines
    };
    let mut i: usize = 0;
    proof {
        assert(ls.take(0) =~= Seq::<Seq<char>>::empty());
    }
    while i < head_end
        invariant
            line_views(lines@) == ls,
            n_lines == ls.len(),
            i <= head_end <= n_lines,
            out@ == cat_nl(ls.take(i as int)),
        decreases head_end - i,
    {
        out.append(lines[i]);
        out.append("\n");
        proof {
            reveal_strlit("\n");
            assert("\n"@ =~= nl());
            assert(ls.take(i + 1) =~= ls.take(i as int).push(ls[i as int]));
            lemma_cat_nl_push(ls.take(i as int), ls[i as int]);
        }
        i += 1;
    }
    proof {
        assert(ls.take(n_lines as int) =~= ls);
        assert(out@ == cat_nl(take_lines(ls, sl as int)));
    }
    let ghost part_head = out@;

    // The part of the span's first line before the start column.
    if sl < n_lines {
        let l = lines[sl];
        let ll = l.unicode_len();
        let k = if sc < ll {
            sc
        } else {
            ll
        };
        out.append(l.substring_char(0, k));
        proof {
            assert(l@.subrange(0, k as int) =~= prefix_of(line_at(ls, sl as int), sc as int));
        }
    }
    proof {
        assert(out@ == part_head + prefix_of(line_at(ls, sl as int), sc as int));
    }
    // The replacement, verbatim.
    out.append(s.replacement.as_str());
    let ghost part_repl = out@;

    // The rest of the span's last line from the end column on.
    if el < n_lines {
        let l = lines[el];
        let ll = l.unicode_len();
        if ec <= ll {
            out.append(l.substring_char(ec, ll));
            proof {
                assert(l@.subrange(ec as int, ll as int) =~= suffix_from(
                    line_at(ls, el as int),
                    ec as int,
                ));
            }
        }
    }
    proof {
        assert(out@ == part_repl + suffix_from(line_at(ls, el as int), ec as int));
    }

    // The break of the span's last line and the break closing the
    // replaced section.
    out.append("\n");
    out.append("\n");

    // Lines strictly after the span, each with their break.
    let tail_start = if el + 1 < n_lines {
        el + 1
    } else {
        n_lines
    };
    let ghost part_breaks = out@;
    let mut i2 = tail_start;
    proof {
        assert(ls.subrange(tail_start as int, tail_start as int) =~= Seq::<Seq<char>>::empty());
    }
    while i2 < n_lines
        invariant
            line_views(lines@) == ls,
            n_lines == ls.len(),
            tail_start <= i2 <= n_lines,
            out@ == part_breaks + cat_nl(ls.subrange(tail_start as int, i2 as int)),
        decreases n_lines - i2,
    {
        out.append(lines[i2]);
        out.append("\n");
        proof {
            reveal_strlit("\n");
            assert("\n"@ =~= nl());
            assert(ls.subrange(tail_start as int, i2 + 1) =~= ls.subrange(
                tail_start as int,
                i2 as int,
            ).push(ls[i2 as int]));
            lemma_cat_nl_push(ls.subrange(tail_start as int, i2 as int), ls[i2 as int]);
        }
        i2 += 1;
    }
    proof {
        if el as int + 1 <= n_lines as int {
            assert(tail_start as int == el as int + 1);
            assert(ls.subrange(tail_start as int, n_lines as int) =~= ls.skip(el as int + 1));
        } else {
            assert(tail_start == n_lines);
            assert(ls.subrange(tail_start as int, n_lines as int) =~= Seq::<Seq<char>>::empty());
            assert(drop_lines(ls, el as int + 1) =~= Seq::<Seq<char>>::empty());
        }
        assert(out@ == part_breaks + cat_nl(drop_lines(ls, el as int + 1)));
        assert(out@ == patched(text@, s.line_range, s@.replacement));
    }
    out
}

/// A file held in memory: its name and its current text.
pub struct SourceFile {
    pub name: String,
    pub content: String,
}

/// The mathematical content of a file.
pub struct FileModel {
    pub name: Seq<char>,
    pub content: Seq<char>,
}

impl View for SourceFile {
    type V = FileModel;

    open spec fn view(&self) -> FileModel {
        FileModel { name: self.name@, content: self.content@ }
    }
}

/// The sequence of file models behind a sequence of files.
pub open spec fn file_models(fs: Seq<SourceFile>) -> Seq<FileModel> {
    fs.map_values(|f: SourceFile| f@)
}

/// The least index of the file with the given name, or -1 when no file
/// carries it.
pub open spec fn find_file(fs: Seq<FileModel>, name: Seq<char>) -> int
    decreases fs.len(),
{
    if fs.len() == 0 {
        -1
    } else if fs[0].name == name {
        0
    } else {
        let r = find_file(fs.skip(1), name);
        if r < 0 {
            -1
        } else {
            1 + r
        }
    }
}

/// `find_file` names the first match.
pub proof fn lemma_find_file_at(fs: Seq<FileModel>, name: Seq<char>, k: int)
    requires
        0 <= k < fs.len(),
        fs[k].name == name,
        forall|j: int| 0 <= j < k ==> (#[trigger] fs[j]).name != name,
    ensures
        find_file(fs, name) == k,
    decreases fs.len(),
{
    if k > 0 {
        assert(fs[0].name != name);
        assert forall|j: int| 0 <= j < k - 1 implies (#[trigger] fs.skip(1)[j]).name != name by {
            assert(fs.skip(1)[j] == fs[j + 1]);
        }
        assert(fs.skip(1)[k - 1] == fs[k]);
        lemma_find_file_at(fs.skip(1), name, k - 1);
    }
}

/// When no file carries the name, `find_file` is -1.
pub proof fn lemma_find_file_none(fs: Seq<FileModel>, name: Seq<char>)
    requires
        forall|j: int| 0 <= j < fs.len() ==> (#[trigger] fs[j]).name != name,
    ensures
        find_file(fs, name) == -1,
    decreases fs.len(),
{
    if fs.len() > 0 {
        assert forall|j: int| 0 <= j < fs.skip(1).len() implies (#[trigger] fs.skip(1)[j]).name
            != name by {
            assert(fs.skip(1)[j] == fs[j + 1]);
        }
        lemma_find_file_none(fs.skip(1), name);
    }
}

/// One edit applied to the file set: the first file with the edit's name
/// has its content patched; when no file carries the name, the edit fails
/// and the set is unchanged.
pub open spec fn apply_one(fs: Seq<FileModel>, s: SuggestionModel) -> (Seq<FileModel>, bool) {
    let i = find_file(fs, s.file_name);
    if i < 0 {
        (fs, false)
    } else {
        (
            fs.update(
                i,
                FileModel { name: fs[i].name, content: patched(fs[i].content, s.line_range, s.replacement) },
            ),
            true,
        )
    }
}

/// A whole accepted set applied in reverse acceptance order. A failing
/// edit stops the run; edits already applied stay applied.
pub open spec fn apply_all(fs: Seq<FileModel>, acc: Seq<SuggestionModel>) -> (Seq<FileModel>, bool)
    decreases acc.len(),
{
    if acc.len() == 0 {
        (fs, true)
    } else {
        let step = apply_one(fs, acc.last());
        if step.1 {
            apply_all(step.0, acc.drop_last())
        } else {
            (step.0, false)
        }
    }
}

/// Finds the first file with the given name.
fn find_file_index(files: &Vec<SourceFile>, name: &str) -> (r: Option<usize>)
    ensures
        match r {
            Option::Some(i) => i < files@.len() && find_file(file_models(files@), name@) == i as int,
            Option::None => find_file(file_models(files@), name@) == -1,
        },
{
    let ghost fs = file_models(files@);
    let mut i: usize = 0;
    while i < files.len()
        invariant
            fs == file_models(files@),
            i <= files@.len(),
            forall|j: int| 0 <= j < i ==> (#[trigger] fs[j]).name != name@,
        decreases files@.len() - i,
    {
        if crate::suggestion::str_eq(files[i].name.as_str(), name) {
            proof {
                lemma_find_file_at(fs, name@, i as int);
            }
            return Some(i);
        }
        i += 1;
    }
    proof {
        lemma_find_file_none(fs, name@);
    }
    None
}

/// Applies an accepted set of suggestions to a set of files held in
/// memory, in reverse acceptance order, each edit against the content as
/// left by the edits applied before it. Returns false when an edit named
/// a file that is not in the set; the edits applied up to that point stay
/// applied, and an empty accepted set leaves every file untouched.
pub fn apply_accepted(files: &mut Vec<SourceFile>, accepted: &Vec<Suggestion>) -> (ok: bool)
    requires
        forall|i: int| 0 <= i < accepted@.len() ==> (#[trigger] accepted@[i]).wf(),
    ensures
        file_models(final(files)@) == apply_all(file_models(old(files)@), models(accepted@)).0,
        ok == apply_all(file_models(old(files)@), models(accepted@)).1,
        accepted@.len() == 0 ==> final(files)@ == old(files)@,
{
    let ghost ms = models(accepted@);
    let ghost fs0 = file_models(old(files)@);
    let mut k = accepted.len();
    proof {
        assert(ms.take(k as int) =~= ms);
    }
    while k > 0
        invariant
            forall|i: int| 0 <= i < accepted@.len() ==> (#[trigger] accepted@[i]).wf(),
            ms == models(accepted@),
            fs0 == file_models(old(files)@),
            k <= ms.len(),
            apply_all(fs0, ms) == apply_all(file_models(files@), ms.take(k as int)),
            accepted@.len() == 0 ==> files@ == old(files)@,
        decreases k,
    {
        let s = &accepted[k - 1];
        let ghost fs_cur = file_models(files@);
        proof {
            assert(ms[k - 1] == accepted@[k - 1]@);
            assert(ms.take(k as int).last() == ms[k - 1]);
            assert(ms.take(k as int).drop_last() =~= ms.take(k - 1));
        }
        match find_file_index(files, s.file_name.as_str()) {
            Option::None => {
                proof {
                    assert(find_file(fs_cur, ms[k - 1].file_name) == -1);
                    assert(apply_one(fs_cur, ms.take(k as int).last()) == (fs_cur, false));
                    assert(apply_all(fs_cur, ms.take(k as int)) == (fs_cur, false));
                }
                return false;
            },
            Option::Some(i) => {
                let newc = apply_suggestion_to_text(files[i].content.as_str(), s);
                let name = files[i].name.clone();
                files.set(i, SourceFile { name, content: newc });
                proof {
                    assert(file_models(files@) =~= fs_cur.update(
                        i as int,
                        FileModel {
                            name: fs_cur[i as int].name,
                            content: patched(
                                fs_cur[i as int].content,
                                ms[k - 1].line_range,
                                ms[k - 1].replacement,
                            ),
                        },
                    ));
                    assert(apply_one(fs_cur, ms[k - 1]) == (file_models(files@), true));
                    assert(apply_all(fs_cur, ms.take(k as int)) == apply_all(
                        file_models(files@),
                        ms.take(k - 1),
                    ));
                }
            },
        }
        k -= 1;
    }
    proof {
        assert(ms.take(0) =~= Seq::<SuggestionModel>::empty());
    }
    true
}

} // verus!
