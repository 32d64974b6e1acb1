//! Deduplication of import suggestions.
//!
//! A diagnostic producer may emit the same import several times for one
//! symbol at one location, for example through equally valid paths. The
//! suggestions whose edit is an import statement are partitioned by file,
//! original span and canonical symbol; in each group only the member with
//! the shortest replacement survives, the earliest on ties. Every surviving
//! import suggestion is then relocated to the zero-width span at the top of
//! the file, so the patch stage treats it as a prepend. Suggestions that
//! are not imports pass through untouched.

use vstd::prelude::*;
use crate::suggestion::{Suggestion, SuggestionModel, LineRange, canonical_symbol, str_eq};

verus! {

/// The sequence of suggestion models behind a sequence of suggestions.
pub open spec fn models(ss: Seq<Suggestion>) -> Seq<SuggestionModel> {
    ss.map_values(|s: Suggestion| s@)
}

/// Two import suggestions fall into the same group: same file, same
/// original span, same canonical symbol.
pub open spec fn same_key(a: SuggestionModel, b: SuggestionModel) -> bool {
    a.file_name == b.file_name && a.line_range == b.line_range && a.symbol() == b.symbol()
}

/// The member at `i` is at least as good a representative as the one at
/// `j`: its replacement is shorter, or equally long and not later.
pub open spec fn preferred(ms: Seq<SuggestionModel>, i: int, j: int) -> bool {
    ms[i].replacement.len() < ms[j].replacement.len() || (ms[i].replacement.len()
        == ms[j].replacement.len() && i <= j)
}

/// The suggestion at `i` survives deduplication: it is not an import, or it
/// is its group's representative.
pub open spec fn survives(ms: Seq<SuggestionModel>, i: int) -> bool {
    !ms[i].is_use() || forall|j: int|
        0 <= j < ms.len() && ms[j].is_use() && #[trigger] same_key(ms[i], ms[j]) ==> preferred(
            ms,
            i,
            j,
        )
}

/// A surviving import suggestion is relocated to the top of the file; any
/// other suggestion is left as it is.
pub open spec fn normalize(m: SuggestionModel) -> SuggestionModel {
    if m.is_use() {
        SuggestionModel { line_range: LineRange::spec_unit(), ..m }
    } else {
        m
    }
}

/// The deduplicated tail of `ms` from index `i` on: survivors in their
/// original relative order, imports relocated.
pub open spec fn dedup_from(ms: Seq<SuggestionModel>, i: int) -> Seq<SuggestionModel>
    decreases ms.len() - i,
{
    if i < 0 || i >= ms.len() {
        Seq::empty()
    } else if survives(ms, i) {
        seq![normalize(ms[i])] + dedup_from(ms, i + 1)
    } else {
        dedup_from(ms, i + 1)
    }
}

/// What deduplication returns for a whole suggestion sequence.
pub open spec fn dedup_spec(ms: Seq<SuggestionModel>) -> Seq<SuggestionModel> {
    dedup_from(ms, 0)
}

/// Compares the group keys of two import suggestions.
fn same_key_exec(a: &Suggestion, b: &Suggestion) -> (r: bool)
    requires
        a@.is_use(),
        b@.is_use(),
    ensures
        r == same_key(a@, b@),
{
    str_eq(a.file_name.as_str(), b.file_name.as_str()) && a.line_range == b.line_range && str_eq(
        canonical_symbol(a.replacement.as_str()),
        canonical_symbol(b.replacement.as_str()),
    )
}

/// Decides whether the suggestion at `i` survives deduplication.
fn survives_at(ss: &Vec<Suggestion>, i: usize) -> (r: bool)
    requires
        i < ss@.len(),
    ensures
        r == survives(models(ss@), i as int),
{
    let ghost ms = models(ss@);
    if !ss[i].is_use_suggestion() {
        return true;
    }
    let li = ss[i].replacement.as_str().unicode_len();
    let mut j: usize = 0;
    while j < ss.len()
        invariant
            ms == models(ss@),
            i < ss@.len(),
            j <= ss@.len(),
            ms[i as int].is_use(),
            li == ms[i as int].replacement.len(),
            forall|j2: int|
                0 <= j2 < j && ms[j2].is_use() && #[trigger] same_key(ms[i as int], ms[j2])
                    ==> preferred(ms, i as int, j2),
        decreases ss@.len() - j,
    {
        if ss[j].is_use_suggestion() && same_key_exec(&ss[i], &ss[j]) {
            let lj = ss[j].replacement.as_str().unicode_len();
            if !(li < lj || (li == lj && i <= j)) {
                proof {
                    assert(ms[j as int].is_use() && same_key(ms[i as int], ms[j as int])
                        && !preferred(ms, i as int, j as int));
                }
                return false;
            }
        }
        j += 1;
    }
    true
}

/// Builds the surviving copy of a suggestion: an import is relocated to
/// the top of the file, anything else is copied unchanged.
fn normalized_clone(s: &Suggestion) -> (t: Suggestion)
    ensures
        t@ == normalize(s@),
{
    let line_range = if s.is_use_suggestion() {
        LineRange::unit()
    } else {
        s.line_range
    };
    Suggestion {
        file_name: s.file_name.clone(),
        line_range,
        replacement: s.replacement.clone(),
        message: s.message.clone(),
        text_lead: s.text_lead.clone(),
        text_highlighted: s.text_highlighted.clone(),
        text_trail: s.text_trail.clone(),
    }
}

/// Deduplicates the import suggestions of a sequence, in place.
pub fn comb_use_suggestions(suggestions: &mut Vec<Suggestion>)
    ensures
        models(final(suggestions)@) == dedup_spec(models(old(suggestions)@)),
{
    let ghost ms = models(old(suggestions)@);
    let mut out: Vec<Suggestion> = Vec::new();
    let mut i: usize = 0;
    proof {
        assert(models(out@) =~= Seq::<SuggestionModel>::empty());
    }
    while i < suggestions.len()
        invariant
            suggestions@ == old(suggestions)@,
            ms == models(suggestions@),
            i <= ms.len(),
            models(out@) + dedup_from(ms, i as int) == dedup_from(ms, 0),
        decreases ms.len() - i,
    {
        if survives_at(suggestions, i) {
            let t = normalized_clone(&suggestions[i]);
            let ghost prev = models(out@);
            out.push(t);
            proof {
                assert(models(out@) =~= prev + seq![normalize(ms[i as int])]);
                assert(models(out@) + dedup_from(ms, i + 1) =~= prev + dedup_from(ms, i as int));
            }
        }
        i += 1;
    }
    proof {
        assert(models(out@) =~= models(out@) + dedup_from(ms, i as int));
    }
    *suggestions = out;
}

/// Keeps only the import suggestions, in order, for the configuration
/// that restricts the review to imports before deduplication.
pub fn filter_use_suggestions(suggestions: &Vec<Suggestion>) -> (out: Vec<Suggestion>)
    ensures
        models(out@) == models(suggestions@).filter(|m: SuggestionModel| m.is_use()),
{
    let ghost ms = models(suggestions@);
    let ghost p = |m: SuggestionModel| m.is_use();
    let mut out: Vec<Suggestion> = Vec::new();
    let mut i: usize = 0;
    proof {
        reveal_with_fuel(Seq::filter, 1);
        assert(ms.take(0) =~= Seq::<SuggestionModel>::empty());
        assert(models(out@) =~= ms.take(0).filter(p));
    }
    while i < suggestions.len()
        invariant
            ms == models(suggestions@),
            p == (|m: SuggestionModel| m.is_use()),
            i <= ms.len(),
            models(out@) == ms.take(i as int).filter(p),
        decreases ms.len() - i,
    {
        let ghost prev = models(out@);
        if suggestions[i].is_use_suggestion() {
            out.push(suggestions[i].duplicate());
        }
        proof {
            reveal_with_fuel(Seq::filter, 1);
            assert(ms.take(i + 1).drop_last() =~= ms.take(i as int));
            assert(ms.take(i + 1).last() == ms[i as int]);
            if ms[i as int].is_use() {
                assert(models(out@) =~= prev.push(ms[i as int]));
            }
        }
        i += 1;
    }
    proof {
        assert(ms.take(ms.len() as int) =~= ms);
    }
    out
}

/// At most one member of a group survives: two distinct import
/// suggestions with the same key never both make it through.
pub proof fn lemma_group_representative_unique(ms: Seq<SuggestionModel>, i: int, j: int)
    requires
        0 <= i < ms.len(),
        0 <= j < ms.len(),
        i != j,
        ms[i].is_use(),
        ms[j].is_use(),
        same_key(ms[i], ms[j]),
    ensures
        !(survives(ms, i) && survives(ms, j)),
{
    if survives(ms, i) && survives(ms, j) {
        assert(same_key(ms[j], ms[i]));
        assert(preferred(ms, i, j));
        assert(preferred(ms, j, i));
    }
}

/// Picks the representative of the group of `i` among the first `n`
/// suggestions: the member with the shortest replacement, the earliest on
/// ties; -1 while the prefix holds no member.
proof fn lemma_argmin(ms: Seq<SuggestionModel>, i: int, n: int) -> (k: int)
    requires
        0 <= i < ms.len(),
        ms[i].is_use(),
        0 <= n <= ms.len(),
    ensures
        (exists|j: int|
            0 <= j < n && ms[j].is_use() && #[trigger] same_key(ms[i], ms[j])) <==> (0 <= k < n),
        0 <= k < n ==> ms[k].is_use() && same_key(ms[i], ms[k]) && forall|j: int|
            0 <= j < n && ms[j].is_use() && #[trigger] same_key(ms[i], ms[j]) ==> preferred(
                ms,
                k,
                j,
            ),
    decreases n,
{
    if n == 0 {
        -1
    } else {
        let k1 = lemma_argmin(ms, i, n - 1);
        if ms[n - 1].is_use() && same_key(ms[i], ms[n - 1]) {
            if !(0 <= k1 < n - 1) {
                assert forall|j: int|
                    0 <= j < n && ms[j].is_use() && #[trigger] same_key(ms[i], ms[j]) implies
                    preferred(ms, n - 1, j) by {
                    if j < n - 1 {
                        assert(0 <= k1 < n - 1);
                    }
                }
                n - 1
            } else if ms[n - 1].replacement.len() < ms[k1].replacement.len() {
                assert forall|j: int|
                    0 <= j < n && ms[j].is_use() && #[trigger] same_key(ms[i], ms[j]) implies
                    preferred(ms, n - 1, j) by {
                    if j < n - 1 {
                        assert(preferred(ms, k1, j));
                    }
                }
                n - 1
            } else {
                assert forall|j: int|
                    0 <= j < n && ms[j].is_use() && #[trigger] same_key(ms[i], ms[j]) implies
                    preferred(ms, k1, j) by {
                    if j < n - 1 {
                        assert(preferred(ms, k1, j));
                    }
                }
                k1
            }
        } else {
            assert forall|j: int|
                0 <= j < n && ms[j].is_use() && #[trigger] same_key(ms[i], ms[j]) implies 0 <= k1
                < n - 1 by {
                assert(j != n - 1);
            }
            if 0 <= k1 < n - 1 {
                assert(ms[k1].is_use() && same_key(ms[i], ms[k1]));
                k1
            } else {
                -1
            }
        }
    }
}

/// At least one member of every group survives, and it is at least as
/// good a representative as every member of the group: no longer a
/// replacement, and not later on ties. Together with the uniqueness law
/// this makes the survivor of a group exactly its shortest-replacement
/// member, the earliest on ties.
pub proof fn lemma_group_has_representative(ms: Seq<SuggestionModel>, i: int)
    ensures
        0 <= i < ms.len() && ms[i].is_use() ==> exists|k: int|
            0 <= k < ms.len() && ms[k].is_use() && (#[trigger] same_key(ms[i], ms[k]))
                && survives(ms, k) && forall|j: int|
                0 <= j < ms.len() && ms[j].is_use() && #[trigger] same_key(ms[i], ms[j])
                    ==> preferred(ms, k, j),
{
    if 0 <= i < ms.len() && ms[i].is_use() {
        let k = lemma_argmin(ms, i, ms.len() as int);
        assert(same_key(ms[i], ms[i]));
        assert(0 <= k < ms.len());
        assert forall|j: int|
            0 <= j < ms.len() && ms[j].is_use() && #[trigger] same_key(ms[k], ms[j]) implies
            preferred(ms, k, j) by {
            assert(same_key(ms[i], ms[j]));
        }
        assert(survives(ms, k));
    }
}

/// Location normalization law: after deduplication, every surviving import
/// suggestion sits at the zero-width span at the top of its file, wherever
/// it originally pointed.
pub proof fn lemma_dedup_normalizes_locations(ms: Seq<SuggestionModel>)
    ensures
        forall|k: int|
            0 <= k < dedup_spec(ms).len() && (#[trigger] dedup_spec(ms)[k]).is_use()
                ==> dedup_spec(ms)[k].line_range == LineRange::spec_unit(),
{
    lemma_dedup_from_normalizes(ms, 0);
}

proof fn lemma_dedup_from_normalizes(ms: Seq<SuggestionModel>, i: int)
    ensures
        forall|k: int|
            0 <= k < dedup_from(ms, i).len() && (#[trigger] dedup_from(ms, i)[k]).is_use()
                ==> dedup_from(ms, i)[k].line_range == LineRange::spec_unit(),
    decreases ms.len() - i,
{
    if 0 <= i < ms.len() {
        lemma_dedup_from_normalizes(ms, i + 1);
        if survives(ms, i) {
            assert forall|k: int|
                0 <= k < dedup_from(ms, i).len() && (#[trigger] dedup_from(ms, i)[k]).is_use()
                implies dedup_from(ms, i)[k].line_range == LineRange::spec_unit() by {
                if k == 0 {
                    assert(dedup_from(ms, i)[0] == normalize(ms[i]));
                } else {
                    assert(dedup_from(ms, i)[k] == dedup_from(ms, i + 1)[k - 1]);
                }
            }
        } else {
            assert forall|k: int|
                0 <= k < dedup_from(ms, i).len() && (#[trigger] dedup_from(ms, i)[k]).is_use()
                implies dedup_from(ms, i)[k].line_range == LineRange::spec_unit() by {
                assert(dedup_from(ms, i)[k] == dedup_from(ms, i + 1)[k]);
            }
        }
    }
}

/// Non-import suggestions law: deduplication neither groups, drops nor
/// relocates them — the subsequence of non-import suggestions comes out
/// exactly as it went in.
pub proof fn lemma_dedup_keeps_non_use(ms: Seq<SuggestionModel>)
    ensures
        dedup_spec(ms).filter(|m: SuggestionModel| !m.is_use()) == ms.filter(
            |m: SuggestionModel| !m.is_use(),
        ),
{
    lemma_dedup_from_keeps_non_use(ms, 0);
    assert(ms.skip(0) =~= ms);
}

proof fn lemma_filter_singleton(m: SuggestionModel, p: spec_fn(SuggestionModel) -> bool)
    ensures
        seq![m].filter(p) == if p(m) {
            seq![m]
        } else {
            Seq::<SuggestionModel>::empty()
        },
{
    reveal_with_fuel(Seq::filter, 2);
    assert(seq![m].drop_last() =~= Seq::<SuggestionModel>::empty());
    if p(m) {
        assert(seq![m].filter(p) =~= seq![m]);
    }
}

proof fn lemma_dedup_from_keeps_non_use(ms: Seq<SuggestionModel>, i: int)
    requires
        0 <= i <= ms.len(),
    ensures
        dedup_from(ms, i).filter(|m: SuggestionModel| !m.is_use()) == ms.skip(i).filter(
            |m: SuggestionModel| !m.is_use(),
        ),
    decreases ms.len() - i,
{
    let p = |m: SuggestionModel| !m.is_use();
    if i == ms.len() {
        reveal_with_fuel(Seq::filter, 1);
        assert(ms.skip(i) =~= Seq::<SuggestionModel>::empty());
        assert(dedup_from(ms, i).filter(p) =~= ms.skip(i).filter(p));
    } else {
        lemma_dedup_from_keeps_non_use(ms, i + 1);
        assert(ms.skip(i) =~= seq![ms[i]] + ms.skip(i + 1));
        Seq::filter_distributes_over_add(seq![ms[i]], ms.skip(i + 1), p);
        lemma_filter_singleton(ms[i], p);
        if survives(ms, i) {
            Seq::filter_distributes_over_add(seq![normalize(ms[i])], dedup_from(ms, i + 1), p);
            lemma_filter_singleton(normalize(ms[i]), p);
            assert(normalize(ms[i]).is_use() == ms[i].is_use());
            if !ms[i].is_use() {
                assert(normalize(ms[i]) == ms[i]);
            }
        } else {
            assert(ms[i].is_use());
        }
    }
}

} // verus!
