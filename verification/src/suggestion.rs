//! The suggestion data model: positions, ranges, and the suggestion record.

use vstd::prelude::*;

verus! {

/// A 1-indexed character position in a text file.
#[derive(Clone, Copy, PartialEq, Eq, Structural, Debug)]
pub struct LinePosition {
    pub line: usize,
    pub column: usize,
}

/// An inclusive span between two positions; `end` lies on the same or a
/// later line than `start`.
#[derive(Clone, Copy, PartialEq, Eq, Structural, Debug)]
pub struct LineRange {
    pub start: LinePosition,
    pub end: LinePosition,
}

impl LinePosition {
    /// Positions are 1-indexed.
    pub open spec fn wf(self) -> bool {
        self.line >= 1 && self.column >= 1
    }
}

impl LineRange {
    pub open spec fn wf(self) -> bool {
        self.start.wf() && self.end.wf()
    }

    /// The canonical zero-width span at the top of the file that every
    /// surviving import suggestion is relocated to.
    pub open spec fn spec_unit() -> LineRange {
        LineRange {
            start: LinePosition { line: 1, column: 1 },
            end: LinePosition { line: 1, column: 1 },
        }
    }

    /// Builds the canonical zero-width span at the top of the file.
    pub fn unit() -> (r: LineRange)
        ensures
            r == LineRange::spec_unit(),
    {
        LineRange {
            start: LinePosition { line: 1, column: 1 },
            end: LinePosition { line: 1, column: 1 },
        }
    }
}

/// A candidate source-code edit: `replacement` fully replaces the inclusive
/// character span `line_range` of the file `file_name`. The three `text_`
/// fields carry the display context (text leading up to, inside, and
/// trailing the span) and play no part in the edit itself.
pub struct Suggestion {
    pub file_name: String,
    pub line_range: LineRange,
    pub replacement: String,
    pub message: String,
    pub text_lead: String,
    pub text_highlighted: String,
    pub text_trail: String,
}

/// The mathematical content of a suggestion: each text field as its
/// character sequence.
pub struct SuggestionModel {
    pub file_name: Seq<char>,
    pub line_range: LineRange,
    pub replacement: Seq<char>,
    pub message: Seq<char>,
    pub text_lead: Seq<char>,
    pub text_highlighted: Seq<char>,
    pub text_trail: Seq<char>,
}

impl View for Suggestion {
    type V = SuggestionModel;

    open spec fn view(&self) -> SuggestionModel {
        SuggestionModel {
            file_name: self.file_name@,
            line_range: self.line_range,
            replacement: self.replacement@,
            message: self.message@,
            text_lead: self.text_lead@,
            text_highlighted: self.text_highlighted@,
            text_trail: self.text_trail@,
        }
    }
}

impl SuggestionModel {
    pub open spec fn wf(self) -> bool {
        self.line_range.wf()
    }

    /// An import-style edit: the replacement text begins with the import
    /// keyword and ends with the statement terminator plus a line break.
    pub open spec fn is_use(self) -> bool {
        is_use_replacement(self.replacement)
    }

    /// The canonical symbol the import introduces.
    pub open spec fn symbol(self) -> Seq<char> {
        symbol_of(self.replacement)
    }
}

impl Suggestion {
    pub open spec fn wf(self) -> bool {
        self.line_range.wf()
    }

    /// Returns true iff this suggestion represents an import-style edit.
    pub fn is_use_suggestion(&self) -> (r: bool)
        ensures
            r == self@.is_use(),
    {
        is_use_text(self.replacement.as_str())
    }

    /// An identical copy of the suggestion.
    pub fn duplicate(&self) -> (t: Suggestion)
        ensures
            t@ == self@,
    {
        Suggestion {
            file_name: self.file_name.clone(),
            line_range: self.line_range,
            replacement: self.replacement.clone(),
            message: self.message.clone(),
            text_lead: self.text_lead.clone(),
            text_highlighted: self.text_highlighted.clone(),
            text_trail: self.text_trail.clone(),
        }
    }
}

/// The replacement text of an import-style suggestion: it starts with
/// `use ` and ends with `;\n`.
pub open spec fn is_use_replacement(r: Seq<char>) -> bool {
    &&& r.len() >= 6
    &&& r[0] == 'u'
    &&& r[1] == 's'
    &&& r[2] == 'e'
    &&& r[3] == ' '
    &&& r[r.len() - 2] == ';'
    &&& r[r.len() - 1] == '\n'
}

/// Checks the shape of an import statement: leading `use ` and trailing `;\n`.
pub fn is_use_text(s: &str) -> (r: bool)
    ensures
        r == is_use_replacement(s@),
{
    let n = s.unicode_len();
    if n < 6 {
        return false;
    }
    s.get_char(0) == 'u' && s.get_char(1) == 's' && s.get_char(2) == 'e' && s.get_char(3) == ' '
        && s.get_char(n - 2) == ';' && s.get_char(n - 1) == '\n'
}

/// The index at which the last `::` separator of `r` starts, or -1 when
/// none occurs.
pub open spec fn last_sep(r: Seq<char>) -> int
    decreases r.len(),
{
    if r.len() < 2 {
        -1
    } else if r[r.len() - 2] == ':' && r[r.len() - 1] == ':' {
        r.len() - 2
    } else {
        last_sep(r.take(r.len() - 1))
    }
}

/// `last_sep` names the position of a separator match, and nothing matches
/// after it.
pub proof fn lemma_last_sep_at(r: Seq<char>, k: int)
    requires
        0 <= k <= r.len() - 2,
        r[k] == ':' && r[k + 1] == ':',
        forall|j: int| k < j <= r.len() - 2 ==> !(#[trigger] r[j] == ':' && r[j + 1] == ':'),
    ensures
        last_sep(r) == k,
    decreases r.len(),
{
    if k < r.len() - 2 {
        assert(!(r[r.len() - 2] == ':' && r[r.len() - 1] == ':'));
        let r2 = r.take(r.len() - 1);
        assert(r2[k] == r[k] && r2[k + 1] == r[k + 1]);
        assert forall|j: int| k < j <= r2.len() - 2 implies !(r2[j] == ':' && #[trigger] r2[j
            + 1] == ':') by {
            assert(r2[j] == r[j] && r2[j + 1] == r[j + 1]);
        }
        lemma_last_sep_at(r2, k);
    }
}

/// When no separator occurs anywhere, `last_sep` is -1.
pub proof fn lemma_last_sep_none(r: Seq<char>)
    requires
        forall|j: int| 0 <= j <= r.len() - 2 ==> !(#[trigger] r[j] == ':' && r[j + 1] == ':'),
    ensures
        last_sep(r) == -1,
    decreases r.len(),
{
    if r.len() >= 2 {
        assert(!(r[r.len() - 2] == ':' && r[r.len() - 1] == ':'));
        let r2 = r.take(r.len() - 1);
        assert forall|j: int| 0 <= j <= r2.len() - 2 implies !(r2[j] == ':' && #[trigger] r2[j
            + 1] == ':') by {
            assert(r2[j] == r[j] && r2[j + 1] == r[j + 1]);
        }
        lemma_last_sep_none(r2);
    }
}

/// The canonical symbol of an import statement's text: the part after the
/// last path separator (or the whole imported name when no separator
/// occurs), with the leading import keyword and the trailing terminator
/// plus line break stripped.
pub open spec fn symbol_of(r: Seq<char>) -> Seq<char> {
    if last_sep(r) >= 0 {
        r.subrange(last_sep(r) + 2, r.len() - 2)
    } else {
        r.subrange(4, r.len() - 2)
    }
}

/// Extracts the canonical symbol of an import statement.
pub fn canonical_symbol(r: &str) -> (t: &str)
    requires
        is_use_replacement(r@),
    ensures
        t@ == symbol_of(r@),
{
    let n = r.unicode_len();
    let mut i: usize = n - 1;
    while i >= 1
        invariant
            n == r@.len(),
            6 <= n,
            is_use_replacement(r@),
            i <= n - 1,
            forall|j: int| i - 1 < j <= n - 2 ==> !(#[trigger] r@[j] == ':' && r@[j + 1] == ':'),
        decreases i,
    {
        if r.get_char(i - 1) == ':' && r.get_char(i) == ':' {
            proof {
                lemma_last_sep_at(r@, i - 1);
                assert(i - 1 != n - 2 && i - 1 != n - 3);
            }
            return r.substring_char(i + 1, n - 2);
        }
        i = i - 1;
    }
    proof {
        lemma_last_sep_none(r@);
    }
    r.substring_char(4, n - 2)
}

/// Compares two string slices character for character.
pub fn str_eq(a: &str, b: &str) -> (r: bool)
    ensures
        r == (a@ == b@),
{
    let na = a.unicode_len();
    let nb = b.unicode_len();
    if na != nb {
        return false;
    }
    let mut i: usize = 0;
    while i < na
        invariant
            na == a@.len(),
            nb == b@.len(),
            na == nb,
            i <= na,
            forall|j: int| 0 <= j < i ==> a@[j] == b@[j],
        decreases na - i,
    {
        if a.get_char(i) != b.get_char(i) {
            return false;
        }
        i += 1;
    }
    proof {
        assert(a@ =~= b@);
    }
    true
}

/// A whitespace character, per the Unicode `White_Space` property.
pub open spec fn is_space_char(c: char) -> bool {
    c == ' ' || c == '\t' || c == '\n' || c == '\r' || c == '\u{b}' || c == '\u{c}' || c == '\u{85}'
        || c == '\u{a0}' || c == '\u{1680}' || (c as u32 >= 0x2000 && c as u32 <= 0x200a) || c
        == '\u{2028}' || c == '\u{2029}' || c == '\u{202f}' || c == '\u{205f}' || c == '\u{3000}'
}

/// Decides [`is_space_char`] on a concrete character.
pub fn is_space(c: char) -> (r: bool)
    ensures
        r == is_space_char(c),
{
    c == ' ' || c == '\t' || c == '\n' || c == '\r' || c == '\u{b}' || c == '\u{c}' || c == '\u{85}'
        || c == '\u{a0}' || c == '\u{1680}' || (c >= '\u{2000}' && c <= '\u{200a}') || c
        == '\u{2028}' || c == '\u{2029}' || c == '\u{202f}' || c == '\u{205f}' || c == '\u{3000}'
}

} // verus!
