//! Chapter-number heuristics.
//!
//! The "family" concept: a URL like
//! `https://site.tld/manga/foo-chapter-12/` normalizes to the family
//! `https://site.tld/manga/foo-chapter-#`. Two URLs belong to the same
//! manga when their families match, and the chapter number orders them.

use vstd::prelude::*;
use vstd::utf8::{
    decode_utf8, encode_utf8, encode_utf8_decode_utf8, encode_utf8_valid_utf8, is_ascii_chars,
    is_ascii_chars_encode_utf8, is_char_boundary, is_char_boundary_iff_not_is_continuation_byte,
    is_char_boundary_start_end_of_seq, valid_utf8,
};
use crate::address::{SiteUrl, SiteUrlView};
use crate::number::{
    all_digits, decimal, digits_of, digits_value, is_digits, is_whole_plus_hundredths,
    law_decimal_value, law_letter_suffix_between, law_order_total, lemma_hundredths, ChapterNumber,
    Decimal,
};
use crate::pattern::{
    captured_view, captures, chapter_match, chapter_text, group_view, group_views, is_match,
    plain_chapter, regex_captures, regex_is_match, regex_replace_all, replace_all, within, Captured,
    CapturedView, Group, GroupView, EXPLICIT,
};
use crate::text::{
    before_class, byte_len, collapse, collapse_white, count_bytes, cut_at_class, drop_back, ends,
    ends_with, extend, find, is_blank, is_trimmed, law_before_class, law_begins_ends, law_collapse,
    law_find, law_strip, law_trim, law_trim_keeps_middle, lemma_before_class, lemma_find_at,
    lemma_find_bounds, lowered, made_of,
    position, slice, strip_back, text_between, to_chars, to_lower, to_text, trim, trimmed,
    CharClass,
};

verus! {

/// The pattern of a page in a paginated list of posts.
pub const PAGINATION: &'static str = r"(?i)(?:^|/)page/\d+(?:/|$)";

/// What stands for the chapter in the family of an explicit chapter.
pub const FAMILY_TOKEN: &'static str = "chapter-#";

/// What a text says about a chapter.
#[derive(Debug, PartialEq, Eq)]
pub struct ChapterInfo {
    /// Chapter number. Sub-chapters map to decimals: `10.5` stays
    /// `10.5`, a letter suffix like `10b` becomes `10.02`.
    pub number: ChapterNumber,
    /// The text with the chapter number replaced by `#`, used to group
    /// links that differ only by chapter number.
    pub family: String,
    /// True when an explicit chapter keyword (chapter/chap/ch/episode/ep)
    /// was present, not just a bare trailing number.
    pub explicit: bool,
}

/// The values of a [`ChapterInfo`].
#[verifier::ext_equal]
pub struct ChapterInfoView {
    pub number: Decimal,
    pub family: Seq<char>,
    pub explicit: bool,
}

impl View for ChapterInfo {
    type V = ChapterInfoView;

    open spec fn view(&self) -> ChapterInfoView {
        ChapterInfoView { number: self.number@, family: self.family@, explicit: self.explicit }
    }
}

impl Clone for ChapterInfo {
    fn clone(&self) -> (r: Self)
        ensures
            r@ == self@,
    {
        ChapterInfo {
            number: self.number.clone(),
            family: self.family.clone(),
            explicit: self.explicit,
        }
    }
}

/// The values of a chapter info, where there is one.
pub open spec fn info_view(i: Option<ChapterInfo>) -> Option<ChapterInfoView> {
    match i {
        Some(i) => Some(i@),
        None => None,
    }
}

// ---------- bare numbers ----------

/// Whether a character, or the end of the text, delimits a number.
pub open spec fn boundary(c: Option<char>) -> bool {
    match c {
        None => true,
        Some(c) => c == '-' || c == '_' || c == '/' || c == ' ' || c == '\t' || c == '\n',
    }
}

/// Decides whether a character, or the end of the text, delimits a number.
pub fn is_boundary(c: Option<char>) -> (r: bool)
    ensures
        r == boundary(c),
{
    match c {
        None => true,
        Some(c) => c == '-' || c == '_' || c == '/' || c == ' ' || c == '\t' || c == '\n',
    }
}

/// Whether `c` is one of `0` to `9`.
pub open spec fn digit(c: char) -> bool {
    '0' <= c <= '9'
}

/// The character at `i`, none outside the text.
pub open spec fn char_at(s: Seq<char>, i: int) -> Option<char> {
    if 0 <= i < s.len() {
        Some(s[i])
    } else {
        None
    }
}

/// `s` from `a` up to `b` is a run of digits that no digit precedes or
/// follows.
pub open spec fn digit_run(s: Seq<char>, a: int, b: int) -> bool {
    &&& 0 <= a < b <= s.len()
    &&& forall|i: int| a <= i < b ==> digit(#[trigger] s[i])
    &&& a > 0 ==> !digit(s[a - 1])
    &&& b < s.len() ==> !digit(s[b])
}

/// `s` from `a` up to `b` is a number of at most five digits between
/// delimiters.
pub open spec fn bare_number(s: Seq<char>, a: int, b: int) -> bool {
    &&& digit_run(s, a, b)
    &&& b - a <= 5
    &&& boundary(char_at(s, a - 1))
    &&& boundary(char_at(s, b))
}

/// `s` from `r.0` up to `r.1` is the last bare number of `s`.
pub open spec fn is_last_bare(s: Seq<char>, r: (int, int)) -> bool {
    &&& bare_number(s, r.0, r.1)
    &&& forall|a: int, b: int| #[trigger] bare_number(s, a, b) ==> a <= r.0
}

/// Where the last bare number of `s` stands.
pub open spec fn last_bare(s: Seq<char>) -> Option<(int, int)> {
    if exists|a: int, b: int| bare_number(s, a, b) {
        Some(choose|r: (int, int)| is_last_bare(s, r))
    } else {
        None
    }
}

/// Two runs of digits that overlap are the same.
proof fn lemma_runs_disjoint(s: Seq<char>, a: int, b: int, c: int, d: int)
    requires
        digit_run(s, a, b),
        digit_run(s, c, d),
        a <= c < b,
    ensures
        a == c,
        b == d,
{
    if a < c {
        assert(digit(s[c - 1]));
    }
    if b < d {
        assert(digit(s[b]));
    } else if d < b {
        assert(digit(s[d]));
    }
}

/// The last bare number is the one after which there is none.
pub proof fn lemma_last_bare(s: Seq<char>, r: (int, int))
    requires
        is_last_bare(s, r),
    ensures
        last_bare(s) == Some(r),
{
    let q = choose|q: (int, int)| is_last_bare(s, q);
    assert(is_last_bare(s, q));
    assert(q.0 == r.0);
    lemma_runs_disjoint(s, q.0, q.1, r.0, r.1);
}

/// Where the numbers of one to five digits between delimiters stand in the
/// text, in the order of the text. The last of them is the chapter in URLs
/// like `/zom-100/112/`, where the series slug itself contains a number.
/// The positions count characters.
pub fn bare_number_ranges(text: &Vec<char>) -> (r: Vec<(usize, usize)>)
    ensures
        forall|k: int|
            0 <= k < r@.len() ==> bare_number(
                text@,
                (#[trigger] r@[k]).0 as int,
                r@[k].1 as int,
            ),
        forall|k: int, l: int| 0 <= k < l < r@.len() ==> r@[k].0 < r@[l].0,
        forall|a: int, b: int| #[trigger]
            bare_number(text@, a, b) ==> exists|k: int|
                0 <= k < r@.len() && (#[trigger] r@[k]).0 == a && r@[k].1 == b,
        last_bare(text@) == (if r@.len() == 0 {
            None::<(int, int)>
        } else {
            Some((r@.last().0 as int, r@.last().1 as int))
        }),
{
    let mut r: Vec<(usize, usize)> = Vec::new();
    let mut i: usize = 0;
    while i < text.len()
        invariant
            i <= text@.len(),
            0 < i < text@.len() && digit(text@[i as int]) ==> !digit(text@[i - 1]),
            forall|k: int|
                0 <= k < r@.len() ==> bare_number(
                    text@,
                    (#[trigger] r@[k]).0 as int,
                    r@[k].1 as int,
                ) && r@[k].0 < i,
            forall|k: int, l: int| 0 <= k < l < r@.len() ==> r@[k].0 < r@[l].0,
            forall|a: int, b: int| #[trigger]
                bare_number(text@, a, b) && a < i ==> exists|k: int|
                    0 <= k < r@.len() && (#[trigger] r@[k]).0 == a && r@[k].1 == b,
        decreases text@.len() - i,
    {
        let c: char = text[i];
        if !('0' <= c && c <= '9') {
            i = i + 1;
            continue;
        }
        let mut j: usize = i + 1;
        while j < text.len() && '0' <= text[j] && text[j] <= '9'
            invariant
                i < j <= text@.len(),
                forall|x: int| i <= x < j ==> digit(#[trigger] text@[x]),
            decreases text@.len() - j,
        {
            j = j + 1;
        }
        assert(digit_run(text@, i as int, j as int));
        let before: Option<char> = if i > 0 {
            Some(text[i - 1])
        } else {
            None
        };
        let after: Option<char> = if j < text.len() {
            Some(text[j])
        } else {
            None
        };
        let ghost found = r@;
        if j - i <= 5 && is_boundary(before) && is_boundary(after) {
            r.push((i, j));
        }
        proof {
            assert forall|a: int, b: int| #[trigger]
                bare_number(text@, a, b) && a < j implies exists|k: int|
                0 <= k < r@.len() && (#[trigger] r@[k]).0 == a && r@[k].1 == b by {
                if a < i {
                    let k = choose|k: int|
                        0 <= k < found.len() && (#[trigger] found[k]).0 == a && found[k].1 == b;
                    assert(r@[k] == found[k]);
                } else {
                    lemma_runs_disjoint(text@, i as int, j as int, a, b);
                    assert(r@[r@.len() - 1].0 == a);
                }
            }
        }
        i = j;
    }
    proof {
        if r@.len() > 0 {
            let last = (r@.last().0 as int, r@.last().1 as int);
            assert(is_last_bare(text@, last)) by {
                assert forall|a: int, b: int| #[trigger] bare_number(text@, a, b) implies a
                    <= last.0 by {
                    let k = choose|k: int|
                        0 <= k < r@.len() && (#[trigger] r@[k]).0 == a && r@[k].1 == b;
                }
            }
            lemma_last_bare(text@, last);
        }
    }
    r
}

// ---------- the chapter number ----------

/// The decimal `whole + hundredths / 100`.
pub open spec fn whole_plus_hundredths(whole: nat, hundredths: nat) -> Decimal {
    choose|d: Decimal|
        d.canonical() && #[trigger] is_whole_plus_hundredths(d, whole, hundredths)
}

/// There is one decimal `whole + hundredths / 100`.
pub proof fn lemma_whole_plus_hundredths(d: Decimal, whole: nat, hundredths: nat)
    requires
        d.canonical(),
        is_whole_plus_hundredths(d, whole, hundredths),
    ensures
        d == whole_plus_hundredths(whole, hundredths),
{
    let e = whole_plus_hundredths(whole, hundredths);
    assert(e.canonical() && is_whole_plus_hundredths(e, whole, hundredths));
    let x = d.scaled() as int;
    let y = e.scaled() as int;
    let p = crate::number::pow10(d.scale()) as int;
    let q = crate::number::pow10(e.scale()) as int;
    let v = (whole * 100 + hundredths) as int;
    assert(x * q == y * p) by (nonlinear_arith)
        requires
            x * 100 == v * p,
            y * 100 == v * q,
    {
        assert((x * q) * 100 == (v * p) * q);
        assert((y * p) * 100 == (v * q) * p);
        assert((v * p) * q == (v * q) * p);
    }
    law_order_total(d, e);
}

/// The text of group `i`, where it took part in the match.
pub open spec fn group_text(groups: Seq<Option<GroupView>>, i: int) -> Option<Seq<char>> {
    if 0 <= i < groups.len() {
        match groups[i] {
            Some(g) => Some(g.text),
            None => None,
        }
    } else {
        None
    }
}

/// The number of hundredths that a letter suffix stands for: 1 for `a`, 2
/// for `b`, and so on by the first byte of the letter.
pub open spec fn letter_hundredths(letter: Seq<char>) -> Option<nat> {
    let bytes = encode_utf8(letter);
    if bytes.len() > 0 && bytes[0] >= 97 {
        Some((bytes[0] - 96) as nat)
    } else {
        None
    }
}

/// The chapter number that the groups of an explicit match denote: the
/// digits, and their decimal part or letter suffix.
pub open spec fn number_of_groups(groups: Seq<Option<GroupView>>) -> Option<Decimal> {
    match group_text(groups, 0) {
        None => None,
        Some(whole) => if whole.len() == 0 || !is_digits(whole) {
            None
        } else {
            match (group_text(groups, 1), group_text(groups, 2)) {
                (Some(fraction), _) => if is_digits(fraction) {
                    Some(decimal(digits_of(whole), digits_of(fraction)))
                } else {
                    None
                },
                (None, Some(letter)) => match letter_hundredths(letter) {
                    Some(h) => Some(whole_plus_hundredths(digits_value(digits_of(whole)), h)),
                    None => None,
                },
                (None, None) => Some(decimal(digits_of(whole), Seq::empty())),
            }
        },
    }
}

/// The group `i` of a match, where it took part.
fn group_at(groups: &Vec<Option<Group>>, i: usize) -> (r: Option<&Group>)
    ensures
        match r {
            Some(g) => i < groups@.len() && groups@[i as int] == Some(*g) && group_views(
                groups@,
            )[i as int] == Some(g@) && group_text(group_views(groups@), i as int) == Some(g.text@),
            None => group_text(group_views(groups@), i as int) is None && (i < groups@.len()
                ==> groups@[i as int] is None),
        },
{
    if i < groups.len() {
        assert(group_views(groups@)[i as int] == group_view(groups@[i as int]));
        match &groups[i] {
            Some(g) => Some(g),
            None => None,
        }
    } else {
        None
    }
}

/// Reads the chapter number from the groups of an explicit match.
pub fn chapter_number_from_captures(groups: &Vec<Option<Group>>) -> (r: Option<ChapterNumber>)
    ensures
        match r {
            Some(n) => number_of_groups(group_views(groups@)) == Some(n@) && n@.canonical(),
            None => number_of_groups(group_views(groups@)) is None,
        },
{
    let whole = match group_at(groups, 0) {
        Some(g) => g.text.as_str(),
        None => {
            return None;
        },
    };
    if let Some(fraction) = group_at(groups, 1) {
        return ChapterNumber::from_parts(whole, fraction.text.as_str());
    }
    if let Some(letter) = group_at(groups, 2) {
        let bytes = letter.text.as_str().as_bytes();
        if bytes.len() == 0 || bytes[0] < 97 {
            return None;
        }
        let hundredths: u8 = bytes[0] - 96;
        let number = ChapterNumber::from_hundredths(whole, hundredths);
        proof {
            if number is Some {
                lemma_whole_plus_hundredths(
                    number->0@,
                    digits_value(digits_of(whole@)),
                    hundredths as nat,
                );
            }
        }
        return number;
    }
    proof {
        reveal_strlit("");
        assert(digits_of(""@) =~= Seq::<u8>::empty());
    }
    ChapterNumber::from_parts(whole, "")
}

/// The chapter number of a text, and whether it is an explicit one: that
/// of the explicit match where there is one, else the last bare number,
/// unless the text is a page of a paginated list.
pub open spec fn number_of_match(
    normalized: Seq<char>,
    explicit: Option<CapturedView>,
    paginated: bool,
) -> Option<(Decimal, bool)> {
    match explicit {
        Some(c) => match number_of_groups(c.groups) {
            Some(n) => Some((n, true)),
            None => None,
        },
        None => if paginated {
            None
        } else {
            match last_bare(normalized) {
                Some(r) => Some(
                    (decimal(digits_of(normalized.subrange(r.0, r.1)), Seq::empty()), false),
                ),
                None => None,
            }
        },
    }
}

/// Picks the chapter number of a lowercase text, given its explicit match
/// and whether it is a page of a paginated list.
pub fn chapter_number_from_match(
    normalized: &str,
    explicit: &Option<Captured>,
    paginated: bool,
) -> (r: Option<(ChapterNumber, bool)>)
    ensures
        match r {
            Some(n) => number_of_match(normalized@, captured_view(*explicit), paginated) == Some(
                (n.0@, n.1),
            ),
            None => number_of_match(normalized@, captured_view(*explicit), paginated) is None,
        },
{
    if let Some(c) = explicit {
        return match chapter_number_from_captures(&c.groups) {
            Some(n) => Some((n, true)),
            None => None,
        };
    }
    if paginated {
        return None;
    }
    let chars = to_chars(normalized);
    let ranges = bare_number_ranges(&chars);
    if ranges.len() == 0 {
        return None;
    }
    let (start, end): (usize, usize) = ranges[ranges.len() - 1];
    let digits = text_between(&chars, start, end);
    proof {
        reveal_strlit("");
        assert(digits_of(""@) =~= Seq::<u8>::empty());
        assert forall|i: int| 0 <= i < digits@.len() implies '0' <= #[trigger] digits@[i]
            <= '9' by {
            assert(digit(normalized@[start + i]));
        }
    }
    match ChapterNumber::from_parts(digits.as_str(), "") {
        Some(n) => Some((n, false)),
        None => None,
    }
}

// ---------- the family ----------

/// What follows the chapter in an explicit match. The delimiter after a
/// letter suffix is not part of the chapter.
pub open spec fn after_chapter(c: CapturedView) -> Seq<char> {
    if c.groups.len() > 2 && c.groups[2] is Some {
        c.groups[2]->0.rest
    } else {
        c.after
    }
}

/// The lowercase text with the chapter replaced by `#`: the explicit
/// `chapter-N` token where it is present, else the last bare number.
/// Slashes at the end do not count.
pub open spec fn family_of_match(
    normalized: Seq<char>,
    explicit: Option<CapturedView>,
) -> Seq<char> {
    let replaced = match explicit {
        Some(c) => c.before + FAMILY_TOKEN@ + after_chapter(c),
        None => match last_bare(normalized) {
            Some(r) => normalized.take(r.0).push('#') + normalized.skip(r.1),
            None => normalized,
        },
    };
    strip_back(replaced, CharClass::Slash)
}

/// The family of a text.
pub open spec fn family_of(source: Seq<char>) -> Seq<char> {
    family_of_match(lowered(source), regex_captures(EXPLICIT@, lowered(source)))
}

/// Replaces the chapter in a lowercase text by `#`, given its explicit
/// match.
pub fn family_from_match(normalized: &str, explicit: &Option<Captured>) -> (r: String)
    ensures
        r@ == family_of_match(normalized@, captured_view(*explicit)),
{
    let chars = to_chars(normalized);
    let replaced: Vec<char> = match explicit {
        Some(c) => {
            let mut v = to_chars(c.before.as_str());
            extend(&mut v, &to_chars(FAMILY_TOKEN));
            match group_at(&c.groups, 2) {
                Some(letter) => {
                    extend(&mut v, &to_chars(letter.rest.as_str()));
                },
                None => {
                    proof {
                        assert(c.groups@.len() > 2 ==> group_views(c.groups@)[2] == group_view(
                            c.groups@[2],
                        ));
                    }
                    extend(&mut v, &to_chars(c.after.as_str()));
                },
            }
            v
        },
        None => {
            let ranges = bare_number_ranges(&chars);
            if ranges.len() == 0 {
                to_chars(normalized)
            } else {
                let (start, end): (usize, usize) = ranges[ranges.len() - 1];
                let mut v = slice(&chars, 0, start);
                v.push('#');
                extend(&mut v, &slice(&chars, end, chars.len()));
                assert(normalized@.subrange(0, start as int) =~= normalized@.take(start as int));
                assert(normalized@.subrange(end as int, normalized@.len() as int) =~= normalized@.skip(
                    end as int,
                ));
                v
            }
        },
    };
    to_text(&drop_back(&replaced, CharClass::Slash))
}

/// The number of a text that names a chapter.
pub open spec fn named_number(number: Seq<char>) -> Decimal {
    decimal(digits_of(number), Seq::empty())
}

/// The family of a text that names a chapter between `before` and `after`.
pub open spec fn named_family(before: Seq<char>, after: Seq<char>) -> Seq<char> {
    strip_back(before + FAMILY_TOKEN@ + after, CharClass::Slash)
}

/// Replaces the chapter in `source` by `#`: the explicit `chapter-N` token
/// where it is present, else the last bare number.
pub fn family_for(source: &str) -> (r: String)
    ensures
        r@ == family_of(source@),
        regex_captures(EXPLICIT@, lowered(source@)) matches Some(c) ==> within(
            lowered(source@),
            c,
        ),
        forall|before: Seq<char>, number: Seq<char>, after: Seq<char>|
            plain_chapter(before, number, after) && lowered(source@) == #[trigger] chapter_text(
                before,
                number,
                after,
            ) ==> r@ == named_family(before, after),
{
    let normalized = to_lower(source);
    let explicit = captures(EXPLICIT, normalized.as_str());
    family_from_match(normalized.as_str(), &explicit)
}

// ---------- the chapter of a text or a URL ----------

/// Where the family is taken from: `family_source`, or the text where that
/// is empty.
pub open spec fn info_source(text: Seq<char>, family_source: Seq<char>) -> Seq<char> {
    if family_source.len() == 0 {
        text
    } else {
        family_source
    }
}

/// The chapter info of `text`, with the family taken from `family_source`,
/// or from the text where that is empty.
pub open spec fn info_of_text(
    text: Seq<char>,
    family_source: Seq<char>,
) -> Option<ChapterInfoView> {
    let normalized = lowered(text);
    match number_of_match(
        normalized,
        regex_captures(EXPLICIT@, normalized),
        regex_is_match(PAGINATION@, normalized) == Some(true),
    ) {
        Some(n) => Some(
            ChapterInfoView { number: n.0, family: family_of(info_source(text, family_source)), explicit: n.1 },
        ),
        None => None,
    }
}

/// Parse chapter info out of arbitrary text (usually a URL path or a
/// page title).
pub fn chapter_info_from_text(text: &str, family_source: &str) -> (r: Option<ChapterInfo>)
    ensures
        info_view(r) == info_of_text(text@, family_source@),
        regex_captures(EXPLICIT@, lowered(text@)) matches Some(c) ==> within(lowered(text@), c),
        forall|before: Seq<char>, number: Seq<char>, after: Seq<char>|
            plain_chapter(before, number, after) && lowered(text@) == #[trigger] chapter_text(
                before,
                number,
                after,
            ) ==> (r matches Some(i) && i@.number == named_number(number) && i@.explicit),
        forall|before: Seq<char>, number: Seq<char>, after: Seq<char>|
            plain_chapter(before, number, after) && lowered(
                info_source(text@, family_source@),
            ) == #[trigger] chapter_text(before, number, after) ==> (r matches Some(i)
                ==> i@.family == named_family(before, after)),
{
    let normalized = to_lower(text);
    let explicit = captures(EXPLICIT, normalized.as_str());
    let paginated = match is_match(PAGINATION, normalized.as_str()) {
        Some(b) => b,
        None => false,
    };
    let (number, is_explicit): (ChapterNumber, bool) = match chapter_number_from_match(
        normalized.as_str(),
        &explicit,
        paginated,
    ) {
        Some(n) => n,
        None => {
            return None;
        },
    };
    let source = if family_source.is_empty() {
        text
    } else {
        family_source
    };
    Some(ChapterInfo { number, family: family_for(source), explicit: is_explicit })
}

// ---------- addresses ----------

/// The value of a hexadecimal digit.
pub open spec fn hex_value(b: u8) -> Option<u8> {
    if 48 <= b <= 57 {
        Some((b - 48) as u8)
    } else if 65 <= b <= 70 {
        Some((b - 55) as u8)
    } else if 97 <= b <= 102 {
        Some((b - 87) as u8)
    } else {
        None
    }
}

/// The byte that the two characters of an escape denote: two hexadecimal
/// digits, or one after a plus sign.
pub open spec fn escaped_byte(b1: u8, b2: u8) -> Option<u8> {
    match (hex_value(b1), hex_value(b2)) {
        (Some(x), Some(y)) => Some((x * 16 + y) as u8),
        (None, Some(y)) => if b1 == 43 {
            Some(y)
        } else {
            None
        },
        _ => None,
    }
}

/// The bytes with each escape replaced by the byte that it denotes.
pub open spec fn decoded_bytes(b: Seq<u8>) -> Seq<u8>
    decreases b.len(),
{
    if b.len() == 0 {
        Seq::empty()
    } else if b[0] == 37 && b.len() > 2 && escaped_byte(b[1], b[2]) is Some {
        seq![escaped_byte(b[1], b[2])->0] + decoded_bytes(b.skip(3))
    } else {
        seq![b[0]] + decoded_bytes(b.skip(1))
    }
}

/// The text with its escapes decoded; the text itself where that gives no
/// valid UTF-8.
pub open spec fn percent_decoded(s: Seq<char>) -> Seq<char> {
    let bytes = decoded_bytes(encode_utf8(s));
    if valid_utf8(bytes) {
        decode_utf8(bytes)
    } else {
        s
    }
}

/// No escape of the text ends inside a character.
pub open spec fn escapes_aligned(s: Seq<char>) -> bool {
    let b = encode_utf8(s);
    forall|i: int|
        0 <= i && i + 2 < b.len() && #[trigger] b[i] == 37 ==> is_char_boundary(b, i + 3)
}

fn hex_digit(b: u8) -> (r: Option<u8>)
    ensures
        r == hex_value(b),
        r matches Some(v) ==> v < 16,
{
    if 48 <= b && b <= 57 {
        Some(b - 48)
    } else if 65 <= b && b <= 70 {
        Some(b - 55)
    } else if 97 <= b && b <= 102 {
        Some(b - 87)
    } else {
        None
    }
}

fn escape(b1: u8, b2: u8) -> (r: Option<u8>)
    ensures
        r == escaped_byte(b1, b2),
{
    match (hex_digit(b1), hex_digit(b2)) {
        (Some(x), Some(y)) => Some(x * 16 + y),
        (None, Some(y)) => if b1 == 43 {
            Some(y)
        } else {
            None
        },
        _ => None,
    }
}

/// Decodes the escapes of a path.
pub fn percent_decode(input: &str) -> (r: String)
    requires
        escapes_aligned(input@),
    ensures
        r@ == percent_decoded(input@),
{
    let bytes = input.as_bytes();
    let mut out: Vec<u8> = Vec::new();
    let mut i: usize = 0;
    proof {
        assert(bytes@.skip(0) =~= bytes@);
        assert(out@ + decoded_bytes(bytes@) =~= decoded_bytes(bytes@));
    }
    while i < bytes.len()
        invariant
            i <= bytes@.len(),
            decoded_bytes(bytes@) == out@ + decoded_bytes(bytes@.skip(i as int)),
        decreases bytes@.len() - i,
    {
        let ghost before = out@;
        let ghost left = bytes@.skip(i as int);
        if bytes[i] == 37 && bytes.len() - i > 2 {
            if let Some(byte) = escape(bytes[i + 1], bytes[i + 2]) {
                out.push(byte);
                i = i + 3;
                proof {
                    assert(left.skip(3) =~= bytes@.skip(i as int));
                    assert(before + (seq![byte] + decoded_bytes(left.skip(3))) =~= out@
                        + decoded_bytes(left.skip(3)));
                }
                continue;
            }
        }
        out.push(bytes[i]);
        i = i + 1;
        proof {
            assert(left.skip(1) =~= bytes@.skip(i as int));
            assert(before + (seq![left[0]] + decoded_bytes(left.skip(1))) =~= out@ + decoded_bytes(
                left.skip(1),
            ));
        }
    }
    assert(out@ =~= decoded_bytes(bytes@));
    match String::from_utf8(out) {
        Ok(s) => {
            proof {
                encode_utf8_decode_utf8(s@);
            }
            s
        },
        Err(_) => input.to_owned(),
    }
}

/// In ASCII text every position is between characters.
proof fn lemma_ascii_aligned(s: Seq<char>)
    requires
        is_ascii_chars(s),
    ensures
        escapes_aligned(s),
{
    let b = encode_utf8(s);
    is_ascii_chars_encode_utf8(s);
    encode_utf8_valid_utf8(s);
    assert forall|i: int|
        0 <= i && i + 2 < b.len() && #[trigger] b[i] == 37 implies is_char_boundary(b, i + 3) by {
        if i + 3 < b.len() {
            assert(s[i + 3] as u8 == b[i + 3]);
            is_char_boundary_iff_not_is_continuation_byte(b, i + 3);
        } else {
            is_char_boundary_start_end_of_seq(b);
        }
    }
}

/// The chapter info of a URL, with the family on the host `host`.
pub open spec fn info_of_url_on(url: SiteUrlView, host: Seq<char>) -> Option<ChapterInfoView> {
    let path = percent_decoded(url.path);
    info_of_text(path, url.scheme + "://"@ + host + path)
}

/// The chapter info of a URL.
pub open spec fn info_of_url(url: SiteUrlView) -> Option<ChapterInfoView> {
    info_of_url_on(
        url,
        match url.host {
            Some(h) => h,
            None => Seq::empty(),
        },
    )
}

/// Parses chapter info from a URL's decoded path, with the family on the
/// host `host`.
pub fn chapter_info_on_host(url: &SiteUrl, host: &str) -> (r: Option<ChapterInfo>)
    ensures
        info_view(r) == info_of_url_on(url@, host@),
        forall|before: Seq<char>, number: Seq<char>, after: Seq<char>|
            plain_chapter(before, number, after) && lowered(percent_decoded(url@.path))
                == #[trigger] chapter_text(before, number, after) ==> (r matches Some(i)
                && i@.number == named_number(number) && i@.explicit),
        forall|before: Seq<char>, number: Seq<char>, after: Seq<char>|
            plain_chapter(before, number, after) && lowered(
                url@.scheme + "://"@ + host@ + percent_decoded(url@.path),
            ) == #[trigger] chapter_text(before, number, after) ==> (r matches Some(i)
                ==> i@.family == named_family(before, after)),
{
    let escaped = url.path();
    proof {
        lemma_ascii_aligned(url@.path);
    }
    let path = percent_decode(escaped);
    let family_source = url.scheme().to_owned().concat("://").concat(host).concat(path.as_str());
    chapter_info_from_text(path.as_str(), family_source.as_str())
}

/// Parse chapter info from a URL's decoded path.
pub fn chapter_info_from_url(url: &SiteUrl) -> (r: Option<ChapterInfo>)
    ensures
        info_view(r) == info_of_url(url@),
{
    proof {
        reveal_strlit("");
        assert(""@ =~= Seq::<char>::empty());
    }
    let host = match url.host_str() {
        Some(h) => h,
        None => "",
    };
    chapter_info_on_host(url, host)
}

/// Whether `host` is a subdomain of `domain`.
pub open spec fn subdomain(host: Seq<char>, domain: Seq<char>) -> bool {
    ends(host, seq!['.'] + domain)
}

/// Whether two hosts belong to one site: they are the same, or one is a
/// subdomain of the other, as the mirrors of a site are.
pub open spec fn related(a: Seq<char>, b: Seq<char>) -> bool {
    a == b || subdomain(a, b) || subdomain(b, a)
}

fn is_subdomain(host: &str, domain: &str) -> (r: bool)
    ensures
        r == subdomain(host@, domain@),
{
    let mut suffix: Vec<char> = Vec::new();
    suffix.push('.');
    extend(&mut suffix, &to_chars(domain));
    assert(suffix@ =~= seq!['.'] + domain@);
    ends_with(&to_chars(host), &suffix)
}

/// Whether two hosts belong to one site.
pub fn hosts_related(a: &str, b: &str) -> (r: bool)
    ensures
        r == related(a@, b@),
{
    a.eq(b) || is_subdomain(a, b) || is_subdomain(b, a)
}

// ---------- titles ----------

/// The pattern of chapter and volume numbers in a page title.
pub const TITLE_NOISE: &'static str =
    r"(?i)\b(?:read|chapter|chap|ch|episode|ep|volume|vol)\.?\s*\d+(?:[._-]\d+)?\b";

/// The head of a title with collapsed white space: what precedes the first
/// separator, and within that what precedes the first ` - ` where at least
/// three bytes do.
pub open spec fn title_head(collapsed: Seq<char>) -> Seq<char> {
    let head = trim(before_class(collapsed, CharClass::TitleBreak));
    match find(head, " - "@) {
        Some(i) if byte_len(trim(head.take(i))) >= 3 => trim(head.take(i)),
        _ => head,
    }
}

/// The title, given the head of the collapsed title without chapter and
/// volume noise: what is left of it without dangling punctuation, where
/// that has at least three bytes, else the whole title.
pub open spec fn title_of_head(collapsed: Seq<char>, head: Seq<char>) -> Seq<char> {
    let cleaned = trim(strip_back(trim(head), CharClass::TitleTail));
    if byte_len(cleaned) >= 3 {
        cleaned
    } else {
        collapsed
    }
}

/// The head of a title without chapter and volume noise.
pub open spec fn without_noise(head: Seq<char>) -> Seq<char> {
    match regex_replace_all(TITLE_NOISE@, head, ""@) {
        Some(s) => s,
        None => head,
    }
}

/// The display title of a page title.
pub open spec fn cleaned_title(raw: Seq<char>) -> Seq<char> {
    title_of_head(collapse(raw), without_noise(title_head(collapse(raw))))
}

/// Cuts a title with collapsed white space down to its head.
pub fn head_of_title(collapsed: &Vec<char>) -> (r: Vec<char>)
    ensures
        r@ == title_head(collapsed@),
{
    let head = trimmed(&cut_at_class(collapsed, CharClass::TitleBreak));
    if let Some(i) = position(&head, " - ") {
        let left = trimmed(&slice(&head, 0, i));
        assert(head@.subrange(0, i as int) =~= head@.take(i as int));
        if count_bytes(to_text(&left).as_str()) >= 3 {
            return left;
        }
    }
    head
}

/// Finishes a title, given its head without chapter and volume noise.
pub fn title_from_head(collapsed: &Vec<char>, head: &str) -> (r: String)
    ensures
        r@ == title_of_head(collapsed@, head@),
{
    let stripped = drop_back(&trimmed(&to_chars(head)), CharClass::TitleTail);
    let cleaned = to_text(&trimmed(&stripped));
    if count_bytes(cleaned.as_str()) >= 3 {
        cleaned
    } else {
        to_text(collapsed)
    }
}

/// Clean a page `<title>` into a manga display title: drop everything
/// after the first separator when the head segment is usable, and strip
/// chapter/volume noise.
pub fn clean_title(raw: &str) -> (r: String)
    ensures
        r@ == cleaned_title(raw@),
{
    let collapsed = collapse_white(&to_chars(raw));
    let head = to_text(&head_of_title(&collapsed));
    let cleaned = match replace_all(TITLE_NOISE, head.as_str(), "") {
        Some(s) => s,
        None => head,
    };
    title_from_head(&collapsed, cleaned.as_str())
}

// ---------- laws ----------

/// Law: a host is related to itself and to its subdomains, and relation
/// goes both ways.
pub proof fn law_related(a: Seq<char>, b: Seq<char>)
    ensures
        related(a, a),
        related(a, b) == related(b, a),
        related(b + seq!['.'] + a, a),
{
    let mirror = b + seq!['.'] + a;
    assert(mirror.skip(b.len() as int) =~= seq!['.'] + a);
}

/// Law: an explicit chapter counts, whether or not the text is a page of
/// a paginated list; a page of such a list has no other chapter.
pub proof fn law_explicit_before_pagination(
    normalized: Seq<char>,
    explicit: CapturedView,
    paginated: bool,
)
    ensures
        number_of_match(normalized, Some(explicit), paginated) == number_of_match(
            normalized,
            Some(explicit),
            false,
        ),
        number_of_match(normalized, None, true) is None,
{
}

/// Law: texts that differ only in an explicit chapter share their family.
pub proof fn law_family_shared_explicit(
    a: Seq<char>,
    b: Seq<char>,
    in_a: CapturedView,
    in_b: CapturedView,
)
    requires
        in_a.before == in_b.before,
        after_chapter(in_a) == after_chapter(in_b),
    ensures
        family_of_match(a, Some(in_a)) == family_of_match(b, Some(in_b)),
{
}

/// Law: texts that differ in what precedes an explicit chapter, as those of
/// two series do, have different families.
pub proof fn law_family_distinct_explicit(
    a: Seq<char>,
    b: Seq<char>,
    in_a: CapturedView,
    in_b: CapturedView,
)
    requires
        in_a.before != in_b.before,
        after_chapter(in_a) == after_chapter(in_b),
    ensures
        family_of_match(a, Some(in_a)) != family_of_match(b, Some(in_b)),
{
    reveal_strlit("chapter-#");
    let tail = FAMILY_TOKEN@ + after_chapter(in_a);
    assert(tail[8] == '#');
    lemma_strip_back_keeps(in_a.before, tail, 8);
    lemma_strip_back_keeps(in_b.before, tail, 8);
    assert(in_a.before + FAMILY_TOKEN@ + after_chapter(in_a) =~= in_a.before + tail);
    assert(in_b.before + FAMILY_TOKEN@ + after_chapter(in_b) =~= in_b.before + tail);
    let kept = strip_back(tail, CharClass::Slash);
    let fa = in_a.before + kept;
    let fb = in_b.before + kept;
    assert(family_of_match(a, Some(in_a)) == fa);
    assert(family_of_match(b, Some(in_b)) == fb);
    if fa == fb {
        assert(fa.len() == in_a.before.len() + kept.len());
        assert(fb.len() == in_b.before.len() + kept.len());
        assert(fa.take(in_a.before.len() as int) =~= in_a.before);
        assert(fb.take(in_b.before.len() as int) =~= in_b.before);
    }
}

/// Slashes are stripped from the tail alone where the tail holds anything
/// else.
proof fn lemma_strip_back_keeps(head: Seq<char>, tail: Seq<char>, i: int)
    requires
        0 <= i < tail.len(),
        tail[i] != '/',
    ensures
        strip_back(head + tail, CharClass::Slash) == head + strip_back(tail, CharClass::Slash),
    decreases tail.len(),
{
    let all = head + tail;
    assert(all.last() == tail.last());
    if tail.last() == '/' {
        assert(all.drop_last() =~= head + tail.drop_last());
        lemma_strip_back_keeps(head, tail.drop_last(), i);
    }
}

/// The path of chapter `number` of the series `series`.
pub open spec fn series_path(series: Seq<char>, number: Seq<char>) -> Seq<char> {
    "/manga/"@ + series + "-chapter-"@ + number + "/"@
}

/// A word of the letters `a` to `z`.
pub open spec fn letters(s: Seq<char>) -> bool {
    s.len() > 0 && forall|i: int| 0 <= i < s.len() ==> 'a' <= #[trigger] s[i] <= 'z'
}

/// What precedes the chapter in the paths of a series.
pub open spec fn series_head(series: Seq<char>) -> Seq<char> {
    "/manga/"@ + series + "-"@
}

/// What [`chapter_info_from_text`] gives of the path of a chapter.
pub open spec fn series_info(series: Seq<char>, number: Seq<char>) -> ChapterInfoView {
    ChapterInfoView {
        number: named_number(number),
        family: named_family(series_head(series), "/"@),
        explicit: true,
    }
}

/// Law: the paths of a series name their chapters, so that their infos are
/// those of [`series_info`]; all chapters of a series share one family, and
/// those of another series have another one.
pub proof fn law_series_families(s: Seq<char>, u: Seq<char>, n: Seq<char>, k: Seq<char>)
    requires
        letters(s),
        letters(u),
        n.len() > 0,
        is_digits(n),
    ensures
        plain_chapter(series_head(s), n, "/"@),
        lowered(series_path(s, n)) == chapter_text(series_head(s), n, "/"@),
        series_info(s, n).number == decimal(digits_of(n), Seq::empty()),
        series_info(s, n).family == series_info(s, k).family,
        s != u ==> series_info(s, n).family != series_info(u, k).family,
{
    reveal_strlit("/manga/");
    reveal_strlit("-");
    reveal_strlit("chapter-");
    reveal_strlit("-chapter-");
    reveal_strlit("/");
    lemma_series_lowered(s, n);
    let head = series_head(s);
    assert("-chapter-"@ =~= "-"@ + "chapter-"@);
    assert(series_path(s, n) =~= chapter_text(head, n, "/"@));
    assert forall|i: int| 0 <= i < head.len() implies !('0' <= #[trigger] head[i] <= '9') by {
        if i < 7 {
            assert(head[i] == "/manga/"@[i]);
        } else if i < 7 + s.len() {
            assert(head[i] == s[i - 7]);
        } else {
            assert(head[i] == "-"@[0]);
        }
    }
    if s != u {
        let other = series_head(u);
        if head == other {
            assert(head.len() == 8 + s.len());
            assert(other.len() == 8 + u.len());
            assert(s =~= head.subrange(7, 7 + s.len() as int));
            assert(u =~= other.subrange(7, 7 + u.len() as int));
        }
        let a = chapter_match(head, n, "/"@);
        let b = chapter_match(other, n, "/"@);
        law_family_distinct_explicit(Seq::empty(), Seq::empty(), a, b);
    }
}

/// The path of a chapter is in lower case.
proof fn lemma_series_lowered(s: Seq<char>, n: Seq<char>)
    requires
        letters(s),
        is_digits(n),
    ensures
        lowered(series_path(s, n)) == series_path(s, n),
        series_path(s, n).len() > 0,
{
    reveal_strlit("/manga/");
    reveal_strlit("-chapter-");
    reveal_strlit("/");
    let p = series_path(s, n);
    let (a, b) = (7 + s.len(), 16 + s.len());
    assert forall|i: int| 0 <= i < p.len() implies (#[trigger] p[i]) < '\u{80}' && !('A' <= p[i]
        <= 'Z') by {
        if i < 7 {
            assert(p[i] == "/manga/"@[i]);
        } else if i < a {
            assert(p[i] == s[i - 7]);
        } else if i < b {
            assert(p[i] == "-chapter-"@[i - a]);
        } else if i < b + n.len() {
            assert(p[i] == n[i - b]);
        } else {
            assert(p[i] == "/"@[0]);
        }
    }
    assert(is_ascii_chars(p));
    assert(lowered(p) =~= p);
}

/// A number of at most five digits.
pub open spec fn short_number(d: Seq<char>) -> bool {
    0 < d.len() <= 5 && is_digits(d)
}

/// Between `before` and `after` a number is bare.
pub open spec fn delimits(before: Seq<char>, after: Seq<char>) -> bool {
    boundary(char_at(before, before.len() - 1)) && boundary(char_at(after, 0))
}

/// A number between delimiters is a bare one.
proof fn lemma_bare(before: Seq<char>, d: Seq<char>, after: Seq<char>)
    requires
        short_number(d),
        delimits(before, after),
    ensures
        bare_number(before + d + after, before.len() as int, (before.len() + d.len()) as int),
{
    let s = before + d + after;
    let a = before.len() as int;
    let b = a + d.len();
    assert forall|i: int| a <= i < b implies digit(#[trigger] s[i]) by {
        assert(s[i] == d[i - a]);
    }
    if a > 0 {
        assert(s[a - 1] == before[a - 1]);
    }
    if b < s.len() {
        assert(s[b] == after[0]);
    }
}

/// What follows a number keeps its bare numbers when the number changes.
proof fn lemma_bare_shift(
    before: Seq<char>,
    d: Seq<char>,
    e: Seq<char>,
    after: Seq<char>,
    x: int,
    y: int,
)
    requires
        short_number(d),
        short_number(e),
        delimits(before, after),
        bare_number(before + e + after, x, y),
        x > before.len(),
    ensures
        bare_number(before + d + after, x - e.len() + d.len(), y - e.len() + d.len()),
        x > before.len() + e.len(),
{
    let s = before + d + after;
    let t = before + e + after;
    let a = before.len() as int;
    let shift = d.len() - e.len();
    lemma_bare(before, e, after);
    if x < a + e.len() {
        lemma_runs_disjoint(t, a, a + e.len(), x, y);
    }
    assert(t[x] == after[x - a - e.len()]);
    assert(boundary(char_at(after, 0)));
    assert(x != a + e.len());
    assert forall|i: int| x - 1 <= i < t.len() implies s[i + shift] == #[trigger] t[i] by {}
    assert forall|i: int| x + shift <= i < y + shift implies digit(#[trigger] s[i]) by {
        assert(s[i] == t[i - shift]);
    }
    assert(s[x - 1 + shift] == t[x - 1]);
    if y < t.len() {
        assert(s[y + shift] == t[y]);
    }
}

/// Law: texts that differ only in the bare number that is their chapter
/// share their family, and the number is the chapter of each.
pub proof fn law_family_shared_bare(
    before: Seq<char>,
    d: Seq<char>,
    e: Seq<char>,
    after: Seq<char>,
)
    requires
        short_number(d),
        short_number(e),
        delimits(before, after),
        last_bare(before + d + after) == Some(
            (before.len() as int, (before.len() + d.len()) as int),
        ),
    ensures
        family_of_match(before + d + after, None) == family_of_match(before + e + after, None),
        number_of_match(before + d + after, None, false) == Some(
            (decimal(digits_of(d), Seq::empty()), false),
        ),
        number_of_match(before + e + after, None, false) == Some(
            (decimal(digits_of(e), Seq::empty()), false),
        ),
{
    let s = before + d + after;
    let t = before + e + after;
    let a = before.len() as int;
    let in_s = (a, a + d.len());
    let in_t = (a, a + e.len());
    lemma_bare(before, d, after);
    lemma_bare(before, e, after);
    lemma_last_exists(s);
    assert(is_last_bare(t, in_t)) by {
        assert forall|x: int, y: int| #[trigger] bare_number(t, x, y) implies x <= a by {
            if x > a {
                lemma_bare_shift(before, d, e, after, x, y);
                assert(bare_number(s, x - e.len() + d.len(), y - e.len() + d.len()));
            }
        }
    }
    lemma_last_bare(t, in_t);
    assert(s.take(a) =~= t.take(a));
    assert(s.skip(in_s.1) =~= after);
    assert(t.skip(in_t.1) =~= after);
    assert(s.subrange(in_s.0, in_s.1) =~= d);
    assert(t.subrange(in_t.0, in_t.1) =~= e);
}

/// Where there is a bare number there is a last one.
proof fn lemma_last_exists(s: Seq<char>)
    requires
        last_bare(s) is Some,
    ensures
        is_last_bare(s, last_bare(s)->0),
{
    let (a, b) = choose|a: int, b: int| bare_number(s, a, b);
    lemma_last_from(s, a, b);
    let r = choose|r: (int, int)| is_last_bare(s, r);
    assert(is_last_bare(s, r));
}

proof fn lemma_last_from(s: Seq<char>, a: int, b: int)
    requires
        bare_number(s, a, b),
    ensures
        exists|r: (int, int)| is_last_bare(s, r),
    decreases s.len() - a,
{
    if forall|x: int, y: int| #[trigger] bare_number(s, x, y) ==> x <= a {
        assert(is_last_bare(s, (a, b)));
    } else {
        let (x, y) = choose|x: int, y: int| #[trigger] bare_number(s, x, y) && x > a;
        lemma_last_from(s, x, y);
    }
}

/// Law: a letter suffix `a` to `z` puts a chapter after the chapter of
/// the same number and before the next one.
pub proof fn law_letter_chapter_between(groups: Seq<Option<GroupView>>, whole: Seq<char>, c: char)
    requires
        group_text(groups, 0) == Some(whole),
        whole.len() > 0,
        is_digits(whole),
        group_text(groups, 1) is None,
        group_text(groups, 2) == Some(seq![c]),
        'a' <= c <= 'z',
    ensures
        number_of_groups(groups) is Some,
        decimal(digits_of(whole), Seq::empty()).less(number_of_groups(groups)->0),
        forall|next: Decimal|
            next.canonical() && #[trigger] is_whole_plus_hundredths(
                next,
                digits_value(digits_of(whole)) + 1,
                0,
            ) ==> number_of_groups(groups)->0.less(next),
{
    let letter = seq![c];
    let w = digits_of(whole);
    let h = (c as u32 - 96) as nat;
    is_ascii_chars_encode_utf8(letter);
    assert(is_ascii_chars(letter));
    assert(encode_utf8(letter)[0] == letter[0] as u8);
    assert(letter_hundredths(letter) == Some(h));
    assert(all_digits(w)) by {
        assert forall|i: int| 0 <= i < w.len() implies #[trigger] w[i] <= 9 by {
            assert('0' <= whole[i] <= '9');
        }
    }
    let f = seq![(h / 10) as u8, (h % 10) as u8];
    let n = decimal(w, f);
    lemma_hundredths(n, w, f, h);
    law_decimal_value(w, f);
    lemma_whole_plus_hundredths(n, digits_value(w), h);
    let zeros = seq![0u8, 0u8];
    let m = decimal(w, zeros);
    lemma_hundredths(m, w, zeros, 0);
    law_decimal_value(w, zeros);
    assert(m =~= decimal(w, Seq::empty())) by {
        reveal_with_fuel(crate::number::drop_trailing_zeros, 3);
        assert(zeros.drop_last().drop_last() =~= Seq::<u8>::empty());
    }
    law_letter_suffix_between(n, m, digits_value(w), h);
    assert forall|next: Decimal|
        next.canonical() && #[trigger] is_whole_plus_hundredths(
            next,
            digits_value(w) + 1,
            0,
        ) implies n.less(next) by {
        law_letter_suffix_between(n, next, digits_value(w), h);
    }
}

/// Law: a path without a percent sign is its own decoding.
pub proof fn law_decode_plain(s: Seq<char>)
    requires
        forall|i: int| 0 <= i < encode_utf8(s).len() ==> #[trigger] encode_utf8(s)[i] != 37,
    ensures
        percent_decoded(s) == s,
{
    lemma_no_escapes(encode_utf8(s));
    encode_utf8_valid_utf8(s);
    encode_utf8_decode_utf8(s);
}

proof fn lemma_no_escapes(b: Seq<u8>)
    requires
        forall|i: int| 0 <= i < b.len() ==> #[trigger] b[i] != 37,
    ensures
        decoded_bytes(b) == b,
    decreases b.len(),
{
    if b.len() > 0 {
        lemma_no_escapes(b.skip(1));
        assert(seq![b[0]] + b.skip(1) =~= b);
    }
}

/// Every byte of `s` stands in `t` as an escape.
pub open spec fn all_escaped(t: Seq<char>, s: Seq<char>) -> bool {
    escapes_of(encode_utf8(t), encode_utf8(s))
}

/// `e` is the bytes of `b`, each one as an escape.
pub open spec fn escapes_of(e: Seq<u8>, b: Seq<u8>) -> bool {
    &&& e.len() == 3 * b.len()
    &&& forall|i: int| 0 <= i < b.len() ==> #[trigger] escape_at(e, i, b[i])
}

/// The `i`-th escape of `e` denotes `byte`.
pub open spec fn escape_at(e: Seq<u8>, i: int, byte: u8) -> bool {
    e[3 * i] == 37 && escaped_byte(e[3 * i + 1], e[3 * i + 2]) == Some(byte)
}

/// Law: a text whose every byte is escaped decodes to that text.
pub proof fn law_decode_escaped(t: Seq<char>, s: Seq<char>)
    requires
        all_escaped(t, s),
    ensures
        percent_decoded(t) == s,
{
    lemma_all_escapes(encode_utf8(t), encode_utf8(s));
    encode_utf8_valid_utf8(s);
    encode_utf8_decode_utf8(s);
}

proof fn lemma_all_escapes(e: Seq<u8>, b: Seq<u8>)
    requires
        escapes_of(e, b),
    ensures
        decoded_bytes(e) == b,
    decreases b.len(),
{
    if b.len() > 0 {
        assert(escape_at(e, 0, b[0]));
        let rest = e.skip(3);
        let tail = b.skip(1);
        assert forall|i: int| 0 <= i < tail.len() implies #[trigger] escape_at(
            rest,
            i,
            tail[i],
        ) by {
            assert(escape_at(e, i + 1, b[i + 1]));
            assert(rest[3 * i] == e[3 * (i + 1)]);
            assert(rest[3 * i + 1] == e[3 * (i + 1) + 1]);
            assert(rest[3 * i + 2] == e[3 * (i + 1) + 2]);
        }
        lemma_all_escapes(rest, tail);
        assert(seq![b[0]] + tail =~= b);
    } else {
        assert(e =~= b);
    }
}

/// The character of a hexadecimal digit.
pub open spec fn hex_char(v: int) -> char {
    if v < 10 {
        (48 + v) as char
    } else {
        (55 + v) as char
    }
}

/// The text with each of its bytes as an escape.
pub open spec fn escaped(s: Seq<char>) -> Seq<char> {
    let b = encode_utf8(s);
    Seq::new(
        3 * b.len(),
        |i: int|
            if i % 3 == 0 {
                '%'
            } else if i % 3 == 1 {
                hex_char(b[i / 3] as int / 16)
            } else {
                hex_char(b[i / 3] as int % 16)
            },
    )
}

/// Law: escaping every byte of a text is undone by decoding, and such a
/// text is one that can be decoded.
pub proof fn law_escape_then_decode(s: Seq<char>)
    ensures
        escapes_aligned(escaped(s)),
        percent_decoded(escaped(s)) == s,
{
    let t = escaped(s);
    let b = encode_utf8(s);
    assert(is_ascii_chars(t));
    lemma_ascii_aligned(t);
    is_ascii_chars_encode_utf8(t);
    let e = encode_utf8(t);
    assert forall|i: int| 0 <= i < b.len() implies #[trigger] escape_at(e, i, b[i]) by {
        let (x, y) = (b[i] as int / 16, b[i] as int % 16);
        assert(e[3 * i] == t[3 * i] as u8);
        assert(e[3 * i + 1] == t[3 * i + 1] as u8);
        assert(e[3 * i + 2] == t[3 * i + 2] as u8);
        assert(t[3 * i + 1] == hex_char(x));
        assert(t[3 * i + 2] == hex_char(y));
        assert(hex_value(hex_char(x) as u8) == Some(x as u8));
        assert(hex_value(hex_char(y) as u8) == Some(y as u8));
    }
    law_decode_escaped(t, s);
}

/// Law: a cleaned title has no white space at either end, and there is
/// one for every page title that is not blank.
pub proof fn law_title_not_blank(raw: Seq<char>)
    ensures
        is_trimmed(cleaned_title(raw)),
        !is_blank(raw) ==> cleaned_title(raw).len() > 0,
{
    law_collapse(raw);
    let head = without_noise(title_head(collapse(raw)));
    law_trim(strip_back(trim(head), CharClass::TitleTail));
    let cleaned = trim(strip_back(trim(head), CharClass::TitleTail));
    if cleaned.len() == 0 {
        assert(encode_utf8(cleaned).len() == 0) by {
            is_ascii_chars_encode_utf8(cleaned);
        }
    }
}

// ---------- laws: the number ----------

/// Law: the characters that delimit a number, by code points. So do the
/// ends of a text.
pub proof fn law_boundary(c: char)
    ensures
        boundary(None),
        boundary(Some(c)) <==> c as u32 == 0x2d || c as u32 == 0x5f || c as u32 == 0x2f || c as u32
            == 0x20 || c as u32 == 0x9 || c as u32 == 0xa,
{
}

/// No character of `s` is a digit.
pub open spec fn digitless(s: Seq<char>) -> bool {
    forall|i: int| 0 <= i < s.len() ==> !('0' <= #[trigger] s[i] <= '9')
}

/// The position is outside the text, or one of the characters `-`, `_`, `/`,
/// space, tab and line feed stands there.
pub open spec fn delimiter_at(s: Seq<char>, i: int) -> bool {
    0 <= i < s.len() ==> {
        ||| s[i] == '-'
        ||| s[i] == '_'
        ||| s[i] == '/'
        ||| s[i] == ' '
        ||| s[i] == '\t'
        ||| s[i] == '\n'
    }
}

/// Law: a bare number is one to five digits between delimiters.
pub proof fn law_bare_number(s: Seq<char>, a: int, b: int)
    ensures
        bare_number(s, a, b) <==> {
            &&& 0 <= a < b <= s.len()
            &&& b - a <= 5
            &&& forall|i: int| a <= i < b ==> '0' <= #[trigger] s[i] <= '9'
            &&& delimiter_at(s, a - 1)
            &&& delimiter_at(s, b)
        },
{
}

/// Law: the last bare number is the bare number that none follows, and
/// there is none only where there is no bare number.
pub proof fn law_last_bare(s: Seq<char>, a: int, b: int)
    ensures
        bare_number(s, a, b) && (forall|x: int, y: int| #[trigger] bare_number(s, x, y) ==> x <= a)
            ==> last_bare(s) == Some((a, b)),
        last_bare(s) matches Some(r) ==> bare_number(s, r.0, r.1) && forall|x: int, y: int| #[trigger]
            bare_number(s, x, y) ==> x <= r.0,
        last_bare(s) is None ==> !bare_number(s, a, b),
{
    if bare_number(s, a, b) && (forall|x: int, y: int| #[trigger]
        bare_number(s, x, y) ==> x <= a) {
        lemma_last_bare(s, (a, b));
    }
    if last_bare(s) is Some {
        lemma_last_exists(s);
    }
}

/// Law: the chapter of a text without an explicit one is its last bare
/// number; in the family `#` stands in its place, and slashes at the end
/// are dropped.
pub proof fn law_bare_at(s: Seq<char>, a: int, b: int, kept: Seq<char>, slashes: Seq<char>)
    requires
        last_bare(s) == Some((a, b)),
        s.take(a) + seq!['#'] + s.skip(b) == kept + slashes,
        made_of(slashes, CharClass::Slash),
        kept.len() > 0 ==> kept.last() != '/',
    ensures
        number_of_match(s, None, false) == Some(
            (decimal(digits_of(s.subrange(a, b)), Seq::empty()), false),
        ),
        number_of_match(s, None, true) is None,
        family_of_match(s, None) == kept,
{
    assert(s.take(a).push('#') + s.skip(b) =~= kept + slashes);
    lemma_slashes(kept, slashes);
}

/// Law: a text with neither an explicit chapter nor a bare number has no
/// chapter, and is its own family without the slashes at the end.
pub proof fn law_no_chapter(kept: Seq<char>, slashes: Seq<char>, paginated: bool)
    requires
        last_bare(kept + slashes) is None,
        made_of(slashes, CharClass::Slash),
        kept.len() > 0 ==> kept.last() != '/',
    ensures
        number_of_match(kept + slashes, None, paginated) is None,
        family_of_match(kept + slashes, None) == kept,
{
    lemma_slashes(kept, slashes);
}

/// Law: a number of at most five digits between delimiters is the last
/// bare one where no digit follows, whatever precedes it.
pub proof fn law_last_bare_found(before: Seq<char>, d: Seq<char>, after: Seq<char>)
    requires
        short_number(d),
        delimits(before, after),
        digitless(after),
    ensures
        last_bare(before + d + after) == Some(
            (before.len() as int, (before.len() + d.len()) as int),
        ),
{
    let s = before + d + after;
    let a = before.len() as int;
    let b = a + d.len();
    lemma_bare(before, d, after);
    assert forall|x: int, y: int| #[trigger] bare_number(s, x, y) implies x <= a by {
        assert(digit(s[x]));
        if x > a {
            if x < b {
                lemma_runs_disjoint(s, a, b, x, y);
            } else {
                assert(s[x] == after[x - b]);
            }
        }
    }
    lemma_last_bare(s, (a, b));
}

/// Law: the only digits of a text are a bare number exactly where they are
/// at most five and stand between delimiters; a text without digits has
/// none.
pub proof fn law_bare_or_not(before: Seq<char>, d: Seq<char>, after: Seq<char>)
    requires
        d.len() > 0,
        is_digits(d),
        digitless(before),
        digitless(after),
    ensures
        last_bare(before + d + after) is Some <==> d.len() <= 5 && delimits(before, after),
        last_bare(before) is None,
{
    let s = before + d + after;
    let a = before.len() as int;
    let b = a + d.len();
    assert forall|x: int, y: int| #[trigger] bare_number(before, x, y) implies false by {
        assert(digit(before[x]));
    }
    if d.len() <= 5 && delimits(before, after) {
        law_last_bare_found(before, d, after);
    } else {
        assert(digit_run(s, a, b)) by {
            assert forall|i: int| a <= i < b implies digit(#[trigger] s[i]) by {
                assert(s[i] == d[i - a]);
            }
            if a > 0 {
                assert(s[a - 1] == before[a - 1]);
            }
            if b < s.len() {
                assert(s[b] == after[0]);
            }
        }
        assert forall|x: int, y: int| #[trigger] bare_number(s, x, y) implies false by {
            assert(digit(s[x]));
            if x < a {
                assert(s[x] == before[x]);
            } else if x >= b {
                assert(s[x] == after[x - b]);
            } else {
                lemma_runs_disjoint(s, a, b, x, y);
                if a > 0 {
                    assert(s[a - 1] == before[a - 1]);
                }
                if b < s.len() {
                    assert(s[b] == after[0]);
                }
            }
        }
    }
}

/// A group that took part in a match with the given text.
pub open spec fn took_part(groups: Seq<Option<GroupView>>, i: int, text: Seq<char>) -> bool {
    groups[i] is Some && groups[i]->0.text == text
}

/// Law: the number of a text with an explicit chapter is the one that the
/// groups of the match denote, wherever in whatever text the match stands:
/// the digits alone, the digits and the decimal part, or the digits and as
/// many hundredths as the letter has places in the alphabet.
pub proof fn law_groups_decide(
    normalized: Seq<char>,
    c: CapturedView,
    paginated: bool,
    w: Seq<char>,
    f: Seq<char>,
    letter: char,
)
    requires
        c.groups.len() == 3,
        took_part(c.groups, 0, w),
        w.len() > 0,
        is_digits(w),
    ensures
        c.groups[1] is None && c.groups[2] is None ==> number_of_match(
            normalized,
            Some(c),
            paginated,
        ) == Some((decimal(digits_of(w), Seq::empty()), true)),
        took_part(c.groups, 1, f) && is_digits(f) ==> number_of_match(
            normalized,
            Some(c),
            paginated,
        ) == Some((decimal(digits_of(w), digits_of(f)), true)),
        c.groups[1] is None && took_part(c.groups, 2, seq![letter]) && 'a' <= letter <= 'z' ==> (
        number_of_match(normalized, Some(c), paginated) == Some(
            (
                decimal(
                    digits_of(w),
                    seq![((letter as u32 - 96) / 10) as u8, ((letter as u32 - 96) % 10) as u8],
                ),
                true,
            ),
        )),
{
    assert(group_text(c.groups, 0) == Some(w));
    if c.groups[1] is None && took_part(c.groups, 2, seq![letter]) && 'a' <= letter <= 'z' {
        lemma_letter_number(c.groups, w, letter);
    }
}

/// Law: two explicit matches with the same groups give the same number,
/// whatever the texts are and whatever surrounds the matches.
pub proof fn law_same_groups_same_number(
    a: Seq<char>,
    b: Seq<char>,
    in_a: CapturedView,
    in_b: CapturedView,
    paged_a: bool,
    paged_b: bool,
)
    requires
        in_a.groups == in_b.groups,
    ensures
        number_of_match(a, Some(in_a), paged_a) == number_of_match(b, Some(in_b), paged_b),
{
}

proof fn lemma_letter_number(groups: Seq<Option<GroupView>>, whole: Seq<char>, c: char)
    requires
        group_text(groups, 0) == Some(whole),
        whole.len() > 0,
        is_digits(whole),
        group_text(groups, 1) is None,
        group_text(groups, 2) == Some(seq![c]),
        'a' <= c <= 'z',
    ensures
        number_of_groups(groups) == Some(
            decimal(
                digits_of(whole),
                seq![((c as u32 - 96) / 10) as u8, ((c as u32 - 96) % 10) as u8],
            ),
        ),
{
    let letter = seq![c];
    let w = digits_of(whole);
    let h = (c as u32 - 96) as nat;
    assert(is_ascii_chars(letter));
    is_ascii_chars_encode_utf8(letter);
    assert(encode_utf8(letter)[0] == letter[0] as u8);
    assert(all_digits(w)) by {
        assert forall|i: int| 0 <= i < w.len() implies #[trigger] w[i] <= 9 by {
            assert('0' <= whole[i] <= '9');
        }
    }
    let f = seq![(h / 10) as u8, (h % 10) as u8];
    let n = decimal(w, f);
    lemma_hundredths(n, w, f, h);
    law_decimal_value(w, f);
    lemma_whole_plus_hundredths(n, digits_value(w), h);
    assert(f =~= seq![((c as u32 - 96) / 10) as u8, ((c as u32 - 96) % 10) as u8]);
}

/// Law: a text without an explicit chapter has as its number the last bare
/// one, and none where it has no digits.
pub proof fn law_bare_chapter(before: Seq<char>, d: Seq<char>, after: Seq<char>)
    requires
        short_number(d),
        delimits(before, after),
        digitless(after),
    ensures
        number_of_match(before + d + after, None, false) == Some(
            (decimal(digits_of(d), Seq::empty()), false),
        ),
        number_of_match(after, None, false) is None,
{
    let s = before + d + after;
    law_last_bare_found(before, d, after);
    assert(s.subrange(before.len() as int, (before.len() + d.len()) as int) =~= d);
    assert forall|x: int, y: int| #[trigger] bare_number(after, x, y) implies false by {
        assert(digit(after[x]));
    }
}

// ---------- laws: the family ----------

/// Law: the family of a text with an explicit chapter is what precedes the
/// match, `chapter-#`, and what follows the chapter without the slashes at
/// its end. What follows a chapter with a letter is what follows the
/// letter.
pub proof fn law_family_explicit(
    normalized: Seq<char>,
    c: CapturedView,
    kept: Seq<char>,
    slashes: Seq<char>,
)
    requires
        c.groups.len() == 3,
        c.groups[2] is Some ==> c.groups[2]->0.rest == kept + slashes,
        c.groups[2] is None ==> c.after == kept + slashes,
        kept.len() > 0 ==> kept.last() != '/',
        made_of(slashes, CharClass::Slash),
    ensures
        family_of_match(normalized, Some(c)) == c.before + "chapter-#"@ + kept,
{
    reveal_strlit("chapter-#");
    let m = c.before + "chapter-#"@ + kept;
    assert(c.before + FAMILY_TOKEN@ + (kept + slashes) =~= m + slashes);
    assert(m.last() != '/') by {
        if kept.len() > 0 {
            assert(m.last() == kept.last());
        } else {
            assert(m.last() == "chapter-#"@[8]);
        }
    }
    lemma_slashes(m, slashes);
}

/// Law: the family of a text with a bare chapter is the text with `#` in
/// the place of the number, and that of a text without digits is the text,
/// both without the slashes at the end.
pub proof fn law_family_bare(
    before: Seq<char>,
    d: Seq<char>,
    kept: Seq<char>,
    slashes: Seq<char>,
)
    requires
        short_number(d),
        delimits(before, kept + slashes),
        digitless(kept),
        kept.len() > 0 ==> kept.last() != '/',
        made_of(slashes, CharClass::Slash),
    ensures
        family_of_match(before + d + (kept + slashes), None) == before + seq!['#'] + kept,
        family_of_match(kept + slashes, None) == kept,
{
    let after = kept + slashes;
    let s = before + d + after;
    let a = before.len() as int;
    let b = a + d.len();
    lemma_digitless(kept, slashes);
    law_last_bare_found(before, d, after);
    let m = before + seq!['#'] + kept;
    assert(s.take(a) =~= before);
    assert(s.skip(b) =~= after);
    assert(s.take(a) + seq!['#'] + s.skip(b) =~= m + slashes);
    assert(m.last() != '/') by {
        if kept.len() > 0 {
            assert(m.last() == kept.last());
        }
    }
    law_bare_at(s, a, b, m, slashes);
    lemma_no_bare(after);
    law_no_chapter(kept, slashes, false);
}

proof fn lemma_digitless(kept: Seq<char>, slashes: Seq<char>)
    requires
        digitless(kept),
        made_of(slashes, CharClass::Slash),
    ensures
        digitless(kept + slashes),
{
    let s = kept + slashes;
    assert forall|i: int| 0 <= i < s.len() implies !('0' <= #[trigger] s[i] <= '9') by {
        if i < kept.len() {
            assert(s[i] == kept[i]);
        } else {
            assert(s[i] == slashes[i - kept.len()]);
        }
    }
}

proof fn lemma_no_bare(s: Seq<char>)
    requires
        digitless(s),
    ensures
        last_bare(s) is None,
{
    assert forall|x: int, y: int| #[trigger] bare_number(s, x, y) implies false by {
        assert(digit(s[x]));
    }
}

proof fn lemma_slashes(m: Seq<char>, slashes: Seq<char>)
    requires
        made_of(slashes, CharClass::Slash),
        m.len() > 0 ==> m.last() != '/',
    ensures
        strip_back(m + slashes, CharClass::Slash) == m,
    decreases slashes.len(),
{
    let s = m + slashes;
    if slashes.len() == 0 {
        assert(s =~= m);
    } else {
        assert(CharClass::Slash.has(slashes[slashes.len() - 1]));
        assert(s.last() == slashes.last());
        assert(s.drop_last() =~= m + slashes.drop_last());
        lemma_slashes(m, slashes.drop_last());
    }
}

// ---------- laws: the info of a text ----------

/// Law: the number and whether it is explicit come from the text alone, the
/// family from the family source alone, and the text stands in for an empty
/// family source.
pub proof fn law_info_parts(t: Seq<char>, u: Seq<char>, f: Seq<char>, g: Seq<char>)
    requires
        f.len() > 0,
        g.len() > 0,
    ensures
        info_of_text(t, f) is Some <==> info_of_text(t, g) is Some,
        info_of_text(t, f) is Some ==> info_of_text(t, f)->0.number == info_of_text(t, g)->0.number
            && info_of_text(t, f)->0.explicit == info_of_text(t, g)->0.explicit,
        info_of_text(t, f) is Some && info_of_text(u, f) is Some ==> info_of_text(t, f)->0.family
            == info_of_text(u, f)->0.family,
        t.len() > 0 ==> info_of_text(t, Seq::empty()) == info_of_text(t, t),
{
}

/// Law: a text has info exactly where it has a number, by its explicit
/// match and by whether it is a page of a paginated list; the family is
/// that of the family source, by the explicit match there, whether or not
/// the source has a chapter.
pub proof fn law_info(t: Seq<char>, f: Seq<char>)
    requires
        f.len() > 0,
    ensures
        ({
            let n = number_of_match(
                lowered(t),
                regex_captures(EXPLICIT@, lowered(t)),
                regex_is_match(PAGINATION@, lowered(t)) == Some(true),
            );
            match info_of_text(t, f) {
                Some(i) => {
                    &&& n == Some((i.number, i.explicit))
                    &&& i.family == family_of_match(
                        lowered(f),
                        regex_captures(EXPLICIT@, lowered(f)),
                    )
                },
                None => n is None,
            }
        }),
{
}

/// Law: the case of ASCII letters does not matter to the info of a text.
pub proof fn law_info_ignores_case(t: Seq<char>, u: Seq<char>)
    requires
        lowered(t) == lowered(u),
        t.len() > 0,
        u.len() > 0,
    ensures
        info_of_text(t, t) == info_of_text(u, u),
{
}

/// Law: where the explicit pattern finds nothing, a page of a paginated
/// list has no info, and any other text has its last bare number, not
/// explicit, and the family with `#` in its place.
pub proof fn law_info_bare(t: Seq<char>, a: int, b: int, kept: Seq<char>, slashes: Seq<char>)
    requires
        regex_captures(EXPLICIT@, lowered(t)) is None,
        last_bare(lowered(t)) == Some((a, b)),
        lowered(t).take(a) + seq!['#'] + lowered(t).skip(b) == kept + slashes,
        made_of(slashes, CharClass::Slash),
        kept.len() > 0 ==> kept.last() != '/',
    ensures
        regex_is_match(PAGINATION@, lowered(t)) == Some(true) ==> info_of_text(t, t) is None,
        regex_is_match(PAGINATION@, lowered(t)) != Some(true) ==> info_of_text(t, t) == Some(
            ChapterInfoView {
                number: decimal(digits_of(lowered(t).subrange(a, b)), Seq::empty()),
                family: kept,
                explicit: false,
            },
        ),
{
    law_bare_at(lowered(t), a, b, kept, slashes);
}

/// Law: a text in which the explicit pattern finds nothing and that has no
/// bare number has no info, whatever the family source.
pub proof fn law_info_none(t: Seq<char>, family_source: Seq<char>)
    requires
        regex_captures(EXPLICIT@, lowered(t)) is None,
        last_bare(lowered(t)) is None,
    ensures
        info_of_text(t, family_source) is None,
{
}

/// Law: where the explicit pattern finds a chapter, the info is explicit
/// and has the number of the match and the family with the match replaced,
/// also on a page of a paginated list.
pub proof fn law_info_explicit(
    t: Seq<char>,
    c: CapturedView,
    number: Decimal,
    kept: Seq<char>,
    slashes: Seq<char>,
)
    requires
        t.len() > 0,
        regex_captures(EXPLICIT@, lowered(t)) == Some(c),
        number_of_match(lowered(t), Some(c), false) == Some((number, true)),
        c.groups.len() == 3,
        c.groups[2] is Some ==> c.groups[2]->0.rest == kept + slashes,
        c.groups[2] is None ==> c.after == kept + slashes,
        kept.len() > 0 ==> kept.last() != '/',
        made_of(slashes, CharClass::Slash),
    ensures
        info_of_text(t, t) == Some(
            ChapterInfoView { number, family: c.before + "chapter-#"@ + kept, explicit: true },
        ),
{
    law_family_explicit(lowered(t), c, kept, slashes);
}

/// Law: the patterns and what stands for a chapter.
pub proof fn law_heuristic_patterns()
    ensures
        EXPLICIT@
            == r"(?i)(?:chapter|chap|ch|episode|ep)[-_\s/]*([0-9]+)(?:(?:[._-]([0-9]+))|(?:[._-]?([a-z])(?:[^a-z0-9]|$)))?"@,
        PAGINATION@ == r"(?i)(?:^|/)page/\d+(?:/|$)"@,
        TITLE_NOISE@
            == r"(?i)\b(?:read|chapter|chap|ch|episode|ep|volume|vol)\.?\s*\d+(?:[._-]\d+)?\b"@,
{
}

// ---------- laws: addresses ----------

/// The value of a hexadecimal digit, by what it is written as.
pub open spec fn is_hex(b: u8, v: int) -> bool {
    ||| 0 <= v < 10 && b == 48 + v
    ||| 10 <= v < 16 && (b == 55 + v || b == 87 + v)
}

/// Law: decoding goes from front to back. A byte that is no percent sign
/// is kept, a percent sign with two hexadecimal digits, or with a plus sign
/// and one, is the byte that they denote, and any other percent sign is
/// kept.
pub proof fn law_decode_step(b: u8, x: u8, y: u8, u: int, v: int, rest: Seq<u8>)
    ensures
        decoded_bytes(Seq::empty()) == Seq::<u8>::empty(),
        b != 37 ==> decoded_bytes(seq![b] + rest) == seq![b] + decoded_bytes(rest),
        is_hex(x, u) && is_hex(y, v) ==> decoded_bytes(seq![37u8, x, y] + rest) == seq![
            (16 * u + v) as u8,
        ] + decoded_bytes(rest),
        x == 43 && is_hex(y, v) ==> decoded_bytes(seq![37u8, x, y] + rest) == seq![v as u8]
            + decoded_bytes(rest),
        (x != 43 && !(exists|w: int| is_hex(x, w)) || !(exists|w: int| is_hex(y, w)))
            ==> decoded_bytes(seq![37u8, x, y] + rest) == seq![37u8] + decoded_bytes(
            seq![x, y] + rest,
        ),
        decoded_bytes(seq![37u8]) == seq![37u8],
        x != 37 ==> decoded_bytes(seq![37u8, x]) == seq![37u8, x],
{
    let none = Seq::<u8>::empty();
    assert((seq![b] + rest).skip(1) =~= rest);
    let e = seq![37u8, x, y] + rest;
    assert(e.skip(3) =~= rest);
    assert(e.skip(1) =~= seq![x, y] + rest);
    assert(hex_value(x) is Some ==> is_hex(x, hex_value(x)->0 as int));
    assert(hex_value(y) is Some ==> is_hex(y, hex_value(y)->0 as int));
    assert(seq![37u8].skip(1) =~= none);
    assert(seq![37u8, x].skip(1) =~= seq![x]);
    assert(seq![x].skip(1) =~= none);
    reveal_with_fuel(decoded_bytes, 3);
    assert(seq![37u8] + none =~= seq![37u8]);
    assert(seq![x] + none =~= seq![x]);
    assert(seq![37u8] + seq![x] =~= seq![37u8, x]);
}

/// Law: a decoded text is made of the decoded bytes where these are valid
/// UTF-8, and is the text as it was where they are not.
pub proof fn law_decoded_text(s: Seq<char>)
    ensures
        valid_utf8(decoded_bytes(encode_utf8(s))) ==> encode_utf8(percent_decoded(s))
            == decoded_bytes(encode_utf8(s)),
        !valid_utf8(decoded_bytes(encode_utf8(s))) ==> percent_decoded(s) == s,
{
    let bytes = decoded_bytes(encode_utf8(s));
    if valid_utf8(bytes) {
        vstd::utf8::decode_utf8_encode_utf8(bytes);
    }
}

/// Law: the info of a URL is that of its decoded path, with the family of
/// the text `scheme://host` and the decoded path; the rest of the URL does
/// not matter.
pub proof fn law_info_of_url(u: SiteUrlView, v: SiteUrlView, host: Seq<char>)
    requires
        u.host == Some(host),
    ensures
        info_of_url(u) == info_of_text(
            percent_decoded(u.path),
            u.scheme + seq![':', '/', '/'] + host + percent_decoded(u.path),
        ),
        info_of_url(u) == info_of_url_on(u, host),
        u.scheme == v.scheme && u.host == v.host && u.path == v.path ==> info_of_url(u)
            == info_of_url(v),
        v.host is None ==> info_of_url(v) == info_of_text(
            percent_decoded(v.path),
            v.scheme + seq![':', '/', '/'] + percent_decoded(v.path),
        ),
        u.scheme == v.scheme && u.path == v.path ==> info_of_url_on(u, host) == info_of_url_on(
            v,
            host,
        ),
{
    reveal_strlit("://");
    assert("://"@ =~= seq![':', '/', '/']);
    let slashes = "://"@;
    assert(v.scheme + slashes + Seq::<char>::empty() + percent_decoded(v.path) =~= v.scheme
        + slashes + percent_decoded(v.path));
}

/// Law: related hosts are the same, or one is the other behind a dot.
pub proof fn law_related_only(a: Seq<char>, b: Seq<char>)
    requires
        related(a, b),
        a != b,
    ensures
        a.len() > b.len() ==> a == a.take(a.len() - b.len() - 1) + seq!['.'] + b,
        a.len() <= b.len() ==> b == b.take(b.len() - a.len() - 1) + seq!['.'] + a,
{
    law_begins_ends(a, seq!['.'] + b);
    law_begins_ends(b, seq!['.'] + a);
    if subdomain(a, b) {
        assert(a =~= a.take(a.len() - b.len() - 1) + seq!['.'] + b);
    } else {
        assert(b =~= b.take(b.len() - a.len() - 1) + seq!['.'] + a);
    }
}

// ---------- laws: titles ----------

/// Law: the head of a title has none of the separators `|`, `–` and `—`.
pub proof fn law_head_has_no_break(collapsed: Seq<char>, i: int)
    requires
        0 <= i < title_head(collapsed).len(),
    ensures
        title_head(collapsed)[i] != '|',
        title_head(collapsed)[i] != '\u{2013}',
        title_head(collapsed)[i] != '\u{2014}',
{
    let cut = before_class(collapsed, CharClass::TitleBreak);
    lemma_before_class(collapsed, CharClass::TitleBreak);
    lemma_trim_part(cut);
    let head = trim(cut);
    let a = choose|a: int| 0 <= a <= cut.len() - head.len() && head == #[trigger] cut.subrange(
        a,
        a + head.len(),
    );
    assert forall|j: int| 0 <= j < head.len() implies !CharClass::TitleBreak.has(
        #[trigger] head[j],
    ) by {
        assert(head[j] == cut[a + j]);
    }
    lemma_find_bounds(head, " - "@, 0);
    if find(head, " - "@) is Some && title_head(collapsed) != head {
        let left = head.take(find(head, " - "@)->0);
        lemma_trim_part(left);
        let t = trim(left);
        let b = choose|b: int| 0 <= b <= left.len() - t.len() && t == #[trigger] left.subrange(
            b,
            b + t.len(),
        );
        assert(t[i] == left[b + i]);
        assert(left[b + i] == head[b + i]);
    }
}

/// A trimmed text is a part of the text.
proof fn lemma_trim_part(s: Seq<char>)
    ensures
        trim(s).len() <= s.len(),
        exists|a: int|
            0 <= a <= s.len() - trim(s).len() && trim(s) == #[trigger] s.subrange(
                a,
                a + trim(s).len(),
            ),
{
    let front = crate::text::strip_front(s, CharClass::White);
    crate::text::lemma_strip_front(s, CharClass::White);
    crate::text::lemma_strip_back(front, CharClass::White);
    let a = s.len() - front.len();
    assert(trim(s) =~= s.subrange(a, a + trim(s).len()));
}

/// `left` is followed by the first ` - ` of what it is in.
pub open spec fn before_dash(left: Seq<char>) -> bool {
    let dash = seq![' ', '-', ' '];
    let s = left + dash;
    forall|j: int| 0 <= j < left.len() ==> #[trigger] s.subrange(j, j + 3) != dash
}

/// No character of `s` separates a title from what a site adds.
pub open spec fn unbroken(s: Seq<char>) -> bool {
    forall|i: int|
        0 <= i < s.len() ==> #[trigger] s[i] != '|' && s[i] != '\u{2013}' && s[i] != '\u{2014}'
}

/// Law: the head of a title is what precedes its first ` - `, where that
/// has at least three bytes, also where a separator follows; where it has
/// fewer, the dash does not cut.
pub proof fn law_head_before_dash(
    left: Seq<char>,
    kept: Seq<char>,
    gap: Seq<char>,
    rest: Seq<char>,
)
    requires
        left.len() > 0,
        is_trimmed(left),
        unbroken(left),
        before_dash(left),
        unbroken(kept + gap),
        kept.len() > 0,
        !CharClass::White.has(kept.last()),
        is_blank(gap),
        rest.len() > 0 ==> rest[0] == '|' || rest[0] == '\u{2013}' || rest[0] == '\u{2014}',
    ensures
        byte_len(left) >= 3 ==> title_head(left + seq![' ', '-', ' '] + (kept + gap) + rest)
            == left,
        byte_len(left) < 3 ==> title_head(left + seq![' ', '-', ' '] + (kept + gap) + rest) == left
            + seq![' ', '-', ' '] + kept,
{
    reveal_strlit(" - ");
    let dash = seq![' ', '-', ' '];
    assert(" - "@ =~= dash);
    let middle = kept + gap;
    let cut = left + dash + middle;
    assert(left + dash + middle + rest =~= cut + rest);
    lemma_cut_unbroken(left, middle);
    law_before_class(cut, rest, CharClass::TitleBreak);
    lemma_trim_cut(left, kept, gap);
    lemma_first_dash(left, kept);
    let head = left + dash + kept;
    assert(head.take(left.len() as int) =~= left);
    law_trim(left);
}

proof fn lemma_cut_unbroken(left: Seq<char>, middle: Seq<char>)
    requires
        unbroken(left),
        unbroken(middle),
    ensures
        ({
            let cut = left + seq![' ', '-', ' '] + middle;
            forall|i: int| 0 <= i < cut.len() ==> !CharClass::TitleBreak.has(#[trigger] cut[i])
        }),
{
    let dash = seq![' ', '-', ' '];
    let cut = left + dash + middle;
    assert forall|i: int| 0 <= i < cut.len() implies !CharClass::TitleBreak.has(
        #[trigger] cut[i],
    ) by {
        if i < left.len() {
            assert(cut[i] == left[i]);
        } else if i < left.len() + 3 {
            assert(cut[i] == dash[i - left.len()]);
        } else {
            assert(cut[i] == middle[i - left.len() - 3]);
        }
    }
}

proof fn lemma_trim_cut(left: Seq<char>, kept: Seq<char>, gap: Seq<char>)
    requires
        left.len() > 0,
        is_trimmed(left),
        kept.len() > 0,
        !CharClass::White.has(kept.last()),
        is_blank(gap),
    ensures
        trim(left + seq![' ', '-', ' '] + (kept + gap)) == left + seq![' ', '-', ' '] + kept,
{
    let dash = seq![' ', '-', ' '];
    let head = left + dash + kept;
    assert(left + dash + (kept + gap) =~= Seq::<char>::empty() + head + gap);
    assert(head[0] == left[0]);
    assert(head.last() == kept.last());
    law_trim_keeps_middle(Seq::empty(), head, gap);
}

proof fn lemma_first_dash(left: Seq<char>, kept: Seq<char>)
    requires
        before_dash(left),
    ensures
        find(left + seq![' ', '-', ' '] + kept, seq![' ', '-', ' ']) == Some(left.len() as int),
{
    let dash = seq![' ', '-', ' '];
    let head = left + dash + kept;
    let s = left + dash;
    let at = left.len() as int;
    assert(head.subrange(at, at + 3) =~= dash);
    assert forall|j: int| 0 <= j < at implies #[trigger] head.subrange(j, j + 3) != dash by {
        assert(s.subrange(j, j + 3) != dash);
        assert(head.subrange(j, j + 3) =~= s.subrange(j, j + 3));
    }
    lemma_find_at(head, dash, 0, at);
}

/// Law: a title without ` - ` in front of its first separator, or without
/// any, is cut at the separator alone.
pub proof fn law_head_before_break(left: Seq<char>, rest: Seq<char>)
    requires
        unbroken(left),
        rest.len() > 0 ==> rest[0] == '|' || rest[0] == '\u{2013}' || rest[0] == '\u{2014}',
        forall|j: int|
            0 <= j && j + 3 <= trim(left).len() ==> #[trigger] trim(left).subrange(j, j + 3)
                != seq![' ', '-', ' '],
    ensures
        title_head(left + rest) == trim(left),
{
    reveal_strlit(" - ");
    assert(" - "@ =~= seq![' ', '-', ' ']);
    assert forall|i: int| 0 <= i < left.len() implies !CharClass::TitleBreak.has(
        #[trigger] left[i],
    ) by {}
    law_before_class(left, rest, CharClass::TitleBreak);
    law_find(trim(left), " - "@);
    if let Some(i) = find(trim(left), " - "@) {
        let h = trim(left);
        assert(h.subrange(i, i + 3) =~= seq![' ', '-', ' ']) by {
            assert(h =~= h.take(i) + " - "@ + h.skip(i + 3));
        }
    }
}

/// A head with white space and dangling punctuation around what is kept of
/// it.
pub open spec fn dangling(
    front: Seq<char>,
    kept: Seq<char>,
    gap: Seq<char>,
    tail: Seq<char>,
    back: Seq<char>,
) -> bool {
    &&& is_blank(front)
    &&& is_blank(gap)
    &&& is_blank(back)
    &&& is_trimmed(kept)
    &&& kept.len() > 0
    &&& forall|i: int|
        0 <= i < tail.len() ==> #[trigger] tail[i] == '-' || tail[i] == ':' || tail[i] == ','
    &&& tail.len() == 0 ==> gap.len() == 0
    &&& gap.len() == 0 ==> kept.last() != '-' && kept.last() != ':' && kept.last() != ','
}

/// Law: a head without noise loses the white space around it and the
/// punctuation at its end; what is kept is the title where it has at least
/// three bytes, else the whole title is.
pub proof fn law_title_of_head(
    collapsed: Seq<char>,
    front: Seq<char>,
    kept: Seq<char>,
    gap: Seq<char>,
    tail: Seq<char>,
    back: Seq<char>,
)
    requires
        dangling(front, kept, gap, tail, back),
    ensures
        byte_len(kept) >= 3 ==> title_of_head(collapsed, front + (kept + gap + tail) + back)
            == kept,
        byte_len(kept) < 3 ==> title_of_head(collapsed, front + (kept + gap + tail) + back)
            == collapsed,
{
    let none = Seq::<char>::empty();
    let inner = kept + gap + tail;
    assert(inner[0] == kept[0]);
    assert(!CharClass::White.has(inner.last())) by {
        if tail.len() > 0 {
            assert(inner.last() == tail[tail.len() - 1]);
        } else {
            assert(inner =~= kept);
        }
    }
    law_trim_keeps_middle(front, inner, back);
    let m = kept + gap;
    assert(m.len() > 0 && !CharClass::TitleTail.has(m.last())) by {
        if gap.len() > 0 {
            assert(m.last() == gap[gap.len() - 1]);
            assert(CharClass::White.has(gap[gap.len() - 1]));
        } else {
            assert(m =~= kept);
        }
    }
    assert(strip_back(inner, CharClass::TitleTail) == m) by {
        lemma_tail(m, tail);
    }
    assert(m =~= none + kept + gap);
    law_trim_keeps_middle(none, kept, gap);
}

proof fn lemma_tail(m: Seq<char>, tail: Seq<char>)
    requires
        m.len() > 0,
        !CharClass::TitleTail.has(m.last()),
        forall|i: int|
            0 <= i < tail.len() ==> #[trigger] tail[i] == '-' || tail[i] == ':' || tail[i] == ',',
    ensures
        strip_back(m + tail, CharClass::TitleTail) == m,
    decreases tail.len(),
{
    let s = m + tail;
    if tail.len() == 0 {
        assert(s =~= m);
    } else {
        assert(tail[tail.len() - 1] == tail.last());
        assert(s.last() == tail.last());
        assert(s.drop_last() =~= m + tail.drop_last());
        lemma_tail(m, tail.drop_last());
    }
}

/// Law: a head of which nothing but white space and punctuation is left
/// gives the whole title.
pub proof fn law_empty_head(
    collapsed: Seq<char>,
    front: Seq<char>,
    tail: Seq<char>,
    back: Seq<char>,
)
    requires
        is_blank(front),
        is_blank(back),
        forall|i: int|
            0 <= i < tail.len() ==> #[trigger] tail[i] == '-' || tail[i] == ':' || tail[i] == ',',
    ensures
        title_of_head(collapsed, front + tail + back) == collapsed,
{
    let none = Seq::<char>::empty();
    if tail.len() > 0 {
        assert(tail[0] == tail.first());
        assert(tail[tail.len() - 1] == tail.last());
    }
    law_trim_keeps_middle(front, tail, back);
    assert(made_of(tail, CharClass::TitleTail));
    law_strip(none, none, tail, CharClass::TitleTail);
    assert(none + tail =~= tail);
    law_trim(none);
    is_ascii_chars_encode_utf8(none);
    assert(byte_len(none) == 0);
}

/// Law: a title is what its head is with the noise replaced by nothing.
pub proof fn law_title_without_noise(raw: Seq<char>, left: Seq<char>)
    requires
        regex_replace_all(TITLE_NOISE@, title_head(collapse(raw)), Seq::empty()) == Some(left),
    ensures
        cleaned_title(raw) == title_of_head(collapse(raw), left),
{
    reveal_strlit("");
    assert(""@ =~= Seq::<char>::empty());
}

/// Law: a title is its head without chapter and volume noise, as the
/// pattern of noise finds it; the noise is replaced by nothing.
pub proof fn law_cleaned_title(
    raw: Seq<char>,
    head: Seq<char>,
    front: Seq<char>,
    kept: Seq<char>,
    gap: Seq<char>,
    tail: Seq<char>,
    back: Seq<char>,
)
    requires
        title_head(collapse(raw)) == head,
        regex_replace_all(TITLE_NOISE@, head, Seq::empty()) == Some(
            front + (kept + gap + tail) + back,
        ),
        dangling(front, kept, gap, tail, back),
    ensures
        byte_len(kept) >= 3 ==> cleaned_title(raw) == kept,
        byte_len(kept) < 3 ==> cleaned_title(raw) == collapse(raw),
{
    reveal_strlit("");
    assert(""@ =~= Seq::<char>::empty());
    law_title_of_head(collapse(raw), front, kept, gap, tail, back);
}

} // verus!
