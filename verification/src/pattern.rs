//! Regular expressions, as the `regex` crate matches them.
//!
//! What a pattern matches in a text is named, not spelled out: the
//! functions of this library that use a match state their results over
//! these names.

use vstd::prelude::*;
use crate::text::ends;

verus! {

/// A capture group that took part in a match.
#[derive(Debug, PartialEq, Eq)]
pub struct Group {
    /// The text that the group matched.
    pub text: String,
    /// What follows it in the searched text.
    pub rest: String,
}

/// The characters of a [`Group`].
#[verifier::ext_equal]
pub struct GroupView {
    pub text: Seq<char>,
    pub rest: Seq<char>,
}

impl View for Group {
    type V = GroupView;

    open spec fn view(&self) -> GroupView {
        GroupView { text: self.text@, rest: self.rest@ }
    }
}

/// The first match of a pattern in a text.
#[derive(Debug, PartialEq, Eq)]
pub struct Captured {
    /// What precedes the match in the searched text.
    pub before: String,
    /// The matched text.
    pub matched: String,
    /// What follows the match in the searched text.
    pub after: String,
    /// The capture groups, from the first one on.
    pub groups: Vec<Option<Group>>,
}

/// The characters of a [`Captured`].
#[verifier::ext_equal]
pub struct CapturedView {
    pub before: Seq<char>,
    pub matched: Seq<char>,
    pub after: Seq<char>,
    pub groups: Seq<Option<GroupView>>,
}

/// The characters of a group, where it took part in the match.
pub open spec fn group_view(g: Option<Group>) -> Option<GroupView> {
    match g {
        Some(g) => Some(g@),
        None => None,
    }
}

/// The characters of the groups of a match.
pub open spec fn group_views(groups: Seq<Option<Group>>) -> Seq<Option<GroupView>> {
    groups.map_values(|g: Option<Group>| group_view(g))
}

impl View for Captured {
    type V = CapturedView;

    open spec fn view(&self) -> CapturedView {
        CapturedView {
            before: self.before@,
            matched: self.matched@,
            after: self.after@,
            groups: group_views(self.groups@),
        }
    }
}

/// The characters of a match, where there is one.
pub open spec fn captured_view(c: Option<Captured>) -> Option<CapturedView> {
    match c {
        Some(c) => Some(c@),
        None => None,
    }
}

/// The match is a part of the text, and what a group matched, with what
/// follows it, ends the text.
pub open spec fn within(text: Seq<char>, c: CapturedView) -> bool {
    &&& text == c.before + c.matched + c.after
    &&& forall|i: int|
        0 <= i < c.groups.len() ==> (#[trigger] c.groups[i] matches Some(g) ==> ends(
            text,
            g.text + g.rest,
        ))
}

/// The pattern of an explicit chapter: a keyword, the number, and its
/// decimal part or letter suffix.
pub const EXPLICIT: &'static str =
    r"(?i)(?:chapter|chap|ch|episode|ep)[-_\s/]*([0-9]+)(?:(?:[._-]([0-9]+))|(?:[._-]?([a-z])(?:[^a-z0-9]|$)))?";

/// A text that names a chapter.
pub open spec fn chapter_text(before: Seq<char>, number: Seq<char>, after: Seq<char>) -> Seq<char> {
    before + "chapter-"@ + number + after
}

/// The chapter is all that [`EXPLICIT`] can find first: `number` is made of
/// digits, no digit precedes the keyword, and the number ends the text or
/// its path segment.
pub open spec fn plain_chapter(before: Seq<char>, number: Seq<char>, after: Seq<char>) -> bool {
    &&& forall|i: int| 0 <= i < before.len() ==> !('0' <= #[trigger] before[i] <= '9')
    &&& number.len() > 0
    &&& forall|i: int| 0 <= i < number.len() ==> '0' <= #[trigger] number[i] <= '9'
    &&& after.len() == 0 || after[0] == '/'
}

/// The match of [`EXPLICIT`] in a text that names a chapter.
pub open spec fn chapter_match(
    before: Seq<char>,
    number: Seq<char>,
    after: Seq<char>,
) -> CapturedView {
    CapturedView {
        before,
        matched: "chapter-"@ + number,
        after,
        groups: seq![Some(GroupView { text: number, rest: after }), None, None],
    }
}

/// Whether `pattern` matches anywhere in `text`; `None` where `pattern` is
/// no regular expression.
pub uninterp spec fn regex_is_match(pattern: Seq<char>, text: Seq<char>) -> Option<bool>;

/// `regex::Regex::new` followed by `regex::Regex::is_match`: the answer
/// depends on the pattern and the text alone.
#[verifier::external_body]
pub(crate) fn is_match(pattern: &str, text: &str) -> (r: Option<bool>)
    ensures
        r == regex_is_match(pattern@, text@),
{
    match regex::Regex::new(pattern) {
        Ok(re) => Some(re.is_match(text)),
        Err(_) => None,
    }
}

/// The leftmost match of `pattern` in `text`; `None` where there is none or
/// `pattern` is no regular expression.
pub uninterp spec fn regex_captures(pattern: Seq<char>, text: Seq<char>) -> Option<CapturedView>;

/// `regex::Regex::new` followed by `regex::Regex::captures`: the match
/// depends on the pattern and the text alone. The match is a part of the
/// text, and what a group matched, with what follows it, ends the text.
///
/// Of [`EXPLICIT`] one thing more is claimed. A match of it is a keyword,
/// separators and digits, each right behind the other. So in a text with no
/// digit in front of `chapter-`, none starts earlier than there; repetition
/// is greedy, so the match takes all digits that follow; and neither a
/// slash nor the end of the text goes on with a decimal part or a letter.
#[verifier::external_body]
pub(crate) fn captures(pattern: &str, text: &str) -> (r: Option<Captured>)
    ensures
        captured_view(r) == regex_captures(pattern@, text@),
        r matches Some(c) ==> within(text@, c@),
        pattern@ == EXPLICIT@ ==> forall|before: Seq<char>, number: Seq<char>, after: Seq<char>|
            plain_chapter(before, number, after) && text@ == #[trigger] chapter_text(
                before,
                number,
                after,
            ) ==> captured_view(r) == Some(chapter_match(before, number, after)),
{
    let re = regex::Regex::new(pattern).ok()?;
    let caps = re.captures(text)?;
    let whole = caps.get(0)?;
    let group = |m: regex::Match| Group {
        text: m.as_str().to_string(),
        rest: text[m.end()..].to_string(),
    };
    Some(Captured {
        before: text[..whole.start()].to_string(),
        matched: whole.as_str().to_string(),
        after: text[whole.end()..].to_string(),
        groups: caps.iter().skip(1).map(|m| m.map(group)).collect(),
    })
}

/// `text` with every match of `pattern` replaced by `replacement`; `None`
/// where `pattern` is no regular expression.
pub uninterp spec fn regex_replace_all(
    pattern: Seq<char>,
    text: Seq<char>,
    replacement: Seq<char>,
) -> Option<Seq<char>>;

/// `regex::Regex::new` followed by `regex::Regex::replace_all`: the new
/// text depends on the pattern, the text and the replacement alone.
#[verifier::external_body]
pub(crate) fn replace_all(pattern: &str, text: &str, replacement: &str) -> (r: Option<String>)
    ensures
        match r {
            Some(s) => regex_replace_all(pattern@, text@, replacement@) == Some(s@),
            None => regex_replace_all(pattern@, text@, replacement@) is None,
        },
{
    match regex::Regex::new(pattern) {
        Ok(re) => Some(re.replace_all(text, replacement).into_owned()),
        Err(_) => None,
    }
}

} // verus!
