//! Character-level text operations.
//!
//! Strings are modelled by their sequence of characters. The executable
//! functions work on `Vec<char>` and are tied to the specification
//! functions of the same meaning on `Seq<char>`.

use vstd::prelude::*;
use vstd::utf8::{encode_utf8, is_ascii_chars, valid_utf8};

verus! {

// ---------- specifications of the string functions of the standard library ----------

/// `String::push` appends one character.
pub assume_specification[ String::push ](s: &mut String, c: char)
    ensures
        final(s)@ == old(s)@.push(c),
;

/// `==` on string slices compares them character by character.
pub assume_specification[ <str as PartialEq>::eq ](a: &str, b: &str) -> (r: bool)
    ensures
        r == (a@ == b@),
;

/// The Unicode lowercase form of a text, as `str::to_lowercase` computes it.
pub uninterp spec fn lowercase(s: Seq<char>) -> Seq<char>;

/// The lowercase form of an ASCII character; any other character is itself.
pub open spec fn ascii_lower(c: char) -> char {
    if 'A' <= c <= 'Z' {
        ((c as u32 + 32) as u32) as char
    } else {
        c
    }
}

/// `str::to_lowercase` is a function of the text alone. On ASCII text it
/// replaces each of the letters `A` to `Z` by its lowercase form and
/// keeps every other character.
pub assume_specification[ str::to_lowercase ](s: &str) -> (r: String)
    ensures
        r@ == lowercase(s@),
        is_ascii_chars(s@) ==> r@ == s@.map_values(|c: char| ascii_lower(c)),
;

/// The error of `String::from_utf8`.
#[verifier::external_type_specification]
#[verifier::external_body]
pub struct ExFromUtf8Error(std::string::FromUtf8Error);

/// `String::from_utf8` accepts exactly the valid UTF-8 byte vectors and
/// returns the text that they encode.
pub assume_specification[ String::from_utf8 ](vec: Vec<u8>) -> (r: Result<
    String,
    std::string::FromUtf8Error,
>)
    ensures
        r is Ok <==> valid_utf8(vec@),
        r matches Ok(s) ==> encode_utf8(s@) == vec@,
;

/// The characters of a string, where there is one.
pub open spec fn text_view(s: Option<String>) -> Option<Seq<char>> {
    match s {
        Some(s) => Some(s@),
        None => None,
    }
}

/// The characters of a string slice, where there is one.
pub open spec fn str_view(s: Option<&str>) -> Option<Seq<char>> {
    match s {
        Some(s) => Some(s@),
        None => None,
    }
}

/// The lowercase form of a text.
pub open spec fn lowered(s: Seq<char>) -> Seq<char> {
    if is_ascii_chars(s) {
        s.map_values(|c: char| ascii_lower(c))
    } else {
        lowercase(s)
    }
}

/// The lowercase form of `s`.
pub fn to_lower(s: &str) -> (r: String)
    ensures
        r@ == lowered(s@),
{
    s.to_lowercase()
}

// ---------- character classes ----------

/// The classes of characters at which texts are trimmed or cut.
#[derive(Clone, Copy, PartialEq, Eq, Debug, Structural)]
pub enum CharClass {
    /// White space, as Unicode's `White_Space` property has it.
    White,
    /// The slash.
    Slash,
    /// Double and single quotes.
    Quote,
    /// The characters that separate a title from what a site adds to it.
    TitleBreak,
    /// Punctuation that is left dangling at the end of a title.
    TitleTail,
}

impl CharClass {
    /// Membership in the class.
    pub open spec fn has(self, c: char) -> bool {
        match self {
            CharClass::White => {
                ||| '\u{9}' <= c <= '\u{d}'
                ||| c == ' '
                ||| c == '\u{85}'
                ||| c == '\u{a0}'
                ||| c == '\u{1680}'
                ||| '\u{2000}' <= c <= '\u{200a}'
                ||| c == '\u{2028}'
                ||| c == '\u{2029}'
                ||| c == '\u{202f}'
                ||| c == '\u{205f}'
                ||| c == '\u{3000}'
            },
            CharClass::Slash => c == '/',
            CharClass::Quote => c == '"' || c == '\'',
            CharClass::TitleBreak => c == '|' || c == '\u{2013}' || c == '\u{2014}',
            CharClass::TitleTail => c == '-' || c == ':' || c == ',',
        }
    }

    /// Decides membership in the class.
    pub fn contains(self, c: char) -> (r: bool)
        ensures
            r == self.has(c),
    {
        match self {
            CharClass::White => ('\u{9}' <= c && c <= '\u{d}') || c == ' ' || c == '\u{85}' || c
                == '\u{a0}' || c == '\u{1680}' || ('\u{2000}' <= c && c <= '\u{200a}') || c
                == '\u{2028}' || c == '\u{2029}' || c == '\u{202f}' || c == '\u{205f}' || c
                == '\u{3000}',
            CharClass::Slash => c == '/',
            CharClass::Quote => c == '"' || c == '\'',
            CharClass::TitleBreak => c == '|' || c == '\u{2013}' || c == '\u{2014}',
            CharClass::TitleTail => c == '-' || c == ':' || c == ',',
        }
    }
}

// ---------- conversions ----------

/// The characters of a string.
pub fn to_chars(s: &str) -> (v: Vec<char>)
    ensures
        v@ == s@,
{
    let mut v: Vec<char> = Vec::new();
    for c in it: s.chars()
        invariant
            it.seq() == s@,
            v@ == s@.take(it.index()),
    {
        v.push(c);
    }
    v
}

/// The string with the given characters.
pub fn to_text(v: &Vec<char>) -> (s: String)
    ensures
        s@ == v@,
{
    text_between(v, 0, v.len())
}

/// The string with the characters of `v` from `from` up to `to`.
pub fn text_between(v: &Vec<char>, from: usize, to: usize) -> (s: String)
    requires
        from <= to <= v@.len(),
    ensures
        s@ == v@.subrange(from as int, to as int),
{
    let mut s: String = String::new();
    let mut i: usize = from;
    while i < to
        invariant
            from <= i <= to <= v@.len(),
            s@ == v@.subrange(from as int, i as int),
        decreases to - i,
    {
        s.push(v[i]);
        assert(v@.subrange(from as int, i + 1) =~= v@.subrange(from as int, i as int).push(
            v@[i as int],
        ));
        i = i + 1;
    }
    s
}

/// The characters of `v` from `from` up to `to`.
pub fn slice(v: &Vec<char>, from: usize, to: usize) -> (r: Vec<char>)
    requires
        from <= to <= v@.len(),
    ensures
        r@ == v@.subrange(from as int, to as int),
{
    let mut r: Vec<char> = Vec::new();
    let mut i: usize = from;
    while i < to
        invariant
            from <= i <= to <= v@.len(),
            r@ == v@.subrange(from as int, i as int),
        decreases to - i,
    {
        r.push(v[i]);
        assert(v@.subrange(from as int, i + 1) =~= v@.subrange(from as int, i as int).push(
            v@[i as int],
        ));
        i = i + 1;
    }
    r
}

/// Appends the characters of `tail` to `v`.
pub fn extend(v: &mut Vec<char>, tail: &Vec<char>)
    ensures
        final(v)@ == old(v)@ + tail@,
{
    let mut i: usize = 0;
    assert(v@ =~= v@ + tail@.take(0));
    while i < tail.len()
        invariant
            i <= tail@.len(),
            v@ == old(v)@ + tail@.take(i as int),
        decreases tail@.len() - i,
    {
        v.push(tail[i]);
        assert(tail@.take(i + 1) =~= tail@.take(i as int).push(tail@[i as int]));
        i = i + 1;
    }
    assert(tail@.take(tail@.len() as int) =~= tail@);
}

/// The number of bytes of a text in UTF-8.
pub open spec fn byte_len(s: Seq<char>) -> nat {
    encode_utf8(s).len()
}

/// The number of bytes of `s`.
pub fn count_bytes(s: &str) -> (n: usize)
    ensures
        n == byte_len(s@),
{
    s.as_bytes().len()
}

// ---------- trimming ----------

/// `s` without its longest prefix of characters of the class.
pub open spec fn strip_front(s: Seq<char>, class: CharClass) -> Seq<char>
    decreases s.len(),
{
    if s.len() > 0 && class.has(s[0]) {
        strip_front(s.drop_first(), class)
    } else {
        s
    }
}

/// `s` without its longest suffix of characters of the class.
pub open spec fn strip_back(s: Seq<char>, class: CharClass) -> Seq<char>
    decreases s.len(),
{
    if s.len() > 0 && class.has(s.last()) {
        strip_back(s.drop_last(), class)
    } else {
        s
    }
}

/// `s` without the characters of the class at either end.
pub open spec fn strip(s: Seq<char>, class: CharClass) -> Seq<char> {
    strip_back(strip_front(s, class), class)
}

/// `s` without the white space at either end.
pub open spec fn trim(s: Seq<char>) -> Seq<char> {
    strip(s, CharClass::White)
}

/// Removes the longest prefix of characters of the class.
pub fn drop_front(v: &Vec<char>, class: CharClass) -> (r: Vec<char>)
    ensures
        r@ == strip_front(v@, class),
{
    let mut i: usize = 0;
    assert(v@.skip(0) =~= v@);
    while i < v.len() && class.contains(v[i])
        invariant
            i <= v@.len(),
            strip_front(v@, class) == strip_front(v@.skip(i as int), class),
        decreases v@.len() - i,
    {
        assert(v@.skip(i as int).drop_first() =~= v@.skip(i + 1));
        i = i + 1;
    }
    let r = slice(v, i, v.len());
    assert(r@ =~= v@.skip(i as int));
    r
}

/// Removes the longest suffix of characters of the class.
pub fn drop_back(v: &Vec<char>, class: CharClass) -> (r: Vec<char>)
    ensures
        r@ == strip_back(v@, class),
{
    let mut n: usize = v.len();
    assert(v@.take(n as int) =~= v@);
    while n > 0 && class.contains(v[n - 1])
        invariant
            n <= v@.len(),
            strip_back(v@, class) == strip_back(v@.take(n as int), class),
        decreases n,
    {
        assert(v@.take(n as int).drop_last() =~= v@.take(n - 1));
        n = n - 1;
    }
    let r = slice(v, 0, n);
    assert(r@ =~= v@.take(n as int));
    r
}

/// Removes the characters of the class at either end.
pub fn drop_ends(v: &Vec<char>, class: CharClass) -> (r: Vec<char>)
    ensures
        r@ == strip(v@, class),
{
    let front = drop_front(v, class);
    drop_back(&front, class)
}

/// Removes the white space at either end.
pub fn trimmed(v: &Vec<char>) -> (r: Vec<char>)
    ensures
        r@ == trim(v@),
{
    drop_ends(v, CharClass::White)
}

// ---------- searching ----------

/// The first position, from `from` on, at which `pattern` occurs in `s`.
pub open spec fn find_from(s: Seq<char>, pattern: Seq<char>, from: int) -> Option<int>
    decreases s.len() + 1 - from,
{
    if from < 0 || from + pattern.len() > s.len() {
        None
    } else if s.subrange(from, from + pattern.len()) == pattern {
        Some(from)
    } else {
        find_from(s, pattern, from + 1)
    }
}

/// The first position at which `pattern` occurs in `s`.
pub open spec fn find(s: Seq<char>, pattern: Seq<char>) -> Option<int> {
    find_from(s, pattern, 0)
}

/// Whether `pattern` occurs in `v` at position `at`.
pub fn occurs_at(v: &Vec<char>, pattern: &Vec<char>, at: usize) -> (r: bool)
    requires
        at + pattern@.len() <= v@.len(),
    ensures
        r == (v@.subrange(at as int, at + pattern@.len()) == pattern@),
{
    let total: usize = v.len();
    let mut i: usize = 0;
    while i < pattern.len()
        invariant
            i <= pattern@.len(),
            at + pattern@.len() <= v@.len(),
            total == v@.len(),
            forall|j: int| 0 <= j < i ==> v@[at + j] == pattern@[j],
        decreases pattern@.len() - i,
    {
        if v[at + i] != pattern[i] {
            proof {
                assert(v@.subrange(at as int, at + pattern@.len())[i as int] != pattern@[i as int]);
            }
            return false;
        }
        i = i + 1;
    }
    assert(v@.subrange(at as int, at + pattern@.len()) =~= pattern@);
    true
}

/// Finds the first occurrence of `pattern` in `v`.
pub fn position(v: &Vec<char>, pattern: &str) -> (r: Option<usize>)
    ensures
        match r {
            Some(i) => find(v@, pattern@) == Some(i as int) && i + pattern@.len() <= v@.len(),
            None => find(v@, pattern@) is None,
        },
{
    let p = to_chars(pattern);
    let mut i: usize = 0;
    while i <= v.len() && p.len() <= v.len() - i
        invariant
            i <= v@.len() + 1,
            p@ == pattern@,
            find(v@, pattern@) == find_from(v@, pattern@, i as int),
        decreases v@.len() + 1 - i,
    {
        if occurs_at(v, &p, i) {
            return Some(i);
        }
        if i == v.len() {
            proof {
                assert(find_from(v@, pattern@, i + 1) is None);
            }
            return None;
        }
        i = i + 1;
    }
    None
}

/// The first position, from `from` on, of a character of the class.
pub open spec fn find_class_from(s: Seq<char>, class: CharClass, from: int) -> Option<int>
    decreases s.len() - from,
{
    if from < 0 || from >= s.len() {
        None
    } else if class.has(s[from]) {
        Some(from)
    } else {
        find_class_from(s, class, from + 1)
    }
}

/// The part of `s` before the first character of the class, all of `s`
/// where it has none.
pub open spec fn before_class(s: Seq<char>, class: CharClass) -> Seq<char> {
    match find_class_from(s, class, 0) {
        Some(i) => s.take(i),
        None => s,
    }
}

/// Cuts `v` at the first character of the class.
pub fn cut_at_class(v: &Vec<char>, class: CharClass) -> (r: Vec<char>)
    ensures
        r@ == before_class(v@, class),
{
    let mut i: usize = 0;
    while i < v.len()
        invariant
            i <= v@.len(),
            find_class_from(v@, class, 0) == find_class_from(v@, class, i as int),
        decreases v@.len() - i,
    {
        if class.contains(v[i]) {
            return slice(v, 0, i);
        }
        i = i + 1;
    }
    let r = slice(v, 0, v.len());
    assert(r@ =~= v@);
    r
}

/// Whether `s` begins with `prefix`.
pub open spec fn begins(s: Seq<char>, prefix: Seq<char>) -> bool {
    prefix.len() <= s.len() && s.take(prefix.len() as int) == prefix
}

/// Whether `s` ends with `suffix`.
pub open spec fn ends(s: Seq<char>, suffix: Seq<char>) -> bool {
    suffix.len() <= s.len() && s.skip(s.len() - suffix.len()) == suffix
}

/// Decides whether `v` begins with `prefix`.
pub fn begins_with(v: &Vec<char>, prefix: &str) -> (r: bool)
    ensures
        r == begins(v@, prefix@),
{
    let p = to_chars(prefix);
    if p.len() > v.len() {
        return false;
    }
    assert(v@.subrange(0, 0int + p@.len()) =~= v@.take(p@.len() as int));
    occurs_at(v, &p, 0)
}

/// Decides whether `v` ends with `suffix`.
pub fn ends_with(v: &Vec<char>, suffix: &Vec<char>) -> (r: bool)
    ensures
        r == ends(v@, suffix@),
{
    if suffix.len() > v.len() {
        return false;
    }
    let at: usize = v.len() - suffix.len();
    assert(v@.subrange(at as int, at + suffix@.len()) =~= v@.skip(at as int));
    occurs_at(v, suffix, at)
}

// ---------- words ----------

/// The length of the longest prefix of `s` without white space.
pub open spec fn word_len(s: Seq<char>) -> int
    decreases s.len(),
{
    if s.len() == 0 || CharClass::White.has(s[0]) {
        0
    } else {
        1 + word_len(s.drop_first())
    }
}

/// `s` with each run of white space between words replaced by one space
/// and the white space at either end removed.
pub open spec fn collapse(s: Seq<char>) -> Seq<char>
    decreases s.len(),
    via collapse_decreases
{
    let t = strip_front(s, CharClass::White);
    let n = word_len(t);
    let rest = strip_front(t.skip(n), CharClass::White);
    if t.len() == 0 {
        Seq::empty()
    } else if rest.len() == 0 {
        t.take(n)
    } else {
        t.take(n).push(' ') + collapse(rest)
    }
}

#[via_fn]
proof fn collapse_decreases(s: Seq<char>) {
    let t = strip_front(s, CharClass::White);
    lemma_strip_front(s, CharClass::White);
    lemma_word_len(t);
    lemma_strip_front(t.skip(word_len(t)), CharClass::White);
}

/// What is left of `s` begins outside the class, and is no longer than `s`.
pub proof fn lemma_strip_front(s: Seq<char>, class: CharClass)
    ensures
        strip_front(s, class).len() <= s.len(),
        strip_front(s, class).len() > 0 ==> !class.has(strip_front(s, class)[0]),
        strip_front(s, class) == s.skip(s.len() - strip_front(s, class).len()),
    decreases s.len(),
{
    if s.len() > 0 && class.has(s[0]) {
        lemma_strip_front(s.drop_first(), class);
        assert(strip_front(s, class) =~= s.skip(s.len() - strip_front(s, class).len()));
    } else {
        assert(s.skip(0) =~= s);
    }
}

/// A word ends at white space or at the end of the text.
pub proof fn lemma_word_len(s: Seq<char>)
    ensures
        0 <= word_len(s) <= s.len(),
        s.len() > 0 && !CharClass::White.has(s[0]) ==> word_len(s) > 0,
        word_len(s) < s.len() ==> CharClass::White.has(s[word_len(s)]),
    decreases s.len(),
{
    if s.len() == 0 || CharClass::White.has(s[0]) {
    } else {
        lemma_word_len(s.drop_first());
    }
}

/// Stripping twice is stripping once.
proof fn lemma_strip_front_again(s: Seq<char>, class: CharClass)
    ensures
        strip_front(strip_front(s, class), class) == strip_front(s, class),
{
    lemma_strip_front(s, class);
}

/// White space in front of a text does not matter to its words.
proof fn lemma_collapse_strip(s: Seq<char>)
    ensures
        collapse(strip_front(s, CharClass::White)) == collapse(s),
{
    lemma_strip_front_again(s, CharClass::White);
}

/// Replaces each run of white space between words by one space and
/// removes the white space at either end.
pub fn collapse_white(v: &Vec<char>) -> (r: Vec<char>)
    ensures
        r@ == collapse(v@),
{
    let ghost white = CharClass::White;
    let mut out: Vec<char> = Vec::new();
    let mut rest = drop_front(v, CharClass::White);
    proof {
        lemma_collapse_strip(v@);
        lemma_strip_front_again(v@, white);
        assert(Seq::<char>::empty() + collapse(rest@) =~= collapse(rest@));
    }
    let mut first: bool = true;
    while rest.len() > 0
        invariant
            white == CharClass::White,
            rest@ == strip_front(rest@, white),
            first ==> out@.len() == 0 && collapse(v@) == collapse(rest@),
            !first ==> collapse(v@) == (if rest@.len() == 0 {
                out@
            } else {
                out@.push(' ') + collapse(rest@)
            }),
        decreases rest@.len(),
    {
        let ghost before = out@;
        let ghost was_first = first;
        let ghost t = rest@;
        if !first {
            out.push(' ');
        }
        let ghost spaced = out@;
        let mut n: usize = 0;
        proof {
            lemma_word_len(t);
            assert(t.skip(0) =~= t);
        }
        while n < rest.len() && !CharClass::White.contains(rest[n])
            invariant
                white == CharClass::White,
                rest@ == t,
                n <= t.len(),
                word_len(t) == n + word_len(t.skip(n as int)),
                out@ == spaced + t.take(n as int),
            decreases t.len() - n,
        {
            out.push(rest[n]);
            assert(t.take(n + 1) =~= t.take(n as int).push(t[n as int]));
            assert(t.skip(n as int).drop_first() =~= t.skip(n + 1));
            n = n + 1;
        }
        let tail = slice(&rest, n, rest.len());
        assert(tail@ =~= t.skip(n as int));
        rest = drop_front(&tail, CharClass::White);
        first = false;
        proof {
            lemma_strip_front(t.skip(n as int), white);
            lemma_strip_front_again(t.skip(n as int), white);
            assert(t.take(n as int).push(' ') + collapse(rest@) == t.take(n as int) + (
            Seq::<char>::empty().push(' ') + collapse(rest@)));
            if rest@.len() == 0 {
                assert(collapse(t) == t.take(n as int));
                assert(collapse(v@) =~= out@);
            } else {
                assert(collapse(t) == t.take(n as int).push(' ') + collapse(rest@));
                assert(collapse(v@) =~= out@.push(' ') + collapse(rest@));
            }
        }
    }
    assert(out@ =~= collapse(v@));
    out
}

// ---------- laws ----------

/// Every character of `s` is white space.
pub open spec fn is_blank(s: Seq<char>) -> bool {
    forall|i: int| 0 <= i < s.len() ==> CharClass::White.has(#[trigger] s[i])
}

/// The text has no white space at either end.
pub open spec fn is_trimmed(s: Seq<char>) -> bool {
    s.len() > 0 ==> !CharClass::White.has(s[0]) && !CharClass::White.has(s.last())
}

/// A text is blank where nothing is left of it.
pub proof fn lemma_blank(s: Seq<char>)
    ensures
        is_blank(s) <==> strip_front(s, CharClass::White).len() == 0,
    decreases s.len(),
{
    if s.len() > 0 && CharClass::White.has(s[0]) {
        lemma_blank(s.drop_first());
        if is_blank(s.drop_first()) {
            assert forall|i: int| 0 <= i < s.len() implies CharClass::White.has(
                #[trigger] s[i],
            ) by {
                if i > 0 {
                    assert(s.drop_first()[i - 1] == s[i]);
                }
            }
        }
    }
}

/// What is left of `s` ends outside the class, and begins `s`.
pub proof fn lemma_strip_back(s: Seq<char>, class: CharClass)
    ensures
        strip_back(s, class).len() <= s.len(),
        strip_back(s, class).len() > 0 ==> !class.has(strip_back(s, class).last()),
        strip_back(s, class) == s.take(strip_back(s, class).len() as int),
    decreases s.len(),
{
    if s.len() > 0 && class.has(s.last()) {
        lemma_strip_back(s.drop_last(), class);
        assert(strip_back(s, class) =~= s.take(strip_back(s, class).len() as int));
    } else {
        assert(s.take(s.len() as int) =~= s);
    }
}

/// Law: what `trim` gives has no white space at either end, and a text
/// without any there is kept as it is.
pub proof fn law_trim(s: Seq<char>)
    ensures
        is_trimmed(trim(s)),
        is_trimmed(s) ==> trim(s) == s,
{
    let front = strip_front(s, CharClass::White);
    lemma_strip_front(s, CharClass::White);
    lemma_strip_back(front, CharClass::White);
}

/// Law: collapsing the white space of a text leaves none at either end,
/// and leaves nothing exactly where the text is blank.
pub proof fn law_collapse(s: Seq<char>)
    ensures
        is_trimmed(collapse(s)),
        collapse(s).len() == 0 <==> is_blank(s),
    decreases s.len(),
{
    let white = CharClass::White;
    let t = strip_front(s, white);
    let n = word_len(t);
    let rest = strip_front(t.skip(n), white);
    lemma_blank(s);
    lemma_strip_front(s, white);
    lemma_word_len(t);
    lemma_word(t);
    lemma_strip_front(t.skip(n), white);
    if t.len() > 0 && rest.len() > 0 {
        law_collapse(rest);
        lemma_blank(rest);
        assert(strip_front(rest, white) == rest);
        assert(collapse(s)[0] == t[0]);
        assert(collapse(s).last() == collapse(rest).last());
    }
}

proof fn lemma_word(s: Seq<char>)
    ensures
        forall|i: int| 0 <= i < word_len(s) ==> !CharClass::White.has(#[trigger] s[i]),
    decreases s.len(),
{
    if s.len() == 0 || CharClass::White.has(s[0]) {
    } else {
        lemma_word(s.drop_first());
        lemma_word_len(s.drop_first());
        assert forall|i: int| 0 <= i < word_len(s) implies !CharClass::White.has(
            #[trigger] s[i],
        ) by {
            if i > 0 {
                assert(s.drop_first()[i - 1] == s[i]);
            }
        }
    }
}

/// Law: a text that is not ASCII is lowered as Unicode has it.
pub proof fn law_lowered_unicode(s: Seq<char>)
    requires
        !is_ascii_chars(s),
    ensures
        lowered(s) == lowercase(s),
{
}

/// Law: on ASCII text lowering moves the letters `A` to `Z` by 32 code
/// points and keeps every other character.
pub proof fn law_lowered(s: Seq<char>, i: int)
    requires
        is_ascii_chars(s),
        0 <= i < s.len(),
    ensures
        lowered(s).len() == s.len(),
        65 <= s[i] as u32 <= 90 ==> lowered(s)[i] as u32 == s[i] as u32 + 32,
        !(65 <= s[i] as u32 <= 90) ==> lowered(s)[i] == s[i],
{
}

/// Law: the classes of characters, by code points.
pub proof fn law_char_classes(c: char)
    ensures
        CharClass::White.has(c) <==> {
            let n = c as u32;
            ||| 0x9 <= n <= 0xd
            ||| n == 0x20 || n == 0x85 || n == 0xa0 || n == 0x1680
            ||| 0x2000 <= n <= 0x200a
            ||| n == 0x2028 || n == 0x2029 || n == 0x202f || n == 0x205f || n == 0x3000
        },
        CharClass::Slash.has(c) <==> c as u32 == 0x2f,
        CharClass::Quote.has(c) <==> c as u32 == 0x22 || c as u32 == 0x27,
        CharClass::TitleBreak.has(c) <==> c as u32 == 0x7c || c as u32 == 0x2013 || c as u32
            == 0x2014,
        CharClass::TitleTail.has(c) <==> c as u32 == 0x2d || c as u32 == 0x3a || c as u32 == 0x2c,
{
}

/// Every character of `s` is of the class.
pub open spec fn made_of(s: Seq<char>, class: CharClass) -> bool {
    forall|i: int| 0 <= i < s.len() ==> class.has(#[trigger] s[i])
}

proof fn lemma_front(a: Seq<char>, r: Seq<char>, class: CharClass)
    requires
        made_of(a, class),
    ensures
        strip_front(a + r, class) == strip_front(r, class),
    decreases a.len(),
{
    if a.len() == 0 {
        assert(a + r =~= r);
    } else {
        assert(class.has(a[0]));
        assert((a + r)[0] == a[0]);
        assert((a + r).drop_first() =~= a.drop_first() + r);
        lemma_front(a.drop_first(), r, class);
    }
}

proof fn lemma_back(r: Seq<char>, b: Seq<char>, class: CharClass)
    requires
        made_of(b, class),
    ensures
        strip_back(r + b, class) == strip_back(r, class),
    decreases b.len(),
{
    if b.len() == 0 {
        assert(r + b =~= r);
    } else {
        assert(class.has(b[b.len() - 1]));
        assert((r + b).last() == b.last());
        assert((r + b).drop_last() =~= r + b.drop_last());
        lemma_back(r, b.drop_last(), class);
    }
}

/// Law: stripping a class removes what is of the class at the ends and
/// keeps everything between, of whatever class that is.
pub proof fn law_strip(a: Seq<char>, m: Seq<char>, b: Seq<char>, class: CharClass)
    requires
        made_of(a, class),
        made_of(b, class),
        m.len() > 0 ==> !class.has(m[0]) && !class.has(m.last()),
    ensures
        strip(a + m + b, class) == m,
        strip_front(a + m, class) == m,
        strip_back(m + b, class) == m,
{
    lemma_front(a, m, class);
    lemma_back(m, b, class);
    assert(a + m + b =~= a + (m + b));
    lemma_front(a, m + b, class);
    if m.len() > 0 {
        assert((m + b)[0] == m[0]);
    } else {
        assert(m + b =~= b);
        assert(b + Seq::<char>::empty() =~= b);
        lemma_front(b, Seq::empty(), class);
        assert(m =~= Seq::<char>::empty());
    }
}

/// Law: trimming removes the white space around a text and nothing else.
pub proof fn law_trim_keeps_middle(a: Seq<char>, m: Seq<char>, b: Seq<char>)
    requires
        is_blank(a),
        is_blank(b),
        is_trimmed(m),
    ensures
        trim(a + m + b) == m,
{
    law_strip(a, m, b, CharClass::White);
}

/// Law: what is found is the first occurrence, and nothing is found only
/// where there is none.
pub proof fn law_find(s: Seq<char>, pattern: Seq<char>)
    ensures
        match find(s, pattern) {
            Some(i) => {
                &&& 0 <= i && i + pattern.len() <= s.len()
                &&& s == s.take(i) + pattern + s.skip(i + pattern.len())
                &&& forall|j: int|
                    0 <= j < i ==> #[trigger] s.subrange(j, j + pattern.len()) != pattern
            },
            None => forall|j: int|
                0 <= j && j + pattern.len() <= s.len() ==> #[trigger] s.subrange(
                    j,
                    j + pattern.len(),
                ) != pattern,
        },
{
    lemma_find_from(s, pattern, 0);
    if let Some(i) = find(s, pattern) {
        assert(s =~= s.take(i) + s.subrange(i, i + pattern.len()) + s.skip(i + pattern.len()));
    }
}

/// What is found lies in the text.
pub proof fn lemma_find_bounds(s: Seq<char>, pattern: Seq<char>, from: int)
    ensures
        find_from(s, pattern, from) matches Some(i) ==> from <= i && 0 <= i && i + pattern.len()
            <= s.len(),
    decreases s.len() + 1 - from,
{
    if from < 0 || from + pattern.len() > s.len() {
    } else if s.subrange(from, from + pattern.len()) == pattern {
    } else {
        lemma_find_bounds(s, pattern, from + 1);
    }
}

/// The first occurrence is what is found.
pub proof fn lemma_find_at(s: Seq<char>, pattern: Seq<char>, from: int, at: int)
    requires
        0 <= from <= at,
        at + pattern.len() <= s.len(),
        s.subrange(at, at + pattern.len()) == pattern,
        forall|j: int| from <= j < at ==> #[trigger] s.subrange(j, j + pattern.len()) != pattern,
    ensures
        find_from(s, pattern, from) == Some(at),
    decreases at - from,
{
    if from < at {
        assert(s.subrange(from, from + pattern.len()) != pattern);
        lemma_find_at(s, pattern, from + 1, at);
    }
}

proof fn lemma_find_from(s: Seq<char>, pattern: Seq<char>, from: int)
    requires
        0 <= from,
    ensures
        match find_from(s, pattern, from) {
            Some(i) => {
                &&& from <= i && i + pattern.len() <= s.len()
                &&& s.subrange(i, i + pattern.len()) == pattern
                &&& forall|j: int|
                    from <= j < i ==> #[trigger] s.subrange(j, j + pattern.len()) != pattern
            },
            None => forall|j: int|
                from <= j && j + pattern.len() <= s.len() ==> #[trigger] s.subrange(
                    j,
                    j + pattern.len(),
                ) != pattern,
        },
    decreases s.len() + 1 - from,
{
    if from + pattern.len() > s.len() {
    } else if s.subrange(from, from + pattern.len()) == pattern {
    } else {
        lemma_find_from(s, pattern, from + 1);
    }
}

/// Law: of a text whose first part has none of the class and is followed
/// by one of it, or by nothing, the first part is what precedes the class.
pub proof fn law_before_class(a: Seq<char>, rest: Seq<char>, class: CharClass)
    requires
        forall|i: int| 0 <= i < a.len() ==> !class.has(#[trigger] a[i]),
        rest.len() > 0 ==> class.has(rest[0]),
    ensures
        before_class(a + rest, class) == a,
{
    lemma_class_from(a, rest, class, 0);
    assert((a + rest).take(a.len() as int) =~= a);
    if rest.len() == 0 {
        assert(a + rest =~= a);
    }
}

proof fn lemma_class_from(a: Seq<char>, rest: Seq<char>, class: CharClass, from: int)
    requires
        forall|i: int| 0 <= i < a.len() ==> !class.has(#[trigger] a[i]),
        rest.len() > 0 ==> class.has(rest[0]),
        0 <= from <= a.len(),
    ensures
        find_class_from(a + rest, class, from) == (if rest.len() > 0 {
            Some(a.len() as int)
        } else {
            None::<int>
        }),
    decreases a.len() - from,
{
    let s = a + rest;
    if from < a.len() {
        assert(s[from] == a[from]);
        lemma_class_from(a, rest, class, from + 1);
    } else if rest.len() > 0 {
        assert(s[from] == rest[0]);
    }
}

/// Every text is what precedes a class and then one of the class, or
/// nothing.
pub proof fn lemma_before_class(s: Seq<char>, class: CharClass)
    ensures
        before_class(s, class).len() <= s.len(),
        before_class(s, class) == s.take(before_class(s, class).len() as int),
        forall|i: int|
            0 <= i < before_class(s, class).len() ==> !class.has(
                #[trigger] before_class(s, class)[i],
            ),
        before_class(s, class).len() < s.len() ==> class.has(
            s[before_class(s, class).len() as int],
        ),
{
    lemma_first_of_class(s, class, 0);
    assert(s.take(s.len() as int) =~= s);
}

proof fn lemma_first_of_class(s: Seq<char>, class: CharClass, from: int)
    requires
        0 <= from,
    ensures
        match find_class_from(s, class, from) {
            Some(i) => from <= i < s.len() && class.has(s[i]) && forall|j: int|
                from <= j < i ==> !class.has(#[trigger] s[j]),
            None => forall|j: int| from <= j < s.len() ==> !class.has(#[trigger] s[j]),
        },
    decreases s.len() - from,
{
    if from >= s.len() || class.has(s[from]) {
    } else {
        lemma_first_of_class(s, class, from + 1);
    }
}

/// Law: a text begins with its first part and ends with its last, and one
/// that does is made of that part and the rest.
pub proof fn law_begins_ends(s: Seq<char>, t: Seq<char>)
    ensures
        begins(s + t, s),
        ends(s + t, t),
        begins(s, t) ==> s == t + s.skip(t.len() as int),
        ends(s, t) ==> s == s.take(s.len() - t.len()) + t,
{
    assert((s + t).take(s.len() as int) =~= s);
    assert((s + t).skip(s.len() as int) =~= t);
    if begins(s, t) {
        assert(s =~= s.take(t.len() as int) + s.skip(t.len() as int));
    }
    if ends(s, t) {
        assert(s =~= s.take(s.len() - t.len()) + s.skip(s.len() - t.len()));
    }
}

/// Law: collapsing goes word by word. White space in front does not
/// matter, and each word but the last is followed by one space.
pub proof fn law_collapse_words(word: Seq<char>, gap: Seq<char>, rest: Seq<char>)
    requires
        word.len() > 0,
        forall|i: int| 0 <= i < word.len() ==> !CharClass::White.has(#[trigger] word[i]),
        gap.len() > 0,
        is_blank(gap),
    ensures
        collapse(word) == word,
        collapse(gap + rest) == collapse(rest),
        collapse(word + gap + rest) == (if is_blank(rest) {
            word
        } else {
            word + seq![' '] + collapse(rest)
        }),
{
    let white = CharClass::White;
    let none = Seq::<char>::empty();
    lemma_front(gap, rest, white);
    lemma_blank(rest);
    lemma_collapse_strip(rest);
    // The word alone.
    lemma_word_prefix(word, none);
    assert(word + none =~= word);
    assert(word.skip(word.len() as int) =~= none);
    assert(word.take(word.len() as int) =~= word);
    // The word and what follows it.
    let all = word + gap + rest;
    let tail = gap + rest;
    assert(all =~= word + tail);
    assert(tail[0] == gap[0]);
    assert(all[0] == word[0]);
    lemma_word_prefix(word, tail);
    assert(all.skip(word.len() as int) =~= tail);
    assert(all.take(word.len() as int) =~= word);
    assert(word.push(' ') =~= word + seq![' ']);
}

proof fn lemma_word_prefix(word: Seq<char>, tail: Seq<char>)
    requires
        forall|i: int| 0 <= i < word.len() ==> !CharClass::White.has(#[trigger] word[i]),
        tail.len() > 0 ==> CharClass::White.has(tail[0]),
    ensures
        word_len(word + tail) == word.len(),
    decreases word.len(),
{
    let s = word + tail;
    if word.len() > 0 {
        assert(s[0] == word[0]);
        assert(s.drop_first() =~= word.drop_first() + tail);
        lemma_word_prefix(word.drop_first(), tail);
    } else {
        assert(s =~= tail);
    }
}

} // verus!
