//! Chapter numbers: exact non-negative decimals of any length.
//!
//! A chapter number is written in a page or a URL as digits, possibly
//! with a decimal part (`10.5`) or a letter suffix (`10b`, which stands
//! for `10.02`). The digits are kept as they are, so that numbers compare
//! exactly whatever their length.

use vstd::prelude::*;
use crate::text::{find, find_from, position, slice, to_chars};

verus! {

// ---------- the model ----------

/// Ten to the power of `n`.
pub open spec fn pow10(n: nat) -> nat
    decreases n,
{
    if n == 0 {
        1
    } else {
        10 * pow10((n - 1) as nat)
    }
}

/// The number that a sequence of decimal digits denotes.
pub open spec fn digits_value(d: Seq<u8>) -> nat
    decreases d.len(),
{
    if d.len() == 0 {
        0
    } else {
        digits_value(d.drop_last()) * 10 + d.last() as nat
    }
}

/// Every element is a decimal digit.
pub open spec fn all_digits(d: Seq<u8>) -> bool {
    forall|i: int| 0 <= i < d.len() ==> #[trigger] d[i] <= 9
}

/// A non-negative decimal: the digits before and after the point.
#[verifier::ext_equal]
pub struct Decimal {
    pub whole: Seq<u8>,
    pub fraction: Seq<u8>,
}

impl Decimal {
    /// Digits only, no leading zero before the point, no trailing zero
    /// after it.
    pub open spec fn canonical(self) -> bool {
        &&& all_digits(self.whole)
        &&& all_digits(self.fraction)
        &&& self.whole.len() > 0 ==> self.whole[0] != 0
        &&& self.fraction.len() > 0 ==> self.fraction.last() != 0
    }

    /// The value multiplied by ten to the power of `self.scale()`.
    pub open spec fn scaled(self) -> nat {
        digits_value(self.whole + self.fraction)
    }

    /// The number of digits after the point.
    pub open spec fn scale(self) -> nat {
        self.fraction.len()
    }

    /// `self < other`, as numbers.
    pub open spec fn less(self, other: Decimal) -> bool {
        self.scaled() * pow10(other.scale()) < other.scaled() * pow10(self.scale())
    }

    /// `self == other`, as numbers.
    pub open spec fn same_value(self, other: Decimal) -> bool {
        self.scaled() * pow10(other.scale()) == other.scaled() * pow10(self.scale())
    }
}

/// `d` without its leading zeros.
pub open spec fn drop_leading_zeros(d: Seq<u8>) -> Seq<u8>
    decreases d.len(),
{
    if d.len() > 0 && d[0] == 0 {
        drop_leading_zeros(d.drop_first())
    } else {
        d
    }
}

/// `d` without its trailing zeros.
pub open spec fn drop_trailing_zeros(d: Seq<u8>) -> Seq<u8>
    decreases d.len(),
{
    if d.len() > 0 && d.last() == 0 {
        drop_trailing_zeros(d.drop_last())
    } else {
        d
    }
}

/// The decimal with the given digits before and after the point.
pub open spec fn decimal(whole: Seq<u8>, fraction: Seq<u8>) -> Decimal {
    Decimal { whole: drop_leading_zeros(whole), fraction: drop_trailing_zeros(fraction) }
}

/// Whether every character of `s` is one of `0` to `9`.
pub open spec fn is_digits(s: Seq<char>) -> bool {
    forall|i: int| 0 <= i < s.len() ==> '0' <= #[trigger] s[i] <= '9'
}

/// The digits that the characters of `s` denote.
pub open spec fn digits_of(s: Seq<char>) -> Seq<u8> {
    Seq::new(s.len(), |i: int| (s[i] as u32 - '0' as u32) as u8)
}

/// The characters that denote the digits of `d`.
pub open spec fn chars_of(d: Seq<u8>) -> Seq<char> {
    Seq::new(d.len(), |i: int| ((d[i] as u32 + '0' as u32) as u32) as char)
}

// ---------- arithmetic of digits ----------

proof fn lemma_pow10_add(a: nat, b: nat)
    ensures
        pow10(a + b) == pow10(a) * pow10(b),
        pow10(a) > 0,
        pow10(b) > 0,
    decreases b, a,
{
    if b == 0 {
        if a > 0 {
            lemma_pow10_add((a - 1) as nat, 0);
        }
        assert(pow10(0) == 1);
        assert(pow10(a) * 1 == pow10(a)) by (nonlinear_arith);
    } else {
        lemma_pow10_add(a, (b - 1) as nat);
        assert(a + b - 1 == a + (b - 1) as nat);
        assert(10 * (pow10(a) * pow10((b - 1) as nat)) == pow10(a) * (10 * pow10((b - 1) as nat)))
            by (nonlinear_arith);
    }
}

proof fn lemma_value_concat(s: Seq<u8>, t: Seq<u8>)
    ensures
        digits_value(s + t) == digits_value(s) * pow10(t.len()) + digits_value(t),
    decreases t.len(),
{
    if t.len() == 0 {
        assert(s + t =~= s);
        assert(digits_value(s) * pow10(t.len()) == digits_value(s)) by (nonlinear_arith)
            requires
                pow10(t.len()) == 1,
        ;
    } else {
        lemma_value_concat(s, t.drop_last());
        assert((s + t).drop_last() =~= s + t.drop_last());
        let p = pow10((t.len() - 1) as nat);
        assert((digits_value(s) * p) * 10 == digits_value(s) * (10 * p)) by (nonlinear_arith);
    }
}

proof fn lemma_value_bound(s: Seq<u8>)
    requires
        all_digits(s),
    ensures
        digits_value(s) < pow10(s.len()),
    decreases s.len(),
{
    if s.len() > 0 {
        assert(s.last() <= 9);
        lemma_value_bound(s.drop_last());
    }
}

/// The first digit of a sequence is its most significant one.
proof fn lemma_value_first(s: Seq<u8>)
    requires
        s.len() > 0,
    ensures
        digits_value(s) == s[0] as nat * pow10((s.len() - 1) as nat) + digits_value(s.drop_first()),
{
    let first = seq![s[0]];
    assert(s =~= first + s.drop_first());
    lemma_value_concat(first, s.drop_first());
    reveal_with_fuel(digits_value, 2);
    assert(digits_value(first) == s[0] as nat);
}

/// The lexicographic order of digit sequences, a proper prefix first.
pub open spec fn lex_less(x: Seq<u8>, y: Seq<u8>) -> bool
    decreases x.len(),
{
    if y.len() == 0 {
        false
    } else if x.len() == 0 {
        true
    } else {
        x[0] < y[0] || (x[0] == y[0] && lex_less(x.drop_first(), y.drop_first()))
    }
}

/// Read as digits after the point, sequences without a trailing zero are
/// ordered as the numbers that they denote; so are sequences of one length.
proof fn lemma_lex_fraction(x: Seq<u8>, y: Seq<u8>)
    requires
        all_digits(x),
        all_digits(y),
        x.len() == y.len() || ((x.len() > 0 ==> x.last() != 0) && (y.len() > 0 ==> y.last() != 0)),
    ensures
        lex_less(x, y) == (digits_value(x) * pow10(y.len()) < digits_value(y) * pow10(x.len())),
    decreases x.len(),
{
    if y.len() == 0 {
        assert(digits_value(y) * pow10(x.len()) == 0) by (nonlinear_arith)
            requires
                digits_value(y) == 0,
        ;
        assert(digits_value(x) * pow10(y.len()) >= 0) by (nonlinear_arith);
    } else if x.len() == 0 {
        assert(digits_value(y) > 0);
        assert(digits_value(x) * pow10(y.len()) == 0) by (nonlinear_arith)
            requires
                digits_value(x) == 0,
        ;
        assert(digits_value(y) * pow10(x.len()) == digits_value(y)) by (nonlinear_arith)
            requires
                pow10(x.len()) == 1,
        ;
    } else {
        let x1 = x.drop_first();
        let y1 = y.drop_first();
        assert(all_digits(x1) && all_digits(y1));
        lemma_lex_fraction(x1, y1);
        lemma_value_first(x);
        lemma_value_first(y);
        lemma_value_bound(x1);
        lemma_value_bound(y1);
        lemma_pow10_add(x1.len(), y1.len());
        let a = pow10(x1.len()) as int;
        let b = pow10(y1.len()) as int;
        let u = digits_value(x1) as int;
        let w = digits_value(y1) as int;
        let d = x[0] as int;
        let e = y[0] as int;
        let vx = digits_value(x) as int;
        let vy = digits_value(y) as int;
        assert(pow10(x.len()) == 10 * a && pow10(y.len()) == 10 * b);
        assert(vx == d * a + u && vy == e * b + w);
        assert(vx * (10 * b) == 10 * (d * (a * b) + u * b)) by (nonlinear_arith)
            requires
                vx == d * a + u,
        ;
        assert(vy * (10 * a) == 10 * (e * (a * b) + w * a)) by (nonlinear_arith)
            requires
                vy == e * b + w,
        ;
        assert(0 <= u * b < a * b) by (nonlinear_arith)
            requires
                0 <= u < a,
                b > 0,
        ;
        assert(0 <= w * a < a * b) by (nonlinear_arith)
            requires
                0 <= w < b,
                a > 0,
        ;
        if d < e {
            assert(d * (a * b) + a * b <= e * (a * b)) by (nonlinear_arith)
                requires
                    d < e,
                    a * b > 0,
            ;
        } else if d > e {
            assert(e * (a * b) + a * b <= d * (a * b)) by (nonlinear_arith)
                requires
                    d > e,
                    a * b > 0,
            ;
        }
    }
}

/// The order of the digits: a number with more digits before the point is
/// the greater one; among equals the digits before and then those after
/// the point decide.
pub open spec fn precedes(a: Decimal, b: Decimal) -> bool {
    if a.whole.len() != b.whole.len() {
        a.whole.len() < b.whole.len()
    } else if a.whole != b.whole {
        lex_less(a.whole, b.whole)
    } else {
        lex_less(a.fraction, b.fraction)
    }
}

proof fn lemma_lex_total(x: Seq<u8>, y: Seq<u8>)
    ensures
        lex_less(x, y) || lex_less(y, x) || x == y,
        !lex_less(x, x),
    decreases x.len(),
{
    if x.len() == 0 && y.len() == 0 {
        assert(x =~= y);
    } else if x.len() > 0 && y.len() > 0 {
        lemma_lex_total(x.drop_first(), y.drop_first());
        lemma_lex_total(x.drop_first(), x.drop_first());
        if x[0] == y[0] && x.drop_first() == y.drop_first() {
            assert(x =~= seq![x[0]] + x.drop_first());
            assert(y =~= seq![y[0]] + y.drop_first());
        }
    } else if x.len() > 0 {
        lemma_lex_total(x.drop_first(), x.drop_first());
    }
}

/// `whole` smaller by at least one outweighs any digits after the point.
proof fn lemma_whole_decides(a: Decimal, b: Decimal)
    requires
        a.canonical(),
        b.canonical(),
        digits_value(a.whole) < digits_value(b.whole),
    ensures
        a.less(b),
{
    lemma_value_concat(a.whole, a.fraction);
    lemma_value_concat(b.whole, b.fraction);
    lemma_value_bound(a.fraction);
    lemma_pow10_add(a.scale(), b.scale());
    let p = pow10(a.scale()) as int;
    let q = pow10(b.scale()) as int;
    let u = digits_value(a.whole) as int;
    let w = digits_value(b.whole) as int;
    let f = digits_value(a.fraction) as int;
    let g = digits_value(b.fraction) as int;
    assert((u * p + f) * q < (w * q + g) * p) by (nonlinear_arith)
        requires
            u + 1 <= w,
            0 <= f < p,
            0 <= g,
            p > 0,
            q > 0,
    {
        assert((u * p + f) * q < ((u + 1) * p) * q);
        assert(((u + 1) * p) * q <= (w * p) * q);
        assert((w * p) * q == (w * q) * p);
        assert((w * q) * p <= (w * q + g) * p);
    }
}

/// The order of the digits is the order of the numbers.
pub proof fn lemma_precedes_is_less(a: Decimal, b: Decimal)
    requires
        a.canonical(),
        b.canonical(),
    ensures
        precedes(a, b) == a.less(b),
{
    if a.whole.len() < b.whole.len() {
        lemma_shorter_whole(a.whole, b.whole);
        lemma_whole_decides(a, b);
    } else if b.whole.len() < a.whole.len() {
        lemma_shorter_whole(b.whole, a.whole);
        lemma_whole_decides(b, a);
    } else if a.whole != b.whole {
        lemma_lex_fraction(a.whole, b.whole);
        lemma_lex_fraction(b.whole, a.whole);
        lemma_lex_total(a.whole, b.whole);
        lemma_pow10_add(a.whole.len(), 0);
        let p = pow10(a.whole.len()) as int;
        let u = digits_value(a.whole) as int;
        let w = digits_value(b.whole) as int;
        assert((u * p < w * p) == (u < w)) by (nonlinear_arith)
            requires
                p > 0,
        ;
        assert((w * p < u * p) == (w < u)) by (nonlinear_arith)
            requires
                p > 0,
        ;
        if lex_less(a.whole, b.whole) {
            lemma_whole_decides(a, b);
        } else {
            lemma_whole_decides(b, a);
        }
    } else {
        lemma_lex_fraction(a.fraction, b.fraction);
        lemma_value_concat(a.whole, a.fraction);
        lemma_value_concat(b.whole, b.fraction);
        let p = pow10(a.scale()) as int;
        let q = pow10(b.scale()) as int;
        let u = digits_value(a.whole) as int;
        let f = digits_value(a.fraction) as int;
        let g = digits_value(b.fraction) as int;
        assert((u * p + f) * q == u * p * q + f * q) by (nonlinear_arith);
        assert((u * q + g) * p == u * p * q + g * p) by (nonlinear_arith);
    }
}

proof fn lemma_shorter_whole(x: Seq<u8>, y: Seq<u8>)
    requires
        all_digits(x),
        all_digits(y),
        x.len() < y.len(),
        y[0] != 0,
    ensures
        digits_value(x) < digits_value(y),
{
    lemma_value_bound(x);
    lemma_value_first(y);
    let rest = (y.len() - 1 - x.len()) as nat;
    lemma_pow10_add(x.len(), rest);
    assert(pow10(x.len()) * pow10(rest) >= pow10(x.len())) by (nonlinear_arith)
        requires
            pow10(rest) >= 1,
            pow10(x.len()) >= 1,
    ;
    let p = pow10((y.len() - 1) as nat);
    assert(y[0] as nat * p >= p) by (nonlinear_arith)
        requires
            y[0] as nat >= 1,
    ;
}

/// Leading zeros do not change a number.
proof fn lemma_leading_zeros(d: Seq<u8>)
    requires
        all_digits(d),
    ensures
        digits_value(drop_leading_zeros(d)) == digits_value(d),
        all_digits(drop_leading_zeros(d)),
        drop_leading_zeros(d).len() > 0 ==> drop_leading_zeros(d)[0] != 0,
    decreases d.len(),
{
    if d.len() > 0 && d[0] == 0 {
        lemma_leading_zeros(d.drop_first());
        lemma_value_first(d);
        let p = pow10((d.len() - 1) as nat);
        assert(0 * p == 0) by (nonlinear_arith);
    }
}

/// A trailing zero after the point does not change a number.
proof fn lemma_trailing_zeros(w: Seq<u8>, f: Seq<u8>)
    requires
        all_digits(f),
    ensures
        digits_value(w + drop_trailing_zeros(f)) * pow10(f.len()) == digits_value(w + f) * pow10(
            drop_trailing_zeros(f).len(),
        ),
        all_digits(drop_trailing_zeros(f)),
        drop_trailing_zeros(f).len() > 0 ==> drop_trailing_zeros(f).last() != 0,
    decreases f.len(),
{
    if f.len() > 0 && f.last() == 0 {
        let g = f.drop_last();
        let t = drop_trailing_zeros(f);
        lemma_trailing_zeros(w, g);
        assert((w + f).drop_last() =~= w + g);
        assert(digits_value(w + f) == digits_value(w + g) * 10);
        let x = digits_value(w + t) as int;
        let y = digits_value(w + g) as int;
        let p = pow10(g.len()) as int;
        let q = pow10(t.len()) as int;
        assert(x * (10 * p) == (y * 10) * q) by (nonlinear_arith)
            requires
                x * p == y * q,
        ;
    }
}

// ---------- the laws of the order ----------

/// Law: the decimal with given digits is canonical and denotes the number
/// that the digits denote.
pub proof fn law_decimal_value(whole: Seq<u8>, fraction: Seq<u8>)
    requires
        all_digits(whole),
        all_digits(fraction),
    ensures
        decimal(whole, fraction).canonical(),
        decimal(whole, fraction).same_value(Decimal { whole, fraction }),
{
    let d = decimal(whole, fraction);
    lemma_leading_zeros(whole);
    lemma_trailing_zeros(whole, fraction);
    lemma_value_concat(whole, d.fraction);
    lemma_value_concat(d.whole, d.fraction);
}

/// Law: of two chapter numbers one is less than the other, or they are
/// the same; and two that denote the same number are the same.
pub proof fn law_order_total(a: Decimal, b: Decimal)
    requires
        a.canonical(),
        b.canonical(),
    ensures
        a.less(b) || b.less(a) || a == b,
        !(a.less(b) && b.less(a)),
        a.same_value(b) <==> a == b,
{
    lemma_precedes_is_less(a, b);
    lemma_precedes_is_less(b, a);
    if !a.less(b) && !b.less(a) {
        lemma_lex_total(a.whole, b.whole);
        lemma_lex_total(a.fraction, b.fraction);
        assert(a =~= b);
    }
}

/// Law: the order of chapter numbers is transitive.
pub proof fn law_order_transitive(a: Decimal, b: Decimal, c: Decimal)
    requires
        a.less(b),
        b.less(c),
    ensures
        a.less(c),
{
    lemma_pow10_add(a.scale(), b.scale());
    lemma_pow10_add(b.scale(), c.scale());
    let p = pow10(a.scale()) as int;
    let q = pow10(b.scale()) as int;
    let r = pow10(c.scale()) as int;
    let x = a.scaled() as int;
    let y = b.scaled() as int;
    let z = c.scaled() as int;
    assert(x * r < z * p) by (nonlinear_arith)
        requires
            x * q < y * p,
            y * r < z * q,
            p > 0,
            q > 0,
            r > 0,
    {
        assert((x * q) * r < (y * p) * r);
        assert((y * r) * p < (z * q) * p);
        assert((y * p) * r == (y * r) * p);
        assert((x * r) * q < (z * p) * q) by {
            assert((x * q) * r == (x * r) * q);
            assert((z * q) * p == (z * p) * q);
        }
        assert(x * r < z * p);
    }
}

/// Law: what is not greater than a number is less than what that number
/// is less than.
pub proof fn law_not_greater_less(a: Decimal, b: Decimal, c: Decimal)
    requires
        !b.less(a),
        b.less(c),
    ensures
        a.less(c),
{
    lemma_pow10_add(a.scale(), b.scale());
    lemma_pow10_add(b.scale(), c.scale());
    let p = pow10(a.scale()) as int;
    let q = pow10(b.scale()) as int;
    let r = pow10(c.scale()) as int;
    let x = a.scaled() as int;
    let y = b.scaled() as int;
    let z = c.scaled() as int;
    assert(x * r < z * p) by (nonlinear_arith)
        requires
            x * q <= y * p,
            y * r < z * q,
            p > 0,
            q > 0,
            r > 0,
    {
        assert((x * q) * r <= (y * p) * r);
        assert((y * r) * p < (z * q) * p);
        assert((y * p) * r == (y * r) * p);
        assert((x * r) * q < (z * p) * q) by {
            assert((x * q) * r == (x * r) * q);
            assert((z * q) * p == (z * p) * q);
        }
        assert(x * r < z * p);
    }
}

/// `number` is `whole + hundredths / 100`.
pub open spec fn is_whole_plus_hundredths(number: Decimal, whole: nat, hundredths: nat) -> bool {
    number.scaled() * 100 == (whole * 100 + hundredths) * pow10(number.scale())
}

/// Law: a letter suffix `a` to `z` puts a chapter after the chapter of
/// the same number and before the next one.
pub proof fn law_letter_suffix_between(n: Decimal, m: Decimal, whole: nat, hundredths: nat)
    requires
        n.canonical(),
        m.canonical(),
        0 < hundredths < 100,
        is_whole_plus_hundredths(n, whole, hundredths),
    ensures
        is_whole_plus_hundredths(m, whole, 0) ==> m.less(n),
        is_whole_plus_hundredths(m, whole + 1, 0) ==> n.less(m),
{
    lemma_pow10_add(n.scale(), m.scale());
    let p = pow10(n.scale()) as int;
    let q = pow10(m.scale()) as int;
    let x = n.scaled() as int;
    let y = m.scaled() as int;
    let w = whole as int;
    let h = hundredths as int;
    assert(y * 100 == (w * 100) * q ==> y * p < x * q) by (nonlinear_arith)
        requires
            x * 100 == (w * 100 + h) * p,
            0 < h,
            p > 0,
            q > 0,
    {
        if y * 100 == (w * 100) * q {
            assert((y * p) * 100 == (y * 100) * p);
            assert((y * p) * 100 == ((w * 100) * q) * p);
            assert((x * q) * 100 == (x * 100) * q);
            assert((x * q) * 100 == ((w * 100 + h) * p) * q);
            assert(((w * 100 + h) * p) * q == ((w * 100) * q) * p + h * (p * q));
            assert(h * (p * q) > 0);
        }
    }
    assert(y * 100 == ((w + 1) * 100) * q ==> x * q < y * p) by (nonlinear_arith)
        requires
            x * 100 == (w * 100 + h) * p,
            h < 100,
            p > 0,
            q > 0,
    {
        if y * 100 == ((w + 1) * 100) * q {
            assert((y * p) * 100 == (y * 100) * p);
            assert((y * p) * 100 == (((w + 1) * 100) * q) * p);
            assert((x * q) * 100 == (x * 100) * q);
            assert((x * q) * 100 == ((w * 100 + h) * p) * q);
            assert((((w + 1) * 100) * q) * p == ((w * 100 + h) * p) * q + (100 - h) * (p * q));
            assert((100 - h) * (p * q) > 0);
        }
    }
}

// ---------- the number ----------

/// A chapter number.
#[derive(Debug, PartialEq, Eq)]
pub struct ChapterNumber {
    whole: Vec<u8>,
    fraction: Vec<u8>,
}

impl View for ChapterNumber {
    type V = Decimal;

    closed spec fn view(&self) -> Decimal {
        Decimal { whole: self.whole@, fraction: self.fraction@ }
    }
}

impl Clone for ChapterNumber {
    fn clone(&self) -> (r: Self)
        ensures
            r@ == self@,
            r@.canonical(),
    {
        proof {
            use_type_invariant(self);
        }
        let whole = copy_digits(&self.whole);
        let fraction = copy_digits(&self.fraction);
        ChapterNumber { whole, fraction }
    }
}

fn copy_digits(v: &Vec<u8>) -> (r: Vec<u8>)
    ensures
        r@ == v@,
{
    let mut r: Vec<u8> = Vec::new();
    let mut i: usize = 0;
    while i < v.len()
        invariant
            i <= v@.len(),
            r@ == v@.take(i as int),
        decreases v@.len() - i,
    {
        r.push(v[i]);
        assert(v@.take(i + 1) =~= v@.take(i as int).push(v@[i as int]));
        i = i + 1;
    }
    assert(r@ =~= v@);
    r
}

/// The digits that the characters of `s` denote, where all are digits.
fn read_digits(s: &Vec<char>) -> (r: Option<Vec<u8>>)
    ensures
        match r {
            Some(d) => is_digits(s@) && d@ == digits_of(s@) && all_digits(d@),
            None => !is_digits(s@),
        },
{
    let mut d: Vec<u8> = Vec::new();
    let mut i: usize = 0;
    while i < s.len()
        invariant
            i <= s@.len(),
            d@.len() == i,
            forall|j: int| 0 <= j < i ==> '0' <= #[trigger] s@[j] <= '9',
            forall|j: int|
                0 <= j < i ==> #[trigger] d@[j] == (s@[j] as u32 - '0' as u32) as u8 && d@[j] <= 9,
        decreases s@.len() - i,
    {
        let c: char = s[i];
        if !('0' <= c && c <= '9') {
            return None;
        }
        let digit: u32 = c as u32 - '0' as u32;
        d.push(digit as u8);
        i = i + 1;
    }
    assert(d@ =~= digits_of(s@));
    Some(d)
}

fn without_leading_zeros(d: &Vec<u8>) -> (r: Vec<u8>)
    ensures
        r@ == drop_leading_zeros(d@),
{
    let mut i: usize = 0;
    assert(d@.skip(0) =~= d@);
    while i < d.len() && d[i] == 0
        invariant
            i <= d@.len(),
            drop_leading_zeros(d@) == drop_leading_zeros(d@.skip(i as int)),
        decreases d@.len() - i,
    {
        assert(d@.skip(i as int).drop_first() =~= d@.skip(i + 1));
        i = i + 1;
    }
    let mut r: Vec<u8> = Vec::new();
    let mut j: usize = i;
    while j < d.len()
        invariant
            i <= j <= d@.len(),
            r@ == d@.subrange(i as int, j as int),
        decreases d@.len() - j,
    {
        r.push(d[j]);
        assert(d@.subrange(i as int, j + 1) =~= d@.subrange(i as int, j as int).push(d@[j as int]));
        j = j + 1;
    }
    assert(r@ =~= d@.skip(i as int));
    r
}

fn strip_trailing_zeros(d: &mut Vec<u8>)
    ensures
        final(d)@ == drop_trailing_zeros(old(d)@),
{
    while d.len() > 0 && d[d.len() - 1] == 0
        invariant
            drop_trailing_zeros(d@) == drop_trailing_zeros(old(d)@),
        decreases d@.len(),
    {
        let ghost before = d@;
        d.pop();
        assert(d@ =~= before.drop_last());
    }
}

/// The digits of the number that follows the one with digits `d`.
fn successor(d: &Vec<u8>) -> (r: Vec<u8>)
    requires
        all_digits(d@),
    ensures
        all_digits(r@),
        digits_value(r@) == digits_value(d@) + 1,
{
    let mut r = copy_digits(d);
    let mut i: usize = d.len();
    proof {
        assert(d@.take(i as int) =~= d@);
        assert(pow10(0) == 1);
        assert((digits_value(d@) + 1) * 1 == digits_value(d@) + 1) by (nonlinear_arith);
    }
    while i > 0 && r[i - 1] == 9
        invariant
            i <= d@.len(),
            r@.len() == d@.len(),
            all_digits(d@),
            all_digits(r@),
            r@.take(i as int) == d@.take(i as int),
            forall|j: int| i <= j < r@.len() ==> #[trigger] r@[j] == 0,
            digits_value(d@) + 1 == (digits_value(d@.take(i as int)) + 1) * pow10(
                (d@.len() - i) as nat,
            ),
        decreases i,
    {
        let ghost before = r@;
        proof {
            let head = d@.take(i as int);
            assert(head.last() == before.take(i as int).last());
            assert(head.drop_last() =~= d@.take(i - 1));
            let u = digits_value(d@.take(i - 1)) as int;
            let p = pow10((d@.len() - i) as nat) as int;
            assert(digits_value(head) == u * 10 + 9);
            assert((u * 10 + 9 + 1) * p == (u + 1) * (10 * p)) by (nonlinear_arith);
        }
        r.set(i - 1, 0);
        i = i - 1;
        proof {
            assert(r@.take(i as int) =~= before.take(i + 1).take(i as int));
            assert(d@.take(i as int) =~= d@.take(i + 1).take(i as int));
        }
    }
    let ghost head = d@.take(i as int);
    let ghost zeros = r@.skip(i as int);
    proof {
        lemma_zeros(zeros);
    }
    if i > 0 {
        let digit: u8 = r[i - 1];
        let ghost before = r@;
        assert(digit == before.take(i as int).last());
        r.set(i - 1, digit + 1);
        proof {
            let new_head = r@.take(i as int);
            assert(new_head.drop_last() =~= head.drop_last());
            assert(new_head.last() == head.last() + 1);
            assert(digits_value(new_head) == digits_value(head) + 1);
            assert(r@ =~= new_head + zeros);
            lemma_value_concat(new_head, zeros);
        }
    } else {
        proof {
            assert(r@ =~= zeros);
            assert(head =~= Seq::<u8>::empty());
        }
        r.insert(0, 1);
        proof {
            let one = seq![1u8];
            assert(r@ =~= one + zeros);
            lemma_value_concat(one, zeros);
            reveal_with_fuel(digits_value, 2);
            assert(digits_value(one) == 1);
        }
    }
    r
}

proof fn lemma_zeros(z: Seq<u8>)
    requires
        forall|j: int| 0 <= j < z.len() ==> #[trigger] z[j] == 0,
    ensures
        digits_value(z) == 0,
    decreases z.len(),
{
    if z.len() > 0 {
        lemma_zeros(z.drop_last());
    }
}

impl ChapterNumber {
    #[verifier::type_invariant]
    closed spec fn inv(self) -> bool {
        self@.canonical()
    }

    /// The number with the given digits before and after the point. There
    /// is none where `whole` is empty or one of them holds anything but
    /// digits.
    pub fn from_parts(whole: &str, fraction: &str) -> (r: Option<ChapterNumber>)
        ensures
            match r {
                Some(n) => {
                    &&& whole@.len() > 0
                    &&& is_digits(whole@)
                    &&& is_digits(fraction@)
                    &&& n@ == decimal(digits_of(whole@), digits_of(fraction@))
                    &&& n@.canonical()
                },
                None => whole@.len() == 0 || !is_digits(whole@) || !is_digits(fraction@),
            },
    {
        Self::from_chars(&to_chars(whole), &to_chars(fraction))
    }

    fn from_chars(whole: &Vec<char>, fraction: &Vec<char>) -> (r: Option<ChapterNumber>)
        ensures
            match r {
                Some(n) => {
                    &&& whole@.len() > 0
                    &&& is_digits(whole@)
                    &&& is_digits(fraction@)
                    &&& n@ == decimal(digits_of(whole@), digits_of(fraction@))
                    &&& n@.canonical()
                },
                None => whole@.len() == 0 || !is_digits(whole@) || !is_digits(fraction@),
            },
    {
        if whole.len() == 0 {
            return None;
        }
        let w = match read_digits(whole) {
            Some(w) => w,
            None => {
                return None;
            },
        };
        let mut f = match read_digits(fraction) {
            Some(f) => f,
            None => {
                return None;
            },
        };
        proof {
            law_decimal_value(w@, f@);
        }
        strip_trailing_zeros(&mut f);
        Some(ChapterNumber { whole: without_leading_zeros(&w), fraction: f })
    }

    /// The number `whole + hundredths / 100`. There is none where `whole`
    /// is empty or holds anything but digits.
    pub fn from_hundredths(whole: &str, hundredths: u8) -> (r: Option<ChapterNumber>)
        ensures
            match r {
                Some(n) => {
                    &&& whole@.len() > 0
                    &&& is_digits(whole@)
                    &&& n@.canonical()
                    &&& is_whole_plus_hundredths(
                        n@,
                        digits_value(digits_of(whole@)),
                        hundredths as nat,
                    )
                },
                None => whole@.len() == 0 || !is_digits(whole@),
            },
    {
        let chars = to_chars(whole);
        if chars.len() == 0 {
            return None;
        }
        let read = match read_digits(&chars) {
            Some(w) => w,
            None => {
                return None;
            },
        };
        let ghost base = digits_value(read@);
        let mut w: Vec<u8> = read;
        let mut rest: u8 = hundredths;
        while rest >= 100
            invariant
                all_digits(w@),
                base * 100 + hundredths == digits_value(w@) * 100 + rest,
            decreases rest,
        {
            w = successor(&w);
            rest = rest - 100;
        }
        let mut f: Vec<u8> = Vec::new();
        f.push(rest / 10);
        f.push(rest % 10);
        let ghost whole_digits = w@;
        let ghost fraction_digits = f@;
        proof {
            law_decimal_value(whole_digits, fraction_digits);
        }
        strip_trailing_zeros(&mut f);
        let n = ChapterNumber { whole: without_leading_zeros(&w), fraction: f };
        proof {
            lemma_hundredths(n@, whole_digits, fraction_digits, rest as nat);
        }
        Some(n)
    }

    /// Reads a number in the form `12` or `12.5`.
    pub fn parse(text: &str) -> (r: Option<ChapterNumber>)
        ensures
            match r {
                Some(n) => number_of_text(text@) == Some(n@) && n@.canonical(),
                None => number_of_text(text@) is None,
            },
    {
        let chars = to_chars(text);
        let total: usize = chars.len();
        match position(&chars, ".") {
            Some(i) => {
                proof {
                    reveal_strlit(".");
                }
                let whole = slice(&chars, 0, i);
                let fraction = slice(&chars, i + 1, total);
                assert(whole@ =~= text@.take(i as int));
                assert(fraction@ =~= text@.skip(i + 1));
                if fraction.len() == 0 {
                    return None;
                }
                Self::from_chars(&whole, &fraction)
            },
            None => {
                let fraction: Vec<char> = Vec::new();
                assert(digits_of(fraction@) =~= Seq::<u8>::empty());
                Self::from_chars(&chars, &fraction)
            },
        }
    }

    /// Writes the number in the form `12` or `12.5`.
    pub fn to_decimal(&self) -> (r: String)
        ensures
            r@ == text_of_number(self@),
            number_of_text(r@) == Some(self@),
    {
        proof {
            use_type_invariant(self);
        }
        let mut r: String = String::new();
        if self.whole.len() == 0 {
            r.push('0');
            assert(r@ =~= seq!['0']);
        }
        let ghost head = r@;
        write_digits(&mut r, &self.whole);
        assert(self.whole@.len() == 0 ==> r@ =~= head);
        assert(self.whole@.len() > 0 ==> r@ =~= chars_of(self.whole@));
        if self.fraction.len() > 0 {
            r.push('.');
            write_digits(&mut r, &self.fraction);
        }
        assert(r@ =~= text_of_number(self@));
        proof {
            law_text_round_trip(self@);
        }
        r
    }

    /// Whether `self` is the smaller number.
    pub fn less_than(&self, other: &ChapterNumber) -> (r: bool)
        ensures
            r == self@.less(other@),
            self@.canonical(),
            other@.canonical(),
    {
        proof {
            use_type_invariant(self);
            use_type_invariant(other);
            lemma_precedes_is_less(self@, other@);
            lemma_lex_total(self.whole@, other.whole@);
        }
        if self.whole.len() != other.whole.len() {
            return self.whole.len() < other.whole.len();
        }
        if lex_before(&self.whole, &other.whole) {
            return true;
        }
        if lex_before(&other.whole, &self.whole) {
            proof {
                lemma_precedes_is_less(other@, self@);
                law_order_total(self@, other@);
                lemma_lex_total(other.whole@, other.whole@);
            }
            return false;
        }
        lex_before(&self.fraction, &other.fraction)
    }

    /// Whether the two are one number.
    pub fn equals(&self, other: &ChapterNumber) -> (r: bool)
        ensures
            r == (self@ == other@),
            self@.canonical(),
            other@.canonical(),
    {
        let below = self.less_than(other);
        let above = other.less_than(self);
        proof {
            law_order_total(self@, other@);
        }
        !below && !above
    }
}

/// Two digits after the point are hundredths.
pub proof fn lemma_hundredths(n: Decimal, w: Seq<u8>, f: Seq<u8>, rest: nat)
    requires
        n == decimal(w, f),
        all_digits(w),
        f.len() == 2,
        rest < 100,
        f[0] == rest / 10,
        f[1] == rest % 10,
    ensures
        is_whole_plus_hundredths(n, digits_value(w), rest),
{
    law_decimal_value(w, f);
    lemma_value_concat(w, f);
    reveal_with_fuel(digits_value, 3);
    reveal_with_fuel(pow10, 3);
    assert(f.drop_last().drop_last() =~= Seq::<u8>::empty());
    assert(digits_value(f) == rest);
    assert(pow10(2) == 100);
}

/// Appends the characters of the digits.
fn write_digits(s: &mut String, d: &Vec<u8>)
    requires
        all_digits(d@),
    ensures
        final(s)@ == old(s)@ + chars_of(d@),
{
    let mut i: usize = 0;
    assert(s@ + chars_of(d@.take(0)) =~= s@);
    while i < d.len()
        invariant
            i <= d@.len(),
            all_digits(d@),
            s@ == old(s)@ + chars_of(d@.take(i as int)),
        decreases d@.len() - i,
    {
        let digit: u8 = d[i];
        s.push((digit + 48) as char);
        assert(chars_of(d@.take(i + 1)) =~= chars_of(d@.take(i as int)).push(
            ((digit as u32 + '0' as u32) as u32) as char,
        ));
        i = i + 1;
    }
    assert(d@.take(d@.len() as int) =~= d@);
}

/// Decides the lexicographic order of digit sequences.
fn lex_before(x: &Vec<u8>, y: &Vec<u8>) -> (r: bool)
    ensures
        r == lex_less(x@, y@),
{
    let mut i: usize = 0;
    assert(x@.skip(0) =~= x@);
    assert(y@.skip(0) =~= y@);
    while i < x.len() && i < y.len()
        invariant
            i <= x@.len(),
            i <= y@.len(),
            lex_less(x@, y@) == lex_less(x@.skip(i as int), y@.skip(i as int)),
        decreases x@.len() - i,
    {
        if x[i] != y[i] {
            return x[i] < y[i];
        }
        assert(x@.skip(i as int).drop_first() =~= x@.skip(i + 1));
        assert(y@.skip(i as int).drop_first() =~= y@.skip(i + 1));
        i = i + 1;
    }
    i < y.len()
}

// ---------- numbers as text ----------

/// The number that a text of the form `12` or `12.5` denotes.
pub open spec fn number_of_text(s: Seq<char>) -> Option<Decimal> {
    match find(s, "."@) {
        Some(i) => {
            let whole = s.take(i);
            let fraction = s.skip(i + 1);
            if whole.len() > 0 && is_digits(whole) && fraction.len() > 0 && is_digits(fraction) {
                Some(decimal(digits_of(whole), digits_of(fraction)))
            } else {
                None
            }
        },
        None => if s.len() > 0 && is_digits(s) {
            Some(decimal(digits_of(s), Seq::empty()))
        } else {
            None
        },
    }
}

/// The text of a number.
pub open spec fn text_of_number(n: Decimal) -> Seq<char> {
    let whole = if n.whole.len() == 0 {
        seq!['0']
    } else {
        chars_of(n.whole)
    };
    if n.fraction.len() == 0 {
        whole
    } else {
        whole.push('.') + chars_of(n.fraction)
    }
}

proof fn lemma_chars_of(d: Seq<u8>)
    requires
        all_digits(d),
    ensures
        is_digits(chars_of(d)),
        digits_of(chars_of(d)) == d,
{
    assert forall|i: int| 0 <= i < d.len() implies '0' <= #[trigger] chars_of(d)[i] <= '9' by {
        assert(d[i] <= 9);
    }
    assert forall|i: int| 0 <= i < d.len() implies digits_of(chars_of(d))[i] == d[i] by {
        assert(d[i] <= 9);
    }
    assert(digits_of(chars_of(d)) =~= d);
}

/// A single character is found at its first occurrence.
proof fn lemma_find_dot(s: Seq<char>, from: int, at: int)
    requires
        0 <= from <= at < s.len(),
        s[at] == '.',
        forall|j: int| from <= j < at ==> s[j] != '.',
    ensures
        find_from(s, "."@, from) == Some(at),
    decreases at - from,
{
    reveal_strlit(".");
    assert("."@ =~= seq!['.']);
    if from == at {
        assert(s.subrange(from, from + 1) =~= "."@);
    } else {
        assert(s.subrange(from, from + 1)[0] == s[from]);
        assert(s.subrange(from, from + 1) != "."@);
        lemma_find_dot(s, from + 1, at);
    }
}

proof fn lemma_no_dot(s: Seq<char>, from: int)
    requires
        0 <= from <= s.len(),
        forall|j: int| from <= j < s.len() ==> s[j] != '.',
    ensures
        find_from(s, "."@, from) is None,
    decreases s.len() - from,
{
    reveal_strlit(".");
    if from < s.len() {
        assert(s.subrange(from, from + 1)[0] == s[from]);
        assert(s.subrange(from, from + 1) != "."@);
        lemma_no_dot(s, from + 1);
    }
}

/// Law: the text of a number reads back as the number.
pub proof fn law_text_round_trip(n: Decimal)
    requires
        n.canonical(),
    ensures
        number_of_text(text_of_number(n)) == Some(n),
{
    let whole = if n.whole.len() == 0 {
        seq!['0']
    } else {
        chars_of(n.whole)
    };
    let text = text_of_number(n);
    lemma_chars_of(n.whole);
    lemma_chars_of(n.fraction);
    assert(is_digits(whole));
    assert(drop_leading_zeros(digits_of(whole)) =~= n.whole) by {
        if n.whole.len() == 0 {
            reveal_with_fuel(drop_leading_zeros, 2);
            assert(digits_of(whole) =~= seq![0u8]);
            assert(seq![0u8].drop_first() =~= Seq::<u8>::empty());
        }
    }
    if n.fraction.len() == 0 {
        lemma_no_dot(text, 0);
        assert(drop_trailing_zeros(Seq::<u8>::empty()) =~= n.fraction);
    } else {
        let at = whole.len() as int;
        assert(forall|j: int| 0 <= j < at ==> text[j] == whole[j]);
        lemma_find_dot(text, 0, at);
        assert(text.take(at) =~= whole);
        assert(text.skip(at + 1) =~= chars_of(n.fraction));
    }
}

/// Law: a digit is as far from `0` as its value, and digits weigh ten
/// times what the next one does.
pub proof fn law_digits(s: Seq<char>, d: Seq<u8>, x: u8)
    ensures
        digits_of(s).len() == s.len(),
        forall|i: int|
            0 <= i < s.len() && 48 <= s[i] as u32 <= 57 ==> #[trigger] digits_of(s)[i] == s[i] as u32
                - 48,
        is_digits(s) <==> forall|i: int| 0 <= i < s.len() ==> '0' <= #[trigger] s[i] <= '9',
        digits_value(Seq::empty()) == 0,
        digits_value(d.push(x)) == 10 * digits_value(d) + x,
        pow10(0) == 1,
        pow10(d.len() + 1) == 10 * pow10(d.len()),
{
    assert(d.push(x).drop_last() =~= d);
}

/// Law: numbers are ordered by value, however many zeros they are written
/// with.
pub proof fn law_less_by_value(w: Seq<u8>, f: Seq<u8>, v: Seq<u8>, g: Seq<u8>)
    requires
        all_digits(w),
        all_digits(f),
        all_digits(v),
        all_digits(g),
    ensures
        decimal(w, f).less(decimal(v, g)) <==> digits_value(w + f) * pow10(g.len()) < digits_value(
            v + g,
        ) * pow10(f.len()),
{
    let a = decimal(w, f);
    let b = decimal(v, g);
    law_decimal_value(w, f);
    law_decimal_value(v, g);
    lemma_pow10_add(a.scale(), b.scale());
    lemma_pow10_add(f.len(), g.len());
    let (x, y) = (a.scaled() as int, b.scaled() as int);
    let (p, q) = (pow10(a.scale()) as int, pow10(b.scale()) as int);
    let (i, j) = (digits_value(w + f) as int, digits_value(v + g) as int);
    let (m, n) = (pow10(f.len()) as int, pow10(g.len()) as int);
    assert((x * q < y * p) == (i * n < j * m)) by (nonlinear_arith)
        requires
            x * m == i * p,
            y * n == j * q,
            p > 0,
            q > 0,
            m > 0,
            n > 0,
    {
        assert((x * q) * (m * n) == (i * n) * (p * q)) by {
            assert((x * q) * (m * n) == (x * m) * (q * n));
            assert((i * p) * (q * n) == (i * n) * (p * q));
        }
        assert((y * p) * (m * n) == (j * m) * (p * q)) by {
            assert((y * p) * (m * n) == (y * n) * (p * m));
            assert((j * q) * (p * m) == (j * m) * (p * q));
        }
        assert(m * n > 0);
        assert(p * q > 0);
        if x * q < y * p {
            assert((x * q) * (m * n) < (y * p) * (m * n));
            assert(i * n < j * m);
        } else {
            assert((x * q) * (m * n) >= (y * p) * (m * n));
            assert(i * n >= j * m);
        }
    }
}

/// Law: a number is written with its own digits and no more: one zero
/// stands for no digits in front of the point, and the point is there only
/// where digits follow it.
pub proof fn law_text_is_short(n: Decimal)
    ensures
        text_of_number(n).len() == (if n.whole.len() == 0 {
            1
        } else {
            n.whole.len()
        }) + (if n.fraction.len() == 0 {
            0
        } else {
            1 + n.fraction.len()
        }),
{
}

/// Law: digits, or digits around a point, are read as the number that they
/// denote.
pub proof fn law_number_of_text(w: Seq<char>, f: Seq<char>)
    requires
        w.len() > 0,
        is_digits(w),
        f.len() > 0,
        is_digits(f),
    ensures
        number_of_text(w) == Some(decimal(digits_of(w), Seq::empty())),
        number_of_text(w + seq!['.'] + f) == Some(decimal(digits_of(w), digits_of(f))),
{
    lemma_no_dot(w, 0);
    let t = w + seq!['.'] + f;
    let at = w.len() as int;
    assert(forall|j: int| 0 <= j < at ==> t[j] == w[j]);
    lemma_find_dot(t, 0, at);
    assert(t.take(at) =~= w);
    assert(t.skip(at + 1) =~= f);
}

} // verus!
