//! The textual form `<int>+<int>i` of a complex value with integer components.
//!
//! An `<int>` is an optional `-` followed by decimal digits. A value whose
//! components are not both integers is written with the notation of the
//! `num_irrational` crate in their place, and such a text is not parsed back.

use vstd::prelude::*;
use vstd::string::*;
use crate::error::Error;
use crate::surd::{QuadraticSurd, SurdParts};
use crate::value::{ComplexParts, ComplexValue};

verus! {

/// `c` is a decimal digit.
pub open spec fn is_digit(c: char) -> bool {
    48 <= c as int <= 57
}

/// The digit that stands for `d`.
pub open spec fn digit_char(d: int) -> char {
    (d + 48) as char
}

/// Every character of `s` is a decimal digit.
pub open spec fn all_digits(s: Seq<char>) -> bool {
    forall|i: int| 0 <= i < s.len() ==> is_digit(#[trigger] s[i])
}

/// The number that a sequence of digits denotes.
pub open spec fn digits_value(s: Seq<char>) -> int
    decreases s.len(),
{
    if s.len() == 0 {
        0
    } else {
        digits_value(s.drop_last()) * 10 + (s.last() as int - 48)
    }
}

/// The decimal digits of a number that is not negative, without leading zeros.
pub open spec fn digits(n: int) -> Seq<char>
    decreases n,
{
    if n < 10 {
        seq![digit_char(n)]
    } else {
        digits(n / 10).push(digit_char(n % 10))
    }
}

/// The text of an integer: its digits, after a `-` if it is negative.
pub open spec fn integer_text(n: int) -> Seq<char> {
    if n < 0 {
        seq!['-'] + digits(-n)
    } else {
        digits(n)
    }
}

/// The integer that a text denotes, if it is an optional `-` followed by at
/// least one digit.
pub open spec fn number_value(s: Seq<char>) -> Option<int> {
    if s.len() >= 2 && s[0] == '-' && all_digits(s.skip(1)) {
        Some(-digits_value(s.skip(1)))
    } else if s.len() >= 1 && all_digits(s) {
        Some(digits_value(s))
    } else {
        None
    }
}

/// `p` is the place of the first `+` of `s`.
pub open spec fn first_plus(s: Seq<char>, p: int) -> bool {
    &&& 0 <= p < s.len()
    &&& s[p] == '+'
    &&& forall|j: int| 0 <= j < p ==> s[j] != '+'
}

/// The two integers that a text of the form `<int>+<int>i` denotes, if it has
/// that form and both integers are 64-bit integers. The first `+` separates the
/// two, and the text ends in `i`.
pub open spec fn parse_spec(s: Seq<char>) -> Option<(i64, i64)> {
    if s.len() >= 1 && s.last() == 'i' && exists|p: int| first_plus(s, p) {
        let p = choose|p: int| first_plus(s, p);
        match (number_value(s.subrange(0, p)), number_value(s.subrange(p + 1, s.len() - 1))) {
            (Some(re), Some(im)) => if i64::MIN <= re <= i64::MAX && i64::MIN <= im <= i64::MAX {
                Some((re as i64, im as i64))
            } else {
                None
            },
            _ => None,
        }
    } else {
        None
    }
}

/// The text `<re>+<im>i`.
pub open spec fn complex_text(re: int, im: int) -> Seq<char> {
    integer_text(re) + seq!['+'] + integer_text(im) + seq!['i']
}

/// The notation of a surd that is not an integer, as `num_irrational` writes it.
pub uninterp spec fn surd_display(a: SurdParts) -> Seq<char>;

/// The text of one component: an integer in decimal digits, any other surd in
/// the notation of `num_irrational`.
pub open spec fn component_text(a: SurdParts) -> Seq<char> {
    if a.is_integer() {
        integer_text(a.numer)
    } else {
        surd_display(a)
    }
}

/// The text of a value, `<real>+<imaginary>i`.
pub open spec fn value_text(x: ComplexParts) -> Seq<char> {
    component_text(x.re) + seq!['+'] + component_text(x.im) + seq!['i']
}

/// A longer sequence of digits denotes no smaller number than its beginning.
proof fn lemma_digits_value_grows(s: Seq<char>, k: int)
    requires
        all_digits(s),
        0 <= k <= s.len(),
    ensures
        0 <= digits_value(s.take(k)) <= digits_value(s),
    decreases s.len() - k,
{
    if k == s.len() {
        assert(s.take(k) =~= s);
        lemma_digits_value_nonnegative(s);
    } else {
        lemma_digits_value_grows(s, k + 1);
        let t = s.take(k + 1);
        assert(t.drop_last() =~= s.take(k));
        lemma_digits_value_nonnegative(s.take(k));
    }
}

/// A sequence of digits denotes a number that is not negative.
proof fn lemma_digits_value_nonnegative(s: Seq<char>)
    requires
        all_digits(s),
    ensures
        0 <= digits_value(s),
    decreases s.len(),
{
    if s.len() > 0 {
        assert(all_digits(s.drop_last()));
        lemma_digits_value_nonnegative(s.drop_last());
    }
}

/// The digits of a number are digits, and they denote the number.
pub proof fn lemma_digits_round_trip(n: int)
    requires
        0 <= n,
    ensures
        digits(n).len() >= 1,
        all_digits(digits(n)),
        digits_value(digits(n)) == n,
    decreases n,
{
    if n < 10 {
        let s = digits(n);
        assert(digits_value(s.drop_last()) == 0);
    } else {
        lemma_digits_round_trip(n / 10);
        let s = digits(n);
        let t = digits(n / 10);
        assert(s.drop_last() =~= t);
    }
}

/// The text of an integer denotes the integer, and holds no `+`.
pub proof fn lemma_integer_text_round_trip(n: int)
    ensures
        number_value(integer_text(n)) == Some(n),
        forall|j: int| 0 <= j < integer_text(n).len() ==> integer_text(n)[j] != '+',
        integer_text(n).len() >= 1,
{
    let s = integer_text(n);
    if n < 0 {
        lemma_digits_round_trip(-n);
        assert(s.skip(1) =~= digits(-n));
    } else {
        lemma_digits_round_trip(n);
    }
}

/// Round trip: the text of two 64-bit integers is parsed back to those integers.
pub proof fn law_text_round_trip(re: i64, im: i64)
    ensures
        parse_spec(complex_text(re as int, im as int)) == Some((re, im)),
        value_text(ComplexParts::integers(re as int, im as int)) == complex_text(
            re as int,
            im as int,
        ),
{
    let a = integer_text(re as int);
    let b = integer_text(im as int);
    let s = complex_text(re as int, im as int);
    lemma_integer_text_round_trip(re as int);
    lemma_integer_text_round_trip(im as int);
    let p = a.len() as int;
    assert(first_plus(s, p));
    assert(s.subrange(0, p) =~= a);
    assert(s.subrange(p + 1, s.len() - 1) =~= b);
}

/// A text that has the form `<int>+<int>i` is made of ASCII characters.
proof fn lemma_parsed_text_is_ascii(s: Seq<char>)
    requires
        parse_spec(s) is Some,
    ensures
        vstd::utf8::is_ascii_chars(s),
{
    let p = choose|p: int| first_plus(s, p);
    let a = s.subrange(0, p);
    let b = s.subrange(p + 1, s.len() - 1);
    assert forall|i: int| 0 <= i < s.len() implies '\0' <= #[trigger] s[i] <= '\u{7f}' by {
        if i < p {
            lemma_number_is_ascii(a, i);
        } else if p < i < s.len() - 1 {
            lemma_number_is_ascii(b, i - p - 1);
        }
        lemma_small_char_is_ascii(s[i]);
    }
}

/// A character with a code of at most 127 is an ASCII character.
proof fn lemma_small_char_is_ascii(c: char)
    requires
        c as int <= 127,
    ensures
        '\0' <= c <= '\u{7f}',
{
}

/// A text that denotes an integer is made of ASCII characters.
proof fn lemma_number_is_ascii(s: Seq<char>, i: int)
    requires
        number_value(s) is Some,
        0 <= i < s.len(),
    ensures
        s[i] as int <= 127,
{
    if s.len() >= 2 && s[0] == '-' && all_digits(s.skip(1)) {
        if i > 0 {
            assert(s.skip(1)[i - 1] == s[i]);
        }
    }
}

/// The numerators of the two components, as a pair of 64-bit integers.
pub open spec fn integer_pair(x: ComplexParts) -> (i64, i64) {
    (x.re.numer as i64, x.im.numer as i64)
}

/// What a parsed number is worth: a 64-bit integer or nothing.
pub open spec fn bounded(n: Option<int>) -> Option<i64> {
    match n {
        Some(v) => if i64::MIN <= v <= i64::MAX {
            Some(v as i64)
        } else {
            None
        },
        None => None,
    }
}

/// Reads the integer that the characters from `lo` up to `hi` denote.
fn parse_number(text: &str, lo: usize, hi: usize) -> (r: Option<i64>)
    requires
        is_ascii(text),
        lo <= hi <= text@.len(),
    ensures
        r == bounded(number_value(text@.subrange(lo as int, hi as int))),
{
    let ghost s = text@.subrange(lo as int, hi as int);
    if lo == hi {
        return None;
    }
    let negative = text.get_ascii(lo) == 45;
    let start = if negative {
        lo + 1
    } else {
        lo
    };
    if start == hi {
        return None;
    }
    let ghost d = text@.subrange(start as int, hi as int);
    assert(d =~= if negative {
        s.skip(1)
    } else {
        s
    });
    let mut acc: i128 = 0;
    let mut i = start;
    while i < hi
        invariant
            is_ascii(text),
            lo < hi,
            start <= i <= hi <= text@.len(),
            s == text@.subrange(lo as int, hi as int),
            negative == (s[0] == '-'),
            d == (if negative {
                s.skip(1)
            } else {
                s
            }),
            start < hi,
            d == text@.subrange(start as int, hi as int),
            all_digits(d.take(i - start)),
            acc == digits_value(d.take(i - start)),
            0 <= acc <= 0x8000_0000_0000_0000,
        decreases hi - i,
    {
        let c = text.get_ascii(i);
        let ghost k = i - start;
        assert(d[k] == text@[i as int]);
        if c < 48 || c > 57 {
            return None;
        }
        let ghost next = d.take(k + 1);
        assert(next.drop_last() =~= d.take(k));
        assert(all_digits(next));
        acc = acc * 10 + (c - 48) as i128;
        if acc > 0x8000_0000_0000_0000 {
            proof {
                if all_digits(d) {
                    lemma_digits_value_grows(d, k + 1);
                }
            }
            return None;
        }
        i = i + 1;
    }
    assert(d.take(i - start) =~= d);
    if negative {
        Some((-acc) as i64)
    } else if acc <= 0x7fff_ffff_ffff_ffff {
        Some(acc as i64)
    } else {
        None
    }
}

/// Reads a text of the form `<int>+<int>i`. The result is the pair of integers,
/// or nothing where the text is of another form or an integer is too large.
pub fn parse_integers(text: &str) -> (r: Option<(i64, i64)>)
    ensures
        r == parse_spec(text@),
{
    if !text.is_ascii() {
        proof {
            if parse_spec(text@) is Some {
                lemma_parsed_text_is_ascii(text@);
            }
        }
        return None;
    }
    let n = text.unicode_len();
    if n == 0 || text.get_ascii(n - 1) != 105 {
        return None;
    }
    let mut p: usize = 0;
    while p < n && text.get_ascii(p) != 43
        invariant
            is_ascii(text),
            n == text@.len(),
            p <= n,
            forall|j: int| 0 <= j < p ==> text@[j] != '+',
        decreases n - p,
    {
        p = p + 1;
    }
    if p == n {
        return None;
    }
    assert(first_plus(text@, p as int));
    let re = parse_number(text, 0, p);
    let im = parse_number(text, p + 1, n - 1);
    match (re, im) {
        (Some(a), Some(b)) => Some((a, b)),
        _ => None,
    }
}

/// Appends one character to a string with `String::push`.
#[verifier::external_body]
fn push_char(out: &mut String, c: char)
    ensures
        final(out)@ == old(out)@.push(c),
{
    out.push(c)
}

/// Writes the surd in the notation of `num_irrational`: the surd is rebuilt over
/// big integers with `num_irrational::QuadraticSurd::new` and written with the
/// crate's `Display`. The contract only gives the text a name. The surd must be
/// canonical, because `new` panics on a denominator of zero and on a negative
/// radicand.
#[verifier::external_body]
fn outside_display(a: &QuadraticSurd) -> (r: String)
    requires
        a.wf(),
    ensures
        r@ == surd_display(a@),
{
    let q = num_irrational::QuadraticSurd::new(
        num::BigInt::from(a.numer()), num::BigInt::from(a.coeff()),
        num::BigInt::from(a.denom()), num::BigInt::from(a.radicand()));
    format!("{}", q)
}

/// Appends the decimal digits of `n`.
fn push_digits(out: &mut String, n: u64)
    ensures
        final(out)@ == old(out)@ + digits(n as int),
    decreases n,
{
    if n >= 10 {
        push_digits(out, n / 10);
    }
    let d: u8 = (n % 10) as u8;
    push_char(out, (d + 48) as char);
}

/// Appends the text of the integer `n`.
fn push_integer(out: &mut String, n: i64)
    ensures
        final(out)@ == old(out)@ + integer_text(n as int),
{
    if n < 0 {
        push_char(out, '-');
        push_digits(out, (-(n as i128)) as u64);
    } else {
        push_digits(out, n as u64);
    }
}

/// Appends the text of one component.
fn push_component(out: &mut String, a: &QuadraticSurd)
    requires
        a.wf(),
    ensures
        final(out)@ == old(out)@ + component_text(a@),
{
    if a.is_integer() {
        push_integer(out, a.numer());
    } else {
        let shown = outside_display(a);
        out.append(shown.as_str());
    }
}

/// The text `<re>+<im>i` of two integers.
pub fn format_integers(re: i64, im: i64) -> (r: String)
    ensures
        r@ == complex_text(re as int, im as int),
{
    let mut out = String::new();
    push_integer(&mut out, re);
    push_char(&mut out, '+');
    push_integer(&mut out, im);
    push_char(&mut out, 'i');
    out
}

impl ComplexValue {
    /// The value that a text of the form `<int>+<int>i` denotes, or `ParseError`
    /// where the text is of another form or an integer is too large.
    pub fn parse(text: &str) -> (r: Result<ComplexValue, Error>)
        ensures
            match r {
                Ok(v) => v.wf() && parse_spec(text@) == Some(integer_pair(v@)) && v@
                    == ComplexParts::integers(v@.re.numer, v@.im.numer),
                Err(e) => e == Error::ParseError && parse_spec(text@) is None,
            },
    {
        match parse_integers(text) {
            Some(pair) => Ok(ComplexValue::from_pair(pair)),
            None => Err(Error::ParseError),
        }
    }

    /// The text `<real>+<imaginary>i` of the value. Integer components are
    /// written in decimal digits, so that the text of a value with integer
    /// components is parsed back to the value.
    pub fn to_text(&self) -> (r: String)
        requires
            self.wf(),
        ensures
            r@ == value_text(self@),
    {
        let re = self.real_part();
        let im = self.imaginary_part();
        let mut out = String::new();
        push_component(&mut out, &re);
        push_char(&mut out, '+');
        push_component(&mut out, &im);
        push_char(&mut out, 'i');
        assert(out@ =~= component_text(self@.re) + seq!['+'] + component_text(self@.im)
            + seq!['i']);
        out
    }
}

} // verus!

