//! White space, trimming, the first word of a name, and decimal numbers as `str::parse`
//! reads them.

use vstd::prelude::*;
use crate::text::{chars_of, decimal, digit_char, is_ascii_digit, lemma_decimal_digits, padded_decimal, zeros};

verus! {

/// Unicode white space (`char::is_whitespace`).
pub open spec fn is_white(c: char) -> bool {
    ||| '\t' <= c && c <= '\r'
    ||| c == ' '
    ||| c == '\u{85}'
    ||| c == '\u{a0}'
    ||| c == '\u{1680}'
    ||| '\u{2000}' <= c && c <= '\u{200a}'
    ||| c == '\u{2028}'
    ||| c == '\u{2029}'
    ||| c == '\u{202f}'
    ||| c == '\u{205f}'
    ||| c == '\u{3000}'
}

/// Whether `c` is white space.
pub fn is_whitespace(c: char) -> (b: bool)
    ensures
        b == is_white(c),
{
    ('\t' <= c && c <= '\r') || c == ' ' || c == '\u{85}' || c == '\u{a0}' || c == '\u{1680}' || (
    '\u{2000}' <= c && c <= '\u{200a}') || c == '\u{2028}' || c == '\u{2029}' || c == '\u{202f}'
        || c == '\u{205f}' || c == '\u{3000}'
}

/// The characters of `s` up to its first white space.
pub open spec fn word_prefix(s: Seq<char>) -> Seq<char>
    decreases s.len(),
{
    if s.len() == 0 || is_white(s[0]) {
        Seq::empty()
    } else {
        seq![s[0]] + word_prefix(s.drop_first())
    }
}

/// The first word of `s`, words being separated by white space; empty when `s` has none
/// (`s.split_whitespace().next().unwrap_or("")`).
pub open spec fn first_word(s: Seq<char>) -> Seq<char>
    decreases s.len(),
{
    if s.len() == 0 {
        Seq::empty()
    } else if is_white(s[0]) {
        first_word(s.drop_first())
    } else {
        word_prefix(s)
    }
}

proof fn lemma_first_word_skip(s: Seq<char>, i: int)
    requires
        0 <= i <= s.len(),
        forall|j: int| 0 <= j < i ==> is_white(#[trigger] s[j]),
    ensures
        first_word(s) == first_word(s.skip(i)),
    decreases i,
{
    if i > 0 {
        assert(s.drop_first().skip(i - 1) =~= s.skip(i));
        lemma_first_word_skip(s.drop_first(), i - 1);
    } else {
        assert(s.skip(0) =~= s);
    }
}

pub proof fn lemma_word_prefix_take(s: Seq<char>, j: int)
    requires
        0 <= j <= s.len(),
        forall|k: int| 0 <= k < j ==> !is_white(#[trigger] s[k]),
        j == s.len() || is_white(s[j]),
    ensures
        word_prefix(s) == s.take(j),
    decreases j,
{
    if j > 0 {
        lemma_word_prefix_take(s.drop_first(), j - 1);
        assert(s.take(j) =~= seq![s[0]] + s.drop_first().take(j - 1));
    } else {
        assert(s.take(0) =~= Seq::<char>::empty());
    }
}

/// The first word of `s`.
pub fn first_word_of(s: &str) -> (w: Vec<char>)
    ensures
        w@ == first_word(s@),
{
    let v = chars_of(s);
    let n = v.len();
    let mut i: usize = 0;
    while i < n && is_whitespace(v[i])
        invariant
            n == v@.len(),
            v@ == s@,
            i <= n,
            forall|j: int| 0 <= j < i ==> is_white(#[trigger] v@[j]),
        decreases n - i,
    {
        i = i + 1;
    }
    proof {
        lemma_first_word_skip(s@, i as int);
    }
    let mut w: Vec<char> = Vec::new();
    let mut j: usize = i;
    while j < n && !is_whitespace(v[j])
        invariant
            n == v@.len(),
            v@ == s@,
            i <= j <= n,
            forall|k: int| i <= k < j ==> !is_white(#[trigger] v@[k]),
            w@ == v@.subrange(i as int, j as int),
        decreases n - j,
    {
        w.push(v[j]);
        assert(v@.subrange(i as int, j + 1) == v@.subrange(i as int, j as int).push(v@[j as int]));
        j = j + 1;
    }
    proof {
        let t = s@.skip(i as int);
        if i < n {
            assert(!is_white(t[0]));
        }
        assert forall|k: int| 0 <= k < j - i implies !is_white(#[trigger] t[k]) by {
            assert(t[k] == v@[i + k]);
        }
        lemma_word_prefix_take(t, j - i);
        assert(t.take(j - i) =~= v@.subrange(i as int, j as int));
    }
    w
}

/// `s` without white space at its start.
pub open spec fn trim_start(s: Seq<char>) -> Seq<char>
    decreases s.len(),
{
    if s.len() > 0 && is_white(s[0]) {
        trim_start(s.drop_first())
    } else {
        s
    }
}

/// `s` without white space at its end.
pub open spec fn trim_end(s: Seq<char>) -> Seq<char>
    decreases s.len(),
{
    if s.len() > 0 && is_white(s.last()) {
        trim_end(s.drop_last())
    } else {
        s
    }
}

/// `s` without white space at either end (`str::trim`).
pub open spec fn trimmed(s: Seq<char>) -> Seq<char> {
    trim_end(trim_start(s))
}

proof fn lemma_trim_start_skip(s: Seq<char>, i: int)
    requires
        0 <= i <= s.len(),
        forall|k: int| 0 <= k < i ==> is_white(#[trigger] s[k]),
        i == s.len() || !is_white(s[i]),
    ensures
        trim_start(s) == s.skip(i),
    decreases i,
{
    if i > 0 {
        assert(s.drop_first().skip(i - 1) =~= s.skip(i));
        lemma_trim_start_skip(s.drop_first(), i - 1);
    } else {
        assert(s.skip(0) =~= s);
    }
}

proof fn lemma_trim_end_take(s: Seq<char>, j: int)
    requires
        0 <= j <= s.len(),
        forall|k: int| j <= k < s.len() ==> is_white(#[trigger] s[k]),
        j == 0 || !is_white(s[j - 1]),
    ensures
        trim_end(s) == s.take(j),
    decreases s.len() - j,
{
    if j < s.len() {
        assert(s.drop_last().take(j) =~= s.take(j));
        lemma_trim_end_take(s.drop_last(), j);
    } else {
        assert(s.take(j) =~= s);
    }
}

/// The characters of `s` without white space at either end.
pub fn trim_chars(s: &str) -> (t: Vec<char>)
    ensures
        t@ == trimmed(s@),
{
    let v = chars_of(s);
    let n = v.len();
    let mut a: usize = 0;
    while a < n && is_whitespace(v[a])
        invariant
            n == v@.len(),
            v@ == s@,
            a <= n,
            forall|k: int| 0 <= k < a ==> is_white(#[trigger] v@[k]),
        decreases n - a,
    {
        a = a + 1;
    }
    proof {
        lemma_trim_start_skip(s@, a as int);
    }
    let ghost u = s@.skip(a as int);
    let mut b: usize = n;
    while b > a && is_whitespace(v[b - 1])
        invariant
            n == v@.len(),
            v@ == s@,
            a <= b <= n,
            u == s@.skip(a as int),
            forall|k: int| b <= k < n ==> is_white(#[trigger] v@[k]),
        decreases b,
    {
        b = b - 1;
    }
    proof {
        assert forall|k: int| b - a <= k < u.len() implies is_white(#[trigger] u[k]) by {
            assert(u[k] == v@[a + k]);
        }
        if b > a {
            assert(u[b - a - 1] == v@[b - 1]);
        }
        lemma_trim_end_take(u, b - a);
        assert(u.take(b - a) =~= s@.subrange(a as int, b as int));
    }
    let mut t: Vec<char> = Vec::new();
    for k in a..b
        invariant
            n == v@.len(),
            v@ == s@,
            b <= n,
            t@ == s@.subrange(a as int, k as int),
    {
        t.push(v[k]);
        assert(s@.subrange(a as int, k + 1) =~= s@.subrange(a as int, k as int).push(v@[k as int]));
    }
    t
}

/// The number a decimal digit stands for.
pub open spec fn digit_value(c: char) -> nat {
    ((c as int) - 48) as nat
}

/// Every character of `d` is a decimal digit.
pub open spec fn all_digits(d: Seq<char>) -> bool {
    forall|i: int| 0 <= i < d.len() ==> is_ascii_digit(#[trigger] d[i])
}

/// The number the decimal digits `d` stand for.
pub open spec fn digits_value(d: Seq<char>) -> nat
    decreases d.len(),
{
    if d.len() == 0 {
        0
    } else {
        digits_value(d.drop_last()) * 10 + digit_value(d.last())
    }
}

/// The digits of an unsigned number as written: without its leading `+`, if any.
pub open spec fn unsigned_digits(text: Seq<char>) -> Seq<char> {
    if text.len() > 0 && text[0] == '+' {
        text.drop_first()
    } else {
        text
    }
}

/// `text` read as a `usize` the way `str::parse::<usize>` reads it: an optional `+`, then one or
/// more decimal digits whose value fits in a `usize`; `None` for anything else.
pub open spec fn parsed_usize(text: Seq<char>) -> Option<usize> {
    let d = unsigned_digits(text);
    if d.len() > 0 && all_digits(d) && digits_value(d) <= usize::MAX {
        Some(digits_value(d) as usize)
    } else {
        None
    }
}

/// The digits of a prefix stand for no more than all of them.
pub proof fn lemma_digits_value_grows(d: Seq<char>, k: int)
    requires
        0 <= k <= d.len(),
    ensures
        digits_value(d.take(k)) <= digits_value(d),
    decreases d.len(),
{
    if k < d.len() {
        assert(d.drop_last().take(k) =~= d.take(k));
        lemma_digits_value_grows(d.drop_last(), k);
    } else {
        assert(d.take(k) =~= d);
    }
}

/// `text` read as a `usize` (`str::parse::<usize>`).
pub fn parse_usize(text: &Vec<char>) -> (r: Option<usize>)
    ensures
        r == parsed_usize(text@),
{
    let n = text.len();
    let mut start: usize = 0;
    if n > 0 && text[0] == '+' {
        start = 1;
    }
    let ghost d = unsigned_digits(text@);
    assert(d =~= text@.skip(start as int));
    if start == n {
        return None;
    }
    let mut value: usize = 0;
    let mut i: usize = start;
    while i < n
        invariant
            n == text@.len(),
            start <= i <= n,
            start < n,
            d == text@.skip(start as int),
            d == unsigned_digits(text@),
            value as nat == digits_value(d.take(i - start)),
            all_digits(d.take(i - start)),
        decreases n - i,
    {
        let c = text[i];
        assert(d[i - start] == c);
        if !('0' <= c && c <= '9') {
            assert(!all_digits(d));
            return None;
        }
        let dv = (c as u32 - 48) as usize;
        assert(d.take(i - start + 1).drop_last() =~= d.take(i - start));
        assert(d.take(i - start + 1).last() == c);
        assert(digits_value(d.take(i - start + 1)) == value * 10 + dv);
        match value.checked_mul(10) {
            Some(m) => match m.checked_add(dv) {
                Some(v) => {
                    value = v;
                },
                None => {
                    proof {
                        lemma_digits_value_grows(d, i - start + 1);
                    }
                    return None;
                },
            },
            None => {
                proof {
                    lemma_digits_value_grows(d, i - start + 1);
                }
                return None;
            },
        }
        assert(all_digits(d.take(i - start + 1)));
        i = i + 1;
    }
    assert(d.take(n - start) =~= d);
    Some(value)
}

/// The number a file name begins with: its first word read as a `usize`, or 0 where that
/// word is no such number.
pub open spec fn leading_number_of(name: Seq<char>) -> usize {
    match parsed_usize(first_word(name)) {
        Some(v) => v,
        None => 0,
    }
}

/// The number `name` begins with (`name.split_whitespace().next().unwrap_or("")
/// .parse().unwrap_or(0)`).
pub fn leading_number(name: &str) -> (n: usize)
    ensures
        n == leading_number_of(name@),
{
    let w = first_word_of(name);
    match parse_usize(&w) {
        Some(v) => v,
        None => 0,
    }
}

/// The digits of `n` in decimal stand for `n`.
pub proof fn lemma_digits_value_decimal(n: nat)
    ensures
        digits_value(decimal(n)) == n,
    decreases n,
{
    assert(digit_value(digit_char(n % 10)) == n % 10);
    if n >= 10 {
        lemma_digits_value_decimal(n / 10);
        assert(decimal(n).drop_last() =~= decimal(n / 10));
        assert(decimal(n).last() == digit_char(n % 10));
        assert(digits_value(decimal(n)) == digits_value(decimal(n / 10)) * 10 + digit_value(
            decimal(n).last(),
        ));
        assert(n == (n / 10) * 10 + n % 10);
    } else {
        assert(decimal(n).drop_last() =~= Seq::<char>::empty());
        assert(decimal(n).last() == digit_char(n % 10));
        assert(digits_value(Seq::<char>::empty()) == 0);
        assert(digits_value(decimal(n)) == digits_value(decimal(n).drop_last()) * 10 + digit_value(
            decimal(n).last(),
        ));
    }
}

proof fn lemma_digits_value_zeros(k: nat)
    ensures
        digits_value(zeros(k)) == 0,
    decreases k,
{
    if k > 0 {
        assert(zeros(k).drop_last() =~= zeros((k - 1) as nat));
        lemma_digits_value_zeros((k - 1) as nat);
    }
}

proof fn lemma_digits_value_after_zeros(k: nat, x: Seq<char>)
    ensures
        digits_value(zeros(k) + x) == digits_value(x),
    decreases x.len(),
{
    if x.len() == 0 {
        assert(zeros(k) + x =~= zeros(k));
        lemma_digits_value_zeros(k);
    } else {
        assert((zeros(k) + x).drop_last() =~= zeros(k) + x.drop_last());
        lemma_digits_value_after_zeros(k, x.drop_last());
    }
}

/// A number padded with zeros is made of digits and still stands for the number.
pub proof fn lemma_padded_decimal_value(n: nat, width: nat)
    ensures
        padded_decimal(n, width).len() >= 1,
        all_digits(padded_decimal(n, width)),
        digits_value(padded_decimal(n, width)) == n,
{
    lemma_decimal_digits(n);
    lemma_digits_value_decimal(n);
    let d = decimal(n);
    if d.len() < width {
        let z = zeros((width - d.len()) as nat);
        lemma_digits_value_after_zeros((width - d.len()) as nat, d);
        assert forall|i: int| 0 <= i < (z + d).len() implies is_ascii_digit(#[trigger] (z + d)[i]) by {
            if i >= z.len() {
                assert((z + d)[i] == d[i - z.len()]);
            }
        }
    }
}

/// Reading back the decimal spelling of a number that fits in a `usize` gives the number.
pub proof fn lemma_parse_decimal_round_trip(n: nat)
    requires
        n <= usize::MAX,
    ensures
        parsed_usize(decimal(n)) == Some(n as usize),
{
    lemma_decimal_digits(n);
    lemma_digits_value_decimal(n);
    assert(decimal(n)[0] != '+');
    assert(unsigned_digits(decimal(n)) == decimal(n));
}

} // verus!
