//! The shared count of started re-encodings, kept as text in `count.txt`, and the progress
//! line printed when a re-encoding starts.

use vstd::prelude::*;
use crate::numbers::{
    all_digits, digits_value, is_white, lemma_digits_value_decimal, lemma_digits_value_grows,
    trim_chars, trim_end, trim_start, trimmed,
};
use crate::text::{append_str, decimal, lemma_decimal_digits, push_char, push_padded_decimal};

verus! {

/// The digits of a signed number as written: without its leading `+` or `-`, if any.
pub open spec fn signed_digits(text: Seq<char>) -> Seq<char> {
    if text.len() > 0 && (text[0] == '+' || text[0] == '-') {
        text.drop_first()
    } else {
        text
    }
}

/// `text` read as an `i32` the way `str::parse::<i32>` reads it: an optional sign, then one
/// or more decimal digits whose value lies in the range of `i32`; `None` for anything else.
pub open spec fn parsed_i32(text: Seq<char>) -> Option<i32> {
    let d = signed_digits(text);
    let negative = text.len() > 0 && text[0] == '-';
    if d.len() == 0 || !all_digits(d) {
        None
    } else if negative {
        if digits_value(d) <= 0x8000_0000 {
            Some((0 - digits_value(d)) as i32)
        } else {
            None
        }
    } else if digits_value(d) <= 0x7fff_ffff {
        Some(digits_value(d) as i32)
    } else {
        None
    }
}

/// The count held in the text of `count.txt`: the text without surrounding white space, read
/// as an `i32` (`count.trim().parse::<i32>()`).
pub fn parse_count(text: &str) -> (n: Option<i32>)
    ensures
        n == parsed_i32(trimmed(text@)),
{
    let t = trim_chars(text);
    let len = t.len();
    let ghost s = t@;
    let negative = len > 0 && t[0] == '-';
    let start: usize = if len > 0 && (t[0] == '+' || t[0] == '-') { 1 } else { 0 };
    let ghost d = signed_digits(s);
    assert(d =~= s.skip(start as int));
    if start == len {
        return None;
    }
    let mut value: u64 = 0;
    let mut i: usize = start;
    while i < len
        invariant
            len == t@.len(),
            s == t@,
            s == trimmed(text@),
            d == signed_digits(s),
            start <= i <= len,
            start < len,
            d == s.skip(start as int),
            value as nat == digits_value(d.take(i - start)),
            value <= 0x8000_0000,
            all_digits(d.take(i - start)),
        decreases len - i,
    {
        let c = t[i];
        assert(d[i - start] == c);
        if !('0' <= c && c <= '9') {
            assert(!all_digits(d));
            return None;
        }
        let dv = (c as u32 - 48) as u64;
        assert(d.take(i - start + 1).drop_last() =~= d.take(i - start));
        assert(d.take(i - start + 1).last() == c);
        assert(digits_value(d.take(i - start + 1)) == value * 10 + dv);
        value = value * 10 + dv;
        assert(all_digits(d.take(i - start + 1)));
        if value > 0x8000_0000 {
            proof {
                lemma_digits_value_grows(d, i - start + 1);
            }
            return None;
        }
        i = i + 1;
    }
    assert(d.take(len - start) =~= d);
    if negative {
        Some((0 - (value as i64)) as i32)
    } else if value <= 0x7fff_ffff {
        Some(value as i32)
    } else {
        None
    }
}

/// Decimal spelling of a signed number, with `-` in front of a negative one.
pub open spec fn signed_decimal(n: int) -> Seq<char> {
    if n < 0 {
        seq!['-'] + decimal((0 - n) as nat)
    } else {
        decimal(n as nat)
    }
}

fn push_signed_decimal(s: &mut String, n: i32)
    ensures
        final(s)@ == old(s)@ + signed_decimal(n as int),
{
    if n < 0 {
        push_char(s, '-');
        let magnitude = (0 - (n as i64)) as u64;
        push_padded_decimal(s, magnitude, 0);
        assert(final(s)@ =~= old(s)@ + signed_decimal(n as int));
    } else {
        push_padded_decimal(s, n as u64, 0);
    }
}

/// The count after one more re-encoding has started (`count + 1`); the count must be below
/// `i32::MAX`, where the addition overflows.
pub fn next_count(count: i32) -> (n: i32)
    requires
        count < i32::MAX,
    ensures
        n == count + 1,
{
    count + 1
}

/// The text of `count.txt` holding `count` (`writeln!(file, "{}", count)`).
pub fn count_file_text(count: i32) -> (text: String)
    ensures
        text@ == signed_decimal(count as int) + seq!['\n'],
{
    let mut text = String::new();
    push_signed_decimal(&mut text, count);
    push_char(&mut text, '\n');
    text
}

/// The progress line printed when a re-encoding starts, in yellow:
/// `Re-encoding file {number} of {total}. Total files started: {started}`.
pub open spec fn progress_line(number: nat, total: nat, started: int) -> Seq<char> {
    seq!['\u{1b}', '[', '3', '3', 'm'] + "Re-encoding file "@ + decimal(number) + " of "@
        + decimal(total) + ". Total files started: "@ + signed_decimal(started) + seq![
        '\u{1b}',
        '[',
        '0',
        'm',
    ]
}

/// The progress line for the lesson at `position` of `total`, the `started`-th to start.
pub fn reencode_progress_line(position: usize, total: usize, started: i32) -> (line: String)
    requires
        position < usize::MAX,
    ensures
        line@ == progress_line((position + 1) as nat, total as nat, started as int),
{
    let mut line = String::new();
    push_char(&mut line, '\u{1b}');
    append_str(&mut line, "[33m");
    proof {
        reveal_strlit("[33m");
    }
    append_str(&mut line, "Re-encoding file ");
    push_padded_decimal(&mut line, (position + 1) as u64, 0);
    append_str(&mut line, " of ");
    push_padded_decimal(&mut line, total as u64, 0);
    append_str(&mut line, ". Total files started: ");
    push_signed_decimal(&mut line, started);
    push_char(&mut line, '\u{1b}');
    append_str(&mut line, "[0m");
    proof {
        reveal_strlit("[0m");
    }
    assert(line@ =~= progress_line((position + 1) as nat, total as nat, started as int));
    line
}

/// Reading back what `count_file_text` writes gives the count again, for every `i32`: the
/// count survives its round trip through `count.txt`.
pub proof fn lemma_count_file_round_trip(count: i32)
    ensures
        parsed_i32(trimmed(signed_decimal(count as int) + seq!['\n'])) == Some(count),
{
    let magnitude: nat = if count < 0 { (0 - count) as nat } else { count as nat };
    let digits = decimal(magnitude);
    lemma_decimal_digits(magnitude);
    lemma_digits_value_decimal(magnitude);
    let sd = signed_decimal(count as int);
    let x = sd + seq!['\n'];
    assert(!is_white(sd[0])) by {
        if count >= 0 {
            assert(sd[0] == digits[0]);
        }
    }
    assert(!is_white(sd.last())) by {
        assert(sd.last() == digits.last());
    }
    assert(x[0] == sd[0]);
    assert(trim_start(x) == x);
    assert(x.drop_last() =~= sd);
    assert(trim_end(x) == trim_end(sd));
    assert(trim_end(sd) == sd);
    assert(trimmed(x) == sd);
    if count >= 0 {
        assert(sd[0] == digits[0]);
        assert(signed_digits(sd) == digits);
    } else {
        assert(sd.drop_first() =~= digits);
        assert(signed_digits(sd) == digits);
    }
}

} // verus!
