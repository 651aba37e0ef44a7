//! Properties that tie the tools together: the numbers that the tools put in front of names
//! keep the lessons and folders in order, both as text and read back as numbers.

use vstd::prelude::*;
use crate::naming::{
    first_space, kept_part, lemma_three_digits, lesson_name, numbered, starts_with_two_digits,
};
use crate::numbers::{
    all_digits, digits_value, first_word, is_white, lemma_padded_decimal_value, lemma_word_prefix_take,
    leading_number_of, parsed_usize, unsigned_digits, word_prefix,
};
use crate::headings::folder_name;
use crate::merge::{is_number_sorting, leading_numbers};
use crate::order::{
    arranged, is_stable_number_order, is_stable_text_order, is_text_sorting,
    lemma_stable_number_order_unique, lemma_stable_text_order_unique, number_before,
    lemma_text_lt_irreflexive, lemma_text_lt_skip, text_before, text_lt,
};
use crate::text::{
    decimal, digit_char, is_ascii_digit, lemma_first_index_found, padded_decimal, zeros,
};

verus! {

proof fn lemma_digit_order(m: nat, n: nat)
    requires
        1 <= m < n <= 999,
    ensures
        m / 100 < n / 100 || (m / 100 == n / 100 && (m / 10) % 10 < (n / 10) % 10) || (m / 100
            == n / 100 && (m / 10) % 10 == (n / 10) % 10 && m % 10 < n % 10),
{
    assert(m == 100 * (m / 100) + 10 * ((m / 10) % 10) + m % 10);
    assert(n == 100 * (n / 100) + 10 * ((n / 10) % 10) + n % 10);
}

/// Numbered names of lessons at positions `i < j` come in that order as text, as long as
/// there are fewer than 1000 lessons: a lesson numbered 1000 or more has a longer number
/// and can sort before smaller ones.
pub proof fn lemma_numbered_names_ascend(i: int, j: int, a: Seq<char>, b: Seq<char>)
    requires
        0 <= i < j < 999,
    ensures
        text_lt(numbered(i, a), numbered(j, b)),
{
    let m = (i + 1) as nat;
    let n = (j + 1) as nat;
    lemma_three_digits(m);
    lemma_three_digits(n);
    lemma_digit_order(m, n);
    let x = numbered(i, a);
    let y = numbered(j, b);
    assert(x[0] == digit_char(m / 100) && y[0] == digit_char(n / 100));
    assert(x[1] == digit_char((m / 10) % 10) && y[1] == digit_char((n / 10) % 10));
    assert(x[2] == digit_char(m % 10) && y[2] == digit_char(n % 10));
    if m / 100 < n / 100 {
    } else if (m / 10) % 10 < (n / 10) % 10 {
        lemma_text_lt_skip(x, y, 1);
        assert(x.skip(1)[0] == x[1] && y.skip(1)[0] == y[1]);
    } else {
        lemma_text_lt_skip(x, y, 2);
        assert(x.skip(2)[0] == x[2] && y.skip(2)[0] == y[2]);
    }
}

/// Fewer than 1000 lessons get pairwise different numbered names.
pub proof fn lemma_numbered_names_distinct(i: int, j: int, a: Seq<char>, b: Seq<char>)
    requires
        0 <= i < 999,
        0 <= j < 999,
        i != j,
    ensures
        numbered(i, a) != numbered(j, b),
{
    if i < j {
        lemma_numbered_names_ascend(i, j, a, b);
        lemma_text_lt_irreflexive(numbered(i, a));
    } else {
        lemma_numbered_names_ascend(j, i, b, a);
        lemma_text_lt_irreflexive(numbered(j, b));
    }
}

/// The number a numbered name begins with is the lesson's number `index + 1`, when the
/// lesson's name has a space: the kept part then begins with that space, which ends the
/// first word. (Without a space the whole name follows the digits and may run into them.)
pub proof fn lemma_numbered_leading_number(index: int, name: Seq<char>)
    requires
        0 <= index < usize::MAX,
        exists|k: int| 0 <= k < name.len() && name[k] == ' ',
    ensures
        leading_number_of(numbered(index, name)) == index + 1,
{
    let p = padded_decimal((index + 1) as nat, 3);
    lemma_padded_decimal_value((index + 1) as nat, 3);
    lemma_first_index_found(name, ' ');
    let s = first_space(name)->0;
    let kept = name.skip(s);
    assert(kept_part(name) == kept);
    let x = numbered(index, name);
    assert(x == p + kept);
    assert(kept[0] == ' ');
    assert(x[p.len() as int] == ' ');
    assert forall|k: int| 0 <= k < p.len() implies !is_white(#[trigger] x[k]) by {
        assert(x[k] == p[k]);
    }
    lemma_word_prefix_take(x, p.len() as int);
    assert(x.take(p.len() as int) =~= p);
    assert(!is_white(x[0]));
    assert(first_word(x) == word_prefix(x));
    assert(p[0] != '+');
    assert(unsigned_digits(p) == p);
}

/// Texts that already ascend strictly stay where they are when sorted.
pub proof fn lemma_ascending_texts_stay(t: Seq<Seq<char>>, sorted: Seq<Seq<char>>)
    requires
        t.len() <= usize::MAX,
        forall|i: int, j: int| 0 <= i < j < t.len() ==> text_lt(#[trigger] t[i], #[trigger] t[j]),
        is_text_sorting(t, sorted),
    ensures
        sorted == t,
{
    let id = Seq::new(t.len(), |i: int| i as usize);
    assert forall|x: usize| x < t.len() implies #[trigger] id.contains(x) by {
        assert(id[x as int] == x);
    }
    assert forall|a: int, b: int| 0 <= a < b < id.len() implies text_before(
        t,
        #[trigger] id[a] as int,
        #[trigger] id[b] as int,
    ) by {
        assert(id[a] as int == a && id[b] as int == b);
        assert(text_lt(t[a], t[b]));
    }
    assert(is_stable_text_order(t, id));
    let order = choose|order: Seq<usize>| is_stable_text_order(t, order) && sorted == arranged(t, order);
    lemma_stable_text_order_unique(t, order, id);
    assert forall|k: int| 0 <= k < t.len() implies arranged(t, id)[k] == t[k] by {
        assert(id[k] as int == k);
    }
    assert(arranged(t, id) =~= t);
}

/// Sorting the numbered names of fewer than 1000 lessons by name keeps the lessons in order.
pub proof fn lemma_numbered_names_sort_in_order(files: Seq<Seq<char>>, sorted: Seq<Seq<char>>)
    requires
        files.len() <= 999,
        is_text_sorting(Seq::new(files.len(), |i: int| numbered(i, files[i])), sorted),
    ensures
        sorted == Seq::new(files.len(), |i: int| numbered(i, files[i])),
{
    let names = Seq::new(files.len(), |i: int| numbered(i, files[i]));
    assert forall|i: int, j: int| 0 <= i < j < names.len() implies text_lt(
        #[trigger] names[i],
        #[trigger] names[j],
    ) by {
        lemma_numbered_names_ascend(i, j, files[i], files[j]);
    }
    lemma_ascending_texts_stay(names, sorted);
}

/// A number below 100 padded to two digits is spelled by its tens and units.
pub proof fn lemma_two_digits(n: nat)
    requires
        n < 100,
    ensures
        padded_decimal(n, 2) == seq![digit_char(n / 10), digit_char(n % 10)],
{
    if n < 10 {
        assert(decimal(n) == seq![digit_char(n)]);
        assert(zeros(1) =~= seq!['0']);
        assert(padded_decimal(n, 2) =~= seq!['0', digit_char(n)]);
    } else {
        assert(decimal(n / 10) == seq![digit_char(n / 10)]);
        assert(decimal(n) =~= seq![digit_char(n / 10), digit_char(n % 10)]);
    }
}

/// Texts that begin with two-digit numbers `m < n` come in that order.
pub proof fn lemma_two_digit_prefixes_ascend(m: nat, n: nat, x: Seq<char>, y: Seq<char>)
    requires
        m < n < 100,
    ensures
        text_lt(padded_decimal(m, 2) + x, padded_decimal(n, 2) + y),
{
    lemma_two_digits(m);
    lemma_two_digits(n);
    assert(m == 10 * (m / 10) + m % 10);
    assert(n == 10 * (n / 10) + n % 10);
    let a = padded_decimal(m, 2) + x;
    let b = padded_decimal(n, 2) + y;
    assert(a[0] == digit_char(m / 10) && b[0] == digit_char(n / 10));
    assert(a[1] == digit_char(m % 10) && b[1] == digit_char(n % 10));
    if m / 10 < n / 10 {
    } else {
        lemma_text_lt_skip(a, b, 1);
        assert(a.skip(1)[0] == a[1] && b.skip(1)[0] == b[1]);
    }
}

/// Folder names of headings at positions `i < j` come in that order as text, for fewer than
/// 100 headings.
pub proof fn lemma_folder_names_ascend(i: int, j: int, a: Seq<char>, b: Seq<char>)
    requires
        0 <= i < j < 99,
    ensures
        text_lt(folder_name(i, a), folder_name(j, b)),
{
    lemma_two_digit_prefixes_ascend((i + 1) as nat, (j + 1) as nat, seq![' '] + a, seq![' '] + b);
    assert(folder_name(i, a) =~= padded_decimal((i + 1) as nat, 2) + (seq![' '] + a));
    assert(folder_name(j, b) =~= padded_decimal((j + 1) as nat, 2) + (seq![' '] + b));
}

/// A lesson named by a number below 100 followed by something other than a digit is named,
/// once renamed, by that number padded to two digits followed by the same rest.
pub proof fn lemma_lesson_name_pads_number(m: nat, rest: Seq<char>)
    requires
        m < 100,
        rest.len() > 0,
        !is_ascii_digit(rest[0]),
    ensures
        lesson_name(decimal(m) + rest) == padded_decimal(m, 2) + rest,
{
    lemma_two_digits(m);
    let name = decimal(m) + rest;
    if m < 10 {
        assert(decimal(m) == seq![digit_char(m)]);
        assert(name[1] == rest[0]);
        assert(!starts_with_two_digits(name));
        assert(seq!['0'] + name =~= padded_decimal(m, 2) + rest);
    } else {
        assert(decimal(m / 10) == seq![digit_char(m / 10)]);
        assert(decimal(m) =~= seq![digit_char(m / 10), digit_char(m % 10)]);
        assert(name[0] == digit_char(m / 10) && name[1] == digit_char(m % 10));
        assert(decimal(m) =~= padded_decimal(m, 2));
    }
}

/// The point of the added zero: once renamed, lessons numbered `m < n` below 100 (each number
/// followed by something other than a digit) sort by their numbers, where `"10 .."` would
/// otherwise come before `"9 .."`.
pub proof fn lemma_lesson_names_sort_by_number(m: nat, x: Seq<char>, n: nat, y: Seq<char>)
    requires
        m < n < 100,
        x.len() > 0 && !is_ascii_digit(x[0]),
        y.len() > 0 && !is_ascii_digit(y[0]),
    ensures
        text_lt(lesson_name(decimal(m) + x), lesson_name(decimal(n) + y)),
{
    lemma_lesson_name_pads_number(m, x);
    lemma_lesson_name_pads_number(n, y);
    lemma_two_digit_prefixes_ascend(m, n, x, y);
}

/// Sorting the folder names of fewer than 100 headings by name keeps the page order: the
/// arranging tools, which sort the folders by name, take the lessons in page order.
pub proof fn lemma_folder_names_sort_in_order(titles: Seq<Seq<char>>, sorted: Seq<Seq<char>>)
    requires
        titles.len() <= 99,
        is_text_sorting(Seq::new(titles.len(), |k: int| folder_name(k, titles[k])), sorted),
    ensures
        sorted == Seq::new(titles.len(), |k: int| folder_name(k, titles[k])),
{
    let names = Seq::new(titles.len(), |k: int| folder_name(k, titles[k]));
    assert forall|i: int, j: int| 0 <= i < j < names.len() implies text_lt(
        #[trigger] names[i],
        #[trigger] names[j],
    ) by {
        lemma_folder_names_ascend(i, j, titles[i], titles[j]);
    }
    lemma_ascending_texts_stay(names, sorted);
}

/// The number a folder name begins with is its heading's position plus one.
pub proof fn lemma_folder_name_leading_number(index: int, title: Seq<char>)
    requires
        0 <= index < usize::MAX,
    ensures
        leading_number_of(folder_name(index, title)) == index + 1,
{
    let p = padded_decimal((index + 1) as nat, 2);
    lemma_padded_decimal_value((index + 1) as nat, 2);
    let x = folder_name(index, title);
    assert(x[p.len() as int] == ' ');
    assert forall|k: int| 0 <= k < p.len() implies !is_white(#[trigger] x[k]) by {
        assert(x[k] == p[k]);
    }
    lemma_word_prefix_take(x, p.len() as int);
    assert(x.take(p.len() as int) =~= p);
    assert(!is_white(x[0]));
    assert(first_word(x) == word_prefix(x));
    assert(p[0] != '+');
    assert(unsigned_digits(p) == p);
}

/// Names whose leading numbers already ascend strictly stay where they are when sorted by
/// leading number.
pub proof fn lemma_ascending_numbers_stay(t: Seq<Seq<char>>, sorted: Seq<Seq<char>>)
    requires
        t.len() <= usize::MAX,
        forall|i: int, j: int|
            0 <= i < j < t.len() ==> leading_number_of(#[trigger] t[i]) < leading_number_of(
                #[trigger] t[j],
            ),
        is_number_sorting(t, sorted),
    ensures
        sorted == t,
{
    let keys = leading_numbers(t);
    let id = Seq::new(t.len(), |i: int| i as usize);
    assert forall|x: usize| x < keys.len() implies #[trigger] id.contains(x) by {
        assert(id[x as int] == x);
    }
    assert forall|a: int, b: int| 0 <= a < b < id.len() implies number_before(
        keys,
        #[trigger] id[a] as int,
        #[trigger] id[b] as int,
    ) by {
        assert(id[a] as int == a && id[b] as int == b);
        assert(leading_number_of(t[a]) < leading_number_of(t[b]));
    }
    assert(is_stable_number_order(keys, id));
    let order = choose|order: Seq<usize>|
        is_stable_number_order(keys, order) && sorted == arranged(t, order);
    lemma_stable_number_order_unique(keys, order, id);
    assert forall|k: int| 0 <= k < t.len() implies arranged(t, id)[k] == t[k] by {
        assert(id[k] as int == k);
    }
    assert(arranged(t, id) =~= t);
}

/// Joining the numbered lessons of the arranging tools by leading number keeps the lesson
/// order, when every lesson's name has a space.
pub proof fn lemma_numbered_names_join_in_order(files: Seq<Seq<char>>, sorted: Seq<Seq<char>>)
    requires
        files.len() < usize::MAX,
        forall|i: int|
            0 <= i < files.len() ==> exists|k: int|
                0 <= k < (#[trigger] files[i]).len() && files[i][k] == ' ',
        is_number_sorting(Seq::new(files.len(), |i: int| numbered(i, files[i])), sorted),
    ensures
        sorted == Seq::new(files.len(), |i: int| numbered(i, files[i])),
{
    let names = Seq::new(files.len(), |i: int| numbered(i, files[i]));
    assert forall|i: int, j: int| 0 <= i < j < names.len() implies leading_number_of(
        #[trigger] names[i],
    ) < leading_number_of(#[trigger] names[j]) by {
        lemma_numbered_leading_number(i, files[i]);
        lemma_numbered_leading_number(j, files[j]);
    }
    lemma_ascending_numbers_stay(names, sorted);
}

} // verus!
