//! Folder names from the saved course page: one folder per lesson heading, numbered in page
//! order.

use vstd::prelude::*;
use crate::ffmpeg::contains_text;
use crate::numbers::{trim_chars, trimmed};
use crate::order::{lemma_texts_of_push, texts_of};
use crate::text::{
    append_str, find_char, first_index_of, lemma_first_index_found, padded_decimal, push_char,
    push_padded_decimal, string_of,
};

verus! {

/// Whether `scraper::Selector::parse` accepts `selector`.
pub uninterp spec fn selector_accepted(selector: Seq<char>) -> bool;

/// For each element of the HTML document `html` that the CSS selector `selector` matches, in
/// document order, its first descendant text node, if it has one.
pub uninterp spec fn matched_first_texts(html: Seq<char>, selector: Seq<char>) -> Seq<
    Option<Seq<char>>,
>;

/// The texts of optional strings.
pub open spec fn optional_texts(v: Seq<Option<String>>) -> Seq<Option<Seq<char>>> {
    v.map_values(
        |t: Option<String>|
            match t {
                Some(s) => Some(s@),
                None => None,
            },
    )
}

/// Parses `selector` with `scraper::Selector::parse` and the document `html` with
/// `scraper::Html::parse_document`, and gives the first text (`ElementRef::text().next()`)
/// of each element that `Html::select` yields. The contract claims that the selector is
/// accepted exactly when `selector_accepted` holds, and that the texts are
/// `matched_first_texts` of the two arguments; it does not say what the parsers do.
#[verifier::external_body]
fn first_texts_of_matches(html: &str, selector: &str) -> (r: Option<Vec<Option<String>>>)
    ensures
        r is Some <==> selector_accepted(selector@),
        r matches Some(v) ==> optional_texts(v@) == matched_first_texts(html@, selector@),
{
    let selector = scraper::Selector::parse(selector).ok()?;
    let document = scraper::Html::parse_document(html);
    let mut texts = Vec::new();
    for element in document.select(&selector) {
        texts.push(element.text().next().map(|t| t.to_string()));
    }
    Some(texts)
}

/// The part of `s` before its first `(`, or all of it.
pub open spec fn before_paren(s: Seq<char>) -> Seq<char> {
    match first_index_of(s, '(') {
        Some(i) => s.take(i),
        None => s,
    }
}

/// The lesson title a heading text gives: the text without surrounding white space, cut
/// before its first `(`.
pub open spec fn heading_title(text: Seq<char>) -> Seq<char> {
    before_paren(trimmed(text))
}

/// The texts that are present, in order.
pub open spec fn present_texts(ts: Seq<Option<Seq<char>>>) -> Seq<Seq<char>>
    decreases ts.len(),
{
    if ts.len() == 0 {
        Seq::empty()
    } else {
        match ts.last() {
            Some(t) => present_texts(ts.drop_last()).push(t),
            None => present_texts(ts.drop_last()),
        }
    }
}

/// The folder name of the `index`-th title: `index + 1` padded to two digits, a space, and the
/// title (`format!("{:02} {}", index + 1, title)`).
pub open spec fn folder_name(index: int, title: Seq<char>) -> Seq<char> {
    padded_decimal((index + 1) as nat, 2) + seq![' '] + title
}

/// The folder names for the first texts of the headings: headings without text are left out,
/// and the others are numbered from 1 in order.
pub open spec fn heading_folders(ts: Seq<Option<Seq<char>>>) -> Seq<Seq<char>> {
    let titles = present_texts(ts);
    Seq::new(titles.len(), |k: int| folder_name(k, heading_title(titles[k])))
}

/// After the cut before the first `(`, the title holds no ` (` either, so cutting it before
/// the first ` (` as well (which the page scraper does next) changes nothing.
pub proof fn lemma_no_space_paren_left(s: Seq<char>)
    ensures
        !contains_text(before_paren(s), seq![' ', '(']),
{
    let t = before_paren(s);
    if first_index_of(s, '(') is Some {
        lemma_first_index_found(s, '(');
    }
    assert forall|k: int| 0 <= k < t.len() implies t[k] != '(' by {
        if first_index_of(s, '(') is None {
            assert(!(exists|i: int| 0 <= i < s.len() && s[i] == '('));
            assert(s[k] != '(');
        }
    }
    if contains_text(t, seq![' ', '(']) {
        let i = choose|i: int|
            0 <= i && i + 2 <= t.len() && #[trigger] t.subrange(i, i + 2) == seq![' ', '('];
        assert(t.subrange(i, i + 2)[1] == t[i + 1]);
    }
}

fn heading_title_of(text: &str) -> (title: String)
    ensures
        title@ == heading_title(text@),
{
    let t = trim_chars(text);
    match find_char(&t, '(') {
        Some(i) => {
            proof {
                lemma_first_index_found(t@, '(');
            }
            let mut kept: Vec<char> = Vec::new();
            for k in 0..i
                invariant
                    i <= t@.len(),
                    kept@ == t@.take(k as int),
            {
                kept.push(t[k]);
                assert(t@.take(k + 1) =~= t@.take(k as int).push(t@[k as int]));
            }
            string_of(&kept)
        },
        None => string_of(&t),
    }
}

/// The folder names for the first texts of the lesson headings (the naming part of the page
/// scraper).
pub fn folder_names_from_texts(texts: &Vec<Option<String>>) -> (names: Vec<String>)
    ensures
        texts_of(names@) == heading_folders(optional_texts(texts@)),
{
    let ghost ts = optional_texts(texts@);
    let mut names: Vec<String> = Vec::new();
    let n = texts.len();
    for i in 0..n
        invariant
            n == texts@.len(),
            ts == optional_texts(texts@),
            names@.len() <= i,
            texts_of(names@) == heading_folders(ts.take(i as int)),
    {
        assert(ts.take(i + 1).drop_last() =~= ts.take(i as int));
        assert(ts.take(i + 1).last() == ts[i as int]);
        match &texts[i] {
            Some(text) => {
                let ghost before = names@;
                let position = names.len();
                assert(texts_of(names@).len() == names@.len());
                assert(present_texts(ts.take(i as int)).len() == position);
                assert(ts[i as int] == Some(text@));
                assert(present_texts(ts.take(i + 1)) == present_texts(ts.take(i as int)).push(
                    text@,
                ));
                let mut name = String::new();
                push_padded_decimal(&mut name, (position as u64) + 1, 2);
                push_char(&mut name, ' ');
                let title = heading_title_of(text.as_str());
                append_str(&mut name, title.as_str());
                assert(name@ == folder_name(position as int, heading_title(text@)));
                proof {
                    lemma_texts_of_push(before, name);
                }
                names.push(name);
                assert(texts_of(names@) =~= heading_folders(ts.take(i + 1)));
            },
            None => {
                assert(heading_folders(ts.take(i + 1)) =~= heading_folders(ts.take(i as int)));
            },
        }
    }
    assert(ts.take(n as int) =~= ts);
    names
}

/// The CSS selector of the lesson headings: `h2` elements with `heading` in their class.
pub open spec fn heading_selector() -> Seq<char> {
    "h2[class*=\"heading\"]"@
}

/// The folder names for a saved course page (the page scraper without its reading and
/// writing): `None` where the heading selector is not accepted, where the scraper stops;
/// else one name per heading with text, as `folder_names_from_texts` makes them.
pub fn heading_folder_names(html: &str) -> (names: Option<Vec<String>>)
    ensures
        names is None <==> !selector_accepted(heading_selector()),
        names matches Some(v) ==> texts_of(v@) == heading_folders(
            matched_first_texts(html@, heading_selector()),
        ),
{
    match first_texts_of_matches(html, "h2[class*=\"heading\"]") {
        Some(texts) => Some(folder_names_from_texts(&texts)),
        None => None,
    }
}

} // verus!
