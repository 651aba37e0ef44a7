use course_videos::merge::sort_by_leading_number;
use course_videos::numbers::{first_word_of, leading_number, parse_usize};
use course_videos::order::{sort_texts, stable_number_order, stable_text_order};

fn strings(items: &[&str]) -> Vec<String> {
    items.iter().map(|s| s.to_string()).collect()
}

#[test]
fn leading_numbers_follow_str_parse() {
    assert_eq!(leading_number("12 Intro.mp4"), 12);
    assert_eq!(leading_number("  7\tx.mp4"), 7);
    assert_eq!(leading_number("+5 a.mp4"), 5);
    assert_eq!(leading_number("-5 a.mp4"), 0);
    assert_eq!(leading_number("+ a.mp4"), 0);
    assert_eq!(leading_number("abc.mp4"), 0);
    assert_eq!(leading_number("3a.mp4"), 0);
    assert_eq!(leading_number(""), 0);
    assert_eq!(leading_number("99999999999999999999999 x"), 0);
    assert_eq!(leading_number("007\u{3000}x"), 7);
}

#[test]
fn first_word_and_usize_parse() {
    assert_eq!(first_word_of("\u{a0} ab cd"), vec!['a', 'b']);
    assert_eq!(first_word_of("   "), Vec::<char>::new());
    assert_eq!(parse_usize(&"18446744073709551615".chars().collect()), Some(usize::MAX));
    assert_eq!(parse_usize(&"18446744073709551616".chars().collect()), None);
    assert_eq!(parse_usize(&Vec::new()), None);
}

#[test]
fn number_sort_is_stable() {
    let names = strings(&["10 a", "2 b", "x", "2 a", "y"]);
    assert_eq!(sort_by_leading_number(&names), strings(&["x", "y", "2 b", "2 a", "10 a"]));
    assert_eq!(stable_number_order(&vec![3, 1, 3, 0]), vec![3, 1, 0, 2]);
}

#[test]
fn text_sort_orders_by_code_point() {
    let texts = strings(&["b", "a", "B", "\u{e9}", "aa", "a"]);
    let mut expected = texts.clone();
    expected.sort();
    assert_eq!(sort_texts(&texts), expected);
    assert_eq!(stable_text_order(&texts), vec![2, 1, 5, 4, 0, 3]);
}
