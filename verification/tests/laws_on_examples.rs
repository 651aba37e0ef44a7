use course_videos::headings::folder_names_from_texts;
use course_videos::merge::sort_by_leading_number;
use course_videos::naming::{lesson_file_name, numbered_name, numbered_names, LessonFile};
use course_videos::numbers::leading_number;
use course_videos::order::sort_texts;

#[test]
fn numbered_names_read_back_their_number() {
    for i in [0usize, 5, 98, 998, 999, 12_345] {
        assert_eq!(leading_number(&numbered_name(i, "07 Part two.mp4")), i + 1);
    }
}

#[test]
fn numbered_names_join_in_lesson_order() {
    let lessons: Vec<LessonFile> = (0..30)
        .map(|i| LessonFile { folder: "f".to_string(), file: format!("{} part {}.mp4", 30 - i, i) })
        .collect();
    let names = numbered_names(&lessons);
    assert_eq!(sort_by_leading_number(&names), names);
}

#[test]
fn thousand_lessons_break_text_order() {
    let late = numbered_name(999, "00 z.mp4");
    let early = numbered_name(100, "00 a.mp4");
    assert_eq!(late, "1000 z.mp4");
    assert_eq!(early, "101 a.mp4");
    assert!(late < early);
}

#[test]
fn scraped_folders_sort_in_page_order() {
    let texts: Vec<Option<String>> = (0..15).map(|i| Some(format!("Section {}", 15 - i))).collect();
    let folders = folder_names_from_texts(&texts);
    assert_eq!(sort_texts(&folders), folders);
    for (k, folder) in folders.iter().enumerate() {
        assert_eq!(leading_number(folder), k + 1);
    }
}

#[test]
fn renamed_lessons_sort_by_number() {
    let names = ["10 Ten.mp4", "9 Nine.mp4", "1 One.mp4", "42 Answer.mp4"];
    let renamed: Vec<String> = names.iter().map(|n| lesson_file_name(n)).collect();
    assert_eq!(
        sort_texts(&renamed),
        vec!["01 One.mp4", "09 Nine.mp4", "10 Ten.mp4", "42 Answer.mp4"]
    );
    let plain: Vec<String> = names.iter().map(|n| n.to_string()).collect();
    assert_eq!(sort_texts(&plain)[0], "1 One.mp4");
    assert_eq!(sort_texts(&plain)[1], "10 Ten.mp4");
}
