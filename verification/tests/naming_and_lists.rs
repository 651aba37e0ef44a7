use course_videos::lists::{concat_list_text, lines_text, parse_lines};
use course_videos::naming::{
    begins_with_two_digits, ends_with_mp4, is_mp4_file, lesson_file_name, numbered_name,
    numbered_names, plan_course, plan_folder, position_of, reencoded_name, FolderEntries,
    LessonFile,
};
use course_videos::order::sort_texts;

fn strings(items: &[&str]) -> Vec<String> {
    items.iter().map(|s| s.to_string()).collect()
}

#[test]
fn mp4_names_and_extensions() {
    assert!(ends_with_mp4("01 a.mp4"));
    assert!(ends_with_mp4(".mp4"));
    assert!(!ends_with_mp4("a.mp4.txt"));
    assert!(is_mp4_file("a.mp4"));
    assert!(!is_mp4_file(".mp4"));
    assert!(!is_mp4_file("a.MP4"));
}

#[test]
fn lesson_numbers_get_two_digits() {
    assert_eq!(lesson_file_name("1 Intro.mp4"), "01 Intro.mp4");
    assert_eq!(lesson_file_name("12 Intro.mp4"), "12 Intro.mp4");
    assert_eq!(lesson_file_name("Intro.mp4"), "0Intro.mp4");
    assert_eq!(lesson_file_name("x"), "0x");
    assert!(begins_with_two_digits("07 a.mp4"));
    assert!(!begins_with_two_digits("7 a.mp4"));
}

#[test]
fn folder_plan_renames_and_sorts() {
    let entries = strings(&["3 Third.mp4", "notes.txt", "10 Tenth.mp4", "02 Second.mp4", "1 First.mp4"]);
    let plan = plan_folder(&entries);
    let renames: Vec<(String, String)> = plan.renames.iter().map(|r| (r.from.clone(), r.to.clone())).collect();
    assert_eq!(
        renames,
        vec![
            ("3 Third.mp4".to_string(), "03 Third.mp4".to_string()),
            ("1 First.mp4".to_string(), "01 First.mp4".to_string()),
        ]
    );
    assert_eq!(plan.lessons, strings(&["01 First.mp4", "02 Second.mp4", "03 Third.mp4", "10 Tenth.mp4"]));
}

#[test]
fn course_plan_lists_lessons_folder_by_folder() {
    let listing = vec![
        FolderEntries { folder: "01 Start".to_string(), entries: strings(&["2 b.mp4", "1 a.mp4"]) },
        FolderEntries { folder: "02 End".to_string(), entries: strings(&["readme", "01 c.mp4"]) },
    ];
    let plan = plan_course(&listing);
    assert_eq!(plan.folders.len(), 2);
    let pairs: Vec<(String, String)> = plan.lessons.iter().map(|l| (l.folder.clone(), l.file.clone())).collect();
    assert_eq!(
        pairs,
        vec![
            ("01 Start".to_string(), "01 a.mp4".to_string()),
            ("01 Start".to_string(), "02 b.mp4".to_string()),
            ("02 End".to_string(), "01 c.mp4".to_string()),
        ]
    );
    assert_eq!(plan.folders[1].renames.len(), 0);
}

#[test]
fn numbered_names_keep_part_from_first_space() {
    assert_eq!(numbered_name(0, "01 Intro part 1.mp4"), "001 Intro part 1.mp4");
    assert_eq!(numbered_name(9, "Intro.mp4"), "010Intro.mp4");
    assert_eq!(numbered_name(999, "07 x.mp4"), "1000 x.mp4");
    let lessons = vec![
        LessonFile { folder: "01 A".to_string(), file: "01 a.mp4".to_string() },
        LessonFile { folder: "02 B".to_string(), file: "01 b.mp4".to_string() },
    ];
    assert_eq!(numbered_names(&lessons), strings(&["001 a.mp4", "002 b.mp4"]));
}

#[test]
fn numbered_names_sort_in_lesson_order() {
    let lessons: Vec<LessonFile> = (0..120)
        .map(|i| LessonFile { folder: "f".to_string(), file: format!("{:02} lesson {}.mp4", 120 - i, i) })
        .collect();
    let names = numbered_names(&lessons);
    assert_eq!(sort_texts(&names), names);
}

#[test]
fn position_finds_first_match() {
    let lessons = vec![
        LessonFile { folder: "a".to_string(), file: "1.mp4".to_string() },
        LessonFile { folder: "b".to_string(), file: "1.mp4".to_string() },
        LessonFile { folder: "b".to_string(), file: "1.mp4".to_string() },
    ];
    assert_eq!(position_of(&lessons, "b", "1.mp4"), Some(1));
    assert_eq!(position_of(&lessons, "c", "1.mp4"), None);
}

#[test]
fn reencoded_names() {
    assert_eq!(reencoded_name("05 x.mp4"), "reencoded_05 x.mp4");
}

#[test]
fn concat_list_quotes_each_name() {
    assert_eq!(concat_list_text(&strings(&["001 a.mp4", "002 b.mp4"])), "file '001 a.mp4'\nfile '002 b.mp4'\n");
    assert_eq!(concat_list_text(&Vec::new()), "");
}

#[test]
fn lines_file_round_trip() {
    let folders = strings(&["01 Intro", "02 Basics", ""]);
    let text = lines_text(&folders);
    assert_eq!(text, "01 Intro\n02 Basics\n\n");
    assert_eq!(parse_lines(&text), folders);
}

#[test]
fn parse_lines_like_bufread() {
    assert_eq!(parse_lines("a\r\nb\n\nc\r"), strings(&["a", "b", "", "c\r"]));
    assert_eq!(parse_lines(""), Vec::<String>::new());
    assert_eq!(parse_lines("\n"), strings(&[""]));
    assert_eq!(parse_lines("x"), strings(&["x"]));
}
