use course_videos::playlist::{playlist_files, playlist_text, try_playlist_text, FolderListing, Lesson};
use course_videos::timing::{format_duration, TimeSpan};

fn lesson(name: &str, length: Option<TimeSpan>) -> Lesson {
    Lesson { file_name: name.to_string(), length }
}

fn strings(items: &[&str]) -> Vec<String> {
    items.iter().map(|s| s.to_string()).collect()
}

#[test]
fn format_duration_pads_each_field() {
    assert_eq!(format_duration(TimeSpan::new(0, 0)), "00:00:00");
    assert_eq!(format_duration(TimeSpan::new(3661, 0)), "01:01:01");
    assert_eq!(format_duration(TimeSpan::new(59, 999_999_999)), "00:00:59");
}

#[test]
fn format_duration_lets_hours_grow() {
    assert_eq!(format_duration(TimeSpan::new(360_000 + 59 * 60 + 7, 0)), "100:59:07");
}

#[test]
fn clock_fields_add_back_up() {
    for secs in [0u64, 59, 60, 3599, 3600, 86_399, 123_456] {
        let text = format_duration(TimeSpan::new(secs, 0));
        let parts: Vec<u64> = text.split(':').map(|p| p.parse().unwrap()).collect();
        assert_eq!(parts[0] * 3600 + parts[1] * 60 + parts[2], secs);
        assert!(parts[1] < 60 && parts[2] < 60);
    }
}

#[test]
fn spans_carry_nanoseconds() {
    let t = TimeSpan::new(1, 600_000_000).plus(TimeSpan::new(2, 500_000_000));
    assert_eq!(t.as_secs(), 4);
    assert_eq!(t.subsec_nanos(), 100_000_000);
    assert_eq!(TimeSpan::zero().as_secs(), 0);
}

#[test]
fn checked_plus_refuses_overflow() {
    assert!(TimeSpan::new(u64::MAX, 0).checked_plus(TimeSpan::new(1, 0)).is_none());
    assert!(TimeSpan::new(u64::MAX, 999_999_999).checked_plus(TimeSpan::new(0, 1)).is_none());
    let t = TimeSpan::new(u64::MAX - 1, 500_000_000).checked_plus(TimeSpan::new(0, 500_000_000));
    assert_eq!(t.unwrap().as_secs(), u64::MAX);
}

fn sample_course() -> Vec<FolderListing> {
    vec![
        FolderListing {
            folder: "01 Intro".to_string(),
            lessons: vec![
                lesson("01 Welcome.mp4", Some(TimeSpan::new(61, 0))),
                lesson("02 Broken.mp4", None),
                lesson("03 Setup.mp4", Some(TimeSpan::new(3598, 600_000_000))),
            ],
        },
        FolderListing {
            folder: "02 Basics".to_string(),
            lessons: vec![lesson("01 Types.mp4", Some(TimeSpan::new(1, 0)))],
        },
    ]
}

#[test]
fn playlist_stamps_running_time() {
    let expected = "\u{2b50}\u{fe0f} Contents \u{2b50}\u{fe0f}\n\
                    \n\u{1f4c2} 01 Intro\n\
                    \u{2328}\u{fe0f} (00:00:00) 01 Welcome\n\
                    \u{2328}\u{fe0f} (00:01:01) 03 Setup\n\
                    \n\u{1f4c2} 02 Basics\n\
                    \u{2328}\u{fe0f} (01:00:59) 01 Types\n";
    assert_eq!(playlist_text(&sample_course()), expected);
    assert_eq!(try_playlist_text(&sample_course()).unwrap(), expected);
}

#[test]
fn playlist_of_empty_course_is_header_only() {
    assert_eq!(playlist_text(&Vec::new()), "\u{2b50}\u{fe0f} Contents \u{2b50}\u{fe0f}\n");
}

#[test]
fn try_playlist_refuses_overflow_and_untitled_lessons() {
    let too_long = vec![FolderListing {
        folder: "01".to_string(),
        lessons: vec![
            lesson("01 a.mp4", Some(TimeSpan::new(u64::MAX, 0))),
            lesson("02 b.mp4", Some(TimeSpan::new(1, 0))),
        ],
    }];
    assert!(try_playlist_text(&too_long).is_none());
    let untitled = vec![FolderListing {
        folder: "01".to_string(),
        lessons: vec![lesson("notes.txt", Some(TimeSpan::new(1, 0)))],
    }];
    assert!(try_playlist_text(&untitled).is_none());
    let unread = vec![FolderListing {
        folder: "01".to_string(),
        lessons: vec![lesson("notes.txt", None)],
    }];
    assert!(try_playlist_text(&unread).is_some());
}

#[test]
fn playlist_files_keeps_sorted_mp4_files() {
    let names = strings(&["b.mp4", "a.mp4", "x.txt", ".mp4", "c.MP4", "10 z.mp4", "2 y.mp4"]);
    assert_eq!(playlist_files(&names), strings(&["10 z.mp4", "2 y.mp4", "a.mp4", "b.mp4"]));
}
