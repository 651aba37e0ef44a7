use course_videos::counter::{count_file_text, next_count, parse_count, reencode_progress_line};
use course_videos::ffmpeg::{
    concat_copy_args, concat_reencode_args, needs_reencode, probe_args, reencode_30fps_args,
    reencode_args, temporary_output, text_contains,
};
use course_videos::headings::{folder_names_from_texts, heading_folder_names};
use course_videos::merge::{
    finish_pair, mp4_files_of, paths_of, plan_combine_all, plan_merge, plan_pair, random_step,
    videos_by_number,
    FileAction, RandomStep,
};

fn strings(items: &[&str]) -> Vec<String> {
    items.iter().map(|s| s.to_string()).collect()
}

#[test]
fn merge_job_sorts_paths_as_text() {
    let job = plan_merge("./", &strings(&["b.mp4", "notes.txt", "a.mp4", "10 c.mp4"])).unwrap();
    assert_eq!(job.inputs, strings(&["./10 c.mp4", "./a.mp4", "./b.mp4"]));
    assert_eq!(job.output, "./combined_video.mp4");
    assert!(plan_merge("./", &strings(&["x.txt", ".mp4"])).is_none());
}

#[test]
fn mp4_files_and_paths() {
    assert_eq!(mp4_files_of(&strings(&["a.mp4", "b.txt", ".mp4", "c.mp4"])), strings(&["a.mp4", "c.mp4"]));
    assert_eq!(paths_of("./", &strings(&["a", "b"])), strings(&["./a", "./b"]));
}

#[test]
fn combine_all_plan_orders_by_number() {
    let plan = plan_combine_all("./", &strings(&["10 c.mp4", "2 b.mp4", "list.txt", "1 a.mp4"]));
    assert_eq!(plan.inputs, strings(&["./1 a.mp4", "./2 b.mp4", "./10 c.mp4"]));
    assert_eq!(plan.reencoded, strings(&["reencoded_1 a.mp4", "reencoded_2 b.mp4", "reencoded_10 c.mp4"]));
    assert_eq!(
        plan.list_text,
        "file 'reencoded_1 a.mp4'\nfile 'reencoded_2 b.mp4'\nfile 'reencoded_10 c.mp4'\n"
    );
    assert_eq!(plan.list_file, "concat_list.txt");
    assert_eq!(plan.output, "combined_video.mp4");
}

#[test]
fn pair_plan_names_its_files() {
    let files = strings(&["./1 a.mp4", "./2 b.mp4", "./3 c.mp4"]);
    let plan = plan_pair(&files, 1);
    assert_eq!(plan.index, 1);
    assert_eq!(plan.first, "./2 b.mp4");
    assert_eq!(plan.second, "./3 c.mp4");
    assert_eq!(plan.first_reencoded, "reencoded_1.mp4");
    assert_eq!(plan.second_reencoded, "reencoded_2.mp4");
    assert_eq!(plan.list_text, "file 'reencoded_1.mp4'\nfile 'reencoded_2.mp4'\n");
    assert_eq!(plan.output, "combined_1.mp4");
}

#[test]
fn random_step_finishes_or_picks_a_pair() {
    let files = videos_by_number("./", &strings(&["5 only.mp4", "x.txt"]));
    match random_step(&files) {
        RandomStep::Finished(last) => assert_eq!(last, "./5 only.mp4"),
        RandomStep::Combine(_) => panic!("one video left"),
    }
    match random_step(&videos_by_number("./", &strings(&["2 b.mp4", "1 a.mp4"]))) {
        RandomStep::Combine(plan) => {
            assert_eq!(plan.index, 0);
            assert_eq!(plan.first, "./1 a.mp4");
            assert_eq!(plan.second, "./2 b.mp4");
        }
        RandomStep::Finished(_) => panic!("two videos left"),
    }
    for _ in 0..20 {
        match random_step(&strings(&["1.mp4", "2.mp4", "3.mp4", "4.mp4"])) {
            RandomStep::Combine(plan) => assert!(plan.index < 3),
            RandomStep::Finished(_) => panic!("four videos left"),
        }
    }
}

fn describe(actions: &[FileAction]) -> Vec<String> {
    actions
        .iter()
        .map(|a| match a {
            FileAction::Rename { from, to } => format!("mv {} {}", from, to),
            FileAction::Remove { path } => format!("rm {}", path),
        })
        .collect()
}

#[test]
fn finishing_a_pair() {
    let plan = plan_pair(&strings(&["./a.mp4", "./b.mp4"]), 0);
    assert_eq!(
        describe(&finish_pair(&plan, true)),
        strings(&[
            "mv combined_0.mp4 ./a.mp4",
            "rm ./b.mp4",
            "rm concat_list.txt",
            "rm reencoded_0.mp4",
            "rm reencoded_1.mp4",
        ])
    );
    assert_eq!(
        describe(&finish_pair(&plan, false)),
        strings(&["rm concat_list.txt", "rm reencoded_0.mp4", "rm reencoded_1.mp4"])
    );
}

#[test]
fn ffmpeg_arguments() {
    assert_eq!(probe_args("a.mp4"), strings(&["-i", "a.mp4", "-f", "null", "-"]));
    assert_eq!(
        reencode_args("a.mp4", "b.mp4"),
        strings(&["-i", "a.mp4", "-c:v", "libx264", "-crf", "23", "-preset", "veryfast", "b.mp4"])
    );
    assert_eq!(
        reencode_30fps_args("a.mp4", "b.mp4"),
        strings(&[
            "-i", "a.mp4", "-vf", "fps=30", "-c:v", "libx264", "-crf", "23", "-preset", "fast", "-c:a",
            "aac", "-b:a", "192k", "b.mp4"
        ])
    );
    assert_eq!(
        concat_copy_args("l.txt", "o.mp4"),
        strings(&["-f", "concat", "-safe", "0", "-i", "l.txt", "-c", "copy", "o.mp4"])
    );
    assert_eq!(
        concat_reencode_args("l.txt", "o.mp4"),
        strings(&[
            "-f", "concat", "-safe", "0", "-i", "l.txt", "-c:v", "libx264", "-crf", "23", "-preset",
            "fast", "-c:a", "aac", "-b:a", "192k", "o.mp4"
        ])
    );
    assert_eq!(temporary_output("./f/a.mp4"), "./f/a.mp4.tmp.mp4");
}

#[test]
fn dts_warning_decides_reencoding() {
    assert!(needs_reencode(&Some("[mp4] Non-monotonous DTS in output stream".to_string())));
    assert!(!needs_reencode(&Some("all good".to_string())));
    assert!(!needs_reencode(&None));
    assert!(text_contains("abc", ""));
    assert!(!text_contains("ab", "abc"));
    assert!(text_contains("xxabab", "abab"));
}

#[test]
fn count_file_handling() {
    assert_eq!(parse_count(" 41\n"), Some(41));
    assert_eq!(parse_count("+7"), Some(7));
    assert_eq!(parse_count("-2147483648"), Some(i32::MIN));
    assert_eq!(parse_count("2147483647"), Some(i32::MAX));
    assert_eq!(parse_count("2147483648"), None);
    assert_eq!(parse_count("-"), None);
    assert_eq!(parse_count("4 2"), None);
    assert_eq!(parse_count(""), None);
    assert_eq!(next_count(41), 42);
    assert_eq!(count_file_text(0), "0\n");
    assert_eq!(count_file_text(-3), "-3\n");
    assert_eq!(
        reencode_progress_line(2, 10, 5),
        "\x1B[33mRe-encoding file 3 of 10. Total files started: 5\x1B[0m"
    );
}

#[test]
fn folder_names_from_heading_texts() {
    let texts = vec![
        Some("  Getting Started (12 min) ".to_string()),
        None,
        Some("Setup".to_string()),
        Some("(intro)".to_string()),
    ];
    assert_eq!(folder_names_from_texts(&texts), strings(&["01 Getting Started ", "02 Setup", "03 "]));
}

#[test]
fn folder_names_from_saved_page() {
    let html = "<html><body>\
        <h2 class=\"section-heading big\">Intro (3 lessons)</h2>\
        <h2 class=\"other\">Not a section</h2>\
        <h2 class=\"heading\">  Basics  </h2>\
        <h2 class=\"heading\"></h2>\
        </body></html>";
    assert_eq!(heading_folder_names(html).unwrap(), strings(&["01 Intro ", "02 Basics"]));
}
