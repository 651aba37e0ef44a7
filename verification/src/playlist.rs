//! The course playlist: one heading per folder and one line per lesson, each lesson
//! stamped with the time at which it starts in the combined video.

use vstd::prelude::*;
use crate::merge::{mp4_files, mp4_files_of};
use crate::naming::{ends_with_mp4, mp4_suffix};
use crate::order::{is_text_sorting, sort_texts, texts_of};
use crate::text::{append_str, ends_with, push_char, without_last_chars};
use crate::timing::{clock_text, format_duration, span_limit, TimeSpan, NANOS_PER_SEC};

verus! {

/// A lesson video of a folder: its file name and, where it could be read, its length.
pub struct Lesson {
    pub file_name: String,
    pub length: Option<TimeSpan>,
}

/// A folder of the course with its lessons in playlist order.
pub struct FolderListing {
    pub folder: String,
    pub lessons: Vec<Lesson>,
}

/// How much a lesson adds to the running time: its length, or nothing when it is unknown.
pub open spec fn lesson_length(l: Lesson) -> nat {
    match l.length {
        Some(t) => t@,
        None => 0,
    }
}

/// Total length of the lessons whose length is known.
pub open spec fn lessons_total(ls: Seq<Lesson>) -> nat
    decreases ls.len(),
{
    if ls.len() == 0 {
        0
    } else {
        lessons_total(ls.drop_last()) + lesson_length(ls.last())
    }
}

/// Total length of all the folders' lessons.
pub open spec fn folders_total(fs: Seq<FolderListing>) -> nat
    decreases fs.len(),
{
    if fs.len() == 0 {
        0
    } else {
        folders_total(fs.drop_last()) + lessons_total(fs.last().lessons@)
    }
}

/// First line of the playlist: `"⭐️ Contents ⭐️\n"`.
pub open spec fn playlist_header() -> Seq<char> {
    seq!['\u{2b50}', '\u{fe0f}', ' ', 'C', 'o', 'n', 't', 'e', 'n', 't', 's', ' ', '\u{2b50}',
        '\u{fe0f}', '\n']
}

/// A folder's heading: an empty line, then `"📂 {folder}\n"`.
pub open spec fn folder_heading(folder: Seq<char>) -> Seq<char> {
    seq!['\n', '\u{1f4c2}', ' '] + folder + seq!['\n']
}

/// A lesson's line: `"⌨️ ({hh:mm:ss}) {title}\n"`, stamped with the whole seconds of `start`.
pub open spec fn lesson_line(title: Seq<char>, start: nat) -> Seq<char> {
    seq!['\u{2328}', '\u{fe0f}', ' ', '('] + clock_text(start / (NANOS_PER_SEC as nat)) + seq![
        ')',
        ' ',
    ] + title + seq!['\n']
}

/// The title of a lesson file: its name without the `.mp4` extension.
pub open spec fn lesson_title(file_name: Seq<char>) -> Seq<char> {
    file_name.subrange(0, file_name.len() - 4)
}

/// The lines of `ls`, the first of them starting at `start`: lessons whose length is unknown
/// get no line and take no time.
pub open spec fn lesson_lines(ls: Seq<Lesson>, start: nat) -> Seq<char>
    decreases ls.len(),
{
    if ls.len() == 0 {
        Seq::empty()
    } else {
        let prev = ls.drop_last();
        lesson_lines(prev, start) + match ls.last().length {
            Some(_) => lesson_line(lesson_title(ls.last().file_name@), start + lessons_total(prev)),
            None => Seq::empty(),
        }
    }
}

/// The headings and lines of the folders, the first folder starting at time zero.
pub open spec fn folder_blocks(fs: Seq<FolderListing>) -> Seq<char>
    decreases fs.len(),
{
    if fs.len() == 0 {
        Seq::empty()
    } else {
        let prev = fs.drop_last();
        folder_blocks(prev) + folder_heading(fs.last().folder@) + lesson_lines(
            fs.last().lessons@,
            folders_total(prev),
        )
    }
}

/// The whole playlist text.
pub open spec fn playlist(fs: Seq<FolderListing>) -> Seq<char> {
    playlist_header() + folder_blocks(fs)
}

/// Every lesson whose length is known is a `.mp4` file.
pub open spec fn titled_lessons(fs: Seq<FolderListing>) -> bool {
    forall|i: int, j: int|
        0 <= i < fs.len() && 0 <= j < fs[i].lessons@.len() && (#[trigger] fs[i].lessons@[j]).length
            is Some ==> ends_with(fs[i].lessons@[j].file_name@, mp4_suffix())
}

fn push_header(s: &mut String)
    ensures
        final(s)@ == old(s)@ + playlist_header(),
{
    push_char(s, '\u{2b50}');
    push_char(s, '\u{fe0f}');
    proof {
        reveal_strlit(" Contents ");
    }
    append_str(s, " Contents ");
    push_char(s, '\u{2b50}');
    push_char(s, '\u{fe0f}');
    push_char(s, '\n');
    assert(final(s)@ =~= old(s)@ + playlist_header());
}

proof fn lemma_lessons_total_prefix(ls: Seq<Lesson>, i: int)
    requires
        0 <= i <= ls.len(),
    ensures
        lessons_total(ls.take(i)) <= lessons_total(ls),
    decreases ls.len(),
{
    if i < ls.len() {
        assert(ls.drop_last().take(i) == ls.take(i));
        lemma_lessons_total_prefix(ls.drop_last(), i);
    } else {
        assert(ls.take(i) == ls);
    }
}

proof fn lemma_folders_total_prefix(fs: Seq<FolderListing>, i: int)
    requires
        0 <= i <= fs.len(),
    ensures
        folders_total(fs.take(i)) <= folders_total(fs),
    decreases fs.len(),
{
    if i < fs.len() {
        assert(fs.drop_last().take(i) == fs.take(i));
        lemma_folders_total_prefix(fs.drop_last(), i);
    } else {
        assert(fs.take(i) == fs);
    }
}

/// Appends the lines of one folder's lessons, starting at `*elapsed`, and advances
/// `*elapsed` by their total length.
fn push_lesson_lines(s: &mut String, lessons: &Vec<Lesson>, elapsed: &mut TimeSpan)
    requires
        old(elapsed)@ + lessons_total(lessons@) < span_limit(),
        forall|j: int|
            0 <= j < lessons@.len() && (#[trigger] lessons@[j]).length is Some ==> ends_with(
                lessons@[j].file_name@,
                mp4_suffix(),
            ),
    ensures
        final(s)@ == old(s)@ + lesson_lines(lessons@, old(elapsed)@),
        final(elapsed)@ == old(elapsed)@ + lessons_total(lessons@),
{
    let ghost start_text = s@;
    let ghost start = elapsed@;
    let n = lessons.len();
    for j in 0..n
        invariant
            n == lessons@.len(),
            start + lessons_total(lessons@) < span_limit(),
            forall|k: int|
                0 <= k < lessons@.len() && (#[trigger] lessons@[k]).length is Some ==> ends_with(
                    lessons@[k].file_name@,
                    mp4_suffix(),
                ),
            s@ == start_text + lesson_lines(lessons@.take(j as int), start),
            elapsed@ == start + lessons_total(lessons@.take(j as int)),
    {
        let ghost prev = lessons@.take(j as int);
        assert(lessons@.take(j + 1).drop_last() == prev);
        assert(lessons@.take(j + 1).last() == lessons@[j as int]);
        let lesson = &lessons[j];
        match lesson.length {
            Some(len) => {
                proof {
                    lemma_lessons_total_prefix(lessons@, j + 1);
                }
                push_lesson_line(s, &lesson.file_name, *elapsed);
                *elapsed = elapsed.plus(len);
            },
            None => {},
        }
    }
    assert(lessons@.take(n as int) == lessons@);
}

fn push_lesson_line(s: &mut String, file_name: &String, start: TimeSpan)
    requires
        ends_with(file_name@, mp4_suffix()),
    ensures
        final(s)@ == old(s)@ + lesson_line(lesson_title(file_name@), start@),
{
    push_char(s, '\u{2328}');
    push_char(s, '\u{fe0f}');
    push_char(s, ' ');
    push_char(s, '(');
    let stamp = format_duration(start);
    append_str(s, stamp.as_str());
    push_char(s, ')');
    push_char(s, ' ');
    let title = without_last_chars(file_name.as_str(), 4);
    append_str(s, title.as_str());
    push_char(s, '\n');
    assert(final(s)@ =~= old(s)@ + lesson_line(lesson_title(file_name@), start@));
}

/// The playlist of a course: the header, then
/// for each folder its heading and one line per lesson whose length is known, stamped with
/// the whole seconds of the known lengths before it.
pub fn playlist_text(folders: &Vec<FolderListing>) -> (text: String)
    requires
        folders_total(folders@) < span_limit(),
        titled_lessons(folders@),
    ensures
        text@ == playlist(folders@),
{
    let mut text = String::new();
    push_header(&mut text);
    let mut elapsed = TimeSpan::zero();
    let n = folders.len();
    for i in 0..n
        invariant
            n == folders@.len(),
            folders_total(folders@) < span_limit(),
            titled_lessons(folders@),
            text@ == playlist_header() + folder_blocks(folders@.take(i as int)),
            elapsed@ == folders_total(folders@.take(i as int)),
    {
        let ghost prev = folders@.take(i as int);
        assert(folders@.take(i + 1).drop_last() == prev);
        assert(folders@.take(i + 1).last() == folders@[i as int]);
        proof {
            lemma_folders_total_prefix(folders@, i + 1);
        }
        let folder = &folders[i];
        push_char(&mut text, '\n');
        push_char(&mut text, '\u{1f4c2}');
        push_char(&mut text, ' ');
        append_str(&mut text, folder.folder.as_str());
        push_char(&mut text, '\n');
        assert forall|j: int|
            0 <= j < folder.lessons@.len() && (#[trigger] folder.lessons@[j]).length
                is Some implies ends_with(folder.lessons@[j].file_name@, mp4_suffix()) by {
            assert(folders@[i as int].lessons@[j] == folder.lessons@[j]);
        }
        push_lesson_lines(&mut text, &folder.lessons, &mut elapsed);
        assert(text@ =~= playlist_header() + folder_blocks(folders@.take(i + 1)));
    }
    assert(folders@.take(n as int) == folders@);
    text
}

/// `start` plus the total length of `lessons`, or `None` where that reaches the limit.
fn checked_lessons_total(start: TimeSpan, lessons: &Vec<Lesson>) -> (t: Option<TimeSpan>)
    requires
        start@ < span_limit(),
    ensures
        t is Some <==> start@ + lessons_total(lessons@) < span_limit(),
        t matches Some(s) ==> s@ == start@ + lessons_total(lessons@) && s@ < span_limit(),
{
    let mut total = start;
    let n = lessons.len();
    for j in 0..n
        invariant
            n == lessons@.len(),
            total@ == start@ + lessons_total(lessons@.take(j as int)),
            total@ < span_limit(),
    {
        assert(lessons@.take(j + 1).drop_last() =~= lessons@.take(j as int));
        assert(lessons@.take(j + 1).last() == lessons@[j as int]);
        match lessons[j].length {
            Some(len) => match total.checked_plus(len) {
                Some(t) => {
                    total = t;
                },
                None => {
                    proof {
                        lemma_lessons_total_prefix(lessons@, j + 1);
                    }
                    return None;
                },
            },
            None => {},
        }
    }
    assert(lessons@.take(n as int) =~= lessons@);
    Some(total)
}

/// Whether every lesson whose length is known is a `.mp4` file.
fn lessons_titled(lessons: &Vec<Lesson>) -> (b: bool)
    ensures
        b == forall|j: int|
            0 <= j < lessons@.len() && (#[trigger] lessons@[j]).length is Some ==> ends_with(
                lessons@[j].file_name@,
                mp4_suffix(),
            ),
{
    let n = lessons.len();
    for j in 0..n
        invariant
            n == lessons@.len(),
            forall|k: int|
                0 <= k < j && (#[trigger] lessons@[k]).length is Some ==> ends_with(
                    lessons@[k].file_name@,
                    mp4_suffix(),
                ),
    {
        if lessons[j].length.is_some() && !ends_with_mp4(lessons[j].file_name.as_str()) {
            return false;
        }
    }
    true
}

/// The playlist of a course, or `None` where the playlist tool stops: when a lesson with a
/// known length is not a `.mp4` file, or when the lengths add up past what a `TimeSpan`
/// holds.
pub fn try_playlist_text(folders: &Vec<FolderListing>) -> (text: Option<String>)
    ensures
        text is Some <==> folders_total(folders@) < span_limit() && titled_lessons(folders@),
        text matches Some(t) ==> t@ == playlist(folders@),
{
    let mut total = TimeSpan::zero();
    let n = folders.len();
    for i in 0..n
        invariant
            n == folders@.len(),
            total@ == folders_total(folders@.take(i as int)),
            total@ < span_limit(),
            forall|k: int, j: int|
                0 <= k < i && 0 <= j < folders@[k].lessons@.len() && (#[trigger] folders@[k].lessons@[j]).length
                    is Some ==> ends_with(folders@[k].lessons@[j].file_name@, mp4_suffix()),
    {
        assert(folders@.take(i + 1).drop_last() =~= folders@.take(i as int));
        assert(folders@.take(i + 1).last() == folders@[i as int]);
        let folder = &folders[i];
        if !lessons_titled(&folder.lessons) {
            return None;
        }
        match checked_lessons_total(total, &folder.lessons) {
            Some(t) => {
                total = t;
            },
            None => {
                proof {
                    lemma_folders_total_prefix(folders@, i + 1);
                }
                return None;
            },
        }
    }
    assert(folders@.take(n as int) =~= folders@);
    Some(playlist_text(folders))
}

/// The lesson files of a folder for the playlist: among the names of its regular files, those
/// whose extension is `mp4`, sorted by name.
pub fn playlist_files(file_names: &Vec<String>) -> (files: Vec<String>)
    ensures
        is_text_sorting(mp4_files(texts_of(file_names@)), texts_of(files@)),
{
    let mp4 = mp4_files_of(file_names);
    sort_texts(&mp4)
}

/// The running time after the lessons `ls`, starting from `acc`: each lesson adds its length
/// when it is known.
pub open spec fn run_lessons(acc: nat, ls: Seq<Lesson>) -> nat {
    ls.fold_left(acc, |a: nat, l: Lesson| a + lesson_length(l))
}

/// The running time of a whole course: lesson by lesson, folder after folder, from zero.
pub open spec fn course_running_time(fs: Seq<FolderListing>) -> nat {
    fs.fold_left(0nat, |acc: nat, f: FolderListing| run_lessons(acc, f.lessons@))
}

proof fn lemma_run_lessons(acc: nat, ls: Seq<Lesson>)
    ensures
        run_lessons(acc, ls) == acc + lessons_total(ls),
    decreases ls.len(),
{
    if ls.len() > 0 {
        lemma_run_lessons(acc, ls.drop_last());
    }
}

proof fn lemma_course_running_time(fs: Seq<FolderListing>)
    ensures
        course_running_time(fs) == folders_total(fs),
    decreases fs.len(),
{
    if fs.len() > 0 {
        lemma_course_running_time(fs.drop_last());
        lemma_run_lessons(course_running_time(fs.drop_last()), fs.last().lessons@);
    }
}

/// A folder added after the course `fs` continues its playlist: the playlist of the longer
/// course is the playlist of `fs`, then the new folder's heading, then its lessons stamped
/// from the running time of all of `fs` (every earlier folder, not only the last).
pub proof fn lemma_playlist_continues(fs: Seq<FolderListing>, f: FolderListing)
    ensures
        playlist(fs.push(f)) == playlist(fs) + folder_heading(f.folder@) + lesson_lines(
            f.lessons@,
            course_running_time(fs),
        ),
{
    lemma_course_running_time(fs);
    assert(fs.push(f).drop_last() =~= fs);
    assert(playlist(fs.push(f)) =~= playlist(fs) + folder_heading(f.folder@) + lesson_lines(
        f.lessons@,
        course_running_time(fs),
    ));
}

/// A lesson added after the lessons `ls` of a folder that starts at `start` gets, when its
/// length is known, one line stamped with `start` plus the running time of `ls`; a lesson
/// whose length is unknown adds nothing.
pub proof fn lemma_lesson_stamp(ls: Seq<Lesson>, l: Lesson, start: nat)
    ensures
        lesson_lines(ls.push(l), start) == lesson_lines(ls, start) + match l.length {
            Some(_) => lesson_line(lesson_title(l.file_name@), run_lessons(start, ls)),
            None => Seq::empty(),
        },
{
    lemma_run_lessons(start, ls);
    assert(ls.push(l).drop_last() =~= ls);
}

/// Where the first lesson of a folder starts: right after the folder's heading comes the
/// first lesson's line, stamped with the running time of every folder before it.
pub proof fn lemma_first_lesson_of_folder(fs: Seq<FolderListing>, f: FolderListing)
    requires
        f.lessons@.len() > 0,
        f.lessons@[0].length is Some,
    ensures
        ({
            let at = (playlist(fs) + folder_heading(f.folder@)).len();
            let line = lesson_line(lesson_title(f.lessons@[0].file_name@), course_running_time(fs));
            playlist(fs.push(f)).subrange(at as int, (at + line.len()) as int) == line
        }),
{
    lemma_playlist_continues(fs, f);
    let start = course_running_time(fs);
    let line = lesson_line(lesson_title(f.lessons@[0].file_name@), start);
    lemma_lesson_lines_begin(f.lessons@, start);
    let head = playlist(fs) + folder_heading(f.folder@);
    let all = lesson_lines(f.lessons@, start);
    assert((head + all).subrange(head.len() as int, (head.len() + line.len()) as int) =~= all.take(
        line.len() as int,
    ));
}

proof fn lemma_lesson_lines_begin(ls: Seq<Lesson>, start: nat)
    requires
        ls.len() > 0,
        ls[0].length is Some,
    ensures
        lesson_lines(ls, start).len() >= lesson_line(lesson_title(ls[0].file_name@), start).len(),
        lesson_lines(ls, start).take(
            lesson_line(lesson_title(ls[0].file_name@), start).len() as int,
        ) == lesson_line(lesson_title(ls[0].file_name@), start),
    decreases ls.len(),
{
    let first = lesson_line(lesson_title(ls[0].file_name@), start);
    if ls.len() == 1 {
        assert(ls.drop_last().len() == 0);
        assert(lessons_total(ls.drop_last()) == 0);
        assert(ls.last() == ls[0]);
        assert(lesson_lines(ls.drop_last(), start) == Seq::<char>::empty());
        assert(lesson_lines(ls, start) =~= first);
    } else {
        let prev = ls.drop_last();
        assert(prev[0] == ls[0]);
        lemma_lesson_lines_begin(prev, start);
        let tail = match ls.last().length {
            Some(_) => lesson_line(lesson_title(ls.last().file_name@), start + lessons_total(prev)),
            None => Seq::empty(),
        };
        assert(lesson_lines(ls, start) == lesson_lines(prev, start) + tail);
        assert(lesson_lines(ls, start).take(first.len() as int) =~= lesson_lines(prev, start).take(
            first.len() as int,
        ));
    }
}

} // verus!
