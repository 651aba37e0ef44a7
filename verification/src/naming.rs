//! Names of the lesson files: which files are lessons, the zero that makes a lesson number two
//! digits long, and the numbered names under which lessons are gathered.

use vstd::prelude::*;
use crate::order::{is_text_sorting, sort_texts, texts_of};
use crate::text::{
    append_str, chars_of, decimal, digit_char, ends_with, is_ascii_digit, padded_decimal,
    find_char, first_index_of, lemma_first_index_found, push_char, push_padded_decimal, str_ends_with, str_eq, zeros,
};

verus! {

/// The `.mp4` extension with its dot.
pub open spec fn mp4_suffix() -> Seq<char> {
    seq!['.', 'm', 'p', '4']
}

/// Whether a file name ends with `.mp4` (`str::ends_with(".mp4")`).
pub fn ends_with_mp4(name: &str) -> (b: bool)
    ensures
        b == ends_with(name@, mp4_suffix()),
{
    proof {
        reveal_strlit(".mp4");
    }
    assert(".mp4"@ =~= mp4_suffix());
    str_ends_with(name, ".mp4")
}

/// The extension of a file name is `mp4` (`Path::extension` is `Some("mp4")`): the name ends
/// with `.mp4` and something stands before that dot.
pub open spec fn has_mp4_extension(name: Seq<char>) -> bool {
    ends_with(name, mp4_suffix()) && name.len() > 4
}

/// Whether the extension of a file name is `mp4`.
pub fn is_mp4_file(name: &str) -> (b: bool)
    ensures
        b == has_mp4_extension(name@),
{
    let ends = ends_with_mp4(name);
    ends && name.unicode_len() > 4
}

/// The name begins with two decimal digits.
pub open spec fn starts_with_two_digits(name: Seq<char>) -> bool {
    name.len() >= 2 && is_ascii_digit(name[0]) && is_ascii_digit(name[1])
}

/// The check of the first two characters can be made: there is a first character, and a
/// second one where the first is a digit.
pub open spec fn lesson_name_checkable(name: Seq<char>) -> bool {
    name.len() >= 1 && (is_ascii_digit(name[0]) ==> name.len() >= 2)
}

/// A lesson file's name once its number has two digits: names that do not begin with two
/// digits get a `0` in front.
pub open spec fn lesson_name(name: Seq<char>) -> Seq<char> {
    if starts_with_two_digits(name) {
        name
    } else {
        seq!['0'] + name
    }
}

/// Whether a lesson's name begins with two digits (`!(!c0.is_digit(10) || !c1.is_digit(10))`,
/// the second character looked at only when the first is a digit).
pub fn begins_with_two_digits(name: &str) -> (b: bool)
    requires
        lesson_name_checkable(name@),
    ensures
        b == starts_with_two_digits(name@),
{
    let first = name.get_char(0);
    if '0' <= first && first <= '9' {
        let second = name.get_char(1);
        '0' <= second && second <= '9'
    } else {
        false
    }
}

/// The name a lesson file is given so that its number has two digits.
pub fn lesson_file_name(name: &str) -> (r: String)
    requires
        lesson_name_checkable(name@),
    ensures
        r@ == lesson_name(name@),
{
    let two = begins_with_two_digits(name);
    let mut r = String::new();
    if !two {
        push_char(&mut r, '0');
    }
    append_str(&mut r, name);
    r
}

/// Reading position of the first space of `name`, if it has one.
pub open spec fn first_space(name: Seq<char>) -> Option<int> {
    first_index_of(name, ' ')
}

/// What a numbered name keeps of a lesson's name: everything from its first space on, or the
/// whole name where it has no space (`&name[name.find(' ').unwrap_or(0)..]`).
pub open spec fn kept_part(name: Seq<char>) -> Seq<char> {
    match first_space(name) {
        Some(i) => name.skip(i),
        None => name,
    }
}

/// The numbered name of the lesson at `index`: its number `index + 1` padded with zeros to
/// three digits, then the kept part of its name (`format!("{:03}{}", index + 1, ..)`).
pub open spec fn numbered(index: int, name: Seq<char>) -> Seq<char> {
    padded_decimal((index + 1) as nat, 3) + kept_part(name)
}

/// The numbered name of the lesson `name` at `index`.
pub fn numbered_name(index: usize, name: &str) -> (r: String)
    requires
        index < usize::MAX,
    ensures
        r@ == numbered(index as int, name@),
{
    let v = chars_of(name);
    let n = v.len();
    let start = match find_char(&v, ' ') {
        Some(i) => {
            proof {
                lemma_first_index_found(name@, ' ');
            }
            i
        },
        None => 0,
    };
    assert(kept_part(name@) =~= name@.skip(start as int));
    let mut r = String::new();
    push_padded_decimal(&mut r, (index + 1) as u64, 3);
    let ghost head = r@;
    for k in start..n
        invariant
            n == v@.len(),
            v@ == name@,
            start <= n,
            r@ == head + name@.subrange(start as int, k as int),
    {
        push_char(&mut r, v[k]);
        assert(name@.subrange(start as int, k + 1) == name@.subrange(start as int, k as int).push(
            name@[k as int],
        ));
    }
    assert(name@.subrange(start as int, n as int) =~= name@.skip(start as int));
    r
}

/// The name a lesson gets once re-encoded: `reencoded_` in front of its file name.
pub open spec fn reencoded(name: Seq<char>) -> Seq<char> {
    seq!['r', 'e', 'e', 'n', 'c', 'o', 'd', 'e', 'd', '_'] + name
}

/// The name of the re-encoded copy of a video (`format!("reencoded_{}", name)`).
pub fn reencoded_name(name: &str) -> (r: String)
    ensures
        r@ == reencoded(name@),
{
    let mut r = String::new();
    proof {
        reveal_strlit("reencoded_");
    }
    append_str(&mut r, "reencoded_");
    append_str(&mut r, name);
    assert(r@ =~= reencoded(name@));
    r
}

/// The `.mp4` files among a folder's entries, in listing order.
pub open spec fn mp4_entries(entries: Seq<Seq<char>>) -> Seq<Seq<char>>
    decreases entries.len(),
{
    if entries.len() == 0 {
        Seq::empty()
    } else {
        let prev = mp4_entries(entries.drop_last());
        if ends_with(entries.last(), mp4_suffix()) {
            prev.push(entries.last())
        } else {
            prev
        }
    }
}

/// The renames that give every lesson a two-digit number: one for each lesson whose name
/// does not begin with two digits, in listing order.
pub open spec fn renames_needed(names: Seq<Seq<char>>) -> Seq<(Seq<char>, Seq<char>)>
    decreases names.len(),
{
    if names.len() == 0 {
        Seq::empty()
    } else {
        let prev = renames_needed(names.drop_last());
        if starts_with_two_digits(names.last()) {
            prev
        } else {
            prev.push((names.last(), lesson_name(names.last())))
        }
    }
}

/// A file to rename within its folder.
pub struct Rename {
    pub from: String,
    pub to: String,
}

/// The names of the renames.
pub open spec fn rename_pairs(rs: Seq<Rename>) -> Seq<(Seq<char>, Seq<char>)> {
    rs.map_values(|r: Rename| (r.from@, r.to@))
}

/// What to do with one folder: the renames to make, and its lessons in playlist order.
pub struct FolderPlan {
    pub renames: Vec<Rename>,
    pub lessons: Vec<String>,
}

/// `plan` is what `plan_folder` makes of a folder with the entries `entries`.
pub open spec fn is_folder_plan(entries: Seq<Seq<char>>, plan: FolderPlan) -> bool {
    &&& rename_pairs(plan.renames@) == renames_needed(mp4_entries(entries))
    &&& is_text_sorting(
        mp4_entries(entries).map_values(|n: Seq<char>| lesson_name(n)),
        texts_of(plan.lessons@),
    )
}

/// The plan of one folder from the names of its entries: its `.mp4` files are its lessons;
/// those whose name does not begin with two digits get a `0` in front; the lessons are then
/// sorted by name.
pub fn plan_folder(entries: &Vec<String>) -> (plan: FolderPlan)
    ensures
        is_folder_plan(texts_of(entries@), plan),
{
    let ghost t = texts_of(entries@);
    let mut renames: Vec<Rename> = Vec::new();
    let mut names: Vec<String> = Vec::new();
    let n = entries.len();
    for i in 0..n
        invariant
            n == entries@.len(),
            t == texts_of(entries@),
            rename_pairs(renames@) == renames_needed(mp4_entries(t.take(i as int))),
            texts_of(names@) == mp4_entries(t.take(i as int)).map_values(
                |n: Seq<char>| lesson_name(n),
            ),
    {
        let entry = &entries[i];
        assert(t.take(i + 1).drop_last() =~= t.take(i as int));
        assert(t.take(i + 1).last() == entry@);
        if ends_with_mp4(entry.as_str()) {
            let ghost m = mp4_entries(t.take(i as int));
            assert(mp4_entries(t.take(i + 1)) == m.push(entry@));
            assert(m.push(entry@).drop_last() =~= m);
            let renamed = lesson_file_name(entry.as_str());
            let ghost old_names = names@;
            if !begins_with_two_digits(entry.as_str()) {
                let ghost old_renames = renames@;
                renames.push(Rename { from: entry.clone(), to: renamed.clone() });
                assert(rename_pairs(renames@) =~= rename_pairs(old_renames).push(
                    (entry@, renamed@),
                ));
            }
            names.push(renamed);
            assert(texts_of(names@) =~= texts_of(old_names).push(lesson_name(entry@)));
        }
    }
    assert(t.take(n as int) =~= t);
    let lessons = sort_texts(&names);
    FolderPlan { renames, lessons }
}

/// A folder of the course and the names of its entries.
pub struct FolderEntries {
    pub folder: String,
    pub entries: Vec<String>,
}

/// A lesson of the course: the folder it lies in and its file name there.
pub struct LessonFile {
    pub folder: String,
    pub file: String,
}

/// The names of lesson files.
pub open spec fn lesson_pairs(ls: Seq<LessonFile>) -> Seq<(Seq<char>, Seq<char>)> {
    ls.map_values(|l: LessonFile| (l.folder@, l.file@))
}

/// The lessons of a course, folder after folder, each folder's lessons in its order.
pub open spec fn course_lessons(folders: Seq<Seq<char>>, plans: Seq<FolderPlan>) -> Seq<
    (Seq<char>, Seq<char>),
>
    decreases plans.len(),
{
    if plans.len() == 0 || folders.len() == 0 {
        Seq::empty()
    } else {
        course_lessons(folders.drop_last(), plans.drop_last()) + texts_of(
            plans.last().lessons@,
        ).map_values(|f: Seq<char>| (folders.last(), f))
    }
}

/// Each folder's planned lessons, tagged with the folder's name.
pub open spec fn tagged_lessons(folders: Seq<Seq<char>>, plans: Seq<FolderPlan>) -> Seq<
    Seq<(Seq<char>, Seq<char>)>,
> {
    Seq::new(
        plans.len(),
        |i: int| texts_of(plans[i].lessons@).map_values(|f: Seq<char>| (folders[i], f)),
    )
}

/// The lessons of a course are every folder's lessons, folder after folder, none left out:
/// the concatenation over all folders, in order, of each folder's planned lessons tagged with
/// its name.
pub proof fn lemma_course_lessons_concatenate(folders: Seq<Seq<char>>, plans: Seq<FolderPlan>)
    requires
        folders.len() == plans.len(),
    ensures
        course_lessons(folders, plans) == tagged_lessons(folders, plans).flatten(),
    decreases plans.len(),
{
    let t = tagged_lessons(folders, plans);
    t.lemma_flatten_and_flatten_alt_are_equivalent();
    if plans.len() > 0 {
        let fp = folders.drop_last();
        let pp = plans.drop_last();
        lemma_course_lessons_concatenate(fp, pp);
        let tp = tagged_lessons(fp, pp);
        tp.lemma_flatten_and_flatten_alt_are_equivalent();
        assert(t.drop_last() =~= tp);
        assert(t.last() == texts_of(plans.last().lessons@).map_values(
            |f: Seq<char>| (folders.last(), f),
        ));
    } else {
        assert(t.len() == 0);
    }
}

/// The number of lessons of a course is the sum of its folders' lesson counts.
pub open spec fn lesson_count(plans: Seq<FolderPlan>) -> nat
    decreases plans.len(),
{
    if plans.len() == 0 {
        0
    } else {
        lesson_count(plans.drop_last()) + plans.last().lessons@.len()
    }
}

/// A course lists as many lessons as its folders hold together.
pub proof fn lemma_course_lesson_count(folders: Seq<Seq<char>>, plans: Seq<FolderPlan>)
    requires
        folders.len() == plans.len(),
    ensures
        course_lessons(folders, plans).len() == lesson_count(plans),
    decreases plans.len(),
{
    if plans.len() > 0 {
        lemma_course_lesson_count(folders.drop_last(), plans.drop_last());
    }
}

/// The folder names of a course.
pub open spec fn folder_names(fs: Seq<FolderEntries>) -> Seq<Seq<char>> {
    fs.map_values(|f: FolderEntries| f.folder@)
}

/// The plan of a course: one plan per folder, and all lessons in order.
pub struct CoursePlan {
    pub folders: Vec<FolderPlan>,
    pub lessons: Vec<LessonFile>,
}

/// The plan of a whole course (as the arranging tools plan it): each folder
/// planned by `plan_folder`, and the lessons listed folder after folder.
pub fn plan_course(listing: &Vec<FolderEntries>) -> (plan: CoursePlan)
    ensures
        plan.folders@.len() == listing@.len(),
        forall|i: int|
            0 <= i < listing@.len() ==> is_folder_plan(
                texts_of((#[trigger] listing@[i]).entries@),
                plan.folders@[i],
            ),
        lesson_pairs(plan.lessons@) == course_lessons(folder_names(listing@), plan.folders@),
{
    let mut folders: Vec<FolderPlan> = Vec::new();
    let mut lessons: Vec<LessonFile> = Vec::new();
    let n = listing.len();
    for i in 0..n
        invariant
            n == listing@.len(),
            folders@.len() == i,
            forall|k: int|
                0 <= k < i ==> is_folder_plan(
                    texts_of((#[trigger] listing@[k]).entries@),
                    folders@[k],
                ),
            lesson_pairs(lessons@) == course_lessons(
                folder_names(listing@).take(i as int),
                folders@,
            ),
    {
        let folder = &listing[i];
        let fp = plan_folder(&folder.entries);
        let ghost before = lessons@;
        let m = fp.lessons.len();
        for k in 0..m
            invariant
                m == fp.lessons@.len(),
                lesson_pairs(lessons@) == lesson_pairs(before) + texts_of(fp.lessons@).take(
                    k as int,
                ).map_values(|f: Seq<char>| (folder.folder@, f)),
        {
            let ghost prev = lessons@;
            lessons.push(LessonFile { folder: folder.folder.clone(), file: fp.lessons[k].clone() });
            assert(lesson_pairs(lessons@) =~= lesson_pairs(prev).push(
                (folder.folder@, fp.lessons@[k as int]@),
            ));
            assert(texts_of(fp.lessons@).take(k + 1).map_values(
                |f: Seq<char>| (folder.folder@, f),
            ) =~= texts_of(fp.lessons@).take(k as int).map_values(
                |f: Seq<char>| (folder.folder@, f),
            ).push((folder.folder@, fp.lessons@[k as int]@)));
        }
        assert(texts_of(fp.lessons@).take(m as int) =~= texts_of(fp.lessons@));
        let ghost old_folders = folders@;
        folders.push(fp);
        proof {
            let names = folder_names(listing@);
            assert(names.take(i + 1).drop_last() =~= names.take(i as int));
            assert(folders@.drop_last() =~= old_folders);
            assert(names.take(i + 1).last() == folder.folder@);
        }
    }
    assert(folder_names(listing@).take(n as int) =~= folder_names(listing@));
    CoursePlan { folders, lessons }
}

/// The numbered names of the lessons, in order, under which the arranging tools gather
/// them: the lesson at position `i` is named `numbered(i, ..)`.
pub fn numbered_names(lessons: &Vec<LessonFile>) -> (names: Vec<String>)
    ensures
        names@.len() == lessons@.len(),
        forall|i: int|
            0 <= i < lessons@.len() ==> (#[trigger] names@[i])@ == numbered(i, lessons@[i].file@),
{
    let mut names: Vec<String> = Vec::new();
    let n = lessons.len();
    for i in 0..n
        invariant
            n == lessons@.len(),
            names@.len() == i,
            forall|k: int|
                0 <= k < i ==> (#[trigger] names@[k])@ == numbered(k, lessons@[k].file@),
    {
        names.push(numbered_name(i, lessons[i].file.as_str()));
    }
    names
}

/// A number below 1000 padded to three digits is spelled by its hundreds, tens and units.
pub proof fn lemma_three_digits(n: nat)
    requires
        n < 1000,
    ensures
        padded_decimal(n, 3) == seq![digit_char(n / 100), digit_char((n / 10) % 10), digit_char(n % 10)],
{
    if n < 10 {
        assert(decimal(n) == seq![digit_char(n)]);
        assert(zeros(2) =~= seq!['0', '0']);
        assert(padded_decimal(n, 3) =~= seq!['0', '0', digit_char(n)]);
    } else if n < 100 {
        assert(decimal(n / 10) == seq![digit_char(n / 10)]);
        assert(decimal(n) =~= seq![digit_char(n / 10), digit_char(n % 10)]);
        assert(zeros(1) =~= seq!['0']);
        assert(padded_decimal(n, 3) =~= seq!['0', digit_char(n / 10), digit_char(n % 10)]);
    } else {
        let t = n / 10;
        assert(t / 10 == n / 100);
        assert(decimal(t / 10) == seq![digit_char(t / 10)]);
        assert(decimal(t) =~= seq![digit_char(t / 10), digit_char(t % 10)]);
        assert(decimal(n) =~= seq![digit_char(n / 100), digit_char(t % 10), digit_char(n % 10)]);
    }
}

/// The position of the first lesson in `folder` named `file` (`Iterator::position` on the
/// lesson list), if there is one.
pub fn position_of(lessons: &Vec<LessonFile>, folder: &str, file: &str) -> (r: Option<usize>)
    ensures
        r matches Some(k) ==> k < lessons@.len() && lesson_pairs(lessons@)[k as int] == (folder@, file@)
            && forall|j: int| 0 <= j < k ==> lesson_pairs(lessons@)[j] != (folder@, file@),
        r is None ==> forall|j: int|
            0 <= j < lessons@.len() ==> lesson_pairs(lessons@)[j] != (folder@, file@),
{
    let n = lessons.len();
    for k in 0..n
        invariant
            n == lessons@.len(),
            forall|j: int| 0 <= j < k ==> lesson_pairs(lessons@)[j] != (folder@, file@),
    {
        if str_eq(lessons[k].folder.as_str(), folder) && str_eq(lessons[k].file.as_str(), file) {
            return Some(k);
        }
    }
    None
}

} // verus!
