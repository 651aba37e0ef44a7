//! Plans for joining the lesson videos of a directory: the straight join, the join with
//! re-encoding where needed, and the random pairwise join that repeats until one video is left.

use vstd::prelude::*;
use rand::Rng;
use crate::lists::{concat_list, concat_list_text};
use crate::naming::{has_mp4_extension, is_mp4_file, reencoded, reencoded_name};
use crate::numbers::{leading_number, leading_number_of};
use crate::order::{
    arranged, is_stable_number_order, lemma_texts_of_push, is_text_sorting, pick_in_order, sort_texts,
    stable_number_order, texts_of,
};
use crate::text::{append_str, decimal, push_padded_decimal};

verus! {

/// The entries of a directory listing whose extension is `mp4`, in listing order.
pub open spec fn mp4_files(names: Seq<Seq<char>>) -> Seq<Seq<char>>
    decreases names.len(),
{
    if names.len() == 0 {
        Seq::empty()
    } else if has_mp4_extension(names.last()) {
        mp4_files(names.drop_last()).push(names.last())
    } else {
        mp4_files(names.drop_last())
    }
}

/// A name has the extension `mp4` exactly when it is some non-empty stem followed by `.mp4`,
/// whatever dots the stem holds (`Path::extension` looks at the last dot only).
pub proof fn lemma_mp4_extension_is_stem_and_suffix(x: Seq<char>)
    ensures
        has_mp4_extension(x) <==> exists|stem: Seq<char>|
            stem.len() > 0 && x == stem + seq!['.', 'm', 'p', '4'],
{
    if has_mp4_extension(x) {
        let stem = x.take(x.len() - 4);
        assert(x =~= stem + seq!['.', 'm', 'p', '4']);
    }
    if exists|stem: Seq<char>| stem.len() > 0 && x == stem + seq!['.', 'm', 'p', '4'] {
        let stem = choose|stem: Seq<char>| stem.len() > 0 && x == stem + seq!['.', 'm', 'p', '4'];
        assert(x.subrange(x.len() - 4, x.len() as int) =~= seq!['.', 'm', 'p', '4']);
    }
}

/// The videos of a listing are exactly its entries that are a non-empty stem followed by
/// `.mp4`, e.g. `1.1 Intro.mp4`, and they keep their listing order.
pub proof fn lemma_mp4_files_are_the_videos(names: Seq<Seq<char>>)
    ensures
        forall|x: Seq<char>|
            #[trigger] mp4_files(names).contains(x) <==> names.contains(x) && exists|
                stem: Seq<char>,
            | stem.len() > 0 && x == stem + seq!['.', 'm', 'p', '4'],
    decreases names.len(),
{
    if names.len() > 0 {
        let prev = names.drop_last();
        lemma_mp4_files_are_the_videos(prev);
        lemma_mp4_extension_is_stem_and_suffix(names.last());
        assert forall|x: Seq<char>|
            #[trigger] mp4_files(names).contains(x) <==> names.contains(x) && exists|
                stem: Seq<char>,
            | stem.len() > 0 && x == stem + seq!['.', 'm', 'p', '4'] by {
            lemma_mp4_extension_is_stem_and_suffix(x);
            let in_prev = mp4_files(prev).contains(x);
            assert(names =~= prev.push(names.last()));
            if names.contains(x) {
                let k = choose|k: int| 0 <= k < names.len() && names[k] == x;
                if k < prev.len() {
                    assert(prev[k] == x);
                }
            }
            if prev.contains(x) {
                let k = choose|k: int| 0 <= k < prev.len() && prev[k] == x;
                assert(names[k] == x);
            }
            if has_mp4_extension(names.last()) {
                let m = mp4_files(prev);
                assert(mp4_files(names) == m.push(names.last()));
                if m.push(names.last()).contains(x) {
                    let k = choose|k: int| 0 <= k < m.len() + 1 && m.push(names.last())[k] == x;
                    if k < m.len() {
                        assert(m[k] == x);
                    }
                }
                if m.contains(x) {
                    let k = choose|k: int| 0 <= k < m.len() && m[k] == x;
                    assert(m.push(names.last())[k] == x);
                }
                assert(m.push(names.last())[m.len() as int] == names.last());
            } else {
                assert(mp4_files(names) == mp4_files(prev));
            }
        }
    }
}

/// The names of a directory's entries whose extension is `mp4`, in listing order.
pub fn mp4_files_of(names: &Vec<String>) -> (r: Vec<String>)
    ensures
        texts_of(r@) == mp4_files(texts_of(names@)),
{
    let ghost t = texts_of(names@);
    let mut r: Vec<String> = Vec::new();
    let n = names.len();
    for i in 0..n
        invariant
            n == names@.len(),
            t == texts_of(names@),
            texts_of(r@) == mp4_files(t.take(i as int)),
    {
        assert(t.take(i + 1).drop_last() =~= t.take(i as int));
        assert(t.take(i + 1).last() == names@[i as int]@);
        if is_mp4_file(names[i].as_str()) {
            let ghost before = r@;
            r.push(names[i].clone());
            assert(texts_of(r@) =~= texts_of(before).push(names@[i as int]@));
        }
    }
    assert(t.take(n as int) =~= t);
    r
}

/// Each name with `dir` in front of it.
pub open spec fn paths_in(dir: Seq<char>, names: Seq<Seq<char>>) -> Seq<Seq<char>> {
    names.map_values(|n: Seq<char>| dir + n)
}

/// The paths of `names` in the directory `dir` (`Path::new(dir).join(name)` for a `dir` that
/// ends with a separator).
pub fn paths_of(dir: &str, names: &Vec<String>) -> (r: Vec<String>)
    ensures
        texts_of(r@) == paths_in(dir@, texts_of(names@)),
{
    let mut r: Vec<String> = Vec::new();
    let n = names.len();
    for i in 0..n
        invariant
            n == names@.len(),
            texts_of(r@) == paths_in(dir@, texts_of(names@)).take(i as int),
    {
        let ghost before = r@;
        let mut p = dir.to_owned();
        append_str(&mut p, names[i].as_str());
        proof {
            lemma_texts_of_push(before, p);
        }
        r.push(p);
        assert(texts_of(r@) =~= paths_in(dir@, texts_of(names@)).take(i + 1));
    }
    assert(paths_in(dir@, texts_of(names@)).take(n as int) =~= paths_in(dir@, texts_of(names@)));
    r
}

/// A join of videos: the inputs in order and the file to write.
pub struct MergeJob {
    pub inputs: Vec<String>,
    pub output: String,
}

/// The join of the lesson videos in `dir` (the `merge` tool): the paths of its `.mp4` files
/// sorted as text, into `combined_video.mp4` in the same directory; `None` when there is
/// no video to join.
pub fn plan_merge(dir: &str, names: &Vec<String>) -> (job: Option<MergeJob>)
    ensures
        job is None <==> mp4_files(texts_of(names@)).len() == 0,
        job matches Some(j) ==> is_text_sorting(
            paths_in(dir@, mp4_files(texts_of(names@))),
            texts_of(j.inputs@),
        ) && j.output@ == dir@ + "combined_video.mp4"@,
{
    let files = mp4_files_of(names);
    if files.len() == 0 {
        return None;
    }
    let paths = paths_of(dir, &files);
    let inputs = sort_texts(&paths);
    let mut output = dir.to_owned();
    append_str(&mut output, "combined_video.mp4");
    Some(MergeJob { inputs, output })
}

/// The leading numbers of names.
pub open spec fn leading_numbers(names: Seq<Seq<char>>) -> Seq<usize> {
    names.map_values(|n: Seq<char>| leading_number_of(n))
}

/// `sorted` holds `names` as a stable sort by leading number arranges them.
pub open spec fn is_number_sorting(names: Seq<Seq<char>>, sorted: Seq<Seq<char>>) -> bool {
    exists|order: Seq<usize>|
        is_stable_number_order(leading_numbers(names), order) && sorted == arranged(names, order)
}

/// `names` stably sorted by the number each begins with, names without one counting as 0
/// (the `sort_by` of the joining tools).
pub fn sort_by_leading_number(names: &Vec<String>) -> (sorted: Vec<String>)
    ensures
        is_number_sorting(texts_of(names@), texts_of(sorted@)),
{
    let mut keys: Vec<usize> = Vec::new();
    let n = names.len();
    for i in 0..n
        invariant
            n == names@.len(),
            keys@ == leading_numbers(texts_of(names@)).take(i as int),
    {
        keys.push(leading_number(names[i].as_str()));
        assert(keys@ =~= leading_numbers(texts_of(names@)).take(i + 1));
    }
    assert(keys@ =~= leading_numbers(texts_of(names@)));
    let order = stable_number_order(&keys);
    let sorted = pick_in_order(names, &order);
    assert(is_stable_number_order(leading_numbers(texts_of(names@)), order@) && texts_of(sorted@)
        == arranged(texts_of(names@), order@));
    sorted
}

/// The join of all videos at once: the `.mp4` files of `dir` by leading number, each copied or
/// re-encoded into `reencoded_{name}`, and those joined through a concat list.
pub struct CombineAllPlan {
    /// Paths of the videos, in joining order.
    pub inputs: Vec<String>,
    /// Name of each input's re-encoded copy, in the same order.
    pub reencoded: Vec<String>,
    /// The concat list file and its text.
    pub list_file: String,
    pub list_text: String,
    /// The joined video.
    pub output: String,
}

/// The plan of the join of all videos of the directory `dir` holding the entries `names`.
pub fn plan_combine_all(dir: &str, names: &Vec<String>) -> (plan: CombineAllPlan)
    ensures
        exists|sorted: Seq<Seq<char>>|
            #![trigger is_number_sorting(mp4_files(texts_of(names@)), sorted)]
            is_number_sorting(mp4_files(texts_of(names@)), sorted) && texts_of(plan.inputs@)
                == paths_in(dir@, sorted) && texts_of(plan.reencoded@) == sorted.map_values(
                |n: Seq<char>| reencoded(n),
            ),
        plan.list_text@ == concat_list(texts_of(plan.reencoded@)),
        plan.list_file@ == "concat_list.txt"@,
        plan.output@ == "combined_video.mp4"@,
{
    let files = mp4_files_of(names);
    let sorted = sort_by_leading_number(&files);
    let inputs = paths_of(dir, &sorted);
    let mut reenc: Vec<String> = Vec::new();
    let n = sorted.len();
    for i in 0..n
        invariant
            n == sorted@.len(),
            texts_of(reenc@) == texts_of(sorted@).map_values(|n: Seq<char>| reencoded(n)).take(
                i as int,
            ),
    {
        let ghost before = reenc@;
        let name = reencoded_name(sorted[i].as_str());
        proof {
            lemma_texts_of_push(before, name);
        }
        reenc.push(name);
        assert(texts_of(reenc@) =~= texts_of(sorted@).map_values(|n: Seq<char>| reencoded(n)).take(
            i + 1,
        ));
    }
    assert(texts_of(sorted@).map_values(|n: Seq<char>| reencoded(n)).take(n as int)
        =~= texts_of(sorted@).map_values(|n: Seq<char>| reencoded(n)));
    let list_text = concat_list_text(&reenc);
    let plan = CombineAllPlan {
        inputs,
        reencoded: reenc,
        list_file: "concat_list.txt".to_owned(),
        list_text,
        output: "combined_video.mp4".to_owned(),
    };
    assert(is_number_sorting(mp4_files(texts_of(names@)), texts_of(sorted@)));
    plan
}

/// `{prefix}{i}.mp4`.
pub open spec fn indexed_mp4(prefix: Seq<char>, i: nat) -> Seq<char> {
    prefix + decimal(i) + ".mp4"@
}

fn indexed_mp4_name(prefix: &str, i: usize) -> (r: String)
    ensures
        r@ == indexed_mp4(prefix@, i as nat),
{
    let mut r = prefix.to_owned();
    push_padded_decimal(&mut r, i as u64, 0);
    append_str(&mut r, ".mp4");
    r
}

/// One step of the random join: two neighbouring videos, their re-encoded copies, the
/// concat list that joins those, and the joined video.
pub struct PairPlan {
    pub index: usize,
    pub first: String,
    pub second: String,
    pub first_reencoded: String,
    pub second_reencoded: String,
    pub list_file: String,
    pub list_text: String,
    pub output: String,
}

/// `plan` joins the videos at `index` and `index + 1` of `files`.
pub open spec fn is_pair_plan(files: Seq<Seq<char>>, index: int, plan: PairPlan) -> bool {
    &&& plan.index == index
    &&& plan.first@ == files[index]
    &&& plan.second@ == files[index + 1]
    &&& plan.first_reencoded@ == indexed_mp4("reencoded_"@, index as nat)
    &&& plan.second_reencoded@ == indexed_mp4("reencoded_"@, (index + 1) as nat)
    &&& plan.list_file@ == "concat_list.txt"@
    &&& plan.list_text@ == concat_list(seq![plan.first_reencoded@, plan.second_reencoded@])
    &&& plan.output@ == indexed_mp4("combined_"@, index as nat)
}

/// The step that joins the videos at `index` and `index + 1`: they are re-encoded into
/// `reencoded_{index}.mp4` and `reencoded_{index + 1}.mp4`, which are joined into
/// `combined_{index}.mp4`.
pub fn plan_pair(files: &Vec<String>, index: usize) -> (plan: PairPlan)
    requires
        index + 1 < files@.len(),
    ensures
        is_pair_plan(texts_of(files@), index as int, plan),
{
    let n = files.len();
    assert(index + 1 < n);
    let first_reencoded = indexed_mp4_name("reencoded_", index);
    let second_reencoded = indexed_mp4_name("reencoded_", index + 1);
    let pair = vec![first_reencoded.clone(), second_reencoded.clone()];
    let list_text = concat_list_text(&pair);
    assert(texts_of(pair@) =~= seq![first_reencoded@, second_reencoded@]);
    PairPlan {
        index,
        first: files[index].clone(),
        second: files[index + 1].clone(),
        first_reencoded,
        second_reencoded,
        list_file: "concat_list.txt".to_owned(),
        list_text,
        output: indexed_mp4_name("combined_", index),
    }
}

/// Picks a number below `bound` at random (`rand::thread_rng().gen_range(0..bound)`, which
/// panics on an empty range). Which number comes back is left to chance.
#[verifier::external_body]
fn random_below(bound: usize) -> (r: usize)
    requires
        bound > 0,
    ensures
        r < bound,
{
    rand::thread_rng().gen_range(0..bound)
}

/// What the random join does next.
pub enum RandomStep {
    /// A single video is left: the join is done.
    Finished(String),
    /// Join a pair of neighbouring videos.
    Combine(PairPlan),
}

/// The `.mp4` files of `dir` by leading number.
pub open spec fn files_by_number(dir: Seq<char>, names: Seq<Seq<char>>, files: Seq<Seq<char>>) -> bool {
    exists|sorted: Seq<Seq<char>>|
        #![trigger is_number_sorting(mp4_files(names), sorted)]
        is_number_sorting(mp4_files(names), sorted) && files == paths_in(dir, sorted)
}

/// The paths of the `.mp4` files of `dir`, stably sorted by the number their names begin with
/// (the listing and `sort_by` of the joining tools).
pub fn videos_by_number(dir: &str, names: &Vec<String>) -> (files: Vec<String>)
    ensures
        files_by_number(dir@, texts_of(names@), texts_of(files@)),
{
    let mp4 = mp4_files_of(names);
    let sorted = sort_by_leading_number(&mp4);
    let files = paths_of(dir, &sorted);
    assert(is_number_sorting(mp4_files(texts_of(names@)), texts_of(sorted@)));
    files
}

/// The next step of the random join (one round of the `combine-pairs` tool) on the videos
/// `files` in order: with one left the join is finished, else a pair of neighbours chosen at
/// random is joined. There must be at least one video: with none there is no step to take.
pub fn random_step(files: &Vec<String>) -> (step: RandomStep)
    requires
        files@.len() >= 1,
    ensures
        match step {
            RandomStep::Finished(last) => files@.len() == 1 && last@ == files@[0]@,
            RandomStep::Combine(plan) => files@.len() > 1 && plan.index + 1 < files@.len()
                && is_pair_plan(texts_of(files@), plan.index as int, plan),
        },
{
    if files.len() == 1 {
        RandomStep::Finished(files[0].clone())
    } else {
        let index = random_below(files.len() - 1);
        RandomStep::Combine(plan_pair(files, index))
    }
}

/// A change to the directory.
pub enum FileAction {
    Rename { from: String, to: String },
    Remove { path: String },
}

/// `a` renames `from` to `to`.
pub open spec fn renames(a: FileAction, from: Seq<char>, to: Seq<char>) -> bool {
    a matches FileAction::Rename { from: f, to: t } && f@ == from && t@ == to
}

/// `a` removes `path`.
pub open spec fn removes(a: FileAction, path: Seq<char>) -> bool {
    a matches FileAction::Remove { path: p } && p@ == path
}

/// What follows a join attempt, in order: when ffmpeg joined the pair, the joined video takes
/// the place of the first video and the second is removed; in any case the concat list and
/// both re-encoded copies are removed.
pub fn finish_pair(plan: &PairPlan, joined: bool) -> (actions: Vec<FileAction>)
    ensures
        actions@.len() == if joined { 5nat } else { 3nat },
        joined ==> renames(actions@[0], plan.output@, plan.first@),
        joined ==> removes(actions@[1], plan.second@),
        removes(actions@[actions@.len() - 3], plan.list_file@),
        removes(actions@[actions@.len() - 2], plan.first_reencoded@),
        removes(actions@[actions@.len() - 1], plan.second_reencoded@),
{
    let mut actions: Vec<FileAction> = Vec::new();
    if joined {
        actions.push(FileAction::Rename { from: plan.output.clone(), to: plan.first.clone() });
        actions.push(FileAction::Remove { path: plan.second.clone() });
    }
    actions.push(FileAction::Remove { path: plan.list_file.clone() });
    actions.push(FileAction::Remove { path: plan.first_reencoded.clone() });
    actions.push(FileAction::Remove { path: plan.second_reencoded.clone() });
    actions
}

} // verus!
