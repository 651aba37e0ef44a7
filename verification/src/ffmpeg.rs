//! What the tools ask of ffmpeg: the command-line arguments of each run, and how a probe's
//! error output is read.

use vstd::prelude::*;
use crate::order::texts_of;
use crate::text::{append_str, chars_of};

verus! {

fn arg(s: &str) -> (r: String)
    ensures
        r@ == s@,
{
    s.to_owned()
}

/// Arguments that decode a video and throw the frames away (`ffmpeg -i {file} -f null -`),
/// so that ffmpeg reports what is wrong with the file.
pub fn probe_args(file: &str) -> (args: Vec<String>)
    ensures
        texts_of(args@) == seq!["-i"@, file@, "-f"@, "null"@, "-"@],
{
    let args = vec![arg("-i"), arg(file), arg("-f"), arg("null"), arg("-")];
    assert(texts_of(args@) =~= seq!["-i"@, file@, "-f"@, "null"@, "-"@]);
    args
}

/// Arguments that re-encode a video with x264 at quality 23, preset `veryfast`.
pub fn reencode_args(input: &str, output: &str) -> (args: Vec<String>)
    ensures
        texts_of(args@) == seq![
            "-i"@,
            input@,
            "-c:v"@,
            "libx264"@,
            "-crf"@,
            "23"@,
            "-preset"@,
            "veryfast"@,
            output@,
        ],
{
    let args = vec![
        arg("-i"),
        arg(input),
        arg("-c:v"),
        arg("libx264"),
        arg("-crf"),
        arg("23"),
        arg("-preset"),
        arg("veryfast"),
        arg(output),
    ];
    assert(texts_of(args@) =~= seq![
        "-i"@,
        input@,
        "-c:v"@,
        "libx264"@,
        "-crf"@,
        "23"@,
        "-preset"@,
        "veryfast"@,
        output@,
    ]);
    args
}

/// Arguments that re-encode a video to 30 frames per second, x264 at quality 23 with preset
/// `fast`, and AAC audio at 192 kb/s.
pub fn reencode_30fps_args(input: &str, output: &str) -> (args: Vec<String>)
    ensures
        texts_of(args@) == seq![
            "-i"@,
            input@,
            "-vf"@,
            "fps=30"@,
            "-c:v"@,
            "libx264"@,
            "-crf"@,
            "23"@,
            "-preset"@,
            "fast"@,
            "-c:a"@,
            "aac"@,
            "-b:a"@,
            "192k"@,
            output@,
        ],
{
    let args = vec![
        arg("-i"),
        arg(input),
        arg("-vf"),
        arg("fps=30"),
        arg("-c:v"),
        arg("libx264"),
        arg("-crf"),
        arg("23"),
        arg("-preset"),
        arg("fast"),
        arg("-c:a"),
        arg("aac"),
        arg("-b:a"),
        arg("192k"),
        arg(output),
    ];
    assert(texts_of(args@) =~= seq![
        "-i"@,
        input@,
        "-vf"@,
        "fps=30"@,
        "-c:v"@,
        "libx264"@,
        "-crf"@,
        "23"@,
        "-preset"@,
        "fast"@,
        "-c:a"@,
        "aac"@,
        "-b:a"@,
        "192k"@,
        output@,
    ]);
    args
}

/// Arguments that join the videos of a concat list without re-encoding them.
pub fn concat_copy_args(list: &str, output: &str) -> (args: Vec<String>)
    ensures
        texts_of(args@) == seq![
            "-f"@,
            "concat"@,
            "-safe"@,
            "0"@,
            "-i"@,
            list@,
            "-c"@,
            "copy"@,
            output@,
        ],
{
    let args = vec![
        arg("-f"),
        arg("concat"),
        arg("-safe"),
        arg("0"),
        arg("-i"),
        arg(list),
        arg("-c"),
        arg("copy"),
        arg(output),
    ];
    assert(texts_of(args@) =~= seq![
        "-f"@,
        "concat"@,
        "-safe"@,
        "0"@,
        "-i"@,
        list@,
        "-c"@,
        "copy"@,
        output@,
    ]);
    args
}

/// Arguments that join the videos of a concat list and re-encode the result: x264 at
/// quality 23 with preset `fast`, AAC audio at 192 kb/s.
pub fn concat_reencode_args(list: &str, output: &str) -> (args: Vec<String>)
    ensures
        texts_of(args@) == seq![
            "-f"@,
            "concat"@,
            "-safe"@,
            "0"@,
            "-i"@,
            list@,
            "-c:v"@,
            "libx264"@,
            "-crf"@,
            "23"@,
            "-preset"@,
            "fast"@,
            "-c:a"@,
            "aac"@,
            "-b:a"@,
            "192k"@,
            output@,
        ],
{
    let args = vec![
        arg("-f"),
        arg("concat"),
        arg("-safe"),
        arg("0"),
        arg("-i"),
        arg(list),
        arg("-c:v"),
        arg("libx264"),
        arg("-crf"),
        arg("23"),
        arg("-preset"),
        arg("fast"),
        arg("-c:a"),
        arg("aac"),
        arg("-b:a"),
        arg("192k"),
        arg(output),
    ];
    assert(texts_of(args@) =~= seq![
        "-f"@,
        "concat"@,
        "-safe"@,
        "0"@,
        "-i"@,
        list@,
        "-c:v"@,
        "libx264"@,
        "-crf"@,
        "23"@,
        "-preset"@,
        "fast"@,
        "-c:a"@,
        "aac"@,
        "-b:a"@,
        "192k"@,
        output@,
    ]);
    args
}

/// The file a video is re-encoded into before it replaces the original:
/// `{input}.tmp.mp4`.
pub fn temporary_output(input: &str) -> (r: String)
    ensures
        r@ == input@ + ".tmp.mp4"@,
{
    let mut r = arg(input);
    append_str(&mut r, ".tmp.mp4");
    r
}

/// `needle` occurs in `hay`.
pub open spec fn contains_text(hay: Seq<char>, needle: Seq<char>) -> bool {
    exists|i: int| 0 <= i && i + needle.len() <= hay.len() && #[trigger] hay.subrange(i, i + needle.len()) == needle
}

/// Whether `needle` occurs in `hay` (`str::contains`).
pub fn text_contains(hay: &str, needle: &str) -> (b: bool)
    ensures
        b == contains_text(hay@, needle@),
{
    let h = chars_of(hay);
    let nd = chars_of(needle);
    let hl = h.len();
    let nl = nd.len();
    if nl > hl {
        assert forall|i: int| 0 <= i && i + nl <= hl implies #[trigger] hay@.subrange(i, i + nl) != needle@ by {}
        return false;
    }
    let last = hl - nl;
    let mut i: usize = 0;
    while i <= last
        invariant
            hl == h@.len(),
            nl == nd@.len(),
            h@ == hay@,
            nd@ == needle@,
            last == hl - nl,
            forall|k: int| 0 <= k < i ==> #[trigger] hay@.subrange(k, k + nl) != needle@,
        decreases hl - i,
    {
        let mut j: usize = 0;
        while j < nl && h[i + j] == nd[j]
            invariant
                hl == h@.len(),
                nl == nd@.len(),
                i <= last,
                last == hl - nl,
                j <= nl,
                forall|k: int| 0 <= k < j ==> h@[i + k] == nd@[k],
            decreases nl - j,
        {
            j = j + 1;
        }
        if j == nl {
            assert(hay@.subrange(i as int, i + nl) =~= needle@);
            return true;
        }
        assert(hay@.subrange(i as int, i + nl)[j as int] != needle@[j as int]);
        i = i + 1;
    }
    false
}

/// ffmpeg's warning about decoding timestamps that go backwards.
pub open spec fn dts_warning() -> Seq<char> {
    "Non-monotonous DTS"@
}

/// A video needs re-encoding when probing it ran and ffmpeg warned of non-monotonous
/// decoding timestamps; `probe_errors` is
/// the probe's error output, `None` where ffmpeg could not be run.
pub fn needs_reencode(probe_errors: &Option<String>) -> (b: bool)
    ensures
        b == match probe_errors {
            Some(e) => contains_text(e@, dts_warning()),
            None => false,
        },
{
    match probe_errors {
        Some(e) => text_contains(e.as_str(), "Non-monotonous DTS"),
        None => false,
    }
}

} // verus!
