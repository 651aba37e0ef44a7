//! The small text files of the tools: the list of inputs for ffmpeg's concat demuxer and
//! the one-name-per-line list of folders.

use vstd::prelude::*;
use crate::order::texts_of;
use crate::text::{append_str, chars_of, first_index_of, lemma_first_index_is, push_char, string_of};

verus! {

/// One line of an ffmpeg concat list: `file '{name}'` and a line break.
pub open spec fn concat_line(name: Seq<char>) -> Seq<char> {
    seq!['f', 'i', 'l', 'e', ' ', '\''] + name + seq!['\'', '\n']
}

/// The concat list of `names`, one line per name in order.
pub open spec fn concat_list(names: Seq<Seq<char>>) -> Seq<char>
    decreases names.len(),
{
    if names.len() == 0 {
        Seq::empty()
    } else {
        concat_list(names.drop_last()) + concat_line(names.last())
    }
}

/// The text of an ffmpeg concat list.
pub fn concat_list_text(names: &Vec<String>) -> (text: String)
    ensures
        text@ == concat_list(texts_of(names@)),
{
    let ghost t = texts_of(names@);
    let mut text = String::new();
    let n = names.len();
    for i in 0..n
        invariant
            n == names@.len(),
            t == texts_of(names@),
            text@ == concat_list(t.take(i as int)),
    {
        let ghost before = text@;
        proof {
            reveal_strlit("file '");
        }
        append_str(&mut text, "file '");
        append_str(&mut text, names[i].as_str());
        push_char(&mut text, '\'');
        push_char(&mut text, '\n');
        assert(t.take(i + 1).drop_last() =~= t.take(i as int));
        assert(text@ =~= before + concat_line(t[i as int]));
    }
    assert(t.take(n as int) =~= t);
    text
}

/// Each of `lines` followed by a line break.
pub open spec fn lines_of(lines: Seq<Seq<char>>) -> Seq<char>
    decreases lines.len(),
{
    if lines.len() == 0 {
        Seq::empty()
    } else {
        lines_of(lines.drop_last()) + lines.last() + seq!['\n']
    }
}

/// The text of a file with one line per item (`writeln!` per item).
pub fn lines_text(lines: &Vec<String>) -> (text: String)
    ensures
        text@ == lines_of(texts_of(lines@)),
{
    let ghost t = texts_of(lines@);
    let mut text = String::new();
    let n = lines.len();
    for i in 0..n
        invariant
            n == lines@.len(),
            t == texts_of(lines@),
            text@ == lines_of(t.take(i as int)),
    {
        let ghost before = text@;
        append_str(&mut text, lines[i].as_str());
        push_char(&mut text, '\n');
        assert(t.take(i + 1).drop_last() =~= t.take(i as int));
        assert(text@ =~= before + t[i as int] + seq!['\n']);
    }
    assert(t.take(n as int) =~= t);
    text
}

/// Reading position of the first line break in `text`, if any.
pub open spec fn first_break(text: Seq<char>) -> Option<int> {
    first_index_of(text, '\n')
}

/// A line read up to a line break, without a carriage return that ended it.
pub open spec fn without_cr(line: Seq<char>) -> Seq<char> {
    if line.len() > 0 && line.last() == '\r' {
        line.drop_last()
    } else {
        line
    }
}

/// The lines of `text` as `BufRead::lines` reads them: split at each line break, a carriage
/// return before the break dropped; a last line without a break is kept as it is, and there
/// is no empty line after a final break.
#[verifier::opaque]
pub open spec fn lines_in(text: Seq<char>) -> Seq<Seq<char>>
    decreases text.len(),
{
    if text.len() == 0 {
        Seq::empty()
    } else {
        match first_break(text) {
            Some(i) => if 0 <= i < text.len() {
                seq![without_cr(text.take(i))] + lines_in(text.skip(i + 1))
            } else {
                Seq::empty()
            },
            None => seq![text],
        }
    }
}

proof fn lemma_lines_in_step(text: Seq<char>, start: int, j: int)
    requires
        0 <= start <= j < text.len(),
        text[j] == '\n',
        forall|k: int| start <= k < j ==> text[k] != '\n',
    ensures
        lines_in(text.skip(start)) == seq![without_cr(text.subrange(start, j))] + lines_in(
            text.skip(j + 1),
        ),
{
    reveal(lines_in);
    let rest = text.skip(start);
    assert forall|k: int| 0 <= k < j - start implies rest[k] != '\n' by {
        assert(rest[k] == text[start + k]);
    }
    assert(rest[j - start] == text[j]);
    lemma_first_index_is(rest, '\n', j - start);
    assert(rest.take(j - start) =~= text.subrange(start, j));
    assert(rest.skip(j - start + 1) =~= text.skip(j + 1));
}

proof fn lemma_lines_in_end(rest: Seq<char>)
    requires
        forall|k: int| 0 <= k < rest.len() ==> rest[k] != '\n',
    ensures
        lines_in(rest) == (if rest.len() == 0 {
            Seq::<Seq<char>>::empty()
        } else {
            seq![rest]
        }),
{
    reveal(lines_in);
    if first_break(rest) is Some {
        let i = choose|i: int| 0 <= i < rest.len() && rest[i] == '\n';
        assert(rest[i] != '\n');
    }
}

/// A line as `BufRead::lines` gives it once its line break is gone: without a final
/// carriage return.
fn line_without_cr(line: &Vec<char>) -> (r: String)
    ensures
        r@ == without_cr(line@),
{
    let mut kept = line.len();
    if kept > 0 && line[kept - 1] == '\r' {
        kept = kept - 1;
    }
    let mut out: Vec<char> = Vec::new();
    for k in 0..kept
        invariant
            kept <= line@.len(),
            out@ == line@.take(k as int),
    {
        out.push(line[k]);
        assert(line@.take(k + 1) =~= line@.take(k as int).push(line@[k as int]));
    }
    assert(out@ =~= without_cr(line@));
    string_of(&out)
}

/// The lines of a text file (`BufRead::lines` on its contents).
pub fn parse_lines(text: &str) -> (lines: Vec<String>)
    ensures
        texts_of(lines@) == lines_in(text@),
{
    let v = chars_of(text);
    let n = v.len();
    let mut lines: Vec<String> = Vec::new();
    let mut start: usize = 0;
    let mut line: Vec<char> = Vec::new();
    let mut j: usize = 0;
    assert(text@.skip(0) =~= text@);
    assert(texts_of(lines@) + lines_in(text@.skip(0)) =~= lines_in(text@));
    while j < n
        invariant
            n == v@.len(),
            v@ == text@,
            start <= j <= n,
            line@ == text@.subrange(start as int, j as int),
            forall|k: int| start <= k < j ==> text@[k] != '\n',
            lines_in(text@) == texts_of(lines@) + lines_in(text@.skip(start as int)),
        decreases n - j,
    {
        if v[j] == '\n' {
            proof {
                lemma_lines_in_step(text@, start as int, j as int);
            }
            let ghost before = lines@;
            lines.push(line_without_cr(&line));
            assert(texts_of(lines@) =~= texts_of(before).push(without_cr(line@)));
            assert(texts_of(lines@) + lines_in(text@.skip(j + 1)) =~= texts_of(before) + (seq![
                without_cr(line@),
            ] + lines_in(text@.skip(j + 1))));
            start = j + 1;
            line = Vec::new();
        } else {
            line.push(v[j]);
            assert(text@.subrange(start as int, j + 1) =~= text@.subrange(start as int, j as int).push(
                v@[j as int],
            ));
        }
        j = j + 1;
    }
    let ghost rest = text@.skip(start as int);
    proof {
        assert forall|k: int| 0 <= k < rest.len() implies rest[k] != '\n' by {
            assert(rest[k] == text@[start + k]);
        }
        lemma_lines_in_end(rest);
    }
    if start < n {
        assert(rest =~= line@);
        let ghost before = lines@;
        lines.push(string_of(&line));
        assert(texts_of(lines@) =~= texts_of(before).push(line@));
    }
    assert(texts_of(lines@) =~= lines_in(text@));
    lines
}

proof fn lemma_lines_of_front(ls: Seq<Seq<char>>)
    requires
        ls.len() > 0,
    ensures
        lines_of(ls) == ls[0] + seq!['\n'] + lines_of(ls.drop_first()),
    decreases ls.len(),
{
    if ls.len() > 1 {
        lemma_lines_of_front(ls.drop_last());
        assert(ls.drop_last().drop_first() =~= ls.drop_first().drop_last());
        assert(ls.drop_first().last() == ls.last());
        assert(ls.drop_last()[0] == ls[0]);
        assert(lines_of(ls) =~= ls[0] + seq!['\n'] + lines_of(ls.drop_first()));
    } else {
        assert(ls.drop_first().len() == 0);
        assert(ls.drop_last().len() == 0);
        assert(lines_of(ls.drop_last()) == Seq::<char>::empty());
        assert(lines_of(ls.drop_first()) == Seq::<char>::empty());
        assert(ls.last() == ls[0]);
        assert(lines_of(ls) =~= ls[0] + seq!['\n'] + lines_of(ls.drop_first()));
    }
}

/// A line that a lines file can carry: no line break in it and no carriage return at its end.
pub open spec fn plain_line(line: Seq<char>) -> bool {
    &&& forall|k: int| 0 <= k < line.len() ==> line[k] != '\n'
    &&& !(line.len() > 0 && line.last() == '\r')
}

/// Reading back a lines file gives the lines that were written, as long as each of them is a
/// plain line.
#[verifier::spinoff_prover]
#[verifier::rlimit(40)]
pub proof fn lemma_lines_round_trip(ls: Seq<Seq<char>>)
    requires
        forall|i: int| 0 <= i < ls.len() ==> plain_line(#[trigger] ls[i]),
    ensures
        lines_in(lines_of(ls)) == ls,
    decreases ls.len(),
{
    reveal(lines_in);
    if ls.len() == 0 {
        assert(lines_of(ls).len() == 0);
        assert(lines_in(lines_of(ls)) =~= ls);
    } else {
        lemma_lines_of_front(ls);
        let text = lines_of(ls);
        let l0 = ls[0];
        assert(plain_line(l0));
        assert(text[l0.len() as int] == '\n');
        assert forall|j: int| 0 <= j < l0.len() implies text[j] != '\n' by {
            assert(text[j] == l0[j]);
        }
        lemma_first_index_is(text, '\n', l0.len() as int);
        assert(text.take(l0.len() as int) =~= l0);
        assert(text.skip(l0.len() as int + 1) =~= lines_of(ls.drop_first()));
        assert forall|i: int| 0 <= i < ls.drop_first().len() implies plain_line(
            #[trigger] ls.drop_first()[i],
        ) by {
            assert(ls.drop_first()[i] == ls[i + 1]);
        }
        lemma_lines_round_trip(ls.drop_first());
        assert(seq![l0] + ls.drop_first() =~= ls);
    }
}

} // verus!
