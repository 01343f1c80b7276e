//! Edge lists as text: one edge per line, written as two labels separated
//! by white space.

use vstd::prelude::*;
use vstd::string::StrSliceExecFns;
use crate::graph::{labels_of, with_edge, with_source, Adjacency, Graph, Label};

verus! {

/// White space: the characters that separate labels on a line.
pub open spec fn is_blank(c: char) -> bool {
    let u = c as u32;
    ||| 0x09 <= u <= 0x0D
    ||| u == 0x20
    ||| u == 0x85
    ||| u == 0xA0
    ||| u == 0x1680
    ||| 0x2000 <= u <= 0x200A
    ||| u == 0x2028
    ||| u == 0x2029
    ||| u == 0x202F
    ||| u == 0x205F
    ||| u == 0x3000
}

/// The length of the run of characters other than white space with which
/// `s` begins.
pub open spec fn word_len(s: Seq<char>) -> nat
    decreases s.len(),
{
    if s.len() == 0 || is_blank(s[0]) {
        0
    } else {
        1 + word_len(s.drop_first())
    }
}

/// The labels on a line: its maximal runs of characters other than white
/// space, from left to right.
pub open spec fn tokens(s: Seq<char>) -> Seq<Label>
    decreases s.len(),
    via tokens_decreases
{
    if s.len() == 0 {
        Seq::empty()
    } else if is_blank(s[0]) {
        tokens(s.drop_first())
    } else {
        seq![s.take(word_len(s) as int)] + tokens(s.skip(word_len(s) as int))
    }
}

/// A word is no longer than the line that it begins, and is not empty where
/// the line begins with a character other than white space.
pub proof fn lemma_word_len_bounds(s: Seq<char>)
    ensures
        word_len(s) <= s.len(),
        s.len() > 0 && !is_blank(s[0]) ==> word_len(s) > 0,
    decreases s.len(),
{
    if s.len() > 0 && !is_blank(s[0]) {
        lemma_word_len_bounds(s.drop_first());
    }
}

#[via_fn]
proof fn tokens_decreases(s: Seq<char>) {
    lemma_word_len_bounds(s);
}

/// The edge that a line stands for: a line of exactly two labels is the
/// edge from the first to the second, any other line is malformed.
pub open spec fn line_edge(line: Seq<char>) -> Option<(Label, Label)> {
    let t = tokens(line);
    if t.len() == 2 {
        Some((t[0], t[1]))
    } else {
        None
    }
}

/// The adjacency structure that the lines stand for: the edges of the
/// well-formed lines, added from the first line to the last.
pub open spec fn adjacency_from(lines: Seq<Seq<char>>) -> Adjacency
    decreases lines.len(),
{
    if lines.len() == 0 {
        Map::empty()
    } else {
        let before = adjacency_from(lines.drop_last());
        match line_edge(lines.last()) {
            Some((from, to)) => with_edge(before, from, to),
            None => before,
        }
    }
}

/// The sources of the edges that the lines stand for, each once, in the
/// order of their first appearance.
pub open spec fn sources_from(lines: Seq<Seq<char>>) -> Seq<Label>
    decreases lines.len(),
{
    if lines.len() == 0 {
        Seq::empty()
    } else {
        let before = sources_from(lines.drop_last());
        match line_edge(lines.last()) {
            Some((from, to)) => with_source(before, from),
            None => before,
        }
    }
}

/// The positions of the malformed lines, counted from 0, in rising order.
pub open spec fn malformed_in(lines: Seq<Seq<char>>) -> Seq<usize>
    decreases lines.len(),
{
    if lines.len() == 0 {
        Seq::empty()
    } else {
        let before = malformed_in(lines.drop_last());
        if line_edge(lines.last()) is None {
            before.push((lines.len() - 1) as usize)
        } else {
            before
        }
    }
}

/// Whether `c` is white space.
pub fn is_blank_char(c: char) -> (blank: bool)
    ensures
        blank == is_blank(c),
{
    let u: u32 = c as u32;
    (0x09 <= u && u <= 0x0D) || u == 0x20 || u == 0x85 || u == 0xA0 || u == 0x1680 || (0x2000 <= u
        && u <= 0x200A) || u == 0x2028 || u == 0x2029 || u == 0x202F || u == 0x205F || u == 0x3000
}

/// A run of `m` characters other than white space, ended by white space
/// or by the end of the line, is the word with which the line begins.
proof fn lemma_word_len(s: Seq<char>, m: int)
    requires
        0 <= m <= s.len(),
        forall|k: int| 0 <= k < m ==> !is_blank(#[trigger] s[k]),
        m == s.len() || is_blank(s[m]),
    ensures
        word_len(s) == m,
    decreases m,
{
    if m > 0 {
        let rest = s.drop_first();
        assert forall|k: int| 0 <= k < m - 1 implies !is_blank(#[trigger] rest[k]) by {
            assert(rest[k] == s[k + 1]);
        }
        lemma_word_len(rest, m - 1);
    }
}

/// The labels on a line, in order.
pub fn split_tokens(line: &str) -> (out: Vec<String>)
    ensures
        labels_of(out@) == tokens(line@),
{
    let n = line.unicode_len();
    let mut out: Vec<String> = Vec::new();
    let mut i: usize = 0;
    assert(line@.skip(0) =~= line@);
    assert(labels_of(out@) + tokens(line@.skip(0)) =~= tokens(line@));
    while i < n
        invariant
            n == line@.len(),
            i <= n,
            labels_of(out@) + tokens(line@.skip(i as int)) == tokens(line@),
        decreases n - i,
    {
        let ghost rest = line@.skip(i as int);
        let ghost found = labels_of(out@);
        if is_blank_char(line.get_char(i)) {
            assert(rest.drop_first() =~= line@.skip(i + 1));
            i += 1;
        } else {
            let first = i;
            while i < n && !is_blank_char(line.get_char(i))
                invariant
                    n == line@.len(),
                    first <= i <= n,
                    forall|k: int| first <= k < i ==> !is_blank(#[trigger] line@[k]),
                decreases n - i,
            {
                i += 1;
            }
            let word = line.substring_char(first, i).to_owned();
            proof {
                let m = i - first;
                assert forall|k: int| 0 <= k < m implies !is_blank(#[trigger] rest[k]) by {
                    assert(rest[k] == line@[first + k]);
                }
                lemma_word_len(rest, m);
                assert(rest.take(m) =~= line@.subrange(first as int, i as int));
                assert(rest.skip(m) =~= line@.skip(i as int));
                assert(tokens(rest) == seq![word@] + tokens(line@.skip(i as int)));
            }
            out.push(word);
            assert(labels_of(out@) =~= found.push(word@));
            assert(found.push(word@) + tokens(line@.skip(i as int)) =~= found + (seq![word@]
                + tokens(line@.skip(i as int))));
        }
    }
    assert(line@.skip(i as int) =~= Seq::<char>::empty());
    assert(labels_of(out@) + Seq::<Label>::empty() =~= labels_of(out@));
    out
}

/// Reads one line as an edge. A line with exactly two labels is the edge
/// from the first to the second; any other line gives `None`.
pub fn parse_edge(line: &str) -> (edge: Option<(String, String)>)
    ensures
        match edge {
            Some((from, to)) => line_edge(line@) == Some((from@, to@)),
            None => line_edge(line@) is None,
        },
{
    let mut found = split_tokens(line);
    if found.len() != 2 {
        return None;
    }
    let ghost labels = labels_of(found@);
    assert(labels[0] == found@[0]@ && labels[1] == found@[1]@);
    let to = found.pop().unwrap();
    let from = found.pop().unwrap();
    Some((from, to))
}

/// What reading a list of lines gives: the graph, and the positions of the
/// lines that were skipped as malformed.
pub struct Loaded {
    pub graph: Graph,
    pub skipped: Vec<usize>,
}

/// `loaded` is what reading `lines` gives: the graph of their well-formed
/// lines, with its sources in the order of their first appearance, and the
/// positions of the malformed ones.
pub open spec fn is_loaded_from(loaded: Loaded, lines: Seq<String>) -> bool {
    &&& loaded.graph.wf()
    &&& loaded.graph@ == adjacency_from(labels_of(lines))
    &&& loaded.graph.sources() == sources_from(labels_of(lines))
    &&& loaded.skipped@ == malformed_in(labels_of(lines))
}

/// Reading the same text twice gives the same adjacency structure: the
/// same sources in the same order, each with the same neighbours in the
/// same order, and the same lines skipped.
pub proof fn lemma_reload_identical(
    first_lines: Seq<String>,
    second_lines: Seq<String>,
    first: Loaded,
    second: Loaded,
)
    requires
        labels_of(first_lines) == labels_of(second_lines),
        is_loaded_from(first, first_lines),
        is_loaded_from(second, second_lines),
    ensures
        first.graph@ == second.graph@,
        first.graph.sources() == second.graph.sources(),
        first.skipped@ == second.skipped@,
{
}

/// Builds a graph from the lines of an edge list. Each well-formed line
/// adds its edge; a malformed line is skipped and its position recorded,
/// and reading goes on with the line after it.
pub fn graph_from_lines(lines: &Vec<String>) -> (loaded: Loaded)
    ensures
        is_loaded_from(loaded, lines@),
{
    let mut graph = Graph::new();
    let mut skipped: Vec<usize> = Vec::new();
    let ghost all = labels_of(lines@);
    let mut i: usize = 0;
    assert(all.take(0) =~= Seq::<Seq<char>>::empty());
    while i < lines.len()
        invariant
            i <= lines.len(),
            all == labels_of(lines@),
            graph.wf(),
            graph@ == adjacency_from(all.take(i as int)),
            graph.sources() == sources_from(all.take(i as int)),
            skipped@ == malformed_in(all.take(i as int)),
        decreases lines.len() - i,
    {
        proof {
            let upto = all.take(i + 1);
            assert(upto.drop_last() =~= all.take(i as int));
            assert(upto.last() == lines@[i as int]@);
        }
        match parse_edge(lines[i].as_str()) {
            Some((from, to)) => {
                graph.add_edge(from, to);
            },
            None => {
                skipped.push(i);
            },
        }
        i += 1;
    }
    assert(all.take(i as int) =~= all);
    Loaded { graph, skipped }
}

} // verus!
