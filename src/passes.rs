//! One pass over the corpus: each line is scanned on its own, and the lines
//! are spread over a pool of worker threads.

use crate::classify::Classifier;
use crate::scan::{lemma_windows_are_valid_runs, views_of, windows, windows_of};
use crate::select::{votes, votes_of};
use crate::table::{Table, nested_views, table_of};
use rayon::iter::IntoParallelRefIterator;
use rayon::iter::ParallelIterator;
use vstd::prelude::*;

verus! {

/// What one pass reads of each line. Without a base table the pass yields
/// every window of `word_len` characters; with one it yields the winners of
/// the windows of `2 * word_len - 1` characters that cast a vote.
pub struct Pass {
    pub classifier: Classifier,
    pub word_len: usize,
    pub threshold: usize,
    pub base: Option<Table>,
}

/// The n-grams one line contributes to a pass.
pub open spec fn line_yield(
    extra: Set<char>,
    word_len: nat,
    threshold: nat,
    base: Option<Map<Seq<char>, nat>>,
    line: Seq<char>,
) -> Seq<Seq<char>> {
    match base {
        None => windows(extra, line, word_len),
        Some(m) => votes(m, word_len, threshold, windows(extra, line, (2 * word_len - 1) as nat)),
    }
}

impl Pass {
    pub open spec fn wf(&self) -> bool {
        &&& self.word_len >= 1
        &&& 2 * self.word_len - 1 <= usize::MAX
    }

    pub open spec fn base_counts(&self) -> Option<Map<Seq<char>, nat>> {
        match self.base {
            None => None,
            Some(b) => Some(table_of(b)),
        }
    }

    pub open spec fn yield_of(&self, line: Seq<char>) -> Seq<Seq<char>> {
        line_yield(self.classifier@, self.word_len as nat, self.threshold as nat, self.base_counts(), line)
    }

    /// The n-grams that `line` contributes to this pass.
    pub fn scan_line(&self, line: &Vec<char>) -> (r: Vec<Vec<char>>)
        requires
            self.wf(),
        ensures
            views_of(r@) == self.yield_of(line@),
    {
        match &self.base {
            None => windows_of(&self.classifier, line, self.word_len),
            Some(base) => {
                let w = self.word_len + (self.word_len - 1);
                let ws = windows_of(&self.classifier, line, w);
                proof {
                    lemma_windows_are_valid_runs(self.classifier@, line@, w as nat);
                    assert forall|i: int| 0 <= i < ws.len() implies #[trigger] ws[i].len() + 1 == 2 * self.word_len by {
                        assert(views_of(ws@)[i] == ws[i]@);
                    }
                }
                votes_of(base, &ws, self.word_len, self.threshold)
            },
        }
    }
}

/// Relies on rayon's `par_iter().map().collect()` into a `Vec`: one result
/// per line, in line order, each the result of `Pass::scan_line` on it.
#[verifier::external_body]
fn scan_lines(pass: &Pass, lines: &Vec<Vec<char>>) -> (r: Vec<Vec<Vec<char>>>)
    requires
        pass.wf(),
    ensures
        r.len() == lines.len(),
        forall|i: int| 0 <= i < lines.len() ==> views_of(#[trigger] r[i]@) == pass.yield_of(lines[i]@),
{
    lines.par_iter().map(|line| pass.scan_line(line)).collect()
}

pub open spec fn line_views(lines: Seq<Vec<char>>) -> Seq<Seq<char>> {
    lines.map_values(|l: Vec<char>| l@)
}

/// What each of the lines contributes to the pass, line by line.
pub open spec fn pass_yields(pass: Pass, lines: Seq<Seq<char>>) -> Seq<Seq<Seq<char>>> {
    lines.map_values(|l: Seq<char>| pass.yield_of(l))
}

/// Runs a pass over every line.
pub fn run_pass(pass: &Pass, lines: &Vec<Vec<char>>) -> (r: Vec<Vec<Vec<char>>>)
    requires
        pass.wf(),
    ensures
        nested_views(r@) == pass_yields(*pass, line_views(lines@)),
{
    let r = scan_lines(pass, lines);
    assert(nested_views(r@) =~= pass_yields(*pass, line_views(lines@)));
    r
}

} // verus!
