//! The window scanner shared by both passes: every run of `w` consecutive
//! valid characters of a line, in line order.

use crate::classify::{Classifier, is_valid};
use vstd::prelude::*;

verus! {

pub open spec fn all_valid(extra: Set<char>, s: Seq<char>) -> bool {
    forall|i: int| 0 <= i < s.len() ==> is_valid(extra, #[trigger] s[i])
}

/// The complete windows of width `w` that end within the first `k` characters
/// of `line`, in the order of their ends.
pub open spec fn windows_upto(extra: Set<char>, line: Seq<char>, w: nat, k: int) -> Seq<Seq<char>>
    decreases k,
{
    if k <= 0 {
        seq![]
    } else {
        let prev = windows_upto(extra, line, w, k - 1);
        if w <= k && all_valid(extra, line.subrange(k - w, k)) {
            prev.push(line.subrange(k - w, k))
        } else {
            prev
        }
    }
}

/// Every window of width `w` of `line` that holds valid characters only.
pub open spec fn windows(extra: Set<char>, line: Seq<char>, w: nat) -> Seq<Seq<char>> {
    windows_upto(extra, line, w, line.len() as int)
}

/// Length of the run of valid characters that ends just before position `k`.
pub open spec fn run_before(extra: Set<char>, line: Seq<char>, k: int) -> nat
    decreases k,
{
    if k <= 0 {
        0
    } else if is_valid(extra, line[k - 1]) {
        run_before(extra, line, k - 1) + 1
    } else {
        0
    }
}

pub open spec fn views_of(v: Seq<Vec<char>>) -> Seq<Seq<char>> {
    v.map_values(|x: Vec<char>| x@)
}

proof fn lemma_run_decides_window(extra: Set<char>, line: Seq<char>, w: nat, k: int)
    requires
        w <= k <= line.len(),
    ensures
        all_valid(extra, line.subrange(k - w, k)) <==> run_before(extra, line, k) >= w,
    decreases w,
{
    if w > 0 {
        lemma_run_decides_window(extra, line, (w - 1) as nat, k - 1);
        let s = line.subrange(k - w, k);
        let t = line.subrange(k - w, k - 1);
        assert forall|i: int| 0 <= i < t.len() implies t[i] == s[i] by {}
        if all_valid(extra, s) {
            assert(is_valid(extra, s[w - 1]));
            assert forall|i: int| 0 <= i < t.len() implies is_valid(extra, #[trigger] t[i]) by {
                assert(is_valid(extra, s[i]));
            }
        }
        if run_before(extra, line, k) >= w {
            assert forall|i: int| 0 <= i < s.len() implies is_valid(extra, #[trigger] s[i]) by {
                if i < w - 1 {
                    assert(t[i] == s[i]);
                }
            }
        }
    }
}

/// Copies `line[start..end]`.
pub fn copy_range(line: &Vec<char>, start: usize, end: usize) -> (r: Vec<char>)
    requires
        start <= end <= line.len(),
    ensures
        r@ == line@.subrange(start as int, end as int),
{
    let mut r: Vec<char> = Vec::new();
    let mut i: usize = start;
    while i < end
        invariant
            start <= i <= end <= line.len(),
            r@ == line@.subrange(start as int, i as int),
        decreases end - i,
    {
        r.push(line[i]);
        i += 1;
    }
    r
}

/// The windows of width `w` of `line`: a character that the classifier
/// rejects clears the buffer, and a window never spans one.
pub fn windows_of(classifier: &Classifier, line: &Vec<char>, w: usize) -> (r: Vec<Vec<char>>)
    requires
        w >= 1,
    ensures
        views_of(r@) == windows(classifier@, line@, w as nat),
{
    let mut out: Vec<Vec<char>> = Vec::new();
    let mut run: usize = 0;
    let mut k: usize = 0;
    while k < line.len()
        invariant
            k <= line.len(),
            run <= k,
            run == run_before(classifier@, line@, k as int),
            views_of(out@) == windows_upto(classifier@, line@, w as nat, k as int),
        decreases line.len() - k,
    {
        if classifier.valid(line[k]) {
            run += 1;
        } else {
            run = 0;
        }
        k += 1;
        proof {
            if w <= k {
                lemma_run_decides_window(classifier@, line@, w as nat, k as int);
            }
        }
        if run >= w {
            let win = copy_range(line, k - w, k);
            let ghost before = out@;
            out.push(win);
            assert(views_of(out@) == views_of(before).push(win@));
        }
    }
    out
}

/// A window never spans an invalid character: each one is `w` consecutive
/// valid characters of the line.
pub proof fn lemma_windows_are_valid_runs(extra: Set<char>, line: Seq<char>, w: nat)
    ensures
        forall|i: int| 0 <= i < windows(extra, line, w).len() ==> {
            let g = #[trigger] windows(extra, line, w)[i];
            &&& g.len() == w
            &&& all_valid(extra, g)
            &&& exists|s: int| 0 <= s && s + w <= line.len() && g == #[trigger] line.subrange(s, s + w)
        },
{
    lemma_windows_upto_are_valid_runs(extra, line, w, line.len() as int);
}

proof fn lemma_windows_upto_are_valid_runs(extra: Set<char>, line: Seq<char>, w: nat, k: int)
    requires
        k <= line.len(),
    ensures
        forall|i: int| 0 <= i < windows_upto(extra, line, w, k).len() ==> {
            let g = #[trigger] windows_upto(extra, line, w, k)[i];
            &&& g.len() == w
            &&& all_valid(extra, g)
            &&& exists|s: int| 0 <= s && s + w <= k && g == #[trigger] line.subrange(s, s + w)
        },
    decreases k,
{
    if k > 0 {
        lemma_windows_upto_are_valid_runs(extra, line, w, k - 1);
        let prev = windows_upto(extra, line, w, k - 1);
        let cur = windows_upto(extra, line, w, k);
        assert forall|i: int| 0 <= i < cur.len() implies {
            let g = #[trigger] cur[i];
            &&& g.len() == w
            &&& all_valid(extra, g)
            &&& exists|s: int| 0 <= s && s + w <= k && g == #[trigger] line.subrange(s, s + w)
        } by {
            if i < prev.len() {
                assert(cur[i] == prev[i]);
                let g = prev[i];
                let s = choose|s: int| 0 <= s && s + w <= k - 1 && g == #[trigger] line.subrange(s, s + w);
                assert(0 <= s && s + w <= k && g == line.subrange(s, s + w));
            } else {
                let s = k - w;
                assert(cur[i] == line.subrange(s, s + w));
            }
        }
    }
}

/// A run of `n >= w` valid characters yields exactly `n - w + 1` windows.
pub proof fn lemma_window_count(extra: Set<char>, line: Seq<char>, w: nat)
    requires
        w >= 1,
        line.len() >= w,
        all_valid(extra, line),
    ensures
        windows(extra, line, w).len() == line.len() - w + 1,
{
    lemma_window_count_upto(extra, line, w, line.len() as int);
}

proof fn lemma_window_count_upto(extra: Set<char>, line: Seq<char>, w: nat, k: int)
    requires
        w >= 1,
        0 <= k <= line.len(),
        all_valid(extra, line),
    ensures
        windows_upto(extra, line, w, k).len() == if k >= w { k - w + 1 } else { 0 },
    decreases k,
{
    if k > 0 {
        lemma_window_count_upto(extra, line, w, k - 1);
        if w <= k {
            let s = line.subrange(k - w, k);
            assert forall|i: int| 0 <= i < s.len() implies is_valid(extra, #[trigger] s[i]) by {
                assert(s[i] == line[k - w + i]);
            }
        }
    }
}

/// A line yields at most one window per character.
pub proof fn lemma_window_total(extra: Set<char>, line: Seq<char>, w: nat, k: int)
    requires
        0 <= k <= line.len(),
    ensures
        windows_upto(extra, line, w, k).len() <= k,
    decreases k,
{
    if k > 0 {
        lemma_window_total(extra, line, w, k - 1);
    }
}

} // verus!
