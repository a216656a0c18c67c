//! The local-maximum selector: in each window of `2L - 1` characters, the
//! length-`L` substring with the highest first-pass count wins the window.

use crate::scan::{copy_range, views_of};
use crate::table::{Table, above, table_get, table_of};
use vstd::prelude::*;

verus! {

/// The first-pass count of `s`; an n-gram the table does not hold counts zero.
pub open spec fn freq(m: Map<Seq<char>, nat>, s: Seq<char>) -> nat {
    if m.contains_key(s) {
        m[s]
    } else {
        0
    }
}

/// The length-`len` substring of `win` that starts at offset `o`.
pub open spec fn candidate(win: Seq<char>, len: nat, o: int) -> Seq<char> {
    win.subrange(o, o + len)
}

/// The offset, among the first `n`, of the candidate with the greatest count;
/// on equal counts the leftmost one.
pub open spec fn lead_among(m: Map<Seq<char>, nat>, win: Seq<char>, len: nat, n: int) -> int
    decreases n,
{
    if n <= 1 {
        0
    } else {
        let b = lead_among(m, win, len, n - 1);
        if freq(m, candidate(win, len, n - 1)) > freq(m, candidate(win, len, b)) {
            n - 1
        } else {
            b
        }
    }
}

/// The candidate that wins the window `win`.
pub open spec fn winner(m: Map<Seq<char>, nat>, win: Seq<char>, len: nat) -> Seq<char> {
    candidate(win, len, lead_among(m, win, len, len as int))
}

/// The winners of the windows `ws` whose count exceeds `t`, in window order.
pub open spec fn votes(m: Map<Seq<char>, nat>, len: nat, t: nat, ws: Seq<Seq<char>>) -> Seq<Seq<char>>
    decreases ws.len(),
{
    if ws.len() == 0 {
        seq![]
    } else {
        let prev = votes(m, len, t, ws.drop_last());
        let c = winner(m, ws.last(), len);
        if freq(m, c) > t {
            prev.push(c)
        } else {
            prev
        }
    }
}

/// The count of `key` in the table, zero where it holds none.
pub fn lookup(base: &Table, key: &Vec<char>) -> (r: usize)
    ensures
        r == freq(table_of(*base), key@),
{
    match table_get(base, key) {
        Some(c) => c,
        None => 0,
    }
}

/// The winning candidate of one window, with its count.
pub fn select_winner(base: &Table, win: &Vec<char>, len: usize) -> (r: (Vec<char>, usize))
    requires
        len >= 1,
        win.len() + 1 == 2 * len,
    ensures
        r.0@ == winner(table_of(*base), win@, len as nat),
        r.1 == freq(table_of(*base), r.0@),
{
    let ghost m = table_of(*base);
    let mut best = copy_range(win, 0, len);
    let mut best_freq = lookup(base, &best);
    let mut o: usize = 1;
    while o < len
        invariant
            1 <= o <= len,
            win.len() + 1 == 2 * len,
            m == table_of(*base),
            best@ == candidate(win@, len as nat, lead_among(m, win@, len as nat, o as int)),
            best_freq == freq(m, best@),
        decreases len - o,
    {
        let cand = copy_range(win, o, o + len);
        let f = lookup(base, &cand);
        if f > best_freq {
            best = cand;
            best_freq = f;
        }
        o += 1;
    }
    (best, best_freq)
}

/// The votes cast by a sequence of windows of width `2 * len - 1`.
pub fn votes_of(base: &Table, windows: &Vec<Vec<char>>, len: usize, t: usize) -> (r: Vec<Vec<char>>)
    requires
        len >= 1,
        forall|i: int| 0 <= i < windows.len() ==> #[trigger] windows[i].len() + 1 == 2 * len,
    ensures
        views_of(r@) == votes(table_of(*base), len as nat, t as nat, views_of(windows@)),
{
    let ghost m = table_of(*base);
    let mut out: Vec<Vec<char>> = Vec::new();
    let mut i: usize = 0;
    while i < windows.len()
        invariant
            i <= windows.len(),
            len >= 1,
            m == table_of(*base),
            forall|i: int| 0 <= i < windows.len() ==> #[trigger] windows[i].len() + 1 == 2 * len,
            views_of(out@) == votes(m, len as nat, t as nat, views_of(windows@).take(i as int)),
        decreases windows.len() - i,
    {
        let (w, f) = select_winner(base, &windows[i], len);
        let ghost before = out@;
        assert(views_of(windows@).take(i + 1).drop_last() == views_of(windows@).take(i as int));
        assert(views_of(windows@).take(i + 1).last() == windows@[i as int]@);
        if f > t {
            out.push(w);
            assert(views_of(out@) == views_of(before).push(w@));
        }
        i += 1;
    }
    assert(views_of(windows@).take(i as int) == views_of(windows@));
    out
}

/// Within one window the winner is the leftmost of the candidates with the
/// greatest count: no candidate counts more, and each one to its left counts
/// strictly less.
pub proof fn lemma_winner_is_leftmost_maximum(m: Map<Seq<char>, nat>, win: Seq<char>, len: nat, n: int)
    requires
        1 <= n <= len,
    ensures
        0 <= lead_among(m, win, len, n) < n,
        forall|j: int| 0 <= j < n ==> freq(m, #[trigger] candidate(win, len, j))
            <= freq(m, candidate(win, len, lead_among(m, win, len, n))),
        forall|j: int| 0 <= j < lead_among(m, win, len, n) ==> freq(m, #[trigger] candidate(win, len, j))
            < freq(m, candidate(win, len, lead_among(m, win, len, n))),
    decreases n,
{
    if n > 1 {
        lemma_winner_is_leftmost_maximum(m, win, len, n - 1);
    }
}

/// Pruning the entries of count at most `t` from the first-pass table changes
/// no vote: those entries can never win a window that casts one.
pub proof fn lemma_pruning_keeps_votes(m: Map<Seq<char>, nat>, len: nat, t: nat, ws: Seq<Seq<char>>)
    ensures
        votes(above(m, t), len, t, ws) == votes(m, len, t, ws),
    decreases ws.len(),
{
    if ws.len() > 0 {
        lemma_pruning_keeps_votes(m, len, t, ws.drop_last());
        lemma_pruning_keeps_lead(m, ws.last(), len, t, len as int);
    }
}

proof fn lemma_pruning_keeps_lead(m: Map<Seq<char>, nat>, win: Seq<char>, len: nat, t: nat, n: int)
    ensures
        ({
            let b = lead_among(m, win, len, n);
            let p = lead_among(above(m, t), win, len, n);
            &&& freq(m, candidate(win, len, b)) > t ==> p == b
            &&& freq(m, candidate(win, len, b)) <= t ==> freq(above(m, t), candidate(win, len, p)) == 0
        }),
    decreases n,
{
    let pm = above(m, t);
    assert forall|s: Seq<char>| #[trigger] freq(pm, s) == if freq(m, s) > t { freq(m, s) } else { 0 } by {}
    if n > 1 {
        lemma_pruning_keeps_lead(m, win, len, t, n - 1);
    }
}

/// A window casts at most one vote.
pub proof fn lemma_votes_len(m: Map<Seq<char>, nat>, len: nat, t: nat, ws: Seq<Seq<char>>)
    ensures
        votes(m, len, t, ws).len() <= ws.len(),
    decreases ws.len(),
{
    if ws.len() > 0 {
        lemma_votes_len(m, len, t, ws.drop_last());
    }
}

} // verus!
