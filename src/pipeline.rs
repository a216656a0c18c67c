//! The two passes end to end: from the lines of a corpus to the ordered
//! result.

use crate::classify::Classifier;
use crate::passes::{Pass, line_views, line_yield, pass_yields, run_pass};
use crate::report::{Entry, descending, entries_view, render, render_entries, sort_by_count};
use crate::scan::{all_valid, lemma_window_total, lemma_windows_are_valid_runs, windows};
use crate::select::{freq, lemma_pruning_keeps_votes, lemma_votes_len, votes, winner};
use crate::table::{
    Table, added, count_of, above, count_into, empty_table, lemma_occ_bound, lemma_occ_concat, lemma_occ_in_positive, lemma_occ_positive, nested_views, occ, occ_in, prune,
    table_entries, table_of, tally, total,
};
use vstd::prelude::*;

verus! {

broadcast use {vstd::seq_lib::group_to_multiset_ensures, vstd::multiset::group_multiset_axioms};

pub open spec fn char_set(v: Seq<char>) -> Set<char> {
    Set::new(|c: char| v.contains(c))
}

/// How many characters the lines hold together.
pub open spec fn chars_total(lines: Seq<Seq<char>>) -> nat
    decreases lines.len(),
{
    if lines.len() == 0 {
        0
    } else {
        chars_total(lines.drop_last()) + lines.last().len()
    }
}

/// The first-pass counts: every n-gram of `word_len` valid characters with
/// its number of occurrences.
pub open spec fn base_table(extra: Set<char>, lines: Seq<Seq<char>>, word_len: nat) -> Map<Seq<char>, nat> {
    tally(lines.map_values(|l: Seq<char>| windows(extra, l, word_len)), 0)
}

/// The votes each line casts in the second pass, against the first-pass
/// table pruned at `t`.
pub open spec fn ballots(extra: Set<char>, lines: Seq<Seq<char>>, word_len: nat, t: nat) -> Seq<Seq<Seq<char>>> {
    let base = above(base_table(extra, lines, word_len), t);
    lines.map_values(|l: Seq<char>| votes(base, word_len, t, windows(extra, l, (2 * word_len - 1) as nat)))
}

/// The result: each word that won more than `t` windows, with its number of
/// wins.
pub open spec fn result_table(extra: Set<char>, lines: Seq<Seq<char>>, word_len: nat, t: nat) -> Map<Seq<char>, nat> {
    tally(ballots(extra, lines, word_len, t), t)
}

/// `es` lists the entries of `m`, each once, by descending count.
pub open spec fn is_report(es: Seq<(Seq<char>, usize)>, m: Map<Seq<char>, nat>) -> bool {
    &&& descending(es)
    &&& forall|i: int, j: int| 0 <= i < j < es.len() ==> #[trigger] es[i].0 != #[trigger] es[j].0
    &&& forall|i: int| 0 <= i < es.len() ==> m.contains_key(#[trigger] es[i].0) && m[es[i].0] == es[i].1
    &&& forall|k: Seq<char>| #[trigger] m.contains_key(k) ==> exists|i: int| 0 <= i < es.len() && #[trigger] es[i].0 == k
}

proof fn lemma_yield_total(
    extra: Set<char>,
    word_len: nat,
    t: nat,
    base: Option<Map<Seq<char>, nat>>,
    lines: Seq<Seq<char>>,
)
    requires
        word_len >= 1,
    ensures
        total(lines.map_values(|l: Seq<char>| line_yield(extra, word_len, t, base, l))) <= chars_total(lines),
    decreases lines.len(),
{
    if lines.len() > 0 {
        let f = |l: Seq<char>| line_yield(extra, word_len, t, base, l);
        lemma_yield_total(extra, word_len, t, base, lines.drop_last());
        assert(lines.map_values(f).drop_last() == lines.drop_last().map_values(f));
        let l = lines.last();
        match base {
            None => lemma_window_total(extra, l, word_len, l.len() as int),
            Some(m) => {
                let w = (2 * word_len - 1) as nat;
                lemma_window_total(extra, l, w, l.len() as int);
                lemma_votes_len(m, word_len, t, windows(extra, l, w));
            },
        }
    }
}

/// Entries with distinct keys, each agreeing with `m`, and every key of `m`
/// among them, stay so under any reordering.
proof fn lemma_report_after_sort(
    sorted: Seq<(Seq<char>, usize)>,
    src: Seq<(Seq<char>, usize)>,
    m: Map<Seq<char>, nat>,
)
    requires
        descending(sorted),
        sorted.to_multiset() == src.to_multiset(),
        forall|i: int, j: int| 0 <= i < j < src.len() ==> #[trigger] src[i].0 != #[trigger] src[j].0,
        forall|i: int| 0 <= i < src.len() ==> m.contains_key(#[trigger] src[i].0) && m[src[i].0] == src[i].1,
        forall|k: Seq<char>| #[trigger] m.contains_key(k) ==> exists|i: int| 0 <= i < src.len() && #[trigger] src[i].0 == k,
    ensures
        is_report(sorted, m),
{
    assert forall|i: int| 0 <= i < sorted.len() implies m.contains_key(#[trigger] sorted[i].0) && m[sorted[i].0] == sorted[i].1 by {
        assert(sorted.contains(sorted[i]));
        assert(src.to_multiset().count(sorted[i]) > 0);
        assert(src.contains(sorted[i]));
        let p = choose|p: int| 0 <= p < src.len() && src[p] == sorted[i];
        assert(src[p].0 == sorted[i].0);
    }
    assert forall|k: Seq<char>| #[trigger] m.contains_key(k) implies exists|i: int| 0 <= i < sorted.len() && #[trigger] sorted[i].0 == k by {
        let p = choose|p: int| 0 <= p < src.len() && #[trigger] src[p].0 == k;
        assert(src.contains(src[p]));
        assert(sorted.to_multiset().count(src[p]) > 0);
        assert(sorted.contains(src[p]));
        let i = choose|i: int| 0 <= i < sorted.len() && sorted[i] == src[p];
        assert(sorted[i].0 == k);
    }
    assert(src.no_duplicates()) by {
        assert forall|i: int, j: int| 0 <= i < src.len() && 0 <= j < src.len() && i != j implies src[i] != src[j] by {
            if i < j {
                assert(src[i].0 != src[j].0);
            } else {
                assert(src[j].0 != src[i].0);
            }
        }
    }
    src.lemma_multiset_has_no_duplicates();
    sorted.lemma_multiset_has_no_duplicates_conv();
    assert forall|i: int, j: int| 0 <= i < j < sorted.len() implies #[trigger] sorted[i].0 != #[trigger] sorted[j].0 by {
        if sorted[i].0 == sorted[j].0 {
            assert(m[sorted[i].0] == sorted[i].1);
            assert(m[sorted[j].0] == sorted[j].1);
            assert(sorted[i] == sorted[j]);
        }
    }
}

/// How many lines one chunk of a pass holds: the n-grams of one chunk are
/// all that is held besides the table.
pub const CHUNK_LINES: usize = 4096;

proof fn lemma_chars_total_prefix(lines: Seq<Seq<char>>, n: int)
    requires
        0 <= n <= lines.len(),
    ensures
        chars_total(lines.take(n)) <= chars_total(lines),
    decreases lines.len(),
{
    if n < lines.len() {
        lemma_chars_total_prefix(lines.drop_last(), n);
        assert(lines.drop_last().take(n) == lines.take(n));
    } else {
        assert(lines.take(n) == lines);
    }
}

/// Copies `lines[lo..hi]`.
fn copy_lines(lines: &Vec<Vec<char>>, lo: usize, hi: usize) -> (r: Vec<Vec<char>>)
    requires
        lo <= hi <= lines.len(),
    ensures
        line_views(r@) == line_views(lines@).subrange(lo as int, hi as int),
{
    let mut r: Vec<Vec<char>> = Vec::new();
    let mut i: usize = lo;
    while i < hi
        invariant
            lo <= i <= hi <= lines.len(),
            line_views(r@) == line_views(lines@).subrange(lo as int, i as int),
        decreases hi - i,
    {
        let line = lines[i].clone();
        assert(line@ =~= lines[i as int]@);
        let ghost before = r@;
        r.push(line);
        assert(line_views(r@) =~= line_views(before).push(line@));
        assert(line_views(lines@).subrange(lo as int, i + 1)
            =~= line_views(lines@).subrange(lo as int, i as int).push(line_views(lines@)[i as int]));
        i += 1;
    }
    r
}

/// Runs a pass over the lines, a chunk of lines at a time, and counts what
/// each line yields: the table maps each n-gram to its number of
/// occurrences.
pub fn count_pass(pass: &Pass, lines: &Vec<Vec<char>>) -> (r: Table)
    requires
        pass.wf(),
        chars_total(line_views(lines@)) <= usize::MAX,
    ensures
        table_of(r) == tally(pass_yields(*pass, line_views(lines@)), 0),
{
    let ghost ls = line_views(lines@);
    let mut counts = empty_table();
    let mut lo: usize = 0;
    assert(table_of(counts) =~= tally(pass_yields(*pass, ls.take(0)), 0));
    while lo < lines.len()
        invariant
            lo <= lines.len(),
            ls == line_views(lines@),
            pass.wf(),
            chars_total(ls) <= usize::MAX,
            table_of(counts) == tally(pass_yields(*pass, ls.take(lo as int)), 0),
        decreases lines.len() - lo,
    {
        let hi = if lines.len() - lo > CHUNK_LINES {
            lo + CHUNK_LINES
        } else {
            lines.len()
        };
        let chunk = copy_lines(lines, lo, hi);
        let grams = run_pass(pass, &chunk);
        let ghost done = pass_yields(*pass, ls.take(lo as int));
        let ghost next = pass_yields(*pass, ls.subrange(lo as int, hi as int));
        proof {
            assert(ls.take(hi as int) == ls.take(lo as int) + ls.subrange(lo as int, hi as int));
            assert(pass_yields(*pass, ls.take(hi as int)) =~= done + next);
            lemma_yield_total(pass.classifier@, pass.word_len as nat, pass.threshold as nat, pass.base_counts(), ls.take(hi as int));
            assert(pass_yields(*pass, ls.take(hi as int)) =~= ls.take(hi as int).map_values(
                |l: Seq<char>| line_yield(pass.classifier@, pass.word_len as nat, pass.threshold as nat, pass.base_counts(), l),
            ));
            lemma_chars_total_prefix(ls, hi as int);
            lemma_occ_concat(done, next, seq![]);
            assert forall|k: Seq<char>| #[trigger] count_of(table_of(counts), k) + total(nested_views(grams@)) <= usize::MAX by {
                lemma_occ_bound(done, k);
            }
        }
        count_into(&mut counts, &grams);
        proof {
            assert forall|k: Seq<char>| #[trigger] occ(done + next, k) == occ(done, k) + occ(next, k) by {
                lemma_occ_concat(done, next, k);
            }
            assert(table_of(counts) =~= tally(pass_yields(*pass, ls.take(hi as int)), 0));
        }
        lo = hi;
    }
    assert(ls.take(lo as int) == ls);
    counts
}

/// The entries of a table whose count exceeds `t`, ordered by descending count.
fn ordered_entries(table: Table, t: usize) -> (r: Vec<Entry>)
    ensures
        is_report(entries_view(r@), above(table_of(table), t as nat)),
{
    let kept = prune(table, t);
    let ghost m = table_of(kept);
    let entries = table_entries(kept);
    let sorted = sort_by_count(&entries);
    let ghost src = entries_view(entries@);
    assert forall|i: int, j: int| 0 <= i < j < src.len() implies #[trigger] src[i].0 != #[trigger] src[j].0 by {
        assert(entries[i].0@ != entries[j].0@);
    }
    assert forall|i: int| 0 <= i < src.len() implies m.contains_key(#[trigger] src[i].0) && m[src[i].0] == src[i].1 by {
        assert(m.contains_key(entries[i].0@));
    }
    assert forall|k: Seq<char>| #[trigger] m.contains_key(k) implies exists|i: int| 0 <= i < src.len() && #[trigger] src[i].0 == k by {
        let i = choose|i: int| 0 <= i < entries.len() && #[trigger] entries[i].0@ == k;
        assert(src[i].0 == k);
    }
    proof {
        lemma_report_after_sort(entries_view(sorted@), src, m);
    }
    sorted
}

/// Both passes over `lines`: the words that won more than `threshold`
/// windows, each with its number of wins, by descending count.
pub fn extract(lines: &Vec<Vec<char>>, word_len: usize, threshold: usize, extra_chars: &Vec<char>) -> (r: Vec<Entry>)
    requires
        word_len >= 1,
        2 * word_len - 1 <= usize::MAX,
        chars_total(line_views(lines@)) <= usize::MAX,
    ensures
        is_report(
            entries_view(r@),
            result_table(char_set(extra_chars@), line_views(lines@), word_len as nat, threshold as nat),
        ),
{
    let ghost extra = char_set(extra_chars@);
    let ghost ls = line_views(lines@);
    let classifier = Classifier::new(extra_chars);
    assert(classifier@ =~= extra);
    let first = Pass { classifier, word_len, threshold, base: None };
    let counts = count_pass(&first, lines);
    assert(pass_yields(first, ls) =~= ls.map_values(|l: Seq<char>| windows(extra, l, word_len as nat)));
    let base = prune(counts, threshold);
    let ghost bm = table_of(base);
    assert(bm == above(base_table(extra, ls, word_len as nat), threshold as nat));
    let Pass { classifier, .. } = first;
    let second = Pass { classifier, word_len, threshold, base: Some(base) };
    let result = count_pass(&second, lines);
    assert(pass_yields(second, ls) =~= ballots(extra, ls, word_len as nat, threshold as nat));
    let r = ordered_entries(result, threshold);
    assert(above(tally(ballots(extra, ls, word_len as nat, threshold as nat), 0), threshold as nat)
        =~= result_table(extra, ls, word_len as nat, threshold as nat));
    r
}

/// Runs both passes over the lines of a corpus and returns the output text:
/// one `word<TAB>count` record per result entry, by descending count.
pub fn run(lines: &Vec<Vec<char>>, word_len: usize, threshold: usize, extra_chars: &Vec<char>) -> (r: String)
    requires
        word_len >= 1,
        2 * word_len - 1 <= usize::MAX,
        chars_total(line_views(lines@)) <= usize::MAX,
    ensures
        exists|es: Seq<(Seq<char>, usize)>| {
            &&& is_report(es, result_table(char_set(extra_chars@), line_views(lines@), word_len as nat, threshold as nat))
            &&& r@ == render(es)
        },
{
    let entries = extract(lines, word_len, threshold, extra_chars);
    render_entries(&entries)
}

/// Any two results for the same corpus and parameters hold the same
/// (word, count) pairs and list the same counts in the same order, whatever
/// order the workers ran in: they differ at most in the order of entries of
/// equal count.
pub proof fn lemma_result_pairs_determined(
    es1: Seq<(Seq<char>, usize)>,
    es2: Seq<(Seq<char>, usize)>,
    m: Map<Seq<char>, nat>,
)
    requires
        is_report(es1, m),
        is_report(es2, m),
    ensures
        forall|p: (Seq<char>, usize)| es1.contains(p) <==> es2.contains(p),
        es1.len() == es2.len(),
        forall|i: int| 0 <= i < es1.len() ==> #[trigger] es1[i].1 == es2[i].1,
{
    assert forall|p: (Seq<char>, usize)| es1.contains(p) implies es2.contains(p) by {
        lemma_pair_in_other_report(es1, es2, m, p);
    }
    assert forall|p: (Seq<char>, usize)| es2.contains(p) implies es1.contains(p) by {
        lemma_pair_in_other_report(es2, es1, m, p);
    }
    lemma_report_no_duplicates(es1, m);
    lemma_report_no_duplicates(es2, m);
    es1.lemma_multiset_has_no_duplicates();
    es2.lemma_multiset_has_no_duplicates();
    assert forall|p: (Seq<char>, usize)| es1.to_multiset().count(p) == es2.to_multiset().count(p) by {
        if es1.contains(p) {
            assert(es1.to_multiset().contains(p));
            assert(es2.to_multiset().contains(p));
        }
    }
    assert(es1.to_multiset() =~= es2.to_multiset());
    lemma_descending_counts_agree(es1, es2);
}

proof fn lemma_report_no_duplicates(es: Seq<(Seq<char>, usize)>, m: Map<Seq<char>, nat>)
    requires
        is_report(es, m),
    ensures
        es.no_duplicates(),
{
    assert forall|i: int, j: int| 0 <= i < es.len() && 0 <= j < es.len() && i != j implies es[i] != es[j] by {
        if i < j {
            assert(es[i].0 != es[j].0);
        } else {
            assert(es[j].0 != es[i].0);
        }
    }
}

/// Two descending sequences of the same entries list the same counts.
proof fn lemma_descending_counts_agree(s1: Seq<(Seq<char>, usize)>, s2: Seq<(Seq<char>, usize)>)
    requires
        descending(s1),
        descending(s2),
        s1.to_multiset() == s2.to_multiset(),
    ensures
        s1.len() == s2.len(),
        forall|i: int| 0 <= i < s1.len() ==> #[trigger] s1[i].1 == s2[i].1,
    decreases s1.len(),
{
    assert(s1.len() == s1.to_multiset().len());
    assert(s2.len() == s2.to_multiset().len());
    if s1.len() > 0 {
        let n = s1.len() - 1;
        let x = s1[n];
        let y = s2[n];
        assert(s1.contains(x));
        assert(s2.to_multiset().count(x) > 0);
        assert(s2.contains(x));
        let p = choose|p: int| 0 <= p < s2.len() && s2[p] == x;
        assert(s1.to_multiset().count(y) > 0) by {
            assert(s2.contains(y));
        }
        assert(s1.contains(y));
        let q = choose|q: int| 0 <= q < s1.len() && s1[q] == y;
        if p < n {
            assert(s2[p].1 >= s2[n].1);
        }
        if q < n {
            assert(s1[q].1 >= s1[n].1);
        }
        assert(x.1 == y.1);
        let t1 = s1.drop_last();
        let t2 = s2.remove(p);
        assert(s1.remove(n) == t1);
        assert(t1.to_multiset() == s1.to_multiset().remove(x));
        assert(t2.to_multiset() == s2.to_multiset().remove(x));
        assert forall|a: int, b: int| 0 <= a < b < t2.len() implies #[trigger] t2[a].1 >= #[trigger] t2[b].1 by {
            let a2 = if a < p { a } else { a + 1 };
            let b2 = if b < p { b } else { b + 1 };
            assert(t2[a] == s2[a2]);
            assert(t2[b] == s2[b2]);
            assert(s2[a2].1 >= s2[b2].1);
        }
        assert forall|a: int, b: int| 0 <= a < b < t1.len() implies #[trigger] t1[a].1 >= #[trigger] t1[b].1 by {
            assert(s1[a].1 >= s1[b].1);
        }
        lemma_descending_counts_agree(t1, t2);
        assert forall|i: int| 0 <= i < s1.len() implies #[trigger] s1[i].1 == s2[i].1 by {
            if i < n {
                assert(t1[i] == s1[i]);
                if i < p {
                    assert(t2[i] == s2[i]);
                } else {
                    assert(t2[i] == s2[i + 1]);
                    assert(s2[p].1 >= s2[i].1);
                    assert(s2[i].1 >= s2[i + 1].1);
                    if i + 1 < n {
                        assert(s2[i + 1].1 >= s2[n].1);
                    }
                }
            }
        }
    }
}

proof fn lemma_pair_in_other_report(
    es1: Seq<(Seq<char>, usize)>,
    es2: Seq<(Seq<char>, usize)>,
    m: Map<Seq<char>, nat>,
    p: (Seq<char>, usize),
)
    requires
        is_report(es1, m),
        is_report(es2, m),
        es1.contains(p),
    ensures
        es2.contains(p),
{
    let i = choose|i: int| 0 <= i < es1.len() && es1[i] == p;
    assert(m.contains_key(es1[i].0));
    let j = choose|j: int| 0 <= j < es2.len() && #[trigger] es2[j].0 == p.0;
    assert(es2[j] == p);
}

/// How many of the windows `ws` the candidate `k` wins.
spec fn wins_in(m: Map<Seq<char>, nat>, len: nat, ws: Seq<Seq<char>>, k: Seq<char>) -> nat
    decreases ws.len(),
{
    if ws.len() == 0 {
        0
    } else {
        wins_in(m, len, ws.drop_last(), k) + if winner(m, ws.last(), len) == k { 1nat } else { 0nat }
    }
}

proof fn lemma_votes_count(m: Map<Seq<char>, nat>, len: nat, t: nat, ws: Seq<Seq<char>>, k: Seq<char>)
    ensures
        occ_in(votes(m, len, t, ws), k) == if freq(m, k) > t { wins_in(m, len, ws, k) } else { 0 },
    decreases ws.len(),
{
    if ws.len() > 0 {
        lemma_votes_count(m, len, t, ws.drop_last(), k);
        let prev = votes(m, len, t, ws.drop_last());
        let c = winner(m, ws.last(), len);
        if freq(m, c) > t {
            assert(prev.push(c).drop_last() == prev);
        }
    }
}

/// How many second-pass windows over all the lines `k` wins, against the
/// first-pass table `m`.
spec fn wins_against(m: Map<Seq<char>, nat>, extra: Set<char>, lines: Seq<Seq<char>>, word_len: nat, k: Seq<char>) -> nat
    decreases lines.len(),
{
    if lines.len() == 0 {
        0
    } else {
        wins_against(m, extra, lines.drop_last(), word_len, k) + wins_in(
            m,
            word_len,
            windows(extra, lines.last(), (2 * word_len - 1) as nat),
            k,
        )
    }
}

proof fn lemma_ballot_count(
    m: Map<Seq<char>, nat>,
    extra: Set<char>,
    lines: Seq<Seq<char>>,
    word_len: nat,
    t: nat,
    k: Seq<char>,
)
    ensures
        occ(lines.map_values(|l: Seq<char>| votes(m, word_len, t, windows(extra, l, (2 * word_len - 1) as nat))), k)
            == if freq(m, k) > t { wins_against(m, extra, lines, word_len, k) } else { 0 },
    decreases lines.len(),
{
    if lines.len() > 0 {
        let f = |l: Seq<char>| votes(m, word_len, t, windows(extra, l, (2 * word_len - 1) as nat));
        lemma_ballot_count(m, extra, lines.drop_last(), word_len, t, k);
        assert(lines.map_values(f).drop_last() == lines.drop_last().map_values(f));
        lemma_votes_count(m, word_len, t, windows(extra, lines.last(), (2 * word_len - 1) as nat), k);
    }
}

/// The count of `k` in the result at threshold `t`: its second-pass wins,
/// where its first-pass count exceeds `t`.
proof fn lemma_result_count(extra: Set<char>, lines: Seq<Seq<char>>, word_len: nat, t: nat, k: Seq<char>)
    ensures
        occ(ballots(extra, lines, word_len, t), k) == if freq(base_table(extra, lines, word_len), k) > t {
            wins_against(base_table(extra, lines, word_len), extra, lines, word_len, k)
        } else {
            0
        },
{
    let b = base_table(extra, lines, word_len);
    let w = (2 * word_len - 1) as nat;
    let pruned = lines.map_values(|l: Seq<char>| votes(above(b, t), word_len, t, windows(extra, l, w)));
    let full = lines.map_values(|l: Seq<char>| votes(b, word_len, t, windows(extra, l, w)));
    assert forall|i: int| 0 <= i < lines.len() implies #[trigger] pruned[i] == full[i] by {
        lemma_pruning_keeps_votes(b, word_len, t, windows(extra, lines[i], w));
    }
    assert(pruned =~= full);
    lemma_ballot_count(b, extra, lines, word_len, t, k);
}

/// Raising the threshold never adds a word to the result nor changes a
/// count: every word kept at `t2` is kept at any lower `t1`, with the same
/// count.
pub proof fn lemma_threshold_monotone(extra: Set<char>, lines: Seq<Seq<char>>, word_len: nat, t1: nat, t2: nat)
    requires
        t1 < t2,
    ensures
        forall|k: Seq<char>| #[trigger] result_table(extra, lines, word_len, t2).contains_key(k) ==> {
            &&& result_table(extra, lines, word_len, t1).contains_key(k)
            &&& result_table(extra, lines, word_len, t1)[k] == result_table(extra, lines, word_len, t2)[k]
        },
{
    assert forall|k: Seq<char>| #[trigger] result_table(extra, lines, word_len, t2).contains_key(k) implies {
        &&& result_table(extra, lines, word_len, t1).contains_key(k)
        &&& result_table(extra, lines, word_len, t1)[k] == result_table(extra, lines, word_len, t2)[k]
    } by {
        lemma_result_count(extra, lines, word_len, t1, k);
        lemma_result_count(extra, lines, word_len, t2, k);
    }
}

/// Raising the threshold never raises a second-pass count: each word wins
/// at `t2` at most the windows it wins at `t1`.
pub proof fn lemma_pass_two_counts_monotone(
    extra: Set<char>,
    lines: Seq<Seq<char>>,
    word_len: nat,
    t1: nat,
    t2: nat,
    k: Seq<char>,
)
    requires
        t1 < t2,
    ensures
        occ(ballots(extra, lines, word_len, t2), k) <= occ(ballots(extra, lines, word_len, t1), k),
{
    lemma_result_count(extra, lines, word_len, t1, k);
    lemma_result_count(extra, lines, word_len, t2, k);
}

/// Every n-gram the first pass counts is `word_len` valid characters taken
/// from one line: no key spans an invalid character or a line break.
pub proof fn lemma_base_keys_are_valid_runs(extra: Set<char>, lines: Seq<Seq<char>>, word_len: nat, k: Seq<char>)
    requires
        base_table(extra, lines, word_len).contains_key(k),
    ensures
        k.len() == word_len,
        all_valid(extra, k),
        exists|i: int, s: int|
            0 <= i < lines.len() && 0 <= s && s + word_len <= lines[i].len() && k == #[trigger] lines[i].subrange(s, s + word_len),
{
    let lists = lines.map_values(|l: Seq<char>| windows(extra, l, word_len));
    lemma_occ_positive(lists, k);
    let i = choose|i: int| 0 <= i < lists.len() && occ_in(#[trigger] lists[i], k) > 0;
    lemma_occ_in_positive(lists[i], k);
    let j = choose|j: int| 0 <= j < lists[i].len() && #[trigger] lists[i][j] == k;
    lemma_windows_are_valid_runs(extra, lines[i], word_len);
    assert(windows(extra, lines[i], word_len)[j] == k);
    let s = choose|s: int| 0 <= s && s + word_len <= lines[i].len() && k == #[trigger] lines[i].subrange(s, s + word_len);
}

} // verus!
