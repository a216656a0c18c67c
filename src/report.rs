//! The result reducer: entries ordered by descending count and written as
//! `word<TAB>count` lines.

use vstd::prelude::*;

verus! {

broadcast use {vstd::seq_lib::group_to_multiset_ensures, vstd::multiset::group_multiset_axioms};

/// An entry of a result: an n-gram and its count.
pub type Entry = (Vec<char>, usize);

pub open spec fn entries_view(v: Seq<Entry>) -> Seq<(Seq<char>, usize)> {
    v.map_values(|e: Entry| (e.0@, e.1))
}

/// No entry counts more than one before it.
pub open spec fn descending(s: Seq<(Seq<char>, usize)>) -> bool {
    forall|i: int, j: int| 0 <= i < j < s.len() ==> #[trigger] s[i].1 >= #[trigger] s[j].1
}

/// The entries of `s` whose count is `c`, in their order in `s`.
pub open spec fn with_count(s: Seq<(Seq<char>, usize)>, c: usize) -> Seq<(Seq<char>, usize)>
    decreases s.len(),
{
    if s.len() == 0 {
        seq![]
    } else {
        let p = with_count(s.drop_last(), c);
        if s.last().1 == c {
            p.push(s.last())
        } else {
            p
        }
    }
}

proof fn lemma_with_count_concat(a: Seq<(Seq<char>, usize)>, b: Seq<(Seq<char>, usize)>, c: usize)
    ensures
        with_count(a + b, c) == with_count(a, c) + with_count(b, c),
    decreases b.len(),
{
    if b.len() == 0 {
        assert(a + b == a);
        assert(with_count(a, c) + with_count(b, c) == with_count(a, c));
    } else {
        lemma_with_count_concat(a, b.drop_last(), c);
        assert((a + b).drop_last() == a + b.drop_last());
        assert((a + b).last() == b.last());
        if b.last().1 == c {
            assert(with_count(a, c) + with_count(b.drop_last(), c).push(b.last())
                == (with_count(a, c) + with_count(b.drop_last(), c)).push(b.last()));
        }
    }
}

proof fn lemma_with_count_none(s: Seq<(Seq<char>, usize)>, c: usize)
    requires
        forall|k: int| 0 <= k < s.len() ==> #[trigger] s[k].1 != c,
    ensures
        with_count(s, c) == Seq::<(Seq<char>, usize)>::empty(),
    decreases s.len(),
{
    if s.len() > 0 {
        assert(s.last().1 != c);
        assert forall|k: int| 0 <= k < s.drop_last().len() implies #[trigger] s.drop_last()[k].1 != c by {
            assert(s.drop_last()[k] == s[k]);
        }
        lemma_with_count_none(s.drop_last(), c);
    }
}

fn copy_entry(e: &Entry) -> (r: Entry)
    ensures
        r.0@ == e.0@,
        r.1 == e.1,
{
    (e.0.clone(), e.1)
}

/// Merges two descending runs into one.
fn merge(a: &Vec<Entry>, b: &Vec<Entry>) -> (r: Vec<Entry>)
    requires
        descending(entries_view(a@)),
        descending(entries_view(b@)),
    ensures
        descending(entries_view(r@)),
        entries_view(r@).to_multiset() == entries_view(a@).to_multiset().add(entries_view(b@).to_multiset()),
        forall|c: usize| #[trigger] with_count(entries_view(r@), c)
            == with_count(entries_view(a@), c) + with_count(entries_view(b@), c),
{
    let ghost ea = entries_view(a@);
    let ghost eb = entries_view(b@);
    let mut r: Vec<Entry> = Vec::new();
    let mut i: usize = 0;
    let mut j: usize = 0;
    while i < a.len() || j < b.len()
        invariant
            i <= a.len(),
            j <= b.len(),
            ea == entries_view(a@),
            eb == entries_view(b@),
            descending(ea),
            descending(eb),
            r.len() == i + j,
            descending(entries_view(r@)),
            entries_view(r@).to_multiset() == ea.take(i as int).to_multiset().add(eb.take(j as int).to_multiset()),
            r.len() > 0 && i < a.len() ==> r[r.len() - 1].1 >= a[i as int].1,
            r.len() > 0 && j < b.len() ==> r[r.len() - 1].1 >= b[j as int].1,
            forall|c: usize| #[trigger] with_count(entries_view(r@), c)
                == with_count(ea.take(i as int), c) + with_count(eb.take(j as int), c),
            i < a.len() ==> forall|k: int| 0 <= k < j ==> #[trigger] b[k].1 > a[i as int].1,
        decreases a.len() + b.len() - i - j,
    {
        let ghost before = entries_view(r@);
        assert(forall|c: usize| #[trigger] with_count(before, c)
            == with_count(ea.take(i as int), c) + with_count(eb.take(j as int), c));
        let take_a = j >= b.len() || (i < a.len() && a[i].1 >= b[j].1);
        let e = if take_a {
            copy_entry(&a[i])
        } else {
            copy_entry(&b[j])
        };
        r.push(e);
        assert(entries_view(r@) == before.push((e.0@, e.1)));
        let ghost x = (e.0@, e.1);
        if take_a {
            assert(ea.take(i + 1) == ea.take(i as int).push(ea[i as int]));
            assert(x == ea[i as int]);
            assert forall|c: usize| #[trigger] with_count(entries_view(r@), c)
                == with_count(ea.take(i + 1), c) + with_count(eb.take(j as int), c) by {
                assert(entries_view(r@).drop_last() == before);
                assert(entries_view(r@).last() == x);
                assert(with_count(before, c) == with_count(ea.take(i as int), c) + with_count(eb.take(j as int), c));
                assert(ea.take(i + 1).drop_last() == ea.take(i as int));
                assert(ea.take(i + 1).last() == x);
                if x.1 == c {
                    assert forall|k: int| 0 <= k < eb.take(j as int).len() implies #[trigger] eb.take(j as int)[k].1 != c by {
                        assert(b[k].1 > a[i as int].1);
                    }
                    lemma_with_count_none(eb.take(j as int), c);
                    assert(with_count(ea.take(i as int), c).push(x) + Seq::<(Seq<char>, usize)>::empty()
                        == (with_count(ea.take(i as int), c) + Seq::<(Seq<char>, usize)>::empty()).push(x));
                }
            }
            if i + 1 < a.len() {
                assert(ea[i as int].1 >= ea[i + 1].1);
                assert forall|k: int| 0 <= k < j implies #[trigger] b[k].1 > a[i + 1].1 by {
                    assert(b[k].1 > a[i as int].1);
                }
            }
            i += 1;
        } else {
            assert(eb.take(j + 1) == eb.take(j as int).push(eb[j as int]));
            assert(x == eb[j as int]);
            assert forall|c: usize| #[trigger] with_count(entries_view(r@), c)
                == with_count(ea.take(i as int), c) + with_count(eb.take(j + 1), c) by {
                assert(entries_view(r@).drop_last() == before);
                assert(entries_view(r@).last() == x);
                assert(with_count(before, c) == with_count(ea.take(i as int), c) + with_count(eb.take(j as int), c));
                assert(eb.take(j + 1).drop_last() == eb.take(j as int));
                assert(eb.take(j + 1).last() == x);
                if x.1 == c {
                    assert(with_count(ea.take(i as int), c) + with_count(eb.take(j as int), c).push(x)
                        == (with_count(ea.take(i as int), c) + with_count(eb.take(j as int), c)).push(x));
                }
            }
            if j + 1 < b.len() {
                assert(eb[j as int].1 >= eb[j + 1].1);
            }
            j += 1;
        }
        assert forall|x: int, y: int| 0 <= x < y < r.len() implies #[trigger] entries_view(r@)[x].1
            >= #[trigger] entries_view(r@)[y].1 by {
            if y == r.len() - 1 && x < y - 1 {
                assert(before[x].1 >= before[y - 1].1);
            }
        }
        assert(entries_view(r@).to_multiset() =~= ea.take(i as int).to_multiset().add(eb.take(j as int).to_multiset()));
    }
    assert(ea.take(i as int) == ea);
    assert(eb.take(j as int) == eb);
    r
}

/// Sorts `v[lo..hi]` by descending count.
fn sort_range(v: &Vec<Entry>, lo: usize, hi: usize) -> (r: Vec<Entry>)
    requires
        lo <= hi <= v.len(),
    ensures
        descending(entries_view(r@)),
        entries_view(r@).to_multiset() == entries_view(v@).subrange(lo as int, hi as int).to_multiset(),
        forall|c: usize| #[trigger] with_count(entries_view(r@), c)
            == with_count(entries_view(v@).subrange(lo as int, hi as int), c),
    decreases hi - lo,
{
    let ghost ev = entries_view(v@);
    if hi - lo <= 1 {
        let mut r: Vec<Entry> = Vec::new();
        if hi > lo {
            r.push(copy_entry(&v[lo]));
            assert(entries_view(r@) == seq![ev[lo as int]]);
            assert(ev.subrange(lo as int, hi as int) == seq![ev[lo as int]]);
        } else {
            assert(entries_view(r@) == ev.subrange(lo as int, hi as int));
        }
        r
    } else {
        let mid = lo + (hi - lo) / 2;
        let left = sort_range(v, lo, mid);
        let right = sort_range(v, mid, hi);
        assert(ev.subrange(lo as int, hi as int) == ev.subrange(lo as int, mid as int) + ev.subrange(mid as int, hi as int));
        proof {
            vstd::seq_lib::lemma_multiset_commutative(ev.subrange(lo as int, mid as int), ev.subrange(mid as int, hi as int));
            assert forall|c: usize| #[trigger] with_count(ev.subrange(lo as int, hi as int), c)
                == with_count(ev.subrange(lo as int, mid as int), c) + with_count(ev.subrange(mid as int, hi as int), c) by {
                lemma_with_count_concat(ev.subrange(lo as int, mid as int), ev.subrange(mid as int, hi as int), c);
            }
        }
        merge(&left, &right)
    }
}

/// The entries ordered by descending count; the sort is stable, so entries
/// of equal count keep their order in `v`.
pub fn sort_by_count(v: &Vec<Entry>) -> (r: Vec<Entry>)
    ensures
        descending(entries_view(r@)),
        entries_view(r@).to_multiset() == entries_view(v@).to_multiset(),
        forall|c: usize| #[trigger] with_count(entries_view(r@), c) == with_count(entries_view(v@), c),
{
    let r = sort_range(v, 0, v.len());
    assert(entries_view(v@).subrange(0, v.len() as int) == entries_view(v@));
    r
}

/// The digit character of `d < 10`.
pub open spec fn digit(d: nat) -> char {
    seq!['0', '1', '2', '3', '4', '5', '6', '7', '8', '9'][d as int]
}

/// `n` written in decimal, without leading zeros.
pub open spec fn decimal(n: nat) -> Seq<char>
    decreases n,
{
    if n < 10 {
        seq![digit(n)]
    } else {
        decimal(n / 10).push(digit(n % 10))
    }
}

/// One output record: the word, a tab, the count.
pub open spec fn record(e: (Seq<char>, usize)) -> Seq<char> {
    e.0 + seq!['\t'] + decimal(e.1 as nat)
}

/// The records joined by newlines, with no newline after the last.
pub open spec fn render(es: Seq<(Seq<char>, usize)>) -> Seq<char>
    decreases es.len(),
{
    if es.len() == 0 {
        seq![]
    } else if es.len() == 1 {
        record(es[0])
    } else {
        render(es.drop_last()) + seq!['\n'] + record(es.last())
    }
}

/// Appends `n` in decimal.
pub(crate) fn push_decimal(out: &mut Vec<char>, n: usize)
    ensures
        final(out)@ == old(out)@ + decimal(n as nat),
    decreases n,
{
    let digits: [char; 10] = ['0', '1', '2', '3', '4', '5', '6', '7', '8', '9'];
    if n >= 10 {
        push_decimal(out, n / 10);
    }
    let ghost mid = out@;
    out.push(digits[n % 10]);
    assert(digits@ == seq!['0', '1', '2', '3', '4', '5', '6', '7', '8', '9']);
    if n < 10 {
        assert(out@ == mid + decimal(n as nat));
    } else {
        assert(out@ == old(out)@ + decimal(n as nat));
    }
}

/// Relies on `String`'s `FromIterator<char>`: the string of exactly these characters.
#[verifier::external_body]
pub(crate) fn string_of(chars: &Vec<char>) -> (r: String)
    ensures
        r@ == chars@,
{
    chars.iter().collect()
}

/// The output text: one `word<TAB>count` record per entry, in order,
/// separated by newlines, with no trailing newline.
pub fn render_entries(entries: &Vec<Entry>) -> (r: String)
    ensures
        r@ == render(entries_view(entries@)),
{
    let ghost ev = entries_view(entries@);
    let mut out: Vec<char> = Vec::new();
    let mut i: usize = 0;
    while i < entries.len()
        invariant
            i <= entries.len(),
            ev == entries_view(entries@),
            out@ == render(ev.take(i as int)),
        decreases entries.len() - i,
    {
        let ghost before = out@;
        if i > 0 {
            out.push('\n');
        }
        let word = &entries[i].0;
        let mut k: usize = 0;
        while k < word.len()
            invariant
                k <= word.len(),
                word == entries[i as int].0,
                out@ == (if i > 0 { before + seq!['\n'] } else { before }) + word@.take(k as int),
            decreases word.len() - k,
        {
            out.push(word[k]);
            assert(word@.take(k + 1) == word@.take(k as int).push(word@[k as int]));
            k += 1;
        }
        assert(word@.take(k as int) == word@);
        out.push('\t');
        push_decimal(&mut out, entries[i].1);
        assert(ev.take(i + 1).drop_last() == ev.take(i as int));
        assert(ev.take(i + 1).last() == ev[i as int]);
        if i == 0 {
            assert(out@ == record(ev[0]));
        } else {
            assert(out@ == render(ev.take(i as int)) + seq!['\n'] + record(ev[i as int]));
        }
        i += 1;
    }
    assert(ev.take(i as int) == ev);
    string_of(&out)
}

} // verus!
