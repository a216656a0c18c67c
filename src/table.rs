//! Frequency tables: a sharded concurrent map from n-gram to count, and the
//! counting and pruning done on it.

use crate::scan::views_of;
use dashmap::DashMap;
use vstd::prelude::*;

verus! {

#[verifier::external_type_specification]
#[verifier::external_body]
#[verifier::reject_recursive_types(K)]
#[verifier::reject_recursive_types(V)]
#[verifier::reject_recursive_types(S)]
pub struct ExDashMap<K, V, S>(DashMap<K, V, S>);

/// A frequency table: n-gram to count, safe to share between threads.
pub type Table = DashMap<Vec<char>, usize>;

/// What a frequency table holds: each n-gram it has seen, with its count.
pub uninterp spec fn table_of(m: Table) -> Map<Seq<char>, nat>;

pub open spec fn no_counts() -> Map<Seq<char>, nat> {
    Map::empty()
}

/// Relies on `DashMap::new`: a new map holds no entry.
#[verifier::external_body]
fn new_table() -> (r: Table)
    ensures
        table_of(r) == no_counts(),
{
    DashMap::new()
}

/// Relies on `DashMap::get`: the value stored under `key`, if any.
#[verifier::external_body]
pub(crate) fn table_get(m: &Table, key: &Vec<char>) -> (r: Option<usize>)
    ensures
        match r {
            Some(v) => table_of(*m).contains_key(key@) && table_of(*m)[key@] == v,
            None => !table_of(*m).contains_key(key@),
        },
{
    m.get(key).map(|e| *e.value())
}

/// Relies on `DashMap::insert`: afterwards `key` maps to `value`, the other
/// entries unchanged.
#[verifier::external_body]
fn table_insert(m: &mut Table, key: Vec<char>, value: usize)
    ensures
        table_of(*final(m)) == table_of(*old(m)).insert(key@, value as nat),
{
    m.insert(key, value);
}

/// Relies on `DashMap::into_iter`: every entry exactly once, in an order the
/// map's hashing decides.
#[verifier::external_body]
pub(crate) fn table_entries(m: Table) -> (r: Vec<(Vec<char>, usize)>)
    ensures
        forall|i: int, j: int| 0 <= i < j < r.len() ==> r[i].0@ != r[j].0@,
        forall|i: int| 0 <= i < r.len() ==> {
            &&& table_of(m).contains_key(#[trigger] r[i].0@)
            &&& table_of(m)[r[i].0@] == r[i].1
        },
        forall|k: Seq<char>| #[trigger] table_of(m).contains_key(k) ==> exists|i: int| 0 <= i < r.len() && #[trigger] r[i].0@ == k,
{
    m.into_iter().collect()
}

/// How often `k` occurs in `list`.
pub open spec fn occ_in(list: Seq<Seq<char>>, k: Seq<char>) -> nat
    decreases list.len(),
{
    if list.len() == 0 {
        0
    } else {
        occ_in(list.drop_last(), k) + if list.last() == k { 1nat } else { 0nat }
    }
}

/// How often `k` occurs over all the lists.
pub open spec fn occ(lists: Seq<Seq<Seq<char>>>, k: Seq<char>) -> nat
    decreases lists.len(),
{
    if lists.len() == 0 {
        0
    } else {
        occ(lists.drop_last(), k) + occ_in(lists.last(), k)
    }
}

/// How many items the lists hold together.
pub open spec fn total(lists: Seq<Seq<Seq<char>>>) -> nat
    decreases lists.len(),
{
    if lists.len() == 0 {
        0
    } else {
        total(lists.drop_last()) + lists.last().len()
    }
}

/// The items that occur more than `t` times, each with its number of occurrences.
pub open spec fn tally(lists: Seq<Seq<Seq<char>>>, t: nat) -> Map<Seq<char>, nat> {
    Map::new(|k: Seq<char>| occ(lists, k) > t, |k: Seq<char>| occ(lists, k))
}

/// The entries of `m` whose count exceeds `t`.
pub open spec fn above(m: Map<Seq<char>, nat>, t: nat) -> Map<Seq<char>, nat> {
    Map::new(|k: Seq<char>| m.contains_key(k) && m[k] > t, |k: Seq<char>| m[k])
}

pub open spec fn nested_views(lists: Seq<Vec<Vec<char>>>) -> Seq<Seq<Seq<char>>> {
    lists.map_values(|l: Vec<Vec<char>>| views_of(l@))
}

proof fn lemma_occ_in_bound(list: Seq<Seq<char>>, k: Seq<char>)
    ensures
        occ_in(list, k) <= list.len(),
    decreases list.len(),
{
    if list.len() > 0 {
        lemma_occ_in_bound(list.drop_last(), k);
    }
}

pub proof fn lemma_occ_bound(lists: Seq<Seq<Seq<char>>>, k: Seq<char>)
    ensures
        occ(lists, k) <= total(lists),
    decreases lists.len(),
{
    if lists.len() > 0 {
        lemma_occ_bound(lists.drop_last(), k);
        lemma_occ_in_bound(lists.last(), k);
    }
}

proof fn lemma_total_prefix(lists: Seq<Seq<Seq<char>>>, i: int)
    requires
        0 <= i < lists.len(),
    ensures
        total(lists.take(i)) + lists[i].len() <= total(lists),
    decreases lists.len(),
{
    if i < lists.len() - 1 {
        lemma_total_prefix(lists.drop_last(), i);
        assert(lists.drop_last().take(i) == lists.take(i));
    } else {
        assert(lists.drop_last() == lists.take(i));
    }
}

/// The count `m` holds for `k`, zero where it holds none.
pub open spec fn count_of(m: Map<Seq<char>, nat>, k: Seq<char>) -> nat {
    if m.contains_key(k) {
        m[k]
    } else {
        0
    }
}

/// `m` with every occurrence of every item of the lists added to it.
pub open spec fn added(m: Map<Seq<char>, nat>, lists: Seq<Seq<Seq<char>>>) -> Map<Seq<char>, nat> {
    Map::new(
        |k: Seq<char>| m.contains_key(k) || occ(lists, k) > 0,
        |k: Seq<char>| count_of(m, k) + occ(lists, k),
    )
}

/// Adds every item of every list to the table: each count grows by the
/// item's number of occurrences, and an item first seen enters the table.
pub fn count_into(m: &mut Table, lists: &Vec<Vec<Vec<char>>>)
    requires
        forall|k: Seq<char>| #[trigger] count_of(table_of(*old(m)), k) + total(nested_views(lists@)) <= usize::MAX,
    ensures
        table_of(*final(m)) == added(table_of(*old(m)), nested_views(lists@)),
{
    let ghost all = nested_views(lists@);
    let ghost m0 = table_of(*m);
    let mut i: usize = 0;
    assert(table_of(*m) =~= added(m0, all.take(0)));
    while i < lists.len()
        invariant
            i <= lists.len(),
            all == nested_views(lists@),
            forall|k: Seq<char>| #[trigger] count_of(m0, k) + total(all) <= usize::MAX,
            table_of(*m) == added(m0, all.take(i as int)),
        decreases lists.len() - i,
    {
        let list = &lists[i];
        let ghost done = all.take(i as int);
        let ghost cur = all[i as int];
        assert(cur == views_of(list@));
        proof {
            lemma_total_prefix(all, i as int);
        }
        let mut j: usize = 0;
        while j < list.len()
            invariant
                i < lists.len(),
                list == lists[i as int],
                j <= list.len(),
                cur == views_of(list@),
                forall|k: Seq<char>| #[trigger] count_of(m0, k) + total(done) + cur.len() <= usize::MAX,
                table_of(*m) == Map::new(
                    |k: Seq<char>| m0.contains_key(k) || occ(done, k) + occ_in(cur.take(j as int), k) > 0,
                    |k: Seq<char>| count_of(m0, k) + occ(done, k) + occ_in(cur.take(j as int), k),
                ),
            decreases list.len() - j,
        {
            let key = &list[j];
            assert(cur.take(j + 1).drop_last() == cur.take(j as int));
            assert(cur.take(j + 1).last() == key@);
            proof {
                lemma_occ_bound(done, key@);
                lemma_occ_in_bound(cur.take(j as int), key@);
                assert(count_of(m0, key@) + total(done) + cur.len() <= usize::MAX);
            }
            let n = match table_get(m, key) {
                Some(c) => c + 1,
                None => 1,
            };
            table_insert(m, key.clone(), n);
            assert(table_of(*m) =~= Map::new(
                |k: Seq<char>| m0.contains_key(k) || occ(done, k) + occ_in(cur.take(j + 1), k) > 0,
                |k: Seq<char>| count_of(m0, k) + occ(done, k) + occ_in(cur.take(j + 1), k),
            ));
            j += 1;
        }
        assert(cur.take(j as int) == cur);
        assert(all.take(i + 1).drop_last() == done);
        assert(all.take(i + 1).last() == cur);
        assert(table_of(*m) =~= added(m0, all.take(i + 1)));
        i += 1;
    }
    assert(all.take(i as int) == all);
}

/// A new, empty table.
pub fn empty_table() -> (r: Table)
    ensures
        table_of(r) == no_counts(),
{
    new_table()
}

/// Occurrences over two runs of lists add up.
pub proof fn lemma_occ_concat(a: Seq<Seq<Seq<char>>>, b: Seq<Seq<Seq<char>>>, k: Seq<char>)
    ensures
        occ(a + b, k) == occ(a, k) + occ(b, k),
        total(a + b) == total(a) + total(b),
    decreases b.len(),
{
    if b.len() == 0 {
        assert(a + b == a);
    } else {
        lemma_occ_concat(a, b.drop_last(), k);
        assert((a + b).drop_last() == a + b.drop_last());
        assert((a + b).last() == b.last());
    }
}

/// Keeps the entries whose count exceeds `t`.
pub fn prune(m: Table, t: usize) -> (r: Table)
    ensures
        table_of(r) == above(table_of(m), t as nat),
{
    let ghost src = table_of(m);
    let entries = table_entries(m);
    let mut out = new_table();
    let mut i: usize = 0;
    while i < entries.len()
        invariant
            i <= entries.len(),
            forall|a: int, b: int| 0 <= a < b < entries.len() ==> entries[a].0@ != entries[b].0@,
            forall|a: int| 0 <= a < entries.len() ==> {
                &&& src.contains_key(#[trigger] entries[a].0@)
                &&& src[entries[a].0@] == entries[a].1
            },
            table_of(out) == Map::new(
                |k: Seq<char>| exists|a: int| 0 <= a < i && #[trigger] entries[a].0@ == k && entries[a].1 > t,
                |k: Seq<char>| src[k],
            ),
        decreases entries.len() - i,
    {
        let (key, count) = (&entries[i].0, entries[i].1);
        if count > t {
            table_insert(&mut out, key.clone(), count);
        }
        assert(table_of(out) =~= Map::new(
            |k: Seq<char>| exists|a: int| 0 <= a < i + 1 && #[trigger] entries[a].0@ == k && entries[a].1 > t,
            |k: Seq<char>| src[k],
        ));
        i += 1;
    }
    assert(table_of(out) =~= above(src, t as nat));
    out
}

/// An item that occurs in a list stands at some index of it.
pub proof fn lemma_occ_in_positive(list: Seq<Seq<char>>, k: Seq<char>)
    requires
        occ_in(list, k) > 0,
    ensures
        exists|j: int| 0 <= j < list.len() && #[trigger] list[j] == k,
    decreases list.len(),
{
    if list.last() == k {
        assert(list[list.len() - 1] == k);
    } else {
        lemma_occ_in_positive(list.drop_last(), k);
        let j = choose|j: int| 0 <= j < list.drop_last().len() && #[trigger] list.drop_last()[j] == k;
        assert(list[j] == k);
    }
}

/// An item that occurs over the lists occurs in one of them.
pub proof fn lemma_occ_positive(lists: Seq<Seq<Seq<char>>>, k: Seq<char>)
    requires
        occ(lists, k) > 0,
    ensures
        exists|i: int| 0 <= i < lists.len() && occ_in(#[trigger] lists[i], k) > 0,
    decreases lists.len(),
{
    if occ_in(lists.last(), k) > 0 {
        assert(occ_in(lists[lists.len() - 1], k) > 0);
    } else {
        lemma_occ_positive(lists.drop_last(), k);
        let i = choose|i: int| 0 <= i < lists.drop_last().len() && occ_in(#[trigger] lists.drop_last()[i], k) > 0;
        assert(lists[i] == lists.drop_last()[i]);
    }
}

} // verus!
