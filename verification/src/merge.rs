//! Two mappings as one: the merge, and the laws that let partial mappings be
//! merged in any grouping.

use vstd::prelude::*;
use crate::stations::{
    distinct_keys,
    entries_map,
    fold_entry,
    lemma_entries_insert,
    lemma_entries_map,
    Entry,
    Stations,
};
use crate::stats::Stats;

verus! {

/// Two mappings as one: every key of either, with the statistics combined
/// where both hold the key.
pub open spec fn merge_maps(a: Map<Seq<char>, Stats>, b: Map<Seq<char>, Stats>) -> Map<
    Seq<char>,
    Stats,
> {
    Map::new(
        |k: Seq<char>| a.contains_key(k) || b.contains_key(k),
        |k: Seq<char>|
            if a.contains_key(k) && b.contains_key(k) {
                a[k].combine(b[k])
            } else if a.contains_key(k) {
                a[k]
            } else {
                b[k]
            },
    )
}

/// Whether the counts under every key that both mappings hold add up to a
/// count that fits 64 bits.
pub open spec fn counts_fit(a: Map<Seq<char>, Stats>, b: Map<Seq<char>, Stats>) -> bool {
    forall|k: Seq<char>| #[trigger]
        a.contains_key(k) && b.contains_key(k) ==> a[k].count + b[k].count <= u64::MAX
}

/// Folding statistics into the second of two mappings under a key, and then
/// merging, gives what folding them into the merged mapping gives.
pub proof fn lemma_merge_fold(
    a: Map<Seq<char>, Stats>,
    b: Map<Seq<char>, Stats>,
    key: Seq<char>,
    s: Stats,
)
    ensures
        merge_maps(a, fold_entry(b, key, s)) == fold_entry(merge_maps(a, b), key, s),
{
    if a.contains_key(key) && b.contains_key(key) {
        Stats::lemma_combine_associative(a[key], b[key], s);
    }
    assert(merge_maps(a, fold_entry(b, key, s)) =~= fold_entry(merge_maps(a, b), key, s));
}

/// Merging with the mapping without keys changes nothing.
pub proof fn lemma_merge_empty(a: Map<Seq<char>, Stats>)
    ensures
        merge_maps(a, Map::empty()) == a,
        merge_maps(Map::empty(), a) == a,
{
    assert(merge_maps(a, Map::empty()) =~= a);
    assert(merge_maps(Map::empty(), a) =~= a);
}

/// Merging three mappings gives the same statistics under every key however
/// the merges are grouped.
pub proof fn lemma_merge_associative(
    a: Map<Seq<char>, Stats>,
    b: Map<Seq<char>, Stats>,
    c: Map<Seq<char>, Stats>,
)
    ensures
        merge_maps(merge_maps(a, b), c) == merge_maps(a, merge_maps(b, c)),
{
    assert forall|k: Seq<char>|
        a.contains_key(k) && b.contains_key(k) && c.contains_key(k) implies a[k].combine(
        b[k],
    ).combine(c[k]) == a[k].combine(b[k].combine(c[k])) by {
        Stats::lemma_combine_associative(a[k], b[k], c[k]);
    }
    assert(merge_maps(merge_maps(a, b), c) =~= merge_maps(a, merge_maps(b, c)));
}

/// Merging two mappings gives the same statistics under every key whichever
/// comes first.
pub proof fn lemma_merge_commutative(a: Map<Seq<char>, Stats>, b: Map<Seq<char>, Stats>)
    ensures
        merge_maps(a, b) == merge_maps(b, a),
{
    assert forall|k: Seq<char>| a.contains_key(k) && b.contains_key(k) implies a[k].combine(b[k])
        == b[k].combine(a[k]) by {
        Stats::lemma_combine_commutative(a[k], b[k]);
    }
    assert(merge_maps(a, b) =~= merge_maps(b, a));
}

/// Merges the second mapping into the first: every key of either, with the
/// statistics combined where both hold the key.
pub fn merge<'a>(m1: Stations<'a>, m2: &Stations<'a>) -> (m: Stations<'a>)
    requires
        m1.wf(),
        m2.wf(),
        counts_fit(m1@, m2@),
    ensures
        m.wf(),
        m@ == merge_maps(m1@, m2@),
{
    let ghost a = m1@;
    let ghost es = m2.spec_entries();
    let n: usize = m2.len();
    let mut m = m1;
    let mut i: usize = 0;
    proof {
        m2.lemma_wf();
        lemma_merge_empty(a);
        assert(entries_map(es.take(0)) =~= Map::<Seq<char>, Stats>::empty());
    }
    while i < n
        invariant
            i <= n,
            n == es.len(),
            es == m2.spec_entries(),
            m.wf(),
            m2.wf(),
            distinct_keys(es),
            m2@ == entries_map(es),
            counts_fit(a, m2@),
            m@ == merge_maps(a, entries_map(es.take(i as int))),
        decreases n - i,
    {
        let e: Entry<'a> = m2.entry(i);
        let data = e.data();
        proof {
            let head = es.take(i as int);
            m2.lemma_entry_wf(i as int);
            assert(es.take(i + 1) =~= head.insert(head.len() as int, e));
            assert(distinct_keys(head.insert(head.len() as int, e))) by {
                let next = es.take(i + 1);
                assert forall|x: int, y: int| 0 <= x < y < next.len() implies
                    #[trigger] next[x].spec_key() != #[trigger] next[y].spec_key() by {
                    assert(next[x] == es[x]);
                    assert(next[y] == es[y]);
                }
            }
            lemma_entries_insert(head, head.len() as int, e);
            lemma_entries_map(es);
            assert(m2@.contains_key(e.spec_key()) && m2@[e.spec_key()] == e.spec_data());
            assert(fold_entry(entries_map(head), e.spec_key(), e.spec_data()) == entries_map(
                es.take(i + 1),
            ));
            lemma_merge_fold(a, entries_map(head), e.spec_key(), e.spec_data());
        }
        m.fold(e.key(), &data);
        i = i + 1;
    }
    assert(es.take(i as int) =~= es);
    m
}

} // verus!
