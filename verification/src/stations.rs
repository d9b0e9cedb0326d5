//! The mapping from key to statistics, and the folding of observations into
//! it.

use vstd::prelude::*;
use crate::stats::{StationData, Stats};
use crate::text::{key_lt, lemma_key_lt_strict, order_text, KeyOrder};

verus! {

/// The mapping `m` after statistics `s` were folded in under `key`.
pub open spec fn fold_entry(m: Map<Seq<char>, Stats>, key: Seq<char>, s: Stats) -> Map<
    Seq<char>,
    Stats,
> {
    m.insert(
        key,
        if m.contains_key(key) {
            m[key].combine(s)
        } else {
            s
        },
    )
}

/// The mapping `m` after one value was observed under `key`.
pub open spec fn observe_entry(m: Map<Seq<char>, Stats>, key: Seq<char>, value: int) -> Map<
    Seq<char>,
    Stats,
> {
    fold_entry(m, key, Stats::single(value))
}

/// Whether the statistics under every key are those of a non-empty group.
pub open spec fn all_wf(m: Map<Seq<char>, Stats>) -> bool {
    forall|k: Seq<char>| m.contains_key(k) ==> (#[trigger] m[k]).wf()
}

/// Whether no count in `m` is above `bound`.
pub open spec fn counts_within(m: Map<Seq<char>, Stats>, bound: int) -> bool {
    forall|k: Seq<char>| m.contains_key(k) ==> (#[trigger] m[k]).count <= bound
}

/// One key with its statistics.
#[derive(Clone, Copy, Debug)]
pub struct Entry<'a> {
    key: &'a str,
    data: StationData,
}

impl<'a> Entry<'a> {
    /// The text of the key.
    pub closed spec fn spec_key(&self) -> Seq<char> {
        self.key@
    }

    /// The statistics held under the key.
    pub closed spec fn spec_data(&self) -> Stats {
        self.data@
    }

    /// The key.
    pub fn key(&self) -> (r: &'a str)
        ensures
            r@ == self.spec_key(),
    {
        self.key
    }

    /// The statistics held under the key.
    pub fn data(&self) -> (r: StationData)
        ensures
            r@ == self.spec_data(),
            r.wf() == self.spec_data().wf(),
    {
        self.data
    }
}

/// Whether entry `i` of `es` holds `key`.
pub open spec fn holds_key(es: Seq<Entry<'_>>, i: int, key: Seq<char>) -> bool {
    0 <= i < es.len() && es[i].spec_key() == key
}

/// The mapping that a list of entries stands for.
pub open spec fn entries_map(es: Seq<Entry<'_>>) -> Map<Seq<char>, Stats> {
    Map::new(
        |k: Seq<char>| exists|i: int| holds_key(es, i, k),
        |k: Seq<char>| es[choose|i: int| holds_key(es, i, k)].spec_data(),
    )
}

/// Whether no key stands twice in `es`.
pub open spec fn distinct_keys(es: Seq<Entry<'_>>) -> bool {
    forall|i: int, j: int|
        0 <= i < j < es.len() ==> #[trigger] es[i].spec_key() != #[trigger] es[j].spec_key()
}

/// Whether the keys of `es` stand in rising order.
pub open spec fn sorted_keys(es: Seq<Entry<'_>>) -> bool {
    forall|i: int, j: int|
        #![trigger es[i], es[j]]
        0 <= i < j < es.len() ==> key_lt(es[i].spec_key(), es[j].spec_key())
}

/// In rising order no key stands twice.
pub proof fn lemma_sorted_distinct(es: Seq<Entry<'_>>)
    requires
        sorted_keys(es),
    ensures
        distinct_keys(es),
{
    assert forall|i: int, j: int| 0 <= i < j < es.len() implies #[trigger] es[i].spec_key()
        != #[trigger] es[j].spec_key() by {
        assert(key_lt(es[i].spec_key(), es[j].spec_key()));
        lemma_key_lt_strict(es[i].spec_key(), es[i].spec_key(), es[i].spec_key());
    }
}

/// Under distinct keys, each entry's key maps to that entry's statistics.
pub proof fn lemma_entries_map(es: Seq<Entry<'_>>)
    requires
        distinct_keys(es),
    ensures
        forall|i: int|
            0 <= i < es.len() ==> entries_map(es).contains_key(#[trigger] es[i].spec_key())
                && entries_map(es)[es[i].spec_key()] == es[i].spec_data(),
        forall|k: Seq<char>|
            entries_map(es).contains_key(k) ==> exists|i: int| #[trigger] holds_key(es, i, k),
{
    assert forall|i: int| 0 <= i < es.len() implies entries_map(es).contains_key(
        #[trigger] es[i].spec_key(),
    ) && entries_map(es)[es[i].spec_key()] == es[i].spec_data() by {
        let k = es[i].spec_key();
        assert(holds_key(es, i, k));
        let j = choose|j: int| holds_key(es, j, k);
        assert(holds_key(es, j, k));
        assert(j == i);
    }
}

/// A list with one more entry under a new key, wherever it was put in, stands
/// for the mapping with that key added.
pub proof fn lemma_entries_insert(es: Seq<Entry<'_>>, at: int, e: Entry<'_>)
    requires
        0 <= at <= es.len(),
        distinct_keys(es.insert(at, e)),
    ensures
        distinct_keys(es),
        !entries_map(es).contains_key(e.spec_key()),
        entries_map(es.insert(at, e)) == entries_map(es).insert(e.spec_key(), e.spec_data()),
{
    let after = es.insert(at, e);
    let up = |j: int|
        if j < at {
            j
        } else {
            j + 1
        };
    assert forall|j: int| 0 <= j < es.len() implies after[up(j)] == es[j] by {}
    assert(after[at] == e);
    assert(distinct_keys(es)) by {
        assert forall|x: int, y: int| 0 <= x < y < es.len() implies #[trigger] es[x].spec_key()
            != #[trigger] es[y].spec_key() by {
            assert(after[up(x)] == es[x]);
            assert(after[up(y)] == es[y]);
        }
    }
    lemma_entries_map(after);
    lemma_entries_map(es);
    assert(!entries_map(es).contains_key(e.spec_key())) by {
        if entries_map(es).contains_key(e.spec_key()) {
            let j = choose|j: int| holds_key(es, j, e.spec_key());
            assert(holds_key(es, j, e.spec_key()));
            assert(after[up(j)] == es[j]);
        }
    }
    let target = entries_map(es).insert(e.spec_key(), e.spec_data());
    assert forall|k: Seq<char>| entries_map(after).contains_key(k) == target.contains_key(k) by {
        if entries_map(after).contains_key(k) {
            let j = choose|j: int| holds_key(after, j, k);
            assert(holds_key(after, j, k));
            if j < at {
                assert(holds_key(es, j, k));
            } else if j > at {
                assert(after[j] == es[j - 1]);
                assert(holds_key(es, j - 1, k));
            }
        }
        if entries_map(es).contains_key(k) {
            let j = choose|j: int| holds_key(es, j, k);
            assert(holds_key(es, j, k));
            assert(after[up(j)] == es[j]);
            assert(holds_key(after, up(j), k));
        }
        if k == e.spec_key() {
            assert(holds_key(after, at, k));
        }
    }
    assert forall|k: Seq<char>| entries_map(after).contains_key(k) implies entries_map(after)[k]
        == target[k] by {
        let j = choose|j: int| holds_key(after, j, k);
        assert(holds_key(after, j, k));
        if j < at {
            assert(holds_key(es, j, k));
        } else if j > at {
            assert(after[j] == es[j - 1]);
            assert(holds_key(es, j - 1, k));
        }
    }
    assert(entries_map(after) =~= target);
}

/// A list with the statistics under one key replaced stands for the mapping
/// with the new statistics under that key.
pub proof fn lemma_entries_update(es: Seq<Entry<'_>>, at: int, e: Entry<'_>)
    requires
        0 <= at < es.len(),
        distinct_keys(es),
        e.spec_key() == es[at].spec_key(),
    ensures
        distinct_keys(es.update(at, e)),
        entries_map(es.update(at, e)) == entries_map(es).insert(e.spec_key(), e.spec_data()),
{
    let after = es.update(at, e);
    assert forall|j: int| 0 <= j < es.len() implies #[trigger] after[j].spec_key()
        == es[j].spec_key() by {}
    assert(distinct_keys(after)) by {
        assert forall|x: int, y: int| 0 <= x < y < after.len() implies
            #[trigger] after[x].spec_key() != #[trigger] after[y].spec_key() by {
            assert(after[x].spec_key() == es[x].spec_key());
            assert(after[y].spec_key() == es[y].spec_key());
        }
    }
    lemma_entries_map(after);
    lemma_entries_map(es);
    let target = entries_map(es).insert(e.spec_key(), e.spec_data());
    assert forall|k: Seq<char>| entries_map(after).contains_key(k) == target.contains_key(k) by {
        if entries_map(after).contains_key(k) {
            let j = choose|j: int| holds_key(after, j, k);
            assert(holds_key(after, j, k));
            assert(after[j].spec_key() == es[j].spec_key());
            assert(holds_key(es, j, k));
        }
        if entries_map(es).contains_key(k) {
            let j = choose|j: int| holds_key(es, j, k);
            assert(holds_key(es, j, k));
            assert(after[j].spec_key() == es[j].spec_key());
            assert(holds_key(after, j, k));
        }
        if k == e.spec_key() {
            assert(holds_key(after, at, k));
        }
    }
    assert forall|k: Seq<char>| entries_map(after).contains_key(k) implies entries_map(after)[k]
        == target[k] by {
        let j = choose|j: int| holds_key(after, j, k);
        assert(holds_key(after, j, k));
        assert(after[j].spec_key() == es[j].spec_key());
        assert(holds_key(es, j, k));
    }
    assert(entries_map(after) =~= target);
}

/// Under distinct keys a list stands for a mapping with as many keys as the
/// list has entries.
pub proof fn lemma_entries_len(es: Seq<Entry<'_>>)
    requires
        distinct_keys(es),
    ensures
        entries_map(es).dom().finite(),
        entries_map(es).dom().len() == es.len(),
    decreases es.len(),
{
    if es.len() == 0 {
        assert(entries_map(es).dom() =~= Set::<Seq<char>>::empty());
    } else {
        let head = es.drop_last();
        let e = es.last();
        assert(es =~= head.insert(head.len() as int, e));
        lemma_entries_insert(head, head.len() as int, e);
        lemma_entries_len(head);
        assert(entries_map(es).dom() =~= entries_map(head).dom().insert(e.spec_key()));
    }
}

/// Two lists in rising order that stand for the same mapping hold the same
/// keys with the same statistics at the same places.
pub proof fn lemma_entries_canonical(a: Seq<Entry<'_>>, b: Seq<Entry<'_>>)
    requires
        sorted_keys(a),
        sorted_keys(b),
        entries_map(a) == entries_map(b),
    ensures
        a.len() == b.len(),
        forall|i: int|
            0 <= i < a.len() ==> (#[trigger] a[i]).spec_key() == b[i].spec_key()
                && a[i].spec_data() == b[i].spec_data(),
    decreases a.len(),
{
    lemma_sorted_distinct(a);
    lemma_sorted_distinct(b);
    lemma_entries_len(a);
    lemma_entries_len(b);
    lemma_entries_map(a);
    lemma_entries_map(b);
    if a.len() > 0 {
        let ea = a.last();
        let eb = b.last();
        let ka = ea.spec_key();
        let kb = eb.spec_key();
        // Each last key is the greatest of the same set of keys.
        assert(ka == kb) by {
            assert(entries_map(b).contains_key(ka));
            let j = choose|j: int| holds_key(b, j, ka);
            assert(holds_key(b, j, ka));
            assert(entries_map(a).contains_key(kb));
            let i = choose|i: int| holds_key(a, i, kb);
            assert(holds_key(a, i, kb));
            if ka != kb {
                assert(key_lt(b[j].spec_key(), b[b.len() - 1].spec_key()));
                assert(key_lt(a[i].spec_key(), a[a.len() - 1].spec_key()));
                lemma_key_lt_strict(ka, kb, ka);
            }
        }
        let ha = a.drop_last();
        let hb = b.drop_last();
        assert(a =~= ha.insert(ha.len() as int, ea));
        assert(b =~= hb.insert(hb.len() as int, eb));
        lemma_entries_insert(ha, ha.len() as int, ea);
        lemma_entries_insert(hb, hb.len() as int, eb);
        assert(entries_map(ha) =~= entries_map(a).remove(ka));
        assert(entries_map(hb) =~= entries_map(b).remove(kb));
        assert(sorted_keys(ha)) by {
            assert forall|x: int, y: int| 0 <= x < y < ha.len() implies key_lt(
                ha[x].spec_key(),
                ha[y].spec_key(),
            ) by {
                assert(key_lt(a[x].spec_key(), a[y].spec_key()));
            }
        }
        assert(sorted_keys(hb)) by {
            assert forall|x: int, y: int| 0 <= x < y < hb.len() implies key_lt(
                hb[x].spec_key(),
                hb[y].spec_key(),
            ) by {
                assert(key_lt(b[x].spec_key(), b[y].spec_key()));
            }
        }
        lemma_entries_canonical(ha, hb);
        assert forall|i: int| 0 <= i < a.len() implies (#[trigger] a[i]).spec_key()
            == b[i].spec_key() && a[i].spec_data() == b[i].spec_data() by {
            if i < ha.len() {
                assert(a[i] == ha[i]);
                assert(b[i] == hb[i]);
            } else {
                assert(entries_map(a)[ka] == ea.spec_data());
                assert(entries_map(b)[kb] == eb.spec_data());
            }
        }
    }
}

/// The key-to-statistics mapping of one span of input.
#[derive(Clone, Debug)]
pub struct Stations<'a> {
    entries: Vec<Entry<'a>>,
}

impl<'a> View for Stations<'a> {
    type V = Map<Seq<char>, Stats>;

    closed spec fn view(&self) -> Map<Seq<char>, Stats> {
        entries_map(self.entries@)
    }
}

impl<'a> Stations<'a> {
    /// Whether the mapping is sound: the keys stand in rising order, each once,
    /// and the statistics under each are those of a non-empty group.
    pub closed spec fn wf(&self) -> bool {
        &&& sorted_keys(self.entries@)
        &&& forall|i: int| 0 <= i < self.entries@.len() ==> (#[trigger] self.entries@[i]).data.wf()
    }

    /// The entries, in the rising order of their keys.
    pub closed spec fn spec_entries(&self) -> Seq<Entry<'a>> {
        self.entries@
    }

    /// A sound mapping holds well-formed statistics under every key, its keys
    /// are those of its entries, in rising order and so each once, and all
    /// counts fit 64 bits. It has as many keys as entries.
    pub proof fn lemma_wf(&self)
        requires
            self.wf(),
        ensures
            all_wf(self@),
            counts_within(self@, u64::MAX as int),
            self@ == entries_map(self.spec_entries()),
            sorted_keys(self.spec_entries()),
            distinct_keys(self.spec_entries()),
            self@.dom().finite(),
            self@.len() == self.spec_entries().len(),
    {
        lemma_sorted_distinct(self.entries@);
        lemma_entries_len(self.entries@);
        lemma_entries_map(self.entries@);
        assert forall|k: Seq<char>| self@.contains_key(k) implies (#[trigger] self@[k]).wf()
            && self@[k].count <= u64::MAX by {
            let i = choose|i: int| holds_key(self.entries@, i, k);
            assert(holds_key(self.entries@, i, k));
            assert(self.entries@[i].data.wf());
            self.entries@[i].data.lemma_view_fits();
        }
    }

    /// **One mapping, one list of entries.** Sound mappings with the same
    /// keys and statistics hold them in the same entries, in the same order.
    pub proof fn lemma_same_entries(&self, other: &Stations<'_>)
        requires
            self.wf(),
            other.wf(),
            self@ == other@,
        ensures
            self.spec_entries().len() == other.spec_entries().len(),
            forall|i: int|
                0 <= i < self.spec_entries().len() ==> (#[trigger] self.spec_entries()[i]).spec_key()
                    == other.spec_entries()[i].spec_key() && self.spec_entries()[i].spec_data()
                    == other.spec_entries()[i].spec_data(),
    {
        lemma_entries_canonical(self.entries@, other.entries@);
    }

    /// Every entry of a sound mapping holds well-formed statistics.
    pub proof fn lemma_entry_wf(&self, i: int)
        requires
            self.wf(),
            0 <= i < self.spec_entries().len(),
        ensures
            self.spec_entries()[i].spec_data().wf(),
    {
        assert(self.entries@[i].data.wf());
    }

    /// The mapping without any key.
    pub fn new() -> (r: Stations<'a>)
        ensures
            r.wf(),
            r@ == Map::<Seq<char>, Stats>::empty(),
    {
        let r = Stations { entries: Vec::new() };
        assert(r@ =~= Map::<Seq<char>, Stats>::empty());
        r
    }

    /// The number of keys.
    pub fn len(&self) -> (r: usize)
        ensures
            r == self.spec_entries().len(),
            self.wf() ==> r == self@.len(),
    {
        proof {
            if self.wf() {
                self.lemma_wf();
            }
        }
        self.entries.len()
    }

    /// Whether the mapping holds no key.
    pub fn is_empty(&self) -> (r: bool)
        ensures
            r == (self.spec_entries().len() == 0),
            self.wf() ==> r == (self@ == Map::<Seq<char>, Stats>::empty()),
    {
        proof {
            if self.wf() {
                lemma_sorted_distinct(self.entries@);
                lemma_entries_map(self.entries@);
                if self.entries@.len() == 0 {
                    assert(self@ =~= Map::<Seq<char>, Stats>::empty());
                } else {
                    assert(self@.contains_key(self.entries@[0].spec_key()));
                }
            }
        }
        self.entries.len() == 0
    }

    /// Entry `i`, counted in the rising order of the keys.
    pub fn entry(&self, i: usize) -> (r: Entry<'a>)
        requires
            i < self.spec_entries().len(),
        ensures
            r == self.spec_entries()[i as int],
    {
        self.entries[i]
    }

    /// The place of `key` among the entries, or the place where it would have
    /// to be put in.
    fn locate(&self, key: &str) -> (r: (usize, bool))
        requires
            sorted_keys(self.entries@),
        ensures
            r.0 <= self.entries@.len(),
            r.1 ==> holds_key(self.entries@, r.0 as int, key@),
            !r.1 ==> forall|j: int|
                0 <= j < r.0 ==> key_lt((#[trigger] self.entries@[j]).spec_key(), key@),
            !r.1 ==> forall|j: int|
                r.0 <= j < self.entries@.len() ==> key_lt(
                    key@,
                    (#[trigger] self.entries@[j]).spec_key(),
                ),
    {
        let mut lo: usize = 0;
        let mut hi: usize = self.entries.len();
        while lo < hi
            invariant
                lo <= hi <= self.entries@.len(),
                sorted_keys(self.entries@),
                forall|j: int|
                    0 <= j < lo ==> key_lt((#[trigger] self.entries@[j]).spec_key(), key@),
                forall|j: int|
                    hi <= j < self.entries@.len() ==> key_lt(
                        key@,
                        (#[trigger] self.entries@[j]).spec_key(),
                    ),
            decreases hi - lo,
        {
            let mid: usize = lo + (hi - lo) / 2;
            let ghost es = self.entries@;
            match order_text(self.entries[mid].key, key) {
                KeyOrder::Same => {
                    return (mid, true);
                },
                KeyOrder::Before => {
                    proof {
                        assert forall|j: int| 0 <= j < mid + 1 implies key_lt(
                            (#[trigger] es[j]).spec_key(),
                            key@,
                        ) by {
                            if j < mid {
                                assert(key_lt(es[j].spec_key(), es[mid as int].spec_key()));
                                lemma_key_lt_strict(
                                    es[j].spec_key(),
                                    es[mid as int].spec_key(),
                                    key@,
                                );
                            }
                        }
                    }
                    lo = mid + 1;
                },
                KeyOrder::After => {
                    proof {
                        assert forall|j: int| mid <= j < es.len() implies key_lt(
                            key@,
                            (#[trigger] es[j]).spec_key(),
                        ) by {
                            if j > mid {
                                assert(key_lt(es[mid as int].spec_key(), es[j].spec_key()));
                                lemma_key_lt_strict(
                                    key@,
                                    es[mid as int].spec_key(),
                                    es[j].spec_key(),
                                );
                            }
                        }
                    }
                    hi = mid;
                },
            }
        }
        (lo, false)
    }

    /// The statistics under `key`, where the mapping holds it.
    pub fn get(&self, key: &str) -> (r: Option<StationData>)
        requires
            self.wf(),
        ensures
            match r {
                Some(d) => self@.contains_key(key@) && d@ == self@[key@] && d.wf(),
                None => !self@.contains_key(key@),
            },
    {
        proof {
            lemma_sorted_distinct(self.entries@);
            lemma_entries_map(self.entries@);
        }
        let (at, found) = self.locate(key);
        if found {
            Some(self.entries[at].data)
        } else {
            proof {
                self.lemma_absent(at as int, key@);
            }
            None
        }
    }

    /// A key that comes after all entries before `at` and before all others
    /// is not in the mapping.
    proof fn lemma_absent(&self, at: int, key: Seq<char>)
        requires
            0 <= at <= self.entries@.len(),
            forall|j: int| 0 <= j < at ==> key_lt((#[trigger] self.entries@[j]).spec_key(), key),
            forall|j: int|
                at <= j < self.entries@.len() ==> key_lt(
                    key,
                    (#[trigger] self.entries@[j]).spec_key(),
                ),
        ensures
            forall|j: int| !holds_key(self.entries@, j, key),
            !self@.contains_key(key),
    {
        lemma_key_lt_strict(key, key, key);
        assert forall|j: int| !holds_key(self.entries@, j, key) by {
            if 0 <= j < self.entries@.len() {
                let e = self.entries@[j];
                if j < at {
                    assert(key_lt(e.spec_key(), key));
                } else {
                    assert(key_lt(key, e.spec_key()));
                }
            }
        }
    }

    /// Folds the statistics `data` into the mapping under `key`: combined with
    /// what the key holds, or as they are where the key is new.
    pub fn fold(&mut self, key: &'a str, data: &StationData)
        requires
            old(self).wf(),
            data.wf(),
            old(self)@.contains_key(key@) ==> old(self)@[key@].count + data@.count <= u64::MAX,
        ensures
            final(self).wf(),
            final(self)@ == fold_entry(old(self)@, key@, data@),
    {
        proof {
            lemma_sorted_distinct(self.entries@);
            lemma_entries_map(self.entries@);
        }
        let ghost before = self.entries@;
        let (at, found) = self.locate(key);
        if found {
            let mut e: Entry<'a> = self.entries[at];
            e.data.merge(data);
            self.entries.set(at, e);
            proof {
                let after = self.entries@;
                assert(after =~= before.update(at as int, e));
                lemma_entries_update(before, at as int, e);
                assert(sorted_keys(after)) by {
                    assert forall|x: int, y: int| 0 <= x < y < after.len() implies key_lt(
                        after[x].spec_key(),
                        after[y].spec_key(),
                    ) by {
                        assert(after[x].spec_key() == before[x].spec_key());
                        assert(after[y].spec_key() == before[y].spec_key());
                        assert(key_lt(before[x].spec_key(), before[y].spec_key()));
                    }
                }
            }
        } else {
            let e: Entry<'a> = Entry { key, data: *data };
            self.entries.insert(at, e);
            proof {
                let after = self.entries@;
                assert(after =~= before.insert(at as int, e));
                old(self).lemma_absent(at as int, key@);
                assert(sorted_keys(after)) by {
                    assert forall|x: int, y: int| 0 <= x < y < after.len() implies key_lt(
                        after[x].spec_key(),
                        after[y].spec_key(),
                    ) by {
                        if y < at {
                            assert(key_lt(before[x].spec_key(), before[y].spec_key()));
                        } else if y == at {
                            assert(key_lt(before[x].spec_key(), key@));
                        } else if x < at {
                            assert(after[y] == before[y - 1]);
                            assert(key_lt(before[x].spec_key(), before[y - 1].spec_key()));
                        } else if x == at {
                            assert(after[y] == before[y - 1]);
                            assert(key_lt(key@, before[y - 1].spec_key()));
                        } else {
                            assert(after[x] == before[x - 1]);
                            assert(after[y] == before[y - 1]);
                            assert(key_lt(before[x - 1].spec_key(), before[y - 1].spec_key()));
                        }
                    }
                }
                lemma_sorted_distinct(after);
                lemma_entries_insert(before, at as int, e);
            }
        }
    }

    /// Folds one observed value into the mapping under `key`.
    pub fn observe(&mut self, key: &'a str, value: i64)
        requires
            old(self).wf(),
            old(self)@.contains_key(key@) ==> old(self)@[key@].count < u64::MAX,
        ensures
            final(self).wf(),
            final(self)@ == observe_entry(old(self)@, key@, value as int),
    {
        let data = StationData::new(value);
        self.fold(key, &data);
    }
}

} // verus!
