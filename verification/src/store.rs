//! An ordered key-value store over byte strings, and the write transaction on it.

use vstd::prelude::*;
use crate::keys::{append_bytes, compare_keys, lex_lt, lemma_lex_asymmetric, lemma_lex_irreflexive,
    lemma_lex_total, lemma_lex_transitive, KeyOrder};

verus! {

/// One stored pair of raw key and raw value.
#[derive(Clone, Debug, PartialEq, Eq)]
pub struct Entry {
    pub key: Vec<u8>,
    pub value: Vec<u8>,
}

impl View for Entry {
    type V = (Seq<u8>, Seq<u8>);

    open spec fn view(&self) -> (Seq<u8>, Seq<u8>) {
        (self.key@, self.value@)
    }
}

/// The pairs of a vector of entries, in the vector's order.
pub open spec fn pairs_of(entries: Seq<Entry>) -> Seq<(Seq<u8>, Seq<u8>)> {
    Seq::new(entries.len(), |i: int| entries[i]@)
}

/// Keys strictly increase along the listing, so no key occurs twice.
pub open spec fn strictly_sorted(s: Seq<(Seq<u8>, Seq<u8>)>) -> bool {
    forall|i: int, j: int| 0 <= i < j < s.len() ==> lex_lt(#[trigger] s[i].0, #[trigger] s[j].0)
}

/// Whether some pair of the listing has key `k`.
pub open spec fn has_key(s: Seq<(Seq<u8>, Seq<u8>)>, k: Seq<u8>) -> bool {
    exists|i: int| 0 <= i < s.len() && #[trigger] s[i].0 == k
}

/// The map from each key of the listing to the value listed with it.
pub open spec fn listing_map(s: Seq<(Seq<u8>, Seq<u8>)>) -> Map<Seq<u8>, Seq<u8>> {
    Map::new(
        |k: Seq<u8>| has_key(s, k),
        |k: Seq<u8>| s[choose|i: int| 0 <= i < s.len() && #[trigger] s[i].0 == k].1,
    )
}

/// In a strictly sorted listing, the map holds each listed pair.
pub proof fn lemma_listing_map_at(s: Seq<(Seq<u8>, Seq<u8>)>, i: int)
    requires
        strictly_sorted(s),
        0 <= i < s.len(),
    ensures
        listing_map(s).contains_key(s[i].0),
        listing_map(s)[s[i].0] == s[i].1,
{
    let k = s[i].0;
    assert(has_key(s, k));
    let j = choose|j: int| 0 <= j < s.len() && #[trigger] s[j].0 == k;
    lemma_lex_irreflexive(k);
    if j < i {
        assert(lex_lt(s[j].0, s[i].0));
    } else if i < j {
        assert(lex_lt(s[i].0, s[j].0));
    }
}

/// Inserting a pair at the place that its key sorts to keeps the listing sorted and
/// adds the pair to the map.
pub proof fn lemma_listing_insert(s: Seq<(Seq<u8>, Seq<u8>)>, pos: int, k: Seq<u8>, v: Seq<u8>)
    requires
        strictly_sorted(s),
        0 <= pos <= s.len(),
        forall|i: int| 0 <= i < pos ==> lex_lt(#[trigger] s[i].0, k),
        forall|i: int| pos <= i < s.len() ==> lex_lt(k, #[trigger] s[i].0),
    ensures
        strictly_sorted(s.insert(pos, (k, v))),
        listing_map(s.insert(pos, (k, v))) == listing_map(s).insert(k, v),
{
    let t = s.insert(pos, (k, v));
    assert forall|i: int, j: int| 0 <= i < j < t.len() implies lex_lt(
        #[trigger] t[i].0,
        #[trigger] t[j].0,
    ) by {
        if j < pos {
            assert(lex_lt(s[i].0, s[j].0));
        } else if j == pos {
            assert(lex_lt(s[i].0, k));
        } else if i < pos {
            assert(lex_lt(s[i].0, s[j - 1].0));
        } else if i == pos {
            assert(lex_lt(k, s[j - 1].0));
        } else {
            assert(lex_lt(s[i - 1].0, s[j - 1].0));
        }
    }
    let m1 = listing_map(t);
    let m2 = listing_map(s).insert(k, v);
    assert forall|key: Seq<u8>| m1.contains_key(key) <==> m2.contains_key(key) by {
        if has_key(t, key) {
            let i = choose|i: int| 0 <= i < t.len() && #[trigger] t[i].0 == key;
            if i < pos {
                assert(s[i].0 == key);
            } else if i > pos {
                assert(s[i - 1].0 == key);
            }
        }
        if key == k {
            assert(t[pos].0 == key);
        } else if has_key(s, key) {
            let i = choose|i: int| 0 <= i < s.len() && #[trigger] s[i].0 == key;
            if i < pos {
                assert(t[i].0 == key);
            } else {
                assert(t[i + 1].0 == key);
            }
        }
    }
    assert forall|key: Seq<u8>| m1.contains_key(key) implies m1[key] == m2[key] by {
        let i = choose|i: int| 0 <= i < t.len() && #[trigger] t[i].0 == key;
        lemma_listing_map_at(t, i);
        lemma_lex_irreflexive(k);
        if i < pos {
            assert(lex_lt(t[i].0, t[pos].0));
            lemma_listing_map_at(s, i);
        } else if i > pos {
            assert(lex_lt(t[pos].0, t[i].0));
            lemma_listing_map_at(s, i - 1);
        }
    }
    assert(m1 =~= m2);
}

/// Replacing the value of a listed key keeps the listing sorted and updates the map.
pub proof fn lemma_listing_update(s: Seq<(Seq<u8>, Seq<u8>)>, pos: int, v: Seq<u8>)
    requires
        strictly_sorted(s),
        0 <= pos < s.len(),
    ensures
        strictly_sorted(s.update(pos, (s[pos].0, v))),
        listing_map(s.update(pos, (s[pos].0, v))) == listing_map(s).insert(s[pos].0, v),
{
    let k = s[pos].0;
    let t = s.update(pos, (k, v));
    assert forall|i: int, j: int| 0 <= i < j < t.len() implies lex_lt(
        #[trigger] t[i].0,
        #[trigger] t[j].0,
    ) by {
        assert(lex_lt(s[i].0, s[j].0));
    }
    let m1 = listing_map(t);
    let m2 = listing_map(s).insert(k, v);
    assert forall|key: Seq<u8>| m1.contains_key(key) <==> m2.contains_key(key) by {
        if has_key(t, key) {
            let i = choose|i: int| 0 <= i < t.len() && #[trigger] t[i].0 == key;
            assert(s[i].0 == key);
        }
        if key == k {
            assert(t[pos].0 == key);
        } else if has_key(s, key) {
            let i = choose|i: int| 0 <= i < s.len() && #[trigger] s[i].0 == key;
            assert(t[i].0 == key);
        }
    }
    assert forall|key: Seq<u8>| m1.contains_key(key) implies m1[key] == m2[key] by {
        let i = choose|i: int| 0 <= i < t.len() && #[trigger] t[i].0 == key;
        lemma_listing_map_at(t, i);
        lemma_lex_irreflexive(k);
        if i < pos {
            assert(lex_lt(s[i].0, s[pos].0));
            lemma_listing_map_at(s, i);
        } else if i > pos {
            assert(lex_lt(s[pos].0, s[i].0));
            lemma_listing_map_at(s, i);
        }
    }
    assert(m1 =~= m2);
}

/// Removing a listed pair keeps the listing sorted and removes its key from the map.
pub proof fn lemma_listing_remove(s: Seq<(Seq<u8>, Seq<u8>)>, pos: int)
    requires
        strictly_sorted(s),
        0 <= pos < s.len(),
    ensures
        strictly_sorted(s.remove(pos)),
        listing_map(s.remove(pos)) == listing_map(s).remove(s[pos].0),
{
    let k = s[pos].0;
    let t = s.remove(pos);
    assert forall|i: int, j: int| 0 <= i < j < t.len() implies lex_lt(
        #[trigger] t[i].0,
        #[trigger] t[j].0,
    ) by {
        let i0 = if i < pos { i } else { i + 1 };
        let j0 = if j < pos { j } else { j + 1 };
        assert(lex_lt(s[i0].0, s[j0].0));
    }
    let m1 = listing_map(t);
    let m2 = listing_map(s).remove(k);
    lemma_lex_irreflexive(k);
    assert forall|key: Seq<u8>| m1.contains_key(key) <==> m2.contains_key(key) by {
        if has_key(t, key) {
            let i = choose|i: int| 0 <= i < t.len() && #[trigger] t[i].0 == key;
            if i < pos {
                assert(s[i].0 == key);
                assert(lex_lt(s[i].0, s[pos].0));
            } else {
                assert(s[i + 1].0 == key);
                assert(lex_lt(s[pos].0, s[i + 1].0));
            }
        }
        if key != k && has_key(s, key) {
            let i = choose|i: int| 0 <= i < s.len() && #[trigger] s[i].0 == key;
            if i < pos {
                assert(t[i].0 == key);
            } else {
                assert(t[i - 1].0 == key);
            }
        }
    }
    assert forall|key: Seq<u8>| m1.contains_key(key) implies m1[key] == m2[key] by {
        let i = choose|i: int| 0 <= i < t.len() && #[trigger] t[i].0 == key;
        lemma_listing_map_at(t, i);
        if i < pos {
            lemma_listing_map_at(s, i);
        } else {
            lemma_listing_map_at(s, i + 1);
        }
    }
    assert(m1 =~= m2);
}

/// The map that results from storing the pairs one after the other: where a key
/// occurs more than once, its last value stays.
pub open spec fn image_map(s: Seq<(Seq<u8>, Seq<u8>)>) -> Map<Seq<u8>, Seq<u8>>
    decreases s.len(),
{
    if s.len() == 0 {
        Map::empty()
    } else {
        image_map(s.drop_last()).insert(s.last().0, s.last().1)
    }
}

/// Storing the pairs of a strictly sorted listing one after the other gives the map
/// of the listing: what a store lists is enough to build the same store again.
pub proof fn lemma_image_of_listing(s: Seq<(Seq<u8>, Seq<u8>)>)
    requires
        strictly_sorted(s),
    ensures
        image_map(s) == listing_map(s),
    decreases s.len(),
{
    if s.len() == 0 {
        assert(listing_map(s) =~= Map::<Seq<u8>, Seq<u8>>::empty());
    } else {
        let init = s.drop_last();
        let n = s.len() - 1;
        assert forall|i: int, j: int| 0 <= i < j < init.len() implies lex_lt(
            #[trigger] init[i].0,
            #[trigger] init[j].0,
        ) by {
            assert(lex_lt(s[i].0, s[j].0));
        }
        lemma_image_of_listing(init);
        assert forall|i: int| 0 <= i < n implies lex_lt(#[trigger] init[i].0, s[n].0) by {
            assert(lex_lt(s[i].0, s[n].0));
        }
        lemma_listing_insert(init, n, s[n].0, s[n].1);
        assert(init.insert(n, (s[n].0, s[n].1)) =~= s);
    }
}

/// A copy of a byte string.
pub fn copy_bytes(src: &[u8]) -> (out: Vec<u8>)
    ensures
        out@ == src@,
{
    let mut out: Vec<u8> = Vec::new();
    append_bytes(&mut out, src);
    out
}

/// An ordered store: at most one value per key, listed in lexicographic key order.
#[derive(Debug)]
pub struct Store {
    entries: Vec<Entry>,
}

impl View for Store {
    type V = Map<Seq<u8>, Seq<u8>>;

    /// The stored value of each stored key.
    open spec fn view(&self) -> Map<Seq<u8>, Seq<u8>> {
        listing_map(self.listing())
    }
}

impl Store {
    /// The stored pairs in the order in which the store lists them.
    pub closed spec fn listing(&self) -> Seq<(Seq<u8>, Seq<u8>)> {
        pairs_of(self.entries@)
    }

    /// The listing is in strictly increasing key order.
    pub open spec fn wf(&self) -> bool {
        strictly_sorted(self.listing())
    }

    /// An empty store.
    pub fn new() -> (s: Store)
        ensures
            s.wf(),
            s@ == Map::<Seq<u8>, Seq<u8>>::empty(),
            s.listing() == Seq::<(Seq<u8>, Seq<u8>)>::empty(),
    {
        let s = Store { entries: Vec::new() };
        proof {
            assert(s.listing() =~= Seq::<(Seq<u8>, Seq<u8>)>::empty());
            assert(s@ =~= Map::<Seq<u8>, Seq<u8>>::empty());
        }
        s
    }

    /// Number of stored keys: the length of the listing, in which no key occurs twice.
    pub fn len(&self) -> (n: usize)
        ensures
            n == self.listing().len(),
    {
        self.entries.len()
    }

    /// Position of the first entry whose key is not less than `key`, and whether
    /// that entry's key is `key`.
    fn search(&self, key: &[u8]) -> (r: (usize, bool))
        requires
            self.wf(),
        ensures
            r.0 <= self.listing().len(),
            forall|i: int| 0 <= i < r.0 ==> lex_lt(#[trigger] self.listing()[i].0, key@),
            forall|i: int| r.0 <= i < self.listing().len() ==> !lex_lt(#[trigger] self.listing()[i].0, key@),
            r.1 <==> (r.0 < self.listing().len() && self.listing()[r.0 as int].0 == key@),
            r.1 <==> self@.contains_key(key@),
    {
        let ghost s = self.listing();
        let mut lo: usize = 0;
        let mut hi: usize = self.entries.len();
        while lo < hi
            invariant
                self.wf(),
                s == self.listing(),
                lo <= hi <= s.len(),
                s.len() == self.entries.len(),
                forall|i: int| 0 <= i < lo ==> lex_lt(#[trigger] s[i].0, key@),
                forall|i: int| hi <= i < s.len() ==> !lex_lt(#[trigger] s[i].0, key@),
            decreases hi - lo,
        {
            let mid: usize = lo + (hi - lo) / 2;
            let order = compare_keys(self.entries[mid].key.as_slice(), key);
            assert(s[mid as int].0 == self.entries[mid as int].key@);
            match order {
                KeyOrder::Less => {
                    proof {
                        assert forall|i: int| 0 <= i < mid + 1 implies lex_lt(#[trigger] s[i].0, key@) by {
                            if i < mid {
                                assert(lex_lt(s[i].0, s[mid as int].0));
                                lemma_lex_transitive(s[i].0, s[mid as int].0, key@);
                            }
                        }
                    }
                    lo = mid + 1;
                },
                _ => {
                    proof {
                        assert forall|i: int| mid <= i < s.len() implies !lex_lt(#[trigger] s[i].0, key@) by {
                            lemma_lex_irreflexive(key@);
                            if lex_lt(key@, s[mid as int].0) {
                                lemma_lex_asymmetric(key@, s[mid as int].0);
                            }
                            if mid < i {
                                assert(lex_lt(s[mid as int].0, s[i].0));
                                if lex_lt(s[i].0, key@) {
                                    lemma_lex_transitive(s[mid as int].0, s[i].0, key@);
                                }
                            }
                        }
                    }
                    hi = mid;
                },
            }
        }
        let mut hit: bool = false;
        if lo < self.entries.len() {
            let order = compare_keys(self.entries[lo].key.as_slice(), key);
            assert(s[lo as int].0 == self.entries[lo as int].key@);
            hit = matches!(order, KeyOrder::Equal);
        }
        proof {
            if hit {
                lemma_listing_map_at(s, lo as int);
            } else if has_key(s, key@) {
                let j = choose|j: int| 0 <= j < s.len() && #[trigger] s[j].0 == key@;
                lemma_lex_irreflexive(key@);
                if j < lo {
                    assert(lex_lt(s[j].0, key@));
                } else if lo < j {
                    // The entry at `lo` is neither less than the key nor equal to it,
                    // so it is greater, and every later key is greater still.
                    assert(!lex_lt(s[lo as int].0, key@));
                    lemma_lex_total(s[lo as int].0, key@);
                    assert(lex_lt(s[lo as int].0, s[j].0));
                    lemma_lex_asymmetric(s[lo as int].0, s[j].0);
                }
            }
        }
        (lo, hit)
    }
    /// The value stored under `key`, if any.
    pub fn get(&self, key: &[u8]) -> (r: Option<&Vec<u8>>)
        requires
            self.wf(),
        ensures
            r.is_some() <==> self@.contains_key(key@),
            r matches Some(v) ==> v@ == self@[key@],
    {
        let (pos, hit) = self.search(key);
        if hit {
            proof {
                lemma_listing_map_at(self.listing(), pos as int);
            }
            Some(&self.entries[pos].value)
        } else {
            None
        }
    }

    /// Stores `value` under `key`, replacing what was stored there.
    pub fn put(&mut self, key: Vec<u8>, value: Vec<u8>)
        requires
            old(self).wf(),
        ensures
            final(self).wf(),
            final(self)@ == old(self)@.insert(key@, value@),
    {
        let (pos, hit) = self.search(key.as_slice());
        let ghost before = self.listing();
        if hit {
            proof {
                lemma_listing_update(before, pos as int, value@);
            }
            self.entries.set(pos, Entry { key, value });
            assert(self.listing() =~= before.update(pos as int, (key@, value@)));
        } else {
            proof {
                assert forall|i: int| pos <= i < before.len() implies lex_lt(
                    key@,
                    #[trigger] before[i].0,
                ) by {
                    lemma_lex_total(before[i].0, key@);
                    if before[i].0 == key@ {
                        lemma_listing_map_at(before, i);
                    }
                }
                lemma_listing_insert(before, pos as int, key@, value@);
            }
            self.entries.insert(pos, Entry { key, value });
            assert(self.listing() =~= before.insert(pos as int, (key@, value@)));
        }
    }

    /// Removes `key` and its value. Returns whether the key was stored.
    pub fn delete(&mut self, key: &[u8]) -> (removed: bool)
        requires
            old(self).wf(),
        ensures
            final(self).wf(),
            removed == old(self)@.contains_key(key@),
            final(self)@ == old(self)@.remove(key@),
    {
        let (pos, hit) = self.search(key);
        let ghost before = self.listing();
        if hit {
            proof {
                lemma_listing_remove(before, pos as int);
            }
            let _ = self.entries.remove(pos);
            assert(self.listing() =~= before.remove(pos as int));
            true
        } else {
            assert(self@.remove(key@) =~= self@);
            false
        }
    }

    /// Copies of the stored pairs whose key is not less than `start`, in key order.
    pub fn entries_from(&self, start: &[u8]) -> (out: Vec<Entry>)
        requires
            self.wf(),
        ensures
            strictly_sorted(pairs_of(out@)),
            forall|i: int| 0 <= i < out.len() ==> !lex_lt(#[trigger] out[i].key@, start@),
            forall|i: int| 0 <= i < out.len() ==> self@.contains_key(#[trigger] out[i].key@)
                && self@[out[i].key@] == out[i].value@,
            forall|k: Seq<u8>| self@.contains_key(k) && !lex_lt(k, start@) ==> has_key(pairs_of(out@), k),
    {
        let (pos, _) = self.search(start);
        let ghost s = self.listing();
        let mut out: Vec<Entry> = Vec::new();
        let mut i: usize = pos;
        while i < self.entries.len()
            invariant
                self.wf(),
                s == self.listing(),
                s.len() == self.entries.len(),
                pos <= i <= s.len(),
                out.len() == i - pos,
                pairs_of(out@) == s.subrange(pos as int, i as int),
            decreases self.entries.len() - i,
        {
            let e = &self.entries[i];
            let copy = Entry { key: copy_bytes(e.key.as_slice()), value: copy_bytes(e.value.as_slice()) };
            let ghost before = out@;
            assert(copy@ == s[i as int]);
            out.push(copy);
            i = i + 1;
            assert forall|j: int| 0 <= j < out.len() implies #[trigger] pairs_of(out@)[j] == s.subrange(
                pos as int,
                i as int,
            )[j] by {
                if j < before.len() {
                    assert(pairs_of(before)[j] == before[j]@);
                    assert(pairs_of(before)[j] == s.subrange(pos as int, i as int - 1)[j]);
                }
            }
            assert(pairs_of(out@) =~= s.subrange(pos as int, i as int));
        }
        proof {
            let p = pairs_of(out@);
            assert(p.len() == s.len() - pos);
            assert forall|a: int, b: int| 0 <= a < b < p.len() implies lex_lt(
                #[trigger] p[a].0,
                #[trigger] p[b].0,
            ) by {
                assert(lex_lt(s[pos + a].0, s[pos + b].0));
            }
            assert forall|a: int| 0 <= a < out.len() implies !lex_lt(#[trigger] out[a].key@, start@)
                && self@.contains_key(out[a].key@) && self@[out[a].key@] == out[a].value@ by {
                assert(p[a] == s[pos + a]);
                assert(out[a]@ == p[a]);
                lemma_listing_map_at(s, pos + a);
            }
            assert forall|k: Seq<u8>| self@.contains_key(k) && !lex_lt(k, start@) implies has_key(
                p,
                k,
            ) by {
                let j = choose|j: int| 0 <= j < s.len() && #[trigger] s[j].0 == k;
                assert(j >= pos);
                assert(p[j - pos].0 == k);
            }
        }
        out
    }
    /// The store that results from storing `entries` one after the other.
    pub fn from_entries(entries: &Vec<Entry>) -> (s: Store)
        ensures
            s.wf(),
            s@ == image_map(pairs_of(entries@)),
    {
        let mut s = Store::new();
        let ghost all = pairs_of(entries@);
        let mut i: usize = 0;
        while i < entries.len()
            invariant
                i <= entries.len(),
                all == pairs_of(entries@),
                s.wf(),
                s@ == image_map(all.take(i as int)),
            decreases entries.len() - i,
        {
            let e = &entries[i];
            s.put(copy_bytes(e.key.as_slice()), copy_bytes(e.value.as_slice()));
            i = i + 1;
            proof {
                assert(all.take(i as int).drop_last() =~= all.take(i as int - 1));
                assert(all.take(i as int).last() == e@);
            }
        }
        proof {
            assert(all.take(i as int) =~= all);
        }
        s
    }
    /// A copy of the store.
    pub fn duplicate(&self) -> (s: Store)
        requires
            self.wf(),
        ensures
            s.wf(),
            s@ == self@,
            s.listing() == self.listing(),
    {
        let mut entries: Vec<Entry> = Vec::new();
        let mut i: usize = 0;
        while i < self.entries.len()
            invariant
                i <= self.entries.len(),
                entries.len() == i,
                forall|j: int| 0 <= j < i ==> #[trigger] entries[j]@ == self.entries[j]@,
            decreases self.entries.len() - i,
        {
            let e = &self.entries[i];
            entries.push(Entry { key: copy_bytes(e.key.as_slice()), value: copy_bytes(e.value.as_slice()) });
            i = i + 1;
        }
        let s = Store { entries };
        assert(s.listing() =~= self.listing());
        s
    }
    /// The stored pairs, in key order.
    pub fn into_entries(self) -> (out: Vec<Entry>)
        requires
            self.wf(),
        ensures
            pairs_of(out@) == self.listing(),
            strictly_sorted(pairs_of(out@)),
            image_map(pairs_of(out@)) == self@,
    {
        proof {
            lemma_image_of_listing(self.listing());
        }
        self.entries
    }
}

/// A write transaction on one store. Its changes are staged on a copy and become the
/// store's contents only if the transaction is committed.
#[derive(Debug)]
pub struct Writer {
    staged: Store,
}

impl View for Writer {
    type V = Map<Seq<u8>, Seq<u8>>;

    /// What the store will hold if the transaction is committed now.
    closed spec fn view(&self) -> Map<Seq<u8>, Seq<u8>> {
        self.staged@
    }
}

impl Writer {
    /// The staged contents are a well-formed store.
    pub closed spec fn wf(&self) -> bool {
        self.staged.wf()
    }

    /// Begins a transaction on `store`.
    pub fn begin(store: &Store) -> (w: Writer)
        requires
            store.wf(),
        ensures
            w.wf(),
            w@ == store@,
    {
        Writer { staged: store.duplicate() }
    }

    /// Ends the transaction and hands out what it staged.
    pub fn commit(self) -> (store: Store)
        requires
            self.wf(),
        ensures
            store.wf(),
            store@ == self@,
    {
        self.staged
    }

    /// The value staged under `key`, if any.
    pub fn get(&self, key: &[u8]) -> (r: Option<&Vec<u8>>)
        requires
            self.wf(),
        ensures
            r.is_some() <==> self@.contains_key(key@),
            r matches Some(v) ==> v@ == self@[key@],
    {
        self.staged.get(key)
    }

    /// Stages `value` under `key`.
    pub fn put(&mut self, key: &[u8], value: &[u8])
        requires
            old(self).wf(),
        ensures
            final(self).wf(),
            final(self)@ == old(self)@.insert(key@, value@),
    {
        self.staged.put(copy_bytes(key), copy_bytes(value));
    }

    /// Stages the removal of `key`. Returns whether the key was there.
    pub fn delete(&mut self, key: &[u8]) -> (removed: bool)
        requires
            old(self).wf(),
        ensures
            final(self).wf(),
            removed == old(self)@.contains_key(key@),
            final(self)@ == old(self)@.remove(key@),
    {
        self.staged.delete(key)
    }
}

} // verus!
