//! A map keyed by peer identity that is always walked in ascending order
//! of its keys, so that everything computed from it is reproducible.

use vstd::prelude::*;
use crate::util::PeerRef;

verus! {

/// Keys grow strictly from one entry to the next.
pub open spec fn ascending<V>(s: Seq<(PeerRef, V)>) -> bool {
    forall|i: int, j: int| 0 <= i < j < s.len() ==> s[i].0 < s[j].0
}

/// Whether some entry of `s` has the key `k`.
pub open spec fn has_key<V>(s: Seq<(PeerRef, V)>, k: PeerRef) -> bool {
    exists|i: int| 0 <= i < s.len() && (#[trigger] s[i]).0 == k
}

/// The map that a list of entries stands for.
pub open spec fn as_map<V>(s: Seq<(PeerRef, V)>) -> Map<PeerRef, V> {
    Map::new(
        |k: PeerRef| has_key(s, k),
        |k: PeerRef| s[choose|i: int| 0 <= i < s.len() && (#[trigger] s[i]).0 == k].1,
    )
}

/// The entries of a map in ascending order of their keys.
pub open spec fn listing<V>(m: Map<PeerRef, V>) -> Seq<(PeerRef, V)> {
    choose|s: Seq<(PeerRef, V)>| ascending(s) && as_map(s) == m
}

/// The keys of a map in ascending order.
pub open spec fn key_listing<V>(m: Map<PeerRef, V>) -> Seq<PeerRef> {
    listing(m).map_values(|e: (PeerRef, V)| e.0)
}

/// Each entry of an ascending list is found in its map.
pub proof fn lemma_as_map_index<V>(s: Seq<(PeerRef, V)>, i: int)
    requires
        ascending(s),
        0 <= i < s.len(),
    ensures
        as_map(s).dom().contains(s[i].0),
        as_map(s)[s[i].0] == s[i].1,
{
    let k = s[i].0;
    let c = choose|c: int| 0 <= c < s.len() && (#[trigger] s[c]).0 == k;
    assert(c == i) by {
        if c < i {
            assert(s[c].0 < s[i].0);
        } else if i < c {
            assert(s[i].0 < s[c].0);
        }
    }
}

/// Dropping the last entry of an ascending list removes its key.
pub proof fn lemma_as_map_drop_last<V>(s: Seq<(PeerRef, V)>)
    requires
        ascending(s),
        s.len() > 0,
    ensures
        ascending(s.drop_last()),
        as_map(s.drop_last()) == as_map(s).remove(s.last().0),
        as_map(s) == as_map(s.drop_last()).insert(s.last().0, s.last().1),
        !as_map(s.drop_last()).dom().contains(s.last().0),
{
    let t = s.drop_last();
    let last = s.len() - 1;
    assert forall|k: PeerRef| has_key(t, k) <==> (has_key(s, k) && k != s.last().0) by {
        if has_key(t, k) {
            let i = choose|i: int| 0 <= i < t.len() && (#[trigger] t[i]).0 == k;
            assert(s[i].0 == k);
            assert(s[i].0 < s[last].0);
        }
        if has_key(s, k) && k != s.last().0 {
            let i = choose|i: int| 0 <= i < s.len() && (#[trigger] s[i]).0 == k;
            assert(t[i].0 == k);
        }
    }
    assert forall|k: PeerRef| has_key(t, k) implies as_map(t)[k] == as_map(s)[k] by {
        let i = choose|i: int| 0 <= i < t.len() && (#[trigger] t[i]).0 == k;
        lemma_as_map_index(t, i);
        lemma_as_map_index(s, i);
    }
    lemma_as_map_index(s, last);
    assert(as_map(t) =~= as_map(s).remove(s.last().0));
    assert(as_map(s) =~= as_map(t).insert(s.last().0, s.last().1));
}

/// An ascending list has as many entries as its map has keys.
pub proof fn lemma_as_map_len<V>(s: Seq<(PeerRef, V)>)
    requires
        ascending(s),
    ensures
        as_map(s).dom().finite(),
        as_map(s).dom().len() == s.len(),
    decreases s.len(),
{
    if s.len() == 0 {
        assert(as_map(s).dom() =~= Set::empty());
    } else {
        lemma_as_map_drop_last(s);
        lemma_as_map_len(s.drop_last());
        assert(as_map(s).dom() =~= as_map(s.drop_last()).dom().insert(s.last().0));
    }
}

/// Two ascending lists that stand for the same map are the same list.
pub proof fn lemma_ascending_unique<V>(a: Seq<(PeerRef, V)>, b: Seq<(PeerRef, V)>)
    requires
        ascending(a),
        ascending(b),
        as_map(a) == as_map(b),
    ensures
        a == b,
    decreases a.len(),
{
    lemma_as_map_len(a);
    lemma_as_map_len(b);
    if a.len() > 0 {
        let la = a.len() - 1;
        let lb = b.len() - 1;
        lemma_as_map_index(a, la);
        lemma_as_map_index(b, lb);
        assert(has_key(b, a[la].0));
        assert(has_key(a, b[lb].0));
        let j = choose|j: int| 0 <= j < b.len() && (#[trigger] b[j]).0 == a[la].0;
        let i = choose|i: int| 0 <= i < a.len() && (#[trigger] a[i]).0 == b[lb].0;
        assert(a[la].0 == b[lb].0) by {
            if i < la {
                assert(a[i].0 < a[la].0);
            }
            if j < lb {
                assert(b[j].0 < b[lb].0);
            }
        }
        lemma_as_map_drop_last(a);
        lemma_as_map_drop_last(b);
        lemma_ascending_unique(a.drop_last(), b.drop_last());
        assert(a =~= a.drop_last().push(a.last()));
        assert(b =~= b.drop_last().push(b.last()));
    } else {
        assert(a =~= b);
    }
}

/// An ascending list is the listing of its map.
pub proof fn lemma_listing_of<V>(s: Seq<(PeerRef, V)>)
    requires
        ascending(s),
    ensures
        listing(as_map(s)) == s,
{
    let l = listing(as_map(s));
    assert(ascending(l) && as_map(l) == as_map(s));
    lemma_ascending_unique(l, s);
}

/// The listing of a finite map is ascending, stands for the map and has
/// one entry for each key.
pub proof fn lemma_listing<V>(m: Map<PeerRef, V>)
    requires
        m.dom().finite(),
    ensures
        ascending(listing(m)),
        as_map(listing(m)) == m,
        listing(m).len() == m.dom().len(),
        key_listing(m).len() == m.dom().len(),
        forall|i: int| 0 <= i < listing(m).len() ==> m.dom().contains(#[trigger] listing(m)[i].0),
        forall|i: int|
            0 <= i < listing(m).len() ==> m[(#[trigger] listing(m)[i]).0] == listing(m)[i].1,
        forall|k: PeerRef| m.dom().contains(k) ==> has_key(listing(m), k),
    decreases m.dom().len(),
{
    lemma_listing_exists(m);
    let l = listing(m);
    lemma_as_map_len(l);
    assert forall|i: int| 0 <= i < l.len() implies m.dom().contains(#[trigger] l[i].0) && m[l[i].0]
        == l[i].1 by {
        lemma_as_map_index(l, i);
    }
}

/// Every finite map has an ascending list of its entries.
proof fn lemma_listing_exists<V>(m: Map<PeerRef, V>)
    requires
        m.dom().finite(),
    ensures
        exists|s: Seq<(PeerRef, V)>| ascending(s) && as_map(s) == m,
    decreases m.dom().len(),
{
    if m.dom().len() == 0 {
        let s = Seq::<(PeerRef, V)>::empty();
        assert(m.dom() =~= Set::empty());
        assert(as_map(s) =~= m);
        assert(ascending(s) && as_map(s) == m);
    } else {
        let top = greatest_key(m.dom());
        lemma_greatest_key(m.dom());
        let rest = m.remove(top);
        lemma_listing_exists(rest);
        let t = choose|t: Seq<(PeerRef, V)>| ascending(t) && as_map(t) == rest;
        let s = t.push((top, m[top]));
        assert forall|i: int, j: int| 0 <= i < j < s.len() implies s[i].0 < s[j].0 by {
            lemma_as_map_index(t, i);
            if j < t.len() {
                assert(t[i].0 < t[j].0);
            } else {
                assert(rest.dom().contains(t[i].0));
            }
        }
        assert(s.drop_last() =~= t);
        lemma_as_map_drop_last(s);
        assert(as_map(s) =~= m);
        assert(ascending(s) && as_map(s) == m);
    }
}

/// The largest key of a set of keys.
pub open spec fn greatest_key(keys: Set<PeerRef>) -> PeerRef {
    choose|k: PeerRef| keys.contains(k) && forall|q: PeerRef| keys.contains(q) ==> q <= k
}

/// A finite set of keys that is not empty has a largest key.
pub proof fn lemma_greatest_key(keys: Set<PeerRef>)
    requires
        keys.finite(),
        keys.len() > 0,
    ensures
        keys.contains(greatest_key(keys)),
        forall|q: PeerRef| keys.contains(q) ==> q <= greatest_key(keys),
    decreases keys.len(),
{
    let x = keys.choose();
    let rest = keys.remove(x);
    if rest.len() == 0 {
        assert forall|q: PeerRef| keys.contains(q) implies q <= x by {
            if q != x {
                assert(rest.contains(q));
            }
        }
    } else {
        lemma_greatest_key(rest);
        let g = greatest_key(rest);
        let top = if g < x {
            x
        } else {
            g
        };
        assert(keys.contains(top));
        assert forall|q: PeerRef| keys.contains(q) implies q <= top by {
            if q != x {
                assert(rest.contains(q));
            }
        }
    }
}

/// A map from peers to values, held as a list of entries in ascending
/// order of their keys.
pub struct PeerMap<V> {
    items: Vec<(PeerRef, V)>,
}

impl<V> View for PeerMap<V> {
    type V = Map<PeerRef, V>;

    closed spec fn view(&self) -> Map<PeerRef, V> {
        as_map(self.items@)
    }
}

impl<V: Copy> PeerMap<V> {
    /// The representation is in order: no key twice, keys ascending.
    pub closed spec fn wf(&self) -> bool {
        ascending(self.items@)
    }

    /// A well-formed map is finite and held as its own listing.
    pub proof fn lemma_wf(&self)
        requires
            self.wf(),
        ensures
            self@.dom().finite(),
            self@.dom().len() <= usize::MAX,
    {
        lemma_as_map_len(self.items@);
        assert(self.items.len() == self.items@.len());
    }

    /// The empty map.
    pub fn new() -> (r: Self)
        ensures
            r.wf(),
            r@ == Map::<PeerRef, V>::empty(),
    {
        let r = PeerMap { items: Vec::new() };
        assert(r@ =~= Map::<PeerRef, V>::empty());
        r
    }

    /// The number of keys.
    pub fn len(&self) -> (r: usize)
        requires
            self.wf(),
        ensures
            r == self@.dom().len(),
            r == listing(self@).len(),
            self@.dom().finite(),
    {
        proof {
            lemma_as_map_len(self.items@);
            lemma_listing_of(self.items@);
        }
        self.items.len()
    }

    /// The position of the first entry whose key is not below `k`, and
    /// whether that entry has the key `k`.
    fn find(&self, k: PeerRef) -> (r: (usize, bool))
        requires
            self.wf(),
        ensures
            r.0 <= self.items@.len(),
            forall|i: int| 0 <= i < r.0 ==> (#[trigger] self.items@[i]).0 < k,
            forall|i: int| r.0 <= i < self.items@.len() ==> (#[trigger] self.items@[i]).0 >= k,
            r.1 == (r.0 < self.items@.len() && self.items@[r.0 as int].0 == k),
            r.1 == self@.dom().contains(k),
            r.1 ==> self@[k] == self.items@[r.0 as int].1,
    {
        let mut lo: usize = 0;
        let mut hi: usize = self.items.len();
        while lo < hi
            invariant
                lo <= hi <= self.items@.len(),
                self.wf(),
                forall|i: int| 0 <= i < lo ==> (#[trigger] self.items@[i]).0 < k,
                forall|i: int| hi <= i < self.items@.len() ==> (#[trigger] self.items@[i]).0 >= k,
            decreases hi - lo,
        {
            let mid = lo + (hi - lo) / 2;
            if self.items[mid].0 < k {
                assert forall|i: int| 0 <= i < mid + 1 implies (#[trigger] self.items@[i]).0
                    < k by {
                    if i < mid {
                        assert(self.items@[i].0 < self.items@[mid as int].0);
                    }
                }
                lo = mid + 1;
            } else {
                assert forall|i: int| mid <= i < self.items@.len() implies (
                #[trigger] self.items@[i]).0 >= k by {
                    if mid < i {
                        assert(self.items@[mid as int].0 < self.items@[i].0);
                    }
                }
                hi = mid;
            }
        }
        let found = lo < self.items.len() && self.items[lo].0 == k;
        proof {
            if found {
                lemma_as_map_index(self.items@, lo as int);
            } else if has_key(self.items@, k) {
                let i = choose|i: int| 0 <= i < self.items@.len() && (#[trigger] self.items@[i]).0
                    == k;
                assert(false);
            }
        }
        (lo, found)
    }

    /// The value held for `k`, if any.
    pub fn get(&self, k: PeerRef) -> (r: Option<V>)
        requires
            self.wf(),
        ensures
            r == if self@.dom().contains(k) {
                Some(self@[k])
            } else {
                None
            },
    {
        let (i, found) = self.find(k);
        if found {
            Some(self.items[i].1)
        } else {
            None
        }
    }

    /// Whether `k` is a key.
    pub fn contains_key(&self, k: PeerRef) -> (r: bool)
        requires
            self.wf(),
        ensures
            r == self@.dom().contains(k),
    {
        self.find(k).1
    }

    /// Sets the value of `k`, adding the key where it is new.
    pub fn insert(&mut self, k: PeerRef, v: V)
        requires
            old(self).wf(),
        ensures
            final(self).wf(),
            final(self)@ == old(self)@.insert(k, v),
    {
        let (i, found) = self.find(k);
        let ghost before = self.items@;
        if found {
            self.items.set(i, (k, v));
        } else {
            self.items.insert(i, (k, v));
        }
        proof {
            let after = self.items@;
            assert forall|a: int, b: int| 0 <= a < b < after.len() implies after[a].0
                < after[b].0 by {
                if found {
                    assert(before[a].0 < before[b].0);
                } else {
                    let pa = if a < i {
                        a
                    } else {
                        a - 1
                    };
                    let pb = if b < i {
                        b
                    } else {
                        b - 1
                    };
                    if a != i && b != i {
                        assert(before[pa].0 < before[pb].0);
                    } else if a == i {
                        assert(before[pb].0 >= k);
                        if before[pb].0 == k {
                            assert(has_key(before, k));
                        }
                    } else {
                        assert(before[pa].0 < k);
                    }
                }
            }
            assert forall|q: PeerRef| has_key(after, q) <==> (q == k || has_key(before, q)) by {
                if has_key(after, q) {
                    let a = choose|a: int| 0 <= a < after.len() && (#[trigger] after[a]).0 == q;
                    if a != i {
                        let pa = if found || a < i {
                            a
                        } else {
                            a - 1
                        };
                        assert(before[pa].0 == q);
                    }
                }
                if q == k {
                    assert(after[i as int].0 == k);
                }
                if has_key(before, q) && q != k {
                    let a = choose|a: int| 0 <= a < before.len() && (#[trigger] before[a]).0 == q;
                    let na = if found || a < i {
                        a
                    } else {
                        a + 1
                    };
                    assert(after[na].0 == q);
                }
            }
            assert forall|q: PeerRef| has_key(after, q) implies as_map(after)[q] == as_map(
                before,
            ).insert(k, v)[q] by {
                let a = choose|a: int| 0 <= a < after.len() && (#[trigger] after[a]).0 == q;
                lemma_as_map_index(after, a);
                if a != i {
                    let pa = if found || a < i {
                        a
                    } else {
                        a - 1
                    };
                    lemma_as_map_index(before, pa);
                }
            }
            assert(as_map(after) =~= as_map(before).insert(k, v));
        }
    }

    /// Removes `k`, returning the value it had.
    pub fn remove(&mut self, k: PeerRef) -> (r: Option<V>)
        requires
            old(self).wf(),
        ensures
            final(self).wf(),
            final(self)@ == old(self)@.remove(k),
            r == if old(self)@.dom().contains(k) {
                Some(old(self)@[k])
            } else {
                None
            },
    {
        let (i, found) = self.find(k);
        let ghost before = self.items@;
        if !found {
            assert(self@ =~= old(self)@.remove(k));
            return None;
        }
        let e = self.items.remove(i);
        proof {
            let after = self.items@;
            assert forall|a: int, b: int| 0 <= a < b < after.len() implies after[a].0
                < after[b].0 by {
                let pa = if a < i {
                    a
                } else {
                    a + 1
                };
                let pb = if b < i {
                    b
                } else {
                    b + 1
                };
                assert(before[pa].0 < before[pb].0);
            }
            assert forall|q: PeerRef| has_key(after, q) <==> (q != k && has_key(before, q)) by {
                if has_key(after, q) {
                    let a = choose|a: int| 0 <= a < after.len() && (#[trigger] after[a]).0 == q;
                    let pa = if a < i {
                        a
                    } else {
                        a + 1
                    };
                    assert(before[pa].0 == q);
                    if pa < i {
                        assert(before[pa].0 < before[i as int].0);
                    } else {
                        assert(before[i as int].0 < before[pa].0);
                    }
                }
                if has_key(before, q) && q != k {
                    let a = choose|a: int| 0 <= a < before.len() && (#[trigger] before[a]).0 == q;
                    let na = if a < i {
                        a
                    } else {
                        a - 1
                    };
                    assert(after[na].0 == q);
                }
            }
            assert forall|q: PeerRef| has_key(after, q) implies as_map(after)[q] == as_map(
                before,
            )[q] by {
                let a = choose|a: int| 0 <= a < after.len() && (#[trigger] after[a]).0 == q;
                lemma_as_map_index(after, a);
                let pa = if a < i {
                    a
                } else {
                    a + 1
                };
                lemma_as_map_index(before, pa);
            }
            assert(as_map(after) =~= as_map(before).remove(k));
        }
        Some(e.1)
    }

    /// The entry at position `i` of the listing.
    pub fn entry(&self, i: usize) -> (r: (PeerRef, V))
        requires
            self.wf(),
            i < listing(self@).len(),
        ensures
            r == listing(self@)[i as int],
            self@.dom().contains(r.0),
            self@[r.0] == r.1,
    {
        proof {
            lemma_listing_of(self.items@);
            lemma_as_map_index(self.items@, i as int);
        }
        self.items[i]
    }

    /// The entries in ascending order of their keys.
    pub fn to_vec(&self) -> (r: Vec<(PeerRef, V)>)
        requires
            self.wf(),
        ensures
            r@ == listing(self@),
    {
        proof {
            lemma_listing_of(self.items@);
        }
        let mut out: Vec<(PeerRef, V)> = Vec::with_capacity(self.items.len());
        let mut i: usize = 0;
        while i < self.items.len()
            invariant
                i <= self.items@.len(),
                out@ == self.items@.take(i as int),
            decreases self.items@.len() - i,
        {
            out.push(self.items[i]);
            assert(out@ == self.items@.take(i + 1));
            i = i + 1;
        }
        assert(self.items@.take(i as int) == self.items@);
        out
    }

    /// The keys in ascending order.
    pub fn keys(&self) -> (r: Vec<PeerRef>)
        requires
            self.wf(),
        ensures
            r@ == key_listing(self@),
            r@.len() == self@.dom().len(),
            r@.no_duplicates(),
            forall|k: PeerRef| r@.contains(k) <==> self@.dom().contains(k),
    {
        proof {
            lemma_listing_of(self.items@);
            lemma_as_map_len(self.items@);
        }
        let mut out: Vec<PeerRef> = Vec::with_capacity(self.items.len());
        let mut i: usize = 0;
        while i < self.items.len()
            invariant
                i <= self.items@.len(),
                out@ == self.items@.take(i as int).map_values(|e: (PeerRef, V)| e.0),
            decreases self.items@.len() - i,
        {
            out.push(self.items[i].0);
            assert(out@ =~= self.items@.take(i + 1).map_values(|e: (PeerRef, V)| e.0));
            i = i + 1;
        }
        assert(self.items@.take(i as int) == self.items@);
        proof {
            lemma_key_listing(self@);
        }
        out
    }
}

/// The key listing of a finite map holds each key once, and nothing else.
pub proof fn lemma_key_listing<V>(m: Map<PeerRef, V>)
    requires
        m.dom().finite(),
    ensures
        key_listing(m).len() == m.dom().len(),
        key_listing(m).no_duplicates(),
        forall|k: PeerRef| key_listing(m).contains(k) <==> m.dom().contains(k),
        forall|i: int, j: int|
            0 <= i < j < key_listing(m).len() ==> key_listing(m)[i] < key_listing(m)[j],
{
    lemma_listing(m);
    let l = listing(m);
    let ks = key_listing(m);
    assert forall|i: int, j: int| 0 <= i < j < ks.len() implies ks[i] < ks[j] by {
        assert(l[i].0 < l[j].0);
    }
    assert forall|k: PeerRef| ks.contains(k) <==> m.dom().contains(k) by {
        if ks.contains(k) {
            let i = choose|i: int| 0 <= i < ks.len() && ks[i] == k;
            assert(l[i].0 == k);
        }
        if m.dom().contains(k) {
            assert(has_key(l, k));
            let i = choose|i: int| 0 <= i < l.len() && (#[trigger] l[i]).0 == k;
            assert(ks[i] == k);
        }
    }
}

} // verus!
