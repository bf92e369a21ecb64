//! The order of recency among the entries of a view, and the cut that
//! keeps the most recent entries.

use vstd::prelude::*;
use crate::peer_map::{has_key, lemma_listing, listing, PeerMap};
use crate::util::PeerRef;

verus! {

/// Whether the entry of `a` is more recent than that of `b`: a later
/// timestamp, or the same timestamp and a smaller identity.
pub open spec fn newer(m: Map<PeerRef, i64>, a: PeerRef, b: PeerRef) -> bool {
    m[a] > m[b] || (m[a] == m[b] && a < b)
}

/// Every other entry of `m` is more recent than that of `p`.
pub open spec fn is_oldest(m: Map<PeerRef, i64>, p: PeerRef) -> bool {
    m.dom().contains(p) && forall|q: PeerRef| m.dom().contains(q) && q != p ==> newer(m, q, p)
}

/// The peer with the least recent entry.
pub open spec fn oldest(m: Map<PeerRef, i64>) -> PeerRef {
    choose|p: PeerRef| is_oldest(m, p)
}

/// The entry of `p` is more recent than every other entry of `m`.
pub open spec fn is_newest(m: Map<PeerRef, i64>, p: PeerRef) -> bool {
    m.dom().contains(p) && forall|q: PeerRef| m.dom().contains(q) && q != p ==> newer(m, p, q)
}

/// The peer with the most recent entry.
pub open spec fn newest(m: Map<PeerRef, i64>) -> PeerRef {
    choose|p: PeerRef| is_newest(m, p)
}

/// A finite map that is not empty has a least recent entry, and only one.
pub proof fn lemma_oldest(m: Map<PeerRef, i64>)
    requires
        m.dom().finite(),
        m.dom().len() > 0,
    ensures
        is_oldest(m, oldest(m)),
        forall|p: PeerRef| is_oldest(m, p) ==> p == oldest(m),
    decreases m.dom().len(),
{
    let x = m.dom().choose();
    let rest = m.remove(x);
    if rest.dom().len() == 0 {
        assert forall|q: PeerRef| m.dom().contains(q) && q != x implies newer(m, q, x) by {
            assert(rest.dom().contains(q));
        }
        assert(is_oldest(m, x));
    } else {
        lemma_oldest(rest);
        let o = oldest(rest);
        let w = if newer(m, o, x) {
            x
        } else {
            o
        };
        assert forall|q: PeerRef| m.dom().contains(q) && q != w implies newer(m, q, w) by {
            if q != x && q != o {
                assert(rest.dom().contains(q));
                assert(newer(rest, q, o));
            }
        }
        assert(is_oldest(m, w));
    }
    let o = oldest(m);
    assert forall|p: PeerRef| is_oldest(m, p) implies p == o by {
        if p != o {
            assert(newer(m, p, o));
            assert(newer(m, o, p));
        }
    }
}

/// A finite map that is not empty has a most recent entry, and only one.
pub proof fn lemma_newest(m: Map<PeerRef, i64>)
    requires
        m.dom().finite(),
        m.dom().len() > 0,
    ensures
        is_newest(m, newest(m)),
        forall|p: PeerRef| is_newest(m, p) ==> p == newest(m),
    decreases m.dom().len(),
{
    let x = m.dom().choose();
    let rest = m.remove(x);
    if rest.dom().len() == 0 {
        assert forall|q: PeerRef| m.dom().contains(q) && q != x implies newer(m, x, q) by {
            assert(rest.dom().contains(q));
        }
        assert(is_newest(m, x));
    } else {
        lemma_newest(rest);
        let o = newest(rest);
        let w = if newer(m, x, o) {
            x
        } else {
            o
        };
        assert forall|q: PeerRef| m.dom().contains(q) && q != w implies newer(m, w, q) by {
            if q != x && q != o {
                assert(rest.dom().contains(q));
                assert(newer(rest, o, q));
            }
        }
        assert(is_newest(m, w));
    }
    let o = newest(m);
    assert forall|p: PeerRef| is_newest(m, p) implies p == o by {
        if p != o {
            assert(newer(m, p, o));
            assert(newer(m, o, p));
        }
    }
}

/// The `count` most recent entries of `m`: the least recent entry is
/// dropped until no more than `count` are left.
pub open spec fn keep_most_recent_spec(m: Map<PeerRef, i64>, count: nat) -> Map<PeerRef, i64>
    decreases m.dom().len(),
    when m.dom().finite()
{
    if m.dom().len() <= count {
        m
    } else {
        proof {
            lemma_oldest(m);
        }
        keep_most_recent_spec(m.remove(oldest(m)), count)
    }
}

/// What is kept is part of the map, holds `count` entries or the whole
/// map, and every entry kept is more recent than every entry dropped.
pub proof fn lemma_keep_most_recent(m: Map<PeerRef, i64>, count: nat)
    requires
        m.dom().finite(),
    ensures
        keep_most_recent_spec(m, count).submap_of(m),
        keep_most_recent_spec(m, count).dom().finite(),
        keep_most_recent_spec(m, count).dom().len() == if m.dom().len() <= count {
            m.dom().len()
        } else {
            count
        },
        forall|p: PeerRef, q: PeerRef|
            keep_most_recent_spec(m, count).dom().contains(p) && m.dom().contains(q)
                && !keep_most_recent_spec(m, count).dom().contains(q) ==> newer(m, p, q),
    decreases m.dom().len(),
{
    if m.dom().len() > count {
        lemma_oldest(m);
        let o = oldest(m);
        let rest = m.remove(o);
        lemma_keep_most_recent(rest, count);
        let r = keep_most_recent_spec(rest, count);
        assert forall|p: PeerRef, q: PeerRef|
            r.dom().contains(p) && m.dom().contains(q) && !r.dom().contains(q) implies newer(
            m,
            p,
            q,
        ) by {
            assert(rest.dom().contains(p));
            if q != o {
                assert(rest.dom().contains(q));
                assert(newer(rest, p, q));
            }
        }
    }
}

/// Keeping the most recent entries twice is keeping them once.
pub proof fn lemma_keep_most_recent_idempotent(m: Map<PeerRef, i64>, count: nat)
    requires
        m.dom().finite(),
    ensures
        keep_most_recent_spec(keep_most_recent_spec(m, count), count) == keep_most_recent_spec(
            m,
            count,
        ),
{
    lemma_keep_most_recent(m, count);
}

/// Keeps the `count` entries with the latest timestamps; among entries
/// with the same timestamp, those of the smaller identities.
pub fn keep_most_recent(x: PeerMap<i64>, count: usize) -> (r: PeerMap<i64>)
    requires
        x.wf(),
    ensures
        r.wf(),
        r@ == keep_most_recent_spec(x@, count as nat),
        r@.submap_of(x@),
        r@.dom().finite(),
        r@.dom().len() == if x@.dom().len() <= count {
            x@.dom().len()
        } else {
            count as nat
        },
        forall|p: PeerRef, q: PeerRef|
            r@.dom().contains(p) && x@.dom().contains(q) && !r@.dom().contains(q) ==> newer(
                x@,
                p,
                q,
            ),
{
    let mut x = x;
    let ghost start = x@;
    proof {
        x.lemma_wf();
        lemma_keep_most_recent(start, count as nat);
    }
    while x.len() > count
        invariant
            x.wf(),
            x@.dom().finite(),
            keep_most_recent_spec(x@, count as nat) == keep_most_recent_spec(start, count as nat),
        decreases x@.dom().len(),
    {
        let n = x.len();
        let ghost m = x@;
        let mut best = x.entry(0);
        let mut i: usize = 1;
        while i < n
            invariant
                1 <= i <= n,
                n == listing(m).len(),
                m == x@,
                x.wf(),
                m.dom().finite(),
                exists|b: int| 0 <= b < i && listing(m)[b] == best,
                forall|j: int|
                    0 <= j < i && (#[trigger] listing(m)[j]).0 != best.0 ==> newer(
                        m,
                        listing(m)[j].0,
                        best.0,
                    ),
            decreases n - i,
        {
            proof {
                lemma_listing(m);
            }
            let e = x.entry(i);
            if e.1 < best.1 || (e.1 == best.1 && e.0 > best.0) {
                best = e;
            }
            i = i + 1;
        }
        proof {
            lemma_listing(m);
            lemma_oldest(m);
            assert forall|q: PeerRef| m.dom().contains(q) && q != best.0 implies newer(
                m,
                q,
                best.0,
            ) by {
                assert(has_key(listing(m), q));
                let j = choose|j: int| 0 <= j < listing(m).len() && (#[trigger] listing(m)[j]).0
                    == q;
                assert(newer(m, listing(m)[j].0, best.0));
            }
            assert(is_oldest(m, best.0));
        }
        x.remove(best.0);
    }
    x
}

} // verus!
