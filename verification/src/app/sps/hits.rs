//! The table of observations: how often each peer was advertised, the
//! statistics of these counts, and the blacklist that follows from them.

use vstd::prelude::*;
use crate::peer_map::{ascending, as_map, lemma_as_map_drop_last, lemma_listing, listing, PeerMap};
use crate::util::PeerRef;

verus! {

/// What a node has observed of a peer: when it first saw it advertised,
/// how long the record still lives, and how often the peer was advertised.
#[derive(Clone, Copy, Debug)]
pub struct PEntry {
    pub ts: i64,
    pub ttl: i64,
    pub hits: u32,
}

/// The largest number of hits that is counted.
pub const MAX_HITS: u32 = 0xffff_ffff;

/// The statistics of the hit counters of a table of observations: how
/// many counters there are, their sum, and the sum of their squares.
///
/// The mean of the counters is `sum / count`, and their standard deviation
/// is the square root of `squares / count - (sum / count)^2`.
#[derive(Clone, Copy, Debug)]
pub struct HitStats {
    pub count: u32,
    pub sum: u64,
    pub squares: u128,
}

impl HitStats {
    /// The sums are those of `count` counters.
    pub open spec fn wf(self) -> bool {
        &&& self.sum <= self.count * MAX_HITS
        &&& self.squares <= self.count * MAX_HITS * MAX_HITS
    }

    /// Whether `hits` lies above the mean by more than one standard
    /// deviation: `hits > mean + deviation`, which is to say
    /// `count * hits - sum > sqrt(count * squares - sum^2)`. Over no
    /// counter at all, nothing lies above.
    pub open spec fn exceeded_by(self, hits: u32) -> bool {
        let lead = self.count * hits - self.sum;
        self.count > 0 && lead > 0 && lead * lead > self.count * self.squares - self.sum * self.sum
    }

    /// The statistics of no counter.
    pub fn new() -> (r: Self)
        ensures
            r == (HitStats { count: 0, sum: 0, squares: 0 }),
            r.wf(),
    {
        HitStats { count: 0, sum: 0, squares: 0 }
    }

    /// Decides [`HitStats::exceeded_by`].
    pub fn is_exceeded_by(&self, hits: u32) -> (r: bool)
        requires
            self.wf(),
        ensures
            r == self.exceeded_by(hits),
    {
        let c = self.count as u64;
        let h = hits as u64;
        assert(c * h <= 0xffff_ffff * 0xffff_ffff) by (nonlinear_arith)
            requires
                c <= 0xffff_ffff,
                h <= 0xffff_ffff,
        ;
        let reach = c * h;
        if c == 0 || reach <= self.sum {
            return false;
        }
        let lead = (reach - self.sum) as u128;
        let sum = self.sum as u128;
        let count = c as u128;
        assert(lead * lead <= 0xffff_ffff_ffff_ffff * 0xffff_ffff_ffff_ffff) by (nonlinear_arith)
            requires
                lead <= 0xffff_ffff_ffff_ffff,
        ;
        assert(sum * sum <= 0xffff_ffff_ffff_ffff * 0xffff_ffff_ffff_ffff) by (nonlinear_arith)
            requires
                sum <= 0xffff_ffff_ffff_ffff,
        ;
        assert(count * self.squares <= 0xffff_ffff * (0xffff_ffff * 0xffff_ffff * 0xffff_ffff))
            by (nonlinear_arith)
            requires
                count <= 0xffff_ffff,
                self.squares <= count * 0xffff_ffff * 0xffff_ffff,
        ;
        let a = lead * lead;
        let b = sum * sum;
        let q = count * self.squares;
        if b > q {
            true
        } else {
            a > q - b
        }
    }
}

/// The statistics of the hit counters of a list of observations.
pub open spec fn tally(entries: Seq<(PeerRef, PEntry)>) -> HitStats
    decreases entries.len(),
{
    if entries.len() == 0 {
        HitStats { count: 0, sum: 0, squares: 0 }
    } else {
        let t = tally(entries.drop_last());
        let h = entries.last().1.hits;
        HitStats {
            count: (t.count + 1) as u32,
            sum: (t.sum + h) as u64,
            squares: (t.squares + h * h) as u128,
        }
    }
}

/// The statistics of a list of fewer than `2^32` observations count each
/// of them.
pub proof fn lemma_tally(entries: Seq<(PeerRef, PEntry)>)
    requires
        entries.len() <= MAX_HITS,
    ensures
        tally(entries).wf(),
        tally(entries).count == entries.len(),
    decreases entries.len(),
{
    if entries.len() > 0 {
        lemma_tally(entries.drop_last());
        let t = tally(entries.drop_last());
        let h = entries.last().1.hits as int;
        let c = t.count as int;
        assert(h * h <= 0xffff_ffff * 0xffff_ffff) by (nonlinear_arith)
            requires
                0 <= h <= 0xffff_ffff,
        ;
        assert(c * 0xffff_ffff * 0xffff_ffff + 0xffff_ffff * 0xffff_ffff == (c + 1) * 0xffff_ffff
            * 0xffff_ffff) by (nonlinear_arith);
        assert(c * 0xffff_ffff * 0xffff_ffff <= 0xffff_fffe * 0xffff_ffff * 0xffff_ffff)
            by (nonlinear_arith)
            requires
                0 <= c <= 0xffff_fffe,
        ;
    }
}

/// Whether the peer `p` is blacklisted: it is on record, and its hits lie
/// above the mean by more than one standard deviation.
pub open spec fn blacklisted(ptable: Map<PeerRef, PEntry>, stats: HitStats, p: PeerRef) -> bool {
    ptable.dom().contains(p) && stats.exceeded_by(ptable[p].hits)
}

/// The keys of those of `entries` whose hits exceed the statistics.
pub open spec fn black_keys(entries: Seq<(PeerRef, PEntry)>, stats: HitStats) -> Seq<PeerRef>
    decreases entries.len(),
{
    if entries.len() == 0 {
        Seq::empty()
    } else {
        let before = black_keys(entries.drop_last(), stats);
        if stats.exceeded_by(entries.last().1.hits) {
            before.push(entries.last().0)
        } else {
            before
        }
    }
}

/// The blacklisted peers, in ascending order.
pub open spec fn blacklist(ptable: Map<PeerRef, PEntry>, stats: HitStats) -> Seq<PeerRef> {
    black_keys(listing(ptable), stats)
}

/// The keys picked from an ascending list are those of its entries whose
/// hits exceed the statistics.
pub proof fn lemma_black_keys(entries: Seq<(PeerRef, PEntry)>, stats: HitStats)
    requires
        ascending(entries),
    ensures
        black_keys(entries, stats).len() <= entries.len(),
        forall|p: PeerRef|
            black_keys(entries, stats).contains(p) <==> blacklisted(as_map(entries), stats, p),
    decreases entries.len(),
{
    if entries.len() == 0 {
        assert(as_map(entries).dom() =~= Set::empty());
    } else {
        let rest = entries.drop_last();
        let last = entries.last();
        lemma_as_map_drop_last(entries);
        lemma_black_keys(rest, stats);
        let before = black_keys(rest, stats);
        let now = black_keys(entries, stats);
        assert forall|p: PeerRef| now.contains(p) <==> blacklisted(
            as_map(entries),
            stats,
            p,
        ) by {
            if stats.exceeded_by(last.1.hits) {
                assert(now =~= before.push(last.0));
                if now.contains(p) {
                    let i = choose|i: int| 0 <= i < now.len() && now[i] == p;
                    if i < before.len() {
                        assert(before[i] == p);
                        assert(before.contains(p));
                    }
                }
                if p == last.0 {
                    assert(now[now.len() - 1] == p);
                } else if before.contains(p) {
                    let i = choose|i: int| 0 <= i < before.len() && before[i] == p;
                    assert(now[i] == p);
                }
            }
        }
    }
}

/// The blacklist holds the blacklisted peers and nothing else.
pub proof fn lemma_blacklist(ptable: Map<PeerRef, PEntry>, stats: HitStats)
    requires
        ptable.dom().finite(),
    ensures
        blacklist(ptable, stats).len() <= ptable.dom().len(),
        forall|p: PeerRef|
            blacklist(ptable, stats).contains(p) <==> blacklisted(ptable, stats, p),
{
    lemma_listing(ptable);
    lemma_black_keys(listing(ptable), stats);
}

/// The blacklist of a table under given statistics.
pub fn compute_blacklist(ptable: &PeerMap<PEntry>, stats: &HitStats) -> (r: Vec<PeerRef>)
    requires
        ptable.wf(),
        stats.wf(),
    ensures
        r@ == blacklist(ptable@, *stats),
        forall|p: PeerRef| r@.contains(p) <==> blacklisted(ptable@, *stats, p),
{
    let mut ret: Vec<PeerRef> = Vec::new();
    let n = ptable.len();
    let mut i: usize = 0;
    while i < n
        invariant
            i <= n,
            n == listing(ptable@).len(),
            ptable.wf(),
            stats.wf(),
            ret@ == black_keys(listing(ptable@).take(i as int), *stats),
        decreases n - i,
    {
        let e = ptable.entry(i);
        assert(listing(ptable@).take(i + 1).drop_last() =~= listing(ptable@).take(i as int));
        if stats.is_exceeded_by(e.1.hits) {
            ret.push(e.0);
        }
        i = i + 1;
    }
    assert(listing(ptable@).take(n as int) =~= listing(ptable@));
    proof {
        lemma_blacklist(ptable@, *stats);
    }
    ret
}

/// Computes the statistics of the hit counters of a table.
pub fn compute_stats(ptable: &PeerMap<PEntry>) -> (r: HitStats)
    requires
        ptable.wf(),
        ptable@.dom().len() <= MAX_HITS,
    ensures
        r == tally(listing(ptable@)),
        r.wf(),
        r.count == ptable@.dom().len(),
{
    let n = ptable.len();
    let mut stats = HitStats::new();
    let mut i: usize = 0;
    while i < n
        invariant
            i <= n <= MAX_HITS,
            n == listing(ptable@).len(),
            ptable.wf(),
            stats == tally(listing(ptable@).take(i as int)),
        decreases n - i,
    {
        let e = ptable.entry(i);
        proof {
            assert(listing(ptable@).take(i + 1).drop_last() =~= listing(ptable@).take(i as int));
            lemma_tally(listing(ptable@).take(i as int));
            lemma_tally(listing(ptable@).take(i + 1));
        }
        let h = e.1.hits as u128;
        assert(h * h <= 0xffff_ffff * 0xffff_ffff) by (nonlinear_arith)
            requires
                h <= 0xffff_ffff,
        ;
        let ghost c = stats.count as int;
        assert(c * 0xffff_ffff * 0xffff_ffff <= 0xffff_fffe * 0xffff_ffff * 0xffff_ffff)
            by (nonlinear_arith)
            requires
                0 <= c <= 0xffff_fffe,
        ;
        stats = HitStats {
            count: stats.count + 1,
            sum: stats.sum + e.1.hits as u64,
            squares: stats.squares + h * h,
        };
        i = i + 1;
    }
    assert(listing(ptable@).take(n as int) =~= listing(ptable@));
    proof {
        lemma_tally(listing(ptable@));
    }
    stats
}

} // verus!
