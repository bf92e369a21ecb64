//! Secure Peer Sampling: gossip-based peer sampling that counts how often
//! each peer is advertised, blacklists the peers that are advertised far
//! more often than the rest, and replaces them by peers that have aged
//! without being noticed.
//!
//! All counters saturate: a counter that has reached the largest value of
//! its type stays there.

use vstd::prelude::*;
use vstd::string::*;

pub mod recency;
pub mod hits;

pub use self::hits::{
    black_keys, blacklist, blacklisted, compute_blacklist, compute_stats, lemma_blacklist, tally,
    HitStats, PEntry, MAX_HITS,
};
pub use self::recency::{
    is_newest, is_oldest, keep_most_recent, keep_most_recent_spec, lemma_keep_most_recent,
    lemma_keep_most_recent_idempotent, lemma_newest, newer, newest, oldest,
};
use crate::net::{
    peers_between, peers_from, peers_upto, population, App, NetModel, Network,
};
use crate::peer_map::{
    ascending, as_map, has_key, key_listing, lemma_as_map_drop_last, lemma_key_listing,
    lemma_listing, listing, PeerMap,
};
use crate::rps::RPS;
use crate::text::{
    decimal, decimal_or_sentinel, fixed_point, to_decimal, to_decimal_or_sentinel, to_fixed_point,
};
use crate::util::{
    add_capped, either_or_if_both, lemma_sat_add, sample, sample_spec, sat_add, Dice, PeerRef,
};

verus! {

/// The messages of the protocol: the tick that a node sends to itself at
/// every step, and the two halves of an exchange of views. A view is sent
/// as a list of peers, each with the time of the latest evidence for it.
pub enum Msg {
    SelfNotif,
    Request(Vec<(PeerRef, i64)>),
    Reply(Vec<(PeerRef, i64)>),
}

/// What a [`Msg`] stands for.
pub enum Note {
    SelfNotif,
    Request(Seq<(PeerRef, i64)>),
    Reply(Seq<(PeerRef, i64)>),
}

impl View for Msg {
    type V = Note;

    open spec fn view(&self) -> Note {
        match self {
            Msg::SelfNotif => Note::SelfNotif,
            Msg::Request(l) => Note::Request(l@),
            Msg::Reply(l) => Note::Reply(l@),
        }
    }
}

/// The parameters of the protocol.
#[derive(Clone, Copy, Debug)]
pub struct Init {
    /// Number of Byzantine nodes: those with the lowest identities.
    pub n_byzantine: usize,
    /// Number of peers that a Byzantine node floods at every step.
    pub byzantine_flood_factor: usize,
    /// The time at which the Byzantine nodes start their attack.
    pub attack_start_time: u64,
    /// Samples are handed out every so many steps, if at all.
    pub sampling_frequency: Option<u64>,
    /// Number of samples handed out at a time.
    pub sampling_count: usize,
    /// The largest size of a view.
    pub view_size: usize,
    /// Number of peers asked for their view in a round.
    pub num_exchanges: usize,
    /// Number of steps from one round to the next.
    pub exchange_interval: usize,
    /// The time to live of a new observation.
    pub ttl0: i64,
    /// The largest size of the whitelist.
    pub wlist_max: usize,
}

/// The largest number of samples that wait to be fetched.
pub const SAMPLE_BUFFER: usize = 200;

/// The state of one node.
pub struct SPS {
    pub params: Init,
    pub n_nodes: usize,
    pub my_id: PeerRef,
    pub is_byzantine: bool,
    pub view: PeerMap<i64>,
    pub ptable: PeerMap<PEntry>,
    pub wlist: PeerMap<i64>,
    pub done: bool,
    pub check: PeerRef,
    pub request_set: Vec<PeerRef>,
    pub stats: HitStats,
    pub out_samples: Vec<PeerRef>,
    pub n_received: usize,
    pub n_byzantine_received: usize,
    pub witnessed: Ghost<Set<PeerRef>>,
}

/// What an [`SPS`] stands for. `witnessed` holds the peers that have been
/// in the view since the samples were last cleared.
pub struct State {
    pub params: Init,
    pub n_nodes: usize,
    pub my_id: PeerRef,
    pub is_byzantine: bool,
    pub view: Map<PeerRef, i64>,
    pub ptable: Map<PeerRef, PEntry>,
    pub wlist: Map<PeerRef, i64>,
    pub done: bool,
    pub check: PeerRef,
    pub request_set: Seq<PeerRef>,
    pub stats: HitStats,
    pub out_samples: Seq<PeerRef>,
    pub n_received: usize,
    pub n_byzantine_received: usize,
    pub witnessed: Set<PeerRef>,
}

impl View for SPS {
    type V = State;

    open spec fn view(&self) -> State {
        State {
            params: self.params,
            n_nodes: self.n_nodes,
            my_id: self.my_id,
            is_byzantine: self.is_byzantine,
            view: self.view@,
            ptable: self.ptable@,
            wlist: self.wlist@,
            done: self.done,
            check: self.check,
            request_set: self.request_set@,
            stats: self.stats,
            out_samples: self.out_samples@,
            n_received: self.n_received,
            n_byzantine_received: self.n_byzantine_received,
            witnessed: self.witnessed@,
        }
    }
}

/// A finite map whose keys are all below `n`.
pub open spec fn within<V>(m: Map<PeerRef, V>, n: usize) -> bool {
    m.dom().finite() && forall|p: PeerRef| m.dom().contains(p) ==> p < n
}

/// Every peer of the list is below `n`.
pub open spec fn list_within(list: Seq<(PeerRef, i64)>, n: nat) -> bool {
    forall|i: int| 0 <= i < list.len() ==> (#[trigger] list[i]).0 < n
}

/// Every peer of the list is below `n`.
pub open spec fn peers_within(peers: Seq<PeerRef>, n: nat) -> bool {
    forall|i: int| 0 <= i < peers.len() ==> peers[i] < n
}

/// Whether the list names the peer `q`.
pub open spec fn list_names(list: Seq<(PeerRef, i64)>, q: PeerRef) -> bool {
    exists|i: int| 0 <= i < list.len() && (#[trigger] list[i]).0 == q
}

/// `view` after each entry of `list` has been put into it, in order.
pub open spec fn merged(view: Map<PeerRef, i64>, list: Seq<(PeerRef, i64)>) -> Map<PeerRef, i64>
    decreases list.len(),
{
    if list.len() == 0 {
        view
    } else {
        merged(view, list.drop_last()).insert(list.last().0, list.last().1)
    }
}

/// A counter of hits after one more hit.
pub open spec fn more_hits(h: u32) -> u32 {
    if h == MAX_HITS {
        h
    } else {
        (h + 1) as u32
    }
}

/// A time to live after one more observation.
pub open spec fn more_ttl(t: i64) -> i64 {
    if t == i64::MAX {
        t
    } else {
        (t + 1) as i64
    }
}

/// The table of observations after the peer `q` was seen advertised with
/// the timestamp `ts`: one more hit and a longer life for a peer on record,
/// a new record for any other.
pub open spec fn noted_one(ptable: Map<PeerRef, PEntry>, q: PeerRef, ts: i64, ttl0: i64) -> Map<
    PeerRef,
    PEntry,
> {
    if ptable.dom().contains(q) {
        ptable.insert(
            q,
            PEntry { ts: ptable[q].ts, ttl: more_ttl(ptable[q].ttl), hits: more_hits(ptable[q].hits) },
        )
    } else {
        ptable.insert(q, PEntry { ts, ttl: ttl0, hits: 1 })
    }
}

/// The table of observations after every entry of `list` was seen, in order.
pub open spec fn noted(ptable: Map<PeerRef, PEntry>, list: Seq<(PeerRef, i64)>, ttl0: i64) -> Map<
    PeerRef,
    PEntry,
>
    decreases list.len(),
{
    if list.len() == 0 {
        ptable
    } else {
        noted_one(noted(ptable, list.drop_last(), ttl0), list.last().0, list.last().1, ttl0)
    }
}

/// The whitelist without the blacklisted peers.
pub open spec fn cleansed(
    wlist: Map<PeerRef, i64>,
    ptable: Map<PeerRef, PEntry>,
    stats: HitStats,
) -> Map<PeerRef, i64> {
    Map::new(
        |p: PeerRef| wlist.dom().contains(p) && !blacklisted(ptable, stats, p),
        |p: PeerRef| wlist[p],
    )
}

/// The whitelisted peers that are not in the view.
pub open spec fn spare(wlist: Map<PeerRef, i64>, view: Map<PeerRef, i64>) -> Map<PeerRef, i64> {
    Map::new(|p: PeerRef| wlist.dom().contains(p) && !view.dom().contains(p), |p: PeerRef| wlist[p])
}

/// Whether some whitelisted peer is not in the view.
pub open spec fn has_spare(wlist: Map<PeerRef, i64>, view: Map<PeerRef, i64>) -> bool {
    exists|p: PeerRef| wlist.dom().contains(p) && !view.dom().contains(p)
}

/// The view after an attempt to replace `q`: the most recent whitelisted
/// peer that is not in the view takes its place; where there is none, the
/// view stays as it is.
pub open spec fn replaced(view: Map<PeerRef, i64>, wlist: Map<PeerRef, i64>, q: PeerRef) -> Map<
    PeerRef,
    i64,
> {
    if has_spare(wlist, view) {
        let c = newest(spare(wlist, view));
        view.remove(q).insert(c, wlist[c])
    } else {
        view
    }
}

/// The view after an attempt to replace each blacklisted peer among
/// `keys`, in order.
pub open spec fn substituted(
    view: Map<PeerRef, i64>,
    wlist: Map<PeerRef, i64>,
    ptable: Map<PeerRef, PEntry>,
    stats: HitStats,
    keys: Seq<PeerRef>,
) -> Map<PeerRef, i64>
    decreases keys.len(),
{
    if keys.len() == 0 {
        view
    } else {
        let before = substituted(view, wlist, ptable, stats, keys.drop_last());
        if blacklisted(ptable, stats, keys.last()) {
            replaced(before, wlist, keys.last())
        } else {
            before
        }
    }
}

/// The table of observations after a round: the records that had no more
/// than one round to live are gone, the others have one round less.
pub open spec fn aged(ptable: Map<PeerRef, PEntry>) -> Map<PeerRef, PEntry> {
    Map::new(
        |p: PeerRef| ptable.dom().contains(p) && ptable[p].ttl > 1,
        |p: PeerRef| PEntry { ts: ptable[p].ts, ttl: (ptable[p].ttl - 1) as i64, hits: ptable[p].hits },
    )
}

/// The whitelist after a round, before it is cut to size: the peers whose
/// records had no more than one round to live have joined it, with the
/// timestamps of their records.
pub open spec fn graduated(ptable: Map<PeerRef, PEntry>, wlist: Map<PeerRef, i64>) -> Map<
    PeerRef,
    i64,
> {
    Map::new(
        |p: PeerRef| wlist.dom().contains(p) || (ptable.dom().contains(p) && ptable[p].ttl <= 1),
        |p: PeerRef|
            if ptable.dom().contains(p) && ptable[p].ttl <= 1 {
                ptable[p].ts
            } else {
                wlist[p]
            },
    )
}

/// The number of Byzantine peers in a list.
pub open spec fn byzantine_count(list: Seq<(PeerRef, i64)>, n_byzantine: usize) -> nat
    decreases list.len(),
{
    if list.len() == 0 {
        0
    } else {
        byzantine_count(list.drop_last(), n_byzantine) + if list.last().0 < n_byzantine {
            1nat
        } else {
            0nat
        }
    }
}

/// A finite set of peers below `n` has no more than `n` members.
pub proof fn lemma_within_len(keys: Set<PeerRef>, n: usize)
    requires
        keys.finite(),
        forall|p: PeerRef| keys.contains(p) ==> p < n,
    ensures
        keys.len() <= n,
    decreases n,
{
    if n == 0 {
        assert(keys =~= Set::empty());
    } else {
        let top = (n - 1) as usize;
        let rest = keys.remove(top);
        lemma_within_len(rest, top);
    }
}

impl Init {
    /// The parameters can be used for a population of `n` nodes: the
    /// intervals are not zero, and the population is small enough for the
    /// hit statistics to be exact.
    pub open spec fn ok(self, n: nat) -> bool {
        &&& n <= MAX_HITS
        &&& self.exchange_interval > 0
        &&& self.sampling_frequency != Some(0u64)
    }
}

impl State {
    /// The Byzantine nodes of the population, in ascending order.
    pub open spec fn byzantines(self) -> Seq<PeerRef> {
        population(
            if self.params.n_byzantine <= self.n_nodes {
                self.params.n_byzantine as nat
            } else {
                self.n_nodes as nat
            },
        )
    }

    /// Whether the peer `p` is blacklisted.
    pub open spec fn is_blacklisted(self, p: PeerRef) -> bool {
        blacklisted(self.ptable, self.stats, p)
    }

    /// The view as a node advertises it at the time `now`: its entries in
    /// ascending order, then the node itself, seen now.
    pub open spec fn advert(self, now: u64) -> Seq<(PeerRef, i64)> {
        listing(self.view).push((self.my_id, stamp_of(now)))
    }

    /// The state with another view; the peers of the view count as
    /// witnessed.
    pub open spec fn with_view(self, view: Map<PeerRef, i64>) -> State {
        State { view, witnessed: self.witnessed.union(view.dom()), ..self }
    }

    /// The state after a list of peers was merged into the view and the
    /// view cut to size.
    pub open spec fn merge_view(self, list: Seq<(PeerRef, i64)>) -> State {
        self.with_view(
            keep_most_recent_spec(merged(self.view, list), self.params.view_size as nat),
        )
    }

    /// The state after the whitelist was cut to size.
    pub open spec fn limit_wlist(self) -> State {
        State { wlist: keep_most_recent_spec(self.wlist, self.params.wlist_max as nat), ..self }
    }

    /// The state after a list of peers went down the statistics path: the
    /// peers are noted in the table of observations, the statistics are
    /// computed anew, the peers that are now blacklisted leave the
    /// whitelist, and each blacklisted peer of the view is replaced by a
    /// whitelisted one as long as there is one.
    pub open spec fn update_statistics(self, list: Seq<(PeerRef, i64)>) -> State {
        let ptable = noted(self.ptable, list, self.params.ttl0);
        let stats = tally(listing(ptable));
        let wlist = cleansed(self.wlist, ptable, stats);
        let view = substituted(self.view, wlist, ptable, stats, key_listing(self.view));
        State { ptable, stats, wlist, ..self }.with_view(view)
    }

    /// The state after the traffic counters took in a received list.
    pub open spec fn counted(self, list: Seq<(PeerRef, i64)>) -> State {
        State {
            n_received: crate::util::sat_add(self.n_received, list.len() as usize),
            n_byzantine_received: crate::util::sat_add(
                self.n_byzantine_received,
                byzantine_count(list, self.params.n_byzantine) as usize,
            ),
            ..self
        }
    }

    /// What holds of the state of a node at all times.
    pub open spec fn inv(self) -> bool {
        &&& self.params.ok(self.n_nodes as nat)
        &&& self.my_id < self.n_nodes
        &&& self.is_byzantine == (self.my_id < self.params.n_byzantine)
        &&& within(self.view, self.n_nodes)
        &&& within(self.ptable, self.n_nodes)
        &&& within(self.wlist, self.n_nodes)
        &&& self.view.dom().len() <= self.params.view_size
        &&& self.wlist.dom().len() <= self.params.wlist_max
        &&& peers_within(self.request_set, self.n_nodes as nat)
        &&& peers_within(self.out_samples, self.n_nodes as nat)
        &&& self.out_samples.len() <= SAMPLE_BUFFER
        &&& self.stats.wf()
        &&& self.params.ttl0 >= 1 ==> forall|p: PeerRef|
            self.ptable.dom().contains(p) ==> self.ptable[p].ttl >= 1
        &&& self.view.dom().subset_of(self.witnessed)
        &&& forall|i: int|
            0 <= i < self.out_samples.len() ==> self.witnessed.contains(self.out_samples[i])
    }
}

/// A copy of a list of peers.
fn copy_list(list: &Vec<(PeerRef, i64)>) -> (r: Vec<(PeerRef, i64)>)
    ensures
        r@ == list@,
{
    let mut out: Vec<(PeerRef, i64)> = Vec::with_capacity(list.len());
    let mut i: usize = 0;
    while i < list.len()
        invariant
            i <= list@.len(),
            out@ == list@.take(i as int),
        decreases list@.len() - i,
    {
        out.push(list[i]);
        assert(out@ == list@.take(i + 1));
        i = i + 1;
    }
    assert(list@.take(i as int) == list@);
    out
}

/// Puts every entry of `list` into `view`, then keeps the `size` most
/// recent entries.
fn merge_into(view: PeerMap<i64>, list: &Vec<(PeerRef, i64)>, size: usize, n: usize) -> (r: PeerMap<
    i64,
>)
    requires
        view.wf(),
        within(view@, n),
        list_within(list@, n as nat),
    ensures
        r.wf(),
        r@ == keep_most_recent_spec(merged(view@, list@), size as nat),
        within(r@, n),
        r@.dom().len() <= size,
        forall|q: PeerRef|
            r@.dom().contains(q) ==> view@.dom().contains(q) || list_names(list@, q),
{
    let mut view = view;
    let ghost start = view@;
    let mut i: usize = 0;
    while i < list.len()
        invariant
            i <= list@.len(),
            view.wf(),
            within(view@, n),
            list_within(list@, n as nat),
            view@ == merged(start, list@.take(i as int)),
            forall|q: PeerRef|
                view@.dom().contains(q) ==> start.dom().contains(q) || list_names(list@, q),
        decreases list@.len() - i,
    {
        let e = list[i];
        assert(list@.take(i + 1).drop_last() =~= list@.take(i as int));
        assert(list@[i as int].0 == e.0);
        view.insert(e.0, e.1);
        i = i + 1;
    }
    assert(list@.take(i as int) == list@);
    let ghost full = view@;
    let r = keep_most_recent(view, size);
    assert forall|p: PeerRef| r@.dom().contains(p) implies p < n by {
        assert(full.dom().contains(p));
    }
    r
}

/// Notes every entry of `list` in the table of observations.
fn note_all(ptable: PeerMap<PEntry>, list: &Vec<(PeerRef, i64)>, ttl0: i64, n: usize) -> (r: PeerMap<
    PEntry,
>)
    requires
        ptable.wf(),
        within(ptable@, n),
        list_within(list@, n as nat),
        ttl0 >= 1 ==> forall|p: PeerRef| ptable@.dom().contains(p) ==> ptable@[p].ttl >= 1,
    ensures
        r.wf(),
        r@ == noted(ptable@, list@, ttl0),
        within(r@, n),
        ttl0 >= 1 ==> forall|p: PeerRef| r@.dom().contains(p) ==> r@[p].ttl >= 1,
{
    let mut ptable = ptable;
    let ghost start = ptable@;
    let mut i: usize = 0;
    while i < list.len()
        invariant
            i <= list@.len(),
            ptable.wf(),
            within(ptable@, n),
            list_within(list@, n as nat),
            ttl0 >= 1 ==> forall|p: PeerRef| ptable@.dom().contains(p) ==> ptable@[p].ttl >= 1,
            ptable@ == noted(start, list@.take(i as int), ttl0),
        decreases list@.len() - i,
    {
        let e = list[i];
        assert(list@.take(i + 1).drop_last() =~= list@.take(i as int));
        match ptable.get(e.0) {
            Some(seen) => {
                let ttl = if seen.ttl == i64::MAX {
                    seen.ttl
                } else {
                    seen.ttl + 1
                };
                let hits = if seen.hits == MAX_HITS {
                    seen.hits
                } else {
                    seen.hits + 1
                };
                ptable.insert(e.0, PEntry { ts: seen.ts, ttl, hits });
            },
            None => {
                ptable.insert(e.0, PEntry { ts: e.1, ttl: ttl0, hits: 1 });
            },
        }
        i = i + 1;
    }
    assert(list@.take(i as int) == list@);
    ptable
}

/// The prefix of an ascending list is ascending, and it stands for the map
/// of the whole list without the keys that follow.
proof fn lemma_listing_take<V>(m: Map<PeerRef, V>, i: int)
    requires
        m.dom().finite(),
        0 <= i < listing(m).len(),
    ensures
        ascending(listing(m).take(i)),
        ascending(listing(m).take(i + 1)),
        as_map(listing(m).take(i + 1)) == as_map(listing(m).take(i)).insert(
            listing(m)[i].0,
            listing(m)[i].1,
        ),
        !as_map(listing(m).take(i)).dom().contains(listing(m)[i].0),
        m.dom().contains(listing(m)[i].0),
        m[listing(m)[i].0] == listing(m)[i].1,
{
    lemma_listing(m);
    let l = listing(m);
    let t = l.take(i + 1);
    assert forall|a: int, b: int| 0 <= a < b < t.len() implies t[a].0 < t[b].0 by {
        assert(l[a].0 < l[b].0);
    }
    assert(t.drop_last() =~= l.take(i));
    lemma_as_map_drop_last(t);
}

/// The whole of a listing stands for its map.
proof fn lemma_listing_whole<V>(m: Map<PeerRef, V>)
    requires
        m.dom().finite(),
    ensures
        listing(m).take(listing(m).len() as int) == listing(m),
        as_map(listing(m).take(listing(m).len() as int)) == m,
        as_map(listing(m).take(0)) == Map::<PeerRef, V>::empty(),
{
    lemma_listing(m);
    assert(listing(m).take(listing(m).len() as int) =~= listing(m));
    assert(as_map(listing(m).take(0)) =~= Map::<PeerRef, V>::empty());
}

/// The whitelist without the blacklisted peers.
fn cleanse(wlist: &PeerMap<i64>, ptable: &PeerMap<PEntry>, stats: &HitStats) -> (r: PeerMap<i64>)
    requires
        wlist.wf(),
        ptable.wf(),
        stats.wf(),
    ensures
        r.wf(),
        r@ == cleansed(wlist@, ptable@, *stats),
{
    let mut out: PeerMap<i64> = PeerMap::new();
    let n = wlist.len();
    let mut i: usize = 0;
    proof {
        lemma_listing_whole(wlist@);
        assert(out@ =~= cleansed(as_map(listing(wlist@).take(0)), ptable@, *stats));
    }
    while i < n
        invariant
            i <= n,
            n == listing(wlist@).len(),
            wlist.wf(),
            wlist@.dom().finite(),
            ptable.wf(),
            stats.wf(),
            out.wf(),
            out@ == cleansed(as_map(listing(wlist@).take(i as int)), ptable@, *stats),
        decreases n - i,
    {
        let e = wlist.entry(i);
        proof {
            lemma_listing_take(wlist@, i as int);
        }
        let ghost before = as_map(listing(wlist@).take(i as int));
        let black = match ptable.get(e.0) {
            Some(seen) => stats.is_exceeded_by(seen.hits),
            None => false,
        };
        if !black {
            out.insert(e.0, e.1);
        }
        assert(out@ =~= cleansed(before.insert(e.0, e.1), ptable@, *stats));
        i = i + 1;
    }
    out
}

/// The most recent whitelisted peer that is not in the view, if any.
fn pick_spare(wlist: &PeerMap<i64>, view: &PeerMap<i64>) -> (r: Option<(PeerRef, i64)>)
    requires
        wlist.wf(),
        view.wf(),
    ensures
        r is None <==> !has_spare(wlist@, view@),
        r matches Some(c) ==> c.0 == newest(spare(wlist@, view@)) && c.1 == wlist@[c.0]
            && wlist@.dom().contains(c.0) && !view@.dom().contains(c.0),
{
    let n = wlist.len();
    let ghost l = listing(wlist@);
    let mut best: Option<(PeerRef, i64)> = None;
    let mut i: usize = 0;
    while i < n
        invariant
            i <= n,
            n == l.len(),
            l == listing(wlist@),
            wlist.wf(),
            wlist@.dom().finite(),
            view.wf(),
            best is None ==> forall|j: int| 0 <= j < i ==> view@.dom().contains((#[trigger] l[j]).0),
            best matches Some(b) ==> wlist@.dom().contains(b.0) && wlist@[b.0] == b.1
                && !view@.dom().contains(b.0) && forall|j: int|
                0 <= j < i && (#[trigger] l[j]).0 != b.0 && !view@.dom().contains(l[j].0) ==> newer(
                    wlist@,
                    b.0,
                    l[j].0,
                ),
        decreases n - i,
    {
        let e = wlist.entry(i);
        proof {
            lemma_listing(wlist@);
        }
        if !view.contains_key(e.0) {
            match best {
                Some(b) => {
                    if e.1 > b.1 || (e.1 == b.1 && e.0 < b.0) {
                        best = Some(e);
                    }
                },
                None => {
                    best = Some(e);
                },
            }
        }
        i = i + 1;
    }
    proof {
        lemma_listing(wlist@);
        let sp = spare(wlist@, view@);
        match best {
            Some(b) => {
                assert(sp.dom().subset_of(wlist@.dom()));
                vstd::set_lib::lemma_len_subset(sp.dom(), wlist@.dom());
                assert(sp.dom().contains(b.0));
                assert forall|q: PeerRef| sp.dom().contains(q) && q != b.0 implies newer(
                    sp,
                    b.0,
                    q,
                ) by {
                    assert(has_key(l, q));
                    let j = choose|j: int| 0 <= j < l.len() && (#[trigger] l[j]).0 == q;
                    assert(newer(wlist@, b.0, l[j].0));
                }
                assert(is_newest(sp, b.0));
                lemma_newest(sp);
            },
            None => {
                assert forall|p: PeerRef| wlist@.dom().contains(p) implies view@.dom().contains(
                    p,
                ) by {
                    assert(has_key(l, p));
                    let j = choose|j: int| 0 <= j < l.len() && (#[trigger] l[j]).0 == p;
                    assert(view@.dom().contains(l[j].0));
                }
            },
        }
    }
    best
}

/// Tries to replace each blacklisted peer of the view by a whitelisted one.
fn substitute(
    view: PeerMap<i64>,
    wlist: &PeerMap<i64>,
    ptable: &PeerMap<PEntry>,
    stats: &HitStats,
    n: usize,
) -> (r: PeerMap<i64>)
    requires
        view.wf(),
        wlist.wf(),
        ptable.wf(),
        stats.wf(),
        within(view@, n),
        within(wlist@, n),
        forall|p: PeerRef| wlist@.dom().contains(p) ==> !blacklisted(ptable@, *stats, p),
    ensures
        r.wf(),
        r@ == substituted(view@, wlist@, ptable@, *stats, key_listing(view@)),
        within(r@, n),
        r@.dom().len() == view@.dom().len(),
        forall|q: PeerRef|
            r@.dom().contains(q) && blacklisted(ptable@, *stats, q) ==> view@.dom().contains(q)
                && !has_spare(wlist@, r@),
        forall|q: PeerRef| #[trigger]
            r@.dom().contains(q) ==> (view@.dom().contains(q) && r@[q] == view@[q]) || (
            wlist@.dom().contains(q) && r@[q] == wlist@[q]),
{
    let mut view = view;
    let ghost start = view@;
    let keys = view.keys();
    let mut i: usize = 0;
    proof {
        assert forall|j: int| 0 <= j < keys@.len() implies view@.dom().contains(keys@[j]) by {
            assert(keys@.contains(keys@[j]));
        }
        assert forall|q: PeerRef| #[trigger]
            view@.dom().contains(q) implies exists|j: int|
            0 <= j < keys@.len() && keys@[j] == q by {
            assert(keys@.contains(q));
        }
    }
    while i < keys.len()
        invariant
            i <= keys@.len(),
            keys@ == key_listing(start),
            keys@.no_duplicates(),
            forall|k: PeerRef| keys@.contains(k) <==> start.dom().contains(k),
            view.wf(),
            wlist.wf(),
            ptable.wf(),
            stats.wf(),
            within(view@, n),
            within(wlist@, n),
            forall|p: PeerRef| wlist@.dom().contains(p) ==> !blacklisted(ptable@, *stats, p),
            view@ == substituted(start, wlist@, ptable@, *stats, keys@.take(i as int)),
            view@.dom().len() == start.dom().len(),
            forall|q: PeerRef| #[trigger]
                view@.dom().contains(q) ==> (start.dom().contains(q) && view@[q] == start[q]) || (
                wlist@.dom().contains(q) && view@[q] == wlist@[q]),
            forall|j: int| i <= j < keys@.len() ==> view@.dom().contains(keys@[j]),
            forall|q: PeerRef| #[trigger]
                view@.dom().contains(q) && blacklisted(ptable@, *stats, q) ==> start.dom().contains(
                    q,
                ) && ((exists|j: int| i <= j < keys@.len() && keys@[j] == q) || !has_spare(
                    wlist@,
                    view@,
                )),
        decreases keys@.len() - i,
    {
        let q = keys[i];
        let ghost before = view@;
        assert(keys@.take(i + 1).drop_last() =~= keys@.take(i as int));
        let black = match ptable.get(q) {
            Some(seen) => stats.is_exceeded_by(seen.hits),
            None => false,
        };
        assert(black == blacklisted(ptable@, *stats, q));
        let mut changed = false;
        if black {
            match pick_spare(wlist, &view) {
                Some(c) => {
                    assert(before.dom().contains(q));
                    view.remove(q);
                    view.insert(c.0, c.1);
                    changed = true;
                    assert(view@ == replaced(before, wlist@, q));
                    assert forall|j: int| i + 1 <= j < keys@.len() implies view@.dom().contains(
                        keys@[j],
                    ) by {
                        assert(keys@[j] != keys@[i as int]);
                    }
                },
                None => {
                    assert(view@ == replaced(before, wlist@, q));
                },
            }
        }
        proof {
            assert forall|x: PeerRef| #[trigger]
                view@.dom().contains(x) && blacklisted(
                    ptable@,
                    *stats,
                    x,
                ) implies start.dom().contains(x) && ((exists|j: int|
                i + 1 <= j < keys@.len() && keys@[j] == x) || !has_spare(wlist@, view@)) by {
                if changed {
                    assert(!wlist@.dom().contains(x));
                    assert(x != q);
                    assert(before.dom().contains(x));
                    assert(has_spare(wlist@, before));
                    let j = choose|j: int| i <= j < keys@.len() && keys@[j] == x;
                    assert(j != i);
                } else {
                    assert(before.dom().contains(x));
                    if has_spare(wlist@, before) {
                        let j = choose|j: int| i <= j < keys@.len() && keys@[j] == x;
                        if j == i {
                            assert(x == q);
                            assert(false);
                        }
                    }
                }
            }
        }
        i = i + 1;
    }
    assert(keys@.take(i as int) == keys@);
    view
}

/// Whether the message names the peer `q`.
pub open spec fn note_names(msg: Note, q: PeerRef) -> bool {
    match msg {
        Note::SelfNotif => false,
        Note::Request(l) => list_names(l, q),
        Note::Reply(l) => list_names(l, q),
    }
}

/// The message names only peers below `n`.
pub open spec fn note_ok(msg: Note, n: nat) -> bool {
    match msg {
        Note::SelfNotif => true,
        Note::Request(l) => list_within(l, n),
        Note::Reply(l) => list_within(l, n),
    }
}

/// The timestamp of evidence seen at the time `now`; it stops at the
/// largest timestamp.
pub open spec fn stamp_of(now: u64) -> i64 {
    if now <= i64::MAX {
        now as i64
    } else {
        i64::MAX
    }
}

/// The timestamp of evidence seen at the time `now`.
pub fn to_stamp(now: u64) -> (r: i64)
    ensures
        r == stamp_of(now),
{
    if now <= i64::MAX as u64 {
        now as i64
    } else {
        i64::MAX
    }
}

/// A list of peers, each seen at the time `now`.
pub open spec fn stamped(peers: Seq<PeerRef>, now: u64) -> Seq<(PeerRef, i64)> {
    peers.map_values(|p: PeerRef| (p, stamp_of(now)))
}

/// Whether a tick at the time `now` falls on the phase of the node `id`
/// in a cycle of `interval` steps.
pub open spec fn on_phase(id: PeerRef, now: u64, interval: nat) -> bool {
    interval > 0 && (id + now) % (interval as int) == 0
}

impl State {
    /// The network after a request with `advert` was sent to each of
    /// `targets` that is not blacklisted.
    pub open spec fn requested(
        self,
        net: NetModel<Note>,
        targets: Seq<PeerRef>,
        advert: Seq<(PeerRef, i64)>,
    ) -> NetModel<Note>
        decreases targets.len(),
    {
        if targets.len() == 0 {
            net
        } else {
            let before = self.requested(net, targets.drop_last(), advert);
            if self.is_blacklisted(targets.last()) {
                before
            } else {
                before.sent(targets.last(), Note::Request(advert))
            }
        }
    }

    /// The state and the network after a round of exchange: the node asks
    /// `num_exchanges` peers drawn from its view for their views, checks
    /// on one blacklisted peer drawn at random if there is any, and ages
    /// its table of observations.
    pub open spec fn exchange(self, net: NetModel<Note>) -> (State, NetModel<Note>) {
        let picked = sample_spec(key_listing(self.view), self.params.num_exchanges as nat, net.dice);
        let advert = self.advert(net.now);
        let asked = self.requested(net.with_dice(picked.1), picked.0, advert);
        let black = blacklist(self.ptable, self.stats);
        let drawn = sample_spec(black, 1, asked.dice);
        let state = State {
            done: false,
            request_set: picked.0,
            check: if black.len() > 0 {
                drawn.0[0]
            } else {
                self.check
            },
            ptable: aged(self.ptable),
            wlist: keep_most_recent_spec(
                graduated(self.ptable, self.wlist),
                self.params.wlist_max as nat,
            ),
            ..self
        };
        if black.len() > 0 {
            (state, asked.with_dice(drawn.1).sent(drawn.0[0], Note::Request(advert)))
        } else {
            (state, asked)
        }
    }

    /// Whether a tick at the time `now` adds samples to those that wait
    /// to be fetched.
    pub open spec fn sampling_due(self, now: u64) -> bool {
        match self.params.sampling_frequency {
            Some(rf) => on_phase(self.my_id, now, rf as nat) && self.out_samples.len()
                < SAMPLE_BUFFER,
            None => false,
        }
    }

    /// The samples that wait to be fetched after `got` was drawn for them:
    /// as many of the drawn samples are added as the buffer has room for.
    pub open spec fn buffered(self, got: Seq<PeerRef>) -> Seq<PeerRef> {
        if self.out_samples.len() + got.len() <= SAMPLE_BUFFER {
            self.out_samples + got
        } else {
            self.out_samples + got.take(SAMPLE_BUFFER - self.out_samples.len())
        }
    }

    /// The state and the network after a correct node's tick: a round of
    /// exchange where one is due, fresh samples from the view as it was
    /// before the tick where they are due, and the next tick sent.
    pub open spec fn tick(self, net: NetModel<Note>) -> (State, NetModel<Note>) {
        let a = if on_phase(self.my_id, net.now, self.params.exchange_interval as nat) {
            self.exchange(net)
        } else {
            (self, net)
        };
        let got = sample_spec(key_listing(self.view), self.params.sampling_count as nat, a.1.dice);
        if self.sampling_due(net.now) {
            (
                State { out_samples: a.0.buffered(got.0), ..a.0 },
                a.1.with_dice(got.1).sent(self.my_id, Note::SelfNotif),
            )
        } else {
            (a.0, a.1.sent(self.my_id, Note::SelfNotif))
        }
    }

    /// The state and the network after a correct node has received a
    /// request: it always replies with its view, and merges the list into
    /// its view unless the sender is blacklisted.
    pub open spec fn on_request(self, net: NetModel<Note>, from: PeerRef, list: Seq<(PeerRef, i64)>) -> (
        State,
        NetModel<Note>,
    ) {
        let counted = self.counted(list);
        (
            if self.is_blacklisted(from) {
                counted
            } else {
                counted.merge_view(list)
            },
            net.sent(from, Note::Reply(self.advert(net.now))),
        )
    }

    /// Whether a reply from `from` is the one that this round integrates,
    /// given the toss: it comes from a peer that was asked and is not
    /// blacklisted, and the round has not yet integrated one.
    pub open spec fn integrates(self, from: PeerRef, lucky: bool) -> bool {
        self.request_set.contains(from) && !self.is_blacklisted(from) && !self.done && lucky
    }

    /// The state after a reply to a check has cleared the peer `from`: it
    /// moves from the table of observations to the whitelist.
    pub open spec fn cleared(self, from: PeerRef) -> State {
        if self.ptable.dom().contains(from) {
            State {
                ptable: self.ptable.remove(from),
                wlist: self.wlist.insert(from, self.ptable[from].ts),
                ..self
            }.limit_wlist()
        } else {
            self
        }
    }

    /// No peer of the list is blacklisted.
    pub open spec fn all_clear(self, list: Seq<(PeerRef, i64)>) -> bool {
        forall|i: int| 0 <= i < list.len() ==> !self.is_blacklisted((#[trigger] list[i]).0)
    }

    /// The state and the network after a correct node has received a
    /// reply. A toss that comes up with one chance in `num_exchanges`
    /// decides whether the reply may be integrated; a reply that is not
    /// goes down the statistics path. A reply from the peer under check
    /// that names no blacklisted peer clears that peer.
    pub open spec fn on_reply(self, net: NetModel<Note>, from: PeerRef, list: Seq<(PeerRef, i64)>) -> (
        State,
        NetModel<Note>,
    ) {
        let counted = self.counted(list);
        let tossed = self.params.num_exchanges > 0;
        let lucky = !tossed || net.dice.rolled(self.params.num_exchanges as u64) == 0;
        let after = if tossed {
            net.with_dice(net.dice.advanced())
        } else {
            net
        };
        let taken = if self.integrates(from, lucky) {
            State { done: true, ..counted }.merge_view(list)
        } else {
            counted.update_statistics(list)
        };
        (
            if from == self.check && taken.all_clear(list) {
                taken.cleared(from)
            } else {
                taken
            },
            after,
        )
    }

    /// The network after a Byzantine node has sent each of `targets` a
    /// request that advertises `view_size` Byzantine peers, drawn anew for
    /// each of them.
    pub open spec fn flooded(self, net: NetModel<Note>, targets: Seq<PeerRef>) -> NetModel<Note>
        decreases targets.len(),
    {
        if targets.len() == 0 {
            net
        } else {
            let before = self.flooded(net, targets.drop_last());
            let bait = sample_spec(
                self.byzantines(),
                self.params.view_size as nat,
                before.dice,
            );
            before.with_dice(bait.1).sent(targets.last(), Note::Request(stamped(bait.0, net.now)))
        }
    }

    /// The network after a Byzantine node's tick: from the start of the
    /// attack on, it floods `byzantine_flood_factor` peers drawn at random;
    /// then it sends its next tick.
    pub open spec fn byzantine_tick(self, net: NetModel<Note>) -> NetModel<Note> {
        if net.now >= self.params.attack_start_time {
            self.flooded(
                net.after_sample(self.params.byzantine_flood_factor as nat),
                net.sampled(self.params.byzantine_flood_factor as nat),
            ).sent(self.my_id, Note::SelfNotif)
        } else {
            net.sent(self.my_id, Note::SelfNotif)
        }
    }

    /// The network after a Byzantine node has received a request: it
    /// replies with Byzantine peers once the attack has started, and with
    /// correct peers before.
    pub open spec fn byzantine_reply(self, net: NetModel<Note>, from: PeerRef) -> NetModel<Note> {
        if net.now >= self.params.attack_start_time {
            let bait = sample_spec(
                self.byzantines(),
                self.params.view_size as nat,
                net.dice,
            );
            net.with_dice(bait.1).sent(from, Note::Reply(stamped(bait.0, net.now)))
        } else {
            let cover = sample_spec(
                peers_from(self.params.n_byzantine as nat, self.n_nodes as nat),
                self.params.view_size as nat,
                net.dice,
            );
            net.with_dice(cover.1).sent(from, Note::Reply(stamped(cover.0, net.now)))
        }
    }

    /// The state and the network after a message was handled.
    pub open spec fn handle(self, net: NetModel<Note>, from: PeerRef, msg: Note) -> (
        State,
        NetModel<Note>,
    ) {
        if self.is_byzantine {
            match msg {
                Note::SelfNotif => (self, self.byzantine_tick(net)),
                Note::Request(_) => (self, self.byzantine_reply(net, from)),
                Note::Reply(_) => (self, net),
            }
        } else {
            match msg {
                Note::SelfNotif => self.tick(net),
                Note::Request(list) => self.on_request(net, from, list),
                Note::Reply(list) => self.on_reply(net, from, list),
            }
        }
    }
}

/// Whether the sum of an identity and a time is a multiple of `interval`.
fn is_on_phase(id: PeerRef, now: u64, interval: u64) -> (r: bool)
    ensures
        r == on_phase(id, now, interval as nat),
{
    if interval == 0 {
        false
    } else {
        (id as u128 + now as u128) % (interval as u128) == 0
    }
}

/// Stamps each peer of a list with the time `now`.
fn stamp(peers: &Vec<PeerRef>, now: u64) -> (r: Vec<(PeerRef, i64)>)
    ensures
        r@ == stamped(peers@, now),
{
    let mut out: Vec<(PeerRef, i64)> = Vec::with_capacity(peers.len());
    let mut i: usize = 0;
    while i < peers.len()
        invariant
            i <= peers@.len(),
            out@ == stamped(peers@.take(i as int), now),
        decreases peers@.len() - i,
    {
        out.push((peers[i], to_stamp(now)));
        assert(out@ =~= stamped(peers@.take(i + 1), now));
        i = i + 1;
    }
    assert(peers@.take(i as int) == peers@);
    out
}

/// The table of observations and the whitelist after a round of ageing,
/// the whitelist not yet cut to size.
fn age(ptable: &PeerMap<PEntry>, wlist: PeerMap<i64>) -> (r: (PeerMap<PEntry>, PeerMap<i64>))
    requires
        ptable.wf(),
        wlist.wf(),
    ensures
        r.0.wf(),
        r.1.wf(),
        r.0@ == aged(ptable@),
        r.1@ == graduated(ptable@, wlist@),
{
    let mut wlist = wlist;
    let ghost start = wlist@;
    let mut kept: PeerMap<PEntry> = PeerMap::new();
    let n = ptable.len();
    let mut i: usize = 0;
    proof {
        lemma_listing_whole(ptable@);
        assert(kept@ =~= aged(as_map(listing(ptable@).take(0))));
        assert(wlist@ =~= graduated(as_map(listing(ptable@).take(0)), start));
    }
    while i < n
        invariant
            i <= n,
            n == listing(ptable@).len(),
            ptable.wf(),
            ptable@.dom().finite(),
            wlist.wf(),
            kept.wf(),
            kept@ == aged(as_map(listing(ptable@).take(i as int))),
            wlist@ == graduated(as_map(listing(ptable@).take(i as int)), start),
        decreases n - i,
    {
        let e = ptable.entry(i);
        proof {
            lemma_listing_take(ptable@, i as int);
        }
        let ghost before = as_map(listing(ptable@).take(i as int));
        if e.1.ttl <= 1 {
            wlist.insert(e.0, e.1.ts);
        } else {
            kept.insert(e.0, PEntry { ts: e.1.ts, ttl: e.1.ttl - 1, hits: e.1.hits });
        }
        assert(kept@ =~= aged(before.insert(e.0, e.1)));
        assert(wlist@ =~= graduated(before.insert(e.0, e.1), start));
        i = i + 1;
    }
    (kept, wlist)
}

/// The network is in order for this protocol: every queued message is due
/// at the next step, goes to a node that exists and names only such nodes,
/// and the node that the network serves exists.
pub open spec fn net_ok(net: NetModel<Note>) -> bool {
    &&& net.wf()
    &&& net.me < net.n_nodes
    &&& net.each_letter(|p: Note| note_ok(p, net.n_nodes as nat))
}

/// Drawing from the stream leaves the network in order.
proof fn lemma_redice(net: NetModel<Note>, dice: Dice)
    requires
        net_ok(net),
        net.dice.same_stream(dice),
    ensures
        net_ok(net.with_dice(dice)),
        net.with_dice(dice).follows(net),
{
}

/// Sends a message that names only nodes that exist.
fn post(net: &mut Network<Msg>, dst: PeerRef, msg: Msg)
    requires
        net_ok(old(net)@),
        dst < old(net)@.n_nodes,
        note_ok(msg@, old(net)@.n_nodes as nat),
    ensures
        final(net)@ == old(net)@.sent(dst, msg@),
        net_ok(final(net)@),
        final(net)@.follows(old(net)@),
{
    net.send(dst, msg);
}

/// Whether `p` is in the list.
fn contains_peer(peers: &Vec<PeerRef>, p: PeerRef) -> (r: bool)
    ensures
        r == peers@.contains(p),
{
    let mut i: usize = 0;
    while i < peers.len()
        invariant
            i <= peers@.len(),
            forall|j: int| 0 <= j < i ==> peers@[j] != p,
        decreases peers@.len() - i,
    {
        if peers[i] == p {
            return true;
        }
        i = i + 1;
    }
    false
}

/// The peers of a stamped list are those of the list it was made from.
proof fn lemma_stamped(peers: Seq<PeerRef>, now: u64, n: nat)
    requires
        forall|x: PeerRef| peers.contains(x) ==> x < n,
    ensures
        list_within(stamped(peers, now), n),
{
    assert forall|i: int| 0 <= i < stamped(peers, now).len() implies (#[trigger] stamped(
        peers,
        now,
    )[i]).0 < n by {
        assert(peers.contains(peers[i]));
    }
}

impl SPS {
    /// The maps are in order, and the state is that of a node.
    pub open spec fn wf(&self) -> bool {
        &&& self.view.wf()
        &&& self.ptable.wf()
        &&& self.wlist.wf()
        &&& self@.inv()
    }

    /// Whether `peer` is blacklisted.
    pub fn blacklisted(&self, peer: PeerRef) -> (r: bool)
        requires
            self.ptable.wf(),
            self.stats.wf(),
        ensures
            r == self@.is_blacklisted(peer),
    {
        match self.ptable.get(peer) {
            Some(seen) => self.stats.is_exceeded_by(seen.hits),
            None => false,
        }
    }

    /// The blacklisted peers, in ascending order.
    pub fn compute_blacklist(&self) -> (r: Vec<PeerRef>)
        requires
            self.ptable.wf(),
            self.stats.wf(),
        ensures
            r@ == blacklist(self@.ptable, self@.stats),
            forall|p: PeerRef| r@.contains(p) <==> self@.is_blacklisted(p),
    {
        compute_blacklist(&self.ptable, &self.stats)
    }

    /// The Byzantine nodes of the population.
    fn byzantine_peers(&self) -> (r: Vec<PeerRef>)
        ensures
            r@ == self@.byzantines(),
            forall|i: int| 0 <= i < r@.len() ==> r@[i] == i,
            r@.len() <= self.n_nodes,
    {
        if self.params.n_byzantine <= self.n_nodes {
            peers_upto(self.params.n_byzantine)
        } else {
            peers_upto(self.n_nodes)
        }
    }

    /// The view as the node advertises it at the time `now`.
    fn advert(&self, now: u64) -> (r: Vec<(PeerRef, i64)>)
        requires
            self.wf(),
        ensures
            r@ == self@.advert(now),
            list_within(r@, self.n_nodes as nat),
    {
        let mut list = self.view.to_vec();
        proof {
            lemma_listing(self.view@);
        }
        list.push((self.my_id, to_stamp(now)));
        list
    }

    /// Merges a list of peers into the view and cuts the view to size.
    pub fn merge_view(&mut self, list: &Vec<(PeerRef, i64)>)
        requires
            old(self).wf(),
            list_within(list@, old(self).n_nodes as nat),
        ensures
            final(self).wf(),
            final(self)@ == old(self)@.merge_view(list@),
            forall|q: PeerRef|
                final(self)@.view.dom().contains(q) ==> old(self)@.view.dom().contains(q)
                    || list_names(list@, q),
    {
        let mut view: PeerMap<i64> = PeerMap::new();
        std::mem::swap(&mut self.view, &mut view);
        self.view = merge_into(view, list, self.params.view_size, self.n_nodes);
        self.witnessed = Ghost(self.witnessed@.union(self.view@.dom()));
    }

    /// Cuts the whitelist to size.
    pub fn limit_wlist(&mut self)
        requires
            old(self).view.wf(),
            old(self).ptable.wf(),
            old(self).wlist.wf(),
            within(old(self).wlist@, old(self).n_nodes),
        ensures
            final(self).wlist.wf(),
            final(self)@ == old(self)@.limit_wlist(),
            within(final(self).wlist@, old(self).n_nodes),
            final(self).wlist@.dom().len() <= old(self).params.wlist_max,
            final(self).view == old(self).view,
            final(self).ptable == old(self).ptable,
    {
        let mut wlist: PeerMap<i64> = PeerMap::new();
        std::mem::swap(&mut self.wlist, &mut wlist);
        let ghost full = wlist@;
        self.wlist = keep_most_recent(wlist, self.params.wlist_max);
        assert forall|p: PeerRef| self.wlist@.dom().contains(p) implies p < self.n_nodes by {
            assert(full.dom().contains(p));
        }
    }

    /// Takes a list of peers down the statistics path.
    pub fn update_statistics(&mut self, list: &Vec<(PeerRef, i64)>)
        requires
            old(self).wf(),
            list_within(list@, old(self).n_nodes as nat),
        ensures
            final(self).wf(),
            final(self)@ == old(self)@.update_statistics(list@),
            forall|q: PeerRef|
                final(self)@.view.dom().contains(q) && final(self)@.is_blacklisted(q) ==> old(
                    self,
                )@.view.dom().contains(q) && !has_spare(final(self)@.wlist, final(self)@.view),
            final(self)@.view.dom().len() == old(self)@.view.dom().len(),
            forall|q: PeerRef| #[trigger]
                final(self)@.view.dom().contains(q) ==> (old(self)@.view.dom().contains(q)
                    && final(self)@.view[q] == old(self)@.view[q]) || (
                final(self)@.wlist.dom().contains(q) && final(self)@.view[q]
                    == final(self)@.wlist[q]),
            final(self)@.wlist.submap_of(old(self)@.wlist),
    {
        let mut ptable: PeerMap<PEntry> = PeerMap::new();
        std::mem::swap(&mut self.ptable, &mut ptable);
        self.ptable = note_all(ptable, list, self.params.ttl0, self.n_nodes);
        proof {
            lemma_within_len(self.ptable@.dom(), self.n_nodes);
        }
        self.stats = compute_stats(&self.ptable);
        let ghost wide = self.wlist@;
        self.wlist = cleanse(&self.wlist, &self.ptable, &self.stats);
        proof {
            assert(self.wlist@.dom().subset_of(wide.dom()));
            vstd::set_lib::lemma_len_subset(self.wlist@.dom(), wide.dom());
        }
        let mut view: PeerMap<i64> = PeerMap::new();
        std::mem::swap(&mut self.view, &mut view);
        self.view = substitute(view, &self.wlist, &self.ptable, &self.stats, self.n_nodes);
        self.witnessed = Ghost(self.witnessed@.union(self.view@.dom()));
    }

    /// Takes a received list into the traffic counters.
    fn count(&mut self, list: &Vec<(PeerRef, i64)>)
        ensures
            final(self)@ == old(self)@.counted(list@),
            final(self).view == old(self).view,
            final(self).ptable == old(self).ptable,
            final(self).wlist == old(self).wlist,
    {
        let mut byzantine: usize = 0;
        let mut i: usize = 0;
        while i < list.len()
            invariant
                i <= list@.len(),
                byzantine <= i,
                byzantine == byzantine_count(list@.take(i as int), self.params.n_byzantine),
                *self == *old(self),
            decreases list@.len() - i,
        {
            assert(list@.take(i + 1).drop_last() =~= list@.take(i as int));
            if list[i].0 < self.params.n_byzantine {
                byzantine = byzantine + 1;
            }
            i = i + 1;
        }
        assert(list@.take(i as int) == list@);
        self.n_received = add_capped(self.n_received, list.len());
        self.n_byzantine_received = add_capped(self.n_byzantine_received, byzantine);
    }

    /// Whether no peer of the list is blacklisted.
    fn all_clear(&self, list: &Vec<(PeerRef, i64)>) -> (r: bool)
        requires
            self.ptable.wf(),
            self.stats.wf(),
        ensures
            r == self@.all_clear(list@),
    {
        let mut i: usize = 0;
        while i < list.len()
            invariant
                i <= list@.len(),
                self.ptable.wf(),
                self.stats.wf(),
                forall|j: int| 0 <= j < i ==> !self@.is_blacklisted((#[trigger] list@[j]).0),
            decreases list@.len() - i,
        {
            if self.blacklisted(list[i].0) {
                return false;
            }
            i = i + 1;
        }
        true
    }

    /// Moves a peer that has passed its check from the table of
    /// observations to the whitelist.
    fn clear(&mut self, from: PeerRef)
        requires
            old(self).wf(),
            from < old(self).n_nodes,
        ensures
            final(self).wf(),
            final(self)@ == old(self)@.cleared(from),
            final(self)@.view == old(self)@.view,
    {
        match self.ptable.remove(from) {
            Some(seen) => {
                self.wlist.insert(from, seen.ts);
                self.limit_wlist();
            },
            None => {
                assert(self.ptable@ =~= old(self).ptable@);
            },
        }
    }
}

impl SPS {
    /// Runs a round of exchange. `keys` holds the peers of the view.
    fn exchange(&mut self, net: &mut Network<Msg>, keys: &Vec<PeerRef>)
        requires
            old(self).wf(),
            net_ok(old(net)@),
            old(net)@.n_nodes == old(self).n_nodes,
            keys@ == key_listing(old(self).view@),
        ensures
            final(self).wf(),
            (final(self)@, final(net)@) == old(self)@.exchange(old(net)@),
            net_ok(final(net)@),
            final(net)@.follows(old(net)@),
            final(self)@.view == old(self)@.view,
            final(self)@.out_samples == old(self)@.out_samples,
    {
        proof {
            lemma_key_listing(self.view@);
            lemma_blacklist(self.ptable@, self.stats);
            self.ptable.lemma_wf();
            self.wlist.lemma_wf();
        }
        let now = net.time();
        let blacklist = self.compute_blacklist();
        let advert = self.advert(now);
        let picked = sample(keys.as_slice(), self.params.num_exchanges, &mut net.dice);
        let ghost start = net@;
        proof {
            assert(start == old(net)@.with_dice(net.dice));
            lemma_redice(old(net)@, net.dice);
            assert forall|j: int| 0 <= j < picked@.len() implies picked@[j] < self.n_nodes by {
                assert(picked@.contains(picked@[j]));
            }
        }
        let mut i: usize = 0;
        while i < picked.len()
            invariant
                i <= picked@.len(),
                *self == *old(self),
                self.wf(),
                net_ok(net@),
                net@.n_nodes == self.n_nodes,
                list_within(advert@, self.n_nodes as nat),
                forall|j: int| 0 <= j < picked@.len() ==> picked@[j] < self.n_nodes,
                net@ == self@.requested(start, picked@.take(i as int), advert@),
                net@.follows(start),
            decreases picked@.len() - i,
        {
            let p = picked[i];
            assert(picked@.take(i + 1).drop_last() =~= picked@.take(i as int));
            if !self.blacklisted(p) {
                post(net, p, Msg::Request(copy_list(&advert)));
            }
            i = i + 1;
        }
        assert(picked@.take(i as int) == picked@);
        if blacklist.len() > 0 {
            let ghost asked = net@;
            let drawn = sample(blacklist.as_slice(), 1, &mut net.dice);
            let check = drawn[0];
            proof {
                assert(net@ == asked.with_dice(net.dice));
                lemma_redice(asked, net.dice);
                assert(drawn@.contains(drawn@[0]));
                assert(blacklist@.contains(check));
            }
            self.check = check;
            post(net, check, Msg::Request(advert));
        }
        let mut wlist: PeerMap<i64> = PeerMap::new();
        std::mem::swap(&mut self.wlist, &mut wlist);
        let (kept, grown) = age(&self.ptable, wlist);
        proof {
            kept.lemma_wf();
            grown.lemma_wf();
        }
        self.ptable = kept;
        self.wlist = grown;
        self.limit_wlist();
        self.done = false;
        self.request_set = picked;
    }

    /// Handles the tick of a correct node.
    fn tick(&mut self, net: &mut Network<Msg>)
        requires
            old(self).wf(),
            net_ok(old(net)@),
            old(net)@.n_nodes == old(self).n_nodes,
        ensures
            final(self).wf(),
            (final(self)@, final(net)@) == old(self)@.tick(old(net)@),
            net_ok(final(net)@),
            final(net)@.follows(old(net)@),
            final(self)@.view == old(self)@.view,
    {
        let keys = self.view.keys();
        let now = net.time();
        let due = match self.params.sampling_frequency {
            Some(rf) => is_on_phase(self.my_id, now, rf) && self.out_samples.len() < SAMPLE_BUFFER,
            None => false,
        };
        if is_on_phase(self.my_id, now, self.params.exchange_interval as u64) {
            self.exchange(net, &keys);
        }
        if due {
            let ghost before = net@;
            let mut got = sample(keys.as_slice(), self.params.sampling_count, &mut net.dice);
            proof {
                assert(net@ == before.with_dice(net.dice));
                lemma_redice(before, net.dice);
                assert forall|j: int| 0 <= j < got@.len() implies self.view@.dom().contains(
                    got@[j],
                ) by {
                    assert(got@.contains(got@[j]));
                }
            }
            let ghost drawn = got@;
            let ghost waiting = self@;
            got.truncate(SAMPLE_BUFFER - self.out_samples.len());
            assert(got@ =~= if waiting.out_samples.len() + drawn.len() <= SAMPLE_BUFFER {
                drawn
            } else {
                drawn.take(SAMPLE_BUFFER - waiting.out_samples.len())
            });
            self.out_samples.append(&mut got);
            assert(self.out_samples@ =~= waiting.buffered(drawn));
        }
        post(net, self.my_id, Msg::SelfNotif);
    }

    /// Handles a request that a correct node has received.
    fn on_request(&mut self, net: &mut Network<Msg>, from: PeerRef, list: &Vec<(PeerRef, i64)>)
        requires
            old(self).wf(),
            net_ok(old(net)@),
            old(net)@.n_nodes == old(self).n_nodes,
            from < old(self).n_nodes,
            list_within(list@, old(self).n_nodes as nat),
        ensures
            final(self).wf(),
            (final(self)@, final(net)@) == old(self)@.on_request(old(net)@, from, list@),
            net_ok(final(net)@),
            final(net)@.follows(old(net)@),
            forall|q: PeerRef|
                final(self)@.view.dom().contains(q) ==> old(self)@.view.dom().contains(q)
                    || list_names(list@, q),
    {
        let reply = self.advert(net.time());
        let black = self.blacklisted(from);
        self.count(list);
        post(net, from, Msg::Reply(reply));
        if !black {
            self.merge_view(list);
        }
    }

    /// Handles a reply that a correct node has received.
    fn on_reply(&mut self, net: &mut Network<Msg>, from: PeerRef, list: &Vec<(PeerRef, i64)>)
        requires
            old(self).wf(),
            net_ok(old(net)@),
            old(net)@.n_nodes == old(self).n_nodes,
            from < old(self).n_nodes,
            list_within(list@, old(self).n_nodes as nat),
        ensures
            final(self).wf(),
            (final(self)@, final(net)@) == old(self)@.on_reply(old(net)@, from, list@),
            net_ok(final(net)@),
            final(net)@.follows(old(net)@),
            forall|q: PeerRef|
                final(self)@.view.dom().contains(q) && final(self)@.is_blacklisted(q) ==> old(
                    self,
                )@.view.dom().contains(q) || list_names(list@, q),
    {
        let asked = contains_peer(&self.request_set, from);
        let black = self.blacklisted(from);
        let checked = from == self.check;
        let fresh = !self.done;
        self.count(list);
        let lucky = if self.params.num_exchanges > 0 {
            let toss = net.dice.roll(self.params.num_exchanges as u64);
            proof {
                assert(net@ == old(net)@.with_dice(net.dice));
                lemma_redice(old(net)@, net.dice);
            }
            toss == 0
        } else {
            true
        };
        if asked && !black && fresh && lucky {
            self.done = true;
            self.merge_view(list);
        } else {
            self.update_statistics(list);
        }
        let ghost taken = self@;
        if checked && self.all_clear(list) {
            self.clear(from);
        }
        proof {
            assert forall|q: PeerRef|
                self@.view.dom().contains(q) && self@.is_blacklisted(q) implies old(
                self,
            )@.view.dom().contains(q) || list_names(list@, q) by {
                assert(taken.view.dom().contains(q));
                assert(taken.is_blacklisted(q));
            }
        }
    }

    /// Handles the tick of a Byzantine node.
    fn byzantine_tick(&self, net: &mut Network<Msg>)
        requires
            self.wf(),
            net_ok(old(net)@),
            old(net)@.n_nodes == self.n_nodes,
        ensures
            final(net)@ == self@.byzantine_tick(old(net)@),
            net_ok(final(net)@),
            final(net)@.follows(old(net)@),
    {
        let now = net.time();
        if now >= self.params.attack_start_time {
            let targets = net.sample_peers(self.params.byzantine_flood_factor);
            let byzantines = self.byzantine_peers();
            let ghost start = net@;
            let mut i: usize = 0;
            while i < targets.len()
                invariant
                    i <= targets@.len(),
                    self.wf(),
                    net_ok(net@),
                    net@.n_nodes == self.n_nodes,
                    now == start.now,
                    byzantines@ == self@.byzantines(),
                    forall|j: int| 0 <= j < byzantines@.len() ==> byzantines@[j] == j,
                    forall|j: int| 0 <= j < targets@.len() ==> targets@[j] < self.n_nodes,
                    net@ == self@.flooded(start, targets@.take(i as int)),
                    net@.follows(start),
                decreases targets@.len() - i,
            {
                assert(targets@.take(i + 1).drop_last() =~= targets@.take(i as int));
                let ghost before = net@;
                let bait = sample(byzantines.as_slice(), self.params.view_size, &mut net.dice);
                proof {
                    assert(net@ == before.with_dice(net.dice));
                    lemma_redice(before, net.dice);
                    assert forall|x: PeerRef| bait@.contains(x) implies x < self.n_nodes by {
                        assert(byzantines@.contains(x));
                        let c = choose|c: int| 0 <= c < byzantines@.len() && byzantines@[c] == x;
                        assert(byzantines@[c] == c);
                    }
                    lemma_stamped(bait@, now, self.n_nodes as nat);
                }
                post(net, targets[i], Msg::Request(stamp(&bait, now)));
                i = i + 1;
            }
            assert(targets@.take(i as int) == targets@);
        }
        post(net, self.my_id, Msg::SelfNotif);
    }

    /// Handles a request that a Byzantine node has received.
    fn byzantine_reply(&self, net: &mut Network<Msg>, from: PeerRef)
        requires
            self.wf(),
            net_ok(old(net)@),
            old(net)@.n_nodes == self.n_nodes,
            from < self.n_nodes,
        ensures
            final(net)@ == self@.byzantine_reply(old(net)@, from),
            net_ok(final(net)@),
            final(net)@.follows(old(net)@),
    {
        let now = net.time();
        if now >= self.params.attack_start_time {
            let byzantines = self.byzantine_peers();
            let bait = sample(byzantines.as_slice(), self.params.view_size, &mut net.dice);
            proof {
                assert(net@ == old(net)@.with_dice(net.dice));
                lemma_redice(old(net)@, net.dice);
                assert forall|x: PeerRef| bait@.contains(x) implies x < self.n_nodes by {
                    assert(byzantines@.contains(x));
                    let c = choose|c: int| 0 <= c < byzantines@.len() && byzantines@[c] == x;
                    assert(byzantines@[c] == c);
                }
                lemma_stamped(bait@, now, self.n_nodes as nat);
            }
            post(net, from, Msg::Reply(stamp(&bait, now)));
        } else {
            let correct = peers_between(self.params.n_byzantine, self.n_nodes);
            let cover = sample(correct.as_slice(), self.params.view_size, &mut net.dice);
            proof {
                assert(net@ == old(net)@.with_dice(net.dice));
                lemma_redice(old(net)@, net.dice);
                assert forall|x: PeerRef| cover@.contains(x) implies x < self.n_nodes by {
                    assert(correct@.contains(x));
                    let c = choose|c: int| 0 <= c < correct@.len() && correct@[c] == x;
                    assert(correct@[c] < self.n_nodes);
                }
                lemma_stamped(cover@, now, self.n_nodes as nat);
            }
            post(net, from, Msg::Reply(stamp(&cover, now)));
        }
    }
}

/// The measurements of a set of nodes: how many correct nodes it counts,
/// what they received since the last report, and how many Byzantine peers
/// they have in their views. Byzantine nodes report nothing.
#[derive(Clone, Copy, Debug)]
pub struct Metrics {
    pub n_procs: usize,
    pub n_byzantine_received: usize,
    pub n_received: usize,
    pub n_byzantine_neighbors: usize,
    pub min_byzantine_neighbors: Option<usize>,
    pub max_byzantine_neighbors: Option<usize>,
    pub n_isolated: usize,
}

impl View for Metrics {
    type V = Metrics;

    open spec fn view(&self) -> Metrics {
        *self
    }
}

/// The smaller of two bounds, each of which may be missing.
pub open spec fn least(a: Option<usize>, b: Option<usize>) -> Option<usize> {
    match (a, b) {
        (None, x) => x,
        (x, None) => x,
        (Some(x), Some(y)) => Some(
            if x <= y {
                x
            } else {
                y
            },
        ),
    }
}

/// The larger of two bounds, each of which may be missing.
pub open spec fn greatest(a: Option<usize>, b: Option<usize>) -> Option<usize> {
    match (a, b) {
        (None, x) => x,
        (x, None) => x,
        (Some(x), Some(y)) => Some(
            if x >= y {
                x
            } else {
                y
            },
        ),
    }
}

/// The larger of two numbers.
fn larger(a: &usize, b: &usize) -> (r: usize)
    ensures
        r == if *a >= *b {
            *a
        } else {
            *b
        },
{
    if *a >= *b {
        *a
    } else {
        *b
    }
}

/// The smaller of two numbers.
fn smaller(a: &usize, b: &usize) -> (r: usize)
    ensures
        r == if *a <= *b {
            *a
        } else {
            *b
        },
{
    if *a <= *b {
        *a
    } else {
        *b
    }
}

impl crate::net::Metrics for Metrics {
    open spec fn empty_spec() -> Metrics {
        Metrics {
            n_procs: 0,
            n_byzantine_received: 0,
            n_received: 0,
            n_byzantine_neighbors: 0,
            min_byzantine_neighbors: None,
            max_byzantine_neighbors: None,
            n_isolated: 0,
        }
    }

    open spec fn combine_spec(a: Metrics, b: Metrics) -> Metrics {
        Metrics {
            n_procs: sat_add(a.n_procs, b.n_procs),
            n_byzantine_received: sat_add(a.n_byzantine_received, b.n_byzantine_received),
            n_received: sat_add(a.n_received, b.n_received),
            n_byzantine_neighbors: sat_add(a.n_byzantine_neighbors, b.n_byzantine_neighbors),
            min_byzantine_neighbors: least(a.min_byzantine_neighbors, b.min_byzantine_neighbors),
            max_byzantine_neighbors: greatest(a.max_byzantine_neighbors, b.max_byzantine_neighbors),
            n_isolated: sat_add(a.n_isolated, b.n_isolated),
        }
    }

    open spec fn headers_spec() -> Seq<Seq<char>> {
        seq![
            "avgRecv"@,
            "avgByzRecv"@,
            "pByzRecv"@,
            "avgByzN"@,
            "min"@,
            "max"@,
            "n_isolated"@,
        ]
    }

    open spec fn values_spec(a: Metrics) -> Seq<Seq<char>> {
        seq![
            fixed_point(a.n_received as nat, a.n_procs as nat, 2),
            fixed_point(a.n_byzantine_received as nat, a.n_procs as nat, 2),
            fixed_point(a.n_byzantine_received as nat, a.n_received as nat, 4),
            fixed_point(a.n_byzantine_neighbors as nat, a.n_procs as nat, 2),
            decimal_or_sentinel(a.min_byzantine_neighbors),
            decimal_or_sentinel(a.max_byzantine_neighbors),
            decimal(a.n_isolated as nat),
        ]
    }

    fn empty() -> (r: Self) {
        Metrics {
            n_procs: 0,
            n_byzantine_received: 0,
            n_received: 0,
            n_byzantine_neighbors: 0,
            min_byzantine_neighbors: None,
            max_byzantine_neighbors: None,
            n_isolated: 0,
        }
    }

    fn net_combine(&mut self, other: &Self) {
        self.n_procs = add_capped(self.n_procs, other.n_procs);
        self.n_byzantine_received = add_capped(
            self.n_byzantine_received,
            other.n_byzantine_received,
        );
        self.n_received = add_capped(self.n_received, other.n_received);
        self.n_byzantine_neighbors = add_capped(
            self.n_byzantine_neighbors,
            other.n_byzantine_neighbors,
        );
        self.max_byzantine_neighbors = either_or_if_both(
            &self.max_byzantine_neighbors,
            &other.max_byzantine_neighbors,
            larger,
        );
        self.min_byzantine_neighbors = either_or_if_both(
            &self.min_byzantine_neighbors,
            &other.min_byzantine_neighbors,
            smaller,
        );
        self.n_isolated = add_capped(self.n_isolated, other.n_isolated);
    }

    fn headers() -> (r: Vec<&'static str>) {
        vec!["avgRecv", "avgByzRecv", "pByzRecv", "avgByzN", "min", "max", "n_isolated"]
    }

    fn values(&self) -> (r: Vec<String>) {
        vec![
            to_fixed_point(self.n_received, self.n_procs, 2),
            to_fixed_point(self.n_byzantine_received, self.n_procs, 2),
            to_fixed_point(self.n_byzantine_received, self.n_received, 4),
            to_fixed_point(self.n_byzantine_neighbors, self.n_procs, 2),
            to_decimal_or_sentinel(self.min_byzantine_neighbors),
            to_decimal_or_sentinel(self.max_byzantine_neighbors),
            to_decimal(self.n_isolated as u128),
        ]
    }

    proof fn lemma_columns(a: Metrics) {
    }

    proof fn lemma_combine_empty(a: Metrics) {
    }

    proof fn lemma_combine_commutes(a: Metrics, b: Metrics) {
    }

    proof fn lemma_combine_associates(a: Metrics, b: Metrics, c: Metrics) {
        lemma_sat_add(a.n_procs, b.n_procs, c.n_procs);
        lemma_sat_add(a.n_byzantine_received, b.n_byzantine_received, c.n_byzantine_received);
        lemma_sat_add(a.n_received, b.n_received, c.n_received);
        lemma_sat_add(a.n_byzantine_neighbors, b.n_byzantine_neighbors, c.n_byzantine_neighbors);
        lemma_sat_add(a.n_isolated, b.n_isolated, c.n_isolated);
    }
}

impl State {
    /// The state of a node before it is initialised.
    pub open spec fn blank() -> State {
        State {
            params: Init {
                n_byzantine: 0,
                byzantine_flood_factor: 0,
                attack_start_time: 0,
                sampling_frequency: None,
                sampling_count: 0,
                view_size: 0,
                num_exchanges: 0,
                exchange_interval: 0,
                ttl0: 0,
                wlist_max: 0,
            },
            n_nodes: 0,
            my_id: 0,
            is_byzantine: false,
            view: Map::empty(),
            ptable: Map::empty(),
            wlist: Map::empty(),
            done: false,
            check: 0,
            request_set: Seq::empty(),
            stats: HitStats { count: 0, sum: 0, squares: 0 },
            out_samples: Seq::empty(),
            n_received: 0,
            n_byzantine_received: 0,
            witnessed: Set::empty(),
        }
    }

    /// The state and the network after the node `id` was initialised: a
    /// correct node fills its view with `view_size` peers drawn from the
    /// whole population, seen at time 0; every node sends its first tick.
    pub open spec fn init(self, net: NetModel<Note>, id: PeerRef, init: Init) -> (
        State,
        NetModel<Note>,
    ) {
        let placed = State {
            params: init,
            n_nodes: net.n_nodes,
            my_id: id,
            is_byzantine: id < init.n_byzantine,
            ..self
        };
        if id < init.n_byzantine {
            (placed, net.sent(id, Note::SelfNotif))
        } else {
            (
                placed.merge_view(stamped(net.sampled(init.view_size as nat), 0)),
                net.after_sample(init.view_size as nat).sent(id, Note::SelfNotif),
            )
        }
    }

    /// The state after a report, and the record reported: a correct node
    /// counts itself, its traffic and the Byzantine peers of its view, and
    /// starts counting its traffic anew.
    pub open spec fn metrics(self) -> (State, Metrics) {
        if self.is_byzantine {
            (self, <Metrics as crate::net::Metrics>::empty_spec())
        } else {
            let neighbors = byzantine_count(listing(self.view), self.params.n_byzantine) as usize;
            (
                State { n_received: 0, n_byzantine_received: 0, ..self },
                Metrics {
                    n_procs: 1,
                    n_byzantine_received: self.n_byzantine_received,
                    n_received: self.n_received,
                    n_byzantine_neighbors: neighbors,
                    min_byzantine_neighbors: Some(neighbors),
                    max_byzantine_neighbors: Some(neighbors),
                    n_isolated: if neighbors == self.view.dom().len() {
                        1
                    } else {
                        0
                    },
                },
            )
        }
    }
}

impl App for SPS {
    type Init = Init;

    type Msg = Msg;

    type Metrics = Metrics;

    open spec fn init_ok(init: &Init, n: nat) -> bool {
        init.ok(n)
    }

    open spec fn blank(&self) -> bool {
        &&& self.view.wf()
        &&& self.ptable.wf()
        &&& self.wlist.wf()
        &&& self@ == State::blank()
    }

    open spec fn inv(&self) -> bool {
        self.wf()
    }

    open spec fn nodes(&self) -> nat {
        self.n_nodes as nat
    }

    open spec fn msg_ok(msg: Note, n: nat) -> bool {
        note_ok(msg, n)
    }

    open spec fn new_spec() -> State {
        State::blank()
    }

    open spec fn init_spec(s: State, net: NetModel<Note>, id: PeerRef, init: Init) -> (
        State,
        NetModel<Note>,
    ) {
        s.init(net, id, init)
    }

    open spec fn handle_spec(s: State, net: NetModel<Note>, from: PeerRef, msg: Note) -> (
        State,
        NetModel<Note>,
    ) {
        s.handle(net, from, msg)
    }

    open spec fn metrics_spec(s: State, net: NetModel<Note>) -> (State, Metrics) {
        s.metrics()
    }

    open spec fn observe_spec(s: State, total: Metrics) -> State {
        s
    }

    fn new() -> (r: Self) {
        Self {
            params: Init {
                n_byzantine: 0,
                byzantine_flood_factor: 0,
                attack_start_time: 0,
                sampling_frequency: None,
                sampling_count: 0,
                view_size: 0,
                num_exchanges: 0,
                exchange_interval: 0,
                ttl0: 0,
                wlist_max: 0,
            },
            n_nodes: 0,
            my_id: 0,
            is_byzantine: false,
            view: PeerMap::new(),
            ptable: PeerMap::new(),
            wlist: PeerMap::new(),
            done: false,
            check: 0,
            request_set: Vec::new(),
            stats: HitStats::new(),
            out_samples: Vec::new(),
            n_received: 0,
            n_byzantine_received: 0,
            witnessed: Ghost(Set::empty()),
        }
    }

    /// Besides what every protocol promises: the view and the whitelist
    /// of a node start within their bounds.
    fn init(&mut self, id: PeerRef, net: &mut Network<Msg>, init: &Init)
        ensures
            final(self)@.view.dom().len() <= final(self)@.params.view_size,
            final(self)@.wlist.dom().len() <= final(self)@.params.wlist_max,
    {
        self.my_id = id;
        self.params = *init;
        self.n_nodes = net.n_nodes;
        self.is_byzantine = id < init.n_byzantine;
        if !self.is_byzantine {
            let peers = net.sample_peers(self.params.view_size);
            proof {
                assert(net@ == old(net)@.with_dice(net.dice));
                lemma_redice(old(net)@, net.dice);
                assert forall|x: PeerRef| peers@.contains(x) implies x < self.n_nodes by {
                    let c = choose|c: int| 0 <= c < peers@.len() && peers@[c] == x;
                    assert(peers@[c] < self.n_nodes);
                }
                lemma_stamped(peers@, 0, self.n_nodes as nat);
            }
            let list = stamp(&peers, 0);
            self.merge_view(&list);
        }
        post(net, id, Msg::SelfNotif);
    }

    /// Besides what every protocol promises: the view, the whitelist and
    /// the buffer of samples of a node stay within their bounds whatever
    /// it handles, and a blacklisted peer is in the view afterwards only
    /// if it was in the view before or the message has named it.
    fn handle(&mut self, net: &mut Network<Msg>, from: PeerRef, msg: &Msg)
        ensures
            final(self)@.view.dom().len() <= final(self)@.params.view_size,
            final(self)@.wlist.dom().len() <= final(self)@.params.wlist_max,
            final(self)@.out_samples.len() <= SAMPLE_BUFFER,
            forall|q: PeerRef|
                final(self)@.view.dom().contains(q) && final(self)@.is_blacklisted(q) ==> old(
                    self,
                )@.view.dom().contains(q) || note_names(msg@, q),
    {
        if self.is_byzantine {
            match msg {
                Msg::SelfNotif => {
                    self.byzantine_tick(net);
                },
                Msg::Request(_) => {
                    self.byzantine_reply(net, from);
                },
                Msg::Reply(_) => {},
            }
        } else {
            match msg {
                Msg::SelfNotif => {
                    self.tick(net);
                },
                Msg::Request(list) => {
                    self.on_request(net, from, list);
                },
                Msg::Reply(list) => {
                    self.on_reply(net, from, list);
                },
            }
        }
    }

    fn metrics(&mut self, net: &Network<Msg>) -> (r: Metrics) {
        if self.is_byzantine {
            return <Metrics as crate::net::Metrics>::empty();
        }
        let n = self.view.len();
        let mut neighbors: usize = 0;
        let mut i: usize = 0;
        while i < n
            invariant
                i <= n,
                n == listing(self.view@).len(),
                *self == *old(self),
                self.view.wf(),
                neighbors <= i,
                neighbors == byzantine_count(
                    listing(self.view@).take(i as int),
                    self.params.n_byzantine,
                ),
            decreases n - i,
        {
            let e = self.view.entry(i);
            assert(listing(self.view@).take(i + 1).drop_last() =~= listing(self.view@).take(
                i as int,
            ));
            if e.0 < self.params.n_byzantine {
                neighbors = neighbors + 1;
            }
            i = i + 1;
        }
        assert(listing(self.view@).take(n as int) =~= listing(self.view@));
        let ret = Metrics {
            n_procs: 1,
            n_byzantine_received: self.n_byzantine_received,
            n_received: self.n_received,
            n_byzantine_neighbors: neighbors,
            min_byzantine_neighbors: Some(neighbors),
            max_byzantine_neighbors: Some(neighbors),
            n_isolated: if neighbors == n {
                1
            } else {
                0
            },
        };
        self.n_received = 0;
        self.n_byzantine_received = 0;
        ret
    }

    fn observe(&mut self, total: &Metrics) {
    }
}

impl RPS for SPS {
    open spec fn samples_spec(s: State, dice: Dice) -> (State, Dice, Seq<PeerRef>) {
        (State { out_samples: Seq::empty(), ..s }, dice, s.out_samples)
    }

    open spec fn cleared_spec(s: State) -> State {
        State { out_samples: Seq::empty(), witnessed: s.view.dom(), ..s }
    }

    open spec fn witnessed(s: State) -> Set<PeerRef> {
        s.witnessed
    }

    /// Hands out the samples that have gathered since the last call.
    fn get_samples(&mut self, dice: &mut Dice) -> (r: Vec<PeerRef>) {
        let mut out: Vec<PeerRef> = Vec::new();
        std::mem::swap(&mut self.out_samples, &mut out);
        out
    }

    fn clear_samples(&mut self) {
        self.out_samples.clear();
        self.witnessed = Ghost(self.view@.dom());
    }
}

} // verus!
