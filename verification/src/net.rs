//! The network as a protocol instance sees it, and the contracts that
//! protocols and their metrics meet.

use vstd::prelude::*;
use crate::util::{sample, sample_spec, Dice, PeerRef};

verus! {

/// A message in transit.
pub struct Envelope<M> {
    pub dst: PeerRef,
    pub src: PeerRef,
    pub payload: M,
    pub delivery_time: u64,
}

/// What an [`Envelope`] stands for: the same fields, the payload by its view.
pub struct Letter<P> {
    pub dst: PeerRef,
    pub src: PeerRef,
    pub payload: P,
    pub delivery_time: u64,
}

impl<M: View> View for Envelope<M> {
    type V = Letter<M::V>;

    open spec fn view(&self) -> Letter<M::V> {
        Letter {
            dst: self.dst,
            src: self.src,
            payload: self.payload@,
            delivery_time: self.delivery_time,
        }
    }
}

/// The network as the node `me` sees it while it handles one event: the
/// size of the population, the logical time, the node's stream of random
/// draws, and the messages queued for the next step.
pub struct Network<M> {
    pub n_nodes: usize,
    pub me: PeerRef,
    pub now: u64,
    pub dice: Dice,
    pub outbox: Vec<Envelope<M>>,
}

/// What a [`Network`] stands for.
pub struct NetModel<P> {
    pub n_nodes: usize,
    pub me: PeerRef,
    pub now: u64,
    pub dice: Dice,
    pub outbox: Seq<Letter<P>>,
}

impl<M: View> View for Network<M> {
    type V = NetModel<M::V>;

    open spec fn view(&self) -> NetModel<M::V> {
        NetModel {
            n_nodes: self.n_nodes,
            me: self.me,
            now: self.now,
            dice: self.dice,
            outbox: self.outbox@.map_values(|e: Envelope<M>| e@),
        }
    }
}

/// The peers `0..n`, in order.
pub open spec fn population(n: nat) -> Seq<PeerRef> {
    Seq::new(n, |i: int| i as PeerRef)
}

/// The peers `0..n`, in order.
pub fn peers_upto(n: usize) -> (r: Vec<PeerRef>)
    ensures
        r@ == population(n as nat),
        r@.no_duplicates(),
        forall|i: int| 0 <= i < r@.len() ==> r@[i] == i,
{
    let mut all: Vec<PeerRef> = Vec::with_capacity(n);
    let mut i: usize = 0;
    while i < n
        invariant
            i <= n,
            all@ == population(i as nat),
        decreases n - i,
    {
        all.push(i);
        assert(all@ =~= population((i + 1) as nat));
        i = i + 1;
    }
    all
}

/// The peers `lo..hi`, in order.
pub open spec fn peers_from(lo: nat, hi: nat) -> Seq<PeerRef> {
    if hi <= lo {
        Seq::empty()
    } else {
        Seq::new((hi - lo) as nat, |i: int| (lo + i) as PeerRef)
    }
}

/// The peers `lo..hi`, in order.
pub fn peers_between(lo: usize, hi: usize) -> (r: Vec<PeerRef>)
    ensures
        r@ == peers_from(lo as nat, hi as nat),
        forall|i: int| 0 <= i < r@.len() ==> lo <= (#[trigger] r@[i]) && r@[i] < hi,
{
    let mut all: Vec<PeerRef> = Vec::new();
    if hi <= lo {
        return all;
    }
    let mut p: usize = lo;
    while p < hi
        invariant
            lo <= p <= hi,
            all@ == peers_from(lo as nat, p as nat),
            forall|i: int| 0 <= i < all@.len() ==> lo <= (#[trigger] all@[i]) && all@[i] < hi,
        decreases hi - p,
    {
        all.push(p);
        assert(all@ =~= peers_from(lo as nat, (p + 1) as nat));
        p = p + 1;
    }
    all
}

impl<P> NetModel<P> {
    /// Every queued message goes to a node that exists and is due at the
    /// next step; the clock can still advance.
    pub open spec fn wf(self) -> bool {
        &&& self.now < u64::MAX
        &&& forall|i: int|
            0 <= i < self.outbox.len() ==> (#[trigger] self.outbox[i]).dst < self.n_nodes
                && self.outbox[i].src < self.n_nodes && self.outbox[i].delivery_time == self.now
                + 1
    }

    /// The network after `me` has sent `payload` to `dst`.
    pub open spec fn sent(self, dst: PeerRef, payload: P) -> NetModel<P> {
        NetModel {
            outbox: self.outbox.push(
                Letter { dst, src: self.me, payload, delivery_time: (self.now + 1) as u64 },
            ),
            ..self
        }
    }

    /// The network after `payload` has been sent to each of `dsts` in turn.
    pub open spec fn sent_each(self, dsts: Seq<PeerRef>, payload: P) -> NetModel<P>
        decreases dsts.len(),
    {
        if dsts.len() == 0 {
            self
        } else {
            self.sent_each(dsts.drop_last(), payload).sent(dsts.last(), payload)
        }
    }

    /// Every queued payload meets `ok`.
    pub open spec fn each_letter(self, ok: spec_fn(P) -> bool) -> bool {
        forall|i: int| 0 <= i < self.outbox.len() ==> ok((#[trigger] self.outbox[i]).payload)
    }

    /// The network with another stream of draws.
    pub open spec fn with_dice(self, dice: Dice) -> NetModel<P> {
        NetModel { dice, ..self }
    }

    /// The peers that `sample_peers(n)` returns.
    pub open spec fn sampled(self, n: nat) -> Seq<PeerRef> {
        sample_spec(population(self.n_nodes as nat), n, self.dice).0
    }

    /// The network after `sample_peers(n)`.
    pub open spec fn after_sample(self, n: nat) -> NetModel<P> {
        self.with_dice(sample_spec(population(self.n_nodes as nat), n, self.dice).1)
    }

    /// `self` is `before` after one event was handled: the same population,
    /// node and time, the same stream further on, and a queue that has
    /// only grown.
    pub open spec fn follows(self, before: NetModel<P>) -> bool {
        &&& self.n_nodes == before.n_nodes
        &&& self.me == before.me
        &&& self.now == before.now
        &&& before.dice.same_stream(self.dice)
        &&& before.outbox.len() <= self.outbox.len()
        &&& forall|i: int|
            0 <= i < before.outbox.len() ==> (#[trigger] self.outbox[i]) == before.outbox[i]
    }
}

impl<M: View> Network<M> {
    /// A network at time 0 with an empty queue, seen by node 0.
    pub fn new(n_nodes: usize, seed: u64) -> (r: Self)
        ensures
            r@ == (NetModel::<M::V> {
                n_nodes,
                me: 0,
                now: 0,
                dice: Dice { seed, stream: 0, drawn: 0 },
                outbox: Seq::empty(),
            }),
            r@.wf(),
    {
        let r = Network { n_nodes, me: 0, now: 0, dice: Dice::new(seed, 0), outbox: Vec::new() };
        assert(r@.outbox =~= Seq::empty());
        r
    }

    /// The current logical time.
    pub fn time(&self) -> (r: u64)
        ensures
            r == self@.now,
    {
        self.now
    }

    /// Queues `msg` for delivery to `dst` at the next step.
    pub fn send(&mut self, dst: PeerRef, msg: M)
        requires
            old(self)@.wf(),
            old(self)@.me < old(self)@.n_nodes,
            dst < old(self)@.n_nodes,
        ensures
            final(self)@ == old(self)@.sent(dst, msg@),
            final(self)@.wf(),
            final(self)@.follows(old(self)@),
    {
        let e = Envelope { dst, src: self.me, payload: msg, delivery_time: self.now + 1 };
        self.outbox.push(e);
        assert(self@.outbox =~= old(self)@.outbox.push(e@));
    }

    /// Draws `n` distinct peers uniformly from the whole population; all
    /// of it where it has no more than `n` nodes. The caller may be among
    /// them.
    pub fn sample_peers(&mut self, n: usize) -> (r: Vec<PeerRef>)
        ensures
            r@ == old(self)@.sampled(n as nat),
            final(self)@ == old(self)@.after_sample(n as nat),
            final(self)@.follows(old(self)@),
            r@.len() == if n >= old(self)@.n_nodes {
                old(self)@.n_nodes
            } else {
                n
            },
            r@.no_duplicates(),
            forall|i: int| 0 <= i < r@.len() ==> r@[i] < old(self)@.n_nodes,
    {
        let all = peers_upto(self.n_nodes);
        let r = sample(all.as_slice(), n, &mut self.dice);
        proof {
            assert forall|j: int| 0 <= j < r@.len() implies r@[j] < old(self)@.n_nodes by {
                assert(r@.contains(r@[j]));
                let x = r@[j];
                assert(all@.contains(x));
                let c = choose|c: int| 0 <= c < all@.len() && all@[c] == x;
                assert(all@[c] == c as PeerRef);
            }
        }
        r
    }

    /// The same network as a protocol with another kind of message sees
    /// it: nothing queued yet.
    pub fn proxy<N: View>(&self) -> (r: Network<N>)
        ensures
            r@ == (NetModel::<N::V> {
                n_nodes: self@.n_nodes,
                me: self@.me,
                now: self@.now,
                dice: self@.dice,
                outbox: Seq::empty(),
            }),
            self@.wf() ==> r@.wf(),
    {
        let r = Network {
            n_nodes: self.n_nodes,
            me: self.me,
            now: self.now,
            dice: self.dice,
            outbox: Vec::new(),
        };
        assert(r@.outbox =~= Seq::empty());
        r
    }
}

/// A per-node record of measurements that can be merged into one record
/// for the whole population.
pub trait Metrics: Sized + View {
    /// The record that changes nothing when merged.
    spec fn empty_spec() -> Self::V;

    /// The merge of two records.
    spec fn combine_spec(a: Self::V, b: Self::V) -> Self::V;

    /// The column names.
    spec fn headers_spec() -> Seq<Seq<char>>;

    /// The columns of a record, as text.
    spec fn values_spec(a: Self::V) -> Seq<Seq<char>>;

    /// The record of no node.
    fn empty() -> (r: Self)
        ensures
            r@ == Self::empty_spec(),
    ;

    /// Merges another record into this one.
    fn net_combine(&mut self, other: &Self)
        ensures
            final(self)@ == Self::combine_spec(old(self)@, other@),
    ;

    /// The names of the columns, in order.
    fn headers() -> (r: Vec<&'static str>)
        ensures
            r@.len() == Self::headers_spec().len(),
            forall|i: int| 0 <= i < r@.len() ==> r@[i]@ == Self::headers_spec()[i],
    ;

    /// The columns of the record as text, in the order of the headers.
    fn values(&self) -> (r: Vec<String>)
        ensures
            r@.len() == Self::values_spec(self@).len(),
            forall|i: int| 0 <= i < r@.len() ==> r@[i]@ == Self::values_spec(self@)[i],
    ;

    /// A record has one value for each column.
    proof fn lemma_columns(a: Self::V)
        ensures
            Self::values_spec(a).len() == Self::headers_spec().len(),
    ;

    /// Merging with the empty record changes nothing.
    proof fn lemma_combine_empty(a: Self::V)
        ensures
            Self::combine_spec(Self::empty_spec(), a) == a,
    ;

    /// The order of two merged records does not matter.
    proof fn lemma_combine_commutes(a: Self::V, b: Self::V)
        ensures
            Self::combine_spec(a, b) == Self::combine_spec(b, a),
    ;

    /// The grouping of merged records does not matter.
    proof fn lemma_combine_associates(a: Self::V, b: Self::V, c: Self::V)
        ensures
            Self::combine_spec(Self::combine_spec(a, b), c) == Self::combine_spec(
                a,
                Self::combine_spec(b, c),
            ),
    ;
}

/// The merge of a list of records, from the empty record on.
pub open spec fn reduce<M: Metrics>(records: Seq<M::V>) -> M::V {
    records.fold_left(M::empty_spec(), |acc: M::V, x: M::V| M::combine_spec(acc, x))
}

/// A protocol instance: the state of one node, which the simulator creates,
/// initialises once, and then drives by handing it the messages addressed
/// to it.
pub trait App: Sized + View {
    /// The parameters that every node is initialised with.
    type Init;

    /// The messages that the nodes exchange.
    type Msg: View;

    /// The measurements that a node reports.
    type Metrics: Metrics;

    /// The parameters are usable for a population of `n` nodes.
    spec fn init_ok(init: &Self::Init, n: nat) -> bool;

    /// The state as `new` makes it.
    spec fn blank(&self) -> bool;

    /// What holds of the state of an initialised node.
    spec fn inv(&self) -> bool;

    /// The size of the population that the node was initialised for.
    spec fn nodes(&self) -> nat;

    /// The message names only nodes of a population of `n`.
    spec fn msg_ok(msg: <Self::Msg as View>::V, n: nat) -> bool;

    /// The state that `new` makes.
    spec fn new_spec() -> Self::V;

    /// The state and the network after `init`.
    spec fn init_spec(
        s: Self::V,
        net: NetModel<<Self::Msg as View>::V>,
        id: PeerRef,
        init: Self::Init,
    ) -> (Self::V, NetModel<<Self::Msg as View>::V>);

    /// The state and the network after `handle`.
    spec fn handle_spec(
        s: Self::V,
        net: NetModel<<Self::Msg as View>::V>,
        from: PeerRef,
        msg: <Self::Msg as View>::V,
    ) -> (Self::V, NetModel<<Self::Msg as View>::V>);

    /// The state after `metrics`, and the record it returns.
    spec fn metrics_spec(s: Self::V, net: NetModel<<Self::Msg as View>::V>) -> (
        Self::V,
        <Self::Metrics as View>::V,
    );

    /// The state after `observe`.
    spec fn observe_spec(s: Self::V, total: <Self::Metrics as View>::V) -> Self::V;

    /// The state of a node that is not initialised yet.
    fn new() -> (r: Self)
        ensures
            r.blank(),
            r@ == Self::new_spec(),
    ;

    /// Makes the node `id` of the population that `net` describes.
    fn init(&mut self, id: PeerRef, net: &mut Network<Self::Msg>, init: &Self::Init)
        requires
            old(self).blank(),
            Self::init_ok(init, old(net)@.n_nodes as nat),
            id < old(net)@.n_nodes,
            old(net)@.me == id,
            old(net)@.wf(),
            old(net)@.each_letter(|p: <Self::Msg as View>::V| Self::msg_ok(p, old(net)@.n_nodes as nat)),
        ensures
            final(self).inv(),
            final(self).nodes() == old(net)@.n_nodes,
            (final(self)@, final(net)@) == Self::init_spec(old(self)@, old(net)@, id, *init),
            final(net)@.follows(old(net)@),
            final(net)@.wf(),
            final(net)@.each_letter(|p: <Self::Msg as View>::V| Self::msg_ok(p, old(net)@.n_nodes as nat)),
    ;

    /// Handles the message `msg` that `from` sent.
    fn handle(&mut self, net: &mut Network<Self::Msg>, from: PeerRef, msg: &Self::Msg)
        requires
            old(self).inv(),
            old(self).nodes() == old(net)@.n_nodes,
            from < old(net)@.n_nodes,
            old(net)@.me < old(net)@.n_nodes,
            Self::msg_ok(msg@, old(net)@.n_nodes as nat),
            old(net)@.wf(),
            old(net)@.each_letter(|p: <Self::Msg as View>::V| Self::msg_ok(p, old(net)@.n_nodes as nat)),
        ensures
            final(self).inv(),
            final(self).nodes() == old(self).nodes(),
            (final(self)@, final(net)@) == Self::handle_spec(old(self)@, old(net)@, from, msg@),
            final(net)@.follows(old(net)@),
            final(net)@.wf(),
            final(net)@.each_letter(|p: <Self::Msg as View>::V| Self::msg_ok(p, old(net)@.n_nodes as nat)),
    ;

    /// Reports the node's measurements since the last report.
    fn metrics(&mut self, net: &Network<Self::Msg>) -> (r: Self::Metrics)
        requires
            old(self).inv(),
            old(self).nodes() == net@.n_nodes,
        ensures
            final(self).inv(),
            final(self).nodes() == old(self).nodes(),
            (final(self)@, r@) == Self::metrics_spec(old(self)@, net@),
    ;

    /// Shows the node the measurements of the whole population, once they
    /// have been merged at the end of a step.
    fn observe(&mut self, total: &Self::Metrics)
        requires
            old(self).inv(),
        ensures
            final(self).inv(),
            final(self).nodes() == old(self).nodes(),
            final(self)@ == Self::observe_spec(old(self)@, total@),
    ;
}

/// Merging a list of records in two parts and merging the results is
/// merging the whole list.
pub proof fn lemma_reduce_concat<M: Metrics>(a: Seq<M::V>, b: Seq<M::V>)
    ensures
        reduce::<M>(a + b) == M::combine_spec(reduce::<M>(a), reduce::<M>(b)),
    decreases b.len(),
{
    if b.len() == 0 {
        assert(a + b =~= a);
        M::lemma_combine_commutes(reduce::<M>(a), M::empty_spec());
        M::lemma_combine_empty(reduce::<M>(a));
    } else {
        assert((a + b).drop_last() =~= a + b.drop_last());
        lemma_reduce_concat::<M>(a, b.drop_last());
        M::lemma_combine_associates(reduce::<M>(a), reduce::<M>(b.drop_last()), b.last());
    }
}

/// The order in which records are merged does not matter.
pub proof fn lemma_reduce_permutation<M: Metrics>(a: Seq<M::V>, b: Seq<M::V>)
    requires
        a.to_multiset() == b.to_multiset(),
    ensures
        reduce::<M>(a) == reduce::<M>(b),
{
    let f = |acc: M::V, x: M::V| M::combine_spec(acc, x);
    assert forall|x: M::V, y: M::V, v: M::V| #[trigger] f(f(v, x), y) == f(f(v, y), x) by {
        M::lemma_combine_associates(v, x, y);
        M::lemma_combine_associates(v, y, x);
        M::lemma_combine_commutes(x, y);
    }
    vstd::seq_lib::lemma_fold_left_permutation(a, b, f, M::empty_spec());
}

/// The merged record of each of a list of groups of records.
pub open spec fn reduce_each<M: Metrics>(parts: Seq<Seq<M::V>>) -> Seq<M::V> {
    parts.map_values(|part: Seq<M::V>| reduce::<M>(part))
}

/// However the records of a population are divided into groups: merging
/// each group and then the results is merging all records at once.
pub proof fn lemma_reduce_partition<M: Metrics>(records: Seq<M::V>, parts: Seq<Seq<M::V>>)
    requires
        parts.flatten().to_multiset() == records.to_multiset(),
    ensures
        reduce::<M>(reduce_each::<M>(parts)) == reduce::<M>(records),
{
    lemma_reduce_flatten::<M>(parts);
    lemma_reduce_permutation::<M>(parts.flatten(), records);
}

/// Merging each group of a list and then the results is merging the
/// records of all the groups, one group after the other.
pub proof fn lemma_reduce_flatten<M: Metrics>(parts: Seq<Seq<M::V>>)
    ensures
        reduce::<M>(reduce_each::<M>(parts)) == reduce::<M>(parts.flatten()),
    decreases parts.len(),
{
    if parts.len() == 0 {
        assert(reduce_each::<M>(parts) =~= Seq::empty());
    } else {
        let rest = parts.drop_last();
        lemma_reduce_flatten::<M>(rest);
        assert(reduce_each::<M>(parts).drop_last() =~= reduce_each::<M>(rest));
        assert(reduce_each::<M>(parts).last() == reduce::<M>(parts.last()));
        assert(rest.push(parts.last()) =~= parts);
        rest.lemma_flatten_push(parts.last());
        lemma_reduce_concat::<M>(rest.flatten(), parts.last());
    }
}

/// Every queued message is one that the protocol `A` accepts.
pub open spec fn letters_ok<A: App>(net: NetModel<<A::Msg as View>::V>) -> bool {
    net.each_letter(|p: <A::Msg as View>::V| A::msg_ok(p, net.n_nodes as nat))
}

} // verus!
