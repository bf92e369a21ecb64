//! The simulator: a population of protocol instances driven through
//! synchronous rounds.

use vstd::prelude::*;
use crate::net::{letters_ok, reduce, App, Envelope, Letter, Metrics, NetModel, Network};
use crate::util::{Dice, PeerRef};

verus! {

/// A population of instances of the protocol `A`, the logical clock, and
/// the messages that are due at the next step.
pub struct Simulator<A: App> {
    /// The state of each node, by identity.
    pub processes: Vec<A>,
    /// How many random draws each node has made.
    pub draws: Vec<u64>,
    /// The clock, the seed and the queue of messages.
    pub net: Network<A::Msg>,
}

/// What a [`Simulator`] stands for.
pub struct SimModel<S, P> {
    pub processes: Seq<S>,
    pub draws: Seq<u64>,
    pub net: NetModel<P>,
}

impl<A: App> View for Simulator<A> {
    type V = SimModel<A::V, <A::Msg as View>::V>;

    open spec fn view(&self) -> Self::V {
        SimModel {
            processes: self.processes@.map_values(|p: A| p@),
            draws: self.draws@,
            net: self.net@,
        }
    }
}

impl<S, P> SimModel<S, P> {
    /// The network as node `i` sees it: its own stream of draws, as far
    /// as it has come.
    pub open spec fn tuned(self, i: PeerRef) -> NetModel<P> {
        NetModel {
            me: i,
            dice: Dice { seed: self.net.dice.seed, stream: i as u64, drawn: self.draws[i as int] },
            ..self.net
        }
    }

    /// The simulator after node `i` has turned its state into `s` and the
    /// network into `net`.
    pub open spec fn moved(self, i: PeerRef, s: S, net: NetModel<P>) -> SimModel<S, P> {
        SimModel {
            processes: self.processes.update(i as int, s),
            draws: self.draws.update(i as int, net.dice.drawn),
            net,
        }
    }
}

/// The simulator after node `i` has handled `payload` from `src`.
pub open spec fn delivered<A: App>(
    m: SimModel<A::V, <A::Msg as View>::V>,
    i: PeerRef,
    src: PeerRef,
    payload: <A::Msg as View>::V,
) -> SimModel<A::V, <A::Msg as View>::V> {
    let after = A::handle_spec(m.processes[i as int], m.tuned(i), src, payload);
    m.moved(i, after.0, after.1)
}

/// The simulator after node `i` has handled, in their order, those of the
/// first `upto` messages of `inbox` that are addressed to it.
pub open spec fn delivered_upto<A: App>(
    m: SimModel<A::V, <A::Msg as View>::V>,
    inbox: Seq<Letter<<A::Msg as View>::V>>,
    i: PeerRef,
    upto: nat,
) -> SimModel<A::V, <A::Msg as View>::V>
    decreases upto,
{
    if upto == 0 {
        m
    } else {
        let before = delivered_upto::<A>(m, inbox, i, (upto - 1) as nat);
        let e = inbox[upto - 1];
        if e.dst == i {
            delivered::<A>(before, i, e.src, e.payload)
        } else {
            before
        }
    }
}

/// The simulator after each of the first `nodes` nodes, in ascending order,
/// has handled all its messages of `inbox`.
pub open spec fn delivered_nodes<A: App>(
    m: SimModel<A::V, <A::Msg as View>::V>,
    inbox: Seq<Letter<<A::Msg as View>::V>>,
    nodes: nat,
) -> SimModel<A::V, <A::Msg as View>::V>
    decreases nodes,
{
    if nodes == 0 {
        m
    } else {
        delivered_upto::<A>(
            delivered_nodes::<A>(m, inbox, (nodes - 1) as nat),
            inbox,
            (nodes - 1) as PeerRef,
            inbox.len(),
        )
    }
}

/// The simulator after one step: the clock advances by one, the queue is
/// emptied, and every message that was in it is delivered, node by node
/// in ascending order and, for each node, in the order of sending. What
/// the nodes send meanwhile is queued for the step after.
pub open spec fn stepped<A: App>(m: SimModel<A::V, <A::Msg as View>::V>) -> SimModel<
    A::V,
    <A::Msg as View>::V,
> {
    delivered_nodes::<A>(
        SimModel {
            net: NetModel { now: (m.net.now + 1) as u64, outbox: Seq::empty(), ..m.net },
            ..m
        },
        m.net.outbox,
        m.processes.len(),
    )
}

/// The positions, among the first `upto` messages of `inbox`, of those
/// addressed to `dst`, in ascending order.
pub open spec fn positions<P>(inbox: Seq<Letter<P>>, dst: PeerRef, upto: nat) -> Seq<usize>
    decreases upto,
{
    if upto == 0 {
        Seq::empty()
    } else {
        let before = positions(inbox, dst, (upto - 1) as nat);
        if inbox[upto - 1].dst == dst {
            before.push((upto - 1) as usize)
        } else {
            before
        }
    }
}

/// The simulator after node `i` has handled the messages of `inbox` at
/// the positions `at`, in that order.
pub open spec fn delivered_at<A: App>(
    m: SimModel<A::V, <A::Msg as View>::V>,
    inbox: Seq<Letter<<A::Msg as View>::V>>,
    i: PeerRef,
    at: Seq<usize>,
) -> SimModel<A::V, <A::Msg as View>::V>
    decreases at.len(),
{
    if at.len() == 0 {
        m
    } else {
        let e = inbox[at.last() as int];
        delivered::<A>(delivered_at::<A>(m, inbox, i, at.drop_last()), i, e.src, e.payload)
    }
}

/// Delivering by position is delivering in order.
pub proof fn lemma_delivered_at<A: App>(
    m: SimModel<A::V, <A::Msg as View>::V>,
    inbox: Seq<Letter<<A::Msg as View>::V>>,
    i: PeerRef,
    upto: nat,
)
    requires
        upto <= inbox.len() <= usize::MAX,
    ensures
        delivered_upto::<A>(m, inbox, i, upto) == delivered_at::<A>(
            m,
            inbox,
            i,
            positions(inbox, i, upto),
        ),
        forall|k: int|
            0 <= k < positions(inbox, i, upto).len() ==> (#[trigger] positions(inbox, i, upto)[k])
                < upto && inbox[positions(inbox, i, upto)[k] as int].dst == i,
    decreases upto,
{
    if upto > 0 {
        lemma_delivered_at::<A>(m, inbox, i, (upto - 1) as nat);
        let before = positions(inbox, i, (upto - 1) as nat);
        if inbox[upto - 1].dst == i {
            assert(before.push((upto - 1) as usize).drop_last() =~= before);
        }
    }
}

/// The simulator while the first `upto` nodes of a population of `n` have
/// been created and initialised, in ascending order. Each node starts its
/// own stream of draws under the common seed.
pub open spec fn initialised<A: App>(n: usize, init: A::Init, seed: u64, upto: nat) -> SimModel<
    A::V,
    <A::Msg as View>::V,
>
    decreases upto,
{
    if upto == 0 {
        SimModel {
            processes: Seq::empty(),
            draws: Seq::empty(),
            net: NetModel {
                n_nodes: n,
                me: 0,
                now: 0,
                dice: Dice { seed, stream: 0, drawn: 0 },
                outbox: Seq::empty(),
            },
        }
    } else {
        let m = initialised::<A>(n, init, seed, (upto - 1) as nat);
        let id = (upto - 1) as PeerRef;
        let net = NetModel { me: id, dice: Dice { seed, stream: id as u64, drawn: 0 }, ..m.net };
        let after = A::init_spec(A::new_spec(), net, id, init);
        SimModel {
            processes: m.processes.push(after.0),
            draws: m.draws.push(after.1.dice.drawn),
            net: after.1,
        }
    }
}

/// The states of the nodes after the first `upto` of them have reported
/// their measurements, and the records they returned.
pub open spec fn collected<A: App>(m: SimModel<A::V, <A::Msg as View>::V>, upto: nat) -> (
    Seq<A::V>,
    Seq<<A::Metrics as View>::V>,
)
    decreases upto,
{
    if upto == 0 {
        (m.processes, Seq::empty())
    } else {
        let before = collected::<A>(m, (upto - 1) as nat);
        let i = (upto - 1) as PeerRef;
        let after = A::metrics_spec(before.0[i as int], m.tuned(i));
        (before.0.update(i as int, after.0), before.1.push(after.1))
    }
}

/// The simulator after a round of measurement, and the merged record:
/// every node reports, the records are merged in ascending order of the
/// nodes, and every node is shown the result.
pub open spec fn measured<A: App>(m: SimModel<A::V, <A::Msg as View>::V>) -> (
    SimModel<A::V, <A::Msg as View>::V>,
    <A::Metrics as View>::V,
) {
    let got = collected::<A>(m, m.processes.len());
    let total = reduce::<A::Metrics>(got.1);
    (
        SimModel {
            processes: got.0.map_values(|s: A::V| A::observe_spec(s, total)),
            draws: m.draws,
            net: m.net,
        },
        total,
    )
}

/// Sorts the positions of the messages by their destination.
fn sort_by_destination<M: View>(inbox: &Vec<Envelope<M>>, n: usize) -> (r: Vec<Vec<usize>>)
    requires
        forall|j: int| 0 <= j < inbox@.len() ==> (#[trigger] inbox@[j]).dst < n,
    ensures
        r@.len() == n,
        forall|d: int|
            0 <= d < n ==> (#[trigger] r@[d])@ == positions(
                inbox@.map_values(|e: Envelope<M>| e@),
                d as PeerRef,
                inbox@.len(),
            ),
{
    let ghost letters = inbox@.map_values(|e: Envelope<M>| e@);
    let mut buckets: Vec<Vec<usize>> = Vec::with_capacity(n);
    let mut d: usize = 0;
    while d < n
        invariant
            d <= n,
            buckets@.len() == d,
            forall|c: int| 0 <= c < d ==> (#[trigger] buckets@[c])@ == Seq::<usize>::empty(),
        decreases n - d,
    {
        buckets.push(Vec::new());
        d = d + 1;
    }
    let mut j: usize = 0;
    while j < inbox.len()
        invariant
            j <= inbox@.len(),
            buckets@.len() == n,
            letters == inbox@.map_values(|e: Envelope<M>| e@),
            forall|c: int| 0 <= c < inbox@.len() ==> (#[trigger] inbox@[c]).dst < n,
            forall|c: int|
                0 <= c < n ==> (#[trigger] buckets@[c])@ == positions(
                    letters,
                    c as PeerRef,
                    j as nat,
                ),
        decreases inbox@.len() - j,
    {
        let dst = inbox[j].dst;
        assert(letters[j as int].dst == dst);
        buckets[dst].push(j);
        j = j + 1;
    }
    buckets
}

impl<A: App> Simulator<A> {
    /// Every node is initialised for this population, and every queued
    /// message is one that the protocol accepts, addressed to a node that
    /// exists and due at the next step.
    pub open spec fn wf(&self) -> bool {
        &&& self.processes@.len() == self.net.n_nodes
        &&& self.draws@.len() == self.net.n_nodes
        &&& self.net@.wf()
        &&& letters_ok::<A>(self.net@)
        &&& forall|i: int|
            0 <= i < self.processes@.len() ==> (#[trigger] self.processes@[i]).inv()
                && self.processes@[i].nodes() == self.net.n_nodes
    }

    /// Creates `nproc` nodes and initialises them in ascending order. The
    /// clock stands at 0; what the nodes send is due at the first step.
    pub fn new(nproc: usize, init: &A::Init, seed: u64) -> (r: Self)
        requires
            A::init_ok(init, nproc as nat),
        ensures
            r.wf(),
            r@ == initialised::<A>(nproc, *init, seed, nproc as nat),
            r@.net.now == 0,
            r@.net.n_nodes == nproc,
            r@.net.dice.seed == seed,
    {
        let mut sim: Simulator<A> = Simulator {
            processes: Vec::with_capacity(nproc),
            draws: Vec::with_capacity(nproc),
            net: Network::new(nproc, seed),
        };
        assert(sim@.processes =~= Seq::empty());
        let mut id: usize = 0;
        while id < nproc
            invariant
                id <= nproc,
                A::init_ok(init, nproc as nat),
                sim.processes@.len() == id,
                sim.draws@.len() == id,
                sim.net.n_nodes == nproc,
                sim.net.now == 0,
                sim.net.dice.seed == seed,
                sim.net@.wf(),
                letters_ok::<A>(sim.net@),
                forall|i: int|
                    0 <= i < id ==> (#[trigger] sim.processes@[i]).inv() && sim.processes@[i].nodes()
                        == nproc,
                sim@ == initialised::<A>(nproc, *init, seed, id as nat),
            decreases nproc - id,
        {
            let ghost before = sim@;
            sim.net.me = id;
            sim.net.dice = Dice::new(seed, id as u64);
            assert(sim.net@.outbox == before.net.outbox);
            let mut node = A::new();
            node.init(id, &mut sim.net, init);
            sim.processes.push(node);
            sim.draws.push(sim.net.dice.drawn);
            assert(sim@.processes =~= before.processes.push(node@));
            id = id + 1;
        }
        sim
    }

    /// Advances the clock by one and delivers every queued message.
    pub fn step(&mut self)
        requires
            old(self).wf(),
            old(self)@.net.now + 1 < u64::MAX,
        ensures
            final(self).wf(),
            final(self)@ == stepped::<A>(old(self)@),
            final(self)@.net.now == old(self)@.net.now + 1,
            final(self)@.net.n_nodes == old(self)@.net.n_nodes,
            final(self)@.net.dice.seed == old(self)@.net.dice.seed,
            forall|i: int|
                0 <= i < final(self)@.net.outbox.len() ==> (
                #[trigger] final(self)@.net.outbox[i]).delivery_time > final(self)@.net.now,
    {
        let n = self.net.n_nodes;
        let seed = self.net.dice.seed;
        let ghost letters = self@.net.outbox;
        let ghost base = SimModel {
            net: NetModel {
                now: (self@.net.now + 1) as u64,
                outbox: Seq::<Letter<<A::Msg as View>::V>>::empty(),
                ..self@.net
            },
            ..self@
        };
        let mut inbox: Vec<Envelope<A::Msg>> = Vec::new();
        std::mem::swap(&mut self.net.outbox, &mut inbox);
        self.net.now = self.net.now + 1;
        assert(self@.net.outbox =~= Seq::empty());
        assert(self@ == base);
        assert(inbox.len() == letters.len());
        assert forall|j: int| 0 <= j < inbox@.len() implies (#[trigger] inbox@[j]).dst < n by {
            assert(letters[j] == inbox@[j]@);
        }
        let buckets = sort_by_destination(&inbox, n);
        let mut i: usize = 0;
        while i < n
            invariant
                i <= n,
                n == self.net.n_nodes,
                seed == self.net.dice.seed,
                self.net.now == old(self).net.now + 1,
                self.wf(),
                letters == inbox@.map_values(|e: Envelope<A::Msg>| e@),
                letters.len() <= usize::MAX,
                forall|j: int|
                    0 <= j < letters.len() ==> (#[trigger] letters[j]).src < n && A::msg_ok(
                        letters[j].payload,
                        n as nat,
                    ),
                buckets@.len() == n,
                forall|d: int|
                    0 <= d < n ==> (#[trigger] buckets@[d])@ == positions(
                        letters,
                        d as PeerRef,
                        letters.len(),
                    ),
                self@ == delivered_nodes::<A>(base, letters, i as nat),
            decreases n - i,
        {
            let ghost start = self@;
            let mut k: usize = 0;
            proof {
                lemma_delivered_at::<A>(start, letters, i, letters.len());
            }
            while k < buckets[i].len()
                invariant
                    i < n,
                    k <= buckets@[i as int]@.len(),
                    n == self.net.n_nodes,
                    seed == self.net.dice.seed,
                    self.net.now == old(self).net.now + 1,
                    self.wf(),
                    letters == inbox@.map_values(|e: Envelope<A::Msg>| e@),
                    forall|j: int|
                        0 <= j < letters.len() ==> (#[trigger] letters[j]).src < n && A::msg_ok(
                            letters[j].payload,
                            n as nat,
                        ),
                    buckets@.len() == n,
                    buckets@[i as int]@ == positions(letters, i, letters.len()),
                    forall|c: int|
                        0 <= c < buckets@[i as int]@.len() ==> (#[trigger] buckets@[i as int]@[c])
                            < letters.len(),
                    self@ == delivered_at::<A>(start, letters, i, buckets@[i as int]@.take(k as int)),
                decreases buckets@[i as int]@.len() - k,
            {
                let ghost before = self@;
                let j = buckets[i][k];
                self.net.me = i;
                self.net.dice = Dice { seed, stream: i as u64, drawn: self.draws[i] };
                assert(self.net@ == before.tuned(i));
                assert(letters[j as int] == inbox@[j as int]@);
                self.processes[i].handle(&mut self.net, inbox[j].src, &inbox[j].payload);
                self.draws.set(i, self.net.dice.drawn);
                proof {
                    let at = buckets@[i as int]@.take(k + 1);
                    assert(at.drop_last() =~= buckets@[i as int]@.take(k as int));
                    assert(self@.processes =~= before.processes.update(
                        i as int,
                        self.processes@[i as int]@,
                    ));
                    assert(self@ == delivered::<A>(
                        before,
                        i,
                        letters[j as int].src,
                        letters[j as int].payload,
                    ));
                }
                k = k + 1;
            }
            assert(buckets@[i as int]@.take(k as int) =~= buckets@[i as int]@);
            i = i + 1;
        }
    }

    /// Collects the measurements of every node, merges them in ascending
    /// order of the nodes, and shows every node the merged record.
    pub fn metrics(&mut self) -> (r: A::Metrics)
        requires
            old(self).wf(),
        ensures
            final(self).wf(),
            (final(self)@, r@) == measured::<A>(old(self)@),
            final(self)@.net == old(self)@.net,
    {
        let n = self.net.n_nodes;
        let me = self.net.me;
        let dice = self.net.dice;
        let ghost m0 = self@;
        let ghost mut records: Seq<<A::Metrics as View>::V> = Seq::empty();
        let mut total = A::Metrics::empty();
        let mut i: usize = 0;
        while i < n
            invariant
                i <= n,
                n == self.net.n_nodes,
                m0 == old(self)@,
                n == m0.net.n_nodes,
                self.processes@.len() == n,
                self.draws@ == m0.draws,
                self.draws@.len() == n,
                self.net.outbox == old(self).net.outbox,
                self.net.now == m0.net.now,
                self.net.dice.seed == m0.net.dice.seed,
                forall|c: int|
                    0 <= c < n ==> (#[trigger] self.processes@[c]).inv() && self.processes@[c].nodes()
                        == n,
                (self@.processes, records) == collected::<A>(m0, i as nat),
                total@ == reduce::<A::Metrics>(records),
            decreases n - i,
        {
            let ghost before = self@;
            self.net.me = i;
            self.net.dice = Dice { seed: self.net.dice.seed, stream: i as u64, drawn: self.draws[i] };
            assert(self.net@ == m0.tuned(i));
            let rec = self.processes[i].metrics(&self.net);
            total.net_combine(&rec);
            proof {
                assert(self@.processes =~= before.processes.update(
                    i as int,
                    self.processes@[i as int]@,
                ));
                assert(records.push(rec@).drop_last() =~= records);
                records = records.push(rec@);
            }
            i = i + 1;
        }
        self.net.me = me;
        self.net.dice = dice;
        let ghost got = self@.processes;
        let mut c: usize = 0;
        while c < n
            invariant
                c <= n,
                n == self.net.n_nodes,
                self.processes@.len() == n,
                got.len() == n,
                self.draws@ == m0.draws,
                self.net == old(self).net,
                forall|j: int|
                    0 <= j < n ==> (#[trigger] self.processes@[j]).inv() && self.processes@[j].nodes()
                        == n,
                forall|j: int|
                    0 <= j < c ==> (#[trigger] self.processes@[j])@ == A::observe_spec(got[j], total@),
                forall|j: int| c <= j < n ==> (#[trigger] self.processes@[j])@ == got[j],
            decreases n - c,
        {
            self.processes[c].observe(&total);
            c = c + 1;
        }
        assert(self@.processes =~= got.map_values(|s: A::V| A::observe_spec(s, total@)));
        total
    }
}

} // verus!
