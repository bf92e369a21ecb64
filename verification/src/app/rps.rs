//! A basic random peer sampling protocol without any defence: every node
//! keeps a view of peers, sends it to one of them at every step, and
//! mixes the views it receives into its own.

use vstd::prelude::*;
use vstd::string::*;
use crate::net::{peers_upto, population, App, NetModel, Network};
use crate::text::{decimal, fixed_point, to_decimal, to_fixed_point};
use crate::util::{
    add_capped, lemma_sat_add, sample_nocopy, sat_add, shuffle, shuffle_spec, Dice, PeerRef,
};

verus! {

/// The messages of the protocol: the tick that a node sends to itself at
/// every step, a view sent unasked, and a view sent in return.
pub enum Msg {
    SelfNotif,
    Step1(Vec<PeerRef>),
    Step2(Vec<PeerRef>),
}

/// What a [`Msg`] stands for.
pub enum Note {
    SelfNotif,
    Step1(Seq<PeerRef>),
    Step2(Seq<PeerRef>),
}

impl View for Msg {
    type V = Note;

    open spec fn view(&self) -> Note {
        match self {
            Msg::SelfNotif => Note::SelfNotif,
            Msg::Step1(l) => Note::Step1(l@),
            Msg::Step2(l) => Note::Step2(l@),
        }
    }
}

/// The parameters of the protocol.
#[derive(Clone, Copy, Debug)]
pub struct Init {
    /// Number of Byzantine nodes: those with the lowest identities.
    pub n_byzantine: usize,
    /// The largest size of a view.
    pub view_size: usize,
    /// Number of samples handed out at a time.
    pub count: usize,
    /// Samples are handed out at every so many calls for them.
    pub period: usize,
}

impl Init {
    /// The parameters can be used for a population of `n` nodes: a view
    /// can hold a peer, and the period is not zero.
    pub open spec fn ok(self, n: nat) -> bool {
        &&& self.view_size >= 1
        &&& self.period >= 1
    }
}

/// The state of one node. `counter` counts the calls for samples; the
/// count stops at the largest `usize`.
pub struct RPS {
    pub params: Init,
    pub n_nodes: usize,
    pub my_id: PeerRef,
    pub counter: usize,
    pub is_byzantine: bool,
    pub view: Vec<PeerRef>,
    pub witnessed: Ghost<Set<PeerRef>>,
}

/// What an [`RPS`] stands for. `witnessed` holds the peers that have been
/// in the view since the samples were last cleared.
pub struct State {
    pub params: Init,
    pub n_nodes: usize,
    pub my_id: PeerRef,
    pub counter: usize,
    pub is_byzantine: bool,
    pub view: Seq<PeerRef>,
    pub witnessed: Set<PeerRef>,
}

impl View for RPS {
    type V = State;

    open spec fn view(&self) -> State {
        State {
            params: self.params,
            n_nodes: self.n_nodes,
            my_id: self.my_id,
            counter: self.counter,
            is_byzantine: self.is_byzantine,
            view: self.view@,
            witnessed: self.witnessed@,
        }
    }
}

/// The measurements of a set of nodes: how many correct nodes it counts,
/// how many Byzantine peers they have in their views, and how many of
/// them have nothing but Byzantine peers in their view.
#[derive(Clone, Copy, Debug)]
pub struct Metrics {
    pub n_procs: usize,
    pub n_byzantine_neighbors: usize,
    pub n_isolated: usize,
}

impl View for Metrics {
    type V = Metrics;

    open spec fn view(&self) -> Metrics {
        *self
    }
}

impl crate::net::Metrics for Metrics {
    open spec fn empty_spec() -> Metrics {
        Metrics { n_procs: 0, n_byzantine_neighbors: 0, n_isolated: 0 }
    }

    open spec fn combine_spec(a: Metrics, b: Metrics) -> Metrics {
        Metrics {
            n_procs: sat_add(a.n_procs, b.n_procs),
            n_byzantine_neighbors: sat_add(a.n_byzantine_neighbors, b.n_byzantine_neighbors),
            n_isolated: sat_add(a.n_isolated, b.n_isolated),
        }
    }

    open spec fn headers_spec() -> Seq<Seq<char>> {
        seq!["avgByzN"@, "n_isolated"@]
    }

    open spec fn values_spec(a: Metrics) -> Seq<Seq<char>> {
        seq![
            fixed_point(a.n_byzantine_neighbors as nat, a.n_procs as nat, 2),
            decimal(a.n_isolated as nat),
        ]
    }

    fn empty() -> (r: Self) {
        Metrics { n_procs: 0, n_byzantine_neighbors: 0, n_isolated: 0 }
    }

    fn net_combine(&mut self, other: &Self) {
        self.n_procs = add_capped(self.n_procs, other.n_procs);
        self.n_byzantine_neighbors = add_capped(
            self.n_byzantine_neighbors,
            other.n_byzantine_neighbors,
        );
        self.n_isolated = add_capped(self.n_isolated, other.n_isolated);
    }

    fn headers() -> (r: Vec<&'static str>) {
        vec!["avgByzN", "n_isolated"]
    }

    fn values(&self) -> (r: Vec<String>) {
        vec![
            to_fixed_point(self.n_byzantine_neighbors, self.n_procs, 2),
            to_decimal(self.n_isolated as u128),
        ]
    }

    proof fn lemma_columns(a: Metrics) {
    }

    proof fn lemma_combine_empty(a: Metrics) {
    }

    proof fn lemma_combine_commutes(a: Metrics, b: Metrics) {
    }

    proof fn lemma_combine_associates(a: Metrics, b: Metrics, c: Metrics) {
        lemma_sat_add(a.n_procs, b.n_procs, c.n_procs);
        lemma_sat_add(a.n_byzantine_neighbors, b.n_byzantine_neighbors, c.n_byzantine_neighbors);
        lemma_sat_add(a.n_isolated, b.n_isolated, c.n_isolated);
    }
}

/// Every peer of the list is below `n`.
pub open spec fn peers_within(peers: Seq<PeerRef>, n: nat) -> bool {
    forall|i: int| 0 <= i < peers.len() ==> peers[i] < n
}

/// The message names only peers below `n`.
pub open spec fn note_ok(msg: Note, n: nat) -> bool {
    match msg {
        Note::SelfNotif => true,
        Note::Step1(l) => peers_within(l, n),
        Note::Step2(l) => peers_within(l, n),
    }
}

/// The peers of a list in the order of their first occurrence, each once.
pub open spec fn distinct(peers: Seq<PeerRef>) -> Seq<PeerRef>
    decreases peers.len(),
{
    if peers.len() == 0 {
        Seq::empty()
    } else {
        let before = distinct(peers.drop_last());
        if before.contains(peers.last()) {
            before
        } else {
            before.push(peers.last())
        }
    }
}

/// A peer is in a list made distinct if and only if it is in the list.
pub proof fn lemma_distinct_contains(peers: Seq<PeerRef>, x: PeerRef)
    ensures
        distinct(peers).contains(x) <==> peers.contains(x),
    decreases peers.len(),
{
    if peers.len() > 0 {
        let rest = peers.drop_last();
        let last = peers.last();
        lemma_distinct_contains(rest, x);
        lemma_distinct_contains(rest, last);
        let before = distinct(rest);
        let now = distinct(peers);
        if now.contains(x) {
            let i = choose|i: int| 0 <= i < now.len() && now[i] == x;
            if i < before.len() {
                assert(before[i] == x);
                assert(before.contains(x));
                assert(rest.contains(x));
                let j = choose|j: int| 0 <= j < rest.len() && rest[j] == x;
                assert(peers[j] == x);
            } else {
                assert(peers[peers.len() - 1] == x);
            }
        }
        if peers.contains(x) {
            let j = choose|j: int| 0 <= j < peers.len() && peers[j] == x;
            if j < rest.len() {
                assert(rest[j] == x);
                assert(rest.contains(x));
                assert(before.contains(x));
                let i = choose|i: int| 0 <= i < before.len() && before[i] == x;
                assert(now[i] == x);
            } else if before.contains(last) {
                assert(now == before);
            } else {
                assert(now[now.len() - 1] == x);
            }
        }
    }
}

/// A list made distinct holds the peers of the list, each once.
pub proof fn lemma_distinct(peers: Seq<PeerRef>)
    ensures
        distinct(peers).no_duplicates(),
        distinct(peers).len() <= peers.len(),
        peers.len() > 0 ==> distinct(peers).len() > 0,
    decreases peers.len(),
{
    if peers.len() > 0 {
        lemma_distinct(peers.drop_last());
    }
}

/// The number of Byzantine peers in a list.
pub open spec fn byzantine_count(peers: Seq<PeerRef>, n_byzantine: usize) -> nat
    decreases peers.len(),
{
    if peers.len() == 0 {
        0
    } else {
        byzantine_count(peers.drop_last(), n_byzantine) + if peers.last() < n_byzantine {
            1nat
        } else {
            0nat
        }
    }
}

/// Whether the call for samples that brings the count of calls to
/// `counter` is one that the node `id` answers with samples.
pub open spec fn on_phase(counter: usize, id: PeerRef, period: usize) -> bool {
    period > 0 && (counter + id) % (period as int) == 0
}

/// The size of the view of a Byzantine node: `view_size`, or the number
/// of Byzantine nodes in a population of `n` where they are fewer.
pub open spec fn byzantine_view_size(init: Init, n: usize) -> usize {
    let known = if init.n_byzantine <= n {
        init.n_byzantine
    } else {
        n
    };
    if init.view_size <= known {
        init.view_size
    } else {
        known
    }
}

impl State {
    /// The state with another view; the peers of the view count as
    /// witnessed.
    pub open spec fn with_view(self, view: Seq<PeerRef>) -> State {
        State { view, witnessed: self.witnessed.union(view.to_set()), ..self }
    }

    /// The state after a received view was mixed into the node's own, and
    /// what is left of the stream: the two views are joined, each peer
    /// once, the result is shuffled and cut to `view_size` peers. A
    /// Byzantine node keeps its view.
    pub open spec fn integrate(self, received: Seq<PeerRef>, dice: Dice) -> (State, Dice) {
        if self.is_byzantine {
            (self, dice)
        } else {
            let mixed = shuffle_spec(distinct(self.view + received), dice);
            (
                self.with_view(
                    if mixed.0.len() <= self.params.view_size {
                        mixed.0
                    } else {
                        mixed.0.take(self.params.view_size as int)
                    },
                ),
                mixed.1,
            )
        }
    }

    /// The state and the network after a message was handled. At a tick
    /// the node sends its view to a peer drawn from the view, and its
    /// next tick to itself. It replies to a view sent unasked with its own
    /// view as it was, and mixes every view it receives into its own.
    pub open spec fn handle(self, net: NetModel<Note>, from: PeerRef, msg: Note) -> (
        State,
        NetModel<Note>,
    ) {
        match msg {
            Note::SelfNotif => {
                let i = net.dice.rolled(self.view.len() as u64);
                (
                    self,
                    net.with_dice(net.dice.advanced()).sent(
                        self.view[i as int],
                        Note::Step1(self.view),
                    ).sent(self.my_id, Note::SelfNotif),
                )
            },
            Note::Step1(received) => {
                let replied = net.sent(from, Note::Step2(self.view));
                let mixed = self.integrate(received, replied.dice);
                (mixed.0, replied.with_dice(mixed.1))
            },
            Note::Step2(received) => {
                let mixed = self.integrate(received, net.dice);
                (mixed.0, net.with_dice(mixed.1))
            },
        }
    }

    /// The state of a node before it is initialised.
    pub open spec fn blank() -> State {
        State {
            params: Init { n_byzantine: 0, view_size: 0, count: 0, period: 0 },
            n_nodes: 0,
            my_id: 0,
            counter: 0,
            is_byzantine: false,
            view: Seq::empty(),
            witnessed: Set::empty(),
        }
    }

    /// The state and the network after the node `id` was initialised: a
    /// Byzantine node takes the Byzantine nodes with the lowest
    /// identities for its view, a correct node draws its view from the
    /// whole population; every node sends its first tick.
    pub open spec fn init(self, net: NetModel<Note>, id: PeerRef, init: Init) -> (
        State,
        NetModel<Note>,
    ) {
        let placed = State {
            params: init,
            n_nodes: net.n_nodes,
            my_id: id,
            is_byzantine: id < init.n_byzantine,
            ..self
        };
        if id < init.n_byzantine {
            (
                placed.with_view(
                    population(byzantine_view_size(init, net.n_nodes) as nat),
                ),
                net.sent(id, Note::SelfNotif),
            )
        } else {
            (
                placed.with_view(net.sampled(init.view_size as nat)),
                net.after_sample(init.view_size as nat).sent(id, Note::SelfNotif),
            )
        }
    }

    /// The record that a node reports: a correct node counts itself and
    /// the Byzantine peers of its view.
    pub open spec fn metrics(self) -> Metrics {
        if self.is_byzantine {
            Metrics { n_procs: 0, n_byzantine_neighbors: 0, n_isolated: 0 }
        } else {
            let neighbors = byzantine_count(self.view, self.params.n_byzantine) as usize;
            Metrics {
                n_procs: 1,
                n_byzantine_neighbors: neighbors,
                n_isolated: if neighbors == self.view.len() {
                    1
                } else {
                    0
                },
            }
        }
    }

    /// The state after a call for samples, what is left of the stream,
    /// and the samples. The call is counted; every `period` calls, `count`
    /// peers are drawn from the view, which may be shuffled on the way.
    pub open spec fn samples(self, dice: Dice) -> (State, Dice, Seq<PeerRef>) {
        let counter = sat_add(self.counter, 1);
        if on_phase(counter, self.my_id, self.params.period) {
            let drawn = crate::util::sample_nocopy_spec(self.view, self.params.count as nat, dice);
            (State { counter, view: drawn.1, ..self }, drawn.2, drawn.0)
        } else {
            (State { counter, ..self }, dice, Seq::empty())
        }
    }

    /// What holds of the state of a node at all times.
    pub open spec fn inv(self) -> bool {
        &&& self.params.ok(self.n_nodes as nat)
        &&& self.my_id < self.n_nodes
        &&& self.is_byzantine == (self.my_id < self.params.n_byzantine)
        &&& self.view.len() >= 1
        &&& peers_within(self.view, self.n_nodes as nat)
        &&& forall|i: int| 0 <= i < self.view.len() ==> self.witnessed.contains(self.view[i])
    }
}

/// The network is in order for this protocol.
pub open spec fn net_ok(net: NetModel<Note>) -> bool {
    &&& net.wf()
    &&& net.me < net.n_nodes
    &&& net.each_letter(|p: Note| note_ok(p, net.n_nodes as nat))
}

/// Drawing from the stream leaves the network in order.
proof fn lemma_redice(net: NetModel<Note>, dice: Dice)
    requires
        net_ok(net),
        net.dice.same_stream(dice),
    ensures
        net_ok(net.with_dice(dice)),
        net.with_dice(dice).follows(net),
{
}

/// A copy of a list of peers.
fn copy_peers(list: &Vec<PeerRef>) -> (r: Vec<PeerRef>)
    ensures
        r@ == list@,
{
    let mut out: Vec<PeerRef> = Vec::with_capacity(list.len());
    let mut i: usize = 0;
    while i < list.len()
        invariant
            i <= list@.len(),
            out@ == list@.take(i as int),
        decreases list@.len() - i,
    {
        out.push(list[i]);
        assert(out@ == list@.take(i + 1));
        i = i + 1;
    }
    assert(list@.take(i as int) == list@);
    out
}

/// Whether `p` is in the list.
fn contains_peer(peers: &Vec<PeerRef>, p: PeerRef) -> (r: bool)
    ensures
        r == peers@.contains(p),
{
    let mut i: usize = 0;
    while i < peers.len()
        invariant
            i <= peers@.len(),
            forall|j: int| 0 <= j < i ==> peers@[j] != p,
        decreases peers@.len() - i,
    {
        if peers[i] == p {
            return true;
        }
        i = i + 1;
    }
    false
}

/// Joins two lists of peers, keeping each peer once.
fn join_distinct(a: &Vec<PeerRef>, b: &Vec<PeerRef>) -> (r: Vec<PeerRef>)
    ensures
        r@ == distinct(a@ + b@),
{
    let mut out: Vec<PeerRef> = Vec::new();
    let ghost all = a@ + b@;
    let mut i: usize = 0;
    while i < a.len()
        invariant
            i <= a@.len(),
            all == a@ + b@,
            out@ == distinct(all.take(i as int)),
        decreases a@.len() - i,
    {
        let x = a[i];
        assert(all.take(i + 1).drop_last() =~= all.take(i as int));
        assert(all.take(i + 1).last() == x);
        if !contains_peer(&out, x) {
            out.push(x);
        }
        i = i + 1;
    }
    let mut j: usize = 0;
    while j < b.len()
        invariant
            j <= b@.len(),
            all == a@ + b@,
            out@ == distinct(all.take(a@.len() + j)),
        decreases b@.len() - j,
    {
        let x = b[j];
        assert(all.take(a@.len() + j + 1).drop_last() =~= all.take(a@.len() + j));
        assert(all.take(a@.len() + j + 1).last() == x);
        if !contains_peer(&out, x) {
            out.push(x);
        }
        j = j + 1;
    }
    assert(all.take((a@.len() + b@.len()) as int) =~= all);
    out
}

impl RPS {
    /// The state is that of a node.
    pub open spec fn wf(&self) -> bool {
        self@.inv()
    }

    /// Mixes a received view into the node's own.
    fn integrate(&mut self, received: &Vec<PeerRef>, dice: &mut Dice)
        requires
            old(self).wf(),
            peers_within(received@, old(self).n_nodes as nat),
        ensures
            final(self).wf(),
            (final(self)@, *final(dice)) == old(self)@.integrate(received@, *old(dice)),
            old(dice).same_stream(*final(dice)),
            final(self).n_nodes == old(self).n_nodes,
    {
        if !self.is_byzantine {
            let joined = join_distinct(&self.view, received);
            proof {
                lemma_distinct(self.view@ + received@);
                assert forall|x: PeerRef| joined@.contains(x) implies x < self.n_nodes by {
                    lemma_distinct_contains(self.view@ + received@, x);
                    let all = self.view@ + received@;
                    let c = choose|c: int| 0 <= c < all.len() && all[c] == x;
                    if c < self.view@.len() {
                        assert(self.view@[c] == x);
                    } else {
                        assert(received@[c - self.view@.len()] == x);
                    }
                }
            }
            let ghost whole = joined@;
            let mut view = joined;
            shuffle(&mut view, dice);
            let ghost mixed = view@;
            view.truncate(self.params.view_size);
            proof {
                assert(view@ =~= if mixed.len() <= self.params.view_size {
                    mixed
                } else {
                    mixed.take(self.params.view_size as int)
                });
                assert forall|i: int| 0 <= i < view@.len() implies view@[i] < self.n_nodes
                    && view@.to_set().contains(view@[i]) by {
                    let x = view@[i];
                    assert(mixed[i] == x);
                    assert(mixed.contains(x));
                    vstd::seq_lib::to_multiset_contains(mixed, x);
                    vstd::seq_lib::to_multiset_contains(whole, x);
                    assert(whole.contains(x));
                    assert(view@.contains(x));
                }
            }
            self.view = view;
            self.witnessed = Ghost(self.witnessed@.union(self.view@.to_set()));
        }
    }
}

impl App for RPS {
    type Init = Init;

    type Msg = Msg;

    type Metrics = Metrics;

    open spec fn init_ok(init: &Init, n: nat) -> bool {
        init.ok(n)
    }

    open spec fn blank(&self) -> bool {
        self@ == State::blank()
    }

    open spec fn inv(&self) -> bool {
        self.wf()
    }

    open spec fn nodes(&self) -> nat {
        self.n_nodes as nat
    }

    open spec fn msg_ok(msg: Note, n: nat) -> bool {
        note_ok(msg, n)
    }

    open spec fn new_spec() -> State {
        State::blank()
    }

    open spec fn init_spec(s: State, net: NetModel<Note>, id: PeerRef, init: Init) -> (
        State,
        NetModel<Note>,
    ) {
        s.init(net, id, init)
    }

    open spec fn handle_spec(s: State, net: NetModel<Note>, from: PeerRef, msg: Note) -> (
        State,
        NetModel<Note>,
    ) {
        s.handle(net, from, msg)
    }

    open spec fn metrics_spec(s: State, net: NetModel<Note>) -> (State, Metrics) {
        (s, s.metrics())
    }

    open spec fn observe_spec(s: State, total: Metrics) -> State {
        s
    }

    fn new() -> (r: Self) {
        Self {
            params: Init { n_byzantine: 0, view_size: 0, count: 0, period: 0 },
            n_nodes: 0,
            my_id: 0,
            counter: 0,
            is_byzantine: false,
            view: Vec::new(),
            witnessed: Ghost(Set::empty()),
        }
    }

    fn init(&mut self, id: PeerRef, net: &mut Network<Msg>, init: &Init) {
        self.params = *init;
        self.n_nodes = net.n_nodes;
        self.my_id = id;
        self.is_byzantine = id < init.n_byzantine;
        if self.is_byzantine {
            let known = if init.n_byzantine <= net.n_nodes {
                init.n_byzantine
            } else {
                net.n_nodes
            };
            let size = if init.view_size <= known {
                init.view_size
            } else {
                known
            };
            self.view = peers_upto(size);
        } else {
            self.view = net.sample_peers(self.params.view_size);
            proof {
                assert(net@ == old(net)@.with_dice(net.dice));
                lemma_redice(old(net)@, net.dice);
            }
        }
        proof {
            assert forall|i: int| 0 <= i < self.view@.len() implies self.view@.to_set().contains(
                self.view@[i],
            ) by {
                assert(self.view@.contains(self.view@[i]));
            }
        }
        self.witnessed = Ghost(self.witnessed@.union(self.view@.to_set()));
        net.send(id, Msg::SelfNotif);
    }

    fn handle(&mut self, net: &mut Network<Msg>, from: PeerRef, msg: &Msg) {
        match msg {
            Msg::SelfNotif => {
                let i = net.dice.roll(self.view.len() as u64) as usize;
                proof {
                    assert(net@ == old(net)@.with_dice(net.dice));
                    lemma_redice(old(net)@, net.dice);
                }
                net.send(self.view[i], Msg::Step1(copy_peers(&self.view)));
                net.send(self.my_id, Msg::SelfNotif);
            },
            Msg::Step1(received) => {
                net.send(from, Msg::Step2(copy_peers(&self.view)));
                let ghost replied = net@;
                self.integrate(received, &mut net.dice);
                proof {
                    assert(net@ == replied.with_dice(net.dice));
                    lemma_redice(replied, net.dice);
                }
            },
            Msg::Step2(received) => {
                self.integrate(received, &mut net.dice);
                proof {
                    assert(net@ == old(net)@.with_dice(net.dice));
                    lemma_redice(old(net)@, net.dice);
                }
            },
        }
    }

    fn metrics(&mut self, net: &Network<Msg>) -> (r: Metrics) {
        if self.is_byzantine {
            return <Metrics as crate::net::Metrics>::empty();
        }
        let n = self.view.len();
        let mut neighbors: usize = 0;
        let mut i: usize = 0;
        while i < n
            invariant
                i <= n,
                n == self.view@.len(),
                *self == *old(self),
                neighbors <= i,
                neighbors == byzantine_count(self.view@.take(i as int), self.params.n_byzantine),
            decreases n - i,
        {
            assert(self.view@.take(i + 1).drop_last() =~= self.view@.take(i as int));
            if self.view[i] < self.params.n_byzantine {
                neighbors = neighbors + 1;
            }
            i = i + 1;
        }
        assert(self.view@.take(n as int) =~= self.view@);
        Metrics {
            n_procs: 1,
            n_byzantine_neighbors: neighbors,
            n_isolated: if neighbors == n {
                1
            } else {
                0
            },
        }
    }

    fn observe(&mut self, total: &Metrics) {
    }
}

impl crate::rps::RPS for RPS {
    open spec fn samples_spec(s: State, dice: Dice) -> (State, Dice, Seq<PeerRef>) {
        s.samples(dice)
    }

    open spec fn cleared_spec(s: State) -> State {
        State { witnessed: s.view.to_set(), ..s }
    }

    open spec fn witnessed(s: State) -> Set<PeerRef> {
        s.witnessed
    }

    /// Hands out `count` peers drawn from the view at every `period`-th
    /// call, and nothing at the other calls. Besides what every sampling
    /// service promises: the call is counted, the samples are peers of the
    /// view as it was, as many as asked for or all of it, and the view
    /// holds the same peers afterwards.
    fn get_samples(&mut self, dice: &mut Dice) -> (r: Vec<PeerRef>)
        ensures
            final(self)@.counter == sat_add(old(self)@.counter, 1),
            r@.len() == if !on_phase(
                final(self)@.counter,
                old(self)@.my_id,
                old(self)@.params.period,
            ) {
                0
            } else if old(self)@.params.count >= old(self)@.view.len() {
                old(self)@.view.len()
            } else {
                old(self)@.params.count as nat
            },
            forall|x: PeerRef| r@.contains(x) ==> old(self)@.view.contains(x),
            old(self)@.view.no_duplicates() ==> r@.no_duplicates(),
            final(self)@.view.to_multiset() == old(self)@.view.to_multiset(),
    {
        let period = self.params.period as u128;
        self.counter = add_capped(self.counter, 1);
        if (self.counter as u128 + self.my_id as u128) % period == 0 {
            let ghost before = self.view@;
            let r = sample_nocopy(&mut self.view, self.params.count, dice);
            proof {
                assert forall|i: int| 0 <= i < self.view@.len() implies self.view@[i]
                    < self.n_nodes && self.witnessed@.contains(self.view@[i]) by {
                    let x = self.view@[i];
                    assert(self.view@.contains(x));
                    vstd::seq_lib::to_multiset_contains(self.view@, x);
                    vstd::seq_lib::to_multiset_contains(before, x);
                    assert(before.contains(x));
                }
                assert forall|i: int| 0 <= i < r@.len() implies r@[i] < self.n_nodes
                    && self.witnessed@.contains(r@[i]) by {
                    assert(r@.contains(r@[i]));
                    assert(before.contains(r@[i]));
                }
            }
            r
        } else {
            Vec::new()
        }
    }

    /// The protocol holds no samples back, so there is nothing to discard.
    fn clear_samples(&mut self) {
        proof {
            assert forall|i: int| 0 <= i < self.view@.len() implies self.view@.to_set().contains(
                self.view@[i],
            ) by {
                assert(self.view@.contains(self.view@[i]));
            }
        }
        self.witnessed = Ghost(self.view@.to_set());
    }
}

} // verus!
