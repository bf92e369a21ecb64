//! Avalanche binary consensus on top of a random peer sampling service.
//!
//! A correct node repeatedly queries `k` sampled peers for their preferred
//! value. A round in which more than the fraction `beta` of the replies
//! agree on a value is a proposal for that value: a proposal for the
//! node's own value lengthens its streak of confirmations, any other
//! proposal shortens it, and a node without a streak adopts the proposal.
//! A node whose streak reaches `theta` decides, once and for all.

use vstd::prelude::*;
use vstd::string::*;
use crate::net::{App, Envelope, Letter, NetModel, Network};
use crate::peer_map::{listing, PeerMap};
use crate::rps::RPS;
use crate::text::{decimal, to_decimal};
use crate::util::{add_capped, lemma_sat_add, sat_add, PeerRef};

verus! {

/// The messages of the protocol: the tick that a correct node sends to
/// itself at every step, a query, a reply with the preferred value, and a
/// message of the sampling service underneath.
pub enum Msg<M> {
    SelfNotif,
    Pull,
    Push(bool),
    RPSMsg(M),
}

/// What a [`Msg`] stands for.
pub enum Note<P> {
    SelfNotif,
    Pull,
    Push(bool),
    RPSMsg(P),
}

impl<M: View> View for Msg<M> {
    type V = Note<M::V>;

    open spec fn view(&self) -> Note<M::V> {
        match self {
            Msg::SelfNotif => Note::SelfNotif,
            Msg::Pull => Note::Pull,
            Msg::Push(v) => Note::Push(*v),
            Msg::RPSMsg(m) => Note::RPSMsg(m@),
        }
    }
}

/// What the Byzantine nodes do when they are queried.
#[derive(Clone, Copy, Debug, PartialEq, Eq, Structural)]
pub enum Scenario {
    /// They do not reply.
    Absent,
    /// They reply `true`, whatever the correct nodes prefer.
    Disagreeing,
    /// They reply with the value that fewer correct nodes prefer.
    Adaptive,
}

impl Default for Scenario {
    fn default() -> (r: Self)
        ensures
            r == Scenario::Absent,
    {
        Scenario::Absent
    }
}

/// The text that `from_str` returns for a name that is not a scenario.
pub open spec fn invalid_scenario() -> Seq<char> {
    "invalid byzantine behaviour"@
}

/// The scenario that a name stands for, if any.
pub open spec fn scenario_named(name: Seq<char>) -> Option<Scenario> {
    if name == "absent"@ {
        Some(Scenario::Absent)
    } else if name == "disagreeing"@ {
        Some(Scenario::Disagreeing)
    } else if name == "adaptive"@ {
        Some(Scenario::Adaptive)
    } else {
        None
    }
}

/// Whether two texts are the same.
fn same_text(a: &str, b: &str) -> (r: bool)
    ensures
        r == (a@ == b@),
{
    let n = a.unicode_len();
    if n != b.unicode_len() {
        return false;
    }
    let mut i: usize = 0;
    while i < n
        invariant
            i <= n,
            n == a@.len(),
            n == b@.len(),
            forall|j: int| 0 <= j < i ==> a@[j] == b@[j],
        decreases n - i,
    {
        if a.get_char(i) != b.get_char(i) {
            return false;
        }
        i = i + 1;
    }
    assert(a@ =~= b@);
    true
}

impl Scenario {
    /// Reads a scenario from its name: `absent`, `disagreeing` or
    /// `adaptive`.
    pub fn from_str(s: &str) -> (r: Result<Scenario, &'static str>)
        ensures
            match scenario_named(s@) {
                Some(scenario) => r == Ok::<Scenario, &'static str>(scenario),
                None => r is Err && r->Err_0@ == invalid_scenario(),
            },
    {
        if same_text(s, "absent") {
            Ok(Scenario::Absent)
        } else if same_text(s, "disagreeing") {
            Ok(Scenario::Disagreeing)
        } else if same_text(s, "adaptive") {
            Ok(Scenario::Adaptive)
        } else {
            Err("invalid byzantine behaviour")
        }
    }
}

/// The parameters of the protocol.
#[derive(Clone, Copy, Debug)]
pub struct InitArgs {
    /// Number of Byzantine nodes: those with the lowest identities.
    pub n_byzantine: usize,
    /// Number of correct nodes that start with the value `true`: those
    /// with the lowest identities among the correct nodes.
    pub n_disagreeing: usize,
    /// What the Byzantine nodes do.
    pub scenario: Scenario,
    /// Number of peers queried in a round.
    pub k: usize,
    /// Number of replies from which on a round is evaluated.
    pub alpha_k: usize,
    /// Numerator of the fraction `beta` of the replies that a value needs
    /// to exceed to become a proposal.
    pub beta_num: u64,
    /// Denominator of the fraction `beta`.
    pub beta_den: u64,
    /// Length of the streak of confirmations at which a node decides.
    pub theta: usize,
    /// The time at which the nodes start to query.
    pub start_time: u64,
}

/// The parameters of the protocol and of the sampling service underneath.
pub struct Init<T: App + RPS> {
    pub args: InitArgs,
    pub rps_args: T::Init,
}

/// Number of steps that a node waits after a query before the next one.
pub const COOL_DOWN: usize = 2;

/// The state of one node.
pub struct Avalanche<T: App + RPS> {
    pub params: InitArgs,
    pub rps: T,
    /// The numbers of correct nodes that preferred `false` and `true` when
    /// the population was last measured.
    pub observed: (usize, usize),
    pub n_nodes: usize,
    pub my_id: PeerRef,
    pub is_byzantine: bool,
    pub rps_set: Vec<PeerRef>,
    pub query_set: PeerMap<()>,
    pub reply_set: PeerMap<bool>,
    pub value: bool,
    pub timeout: usize,
    pub counter: usize,
    pub decided: Option<bool>,
}

/// What an [`Avalanche`] stands for.
pub struct Model<R> {
    pub params: InitArgs,
    pub rps: R,
    pub observed: (usize, usize),
    pub n_nodes: usize,
    pub my_id: PeerRef,
    pub is_byzantine: bool,
    pub rps_set: Seq<PeerRef>,
    pub query_set: Set<PeerRef>,
    pub reply_set: Map<PeerRef, bool>,
    pub value: bool,
    pub timeout: usize,
    pub counter: usize,
    pub decided: Option<bool>,
}

impl<T: App + RPS> View for Avalanche<T> {
    type V = Model<T::V>;

    open spec fn view(&self) -> Model<T::V> {
        Model {
            params: self.params,
            rps: self.rps@,
            observed: self.observed,
            n_nodes: self.n_nodes,
            my_id: self.my_id,
            is_byzantine: self.is_byzantine,
            rps_set: self.rps_set@,
            query_set: self.query_set@.dom(),
            reply_set: self.reply_set@,
            value: self.value,
            timeout: self.timeout,
            counter: self.counter,
            decided: self.decided,
        }
    }
}

/// The number of entries of a list of replies that carry the value `v`.
pub open spec fn votes_in(replies: Seq<(PeerRef, bool)>, v: bool) -> nat
    decreases replies.len(),
{
    if replies.len() == 0 {
        0
    } else {
        votes_in(replies.drop_last(), v) + if replies.last().1 == v {
            1nat
        } else {
            0nat
        }
    }
}

/// The number of replies that carry the value `v`.
pub open spec fn votes(replies: Map<PeerRef, bool>, v: bool) -> nat {
    votes_in(listing(replies), v)
}

/// Whether `count` of `total` replies are more than the fraction
/// `num / den` of them.
pub open spec fn exceeds(count: nat, total: nat, num: u64, den: u64) -> bool {
    count * den > num * total
}

/// The value that a set of replies proposes, if any: one that more than
/// the fraction `beta` of the replies carry; `false` where both do.
pub open spec fn proposal(replies: Map<PeerRef, bool>, args: InitArgs) -> Option<bool> {
    let total = replies.dom().len();
    if exceeds(votes(replies, false), total, args.beta_num, args.beta_den) {
        Some(false)
    } else if exceeds(votes(replies, true), total, args.beta_num, args.beta_den) {
        Some(true)
    } else {
        None
    }
}

/// The network as the sampling service underneath sees it: the same
/// population, node, time and stream of draws, and nothing queued.
pub open spec fn proxy_of<P, Q>(net: NetModel<P>) -> NetModel<Q> {
    NetModel { n_nodes: net.n_nodes, me: net.me, now: net.now, dice: net.dice, outbox: Seq::empty() }
}

/// A message of the sampling service, as this protocol carries it.
pub open spec fn wrap<P>(l: Letter<P>) -> Letter<Note<P>> {
    Letter {
        dst: l.dst,
        src: l.src,
        payload: Note::RPSMsg(l.payload),
        delivery_time: l.delivery_time,
    }
}

/// The network after the sampling service has worked on its proxy
/// `inner`: the stream is where the service left it, and what the service
/// has queued is queued here, each message wrapped.
pub open spec fn absorbed<P>(net: NetModel<Note<P>>, inner: NetModel<P>) -> NetModel<Note<P>> {
    NetModel {
        dice: inner.dice,
        outbox: net.outbox + inner.outbox.map_values(|l: Letter<P>| wrap(l)),
        ..net
    }
}

/// The samples left, the peers queried and the network after a node has
/// taken `k` samples from the end of `pool`, or all where it holds fewer:
/// the peers taken join the set of the peers queried, and each of them is
/// sent one query when it joins.
pub open spec fn queried<P>(
    pool: Seq<PeerRef>,
    asked: Set<PeerRef>,
    k: nat,
    net: NetModel<Note<P>>,
) -> (Seq<PeerRef>, Set<PeerRef>, NetModel<Note<P>>)
    decreases k,
{
    if k == 0 || pool.len() == 0 {
        (pool, asked, net)
    } else {
        queried(
            pool.drop_last(),
            asked.insert(pool.last()),
            (k - 1) as nat,
            if asked.contains(pool.last()) {
                net
            } else {
                net.sent(pool.last(), Note::Pull)
            },
        )
    }
}

/// The number of samples that a query for `k` peers takes from a pool of
/// `len` samples.
pub open spec fn taken(k: nat, len: nat) -> nat {
    if k <= len {
        k
    } else {
        len
    }
}

/// A query takes no more than `k` samples, from the end of the pool: what
/// is left is the beginning of the pool, and the peers queried are the
/// peers taken.
pub proof fn lemma_queried<P>(
    pool: Seq<PeerRef>,
    asked: Set<PeerRef>,
    k: nat,
    net: NetModel<Note<P>>,
)
    ensures
        queried(pool, asked, k, net).0 == pool.take(pool.len() - taken(k, pool.len())),
        queried(pool, asked, k, net).1 == asked.union(
            pool.skip(pool.len() - taken(k, pool.len())).to_set(),
        ),
        queried(pool, asked, k, net).2.outbox.len() <= net.outbox.len() + taken(k, pool.len()),
    decreases k,
{
    let m = taken(k, pool.len());
    if k == 0 || pool.len() == 0 {
        assert(pool.take(pool.len() as int) =~= pool);
        assert(asked.union(pool.skip(pool.len() as int).to_set()) =~= asked);
    } else {
        let p = pool.last();
        let rest = pool.drop_last();
        let next = if asked.contains(p) {
            net
        } else {
            net.sent(p, Note::Pull)
        };
        lemma_queried(rest, asked.insert(p), (k - 1) as nat, next);
        let cut = pool.len() - m;
        assert(taken((k - 1) as nat, rest.len()) == m - 1);
        assert(rest.take(cut) =~= pool.take(cut));
        assert(pool.skip(cut) =~= rest.skip(cut).push(p));
        assert forall|x: PeerRef|
            asked.insert(p).union(rest.skip(cut).to_set()).contains(x) <==> asked.union(
                pool.skip(cut).to_set(),
            ).contains(x) by {
            let a = rest.skip(cut);
            let b = pool.skip(cut);
            if a.contains(x) {
                let i = choose|i: int| 0 <= i < a.len() && a[i] == x;
                assert(b[i] == x);
            }
            if b.contains(x) {
                let i = choose|i: int| 0 <= i < b.len() && b[i] == x;
                if i < a.len() {
                    assert(a[i] == x);
                }
            }
            assert(b[b.len() - 1] == p);
        }
        assert(asked.insert(p).union(rest.skip(cut).to_set()) =~= asked.union(
            pool.skip(cut).to_set(),
        ));
    }
}

/// The state and the network after a node that has not decided has turned
/// to its sampling service: before the start time it has the service
/// discard its samples, from then on it adds the fresh samples to its own.
pub open spec fn fetched<T: App + RPS>(
    s: Model<T::V>,
    net: NetModel<Note<<T::Msg as View>::V>>,
) -> (Model<T::V>, NetModel<Note<<T::Msg as View>::V>>) {
    if net.now < s.params.start_time {
        (Model { rps: T::cleared_spec(s.rps), ..s }, net)
    } else {
        let got = T::samples_spec(s.rps, net.dice);
        (Model { rps: got.0, rps_set: s.rps_set + got.2, ..s }, net.with_dice(got.1))
    }
}

/// The state and the network after the tick of a correct node. A node
/// that has decided only sends its next tick. Any other node turns to its
/// sampling service; then it starts a query if it is not cooling down, the
/// start time has come and it holds at least `k` samples, and else cools
/// down by one step.
pub open spec fn tick<T: App + RPS>(
    s: Model<T::V>,
    net: NetModel<Note<<T::Msg as View>::V>>,
) -> (Model<T::V>, NetModel<Note<<T::Msg as View>::V>>) {
    if s.decided is Some {
        (s, net.sent(s.my_id, Note::SelfNotif))
    } else {
        let a = fetched::<T>(s, net);
        if a.0.timeout == 0 && net.now >= s.params.start_time && a.0.rps_set.len() >= s.params.k {
            let q = queried(a.0.rps_set, Set::empty(), s.params.k as nat, a.1);
            (
                Model {
                    rps_set: q.0,
                    query_set: q.1,
                    reply_set: Map::empty(),
                    timeout: COOL_DOWN,
                    ..a.0
                },
                q.2.sent(s.my_id, Note::SelfNotif),
            )
        } else if a.0.timeout > 0 {
            (Model { timeout: (a.0.timeout - 1) as usize, ..a.0 }, a.1.sent(s.my_id, Note::SelfNotif))
        } else {
            (a.0, a.1.sent(s.my_id, Note::SelfNotif))
        }
    }
}

/// The value that a correct node replies with: its decision if it has
/// decided, else the value it prefers.
pub open spec fn answer<R>(s: Model<R>) -> bool {
    match s.decided {
        Some(d) => d,
        None => s.value,
    }
}

/// The state after a proposal for `p` was formed: a proposal for the
/// node's own value lengthens its streak, and a streak of `theta` makes a
/// node that has not decided decide for its value; any other proposal
/// shortens the streak, and a node without a streak adopts the proposal.
pub open spec fn judged<R>(s: Model<R>, p: bool) -> Model<R> {
    if s.value == p {
        let counter = sat_add(s.counter, 1);
        Model {
            counter,
            decided: if counter >= s.params.theta && s.decided is None {
                Some(s.value)
            } else {
                s.decided
            },
            ..s
        }
    } else {
        let counter = if s.counter > 0 {
            (s.counter - 1) as usize
        } else {
            0
        };
        Model {
            counter,
            value: if counter == 0 {
                p
            } else {
                s.value
            },
            ..s
        }
    }
}

/// The state after a correct node has received the value `v` from `from`:
/// the reply of a peer that was queried is recorded, and once `alpha_k`
/// replies are on record, the node acts on what they propose.
pub open spec fn on_push<R>(s: Model<R>, from: PeerRef, v: bool) -> Model<R> {
    let heard = if s.query_set.contains(from) {
        Model { reply_set: s.reply_set.insert(from, v), ..s }
    } else {
        s
    };
    if heard.reply_set.dom().len() >= s.params.alpha_k {
        match proposal(heard.reply_set, s.params) {
            Some(p) => judged(heard, p),
            None => heard,
        }
    } else {
        heard
    }
}

/// The network after a Byzantine node was queried by `from`.
pub open spec fn byzantine_answer<R, P>(s: Model<R>, net: NetModel<Note<P>>, from: PeerRef) -> NetModel<
    Note<P>,
> {
    match s.params.scenario {
        Scenario::Absent => net,
        Scenario::Disagreeing => net.sent(from, Note::Push(true)),
        Scenario::Adaptive => net.sent(from, Note::Push(s.observed.0 > s.observed.1)),
    }
}

/// The state and the network after a message was handled. A message of
/// the sampling service goes to the service, which sees the network
/// through a proxy.
pub open spec fn handled<T: App + RPS>(
    s: Model<T::V>,
    net: NetModel<Note<<T::Msg as View>::V>>,
    from: PeerRef,
    msg: Note<<T::Msg as View>::V>,
) -> (Model<T::V>, NetModel<Note<<T::Msg as View>::V>>) {
    match msg {
        Note::RPSMsg(m) => {
            let r = T::handle_spec(s.rps, proxy_of(net), from, m);
            (Model { rps: r.0, ..s }, absorbed(net, r.1))
        },
        Note::SelfNotif => if s.is_byzantine {
            (s, net)
        } else {
            tick::<T>(s, net)
        },
        Note::Pull => if s.is_byzantine {
            (s, byzantine_answer(s, net, from))
        } else {
            (s, net.sent(from, Note::Push(answer(s))))
        },
        Note::Push(v) => if s.is_byzantine {
            (s, net)
        } else {
            (on_push(s, from, v), net)
        },
    }
}

/// The message names only nodes of a population of `n`.
pub open spec fn note_ok<T: App>(msg: Note<<T::Msg as View>::V>, n: nat) -> bool {
    match msg {
        Note::RPSMsg(m) => T::msg_ok(m, n),
        _ => true,
    }
}

/// The network is in order for this protocol.
pub open spec fn net_ok<T: App>(net: NetModel<Note<<T::Msg as View>::V>>) -> bool {
    &&& net.wf()
    &&& net.me < net.n_nodes
    &&& net.each_letter(|p: Note<<T::Msg as View>::V>| note_ok::<T>(p, net.n_nodes as nat))
}

/// A network that has absorbed what an orderly proxy holds is in order.
pub proof fn lemma_absorbed<T: App>(
    net: NetModel<Note<<T::Msg as View>::V>>,
    before: NetModel<<T::Msg as View>::V>,
    inner: NetModel<<T::Msg as View>::V>,
)
    requires
        net_ok::<T>(net),
        before == proxy_of::<Note<<T::Msg as View>::V>, <T::Msg as View>::V>(net),
        inner.follows(before),
        inner.wf(),
        inner.each_letter(|p: <T::Msg as View>::V| T::msg_ok(p, net.n_nodes as nat)),
    ensures
        net_ok::<T>(absorbed(net, inner)),
        absorbed(net, inner).follows(net),
{
    let after = absorbed(net, inner);
    assert forall|i: int| 0 <= i < after.outbox.len() implies (#[trigger] after.outbox[i]).dst
        < after.n_nodes && after.outbox[i].src < after.n_nodes && after.outbox[i].delivery_time
        == after.now + 1 && note_ok::<T>(after.outbox[i].payload, after.n_nodes as nat) by {
        if i < net.outbox.len() {
            assert(after.outbox[i] == net.outbox[i]);
        } else {
            let j = i - net.outbox.len();
            assert(after.outbox[i] == wrap(inner.outbox[j]));
        }
    }
}

/// Queues what the proxy `inner` holds, each message wrapped, and moves
/// on to where `inner` has left the stream of draws.
fn absorb<N: View>(net: &mut Network<Msg<N>>, inner: Network<N>)
    ensures
        final(net)@ == absorbed(old(net)@, inner@),
{
    let ghost target = absorbed(net@, inner@);
    let Network { n_nodes: _, me: _, now: _, dice, outbox } = inner;
    let mut outbox = outbox;
    let ghost items = outbox@;
    let n = outbox.len();
    let mut stack: Vec<Envelope<N>> = Vec::with_capacity(n);
    while outbox.len() > 0
        invariant
            n == items.len(),
            outbox@.len() + stack@.len() == n,
            outbox@ == items.take(outbox@.len() as int),
            forall|j: int| 0 <= j < stack@.len() ==> stack@[j] == items[n - 1 - j],
        decreases outbox@.len(),
    {
        let e = outbox.pop().unwrap();
        stack.push(e);
    }
    net.dice = dice;
    let ghost base = net@.outbox;
    while stack.len() > 0
        invariant
            n == items.len(),
            stack@.len() <= n,
            forall|j: int| 0 <= j < stack@.len() ==> stack@[j] == items[n - 1 - j],
            net@.outbox == base + items.take(n - stack@.len()).map_values(
                |e: Envelope<N>| wrap(e@),
            ),
            net.n_nodes == old(net).n_nodes,
            net.me == old(net).me,
            net.now == old(net).now,
            net.dice == dice,
        decreases stack@.len(),
    {
        let ghost done = n - stack@.len();
        let ghost prev = net@.outbox;
        let e = stack.pop().unwrap();
        assert(e == items[done]);
        let ghost letter = wrap(e@);
        net.outbox.push(
            Envelope {
                dst: e.dst,
                src: e.src,
                payload: Msg::RPSMsg(e.payload),
                delivery_time: e.delivery_time,
            },
        );
        assert(net@.outbox =~= prev.push(letter));
        assert(items.take(done + 1).map_values(|e: Envelope<N>| wrap(e@)) =~= items.take(
            done,
        ).map_values(|e: Envelope<N>| wrap(e@)).push(letter));
        assert(net@.outbox =~= base + items.take(done + 1).map_values(|e: Envelope<N>| wrap(e@)));
    }
    assert(items.take(n as int) == items);
    assert(net@.outbox =~= target.outbox);
}

/// The measurements of a set of nodes: how many correct nodes it counts,
/// how many of them prefer each value, how many have decided for each
/// value, and what the sampling service underneath has measured.
pub struct Metrics<M> {
    pub n_procs: usize,
    pub n_true: usize,
    pub n_false: usize,
    pub n_decided_true: usize,
    pub n_decided_false: usize,
    pub rps_metrics: M,
}

/// What a [`Metrics`] stands for.
pub struct Census<R> {
    pub n_procs: usize,
    pub n_true: usize,
    pub n_false: usize,
    pub n_decided_true: usize,
    pub n_decided_false: usize,
    pub rps_metrics: R,
}

impl<M: View> View for Metrics<M> {
    type V = Census<M::V>;

    open spec fn view(&self) -> Census<M::V> {
        Census {
            n_procs: self.n_procs,
            n_true: self.n_true,
            n_false: self.n_false,
            n_decided_true: self.n_decided_true,
            n_decided_false: self.n_decided_false,
            rps_metrics: self.rps_metrics@,
        }
    }
}

impl<M: crate::net::Metrics> crate::net::Metrics for Metrics<M> {
    open spec fn empty_spec() -> Census<M::V> {
        Census {
            n_procs: 0,
            n_true: 0,
            n_false: 0,
            n_decided_true: 0,
            n_decided_false: 0,
            rps_metrics: M::empty_spec(),
        }
    }

    open spec fn combine_spec(a: Census<M::V>, b: Census<M::V>) -> Census<M::V> {
        Census {
            n_procs: sat_add(a.n_procs, b.n_procs),
            n_true: sat_add(a.n_true, b.n_true),
            n_false: sat_add(a.n_false, b.n_false),
            n_decided_true: sat_add(a.n_decided_true, b.n_decided_true),
            n_decided_false: sat_add(a.n_decided_false, b.n_decided_false),
            rps_metrics: M::combine_spec(a.rps_metrics, b.rps_metrics),
        }
    }

    open spec fn headers_spec() -> Seq<Seq<char>> {
        seq!["nTrue"@, "nFalse"@, "decTrue"@, "decFalse"@] + M::headers_spec()
    }

    open spec fn values_spec(a: Census<M::V>) -> Seq<Seq<char>> {
        seq![
            decimal(a.n_true as nat),
            decimal(a.n_false as nat),
            decimal(a.n_decided_true as nat),
            decimal(a.n_decided_false as nat),
        ] + M::values_spec(a.rps_metrics)
    }

    fn empty() -> (r: Self) {
        Metrics {
            n_procs: 0,
            n_true: 0,
            n_false: 0,
            n_decided_true: 0,
            n_decided_false: 0,
            rps_metrics: M::empty(),
        }
    }

    fn net_combine(&mut self, other: &Self) {
        self.n_procs = add_capped(self.n_procs, other.n_procs);
        self.n_true = add_capped(self.n_true, other.n_true);
        self.n_false = add_capped(self.n_false, other.n_false);
        self.n_decided_true = add_capped(self.n_decided_true, other.n_decided_true);
        self.n_decided_false = add_capped(self.n_decided_false, other.n_decided_false);
        self.rps_metrics.net_combine(&other.rps_metrics);
    }

    fn headers() -> (r: Vec<&'static str>) {
        let mut ret = vec!["nTrue", "nFalse", "decTrue", "decFalse"];
        let mut more = M::headers();
        ret.append(&mut more);
        ret
    }

    fn values(&self) -> (r: Vec<String>) {
        let mut ret = vec![
            to_decimal(self.n_true as u128),
            to_decimal(self.n_false as u128),
            to_decimal(self.n_decided_true as u128),
            to_decimal(self.n_decided_false as u128),
        ];
        let mut more = self.rps_metrics.values();
        ret.append(&mut more);
        ret
    }

    proof fn lemma_columns(a: Census<M::V>) {
        M::lemma_columns(a.rps_metrics);
    }

    proof fn lemma_combine_empty(a: Census<M::V>) {
        M::lemma_combine_empty(a.rps_metrics);
    }

    proof fn lemma_combine_commutes(a: Census<M::V>, b: Census<M::V>) {
        M::lemma_combine_commutes(a.rps_metrics, b.rps_metrics);
    }

    proof fn lemma_combine_associates(a: Census<M::V>, b: Census<M::V>, c: Census<M::V>) {
        M::lemma_combine_associates(a.rps_metrics, b.rps_metrics, c.rps_metrics);
        lemma_sat_add(a.n_procs, b.n_procs, c.n_procs);
        lemma_sat_add(a.n_true, b.n_true, c.n_true);
        lemma_sat_add(a.n_false, b.n_false, c.n_false);
        lemma_sat_add(a.n_decided_true, b.n_decided_true, c.n_decided_true);
        lemma_sat_add(a.n_decided_false, b.n_decided_false, c.n_decided_false);
    }
}

/// Decides [`exceeds`].
fn is_exceeding(count: usize, total: usize, num: u64, den: u64) -> (r: bool)
    ensures
        r == exceeds(count as nat, total as nat, num, den),
{
    let c = count as u128;
    let t = total as u128;
    let n = num as u128;
    let d = den as u128;
    assert(c * d <= 0xffff_ffff_ffff_ffff * 0xffff_ffff_ffff_ffff) by (nonlinear_arith)
        requires
            c <= 0xffff_ffff_ffff_ffff,
            d <= 0xffff_ffff_ffff_ffff,
    ;
    assert(n * t <= 0xffff_ffff_ffff_ffff * 0xffff_ffff_ffff_ffff) by (nonlinear_arith)
        requires
            n <= 0xffff_ffff_ffff_ffff,
            t <= 0xffff_ffff_ffff_ffff,
    ;
    c * d > n * t
}

impl<T: App + RPS> Avalanche<T> {
    /// The sampling service and the sets are in order, and the state is
    /// that of a node.
    pub open spec fn wf(&self) -> bool {
        &&& self.rps.inv()
        &&& self.rps.nodes() == self.n_nodes
        &&& self.query_set.wf()
        &&& self.reply_set.wf()
        &&& self.my_id < self.n_nodes
        &&& self.is_byzantine == (self.my_id < self.params.n_byzantine)
        &&& forall|i: int| 0 <= i < self.rps_set@.len() ==> self.rps_set@[i] < self.n_nodes
    }

    /// The value that a set of replies proposes, if any.
    fn propose(&self) -> (r: Option<bool>)
        requires
            self.reply_set.wf(),
        ensures
            r == proposal(self@.reply_set, self@.params),
    {
        let n = self.reply_set.len();
        let mut yes: usize = 0;
        let mut no: usize = 0;
        let mut i: usize = 0;
        while i < n
            invariant
                i <= n,
                n == listing(self.reply_set@).len(),
                self.reply_set.wf(),
                yes <= i,
                no <= i,
                yes == votes_in(listing(self.reply_set@).take(i as int), true),
                no == votes_in(listing(self.reply_set@).take(i as int), false),
            decreases n - i,
        {
            let e = self.reply_set.entry(i);
            assert(listing(self.reply_set@).take(i + 1).drop_last() =~= listing(
                self.reply_set@,
            ).take(i as int));
            if e.1 {
                yes = yes + 1;
            } else {
                no = no + 1;
            }
            i = i + 1;
        }
        assert(listing(self.reply_set@).take(n as int) =~= listing(self.reply_set@));
        if is_exceeding(no, n, self.params.beta_num, self.params.beta_den) {
            Some(false)
        } else if is_exceeding(yes, n, self.params.beta_num, self.params.beta_den) {
            Some(true)
        } else {
            None
        }
    }

    /// Handles a value that a correct node has received.
    fn on_push(&mut self, from: PeerRef, v: bool)
        requires
            old(self).wf(),
        ensures
            final(self).wf(),
            final(self)@ == on_push(old(self)@, from, v),
            final(self).rps == old(self).rps,
            final(self).n_nodes == old(self).n_nodes,
    {
        if self.query_set.contains_key(from) {
            self.reply_set.insert(from, v);
        }
        if self.reply_set.len() >= self.params.alpha_k {
            match self.propose() {
                Some(p) => {
                    if self.value == p {
                        self.counter = add_capped(self.counter, 1);
                        if self.counter >= self.params.theta && self.decided.is_none() {
                            self.decided = Some(self.value);
                        }
                    } else {
                        if self.counter > 0 {
                            self.counter = self.counter - 1;
                        }
                        if self.counter == 0 {
                            self.value = p;
                        }
                    }
                },
                None => {},
            }
        }
    }

    /// Starts a query: takes `k` samples from the end of the pool, or all
    /// where it holds fewer, and sends each peer among them one query.
    fn query(&mut self, net: &mut Network<Msg<T::Msg>>)
        requires
            old(self).wf(),
            net_ok::<T>(old(net)@),
            old(net)@.n_nodes == old(self).n_nodes,
        ensures
            final(self).wf(),
            final(self)@ == (Model {
                rps_set: queried(
                    old(self)@.rps_set,
                    Set::empty(),
                    old(self)@.params.k as nat,
                    old(net)@,
                ).0,
                query_set: queried(
                    old(self)@.rps_set,
                    Set::empty(),
                    old(self)@.params.k as nat,
                    old(net)@,
                ).1,
                reply_set: Map::empty(),
                timeout: COOL_DOWN,
                ..old(self)@
            }),
            final(net)@ == queried(
                old(self)@.rps_set,
                Set::empty(),
                old(self)@.params.k as nat,
                old(net)@,
            ).2,
            net_ok::<T>(final(net)@),
            final(net)@.follows(old(net)@),
            final(self).rps == old(self).rps,
            final(self).n_nodes == old(self).n_nodes,
            final(self)@.rps_set == old(self)@.rps_set.take(
                old(self)@.rps_set.len() - taken(
                    old(self)@.params.k as nat,
                    old(self)@.rps_set.len(),
                ),
            ),
            final(self)@.query_set == old(self)@.rps_set.skip(
                old(self)@.rps_set.len() - taken(
                    old(self)@.params.k as nat,
                    old(self)@.rps_set.len(),
                ),
            ).to_set(),
    {
        let k = self.params.k;
        let n = self.n_nodes;
        let mut pool: Vec<PeerRef> = Vec::new();
        std::mem::swap(&mut self.rps_set, &mut pool);
        let mut asked: PeerMap<()> = PeerMap::new();
        let ghost goal = queried(pool@, Set::empty(), k as nat, net@);
        proof {
            assert(asked@.dom() =~= Set::empty());
            lemma_queried(pool@, Set::empty(), k as nat, net@);
            let cut = pool@.len() - taken(k as nat, pool@.len());
            assert(Set::<PeerRef>::empty().union(pool@.skip(cut).to_set()) =~= pool@.skip(
                cut,
            ).to_set());
        }
        let mut left: usize = k;
        while left > 0 && pool.len() > 0
            invariant
                asked.wf(),
                net_ok::<T>(net@),
                net@.n_nodes == n,
                net@.follows(old(net)@),
                forall|i: int| 0 <= i < pool@.len() ==> pool@[i] < n,
                queried(pool@, asked@.dom(), left as nat, net@) == goal,
            decreases left,
        {
            let ghost had = asked@.dom();
            let p = pool.pop().unwrap();
            if !asked.contains_key(p) {
                asked.insert(p, ());
                net.send(p, Msg::Pull);
            }
            assert(asked@.dom() =~= had.insert(p));
            left = left - 1;
        }
        proof {
            asked.lemma_wf();
        }
        self.rps_set = pool;
        self.query_set = asked;
        self.reply_set = PeerMap::new();
        self.timeout = COOL_DOWN;
    }

    /// Handles the tick of a correct node.
    fn tick(&mut self, net: &mut Network<Msg<T::Msg>>)
        requires
            old(self).wf(),
            net_ok::<T>(old(net)@),
            old(net)@.n_nodes == old(self).n_nodes,
        ensures
            final(self).wf(),
            (final(self)@, final(net)@) == tick::<T>(old(self)@, old(net)@),
            net_ok::<T>(final(net)@),
            final(net)@.follows(old(net)@),
            final(self).n_nodes == old(self).n_nodes,
    {
        if self.decided.is_none() {
            let now = net.time();
            if now < self.params.start_time {
                self.rps.clear_samples();
            } else {
                let mut got = self.rps.get_samples(&mut net.dice);
                assert(net@ == old(net)@.with_dice(net.dice));
                self.rps_set.append(&mut got);
            }
            if self.timeout == 0 && now >= self.params.start_time && self.rps_set.len()
                >= self.params.k {
                self.query(net);
            } else if self.timeout > 0 {
                self.timeout = self.timeout - 1;
            }
        }
        net.send(self.my_id, Msg::SelfNotif);
    }

    /// Replies to a query as the scenario has a Byzantine node reply.
    fn byzantine_answer(&self, net: &mut Network<Msg<T::Msg>>, from: PeerRef)
        requires
            self.wf(),
            net_ok::<T>(old(net)@),
            old(net)@.n_nodes == self.n_nodes,
            from < self.n_nodes,
        ensures
            final(net)@ == byzantine_answer(self@, old(net)@, from),
            net_ok::<T>(final(net)@),
            final(net)@.follows(old(net)@),
    {
        match self.params.scenario {
            Scenario::Absent => {},
            Scenario::Disagreeing => {
                net.send(from, Msg::Push(true));
            },
            Scenario::Adaptive => {
                if self.observed.0 > self.observed.1 {
                    net.send(from, Msg::Push(true));
                } else {
                    net.send(from, Msg::Push(false));
                }
            },
        }
    }
}

/// The state of a node before it is initialised, given that of its
/// sampling service.
pub open spec fn blank_model<R>(rps: R) -> Model<R> {
    Model {
        params: InitArgs {
            n_byzantine: 0,
            n_disagreeing: 0,
            scenario: Scenario::Absent,
            k: 0,
            alpha_k: 0,
            beta_num: 0,
            beta_den: 0,
            theta: 0,
            start_time: 0,
        },
        rps,
        observed: (0, 0),
        n_nodes: 0,
        my_id: 0,
        is_byzantine: false,
        rps_set: Seq::empty(),
        query_set: Set::empty(),
        reply_set: Map::empty(),
        value: false,
        timeout: 0,
        counter: 0,
        decided: None,
    }
}

/// The state and the network after the node `id` was initialised: the
/// sampling service is initialised first; then a correct node sends its
/// first tick and takes its first value, `true` for the `n_disagreeing`
/// correct nodes with the lowest identities and `false` for the others.
pub open spec fn initialised<T: App + RPS>(
    s: Model<T::V>,
    net: NetModel<Note<<T::Msg as View>::V>>,
    id: PeerRef,
    init: Init<T>,
) -> (Model<T::V>, NetModel<Note<<T::Msg as View>::V>>) {
    let r = T::init_spec(s.rps, proxy_of(net), id, init.rps_args);
    let ours = absorbed(net, r.1);
    let byzantine = id < init.args.n_byzantine;
    (
        Model {
            params: init.args,
            rps: r.0,
            n_nodes: net.n_nodes,
            my_id: id,
            is_byzantine: byzantine,
            value: !byzantine && id - init.args.n_byzantine < init.args.n_disagreeing,
            ..s
        },
        if byzantine {
            ours
        } else {
            ours.sent(id, Note::SelfNotif)
        },
    )
}

/// The state after a report, and the record reported: the sampling
/// service reports, and a correct node counts itself, its value and its
/// decision.
pub open spec fn measured<T: App + RPS>(
    s: Model<T::V>,
    net: NetModel<Note<<T::Msg as View>::V>>,
) -> (Model<T::V>, Census<<T::Metrics as View>::V>) {
    let r = T::metrics_spec(s.rps, proxy_of(net));
    (
        Model { rps: r.0, ..s },
        if s.is_byzantine {
            Census {
                n_procs: 0,
                n_true: 0,
                n_false: 0,
                n_decided_true: 0,
                n_decided_false: 0,
                rps_metrics: r.1,
            }
        } else {
            Census {
                n_procs: 1,
                n_true: if s.value {
                    1
                } else {
                    0
                },
                n_false: if s.value {
                    0
                } else {
                    1
                },
                n_decided_true: if s.decided == Some(true) {
                    1
                } else {
                    0
                },
                n_decided_false: if s.decided == Some(false) {
                    1
                } else {
                    0
                },
                rps_metrics: r.1,
            }
        },
    )
}

impl<T: App + RPS> App for Avalanche<T> {
    type Init = Init<T>;

    type Msg = Msg<T::Msg>;

    type Metrics = Metrics<T::Metrics>;

    open spec fn init_ok(init: &Init<T>, n: nat) -> bool {
        T::init_ok(&init.rps_args, n)
    }

    open spec fn blank(&self) -> bool {
        &&& self.rps.blank()
        &&& self.query_set.wf()
        &&& self.reply_set.wf()
        &&& self@ == blank_model(T::new_spec())
    }

    open spec fn inv(&self) -> bool {
        self.wf()
    }

    open spec fn nodes(&self) -> nat {
        self.n_nodes as nat
    }

    open spec fn msg_ok(msg: Note<<T::Msg as View>::V>, n: nat) -> bool {
        note_ok::<T>(msg, n)
    }

    open spec fn new_spec() -> Model<T::V> {
        blank_model(T::new_spec())
    }

    open spec fn init_spec(
        s: Model<T::V>,
        net: NetModel<Note<<T::Msg as View>::V>>,
        id: PeerRef,
        init: Init<T>,
    ) -> (Model<T::V>, NetModel<Note<<T::Msg as View>::V>>) {
        initialised::<T>(s, net, id, init)
    }

    open spec fn handle_spec(
        s: Model<T::V>,
        net: NetModel<Note<<T::Msg as View>::V>>,
        from: PeerRef,
        msg: Note<<T::Msg as View>::V>,
    ) -> (Model<T::V>, NetModel<Note<<T::Msg as View>::V>>) {
        handled::<T>(s, net, from, msg)
    }

    open spec fn metrics_spec(s: Model<T::V>, net: NetModel<Note<<T::Msg as View>::V>>) -> (
        Model<T::V>,
        Census<<T::Metrics as View>::V>,
    ) {
        measured::<T>(s, net)
    }

    open spec fn observe_spec(s: Model<T::V>, total: Census<<T::Metrics as View>::V>) -> Model<
        T::V,
    > {
        Model {
            observed: (total.n_false, total.n_true),
            rps: T::observe_spec(s.rps, total.rps_metrics),
            ..s
        }
    }

    fn new() -> (r: Self) {
        let r = Self {
            params: InitArgs {
                n_byzantine: 0,
                n_disagreeing: 0,
                scenario: Scenario::Absent,
                k: 0,
                alpha_k: 0,
                beta_num: 0,
                beta_den: 0,
                theta: 0,
                start_time: 0,
            },
            rps: T::new(),
            observed: (0, 0),
            n_nodes: 0,
            my_id: 0,
            is_byzantine: false,
            rps_set: Vec::new(),
            query_set: PeerMap::new(),
            reply_set: PeerMap::new(),
            value: false,
            timeout: 0,
            counter: 0,
            decided: None,
        };
        assert(r@.query_set =~= Set::empty());
        r
    }

    fn init(&mut self, id: PeerRef, net: &mut Network<Msg<T::Msg>>, init: &Init<T>) {
        let mut inner = net.proxy::<T::Msg>();
        self.rps.init(id, &mut inner, &init.rps_args);
        proof {
            lemma_absorbed::<T>(net@, proxy_of(net@), inner@);
        }
        absorb(net, inner);
        self.my_id = id;
        self.params = init.args;
        self.n_nodes = net.n_nodes;
        self.is_byzantine = id < self.params.n_byzantine;
        if !self.is_byzantine {
            net.send(id, Msg::SelfNotif);
            self.value = id - self.params.n_byzantine < self.params.n_disagreeing;
        }
    }

    /// Besides what every protocol promises: a decision is final.
    fn handle(&mut self, net: &mut Network<Msg<T::Msg>>, from: PeerRef, msg: &Msg<T::Msg>)
        ensures
            old(self)@.decided is Some ==> final(self)@.decided == old(self)@.decided,
    {
        match msg {
            Msg::RPSMsg(m) => {
                let mut inner = net.proxy::<T::Msg>();
                self.rps.handle(&mut inner, from, m);
                proof {
                    lemma_absorbed::<T>(net@, proxy_of(net@), inner@);
                }
                absorb(net, inner);
            },
            Msg::SelfNotif => {
                if !self.is_byzantine {
                    self.tick(net);
                }
            },
            Msg::Pull => {
                if self.is_byzantine {
                    self.byzantine_answer(net, from);
                } else {
                    let v = match self.decided {
                        Some(d) => d,
                        None => self.value,
                    };
                    net.send(from, Msg::Push(v));
                }
            },
            Msg::Push(v) => {
                if !self.is_byzantine {
                    self.on_push(from, *v);
                }
            },
        }
    }

    fn metrics(&mut self, net: &Network<Msg<T::Msg>>) -> (r: Metrics<T::Metrics>) {
        let inner = net.proxy::<T::Msg>();
        let rps_metrics = self.rps.metrics(&inner);
        if self.is_byzantine {
            Metrics {
                n_procs: 0,
                n_true: 0,
                n_false: 0,
                n_decided_true: 0,
                n_decided_false: 0,
                rps_metrics,
            }
        } else {
            Metrics {
                n_procs: 1,
                n_true: if self.value {
                    1
                } else {
                    0
                },
                n_false: if self.value {
                    0
                } else {
                    1
                },
                n_decided_true: match self.decided {
                    Some(true) => 1,
                    _ => 0,
                },
                n_decided_false: match self.decided {
                    Some(false) => 1,
                    _ => 0,
                },
                rps_metrics,
            }
        }
    }

    fn observe(&mut self, total: &Metrics<T::Metrics>) {
        self.observed = (total.n_false, total.n_true);
        self.rps.observe(&total.rps_metrics);
    }
}

/// A decision is final: whatever a node that has decided handles, its
/// decision stays, and it answers every query with it.
pub proof fn lemma_decision_is_final<T: App + RPS>(
    s: Model<T::V>,
    net: NetModel<Note<<T::Msg as View>::V>>,
    from: PeerRef,
    msg: Note<<T::Msg as View>::V>,
)
    requires
        s.decided is Some,
    ensures
        handled::<T>(s, net, from, msg).0.decided == s.decided,
        !s.is_byzantine && msg is Pull ==> handled::<T>(s, net, from, msg).1 == net.sent(
            from,
            Note::Push(s.decided->0),
        ),
{
}

} // verus!
