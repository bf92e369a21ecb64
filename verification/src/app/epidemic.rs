//! An epidemic broadcast: a node that hears the rumour for the first time
//! passes it on to ten peers drawn at random.

use vstd::prelude::*;
use vstd::string::*;
use crate::net::{reduce, App, Letter, NetModel, Network};
use crate::simulator::{
    collected, delivered_nodes, delivered_upto, initialised, measured, stepped, SimModel,
};
use crate::text::{decimal, to_decimal};
use crate::util::{add_capped, lemma_sat_add, sat_add, PeerRef};

verus! {

/// The rumour: `true` infects the node that receives it.
pub type Msg = bool;

/// The number of peers that a newly infected node passes the rumour to.
pub const FANOUT: usize = 10;

/// The state of one node.
#[derive(Clone, Copy)]
pub struct Epidemic {
    pub contaminated: bool,
    pub n_nodes: usize,
}

/// The number of infected nodes. The count stops at the largest `usize`.
#[derive(Clone, Copy)]
pub struct Metrics {
    pub n_contaminated: usize,
}

impl View for Epidemic {
    type V = Epidemic;

    open spec fn view(&self) -> Epidemic {
        *self
    }
}

impl View for Metrics {
    type V = Metrics;

    open spec fn view(&self) -> Metrics {
        *self
    }
}

impl crate::net::Metrics for Metrics {
    open spec fn empty_spec() -> Metrics {
        Metrics { n_contaminated: 0 }
    }

    open spec fn combine_spec(a: Metrics, b: Metrics) -> Metrics {
        Metrics { n_contaminated: sat_add(a.n_contaminated, b.n_contaminated) }
    }

    open spec fn headers_spec() -> Seq<Seq<char>> {
        seq!["n_contaminated"@]
    }

    open spec fn values_spec(a: Metrics) -> Seq<Seq<char>> {
        seq![decimal(a.n_contaminated as nat)]
    }

    fn empty() -> (r: Self) {
        Metrics { n_contaminated: 0 }
    }

    fn net_combine(&mut self, other: &Self) {
        self.n_contaminated = add_capped(self.n_contaminated, other.n_contaminated);
    }

    fn headers() -> (r: Vec<&'static str>) {
        vec!["n_contaminated"]
    }

    fn values(&self) -> (r: Vec<String>) {
        vec![to_decimal(self.n_contaminated as u128)]
    }

    proof fn lemma_columns(a: Metrics) {
    }

    proof fn lemma_combine_empty(a: Metrics) {
    }

    proof fn lemma_combine_commutes(a: Metrics, b: Metrics) {
    }

    proof fn lemma_combine_associates(a: Metrics, b: Metrics, c: Metrics) {
        lemma_sat_add(a.n_contaminated, b.n_contaminated, c.n_contaminated);
    }
}

/// The network after a newly infected node has drawn its peers and sent
/// each of them the rumour.
pub open spec fn spread(net: NetModel<bool>) -> NetModel<bool> {
    net.after_sample(FANOUT as nat).sent_each(net.sampled(FANOUT as nat), true)
}

/// Draws the peers and sends each of them the rumour.
fn infect(net: &mut Network<Msg>)
    requires
        old(net)@.wf(),
        old(net)@.me < old(net)@.n_nodes,
    ensures
        final(net)@ == spread(old(net)@),
        final(net)@.wf(),
        final(net)@.follows(old(net)@),
{
    let peers = net.sample_peers(FANOUT);
    let ghost start = net@;
    let mut i: usize = 0;
    while i < peers.len()
        invariant
            i <= peers@.len(),
            old(net)@.me < old(net)@.n_nodes,
            forall|j: int| 0 <= j < peers@.len() ==> peers@[j] < net@.n_nodes,
            net@ == start.sent_each(peers@.take(i as int), true),
            net@.wf(),
            net@.follows(old(net)@),
        decreases peers@.len() - i,
    {
        net.send(peers[i], true);
        assert(peers@.take(i + 1).drop_last() =~= peers@.take(i as int));
        i = i + 1;
    }
    assert(peers@.take(i as int) =~= peers@);
}

impl App for Epidemic {
    type Init = ();

    type Msg = Msg;

    type Metrics = Metrics;

    open spec fn init_ok(init: &(), n: nat) -> bool {
        true
    }

    open spec fn blank(&self) -> bool {
        !self.contaminated
    }

    open spec fn inv(&self) -> bool {
        true
    }

    open spec fn nodes(&self) -> nat {
        self.n_nodes as nat
    }

    open spec fn msg_ok(msg: bool, n: nat) -> bool {
        true
    }

    open spec fn new_spec() -> Epidemic {
        Epidemic { contaminated: false, n_nodes: 0 }
    }

    open spec fn init_spec(s: Epidemic, net: NetModel<bool>, id: PeerRef, init: ()) -> (
        Epidemic,
        NetModel<bool>,
    ) {
        if id == 0 {
            (Epidemic { contaminated: true, n_nodes: net.n_nodes }, spread(net))
        } else {
            (Epidemic { contaminated: s.contaminated, n_nodes: net.n_nodes }, net)
        }
    }

    open spec fn handle_spec(s: Epidemic, net: NetModel<bool>, from: PeerRef, msg: bool) -> (
        Epidemic,
        NetModel<bool>,
    ) {
        if msg && !s.contaminated {
            (Epidemic { contaminated: true, n_nodes: s.n_nodes }, spread(net))
        } else {
            (s, net)
        }
    }

    open spec fn metrics_spec(s: Epidemic, net: NetModel<bool>) -> (Epidemic, Metrics) {
        (
            s,
            Metrics {
                n_contaminated: if s.contaminated {
                    1
                } else {
                    0
                },
            },
        )
    }

    open spec fn observe_spec(s: Epidemic, total: Metrics) -> Epidemic {
        s
    }

    fn new() -> (r: Self) {
        Self { contaminated: false, n_nodes: 0 }
    }

    fn init(&mut self, id: PeerRef, net: &mut Network<Msg>, init: &()) {
        self.n_nodes = net.n_nodes;
        if id == 0 {
            infect(net);
            self.contaminated = true;
        }
    }

    fn handle(&mut self, net: &mut Network<Msg>, from: PeerRef, msg: &Msg) {
        if *msg && !self.contaminated {
            infect(net);
            self.contaminated = true;
        }
    }

    fn metrics(&mut self, net: &Network<Msg>) -> (r: Metrics) {
        if self.contaminated {
            Metrics { n_contaminated: 1 }
        } else {
            Metrics { n_contaminated: 0 }
        }
    }

    fn observe(&mut self, total: &Metrics) {
    }
}

/// Whether every node that holds the rumour in `a` holds it in `b`.
pub open spec fn spread_grows(a: Seq<Epidemic>, b: Seq<Epidemic>) -> bool {
    a.len() == b.len() && forall|i: int|
        0 <= i < a.len() ==> (#[trigger] a[i]).contaminated ==> b[i].contaminated
}

/// The records that the nodes report.
pub open spec fn reports(nodes: Seq<Epidemic>) -> Seq<Metrics> {
    nodes.map_values(
        |e: Epidemic|
            Metrics {
                n_contaminated: if e.contaminated {
                    1
                } else {
                    0
                },
            },
    )
}

/// A node that delivers its messages forgets no rumour.
proof fn lemma_delivered_upto_grows(
    m: SimModel<Epidemic, bool>,
    inbox: Seq<Letter<bool>>,
    i: PeerRef,
    upto: nat,
)
    requires
        i < m.processes.len(),
    ensures
        spread_grows(m.processes, delivered_upto::<Epidemic>(m, inbox, i, upto).processes),
    decreases upto,
{
    if upto > 0 {
        lemma_delivered_upto_grows(m, inbox, i, (upto - 1) as nat);
    }
}

/// A population that delivers its messages forgets no rumour.
proof fn lemma_delivered_nodes_grows(
    m: SimModel<Epidemic, bool>,
    inbox: Seq<Letter<bool>>,
    nodes: nat,
)
    requires
        nodes <= m.processes.len() <= usize::MAX,
    ensures
        spread_grows(m.processes, delivered_nodes::<Epidemic>(m, inbox, nodes).processes),
    decreases nodes,
{
    if nodes > 0 {
        lemma_delivered_nodes_grows(m, inbox, (nodes - 1) as nat);
        let before = delivered_nodes::<Epidemic>(m, inbox, (nodes - 1) as nat);
        lemma_delivered_upto_grows(before, inbox, (nodes - 1) as PeerRef, inbox.len());
    }
}

/// The nodes report without a change, one record each.
proof fn lemma_collected(m: SimModel<Epidemic, bool>, upto: nat)
    requires
        upto <= m.processes.len() <= usize::MAX,
    ensures
        collected::<Epidemic>(m, upto).0 == m.processes,
        collected::<Epidemic>(m, upto).1 == reports(m.processes.take(upto as int)),
    decreases upto,
{
    if upto == 0 {
        assert(reports(m.processes.take(0)) =~= Seq::<Metrics>::empty());
    } else {
        lemma_collected(m, (upto - 1) as nat);
        let before = collected::<Epidemic>(m, (upto - 1) as nat);
        assert(before.0.update(upto - 1, before.0[upto - 1]) =~= before.0);
        assert(reports(m.processes.take(upto as int)) =~= reports(
            m.processes.take(upto - 1),
        ).push(reports(m.processes)[upto - 1]));
    }
}

/// The more nodes hold the rumour, the larger the merged count.
proof fn lemma_reduce_grows(a: Seq<Epidemic>, b: Seq<Epidemic>)
    requires
        spread_grows(a, b),
    ensures
        reduce::<Metrics>(reports(a)).n_contaminated <= reduce::<Metrics>(
            reports(b),
        ).n_contaminated,
    decreases a.len(),
{
    if a.len() > 0 {
        lemma_reduce_grows(a.drop_last(), b.drop_last());
        assert(reports(a).drop_last() =~= reports(a.drop_last()));
        assert(reports(b).drop_last() =~= reports(b.drop_last()));
        assert(a[a.len() - 1].contaminated ==> b[b.len() - 1].contaminated);
    }
}

/// The state of the nodes after `steps` steps of a run, before they are
/// measured.
pub open spec fn nodes_after(nproc: usize, seed: u64, steps: nat) -> Seq<Epidemic> {
    crate::ran::<Epidemic>(nproc, (), seed, steps).0.processes
}

/// A run has one state for each node, and measuring does not change it.
proof fn lemma_run(nproc: usize, seed: u64, steps: nat)
    ensures
        nodes_after(nproc, seed, steps).len() == nproc,
        crate::ran::<Epidemic>(nproc, (), seed, steps).1 == reduce::<Metrics>(
            reports(nodes_after(nproc, seed, steps)),
        ),
        steps > 0 ==> spread_grows(
            nodes_after(nproc, seed, (steps - 1) as nat),
            nodes_after(nproc, seed, steps),
        ),
    decreases steps,
{
    let m = if steps == 0 {
        initialised::<Epidemic>(nproc, (), seed, nproc as nat)
    } else {
        stepped::<Epidemic>(crate::ran::<Epidemic>(nproc, (), seed, (steps - 1) as nat).0)
    };
    if steps == 0 {
        lemma_initialised(nproc, seed, nproc as nat);
    } else {
        lemma_run(nproc, seed, (steps - 1) as nat);
        let before = crate::ran::<Epidemic>(nproc, (), seed, (steps - 1) as nat).0;
        lemma_delivered_nodes_grows(
            SimModel {
                net: NetModel {
                    now: (before.net.now + 1) as u64,
                    outbox: Seq::empty(),
                    ..before.net
                },
                ..before
            },
            before.net.outbox,
            before.processes.len(),
        );
    }
    lemma_collected(m, m.processes.len());
    assert(m.processes.take(m.processes.len() as int) =~= m.processes);
    assert(measured::<Epidemic>(m).0.processes =~= m.processes);
}

/// A population in the making has one state for each node made.
proof fn lemma_initialised(nproc: usize, seed: u64, upto: nat)
    ensures
        initialised::<Epidemic>(nproc, (), seed, upto).processes.len() == upto,
    decreases upto,
{
    if upto > 0 {
        lemma_initialised(nproc, seed, (upto - 1) as nat);
    }
}

/// The rumour does not die: from one row of a run to the next, the count
/// of the nodes that hold it does not fall.
pub proof fn lemma_count_never_falls(nproc: usize, seed: u64, steps: nat)
    ensures
        crate::ran::<Epidemic>(nproc, (), seed, steps).1.n_contaminated <= crate::ran::<Epidemic>(
            nproc,
            (),
            seed,
            steps + 1,
        ).1.n_contaminated,
{
    lemma_run(nproc, seed, steps);
    lemma_run(nproc, seed, steps + 1);
    lemma_reduce_grows(nodes_after(nproc, seed, steps), nodes_after(nproc, seed, steps + 1));
}

} // verus!
