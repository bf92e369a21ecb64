//! The contract of a random peer sampling service, and an oracle that
//! meets it by drawing from the whole population.

use vstd::prelude::*;
use crate::net::{peers_upto, population, App, NetModel, Network};
use crate::util::{sample, sample_spec, Dice, PeerRef};

verus! {

/// A protocol that can be asked for fresh samples of peers.
pub trait RPS: App {
    /// The state after `get_samples`, what is left of the stream, and the
    /// samples.
    spec fn samples_spec(s: Self::V, dice: Dice) -> (Self::V, Dice, Seq<PeerRef>);

    /// The state after `clear_samples`.
    spec fn cleared_spec(s: Self::V) -> Self::V;

    /// The peers that have been members of the node's view at some moment
    /// since the samples were last cleared.
    spec fn witnessed(s: Self::V) -> Set<PeerRef>;

    /// Returns zero or more peers of the local view, as the protocol's own
    /// pace allows. Every one of them exists, and has been in the view
    /// since the samples were last cleared.
    fn get_samples(&mut self, dice: &mut Dice) -> (r: Vec<PeerRef>)
        requires
            old(self).inv(),
        ensures
            final(self).inv(),
            final(self).nodes() == old(self).nodes(),
            (final(self)@, *final(dice), r@) == Self::samples_spec(old(self)@, *old(dice)),
            old(dice).same_stream(*final(dice)),
            forall|i: int| 0 <= i < r@.len() ==> r@[i] < old(self).nodes(),
            forall|i: int| 0 <= i < r@.len() ==> Self::witnessed(old(self)@).contains(r@[i]),
    ;

    /// Discards the samples that are waiting to be fetched.
    fn clear_samples(&mut self)
        requires
            old(self).inv(),
        ensures
            final(self).inv(),
            final(self).nodes() == old(self).nodes(),
            final(self)@ == Self::cleared_spec(old(self)@),
    ;
}

/// The parameters of the oracle: the size of the population, and how many
/// peers each call for samples returns.
#[derive(Clone, Copy, Debug, Default)]
pub struct OracleInit {
    pub n_nodes: usize,
    pub count: usize,
}

/// A sampling service that knows the whole population and draws from it
/// uniformly, whenever it is asked. It sends no messages.
#[derive(Clone, Copy)]
pub struct Oracle {
    pub params: OracleInit,
}

/// The oracle measures nothing.
#[derive(Clone, Copy)]
pub struct NoMetrics {}

impl View for OracleInit {
    type V = OracleInit;

    open spec fn view(&self) -> OracleInit {
        *self
    }
}

impl View for Oracle {
    type V = Oracle;

    open spec fn view(&self) -> Oracle {
        *self
    }
}

impl View for NoMetrics {
    type V = NoMetrics;

    open spec fn view(&self) -> NoMetrics {
        *self
    }
}

impl crate::net::Metrics for NoMetrics {
    open spec fn empty_spec() -> NoMetrics {
        NoMetrics {  }
    }

    open spec fn combine_spec(a: NoMetrics, b: NoMetrics) -> NoMetrics {
        NoMetrics {  }
    }

    open spec fn headers_spec() -> Seq<Seq<char>> {
        Seq::empty()
    }

    open spec fn values_spec(a: NoMetrics) -> Seq<Seq<char>> {
        Seq::empty()
    }

    fn empty() -> (r: Self) {
        NoMetrics {  }
    }

    fn net_combine(&mut self, other: &Self) {
    }

    fn headers() -> (r: Vec<&'static str>) {
        Vec::new()
    }

    fn values(&self) -> (r: Vec<String>) {
        Vec::new()
    }

    proof fn lemma_columns(a: NoMetrics) {
    }

    proof fn lemma_combine_empty(a: NoMetrics) {
    }

    proof fn lemma_combine_commutes(a: NoMetrics, b: NoMetrics) {
    }

    proof fn lemma_combine_associates(a: NoMetrics, b: NoMetrics, c: NoMetrics) {
    }
}

impl App for Oracle {
    type Init = OracleInit;

    type Msg = ();

    type Metrics = NoMetrics;

    open spec fn init_ok(init: &OracleInit, n: nat) -> bool {
        init.n_nodes == n
    }

    open spec fn blank(&self) -> bool {
        self.params.n_nodes == 0 && self.params.count == 0
    }

    open spec fn inv(&self) -> bool {
        true
    }

    open spec fn nodes(&self) -> nat {
        self.params.n_nodes as nat
    }

    open spec fn msg_ok(msg: (), n: nat) -> bool {
        true
    }

    open spec fn new_spec() -> Oracle {
        Oracle { params: OracleInit { n_nodes: 0, count: 0 } }
    }

    open spec fn init_spec(s: Oracle, net: NetModel<()>, id: PeerRef, init: OracleInit) -> (
        Oracle,
        NetModel<()>,
    ) {
        (Oracle { params: init }, net)
    }

    open spec fn handle_spec(s: Oracle, net: NetModel<()>, from: PeerRef, msg: ()) -> (
        Oracle,
        NetModel<()>,
    ) {
        (s, net)
    }

    open spec fn metrics_spec(s: Oracle, net: NetModel<()>) -> (Oracle, NoMetrics) {
        (s, NoMetrics {  })
    }

    open spec fn observe_spec(s: Oracle, total: NoMetrics) -> Oracle {
        s
    }

    fn new() -> (r: Self) {
        Oracle { params: OracleInit { n_nodes: 0, count: 0 } }
    }

    fn init(&mut self, id: PeerRef, net: &mut Network<()>, init: &OracleInit) {
        self.params = *init;
    }

    fn handle(&mut self, net: &mut Network<()>, from: PeerRef, msg: &()) {
    }

    fn metrics(&mut self, net: &Network<()>) -> (r: NoMetrics) {
        NoMetrics {  }
    }

    fn observe(&mut self, total: &NoMetrics) {
    }
}

impl RPS for Oracle {
    open spec fn samples_spec(s: Oracle, dice: Dice) -> (Oracle, Dice, Seq<PeerRef>) {
        let drawn = sample_spec(population(s.params.n_nodes as nat), s.params.count as nat, dice);
        (s, drawn.1, drawn.0)
    }

    open spec fn cleared_spec(s: Oracle) -> Oracle {
        s
    }

    open spec fn witnessed(s: Oracle) -> Set<PeerRef> {
        Set::new(|p: PeerRef| p < s.params.n_nodes)
    }

    fn get_samples(&mut self, dice: &mut Dice) -> (r: Vec<PeerRef>) {
        let n = self.params.n_nodes;
        let all = peers_upto(n);
        let r = sample(all.as_slice(), self.params.count, dice);
        proof {
            assert forall|j: int| 0 <= j < r@.len() implies r@[j] < n by {
                assert(r@.contains(r@[j]));
                let x = r@[j];
                let c = choose|c: int| 0 <= c < all@.len() && all@[c] == x;
                assert(all@[c] == c as PeerRef);
            }
        }
        r
    }

    fn clear_samples(&mut self) {
    }
}

} // verus!
