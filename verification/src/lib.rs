//! A discrete-event simulator for Byzantine-resilient random peer sampling
//! and for a gossip consensus protocol that runs on top of it.

use vstd::prelude::*;

pub mod util;
pub mod peer_map;
pub mod text;
pub mod net;
pub mod simulator;
pub mod rps;
pub mod app;

use crate::net::{App, Metrics};
use crate::rps::RPS;
use crate::simulator::{initialised, measured, stepped, SimModel, Simulator};
use crate::util::{Dice, PeerRef};

verus! {

/// What a row of text stands for: the characters of each column.
pub open spec fn texts(row: Seq<String>) -> Seq<Seq<char>> {
    row.map_values(|s: String| s@)
}

/// The simulator after `steps` steps of a run, with a round of measurement
/// before the first step and after each step, and the record merged in the
/// last of these rounds.
pub open spec fn ran<A: App>(nproc: usize, init: A::Init, seed: u64, steps: nat) -> (
    SimModel<A::V, <A::Msg as View>::V>,
    <A::Metrics as View>::V,
)
    decreases steps,
{
    if steps == 0 {
        measured::<A>(initialised::<A>(nproc, init, seed, nproc as nat))
    } else {
        measured::<A>(stepped::<A>(ran::<A>(nproc, init, seed, (steps - 1) as nat).0))
    }
}

/// Runs a population of `nproc` instances of the protocol `A` for `nsteps`
/// steps. Returns the rows of the metrics table: row `k` holds the
/// measurements of the whole population after `k` steps.
///
/// The rows are a function of the arguments: two runs with the same seed
/// and parameters return the same rows.
pub fn sim<A: App>(nsteps: usize, nproc: usize, init: &A::Init, seed: u64) -> (rows: Vec<
    Vec<String>,
>)
    requires
        A::init_ok(init, nproc as nat),
        nsteps < usize::MAX,
    ensures
        rows@.len() == nsteps + 1,
        forall|k: int|
            0 <= k <= nsteps ==> texts((#[trigger] rows@[k])@) == A::Metrics::values_spec(
                ran::<A>(nproc, *init, seed, k as nat).1,
            ),
        forall|k: int|
            0 <= k <= nsteps ==> (#[trigger] rows@[k])@.len() == A::Metrics::headers_spec().len(),
{
    let mut net = Simulator::<A>::new(nproc, init, seed);
    let mut rows: Vec<Vec<String>> = Vec::new();
    let first = net.metrics();
    let row = first.values();
    proof {
        assert(texts(row@) =~= A::Metrics::values_spec(first@));
        A::Metrics::lemma_columns(first@);
    }
    rows.push(row);
    let mut step: usize = 0;
    while step < nsteps
        invariant
            step <= nsteps < usize::MAX,
            net.wf(),
            net@.net.now == step,
            rows@.len() == step + 1,
            net@ == ran::<A>(nproc, *init, seed, step as nat).0,
            forall|k: int|
                0 <= k <= step ==> texts((#[trigger] rows@[k])@) == A::Metrics::values_spec(
                    ran::<A>(nproc, *init, seed, k as nat).1,
                ),
            forall|k: int|
                0 <= k <= step ==> (#[trigger] rows@[k])@.len() == A::Metrics::headers_spec().len(),
        decreases nsteps - step,
    {
        net.step();
        let total = net.metrics();
        let row = total.values();
        proof {
            assert(texts(row@) =~= A::Metrics::values_spec(total@));
            A::Metrics::lemma_columns(total@);
        }
        rows.push(row);
        step = step + 1;
    }
    rows
}

/// The simulator after `steps` steps of a run without measurements in
/// which the last node is asked for its samples after each step, and the
/// samples collected from step `first` on.
pub open spec fn ran_sampling<A: App + RPS>(
    nproc: usize,
    init: A::Init,
    seed: u64,
    first: nat,
    steps: nat,
) -> (SimModel<A::V, <A::Msg as View>::V>, Seq<PeerRef>)
    decreases steps,
{
    if steps == 0 {
        (initialised::<A>(nproc, init, seed, nproc as nat), Seq::empty())
    } else {
        let before = ran_sampling::<A>(nproc, init, seed, first, (steps - 1) as nat);
        let m = stepped::<A>(before.0);
        if steps - 1 >= first {
            let i = (nproc - 1) as PeerRef;
            let got = A::samples_spec(m.processes[i as int], m.tuned(i).dice);
            (
                SimModel {
                    processes: m.processes.update(i as int, got.0),
                    draws: m.draws.update(i as int, got.1.drawn),
                    net: m.net,
                },
                before.1 + got.2,
            )
        } else {
            (m, before.1)
        }
    }
}

/// Runs a population of `nproc` instances of the sampling protocol `A`
/// for `nsteps` steps and returns, in order, the samples that the last
/// node hands out after each step from `first_output_round` on.
pub fn sim_rps_rng<A: App + RPS>(
    nsteps: usize,
    nproc: usize,
    init: &A::Init,
    first_output_round: usize,
    seed: u64,
) -> (samples: Vec<PeerRef>)
    requires
        A::init_ok(init, nproc as nat),
        nproc > 0,
        nsteps < usize::MAX,
    ensures
        samples@ == ran_sampling::<A>(
            nproc,
            *init,
            seed,
            first_output_round as nat,
            nsteps as nat,
        ).1,
        forall|i: int| 0 <= i < samples@.len() ==> samples@[i] < nproc,
{
    let mut net = Simulator::<A>::new(nproc, init, seed);
    let mut samples: Vec<PeerRef> = Vec::new();
    let i = nproc - 1;
    let mut step: usize = 0;
    while step < nsteps
        invariant
            step <= nsteps < usize::MAX,
            i == nproc - 1,
            nproc > 0,
            net.wf(),
            net@.net.now == step,
            net@.net.n_nodes == nproc,
            net@.net.dice.seed == seed,
            (net@, samples@) == ran_sampling::<A>(
                nproc,
                *init,
                seed,
                first_output_round as nat,
                step as nat,
            ),
            forall|j: int| 0 <= j < samples@.len() ==> samples@[j] < nproc,
        decreases nsteps - step,
    {
        net.step();
        if step >= first_output_round {
            let ghost before = net@;
            let mut dice = Dice { seed: net.net.dice.seed, stream: i as u64, drawn: net.draws[i] };
            let mut got = net.processes[i].get_samples(&mut dice);
            net.draws.set(i, dice.drawn);
            assert(net@.processes =~= before.processes.update(i as int, net.processes@[i as int]@));
            samples.append(&mut got);
        }
        step = step + 1;
    }
    samples
}

} // verus!
