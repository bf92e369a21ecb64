use bignetrs::app::avalanche::{Avalanche, Init as AvalancheInit, InitArgs, Scenario};
use bignetrs::app::epidemic::Epidemic;
use bignetrs::app::sps::{Init as SpsInit, SPS};
use bignetrs::rps::{Oracle, OracleInit};
use bignetrs::simulator::Simulator;
use bignetrs::{sim, sim_rps_rng};

fn column(rows: &[Vec<String>], k: usize) -> Vec<u64> {
    rows.iter().map(|r| r[k].parse::<u64>().unwrap()).collect()
}

#[test]
fn epidemic_reaches_every_node() {
    let rows = sim::<Epidemic>(50, 20, &(), 1);
    assert_eq!(rows.len(), 51);
    let infected = column(&rows, 0);
    assert_eq!(infected[0], 1);
    assert!(infected.iter().any(|n| *n == 20));
    assert!(infected.windows(2).all(|w| w[0] <= w[1]));
    assert_eq!(infected[50], 20);
}

fn avalanche_args(
    n_byzantine: usize,
    n_disagreeing: usize,
    scenario: Scenario,
    k: usize,
    alpha_k: usize,
    theta: usize,
) -> AvalancheInit<Oracle> {
    AvalancheInit {
        args: InitArgs {
            n_byzantine,
            n_disagreeing,
            scenario,
            k,
            alpha_k,
            beta_num: 1,
            beta_den: 2,
            theta,
            start_time: 5,
        },
        rps_args: OracleInit { n_nodes: 100, count: k },
    }
}

#[test]
fn avalanche_honest_nodes_converge_on_the_majority() {
    let init = avalanche_args(0, 40, Scenario::Absent, 10, 7, 5);
    let rows = sim::<Avalanche<Oracle>>(200, 100, &init, 26);
    assert_eq!(rows.len(), 201);
    assert_eq!(rows[0], vec!["40", "60", "0", "0"]);
    assert_eq!(rows[200], vec!["0", "100", "0", "100"]);
}

#[test]
fn avalanche_majority_wins_whatever_the_seed() {
    for seed in 0..8 {
        let init = avalanche_args(0, 40, Scenario::Absent, 10, 7, 5);
        let rows = sim::<Avalanche<Oracle>>(200, 100, &init, seed);
        let last = &rows[200];
        let decided_true: u64 = last[2].parse().unwrap();
        let decided_false: u64 = last[3].parse().unwrap();
        assert_eq!(decided_true + decided_false, 100);
        assert!(decided_false > decided_true);
        // a decision is final: the counts of decided nodes never fall
        assert!(column(&rows, 2).windows(2).all(|w| w[0] <= w[1]));
        assert!(column(&rows, 3).windows(2).all(|w| w[0] <= w[1]));
    }
}

#[test]
fn avalanche_withstands_disagreeing_adversaries() {
    let init = avalanche_args(20, 0, Scenario::Disagreeing, 20, 15, 10);
    let rows = sim::<Avalanche<Oracle>>(200, 100, &init, 11);
    assert_eq!(rows[0], vec!["0", "80", "0", "0"]);
    assert_eq!(rows[200], vec!["0", "80", "0", "80"]);
}

#[test]
fn avalanche_before_the_start_time_nobody_decides() {
    let init = avalanche_args(0, 40, Scenario::Absent, 10, 7, 5);
    let rows = sim::<Avalanche<Oracle>>(6, 100, &init, 26);
    for row in rows.iter().take(6) {
        assert_eq!(row[2], "0");
        assert_eq!(row[3], "0");
    }
}

fn sps_args() -> SpsInit {
    SpsInit {
        n_byzantine: 40,
        byzantine_flood_factor: 50,
        attack_start_time: 10,
        sampling_frequency: None,
        sampling_count: 1,
        view_size: 20,
        num_exchanges: 4,
        exchange_interval: 4,
        ttl0: 4,
        wlist_max: 100,
    }
}

#[test]
fn sps_blacklists_identify_the_byzantine_nodes() {
    let init = sps_args();
    let mut net = Simulator::<SPS>::new(200, &init, 3);
    for _ in 0..200 {
        net.step();
        let _ = net.metrics();
        for p in net.processes.iter() {
            assert!(p.view.len() <= 20);
            assert!(p.wlist.len() <= 100);
        }
    }
    let mut byzantine = 0;
    let mut honest = 0;
    for p in net.processes.iter().filter(|p| !p.is_byzantine) {
        for peer in p.compute_blacklist() {
            if peer < 40 {
                byzantine += 1;
            } else {
                honest += 1;
            }
        }
        for peer in p.wlist.keys() {
            assert!(!p.blacklisted(peer));
        }
    }
    assert!(byzantine > 0);
    assert_eq!(honest, 0);
}

fn with_byzantine_neighbour(net: &Simulator<SPS>) -> usize {
    net.processes
        .iter()
        .filter(|p| !p.is_byzantine && p.view.keys().iter().any(|k| *k < 40))
        .count()
}

#[test]
fn sps_byzantine_presence_at_step_20_and_at_step_200() {
    // views of one peer, records that do not age out, a round at every step
    let mut init = sps_args();
    init.view_size = 1;
    init.ttl0 = 1000;
    init.exchange_interval = 1;
    let mut net = Simulator::<SPS>::new(200, &init, 1);
    let mut before_attack = 0;
    let mut at_20 = 0;
    for step in 1..=200 {
        net.step();
        if step == 9 {
            before_attack = with_byzantine_neighbour(&net);
        }
        if step == 20 {
            at_20 = with_byzantine_neighbour(&net);
        }
    }
    let at_200 = with_byzantine_neighbour(&net);
    // of the 160 correct nodes
    assert!(before_attack < at_20);
    assert!(at_200 < at_20);
    assert_eq!((before_attack, at_20, at_200), (1, 154, 149));
}

#[test]
fn sps_byzantine_presence_with_larger_views() {
    // with the whole view to fill, the flood reaches every correct node
    let init = sps_args();
    let mut net = Simulator::<SPS>::new(200, &init, 3);
    let mut at_20 = 0;
    for step in 1..=200 {
        net.step();
        if step == 20 {
            at_20 = with_byzantine_neighbour(&net);
        }
    }
    assert_eq!(at_20, 160);
    assert_eq!(with_byzantine_neighbour(&net), 160);
}

#[test]
fn same_seed_same_rows() {
    let init = sps_args();
    let a = sim::<SPS>(30, 60, &init, 42);
    let b = sim::<SPS>(30, 60, &init, 42);
    assert_eq!(a, b);
    let c = sim::<SPS>(30, 60, &init, 43);
    assert_ne!(a, c);
}

#[test]
fn same_seed_same_samples() {
    let mut init = sps_args();
    init.sampling_frequency = Some(2);
    init.sampling_count = 3;
    let a = sim_rps_rng::<SPS>(40, 60, &init, 10, 5);
    let b = sim_rps_rng::<SPS>(40, 60, &init, 10, 5);
    assert_eq!(a, b);
    assert!(!a.is_empty());
    assert!(a.iter().all(|p| *p < 60));
}

#[test]
fn no_samples_before_the_first_output_round() {
    let init = OracleInit { n_nodes: 30, count: 4 };
    assert_eq!(sim_rps_rng::<Oracle>(10, 30, &init, 10, 5).len(), 0);
    assert_eq!(sim_rps_rng::<Oracle>(10, 30, &init, 7, 5).len(), 12);
    assert_eq!(sim_rps_rng::<Oracle>(0, 30, &init, 0, 5).len(), 0);
}

#[test]
fn every_queued_message_is_due_at_the_next_step() {
    let init = sps_args();
    let mut net = Simulator::<SPS>::new(50, &init, 9);
    assert_eq!(net.net.now, 0);
    assert!(net.net.outbox.iter().all(|e| e.delivery_time == 1));
    assert_eq!(net.net.outbox.len(), 50);
    for step in 1..=12u64 {
        net.step();
        assert_eq!(net.net.now, step);
        assert!(!net.net.outbox.is_empty());
        assert!(net.net.outbox.iter().all(|e| e.delivery_time == step + 1));
        assert!(net.net.outbox.iter().all(|e| e.dst < 50 && e.src < 50));
    }
}

#[test]
fn every_correct_node_prefers_one_value_at_every_step() {
    for scenario in [Scenario::Absent, Scenario::Disagreeing, Scenario::Adaptive] {
        let init = avalanche_args(20, 30, scenario, 10, 7, 5);
        let rows = sim::<Avalanche<Oracle>>(60, 100, &init, 21);
        assert_eq!(rows[0], vec!["30", "50", "0", "0"]);
        for row in rows.iter() {
            assert_eq!(row.len(), 4);
            let n_true: u64 = row[0].parse().unwrap();
            let n_false: u64 = row[1].parse().unwrap();
            let decided: u64 = row[2].parse::<u64>().unwrap() + row[3].parse::<u64>().unwrap();
            assert_eq!(n_true + n_false, 80);
            assert!(decided <= 80);
        }
        assert_eq!(rows, sim::<Avalanche<Oracle>>(60, 100, &init, 21));
    }
}

#[test]
fn avalanche_runs_on_secure_peer_sampling() {
    let mut sps = sps_args();
    sps.n_byzantine = 5;
    sps.byzantine_flood_factor = 3;
    sps.view_size = 8;
    sps.sampling_frequency = Some(1);
    sps.sampling_count = 4;
    let init = AvalancheInit::<SPS> {
        args: InitArgs {
            n_byzantine: 5,
            n_disagreeing: 10,
            scenario: Scenario::Adaptive,
            k: 6,
            alpha_k: 4,
            beta_num: 1,
            beta_den: 2,
            theta: 4,
            start_time: 3,
        },
        rps_args: sps,
    };
    let rows = sim::<Avalanche<SPS>>(80, 40, &init, 2);
    assert_eq!(rows.len(), 81);
    assert!(rows.iter().all(|r| r.len() == 11));
    assert_eq!(rows[0][..4].to_vec(), vec!["10", "25", "0", "0"]);
    let last = &rows[80];
    let decided = last[2].parse::<u64>().unwrap() + last[3].parse::<u64>().unwrap();
    assert_eq!(decided, 35);
    assert_eq!(rows, sim::<Avalanche<SPS>>(80, 40, &init, 2));
}

#[test]
fn a_population_of_byzantine_nodes_only_measures_nothing() {
    let mut init = sps_args();
    init.n_byzantine = 9;
    init.attack_start_time = 2;
    let rows = sim::<SPS>(6, 5, &init, 1);
    assert_eq!(rows.len(), 7);
    for row in rows.iter() {
        assert_eq!(row, &vec!["-1", "-1", "-1", "-1", "-1", "-1", "0"]);
    }
    let mut net = Simulator::<SPS>::new(5, &init, 1);
    for _ in 0..4 {
        net.step();
    }
    // every node answers the five requests it got, floods all five nodes and ticks
    assert_eq!(net.net.outbox.len(), 5 * (5 + 5 + 1));
    assert!(net.net.outbox.iter().all(|e| e.dst < 5));
}
