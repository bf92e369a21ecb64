use bignetrs::app::avalanche::{Avalanche, Init, InitArgs, Metrics, Msg, Scenario};
use bignetrs::app::sps::{Init as SpsInit, Msg as SpsMsg, SPS};
use bignetrs::net::{App, Metrics as NetMetrics, Network};
use bignetrs::rps::{NoMetrics, Oracle, OracleInit};
use bignetrs::util::Dice;

fn args() -> InitArgs {
    InitArgs {
        n_byzantine: 2,
        n_disagreeing: 3,
        scenario: Scenario::Absent,
        k: 3,
        alpha_k: 2,
        beta_num: 1,
        beta_den: 2,
        theta: 2,
        start_time: 4,
    }
}

fn network(me: usize, now: u64) -> Network<Msg<()>> {
    let mut net: Network<Msg<()>> = Network::new(10, 5);
    net.me = me;
    net.now = now;
    net.dice = Dice::new(5, me as u64);
    net
}

fn node_with(id: usize, args: InitArgs) -> Avalanche<Oracle> {
    let init = Init::<Oracle> { args, rps_args: OracleInit { n_nodes: 10, count: 3 } };
    let mut net = network(id, 0);
    let mut n = Avalanche::<Oracle>::new();
    n.init(id, &mut net, &init);
    n
}

fn node(id: usize) -> Avalanche<Oracle> {
    node_with(id, args())
}

fn pushed(net: &Network<Msg<()>>, i: usize) -> (usize, bool) {
    match net.outbox[i].payload {
        Msg::Push(v) => (net.outbox[i].dst, v),
        _ => panic!("not a push"),
    }
}

#[test]
fn scenarios_are_read_from_their_names() {
    assert_eq!(Scenario::from_str("absent"), Ok(Scenario::Absent));
    assert_eq!(Scenario::from_str("disagreeing"), Ok(Scenario::Disagreeing));
    assert_eq!(Scenario::from_str("adaptive"), Ok(Scenario::Adaptive));
    assert_eq!(Scenario::from_str("Absent"), Err("invalid byzantine behaviour"));
    assert_eq!(Scenario::from_str(""), Err("invalid byzantine behaviour"));
    assert_eq!(Scenario::from_str("adaptive "), Err("invalid byzantine behaviour"));
    assert_eq!(Scenario::from_str("absen"), Err("invalid byzantine behaviour"));
    assert_eq!(Scenario::default(), Scenario::Absent);
}

#[test]
fn the_first_correct_nodes_start_with_true() {
    for id in 0..10 {
        let n = node(id);
        assert_eq!(n.is_byzantine, id < 2);
        assert_eq!(n.value, (2..5).contains(&id));
        assert_eq!(n.decided, None);
        assert_eq!(n.counter, 0);
        assert_eq!(n.timeout, 0);
    }
}

#[test]
fn only_correct_nodes_tick() {
    let init = Init::<Oracle> { args: args(), rps_args: OracleInit { n_nodes: 10, count: 3 } };
    let mut net = network(1, 0);
    Avalanche::<Oracle>::new().init(1, &mut net, &init);
    assert_eq!(net.outbox.len(), 0);
    let mut net = network(6, 0);
    Avalanche::<Oracle>::new().init(6, &mut net, &init);
    assert_eq!(net.outbox.len(), 1);
    assert_eq!(net.outbox[0].dst, 6);
    assert!(matches!(net.outbox[0].payload, Msg::SelfNotif));
}

#[test]
fn before_the_start_time_a_tick_only_ticks() {
    let mut n = node(6);
    let mut net = network(6, 3);
    n.handle(&mut net, 6, &Msg::SelfNotif);
    assert_eq!(net.outbox.len(), 1);
    assert!(matches!(net.outbox[0].payload, Msg::SelfNotif));
    assert_eq!(n.rps_set.len(), 0);
    assert_eq!(n.query_set.len(), 0);
    assert_eq!(n.timeout, 0);
}

#[test]
fn a_query_goes_to_k_sampled_peers_and_cools_down() {
    let mut n = node(6);
    let mut net = network(6, 4);
    n.handle(&mut net, 6, &Msg::SelfNotif);
    // three pulls and the next tick
    assert_eq!(net.outbox.len(), 4);
    let mut asked = Vec::new();
    for e in net.outbox.iter().take(3) {
        assert!(matches!(e.payload, Msg::Pull));
        assert_eq!(e.src, 6);
        assert_eq!(e.delivery_time, 5);
        asked.push(e.dst);
    }
    asked.sort();
    assert_eq!(n.query_set.keys(), asked);
    assert!(matches!(net.outbox[3].payload, Msg::SelfNotif));
    assert_eq!(n.timeout, 2);
    assert_eq!(n.rps_set.len(), 0);
    assert_eq!(n.reply_set.len(), 0);
    // while it cools down it gathers samples
    let mut net = network(6, 5);
    n.handle(&mut net, 6, &Msg::SelfNotif);
    assert_eq!(net.outbox.len(), 1);
    assert_eq!(n.timeout, 1);
    assert_eq!(n.rps_set.len(), 3);
    n.handle(&mut net, 6, &Msg::SelfNotif);
    assert_eq!(n.timeout, 0);
    assert_eq!(n.rps_set.len(), 6);
    // the next query takes three samples from the end of the pool
    let pool = n.rps_set.clone();
    let mut net = network(6, 7);
    n.handle(&mut net, 6, &Msg::SelfNotif);
    assert_eq!(n.timeout, 2);
    assert_eq!(n.rps_set.len(), 6);
    assert_eq!(n.rps_set, pool);
    let pulls = net.outbox.len() - 1;
    assert_eq!(pulls, n.query_set.len());
    assert!(1 <= pulls && pulls <= 3);
    assert!(net.outbox.iter().take(pulls).all(|e| matches!(e.payload, Msg::Pull)));
    assert!(net.outbox.iter().take(pulls).all(|e| n.query_set.contains_key(e.dst)));
}

#[test]
fn a_query_takes_no_more_than_k_samples() {
    let mut n = node(6);
    n.rps_set = vec![9, 8, 7, 7, 3, 3];
    n.timeout = 0;
    n.params.start_time = 100;
    n.params.k = 3;
    let mut net = network(6, 50);
    // before the start time no query starts
    n.handle(&mut net, 6, &Msg::SelfNotif);
    assert_eq!(net.outbox.len(), 1);
    n.rps_set = vec![9, 8, 7, 7, 3, 3];
    n.params.start_time = 0;
    n.rps.params.count = 0;
    let mut net = network(6, 50);
    n.handle(&mut net, 6, &Msg::SelfNotif);
    // the samples 3, 3 and 7 are taken; each of the two peers is asked once
    let dsts: Vec<usize> = net.outbox.iter().map(|e| e.dst).collect();
    assert_eq!(dsts, vec![3, 7, 6]);
    assert_eq!(n.query_set.keys(), vec![3, 7]);
    assert_eq!(n.rps_set, vec![9, 8, 7]);
    assert_eq!(n.timeout, 2);
}

#[test]
fn a_query_of_one_peer_sampled_three_times_takes_two_samples() {
    let mut n = node(6);
    n.rps_set = vec![5, 5, 5];
    n.params.start_time = 0;
    n.params.k = 2;
    n.rps.params.count = 0;
    let mut net = network(6, 50);
    n.handle(&mut net, 6, &Msg::SelfNotif);
    let dsts: Vec<usize> = net.outbox.iter().map(|e| e.dst).collect();
    assert_eq!(dsts, vec![5, 6]);
    assert_eq!(n.query_set.keys(), vec![5]);
    assert_eq!(n.rps_set, vec![5]);
}

#[test]
fn a_correct_node_answers_with_its_value_or_its_decision() {
    let mut n = node(3);
    let mut net = network(3, 9);
    n.handle(&mut net, 8, &Msg::Pull);
    assert_eq!(pushed(&net, 0), (8, true));
    n.value = false;
    n.handle(&mut net, 8, &Msg::Pull);
    assert_eq!(pushed(&net, 1), (8, false));
    n.decided = Some(true);
    n.handle(&mut net, 9, &Msg::Pull);
    assert_eq!(pushed(&net, 2), (9, true));
    n.value = true;
    n.decided = Some(false);
    n.handle(&mut net, 9, &Msg::Pull);
    assert_eq!(pushed(&net, 3), (9, false));
}

fn asking(id: usize, peers: &[usize], args: InitArgs) -> Avalanche<Oracle> {
    let mut n = node_with(id, args);
    for p in peers {
        n.query_set.insert(*p, ());
    }
    n
}

#[test]
fn replies_of_peers_that_were_not_asked_are_dropped() {
    let mut n = asking(6, &[1, 2, 3], args());
    let mut net = network(6, 9);
    n.handle(&mut net, 9, &Msg::Push(true));
    assert_eq!(n.reply_set.len(), 0);
    n.handle(&mut net, 2, &Msg::Push(true));
    assert_eq!(n.reply_set.to_vec(), vec![(2, true)]);
    // a peer that replies again replaces its reply
    n.handle(&mut net, 2, &Msg::Push(false));
    assert_eq!(n.reply_set.to_vec(), vec![(2, false)]);
    assert_eq!(net.outbox.len(), 0);
    assert_eq!(n.counter, 0);
    assert!(!n.value);
}

#[test]
fn a_node_without_a_streak_adopts_the_proposal() {
    let mut n = asking(6, &[1, 2, 3, 4], args());
    let mut net = network(6, 9);
    assert!(!n.value);
    n.handle(&mut net, 1, &Msg::Push(true));
    assert!(!n.value);
    // two replies, both true: more than half
    n.handle(&mut net, 2, &Msg::Push(true));
    assert!(n.value);
    assert_eq!(n.counter, 0);
    assert_eq!(n.decided, None);
    // each further reply confirms
    n.handle(&mut net, 3, &Msg::Push(true));
    assert_eq!(n.counter, 1);
    assert_eq!(n.decided, None);
    n.handle(&mut net, 4, &Msg::Push(true));
    assert_eq!(n.counter, 2);
    assert_eq!(n.decided, Some(true));
}

#[test]
fn a_proposal_against_the_value_shortens_the_streak() {
    let mut n = asking(6, &[1, 2, 3, 4, 5], args());
    n.value = true;
    n.counter = 1;
    n.params.theta = 10;
    let mut net = network(6, 9);
    n.handle(&mut net, 1, &Msg::Push(false));
    n.handle(&mut net, 2, &Msg::Push(false));
    // the streak is gone, and with it the value
    assert_eq!(n.counter, 0);
    assert!(!n.value);
    n.handle(&mut net, 3, &Msg::Push(false));
    assert_eq!(n.counter, 1);
    n.counter = 5;
    n.value = true;
    n.handle(&mut net, 4, &Msg::Push(false));
    assert_eq!(n.counter, 4);
    assert!(n.value);
}

#[test]
fn a_tie_proposes_nothing_at_one_half() {
    let mut n = asking(6, &[1, 2], args());
    let mut net = network(6, 9);
    n.counter = 1;
    n.handle(&mut net, 1, &Msg::Push(true));
    n.handle(&mut net, 2, &Msg::Push(false));
    assert_eq!(n.counter, 1);
    assert!(!n.value);
}

#[test]
fn false_wins_where_both_values_exceed_the_threshold() {
    let mut low = args();
    low.beta_num = 1;
    low.beta_den = 4;
    let mut n = asking(6, &[1, 2], low);
    n.value = true;
    let mut net = network(6, 9);
    n.handle(&mut net, 1, &Msg::Push(true));
    n.handle(&mut net, 2, &Msg::Push(false));
    assert!(!n.value);
    let mut n = asking(6, &[1, 2], low);
    n.counter = 1;
    let mut net = network(6, 9);
    n.handle(&mut net, 1, &Msg::Push(true));
    n.handle(&mut net, 2, &Msg::Push(false));
    assert_eq!(n.counter, 2);
    assert_eq!(n.decided, Some(false));
}

#[test]
fn a_decision_is_final() {
    let mut n = asking(6, &[1, 2, 3, 4, 5, 7, 8, 9], args());
    n.value = true;
    n.counter = 2;
    n.decided = Some(true);
    let mut net = network(6, 9);
    for p in [1usize, 2, 3, 4, 5, 7, 8, 9] {
        n.handle(&mut net, p, &Msg::Push(false));
        assert_eq!(n.decided, Some(true));
        n.handle(&mut net, p, &Msg::Pull);
    }
    // the value has turned, the decision has not
    assert!(!n.value);
    assert!(n.counter >= 2);
    assert_eq!(n.decided, Some(true));
    for i in 0..8 {
        assert!(pushed(&net, i).1);
    }
    // a node that has decided does not query any more
    n.rps_set = vec![1, 2, 3, 4];
    n.timeout = 0;
    let before = net.outbox.len();
    n.handle(&mut net, 6, &Msg::SelfNotif);
    assert_eq!(net.outbox.len(), before + 1);
    assert_eq!(n.rps_set, vec![1, 2, 3, 4]);
    assert_eq!(n.decided, Some(true));
}

#[test]
fn the_streak_stops_at_the_largest_value() {
    let mut n = asking(6, &[1, 2], args());
    n.counter = usize::MAX;
    n.params.theta = usize::MAX;
    let mut net = network(6, 9);
    n.handle(&mut net, 1, &Msg::Push(false));
    n.handle(&mut net, 2, &Msg::Push(false));
    assert_eq!(n.counter, usize::MAX);
    assert_eq!(n.decided, Some(false));
}

#[test]
fn byzantine_nodes_answer_as_the_scenario_says() {
    let mut a = args();
    let mut net = network(1, 9);
    let mut n = node_with(1, a);
    n.handle(&mut net, 7, &Msg::Pull);
    n.handle(&mut net, 7, &Msg::Push(true));
    n.handle(&mut net, 1, &Msg::SelfNotif);
    assert_eq!(net.outbox.len(), 0);
    a.scenario = Scenario::Disagreeing;
    let mut n = node_with(1, a);
    n.handle(&mut net, 7, &Msg::Pull);
    assert_eq!(pushed(&net, 0), (7, true));
    a.scenario = Scenario::Adaptive;
    let mut n = node_with(1, a);
    // nothing observed yet: as many for false as for true
    n.handle(&mut net, 7, &Msg::Pull);
    assert_eq!(pushed(&net, 1), (7, false));
    let total = Metrics { n_procs: 8, n_true: 3, n_false: 5, n_decided_true: 0, n_decided_false: 0, rps_metrics: NoMetrics {} };
    n.observe(&total);
    assert_eq!(n.observed, (5, 3));
    n.handle(&mut net, 7, &Msg::Pull);
    assert_eq!(pushed(&net, 2), (7, true));
    let total = Metrics { n_procs: 8, n_true: 5, n_false: 3, n_decided_true: 0, n_decided_false: 0, rps_metrics: NoMetrics {} };
    n.observe(&total);
    n.handle(&mut net, 7, &Msg::Pull);
    assert_eq!(pushed(&net, 3), (7, false));
}

#[test]
fn nodes_report_their_value_and_decision() {
    let net = network(3, 9);
    let mut n = node(3);
    let m = n.metrics(&net);
    assert_eq!((m.n_procs, m.n_true, m.n_false, m.n_decided_true, m.n_decided_false), (1, 1, 0, 0, 0));
    n.decided = Some(false);
    let m = n.metrics(&net);
    assert_eq!((m.n_procs, m.n_true, m.n_false, m.n_decided_true, m.n_decided_false), (1, 1, 0, 0, 1));
    n.value = false;
    n.decided = Some(true);
    let m = n.metrics(&net);
    assert_eq!((m.n_procs, m.n_true, m.n_false, m.n_decided_true, m.n_decided_false), (1, 0, 1, 1, 0));
    assert_eq!(m.values(), vec!["0", "1", "1", "0"]);
    let mut b = node(1);
    let m = b.metrics(&net);
    assert_eq!((m.n_procs, m.n_true, m.n_false, m.n_decided_true, m.n_decided_false), (0, 0, 0, 0, 0));
}

fn census(n: usize) -> Metrics<NoMetrics> {
    Metrics { n_procs: n, n_true: n + 1, n_false: 2 * n, n_decided_true: n / 2, n_decided_false: 7, rps_metrics: NoMetrics {} }
}

fn fields(m: &Metrics<NoMetrics>) -> (usize, usize, usize, usize, usize) {
    (m.n_procs, m.n_true, m.n_false, m.n_decided_true, m.n_decided_false)
}

#[test]
fn avalanche_records_merge_in_any_order_and_grouping() {
    let (x, y, z) = (census(3), census(10), census(usize::MAX - 5));
    let mut ex = Metrics::<NoMetrics>::empty();
    ex.net_combine(&x);
    assert_eq!(fields(&ex), fields(&x));
    let mut xy = census(3);
    xy.net_combine(&y);
    let mut yx = census(10);
    yx.net_combine(&x);
    assert_eq!(fields(&xy), fields(&yx));
    assert_eq!(fields(&xy), (13, 15, 26, 6, 14));
    let mut xy_z = xy;
    xy_z.net_combine(&z);
    let mut yz = census(10);
    yz.net_combine(&z);
    let mut x_yz = census(3);
    x_yz.net_combine(&yz);
    assert_eq!(fields(&xy_z), fields(&x_yz));
    assert_eq!(xy_z.n_procs, usize::MAX);
}

#[test]
fn the_columns_of_the_sampling_service_follow() {
    assert_eq!(Metrics::<NoMetrics>::headers(), vec!["nTrue", "nFalse", "decTrue", "decFalse"]);
    assert_eq!(
        Metrics::<bignetrs::app::sps::Metrics>::headers(),
        vec![
            "nTrue", "nFalse", "decTrue", "decFalse", "avgRecv", "avgByzRecv", "pByzRecv",
            "avgByzN", "min", "max", "n_isolated"
        ]
    );
    let e = Metrics::<bignetrs::app::sps::Metrics>::empty();
    assert_eq!(e.values().len(), 11);
    assert_eq!(e.values()[..5].to_vec(), vec!["0", "0", "0", "0", "-1"]);
}

#[test]
fn messages_of_the_sampling_service_travel_wrapped() {
    let sps = SpsInit {
        n_byzantine: 2,
        byzantine_flood_factor: 2,
        attack_start_time: 0,
        sampling_frequency: Some(1),
        sampling_count: 2,
        view_size: 3,
        num_exchanges: 1,
        exchange_interval: 1,
        ttl0: 2,
        wlist_max: 4,
    };
    let init = Init::<SPS> { args: args(), rps_args: sps };
    let mut net: Network<Msg<SpsMsg>> = Network::new(10, 5);
    net.me = 6;
    net.dice = Dice::new(5, 6);
    let mut n = Avalanche::<SPS>::new();
    n.init(6, &mut net, &init);
    assert_eq!(n.rps.view.len(), 3);
    assert_eq!(net.outbox.len(), 2);
    assert!(matches!(net.outbox[0].payload, Msg::RPSMsg(SpsMsg::SelfNotif)));
    assert!(matches!(net.outbox[1].payload, Msg::SelfNotif));
    assert_eq!(net.outbox[0].dst, 6);
    assert_eq!(net.outbox[0].delivery_time, 1);
    // a wrapped tick makes the service ask a peer and tick again, in this order
    net.now = 1;
    let before = net.dice;
    n.handle(&mut net, 6, &Msg::RPSMsg(SpsMsg::SelfNotif));
    assert_eq!(net.outbox.len(), 4);
    assert!(matches!(net.outbox[2].payload, Msg::RPSMsg(SpsMsg::Request(_))));
    assert!(matches!(net.outbox[3].payload, Msg::RPSMsg(SpsMsg::SelfNotif)));
    assert_eq!(net.outbox[2].delivery_time, 2);
    assert!(n.rps.view.contains_key(net.outbox[2].dst));
    assert_ne!(net.dice, before);
    assert_eq!(n.rps.out_samples.len(), 2);
    // the node takes the samples of the service at its own tick
    net.now = 4;
    n.handle(&mut net, 6, &Msg::SelfNotif);
    assert_eq!(n.rps.out_samples.len(), 0);
    assert_eq!(n.rps_set.len(), 2);
}
