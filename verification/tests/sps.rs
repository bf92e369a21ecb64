use bignetrs::app::sps::{to_stamp, HitStats, Init, Metrics, Msg, PEntry, SPS};
use bignetrs::net::{App, Metrics as NetMetrics, Network};
use bignetrs::rps::RPS;
use bignetrs::util::Dice;

fn params() -> Init {
    Init {
        n_byzantine: 3,
        byzantine_flood_factor: 4,
        attack_start_time: 5,
        sampling_frequency: Some(2),
        sampling_count: 2,
        view_size: 4,
        num_exchanges: 2,
        exchange_interval: 3,
        ttl0: 2,
        wlist_max: 3,
    }
}

fn network(me: usize, now: u64) -> Network<Msg> {
    let mut net: Network<Msg> = Network::new(20, 77);
    net.me = me;
    net.now = now;
    net.dice = Dice::new(77, me as u64);
    net
}

fn node(id: usize, init: &Init) -> SPS {
    let mut net = network(id, 0);
    let mut n = SPS::new();
    n.init(id, &mut net, init);
    n
}

fn list_of(msg: &Msg) -> Vec<(usize, i64)> {
    match msg {
        Msg::Request(l) => l.clone(),
        Msg::Reply(l) => l.clone(),
        Msg::SelfNotif => panic!("a tick carries no list"),
    }
}

#[test]
fn a_new_node_knows_nobody() {
    let n = SPS::new();
    assert_eq!(n.view.len(), 0);
    assert_eq!(n.ptable.len(), 0);
    assert_eq!(n.wlist.len(), 0);
    assert!(!n.done);
    assert_eq!(n.out_samples.len(), 0);
    assert_eq!((n.stats.count, n.stats.sum, n.stats.squares), (0, 0, 0));
}

#[test]
fn a_correct_node_starts_with_a_sampled_view() {
    let init = params();
    let mut net = network(7, 0);
    let expected = network(7, 0).sample_peers(4);
    let mut n = SPS::new();
    n.init(7, &mut net, &init);
    assert!(!n.is_byzantine);
    assert_eq!(n.my_id, 7);
    assert_eq!(n.n_nodes, 20);
    let mut keys = expected.clone();
    keys.sort();
    assert_eq!(n.view.keys(), keys);
    assert!(n.view.to_vec().iter().all(|e| e.1 == 0));
    assert_eq!(net.outbox.len(), 1);
    assert_eq!(net.outbox[0].dst, 7);
    assert_eq!(net.outbox[0].src, 7);
    assert_eq!(net.outbox[0].delivery_time, 1);
    assert!(matches!(net.outbox[0].payload, Msg::SelfNotif));
}

#[test]
fn a_byzantine_node_starts_with_an_empty_view() {
    let init = params();
    let mut net = network(2, 0);
    let mut n = SPS::new();
    n.init(2, &mut net, &init);
    assert!(n.is_byzantine);
    assert_eq!(n.view.len(), 0);
    assert_eq!(net.outbox.len(), 1);
    assert!(matches!(net.outbox[0].payload, Msg::SelfNotif));
    assert_eq!(net.dice.drawn, 0);
}

#[test]
fn a_request_is_answered_and_merged() {
    let init = params();
    let mut n = node(7, &init);
    let before = n.view.to_vec();
    let mut net = network(7, 9);
    let list = vec![(11, 8), (12, 9), (1, 7)];
    n.handle(&mut net, 5, &Msg::Request(list));
    // the reply carries the view as it was, and the node itself, seen now
    assert_eq!(net.outbox.len(), 1);
    assert_eq!(net.outbox[0].dst, 5);
    assert_eq!(net.outbox[0].delivery_time, 10);
    assert!(matches!(net.outbox[0].payload, Msg::Reply(_)));
    let mut expected = before.clone();
    expected.push((7, 9));
    assert_eq!(list_of(&net.outbox[0].payload), expected);
    // the three fresh peers push out the three oldest entries with the largest identities
    assert_eq!(n.view.len(), 4);
    assert_eq!(n.view.get(11), Some(8));
    assert_eq!(n.view.get(12), Some(9));
    assert_eq!(n.view.get(1), Some(7));
    let smallest = before.iter().map(|e| e.0).filter(|k| *k != 11 && *k != 12 && *k != 1).min();
    assert_eq!(n.view.get(smallest.unwrap()), Some(0));
    // the traffic is counted
    assert_eq!(n.n_received, 3);
    assert_eq!(n.n_byzantine_received, 1);
}

#[test]
fn a_merge_overwrites_the_timestamp_of_a_known_peer() {
    let init = params();
    let mut n = node(7, &init);
    let known = n.view.keys()[0];
    n.merge_view(&vec![(known, 6)]);
    assert_eq!(n.view.get(known), Some(6));
    assert_eq!(n.view.len(), 4);
    n.merge_view(&vec![(known, 2), (known, 3)]);
    assert_eq!(n.view.get(known), Some(3));
}

#[test]
fn a_request_from_a_blacklisted_peer_is_answered_but_not_merged() {
    let init = params();
    let mut n = node(7, &init);
    n.ptable.insert(5, PEntry { ts: 1, ttl: 3, hits: 9 });
    n.ptable.insert(6, PEntry { ts: 1, ttl: 3, hits: 1 });
    n.ptable.insert(8, PEntry { ts: 1, ttl: 3, hits: 1 });
    n.ptable.insert(9, PEntry { ts: 1, ttl: 3, hits: 1 });
    n.stats = HitStats { count: 4, sum: 12, squares: 84 };
    assert!(n.blacklisted(5));
    assert!(!n.blacklisted(6));
    assert!(!n.blacklisted(15));
    assert_eq!(n.compute_blacklist(), vec![5]);
    let before = n.view.to_vec();
    let mut net = network(7, 9);
    n.handle(&mut net, 5, &Msg::Request(vec![(11, 8), (12, 9)]));
    assert_eq!(net.outbox.len(), 1);
    assert!(matches!(net.outbox[0].payload, Msg::Reply(_)));
    assert_eq!(n.view.to_vec(), before);
    assert_eq!(n.n_received, 2);
}

#[test]
fn a_reply_that_is_not_integrated_feeds_the_statistics() {
    let init = params();
    let mut n = node(7, &init);
    let before = n.view.to_vec();
    let mut net = network(7, 9);
    // a reply from a peer that was not asked
    n.handle(&mut net, 13, &Msg::Reply(vec![(11, 8), (12, 9), (11, 9)]));
    assert_eq!(net.outbox.len(), 0);
    assert_eq!(net.dice.drawn, 1);
    assert_eq!(n.view.to_vec(), before);
    assert_eq!(n.ptable.len(), 2);
    let seen = n.ptable.get(11).unwrap();
    assert_eq!((seen.ts, seen.ttl, seen.hits), (8, 3, 2));
    let seen = n.ptable.get(12).unwrap();
    assert_eq!((seen.ts, seen.ttl, seen.hits), (9, 2, 1));
    assert_eq!((n.stats.count, n.stats.sum, n.stats.squares), (2, 3, 5));
    assert_eq!(n.n_received, 3);
    assert_eq!(n.n_byzantine_received, 0);
}

#[test]
fn one_reply_in_a_round_may_be_integrated() {
    let mut init = params();
    init.num_exchanges = 1;
    let mut n = node(7, &init);
    n.request_set = vec![13];
    n.done = false;
    let mut net = network(7, 9);
    // with one exchange in a round the toss always comes up
    n.handle(&mut net, 13, &Msg::Reply(vec![(11, 8)]));
    assert!(n.done);
    assert_eq!(n.view.get(11), Some(8));
    assert_eq!(n.ptable.len(), 0);
    // the next reply of the round goes to the statistics
    n.handle(&mut net, 13, &Msg::Reply(vec![(12, 9)]));
    assert_eq!(n.view.get(12), None);
    assert_eq!(n.ptable.len(), 1);
}

#[test]
fn counters_of_hits_and_lives_stop_at_the_largest_value() {
    let init = params();
    let mut n = node(7, &init);
    n.ptable.insert(11, PEntry { ts: 1, ttl: i64::MAX, hits: u32::MAX });
    n.update_statistics(&vec![(11, 5)]);
    let seen = n.ptable.get(11).unwrap();
    assert_eq!((seen.ts, seen.ttl, seen.hits), (1, i64::MAX, u32::MAX));
    n.n_received = usize::MAX - 1;
    let mut net = network(7, 9);
    n.handle(&mut net, 13, &Msg::Reply(vec![(11, 8), (12, 9), (11, 9)]));
    assert_eq!(n.n_received, usize::MAX);
}

fn with_outlier(n: &mut SPS, outlier: usize) {
    let others: Vec<usize> = (3..20).filter(|p| *p != outlier).take(5).collect();
    for p in others {
        n.ptable.insert(p, PEntry { ts: 1, ttl: 5, hits: 1 });
    }
    n.ptable.insert(outlier, PEntry { ts: 1, ttl: 5, hits: 50 });
}

fn strangers(n: &SPS) -> Vec<usize> {
    (3..20).filter(|p| !n.view.contains_key(*p) && *p != n.my_id).collect()
}

#[test]
fn a_blacklisted_peer_of_the_view_is_replaced_from_the_whitelist() {
    let init = params();
    let mut n = node(7, &init);
    let victim = n.view.keys()[1];
    with_outlier(&mut n, victim);
    let (old, fresh) = (strangers(&n)[0], strangers(&n)[1]);
    n.wlist.insert(old, 3);
    n.wlist.insert(fresh, 6);
    n.wlist.insert(victim, 9);
    n.update_statistics(&vec![]);
    assert!(n.blacklisted(victim));
    // the blacklisted peer has left the whitelist and the view
    assert!(!n.wlist.contains_key(victim));
    assert!(!n.view.contains_key(victim));
    // the most recent whitelisted peer has taken its place
    assert_eq!(n.view.get(fresh), Some(6));
    assert!(!n.view.contains_key(old));
    assert_eq!(n.view.len(), 4);
    assert!(n.view.keys().iter().all(|k| !n.blacklisted(*k)));
}

#[test]
fn a_blacklisted_peer_stays_where_there_is_no_substitute() {
    let init = params();
    let mut n = node(7, &init);
    let victim = n.view.keys()[1];
    let other = n.view.keys()[2];
    with_outlier(&mut n, victim);
    n.wlist.insert(other, 6);
    let before = n.view.to_vec();
    n.update_statistics(&vec![]);
    assert!(n.blacklisted(victim));
    assert_eq!(n.view.to_vec(), before);
}

#[test]
fn a_round_of_exchange_asks_peers_of_the_view_and_ages_the_table() {
    let init = params();
    let mut n = node(7, &init);
    n.ptable.insert(11, PEntry { ts: 4, ttl: 1, hits: 1 });
    n.ptable.insert(12, PEntry { ts: 5, ttl: 2, hits: 1 });
    n.ptable.insert(13, PEntry { ts: 6, ttl: 0, hits: 1 });
    n.done = true;
    let view = n.view.to_vec();
    // 7 + 2 = 9 is a multiple of the interval 3, not of the sampling frequency 2
    let mut net = network(7, 2);
    n.handle(&mut net, 7, &Msg::SelfNotif);
    assert!(!n.done);
    assert_eq!(n.request_set.len(), 2);
    assert!(n.request_set.iter().all(|p| n.view.contains_key(*p)));
    // two requests and the next tick
    assert_eq!(net.outbox.len(), 3);
    let mut advert = view.clone();
    advert.push((7, 2));
    for (i, p) in n.request_set.iter().enumerate() {
        assert_eq!(net.outbox[i].dst, *p);
        assert!(matches!(net.outbox[i].payload, Msg::Request(_)));
        assert_eq!(list_of(&net.outbox[i].payload), advert);
    }
    assert_eq!(net.outbox[2].dst, 7);
    assert!(matches!(net.outbox[2].payload, Msg::SelfNotif));
    // the records with no more than one round to live have moved to the whitelist
    assert_eq!(n.ptable.len(), 1);
    let kept = n.ptable.get(12).unwrap();
    assert_eq!((kept.ts, kept.ttl, kept.hits), (5, 1, 1));
    assert_eq!(n.wlist.to_vec(), vec![(11, 4), (13, 6)]);
    assert_eq!(n.view.to_vec(), view);
    assert_eq!(n.out_samples.len(), 0);
}

#[test]
fn off_phase_a_tick_only_sends_the_next_tick() {
    let init = params();
    let mut n = node(7, &init);
    n.done = true;
    // 7 + 4 = 11 is a multiple of neither 3 nor 2
    let mut net = network(7, 4);
    n.handle(&mut net, 7, &Msg::SelfNotif);
    assert!(n.done);
    assert_eq!(net.outbox.len(), 1);
    assert!(matches!(net.outbox[0].payload, Msg::SelfNotif));
    assert_eq!(net.dice.drawn, 0);
    assert_eq!(n.out_samples.len(), 0);
}

#[test]
fn samples_are_drawn_from_the_view_and_handed_out_once() {
    let init = params();
    let mut n = node(7, &init);
    // 7 + 1 = 8 is a multiple of the sampling frequency 2, not of the interval 3
    let mut net = network(7, 1);
    n.handle(&mut net, 7, &Msg::SelfNotif);
    assert_eq!(n.out_samples.len(), 2);
    assert!(n.out_samples.iter().all(|p| n.view.contains_key(*p)));
    let waiting = n.out_samples.clone();
    let mut dice = Dice::new(1, 1);
    assert_eq!(n.get_samples(&mut dice), waiting);
    assert_eq!(n.get_samples(&mut dice), Vec::<usize>::new());
    assert_eq!(dice.drawn, 0);
    n.handle(&mut net, 7, &Msg::SelfNotif);
    assert_eq!(n.out_samples.len(), 2);
    n.clear_samples();
    assert_eq!(n.get_samples(&mut dice), Vec::<usize>::new());
}

#[test]
fn the_buffer_of_samples_is_capped() {
    let init = params();
    let mut n = node(7, &init);
    n.out_samples = vec![1; 199];
    let mut net = network(7, 1);
    n.handle(&mut net, 7, &Msg::SelfNotif);
    // of the two samples drawn, one finds room
    assert_eq!(n.out_samples.len(), 200);
    assert!(n.view.contains_key(n.out_samples[199]));
    let full = n.out_samples.clone();
    n.handle(&mut net, 7, &Msg::SelfNotif);
    assert_eq!(n.out_samples, full);
    n.out_samples = vec![1; 198];
    n.handle(&mut net, 7, &Msg::SelfNotif);
    assert_eq!(n.out_samples.len(), 200);
}

#[test]
fn a_check_goes_to_a_blacklisted_peer() {
    let init = params();
    let mut n = node(7, &init);
    let suspect = strangers(&n)[0];
    with_outlier(&mut n, suspect);
    n.update_statistics(&vec![]);
    assert_eq!(n.compute_blacklist(), vec![suspect]);
    let mut net = network(7, 2);
    n.handle(&mut net, 7, &Msg::SelfNotif);
    assert_eq!(n.check, suspect);
    // two requests, the check and the next tick
    assert_eq!(net.outbox.len(), 4);
    assert_eq!(net.outbox[2].dst, suspect);
    assert!(matches!(net.outbox[2].payload, Msg::Request(_)));
}

#[test]
fn a_clean_reply_to_a_check_clears_the_peer() {
    let init = params();
    let mut n = node(7, &init);
    let suspect = strangers(&n)[0];
    with_outlier(&mut n, suspect);
    n.update_statistics(&vec![]);
    n.check = suspect;
    n.done = true;
    let mut net = network(7, 4);
    let (a, b) = (strangers(&n)[1], strangers(&n)[2]);
    n.handle(&mut net, suspect, &Msg::Reply(vec![(a, 3), (b, 3)]));
    assert!(!n.ptable.contains_key(suspect));
    assert_eq!(n.wlist.get(suspect), Some(1));
}

#[test]
fn a_reply_to_a_check_that_names_a_blacklisted_peer_clears_nobody() {
    let init = params();
    let mut n = node(7, &init);
    let suspect = strangers(&n)[0];
    with_outlier(&mut n, suspect);
    n.update_statistics(&vec![]);
    n.check = suspect;
    n.done = true;
    let mut net = network(7, 4);
    let a = strangers(&n)[1];
    n.handle(&mut net, suspect, &Msg::Reply(vec![(a, 3), (suspect, 3)]));
    assert!(n.ptable.contains_key(suspect));
    assert!(!n.wlist.contains_key(suspect));
}

#[test]
fn the_whitelist_is_cut_to_its_most_recent_entries() {
    let init = params();
    let mut n = node(7, &init);
    for (p, ts) in [(10usize, 1i64), (11, 7), (12, 3), (13, 9), (14, 5)] {
        n.wlist.insert(p, ts);
    }
    n.limit_wlist();
    assert_eq!(n.wlist.to_vec(), vec![(11, 7), (13, 9), (14, 5)]);
}

#[test]
fn a_byzantine_node_waits_for_the_start_of_the_attack() {
    let init = params();
    let mut n = node(1, &init);
    let mut net = network(1, 4);
    n.handle(&mut net, 1, &Msg::SelfNotif);
    assert_eq!(net.outbox.len(), 1);
    assert!(matches!(net.outbox[0].payload, Msg::SelfNotif));
    // before the attack it covers itself with correct peers
    for _ in 0..5 {
        n.handle(&mut net, 9, &Msg::Request(vec![(3, 3)]));
    }
    assert_eq!(net.outbox.len(), 6);
    for e in net.outbox.iter().skip(1) {
        assert_eq!(e.dst, 9);
        assert!(matches!(e.payload, Msg::Reply(_)));
        let cover = list_of(&e.payload);
        assert_eq!(cover.len(), 4);
        assert!(cover.iter().all(|c| 3 <= c.0 && c.0 < 20 && c.1 == 4));
    }
}

#[test]
fn a_byzantine_node_floods_with_byzantine_peers() {
    let init = params();
    let mut n = node(1, &init);
    let mut net = network(1, 5);
    n.handle(&mut net, 1, &Msg::SelfNotif);
    assert_eq!(net.outbox.len(), 5);
    let mut targets = Vec::new();
    for e in net.outbox.iter().take(4) {
        assert!(matches!(e.payload, Msg::Request(_)));
        let bait = list_of(&e.payload);
        // no more Byzantine peers than there are
        assert_eq!(bait.len(), 3);
        assert!(bait.iter().all(|b| b.0 < 3 && b.1 == 5));
        targets.push(e.dst);
    }
    targets.sort();
    targets.dedup();
    assert_eq!(targets.len(), 4);
    assert!(matches!(net.outbox[4].payload, Msg::SelfNotif));
    n.handle(&mut net, 9, &Msg::Request(vec![(3, 3)]));
    let bait = list_of(&net.outbox[5].payload);
    assert!(matches!(net.outbox[5].payload, Msg::Reply(_)));
    assert!(bait.iter().all(|b| b.0 < 3 && b.1 == 5));
    // it ignores replies
    n.handle(&mut net, 9, &Msg::Reply(vec![(3, 3)]));
    assert_eq!(net.outbox.len(), 6);
    assert_eq!(n.ptable.len(), 0);
    assert_eq!(n.n_received, 0);
}

#[test]
fn a_correct_node_reports_its_traffic_and_neighbours() {
    let init = params();
    let mut n = node(7, &init);
    n.view = bignetrs::peer_map::PeerMap::new();
    n.view.insert(1, 0);
    n.view.insert(2, 0);
    n.view.insert(9, 0);
    n.n_received = 12;
    n.n_byzantine_received = 5;
    let net = network(7, 3);
    let m = n.metrics(&net);
    assert_eq!(m.n_procs, 1);
    assert_eq!(m.n_received, 12);
    assert_eq!(m.n_byzantine_received, 5);
    assert_eq!(m.n_byzantine_neighbors, 2);
    assert_eq!(m.min_byzantine_neighbors, Some(2));
    assert_eq!(m.max_byzantine_neighbors, Some(2));
    assert_eq!(m.n_isolated, 0);
    assert_eq!(n.n_received, 0);
    assert_eq!(n.n_byzantine_received, 0);
    assert_eq!(m.values(), vec!["12.00", "5.00", "0.4167", "2.00", "2", "2", "0"]);
    n.view.remove(9);
    assert_eq!(n.metrics(&net).n_isolated, 1);
    let mut b = node(1, &init);
    let m = b.metrics(&net);
    assert_eq!(m.n_procs, 0);
    assert_eq!(m.min_byzantine_neighbors, None);
}

fn record(n: usize, min: Option<usize>, max: Option<usize>) -> Metrics {
    Metrics {
        n_procs: n,
        n_byzantine_received: 2 * n,
        n_received: 5 * n,
        n_byzantine_neighbors: 3 * n,
        min_byzantine_neighbors: min,
        max_byzantine_neighbors: max,
        n_isolated: n / 2,
    }
}

fn combined(a: &Metrics, b: &Metrics) -> Vec<String> {
    let mut c = *a;
    c.net_combine(b);
    let mut v = c.values();
    v.push(format!("{}", c.n_procs));
    v
}

#[test]
fn records_merge_in_any_order_and_grouping() {
    let e = Metrics::empty();
    let x = record(3, Some(2), Some(7));
    let y = record(4, Some(1), Some(5));
    let z = record(1, None, None);
    assert_eq!(combined(&e, &x), combined(&x, &e));
    let mut same = x;
    same.net_combine(&e);
    assert_eq!(same.n_procs, 3);
    assert_eq!(same.min_byzantine_neighbors, Some(2));
    assert_eq!(combined(&x, &y), combined(&y, &x));
    assert_eq!(combined(&x, &z), combined(&z, &x));
    let mut xy = x;
    xy.net_combine(&y);
    assert_eq!(xy.n_procs, 7);
    assert_eq!(xy.min_byzantine_neighbors, Some(1));
    assert_eq!(xy.max_byzantine_neighbors, Some(7));
    assert_eq!(xy.n_received, 35);
    let mut yz = y;
    yz.net_combine(&z);
    assert_eq!(combined(&xy, &z), combined(&x, &yz));
    assert_eq!(combined(&xy, &z)[4], "1");
    assert_eq!(combined(&z, &z)[4], "-1");
}

#[test]
fn a_record_of_nothing_is_given_in_sentinels() {
    assert_eq!(
        Metrics::headers(),
        vec!["avgRecv", "avgByzRecv", "pByzRecv", "avgByzN", "min", "max", "n_isolated"]
    );
    assert_eq!(Metrics::empty().values(), vec!["-1", "-1", "-1", "-1", "-1", "-1", "0"]);
}

#[test]
fn a_timestamp_is_the_time_as_far_as_timestamps_go() {
    assert_eq!(to_stamp(0), 0);
    assert_eq!(to_stamp(41), 41);
    assert_eq!(to_stamp(i64::MAX as u64), i64::MAX);
    assert_eq!(to_stamp(i64::MAX as u64 + 1), i64::MAX);
    assert_eq!(to_stamp(u64::MAX), i64::MAX);
}

#[test]
fn a_merge_takes_timestamps_below_zero() {
    let init = params();
    let mut n = node(7, &init);
    let known = n.view.keys()[0];
    n.merge_view(&vec![(known, -5)]);
    // the entry is now the oldest of the view, and the first to go
    assert_eq!(n.view.get(known), Some(-5));
    let fresh = strangers(&n)[0];
    n.merge_view(&vec![(fresh, -3)]);
    assert_eq!(n.view.len(), 4);
    assert_eq!(n.view.get(fresh), Some(-3));
    assert!(!n.view.contains_key(known));
}
