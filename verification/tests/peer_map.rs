use bignetrs::app::sps::{
    compute_blacklist, compute_stats, keep_most_recent, HitStats, PEntry,
};
use bignetrs::peer_map::PeerMap;

fn map_of(entries: &[(usize, i64)]) -> PeerMap<i64> {
    let mut m = PeerMap::new();
    for (k, v) in entries {
        m.insert(*k, *v);
    }
    m
}

#[test]
fn peer_map_keeps_its_keys_in_order() {
    let mut m: PeerMap<i64> = PeerMap::new();
    assert_eq!(m.len(), 0);
    assert_eq!(m.get(3), None);
    m.insert(5, 50);
    m.insert(1, 10);
    m.insert(9, 90);
    m.insert(3, 30);
    assert_eq!(m.len(), 4);
    assert_eq!(m.keys(), vec![1, 3, 5, 9]);
    assert_eq!(m.to_vec(), vec![(1, 10), (3, 30), (5, 50), (9, 90)]);
    assert_eq!(m.entry(2), (5, 50));
    assert_eq!(m.get(5), Some(50));
    assert_eq!(m.get(4), None);
    assert!(m.contains_key(9));
    assert!(!m.contains_key(0));
    // a key that is there gets a new value
    m.insert(5, 55);
    assert_eq!(m.len(), 4);
    assert_eq!(m.get(5), Some(55));
    assert_eq!(m.remove(3), Some(30));
    assert_eq!(m.remove(3), None);
    assert_eq!(m.to_vec(), vec![(1, 10), (5, 55), (9, 90)]);
    assert_eq!(m.remove(1), Some(10));
    assert_eq!(m.remove(9), Some(90));
    assert_eq!(m.remove(5), Some(55));
    assert_eq!(m.len(), 0);
}

#[test]
fn most_recent_cap() {
    // {a:1, b:3, c:2, d:5} cut to 2 is {b:3, d:5}
    let m = map_of(&[(1, 1), (2, 3), (3, 2), (4, 5)]);
    let kept = keep_most_recent(m, 2);
    assert_eq!(kept.to_vec(), vec![(2, 3), (4, 5)]);
}

#[test]
fn most_recent_cap_breaks_ties_by_identity() {
    let m = map_of(&[(7, 5), (2, 5), (9, 5), (4, 5)]);
    assert_eq!(keep_most_recent(m, 2).to_vec(), vec![(2, 5), (4, 5)]);
    let m = map_of(&[(7, 5), (2, 4), (9, 5), (4, 6)]);
    assert_eq!(keep_most_recent(m, 2).to_vec(), vec![(4, 6), (7, 5)]);
}

#[test]
fn most_recent_cap_with_timestamps_below_zero() {
    let m = map_of(&[(1, -7), (2, 3), (3, -2), (4, i64::MIN), (5, i64::MAX), (6, 0)]);
    assert_eq!(keep_most_recent(m, 3).to_vec(), vec![(2, 3), (5, i64::MAX), (6, 0)]);
    let m = map_of(&[(1, -7), (2, -7), (3, -9), (4, i64::MIN)]);
    assert_eq!(keep_most_recent(m, 2).to_vec(), vec![(1, -7), (2, -7)]);
    let m = map_of(&[(1, -7), (2, -7), (3, -9), (4, i64::MIN)]);
    assert_eq!(keep_most_recent(m, 3).to_vec(), vec![(1, -7), (2, -7), (3, -9)]);
}

#[test]
fn most_recent_cap_at_the_edges() {
    let entries = [(1, 1), (2, 3), (3, 2), (4, 5)];
    assert_eq!(keep_most_recent(map_of(&entries), 0).len(), 0);
    assert_eq!(keep_most_recent(map_of(&entries), 4).to_vec(), entries.to_vec());
    assert_eq!(keep_most_recent(map_of(&entries), 9).to_vec(), entries.to_vec());
    assert_eq!(keep_most_recent(map_of(&entries), 1).to_vec(), vec![(4, 5)]);
    assert_eq!(keep_most_recent(map_of(&entries), 3).to_vec(), vec![(2, 3), (3, 2), (4, 5)]);
    assert_eq!(keep_most_recent(PeerMap::new(), 3).len(), 0);
}

#[test]
fn most_recent_cap_twice_is_once() {
    let entries = [(1, 8), (2, 3), (3, 8), (4, 5), (5, 0), (6, 3), (7, 9)];
    for k in 0..9 {
        let once = keep_most_recent(map_of(&entries), k);
        let expected = once.to_vec();
        assert_eq!(expected.len(), std::cmp::min(k, 7));
        let twice = keep_most_recent(once, k);
        assert_eq!(twice.to_vec(), expected);
    }
}

fn table_of(hits: &[(usize, u32)]) -> PeerMap<PEntry> {
    let mut t = PeerMap::new();
    for (k, h) in hits {
        t.insert(*k, PEntry { ts: 0, ttl: 4, hits: *h });
    }
    t
}

#[test]
fn hit_statistics_are_the_sums() {
    let t = table_of(&[(1, 1), (2, 1), (3, 1), (4, 9)]);
    let s = compute_stats(&t);
    assert_eq!((s.count, s.sum, s.squares), (4, 12, 84));
    let none = compute_stats(&PeerMap::new());
    assert_eq!((none.count, none.sum, none.squares), (0, 0, 0));
}

#[test]
fn a_count_above_mean_plus_deviation_is_exceeding() {
    // mean 3, deviation sqrt(12) = 3.46...
    let s = HitStats { count: 4, sum: 12, squares: 84 };
    assert!(!s.is_exceeded_by(0));
    assert!(!s.is_exceeded_by(3));
    assert!(!s.is_exceeded_by(6));
    assert!(s.is_exceeded_by(7));
    assert!(s.is_exceeded_by(9));
    assert!(s.is_exceeded_by(u32::MAX));
    // mean 2, deviation 1: 3 is on the threshold and does not exceed it
    let s = HitStats { count: 2, sum: 4, squares: 10 };
    assert!(!s.is_exceeded_by(3));
    assert!(s.is_exceeded_by(4));
    // all counts the same: deviation 0
    let s = HitStats { count: 3, sum: 15, squares: 75 };
    assert!(!s.is_exceeded_by(5));
    assert!(s.is_exceeded_by(6));
}

#[test]
fn nothing_exceeds_the_statistics_of_nothing() {
    let s = HitStats::new();
    assert!(!s.is_exceeded_by(0));
    assert!(!s.is_exceeded_by(1));
    assert!(!s.is_exceeded_by(u32::MAX));
}

#[test]
fn statistics_of_the_largest_counts_do_not_overflow() {
    let m = u32::MAX as u128;
    let s = HitStats { count: u32::MAX, sum: (m * m) as u64, squares: m * m * m };
    assert!(!s.is_exceeded_by(u32::MAX));
    let s = HitStats { count: u32::MAX, sum: 0, squares: 0 };
    assert!(s.is_exceeded_by(u32::MAX));
    assert!(!s.is_exceeded_by(0));
}

#[test]
fn the_blacklist_holds_the_outliers_in_ascending_order() {
    let t = table_of(&[(9, 9), (1, 1), (2, 1), (3, 1), (5, 8), (6, 1), (7, 1), (8, 1)]);
    let s = compute_stats(&t);
    assert_eq!(compute_blacklist(&t, &s), vec![5, 9]);
    let flat = table_of(&[(1, 4), (2, 4), (3, 4)]);
    assert_eq!(compute_blacklist(&flat, &compute_stats(&flat)), Vec::<usize>::new());
    // under the statistics of nothing, nobody is blacklisted
    assert_eq!(compute_blacklist(&t, &HitStats::new()), Vec::<usize>::new());
}
