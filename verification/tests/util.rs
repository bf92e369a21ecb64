use bignetrs::net::peers_upto;
use bignetrs::text::{to_decimal, to_decimal_or_sentinel, to_fixed_point, to_padded};
use bignetrs::util::{add_capped, either_or_if_both, hash, sample, sample_nocopy, shuffle, Dice};

fn sorted(mut v: Vec<usize>) -> Vec<usize> {
    v.sort();
    v
}

#[test]
fn either_or_if_both_keeps_the_one_that_is_present() {
    let add = |a: &u64, b: &u64| *a + *b;
    assert_eq!(either_or_if_both(&None, &None, add), None);
    assert_eq!(either_or_if_both(&Some(3), &None, add), Some(3));
    assert_eq!(either_or_if_both(&None, &Some(4), add), Some(4));
    assert_eq!(either_or_if_both(&Some(3), &Some(4), add), Some(7));
    let min = |a: &u64, b: &u64| std::cmp::min(*a, *b);
    assert_eq!(either_or_if_both(&Some(3), &Some(4), min), Some(3));
}

#[test]
fn hash_is_the_xxhash_of_seed_and_peer() {
    let mut bytes = Vec::new();
    bytes.extend_from_slice(&7u64.to_le_bytes());
    bytes.extend_from_slice(&42u64.to_le_bytes());
    assert_eq!(hash(7, 42), fasthash::xx::hash64(&bytes));
    assert_eq!(hash(7, 42), hash(7, 42));
    assert_ne!(hash(7, 42), hash(7, 43));
    assert_ne!(hash(7, 42), hash(8, 42));
    assert_ne!(hash(7, 42), 7);
    assert_ne!(hash(7, 42), 42);
}

#[test]
fn dice_with_the_same_key_give_the_same_draws() {
    let mut a = Dice::new(5, 9);
    let mut b = Dice::new(5, 9);
    let ra: Vec<u64> = (0..16).map(|_| a.roll(1 << 40)).collect();
    let rb: Vec<u64> = (0..16).map(|_| b.roll(1 << 40)).collect();
    assert_eq!(ra, rb);
    assert_eq!(a.drawn, 16);
    assert_eq!(a, b);
    // the draws are not all the same, and none is the bound handed in
    assert!(ra.iter().any(|r| *r != ra[0]));
    assert!(ra.iter().all(|r| *r < (1 << 40)));
    // another stream, seed or place in the stream gives other draws
    let mut c = Dice::new(5, 10);
    let rc: Vec<u64> = (0..16).map(|_| c.roll(1 << 40)).collect();
    assert_ne!(rc, ra);
    let mut d = Dice::new(6, 9);
    let rd: Vec<u64> = (0..16).map(|_| d.roll(1 << 40)).collect();
    assert_ne!(rd, ra);
    let mut e = Dice { seed: 5, stream: 9, drawn: 3 };
    assert_eq!(e.roll(1 << 40), ra[3]);
}

#[test]
fn dice_wrap_around() {
    let mut d = Dice { seed: 1, stream: 2, drawn: u64::MAX };
    let r = d.roll(10);
    assert!(r < 10);
    assert_eq!(d.drawn, 0);
    assert_eq!(d.seed, 1);
    assert_eq!(d.stream, 2);
}

#[test]
fn a_roll_is_below_its_bound() {
    for bound in [1u64, 2, 7, 1000, u64::MAX] {
        let mut d = Dice::new(3, 4);
        for _ in 0..50 {
            assert!(d.roll(bound) < bound);
        }
        assert_eq!(d.drawn, 50);
    }
    assert_eq!(Dice::new(3, 4).roll(1), 0);
}

#[test]
fn rolls_cover_the_range() {
    let mut d = Dice::new(11, 0);
    let mut seen = [false; 6];
    for _ in 0..200 {
        seen[d.roll(6) as usize] = true;
    }
    assert!(seen.iter().all(|s| *s));
}

#[test]
fn sample_draws_distinct_items() {
    let from = peers_upto(50);
    let mut dice = Dice::new(1, 1);
    let s = sample(&from, 10, &mut dice);
    assert_eq!(s.len(), 10);
    assert!(s.iter().all(|x| *x < 50));
    let mut d = sorted(s.clone());
    d.dedup();
    assert_eq!(d.len(), 10);
    assert_eq!(dice.drawn, 10);
    // the same stream gives the same sample
    let mut again = Dice::new(1, 1);
    assert_eq!(sample(&from, 10, &mut again), s);
    // the stream has moved on
    assert_ne!(sample(&from, 10, &mut dice), s);
}

#[test]
fn sample_of_all_is_the_list_itself() {
    let from = vec![7usize, 3, 9];
    let mut dice = Dice::new(1, 1);
    assert_eq!(sample(&from, 3, &mut dice), from);
    assert_eq!(sample(&from, 10, &mut dice), from);
    assert_eq!(dice.drawn, 0);
    assert_eq!(sample(&from, 0, &mut dice), Vec::<usize>::new());
    let none: Vec<usize> = Vec::new();
    assert_eq!(sample(&none, 4, &mut dice), none);
    assert_eq!(dice.drawn, 0);
}

#[test]
fn sample_is_the_end_of_a_partial_shuffle() {
    // step 4 exchanges the last item with one of all five, step 3 the item before
    // with one of the first four; the sample is what stands at these two places
    let from = vec![10usize, 20, 30, 40, 50];
    let mut draws = Dice::new(8, 2);
    let mut expected = from.clone();
    let j = draws.roll(5) as usize;
    expected.swap(4, j);
    let j = draws.roll(4) as usize;
    expected.swap(3, j);
    let mut dice = Dice::new(8, 2);
    assert_eq!(sample(&from, 2, &mut dice), expected[3..].to_vec());
    assert_eq!(dice, draws);
    let mut dice = Dice::new(8, 2);
    let mut pool = from.clone();
    assert_eq!(sample_nocopy(&mut pool, 2, &mut dice), expected[3..].to_vec());
    assert_eq!(pool, expected);
}

#[test]
fn a_shuffle_runs_from_the_end_down_to_the_second_item() {
    let mut draws = Dice::new(9, 9);
    let mut expected = vec![1usize, 2, 3, 4];
    for i in [3usize, 2, 1] {
        let j = draws.roll(i as u64 + 1) as usize;
        expected.swap(i, j);
    }
    let mut list = vec![1usize, 2, 3, 4];
    let mut dice = Dice::new(9, 9);
    shuffle(&mut list, &mut dice);
    assert_eq!(list, expected);
    assert_eq!(dice.drawn, 3);
}

#[test]
fn sample_picks_every_item_sometimes() {
    let from = peers_upto(8);
    let mut dice = Dice::new(2, 2);
    let mut seen = [0usize; 8];
    for _ in 0..400 {
        for x in sample(&from, 2, &mut dice) {
            seen[x] += 1;
        }
    }
    assert!(seen.iter().all(|c| *c > 50));
}

#[test]
fn sample_nocopy_shuffles_in_place() {
    let mut from = peers_upto(30);
    let mut dice = Dice::new(4, 4);
    let s = sample_nocopy(&mut from, 12, &mut dice);
    assert_eq!(s.len(), 12);
    assert_eq!(s, from[18..].to_vec());
    assert_ne!(from, peers_upto(30));
    assert_eq!(sorted(from.clone()), peers_upto(30));
    let mut all = peers_upto(5);
    assert_eq!(sample_nocopy(&mut all, 5, &mut dice), peers_upto(5));
    assert_eq!(all, peers_upto(5));
}

#[test]
fn sample_nocopy_leaves_the_list_where_little_is_asked_for() {
    // less than a quarter of the list
    for n in 0..5 {
        let mut from = peers_upto(20);
        let mut dice = Dice::new(4, 4);
        let s = sample_nocopy(&mut from, n, &mut dice);
        assert_eq!(from, peers_upto(20));
        assert_eq!(s.len(), n);
        assert_eq!(s, sample(&peers_upto(20), n, &mut Dice::new(4, 4)));
        let mut d = sorted(s.clone());
        d.dedup();
        assert_eq!(d.len(), n);
    }
    // a quarter of the list
    let mut from = peers_upto(20);
    let s = sample_nocopy(&mut from, 5, &mut Dice::new(4, 4));
    assert_eq!(s, from[15..].to_vec());
    assert_eq!(s, sample(&peers_upto(20), 5, &mut Dice::new(4, 4)));
    assert_eq!(sorted(from.clone()), peers_upto(20));
}

#[test]
fn peers_upto_counts_from_zero() {
    assert_eq!(peers_upto(0), Vec::<usize>::new());
    assert_eq!(peers_upto(4), vec![0, 1, 2, 3]);
}

#[test]
fn counters_stop_at_the_largest_value() {
    assert_eq!(add_capped(2, 3), 5);
    assert_eq!(add_capped(usize::MAX, 0), usize::MAX);
    assert_eq!(add_capped(usize::MAX, 1), usize::MAX);
    assert_eq!(add_capped(usize::MAX - 1, 1), usize::MAX);
    assert_eq!(add_capped(usize::MAX - 1, 7), usize::MAX);
    // capped addition is associative and commutative
    let (a, b, c) = (usize::MAX - 5, 3, 4);
    assert_eq!(add_capped(add_capped(a, b), c), add_capped(a, add_capped(b, c)));
    assert_eq!(add_capped(a, b), add_capped(b, a));
}

#[test]
fn numbers_as_text() {
    assert_eq!(to_decimal(0), "0");
    assert_eq!(to_decimal(7), "7");
    assert_eq!(to_decimal(10), "10");
    assert_eq!(to_decimal(1234567890123), "1234567890123");
    assert_eq!(to_decimal(u128::MAX), u128::MAX.to_string());
    assert_eq!(to_padded(7, 3), "007");
    assert_eq!(to_padded(1234, 2), "34");
    assert_eq!(to_padded(5, 0), "");
    assert_eq!(to_decimal_or_sentinel(Some(12)), "12");
    assert_eq!(to_decimal_or_sentinel(None), "-1");
}

#[test]
fn ratios_as_text() {
    assert_eq!(to_fixed_point(1, 3, 2), "0.33");
    assert_eq!(to_fixed_point(2, 3, 2), "0.67");
    assert_eq!(to_fixed_point(1, 2, 2), "0.50");
    assert_eq!(to_fixed_point(1, 8, 2), "0.13");
    assert_eq!(to_fixed_point(7, 2, 4), "3.5000");
    assert_eq!(to_fixed_point(0, 5, 2), "0.00");
    assert_eq!(to_fixed_point(5, 5, 0), "1.");
    assert_eq!(to_fixed_point(199, 200, 2), "1.00");
    assert_eq!(to_fixed_point(1, 3, 4), "0.3333");
    assert_eq!(to_fixed_point(usize::MAX, 1, 2), format!("{}.00", usize::MAX));
    // a ratio without a denominator is given as the sentinel
    assert_eq!(to_fixed_point(5, 0, 2), "-1");
    assert_eq!(to_fixed_point(0, 0, 4), "-1");
}

#[test]
fn shuffle_keeps_the_items() {
    let mut list = peers_upto(40);
    let mut dice = Dice::new(6, 6);
    shuffle(&mut list, &mut dice);
    assert_ne!(list, peers_upto(40));
    assert_eq!(sorted(list.clone()), peers_upto(40));
    assert_eq!(dice.drawn, 39);
    let mut again = peers_upto(40);
    shuffle(&mut again, &mut Dice::new(6, 6));
    assert_eq!(again, list);
    let mut none: Vec<usize> = Vec::new();
    shuffle(&mut none, &mut dice);
    assert_eq!(none.len(), 0);
    let mut one = vec![3usize];
    shuffle(&mut one, &mut dice);
    assert_eq!(one, vec![3]);
}
