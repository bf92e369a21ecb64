//! Sampling utilities: keyed random draws, uniform sampling without
//! replacement, a seeded hash and an option merge.

use vstd::prelude::*;

verus! {

/// The identity of a node: a dense index into the population.
pub type PeerRef = usize;

/// The number below `bound` that the keyed generator yields first, for
/// the key made of `seed`, `stream` and `index`.
pub uninterp spec fn drawn_below(seed: u64, stream: u64, index: u64, bound: u64) -> u64;

/// The 64-bit xxHash of the sixteen bytes made of `seed` and `peer`.
pub uninterp spec fn xx_hashed(seed: u64, peer: u64) -> u64;

/// Calls `ChaChaRng::from_seed` and `Rng::gen_range` of the `rand` crate.
///
/// The generator is built afresh from a 32-byte key that holds `seed`,
/// `stream` and `index` in little-endian order, followed by zeros, and is
/// asked once for a `u64` in `0..bound`. Nothing else feeds the generator,
/// and the range is sampled in 64-bit arithmetic on every platform, so the
/// number depends on the four arguments alone. `gen_range` returns a value
/// of the half-open range it is given, and panics on an empty one.
#[verifier::external_body]
#[allow(deprecated)]
fn keyed_below(seed: u64, stream: u64, index: u64, bound: u64) -> (r: u64)
    requires
        bound > 0,
    ensures
        r == drawn_below(seed, stream, index, bound),
        r < bound,
{
    let mut key = [0u8; 32];
    key[..8].copy_from_slice(&seed.to_le_bytes());
    key[8..16].copy_from_slice(&stream.to_le_bytes());
    key[16..24].copy_from_slice(&index.to_le_bytes());
    let mut rng: rand::ChaChaRng = rand::SeedableRng::from_seed(key);
    rand::Rng::gen_range(&mut rng, 0u64, bound)
}

/// Calls `XXHasher::default`, `Hasher::write` and `Hasher::finish` of the
/// `fasthash` crate.
///
/// The hasher is fed the little-endian bytes of `seed`, then those of
/// `peer`; `finish` returns the unseeded 64-bit xxHash of the bytes written,
/// which depends on the two arguments alone.
#[verifier::external_body]
fn xx_hash(seed: u64, peer: u64) -> (r: u64)
    ensures
        r == xx_hashed(seed, peer),
{
    let mut s = fasthash::XXHasher::default();
    std::hash::Hasher::write(&mut s, &seed.to_le_bytes());
    std::hash::Hasher::write(&mut s, &peer.to_le_bytes());
    std::hash::Hasher::finish(&s)
}

/// A reproducible stream of random draws.
///
/// A stream is named by a `seed` and a `stream` number; `drawn` counts the
/// draws made so far and wraps around at the largest `u64`. Two streams with
/// the same three fields yield the same draws.
#[derive(Clone, Copy, PartialEq, Eq, Structural, Debug)]
pub struct Dice {
    pub seed: u64,
    pub stream: u64,
    pub drawn: u64,
}

impl Dice {
    /// The next draw of a number below `bound`.
    pub open spec fn rolled(self, bound: u64) -> u64 {
        drawn_below(self.seed, self.stream, self.drawn, bound)
    }

    /// The stream after one draw.
    pub open spec fn advanced(self) -> Dice {
        Dice {
            seed: self.seed,
            stream: self.stream,
            drawn: if self.drawn == u64::MAX {
                0
            } else {
                (self.drawn + 1) as u64
            },
        }
    }

    /// Whether `later` is this stream after some number of draws.
    pub open spec fn same_stream(self, later: Dice) -> bool {
        self.seed == later.seed && self.stream == later.stream
    }

    /// A stream at its start.
    pub fn new(seed: u64, stream: u64) -> (r: Dice)
        ensures
            r == (Dice { seed, stream, drawn: 0 }),
    {
        Dice { seed, stream, drawn: 0 }
    }

    /// Draws a number in `0..bound`.
    pub fn roll(&mut self, bound: u64) -> (r: u64)
        requires
            bound > 0,
        ensures
            r == old(self).rolled(bound),
            r < bound,
            *final(self) == old(self).advanced(),
    {
        let r = keyed_below(self.seed, self.stream, self.drawn, bound);
        self.drawn = if self.drawn == u64::MAX {
            0
        } else {
            self.drawn + 1
        };
        r
    }
}

/// The sum of two counters, held at the largest value a counter can have.
pub open spec fn sat_add(a: usize, b: usize) -> usize {
    if a + b > usize::MAX {
        usize::MAX
    } else {
        (a + b) as usize
    }
}

/// Adds two counters; the sum stops at the largest value a counter can have.
pub fn add_capped(a: usize, b: usize) -> (r: usize)
    ensures
        r == sat_add(a, b),
{
    if a > usize::MAX - b {
        usize::MAX
    } else {
        a + b
    }
}

/// Capped addition is commutative and associative, and 0 changes nothing.
pub proof fn lemma_sat_add(a: usize, b: usize, c: usize)
    ensures
        sat_add(0, a) == a,
        sat_add(a, b) == sat_add(b, a),
        sat_add(sat_add(a, b), c) == sat_add(a, sat_add(b, c)),
{
}

/// The hash of a peer under a seed.
pub fn hash(seed: u64, peer: PeerRef) -> (r: u64)
    ensures
        r == xx_hashed(seed, peer as u64),
{
    xx_hash(seed, peer as u64)
}

/// Merges two optional values: the one that is present, or `f` of both.
pub fn either_or_if_both<T: Copy, F: Fn(&T, &T) -> T>(a: &Option<T>, b: &Option<T>, f: F) -> (r:
    Option<T>)
    requires
        a is Some && b is Some ==> f.requires((&a->0, &b->0)),
    ensures
        a is None ==> r == *b,
        b is None ==> r == *a,
        a is Some && b is Some ==> r is Some && f.ensures((&a->0, &b->0), r->0),
{
    match (a, b) {
        (None, x) => *x,
        (x, None) => *x,
        (Some(x), Some(y)) => Some(f(x, y)),
    }
}

/// `s` with the items at `i` and `j` exchanged.
pub open spec fn swapped<T>(s: Seq<T>, i: int, j: int) -> Seq<T> {
    s.update(i, s[j]).update(j, s[i])
}

/// `s` and the stream after the steps `hi - 1` down to `lo` of the shuffle
/// that `rand` runs on a slice: step `i` exchanges the item at `i` with
/// one drawn from the positions `0..=i`. The items from `lo` on are then a
/// sample of `s` without replacement.
pub open spec fn shuffled<T>(s: Seq<T>, lo: nat, hi: nat, dice: Dice) -> (Seq<T>, Dice)
    decreases hi,
{
    if hi <= lo || hi > s.len() {
        (s, dice)
    } else {
        let i = (hi - 1) as nat;
        shuffled(swapped(s, i as int, dice.rolled((i + 1) as u64) as int), lo, i, dice.advanced())
    }
}

/// What [`sample`] returns and what it leaves of the stream.
pub open spec fn sample_spec<T>(from: Seq<T>, n: nat, dice: Dice) -> (Seq<T>, Dice) {
    if n >= from.len() {
        (from, dice)
    } else {
        let mixed = shuffled(from, (from.len() - n) as nat, from.len(), dice);
        (mixed.0.skip(from.len() - n), mixed.1)
    }
}

/// What [`sample_nocopy`] returns, what it leaves in `from` and what it
/// leaves of the stream. The sample is that of [`sample`]; `from` is left
/// as it was where all of it is returned or less than a quarter of it is
/// asked for, and shuffled as far as the sample needs it elsewhere.
pub open spec fn sample_nocopy_spec<T>(from: Seq<T>, n: nat, dice: Dice) -> (Seq<T>, Seq<T>, Dice) {
    if n >= from.len() || n < from.len() / 4 {
        (sample_spec(from, n, dice).0, from, sample_spec(from, n, dice).1)
    } else {
        let mixed = shuffled(from, (from.len() - n) as nat, from.len(), dice);
        (mixed.0.skip(from.len() - n), mixed.0, mixed.1)
    }
}

/// What [`shuffle`] leaves in the list and of the stream.
pub open spec fn shuffle_spec<T>(s: Seq<T>, dice: Dice) -> (Seq<T>, Dice) {
    shuffled(s, 1, s.len(), dice)
}

/// Exchanging two items keeps every item as often as before.
pub proof fn lemma_swapped_permutes<T>(s: Seq<T>, i: int, j: int)
    requires
        0 <= i < s.len(),
        0 <= j < s.len(),
    ensures
        swapped(s, i, j).len() == s.len(),
        swapped(s, i, j).to_multiset() == s.to_multiset(),
{
    broadcast use vstd::multiset::group_multiset_axioms;

    let a = s.update(i, s[j]);
    vstd::seq_lib::to_multiset_update(s, i, s[j]);
    vstd::seq_lib::to_multiset_update(a, j, s[i]);
    vstd::seq_lib::to_multiset_contains(s, s[i]);
    vstd::seq_lib::to_multiset_contains(s, s[j]);
    assert(s.contains(s[i]));
    assert(s.contains(s[j]));
    assert(a[j] == s[j]);
    assert(swapped(s, i, j).to_multiset() =~= s.to_multiset());
}

/// The items of a list from `lo` on are items of every list that holds
/// the same items as often, and no item twice where that list holds none
/// twice.
pub proof fn lemma_tail_of_permutation<T>(mixed: Seq<T>, from: Seq<T>, lo: int)
    requires
        0 <= lo <= mixed.len(),
        mixed.to_multiset() == from.to_multiset(),
    ensures
        forall|x: T| mixed.skip(lo).contains(x) ==> from.contains(x),
        from.no_duplicates() ==> mixed.skip(lo).no_duplicates(),
{
    let r = mixed.skip(lo);
    assert forall|x: T| r.contains(x) implies from.contains(x) by {
        let i = choose|i: int| 0 <= i < r.len() && r[i] == x;
        assert(mixed[lo + i] == x);
        assert(mixed.contains(x));
        vstd::seq_lib::to_multiset_contains(mixed, x);
        vstd::seq_lib::to_multiset_contains(from, x);
    }
    if from.no_duplicates() {
        from.lemma_multiset_has_no_duplicates();
        mixed.lemma_multiset_has_no_duplicates_conv();
        assert forall|i: int, j: int| 0 <= i < r.len() && 0 <= j < r.len() && i != j implies r[i]
            != r[j] by {
            assert(mixed[lo + i] != mixed[lo + j]);
        }
    }
}

/// Runs the steps of the shuffle from the end of `pool` down to `lo`.
fn shuffle_down<T: Copy>(pool: &mut Vec<T>, lo: usize, dice: &mut Dice)
    ensures
        (final(pool)@, *final(dice)) == shuffled(
            old(pool)@,
            lo as nat,
            old(pool)@.len(),
            *old(dice),
        ),
        final(pool)@.len() == old(pool)@.len(),
        final(pool)@.to_multiset() == old(pool)@.to_multiset(),
        old(dice).same_stream(*final(dice)),
{
    let len = pool.len();
    let mut hi: usize = len;
    while hi > lo
        invariant
            hi <= len,
            len == old(pool)@.len(),
            pool@.len() == len,
            pool@.to_multiset() == old(pool)@.to_multiset(),
            old(dice).same_stream(*dice),
            shuffled(pool@, lo as nat, hi as nat, *dice) == shuffled(
                old(pool)@,
                lo as nat,
                len as nat,
                *old(dice),
            ),
        decreases hi,
    {
        let i = hi - 1;
        let j = dice.roll(i as u64 + 1) as usize;
        proof {
            lemma_swapped_permutes(pool@, i as int, j as int);
        }
        let a = pool[i];
        let b = pool[j];
        pool.set(i, b);
        pool.set(j, a);
        hi = i;
    }
}

/// Draws `n` items of `from` uniformly without replacement; all of `from`,
/// in its own order, where it holds no more than `n`.
pub fn sample<T: Copy>(from: &[T], n: usize, dice: &mut Dice) -> (r: Vec<T>)
    ensures
        (r@, *final(dice)) == sample_spec(from@, n as nat, *old(dice)),
        r@.len() == if n >= from@.len() {
            from@.len()
        } else {
            n as nat
        },
        forall|x: T| r@.contains(x) ==> from@.contains(x),
        from@.no_duplicates() ==> r@.no_duplicates(),
        old(dice).same_stream(*final(dice)),
{
    let len = from.len();
    let mut pool: Vec<T> = Vec::with_capacity(len);
    let mut c: usize = 0;
    while c < len
        invariant
            c <= len,
            len == from@.len(),
            pool@ == from@.take(c as int),
        decreases len - c,
    {
        pool.push(from[c]);
        assert(pool@ == from@.take(c + 1));
        c = c + 1;
    }
    assert(pool@ == from@);
    if n >= len {
        return pool;
    }
    shuffle_down(&mut pool, len - n, dice);
    let ghost mixed = pool@;
    let r = pool.split_off(len - n);
    proof {
        assert(r@ =~= mixed.skip(len - n));
        lemma_tail_of_permutation(mixed, from@, len - n);
    }
    r
}

/// Like [`sample`], but without copying `from` where a large part of it
/// is asked for: for `n` from a quarter of the length on, `from` is
/// shuffled in place as far as the sample needs it. Afterwards `from`
/// holds the same items, in the same order where all of it is returned or
/// less than a quarter of it is asked for.
pub fn sample_nocopy<T: Copy>(from: &mut Vec<T>, n: usize, dice: &mut Dice) -> (r: Vec<T>)
    ensures
        (r@, final(from)@, *final(dice)) == sample_nocopy_spec(old(from)@, n as nat, *old(dice)),
        r@ == sample_spec(old(from)@, n as nat, *old(dice)).0,
        *final(dice) == sample_spec(old(from)@, n as nat, *old(dice)).1,
        n >= old(from)@.len() || n < old(from)@.len() / 4 ==> final(from)@ == old(from)@,
        final(from)@.len() == old(from)@.len(),
        final(from)@.to_multiset() == old(from)@.to_multiset(),
        r@.len() == if n >= old(from)@.len() {
            old(from)@.len()
        } else {
            n as nat
        },
        forall|x: T| r@.contains(x) ==> old(from)@.contains(x),
        old(from)@.no_duplicates() ==> r@.no_duplicates(),
        old(dice).same_stream(*final(dice)),
{
    let len = from.len();
    if n >= len || n < len / 4 {
        return sample(from.as_slice(), n, dice);
    }
    shuffle_down(from, len - n, dice);
    let mut out: Vec<T> = Vec::with_capacity(n);
    let mut c: usize = len - n;
    while c < len
        invariant
            len - n <= c <= len,
            len == from@.len(),
            n < len,
            out@ == from@.subrange(len - n, c as int),
        decreases len - c,
    {
        out.push(from[c]);
        assert(out@ =~= from@.subrange(len - n, c + 1));
        c = c + 1;
    }
    proof {
        assert(out@ =~= from@.skip(len - n));
        lemma_tail_of_permutation(from@, old(from)@, len - n);
    }
    out
}

/// Shuffles a list in place.
pub fn shuffle<T: Copy>(list: &mut Vec<T>, dice: &mut Dice)
    ensures
        (final(list)@, *final(dice)) == shuffle_spec(old(list)@, *old(dice)),
        final(list)@.len() == old(list)@.len(),
        final(list)@.to_multiset() == old(list)@.to_multiset(),
        old(dice).same_stream(*final(dice)),
{
    shuffle_down(list, 1, dice);
}

} // verus!
