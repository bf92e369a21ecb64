//! Numbers as text, for the columns of a metrics row.

use vstd::prelude::*;
use vstd::string::*;

verus! {

/// The text that stands for a number that cannot be given: a ratio with a
/// zero denominator, or a bound over no node at all.
pub open spec fn sentinel() -> Seq<char> {
    seq!['-', '1']
}

/// The character of a decimal digit.
pub open spec fn digit(d: nat) -> char {
    if d == 0 {
        '0'
    } else if d == 1 {
        '1'
    } else if d == 2 {
        '2'
    } else if d == 3 {
        '3'
    } else if d == 4 {
        '4'
    } else if d == 5 {
        '5'
    } else if d == 6 {
        '6'
    } else if d == 7 {
        '7'
    } else if d == 8 {
        '8'
    } else {
        '9'
    }
}

/// A number in decimal notation, without leading zeros.
pub open spec fn decimal(n: nat) -> Seq<char>
    decreases n,
{
    if n < 10 {
        seq![digit(n)]
    } else {
        decimal(n / 10).push(digit(n % 10))
    }
}

/// The last `places` decimal digits of a number, with leading zeros.
pub open spec fn padded(n: nat, places: nat) -> Seq<char>
    decreases places,
{
    if places == 0 {
        Seq::empty()
    } else {
        padded(n / 10, (places - 1) as nat).push(digit(n % 10))
    }
}

/// Ten to the power `places`.
pub open spec fn scale(places: nat) -> nat
    decreases places,
{
    if places == 0 {
        1
    } else {
        10 * scale((places - 1) as nat)
    }
}

/// A power of ten is at least 1.
pub proof fn lemma_scale_positive(places: nat)
    ensures
        scale(places) >= 1,
    decreases places,
{
    if places > 0 {
        lemma_scale_positive((places - 1) as nat);
    }
}

/// The quotient `num / den` in `scale(places)`-ths, rounded to the nearest
/// one and halves upwards.
pub open spec fn rounded(num: nat, den: nat, places: nat) -> nat {
    if den == 0 {
        0
    } else {
        (2 * num * scale(places) + den) / (2 * den)
    }
}

/// The quotient `num / den` as a decimal fraction with `places` digits
/// after the point, rounded to the nearest; the sentinel where `den` is 0.
pub open spec fn fixed_point(num: nat, den: nat, places: nat) -> Seq<char> {
    if den == 0 {
        sentinel()
    } else {
        let q = rounded(num, den, places);
        decimal(q / scale(places)) + seq!['.'] + padded(q % scale(places), places)
    }
}

/// An optional number in decimal notation; the sentinel where there is
/// none.
pub open spec fn decimal_or_sentinel(n: Option<usize>) -> Seq<char> {
    match n {
        Some(v) => decimal(v as nat),
        None => sentinel(),
    }
}

/// The text of one digit.
fn digit_str(d: u8) -> (r: &'static str)
    requires
        d < 10,
    ensures
        r@ == seq![digit(d as nat)],
{
    proof {
        reveal_strlit("0");
        reveal_strlit("1");
        reveal_strlit("2");
        reveal_strlit("3");
        reveal_strlit("4");
        reveal_strlit("5");
        reveal_strlit("6");
        reveal_strlit("7");
        reveal_strlit("8");
        reveal_strlit("9");
    }
    let r = if d == 0 {
        "0"
    } else if d == 1 {
        "1"
    } else if d == 2 {
        "2"
    } else if d == 3 {
        "3"
    } else if d == 4 {
        "4"
    } else if d == 5 {
        "5"
    } else if d == 6 {
        "6"
    } else if d == 7 {
        "7"
    } else if d == 8 {
        "8"
    } else {
        "9"
    };
    assert(r@ =~= seq![digit(d as nat)]);
    r
}

/// Writes a number in decimal notation.
pub fn to_decimal(n: u128) -> (r: String)
    ensures
        r@ == decimal(n as nat),
    decreases n,
{
    if n < 10 {
        String::from_str(digit_str(n as u8))
    } else {
        let mut s = to_decimal(n / 10);
        s.append(digit_str((n % 10) as u8));
        assert(s@ =~= decimal((n / 10) as nat).push(digit((n % 10) as nat)));
        s
    }
}

/// Writes the last `places` digits of a number, with leading zeros.
pub fn to_padded(n: u128, places: u8) -> (r: String)
    ensures
        r@ == padded(n as nat, places as nat),
    decreases places,
{
    if places == 0 {
        let r = String::new();
        assert(r@ =~= Seq::<char>::empty());
        r
    } else {
        let mut s = to_padded(n / 10, places - 1);
        s.append(digit_str((n % 10) as u8));
        assert(s@ =~= padded((n / 10) as nat, (places - 1) as nat).push(digit((n % 10) as nat)));
        s
    }
}

/// Writes an optional number; the sentinel where there is none.
pub fn to_decimal_or_sentinel(n: Option<usize>) -> (r: String)
    ensures
        r@ == decimal_or_sentinel(n),
{
    match n {
        Some(v) => to_decimal(v as u128),
        None => {
            proof {
                reveal_strlit("-1");
            }
            let r = String::from_str("-1");
            assert(r@ =~= sentinel());
            r
        },
    }
}

/// The largest number of digits after the point that a quotient of two
/// counters can be written with.
pub const MAX_PLACES: u8 = 18;

/// Writes the quotient of two counters with `places` digits after the
/// point; the sentinel where the denominator is 0.
pub fn to_fixed_point(num: usize, den: usize, places: u8) -> (r: String)
    requires
        places <= MAX_PLACES,
    ensures
        r@ == fixed_point(num as nat, den as nat, places as nat),
{
    if den == 0 {
        proof {
            reveal_strlit("-1");
        }
        let r = String::from_str("-1");
        assert(r@ =~= sentinel());
        return r;
    }
    let mut p: u128 = 1;
    let mut i: u8 = 0;
    assert(scale(18) == 1_000_000_000_000_000_000) by {
        reveal_with_fuel(scale, 19);
    }
    while i < places
        invariant
            i <= places <= MAX_PLACES,
            p == scale(i as nat),
            1 <= p,
            p * scale((MAX_PLACES - i) as nat) == 1_000_000_000_000_000_000,
        decreases places - i,
    {
        proof {
            lemma_scale_positive((MAX_PLACES - i - 1) as nat);
            assert(p * scale((MAX_PLACES - i) as nat) == (p * 10) * scale(
                (MAX_PLACES - i - 1) as nat,
            )) by (nonlinear_arith)
                requires
                    scale((MAX_PLACES - i) as nat) == 10 * scale((MAX_PLACES - i - 1) as nat),
            ;
            assert(p * 10 <= (p * 10) * scale((MAX_PLACES - i - 1) as nat)) by (nonlinear_arith)
                requires
                    p >= 1,
                    scale((MAX_PLACES - i - 1) as nat) >= 1,
            ;
        }
        p = p * 10;
        i = i + 1;
    }
    proof {
        lemma_scale_positive((MAX_PLACES - places) as nat);
        assert(p <= p * scale((MAX_PLACES - places) as nat)) by (nonlinear_arith)
            requires
                p >= 1,
                scale((MAX_PLACES - places) as nat) >= 1,
        ;
    }
    let n = num as u128;
    let d = den as u128;
    assert(2 * n * p <= 2 * 0xffff_ffff_ffff_ffff * 1_000_000_000_000_000_000) by (nonlinear_arith)
        requires
            n <= 0xffff_ffff_ffff_ffff,
            p <= 1_000_000_000_000_000_000,
    ;
    let q = (2 * n * p + d) / (2 * d);
    assert(q == rounded(num as nat, den as nat, places as nat));
    proof {
        reveal_strlit(".");
    }
    let mut s = to_decimal(q / p);
    s.append(".");
    let frac = to_padded(q % p, places);
    s.append(frac.as_str());
    assert(s@ =~= fixed_point(num as nat, den as nat, places as nat));
    s
}

} // verus!
