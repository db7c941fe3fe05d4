//! Exact rational arithmetic for the elimination engine, and the greatest
//! common divisor theory behind coefficient minimality.

use vstd::arithmetic::div_mod::{
    lemma_fundamental_div_mod, lemma_fundamental_div_mod_converse, lemma_mod_multiples_basic,
};
use vstd::prelude::*;

verus! {

/// Euclid's greatest common divisor.
pub open spec fn gcd(a: nat, b: nat) -> nat
    decreases b,
{
    if b == 0 {
        a
    } else {
        gcd(b, a % b)
    }
}

/// `d` divides `x`.
pub open spec fn divides(d: nat, x: nat) -> bool {
    d > 0 && x % d == 0
}

pub proof fn lemma_gcd_pos(a: nat, b: nat)
    requires
        a > 0 || b > 0,
    ensures
        gcd(a, b) > 0,
    decreases b,
{
    if b > 0 {
        lemma_gcd_pos(b, a % b);
    }
}

proof fn lemma_divides_trans(d: nat, g: nat, x: nat)
    requires
        divides(d, g),
        divides(g, x),
    ensures
        divides(d, x),
{
    lemma_fundamental_div_mod(x as int, g as int);
    lemma_fundamental_div_mod(g as int, d as int);
    let q1 = x as int / g as int;
    let q2 = g as int / d as int;
    assert(x as int == d as int * (q2 * q1)) by (nonlinear_arith)
        requires
            x as int == g as int * q1,
            g as int == d as int * q2,
    ;
    lemma_mod_multiples_basic(q2 * q1, d as int);
}

pub proof fn lemma_gcd_divides(a: nat, b: nat)
    requires
        a > 0 || b > 0,
    ensures
        divides(gcd(a, b), a),
        divides(gcd(a, b), b),
    decreases b,
{
    if b == 0 {
        lemma_mod_multiples_basic(1, a as int);
        assert(a as int * 1 == a as int) by (nonlinear_arith);
        assert(a % a == 0);
        assert(0int % (a as int) == 0);
    } else {
        lemma_gcd_divides(b, a % b);
        let g = gcd(b, a % b);
        lemma_gcd_pos(b, a % b);
        lemma_fundamental_div_mod(a as int, b as int);
        lemma_fundamental_div_mod(b as int, g as int);
        lemma_fundamental_div_mod((a % b) as int, g as int);
        let q = a as int / b as int;
        let bg = b as int / g as int;
        let rg = (a % b) as int / g as int;
        assert(a as int == g as int * (bg * q + rg)) by (nonlinear_arith)
            requires
                a as int == b as int * q + (a % b) as int,
                b as int == g as int * bg,
                (a % b) as int == g as int * rg,
        ;
        lemma_mod_multiples_basic(bg * q + rg, g as int);
    }
}

pub proof fn lemma_gcd_scale(k: nat, a: nat, b: nat)
    requires
        k >= 1,
    ensures
        gcd(k * a, k * b) == k * gcd(a, b),
    decreases b,
{
    if b == 0 {
        assert(k * b == 0) by (nonlinear_arith)
            requires
                b == 0,
        ;
    } else {
        lemma_fundamental_div_mod(a as int, b as int);
        let q = a as int / b as int;
        let r = (a % b) as int;
        assert(k * b > 0) by (nonlinear_arith)
            requires
                k >= 1,
                b > 0,
        ;
        assert(k as int * a as int == k as int * b as int * q + k as int * r && 0 <= k as int * r
            < k as int * b as int) by (nonlinear_arith)
            requires
                a as int == b as int * q + r,
                0 <= r < b as int,
                k >= 1,
        ;
        lemma_fundamental_div_mod_converse(
            (k * a) as int,
            (k * b) as int,
            q,
            (k as int * r) as int,
        );
        assert(((k * a) as int) % ((k * b) as int) == k as int * r);
        assert((k * a) % (k * b) == k * (a % b));
        lemma_gcd_scale(k, b, a % b);
    }
}

/// The greatest common divisor of all entries of a sequence.
pub open spec fn gcd_seq(s: Seq<usize>) -> nat
    decreases s.len(),
{
    if s.len() == 0 {
        0
    } else {
        gcd(gcd_seq(s.drop_last()), s.last() as nat)
    }
}

pub proof fn lemma_gcd_seq_pos(s: Seq<usize>)
    requires
        s.len() >= 1,
        forall|i: int| 0 <= i < s.len() ==> (#[trigger] s[i]) >= 1,
    ensures
        gcd_seq(s) >= 1,
    decreases s.len(),
{
    lemma_gcd_pos(gcd_seq(s.drop_last()), s.last() as nat);
}

pub proof fn lemma_gcd_seq_divides(s: Seq<usize>, i: int)
    requires
        0 <= i < s.len(),
        forall|j: int| 0 <= j < s.len() ==> (#[trigger] s[j]) >= 1,
    ensures
        divides(gcd_seq(s), s[i] as nat),
    decreases s.len(),
{
    lemma_gcd_seq_pos(s);
    if i == s.len() - 1 {
        lemma_gcd_divides(gcd_seq(s.drop_last()), s.last() as nat);
    } else {
        lemma_gcd_seq_divides(s.drop_last(), i);
        if gcd_seq(s.drop_last()) > 0 {
            lemma_gcd_divides(gcd_seq(s.drop_last()), s.last() as nat);
            lemma_divides_trans(gcd_seq(s), gcd_seq(s.drop_last()), s[i] as nat);
        }
    }
}

pub proof fn lemma_gcd_seq_scale(s: Seq<usize>, k: nat, t: Seq<usize>)
    requires
        k >= 1,
        s.len() == t.len(),
        forall|j: int| 0 <= j < t.len() ==> (#[trigger] t[j]) as nat == k * s[j],
    ensures
        gcd_seq(t) == k * gcd_seq(s),
    decreases s.len(),
{
    if s.len() == 0 {
        assert(k * 0 == 0) by (nonlinear_arith);
    } else {
        assert(t.drop_last().len() == s.drop_last().len());
        assert(forall|j: int|
            0 <= j < t.drop_last().len() ==> (#[trigger] t.drop_last()[j]) as nat == k
                * s.drop_last()[j]);
        lemma_gcd_seq_scale(s.drop_last(), k, t.drop_last());
        lemma_gcd_scale(k, gcd_seq(s.drop_last()), s.last() as nat);
        assert(t.last() as nat == k * (s.last() as nat));
    }
}

/// Euclid's algorithm on machine integers.
pub fn gcd_usize(a: usize, b: usize) -> (g: usize)
    ensures
        g as nat == gcd(a as nat, b as nat),
    decreases b,
{
    if b == 0 {
        a
    } else {
        gcd_usize(b, a % b)
    }
}

fn gcd_u128(a: u128, b: u128) -> (g: u128)
    ensures
        g as nat == gcd(a as nat, b as nat),
    decreases b,
{
    if b == 0 {
        a
    } else {
        gcd_u128(b, a % b)
    }
}

/// A signed rational held as sign, magnitude and positive denominator.
#[derive(Debug, Clone, Copy)]
pub struct Rat {
    pub neg: bool,
    pub num: u64,
    pub den: u64,
}

pub open spec fn rat_wf(r: Rat) -> bool {
    &&& r.den >= 1
    &&& (r.num == 0 ==> !r.neg)
}

/// The signed numerator of `r`.
pub open spec fn rat_num(r: Rat) -> int {
    if r.neg {
        -(r.num as int)
    } else {
        r.num as int
    }
}


fn mul_u64(a: u64, b: u64) -> (r: u128)
    ensures
        r == a as int * b as int,
{
    proof {
        assert(a as int * b as int <= u128::MAX) by (nonlinear_arith)
            requires
                a <= u64::MAX,
                b <= u64::MAX,
        ;
        assert(a as int * b as int >= 0) by (nonlinear_arith)
            requires
                a >= 0,
                b >= 0,
        ;
    }
    (a as u128) * (b as u128)
}

/// The reduced form of a sign, a magnitude and a denominator: both parts
/// divided by their greatest common divisor; `None` when the reduced
/// parts do not fit a machine word.
pub open spec fn spec_norm(neg: bool, mag: int, den: int) -> Option<Rat>
    recommends
        mag >= 0,
        den >= 1,
{
    let g = gcd(mag as nat, den as nat) as int;
    let m2 = mag / g;
    let d2 = den / g;
    if m2 > u64::MAX || d2 > u64::MAX {
        None
    } else {
        Some(Rat { neg: m2 != 0 && neg, num: m2 as u64, den: d2 as u64 })
    }
}

/// The reduced product `a * b`.
pub open spec fn spec_rat_mul(a: Rat, b: Rat) -> Option<Rat> {
    spec_norm(a.neg != b.neg, a.num as int * b.num as int, a.den as int * b.den as int)
}

/// The reduced quotient `a / b`, for nonzero `b`.
pub open spec fn spec_rat_div(a: Rat, b: Rat) -> Option<Rat> {
    spec_norm(a.neg != b.neg, a.num as int * b.den as int, a.den as int * b.num as int)
}

/// The reduced difference `a - b`.
pub open spec fn spec_rat_sub(a: Rat, b: Rat) -> Option<Rat> {
    let p1 = a.num as int * b.den as int;
    let p2 = b.num as int * a.den as int;
    let den = a.den as int * b.den as int;
    if a.neg == b.neg {
        if p1 >= p2 {
            spec_norm(a.neg, p1 - p2, den)
        } else {
            spec_norm(!a.neg, p2 - p1, den)
        }
    } else {
        if p1 + p2 > u128::MAX {
            None
        } else {
            spec_norm(a.neg, p1 + p2, den)
        }
    }
}

/// Reduces sign, magnitude and denominator to a `Rat`, dividing out the
/// greatest common divisor; `None` when the reduced parts do not fit.
fn rat_norm(neg: bool, mag: u128, den: u128) -> (r: Option<Rat>)
    requires
        den >= 1,
    ensures
        r == spec_norm(neg, mag as int, den as int),
        r matches Some(q) ==> rat_wf(q) && rat_num(q) * (den as int) == (if neg {
            -(mag as int)
        } else {
            mag as int
        }) * (q.den as int),
{
    let g = gcd_u128(mag, den);
    proof {
        lemma_gcd_pos(mag as nat, den as nat);
        lemma_gcd_divides(mag as nat, den as nat);
        lemma_fundamental_div_mod(mag as int, g as int);
        lemma_fundamental_div_mod(den as int, g as int);
    }
    let m2 = mag / g;
    let d2 = den / g;
    proof {
        assert(mag as int == g as int * m2 as int);
        assert(den as int == g as int * d2 as int);
        assert(d2 >= 1) by (nonlinear_arith)
            requires
                den as int == g as int * d2 as int,
                den >= 1,
                g >= 1,
                d2 >= 0,
        ;
    }
    if m2 > u64::MAX as u128 || d2 > u64::MAX as u128 {
        return None;
    }
    let num = m2 as u64;
    let den2 = d2 as u64;
    let q = Rat { neg: if num == 0 { false } else { neg }, num, den: den2 };
    proof {
        assert(m2 as int * den as int == mag as int * d2 as int) by (nonlinear_arith)
            requires
                mag as int == g as int * m2 as int,
                den as int == g as int * d2 as int,
        ;
        if num == 0 {
            assert(mag as int == 0) by (nonlinear_arith)
                requires
                    mag as int == g as int * m2 as int,
                    m2 == 0,
            ;
        }
        assert(rat_num(q) * (den as int) == (if neg {
            -(mag as int)
        } else {
            mag as int
        }) * (q.den as int)) by (nonlinear_arith)
            requires
                m2 as int * den as int == mag as int * d2 as int,
                q.num == m2,
                q.den == d2,
                q.neg == (m2 != 0 && neg),
                rat_num(q) == (if q.neg {
                    -(q.num as int)
                } else {
                    q.num as int
                }),
                m2 == 0 ==> mag as int == 0,
        ;
    }
    Some(q)
}

/// The rational `n / 1`.
pub fn rat_from_u64(n: u64) -> (r: Rat)
    ensures
        rat_wf(r),
        rat_num(r) == n as int,
        r.den == 1,
{
    Rat { neg: false, num: n, den: 1 }
}

/// The rational `-n / 1`.
pub fn rat_neg_u64(n: u64) -> (r: Rat)
    ensures
        rat_wf(r),
        rat_num(r) == -(n as int),
        r.den == 1,
{
    Rat { neg: n != 0, num: n, den: 1 }
}

pub fn rat_is_zero(a: &Rat) -> (r: bool)
    ensures
        r == (rat_num(*a) == 0),
{
    a.num == 0
}

/// The absolute value.
pub fn rat_abs(a: &Rat) -> (r: Rat)
    requires
        rat_wf(*a),
    ensures
        rat_wf(r),
        r.num == a.num,
        r.den == a.den,
        !r.neg,
{
    Rat { neg: false, num: a.num, den: a.den }
}

/// The product `a * b`; `None` reports overflow of the reduced parts.
pub fn rat_mul(a: &Rat, b: &Rat) -> (r: Option<Rat>)
    requires
        rat_wf(*a),
        rat_wf(*b),
    ensures
        r == spec_rat_mul(*a, *b),
        r matches Some(q) ==> rat_wf(q) && rat_num(q) * (a.den as int * b.den as int) == rat_num(
            *a,
        ) * rat_num(*b) * (q.den as int),
{
    let mag = mul_u64(a.num, b.num);
    let den = mul_u64(a.den, b.den);
    proof {
        assert(den >= 1) by (nonlinear_arith)
            requires
                den as int == a.den as int * b.den as int,
                a.den >= 1,
                b.den >= 1,
        ;
    }
    let neg = a.neg != b.neg;
    let r = rat_norm(neg, mag, den);
    proof {
        if r is Some {
            let q = r->Some_0;
            assert((if neg {
                -(mag as int)
            } else {
                mag as int
            }) == rat_num(*a) * rat_num(*b)) by (nonlinear_arith)
                requires
                    mag as int == a.num as int * b.num as int,
                    neg == (a.neg != b.neg),
                    rat_num(*a) == (if a.neg {
                        -(a.num as int)
                    } else {
                        a.num as int
                    }),
                    rat_num(*b) == (if b.neg {
                        -(b.num as int)
                    } else {
                        b.num as int
                    }),
            ;
        }
    }
    r
}

/// The quotient `a / b` for nonzero `b`.
pub fn rat_div(a: &Rat, b: &Rat) -> (r: Option<Rat>)
    requires
        rat_wf(*a),
        rat_wf(*b),
        b.num != 0,
    ensures
        r == spec_rat_div(*a, *b),
        r matches Some(q) ==> rat_wf(q) && rat_num(q) * (a.den as int) * rat_num(*b) == rat_num(
            *a,
        ) * (b.den as int) * (q.den as int),
{
    let mag = mul_u64(a.num, b.den);
    let den = mul_u64(a.den, b.num);
    proof {
        assert(den >= 1) by (nonlinear_arith)
            requires
                den as int == a.den as int * b.num as int,
                a.den >= 1,
                b.num >= 1,
        ;
    }
    let neg = a.neg != b.neg;
    let r = rat_norm(neg, mag, den);
    proof {
        if r is Some {
            let q = r->Some_0;
            assert(rat_num(q) * (den as int) == (if neg {
                -(mag as int)
            } else {
                mag as int
            }) * (q.den as int));
            assert(rat_num(q) * (a.den as int) * rat_num(*b) == rat_num(*a) * (b.den as int) * (
            q.den as int)) by (nonlinear_arith)
                requires
                    rat_num(q) * (den as int) == (if neg {
                        -(mag as int)
                    } else {
                        mag as int
                    }) * (q.den as int),
                    mag as int == a.num as int * b.den as int,
                    den as int == a.den as int * b.num as int,
                    neg == (a.neg != b.neg),
                    rat_num(*a) == (if a.neg {
                        -(a.num as int)
                    } else {
                        a.num as int
                    }),
                    rat_num(*b) == (if b.neg {
                        -(b.num as int)
                    } else {
                        b.num as int
                    }),
                    rat_num(q) == (if q.neg {
                        -(q.num as int)
                    } else {
                        q.num as int
                    }),
            ;
        }
    }
    r
}

/// The difference `a - b`.
pub fn rat_sub(a: &Rat, b: &Rat) -> (r: Option<Rat>)
    requires
        rat_wf(*a),
        rat_wf(*b),
    ensures
        r == spec_rat_sub(*a, *b),
        r matches Some(q) ==> rat_wf(q) && rat_num(q) * (a.den as int * b.den as int) == (rat_num(
            *a,
        ) * (b.den as int) - rat_num(*b) * (a.den as int)) * (q.den as int),
{
    let p1 = mul_u64(a.num, b.den);
    let p2 = mul_u64(b.num, a.den);
    let den = mul_u64(a.den, b.den);
    proof {
        assert(den >= 1) by (nonlinear_arith)
            requires
                den as int == a.den as int * b.den as int,
                a.den >= 1,
                b.den >= 1,
        ;
    }
    let ghost nval = rat_num(*a) * (b.den as int) - rat_num(*b) * (a.den as int);
    let neg: bool;
    let mag: u128;
    if a.neg == b.neg {
        if p1 >= p2 {
            mag = p1 - p2;
            neg = a.neg;
        } else {
            mag = p2 - p1;
            neg = !a.neg;
        }
    } else {
        if p1 > u128::MAX - p2 {
            return None;
        }
        mag = p1 + p2;
        neg = a.neg;
    }
    proof {
        assert((if neg {
            -(mag as int)
        } else {
            mag as int
        }) == nval) by (nonlinear_arith)
            requires
                nval == rat_num(*a) * (b.den as int) - rat_num(*b) * (a.den as int),
                p1 as int == a.num as int * b.den as int,
                p2 as int == b.num as int * a.den as int,
                rat_num(*a) == (if a.neg {
                    -(a.num as int)
                } else {
                    a.num as int
                }),
                rat_num(*b) == (if b.neg {
                    -(b.num as int)
                } else {
                    b.num as int
                }),
                (if a.neg == b.neg {
                    (p1 >= p2 ==> mag == p1 - p2 && neg == a.neg) && (p1 < p2 ==> mag == p2 - p1
                        && neg == !a.neg)
                } else {
                    mag == p1 + p2 && neg == a.neg
                }),
        ;
    }
    let r = rat_norm(neg, mag, den);
    proof {
        if r is Some {
            let q = r->Some_0;
            assert(rat_num(q) * (a.den as int * b.den as int) == nval * (q.den as int));
        }
    }
    r
}

} // verus!
