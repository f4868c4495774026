//! Choosing the number of buckets: the first prime above a bound.
use vstd::prelude::*;

verus! {

/// `p` is prime.
pub open spec fn is_prime(p: nat) -> bool {
    p >= 2 && forall|d: nat| 2 <= d < p ==> #[trigger] (p % d) != 0
}

proof fn lemma_small_divisor(p: nat, d: nat)
    requires
        2 <= d < p,
        p % d == 0,
        d * d > p,
    ensures
        exists|e: nat| 2 <= e < p && e * e <= p && #[trigger] (p % e) == 0,
{
    let q = p / d;
    assert(p == d * q) by (nonlinear_arith)
        requires
            p % d == 0,
            d > 0,
            q == p / d,
    ;
    assert(q >= 2 && q < d) by (nonlinear_arith)
        requires
            p == d * q,
            2 <= d < p,
            d * d > p,
    ;
    assert(q * q <= p && p % q == 0) by (nonlinear_arith)
        requires
            p == d * q,
            q >= 2,
            q < d,
    ;
}

/// Whether `p` is prime, by trial division up to its square root.
fn prime(p: u32) -> (is: bool)
    ensures
        is == is_prime(p as nat),
{
    if p < 2 {
        return false;
    }
    let mut d: u64 = 2;
    while d * d <= p as u64
        invariant
            2 <= d,
            d <= 0x1_0000,
            d * d <= 0x1_0000_0000,
            p >= 2,
            forall|e: nat| 2 <= e < d ==> #[trigger] ((p as nat) % e) != 0,
        decreases 0x1_0001 - d,
    {
        if (p as u64) % d == 0 {
            proof {
                assert(d < p) by (nonlinear_arith)
                    requires
                        d * d <= p,
                        d >= 2,
                ;
                assert((p as nat) % (d as nat) == 0);
            }
            return false;
        }
        d = d + 1;
        assert(d <= 0x1_0000) by (nonlinear_arith)
            requires
                (d - 1) * (d - 1) <= p,
                p <= 0xffff_ffff,
        ;
        assert(d * d <= 0x1_0000_0000) by (nonlinear_arith)
            requires
                d <= 0x1_0000,
        ;
    }
    proof {
        assert forall|e: nat| 2 <= e < p implies #[trigger] ((p as nat) % e) != 0 by {
            if e >= d && (p as nat) % e == 0 {
                assert(e * e > p) by (nonlinear_arith)
                    requires
                        e >= d,
                        d * d > p,
                ;
                lemma_small_divisor(p as nat, e);
                let f = choose|f: nat| 2 <= f < p && f * f <= p && #[trigger] ((p as nat) % f) == 0;
                assert(f < d) by (nonlinear_arith)
                    requires
                        f * f <= p,
                        d * d > p,
                        f >= 2,
                        d >= 2,
                ;
            }
        }
    }
    true
}

/// The smallest prime greater than `n`, if there is one that fits in a `u32`.
pub fn search_closest_larger(n: u32) -> (p: Option<u32>)
    ensures
        p matches Some(p) ==> p > n && is_prime(p as nat)
            && forall|q: nat| n < q < p ==> !is_prime(q),
        p is None ==> forall|q: nat| n < q <= u32::MAX ==> !is_prime(q),
{
    let mut c = n;
    while c < u32::MAX
        invariant
            n <= c,
            forall|q: nat| n < q <= c ==> !is_prime(q),
        decreases u32::MAX - c,
    {
        c = c + 1;
        if prime(c) {
            return Some(c);
        }
    }
    None
}

} // verus!
