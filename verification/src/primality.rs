//! The primality predicate: its mathematical definition and the
//! trial-division test that decides it.

use vstd::prelude::*;

verus! {

/// `d` divides `n`: `d` is positive and `n` is a multiple of it.
pub open spec fn divides(d: nat, n: nat) -> bool {
    d > 0 && n % d == 0
}

/// `n` is prime: it is at least 2, and nothing strictly between 1 and `n`
/// divides it.
pub open spec fn prime(n: nat) -> bool {
    n >= 2 && forall|d: nat| 2 <= d < n ==> !#[trigger] divides(d, n)
}

/// `r` is the square root of `n`, rounded up: the least number whose square
/// reaches `n`.
pub open spec fn is_ceil_sqrt(n: nat, r: nat) -> bool {
    n <= r * r && (r == 0 || (r - 1) * (r - 1) < n)
}

/// A divisor of a divisor is a divisor.
pub proof fn lemma_divides_transitive(a: nat, b: nat, c: nat)
    requires
        divides(a, b),
        divides(b, c),
    ensures
        divides(a, c),
{
    let x: nat = b / a;
    let y: nat = c / b;
    assert(b == a * x) by (nonlinear_arith)
        requires
            a > 0,
            b % a == 0,
            x == b / a,
    ;
    assert(c == b * y) by (nonlinear_arith)
        requires
            b > 0,
            c % b == 0,
            y == c / b,
    ;
    assert(c == (x * y) * a) by (nonlinear_arith)
        requires
            b == a * x,
            c == b * y,
    ;
    vstd::arithmetic::div_mod::lemma_mod_multiples_basic((x * y) as int, a as int);
}

/// A divisor `d` of a positive `n` comes with a cofactor `n / d` that
/// divides `n` too, and the two multiply to `n`.
pub proof fn lemma_cofactor(d: nat, n: nat)
    requires
        n > 0,
        divides(d, n),
    ensures
        divides(n / d, n),
        n == d * (n / d),
{
    let q: nat = n / d;
    assert(n == d * q) by (nonlinear_arith)
        requires
            d > 0,
            n % d == 0,
            q == n / d,
    ;
    assert(q > 0 && n == d * q) by (nonlinear_arith)
        requires
            n > 0,
            n == d * q,
    ;
    vstd::arithmetic::div_mod::lemma_mod_multiples_basic(d as int, q as int);
}

/// The square root of `n`, rounded up, found by bisection on integers.
pub fn ceil_sqrt(n: u64) -> (r: u64)
    ensures
        is_ceil_sqrt(n as nat, r as nat),
        r <= 0x1_0000_0000,
{
    if n == 0 {
        return 0;
    }
    let mut lo: u64 = 0;
    let mut hi: u64 = 0x1_0000_0000;
    while hi - lo > 1
        invariant
            lo < hi <= 0x1_0000_0000,
            lo * lo < n <= hi * hi,
        decreases hi - lo,
    {
        let mid: u64 = lo + (hi - lo) / 2;
        assert(mid * mid <= 0xFFFF_FFFF * 0xFFFF_FFFF) by (nonlinear_arith)
            requires
                mid <= 0xFFFF_FFFF,
        ;
        if mid * mid < n {
            lo = mid;
        } else {
            hi = mid;
        }
    }
    hi
}

/// Decides whether `n` is prime, by trial division.
///
/// After 2 and 3 the only candidates for a divisor are the numbers of the
/// form `6k - 1` and `6k + 1`; they are tried in pairs, from 5 up to the
/// rounded-up square root of `n`.
pub fn is_prime(n: u64) -> (result: bool)
    ensures
        result == prime(n as nat),
{
    if n < 4 {
        assert(!divides(2, 3)) by {
            assert(3nat % 2 == 1);
        }
        n > 1
    } else if n % 2 == 0 || n % 3 == 0 {
        assert(divides(2, n as nat) || divides(3, n as nat));
        false
    } else {
        let max_p = ceil_sqrt(n);
        let mut p: u64 = 5;
        assert forall|d: nat| 2 <= d < 5 implies !#[trigger] divides(d, n as nat) by {
            if d == 4 && divides(d, n as nat) {
                assert(divides(2, 4)) by {
                    assert(4nat % 2 == 0);
                }
                lemma_divides_transitive(2, 4, n as nat);
            }
        }
        while p <= max_p
            invariant
                n >= 5,
                n % 2 != 0,
                n % 3 != 0,
                p % 6 == 5,
                max_p <= 0x1_0000_0000,
                is_ceil_sqrt(n as nat, max_p as nat),
                forall|d: nat| 2 <= d < p ==> !#[trigger] divides(d, n as nat),
            decreases max_p + 6 - p,
        {
            if n % p == 0 || n % (p + 2) == 0 {
                proof {
                    lemma_below_root_is_proper(n as nat, max_p as nat, p as nat);
                    assert(divides(p as nat, n as nat) || divides((p + 2) as nat, n as nat));
                }
                return false;
            }
            proof {
                lemma_wheel_gap(n as nat, p as nat);
            }
            p += 6;
        }
        proof {
            lemma_no_divisor_past_root(n as nat, max_p as nat, p as nat);
        }
        true
    }
}

/// A trial divisor `p` of at least 5 that does not exceed the rounded-up
/// square root of `n` stays, together with `p + 2`, strictly below `n`.
proof fn lemma_below_root_is_proper(n: nat, r: nat, p: nat)
    requires
        is_ceil_sqrt(n, r),
        5 <= p <= r,
    ensures
        p + 2 < n,
{
    assert(p + 2 < n) by (nonlinear_arith)
        requires
            5 <= p <= r,
            (r - 1) * (r - 1) < n,
    ;
}

/// One turn of the wheel: if nothing from 2 up to `p` divides `n`, `p` is of
/// the form `6k - 1`, and neither `p` nor `p + 2` divides `n`, then nothing
/// below `p + 6` divides `n`.
proof fn lemma_wheel_gap(n: nat, p: nat)
    requires
        p % 6 == 5,
        !divides(p, n),
        !divides(p + 2, n),
        forall|d: nat| 2 <= d < p ==> !#[trigger] divides(d, n),
    ensures
        forall|d: nat| 2 <= d < p + 6 ==> !#[trigger] divides(d, n),
{
    assert forall|d: nat| 2 <= d < p + 6 implies !#[trigger] divides(d, n) by {
        if d >= p && divides(d, n) {
            let k: nat = p / 6;
            assert(p == 6 * k + 5);
            if d == p + 4 {
                assert(d == 3 * (2 * k + 3));
                assert(divides(3, d));
                lemma_divides_transitive(3, d, n);
            } else {
                assert(d == p + 1 || d == p + 3 || d == p + 5);
                assert(d == 2 * (3 * k + 3) || d == 2 * (3 * k + 4) || d == 2 * (3 * k + 5));
                assert(divides(2, d));
                lemma_divides_transitive(2, d, n);
            }
        }
    }
}

/// Trial division may stop at the square root: if nothing from 2 up to `p`
/// divides `n`, and `p` lies beyond the rounded-up square root of `n`, then
/// `n` is prime.
proof fn lemma_no_divisor_past_root(n: nat, r: nat, p: nat)
    requires
        n >= 2,
        is_ceil_sqrt(n, r),
        r < p,
        forall|d: nat| 2 <= d < p ==> !#[trigger] divides(d, n),
    ensures
        prime(n),
{
    assert forall|d: nat| 2 <= d < n implies !#[trigger] divides(d, n) by {
        if d >= p && divides(d, n) {
            let q: nat = n / d;
            lemma_cofactor(d, n);
            assert(2 <= q < p) by (nonlinear_arith)
                requires
                    n == d * q,
                    p <= d < n,
                    n <= r * r,
                    r < p,
            ;
        }
    }
}

} // verus!
