//! Number theory behind the convergence law of the close-factor search.
//!
//! A two-prime modulus factors in only one way, so the search can hit
//! only at the midpoint of the real prime pair; together with the
//! reachability side this pins the exact round where the weak strategy
//! converges.

use vstd::prelude::*;
use vstd::arithmetic::div_mod::{lemma_fundamental_div_mod, lemma_mod_multiples_basic,
    lemma_mod_self_0};
use crate::engine::{sqrt_ceil, lemma_sqrt_ceil_least, fermat_witness, fermat_hit,
    weak_window_hit, WEAK_ROUND_CAP};

verus! {

/// Primality at the specification level: no divisor strictly between one
/// and the number.
pub open spec fn is_prime(p: nat) -> bool {
    p >= 2 && forall|d: nat| 1 < d < p ==> #[trigger] (p % d) != 0
}

/// Euclid's recursion.
pub open spec fn gcd(a: nat, b: nat) -> nat
    decreases b,
{
    if b == 0 {
        a
    } else {
        gcd(b, a % b)
    }
}

/// The greatest common divisor divides both arguments.
proof fn lemma_gcd_divides(a: nat, b: nat)
    requires
        a > 0,
    ensures
        gcd(a, b) > 0,
        a % gcd(a, b) == 0,
        b % gcd(a, b) == 0,
    decreases b,
{
    let g = gcd(a, b);
    if b == 0 {
        lemma_mod_self_0(a as int);
        assert(0int % (a as int) == 0);
    } else {
        lemma_gcd_divides(b, a % b);
        assert(g == gcd(b, a % b));
        lemma_fundamental_div_mod(a as int, b as int);
        lemma_fundamental_div_mod(b as int, g as int);
        lemma_fundamental_div_mod((a % b) as int, g as int);
        let k1 = b / g;
        let k2 = (a % b) / g;
        assert(a == (k1 * (a / b) + k2) * g) by (nonlinear_arith)
            requires
                a == (b as int) * ((a as int) / (b as int)) + a % b,
                b == g * k1,
                a % b == g * k2,
                a / b == (a as int) / (b as int),
        ;
        lemma_mod_multiples_basic((k1 * (a / b) + k2) as int, g as int);
    }
}

/// A pair of integer coefficients that combine the arguments into their
/// greatest common divisor.
pub open spec fn bezout_pair(a: nat, b: nat, u: int, v: int) -> bool {
    u * a + v * b == gcd(a, b)
}

/// Bezout coefficients exist.
proof fn lemma_bezout(a: nat, b: nat)
    ensures
        exists|u: int, v: int| #[trigger] bezout_pair(a, b, u, v),
    decreases b,
{
    if b == 0 {
        assert(bezout_pair(a, 0, 1int, 0int)) by {
            assert(1int * a + 0int * 0 == a);
        }
    } else {
        lemma_bezout(b, a % b);
        let (u2, v2) = choose|u2: int, v2: int| #[trigger] bezout_pair(b, a % b, u2, v2);
        let g = gcd(b, a % b);
        assert(g == gcd(a, b));
        lemma_fundamental_div_mod(a as int, b as int);
        let u = v2;
        let v = u2 - v2 * ((a as int) / (b as int));
        assert(u * a + v * b == g) by (nonlinear_arith)
            requires
                u2 * b + v2 * ((a % b) as int) == g,
                (a % b) as int == a - (b as int) * ((a as int) / (b as int)),
                u == v2,
                v == u2 - v2 * ((a as int) / (b as int)),
        ;
        assert(bezout_pair(a, b, u, v));
    }
}

/// Gauss: a number coprime to `p` that divides `p * q` divides `q`.
proof fn lemma_coprime_divides(x: nat, p: nat, q: nat)
    requires
        x > 0,
        (p * q) % x == 0,
        gcd(x, p) == 1,
    ensures
        q % x == 0,
{
    lemma_bezout(x, p);
    let (u, v) = choose|u: int, v: int| #[trigger] bezout_pair(x, p, u, v);
    assert(u * x + v * p == 1);
    lemma_fundamental_div_mod((p * q) as int, x as int);
    let m = ((p * q) as int) / (x as int);
    assert(p * q == x * m);
    let w = u * q + v * m;
    assert(q == w * x) by (nonlinear_arith)
        requires
            u * x + v * p == 1,
            p * q == x * m,
            w == u * q + v * m,
    ;
    lemma_mod_multiples_basic(w, x as int);
}

/// The greatest common divisor with a prime is one or the prime itself.
proof fn lemma_prime_gcd(x: nat, p: nat)
    requires
        x > 0,
        is_prime(p),
    ensures
        gcd(x, p) == 1 || gcd(x, p) == p,
{
    lemma_gcd_divides(x, p);
    let g = gcd(x, p);
    if g != 1 && g != p {
        if g > p {
            // A divisor cannot exceed what it divides.
            vstd::arithmetic::div_mod::lemma_small_mod(p, g);
            assert(false);
        }
        assert(1 < g < p);
        assert(p % g != 0);
        assert(false);
    }
}

/// A product of two primes factors in only one way: any factorization
/// into two parts greater than one is the prime pair itself.
pub proof fn lemma_semiprime_unique(p: nat, q: nat, x: nat, y: nat)
    requires
        is_prime(p),
        is_prime(q),
        x * y == p * q,
        1 < x,
        x <= y,
    ensures
        (x == p && y == q) || (x == q && y == p),
{
    assert(y > 1);
    assert(x > 0 && y > 0 && p > 0 && q > 0);
    lemma_prime_gcd(x, p);
    if gcd(x, p) == p {
        // p divides x: cancel it and the cofactor must divide q.
        lemma_gcd_divides(x, p);
        lemma_fundamental_div_mod(x as int, p as int);
        let t = x / p;
        assert(x == p * t);
        assert(t * y == q) by (nonlinear_arith)
            requires
                x == p * t,
                x * y == p * q,
                p > 0,
        ;
        assert(t > 0) by (nonlinear_arith)
            requires
                x == p * t,
                x > 1,
        ;
        if t == 1 {
            assert(x == p) by (nonlinear_arith)
                requires
                    x == p * t,
                    t == 1,
            ;
            assert(y == q) by (nonlinear_arith)
                requires
                    x * y == p * q,
                    x == p,
                    p > 0,
            ;
        } else {
            lemma_mod_multiples_basic(y as int, t as int);
            assert((t * y) % t == 0) by (nonlinear_arith)
                requires
                    (y * t) % t == 0,
            ;
            assert(q % t == 0);
            assert(t <= q) by (nonlinear_arith)
                requires
                    t * y == q,
                    y > 1,
                    t > 0,
                    q > 0,
            ;
            if t < q {
                assert(q % t != 0);
                assert(false);
            }
            assert(t == q);
            assert(y == 1) by (nonlinear_arith)
                requires
                    t * y == q,
                    t == q,
                    q > 0,
            ;
            assert(false);
        }
    } else {
        // x is coprime to p and divides the product, so it divides q.
        lemma_mod_multiples_basic(y as int, x as int);
        assert((x * y) % x == 0) by (nonlinear_arith)
            requires
                (y * x) % x == 0,
        ;
        lemma_coprime_divides(x, p, q);
        assert(q % x == 0);
        if x < q {
            assert(q % x != 0);
            assert(false);
        }
        if x > q {
            vstd::arithmetic::div_mod::lemma_small_mod(q, x);
            assert(false);
        }
        assert(x == q);
        assert(y == p) by (nonlinear_arith)
            requires
                x * y == p * q,
                x == q,
                q > 0,
        ;
    }
}

/// Weak convergence bound, reachability side: for odd primes `p < q`,
/// the close-factor window of `n = p*q` contains a hit whenever
/// `(p+q)/2 - ceil(sqrt(n))` is below the round cap; the hit lies at
/// `(p+q)/2` itself, so the search converges in exactly that many
/// rounds.
pub proof fn lemma_weak_convergence_success(p: nat, q: nat)
    requires
        is_prime(p),
        is_prime(q),
        2 < p < q,
        (p + q) / 2 - sqrt_ceil(p * q) < WEAK_ROUND_CAP,
    ensures
        weak_window_hit(p * q),
{
    let n = p * q;
    assert(p % 2 != 0);
    assert(q % 2 != 0);
    let a = ((p + q) / 2) as nat;
    let b = ((q - p) / 2) as nat;
    assert(p + q == 2 * a);
    assert(q - p == 2 * b);
    assert(a * a == n + b * b) by (nonlinear_arith)
        requires
            p + q == 2 * a,
            q >= p,
            q - p == 2 * b,
            n == p * q,
    ;
    assert(b <= a);
    assert(a > b + 1);
    assert(fermat_witness(n, a, b));
    assert(fermat_hit(n, a));
    assert(a * a >= n);
    lemma_sqrt_ceil_least(n, a);
    assert(sqrt_ceil(n) <= a < sqrt_ceil(n) + WEAK_ROUND_CAP);
    assert(weak_window_hit(n));
}

/// Weak convergence bound, exhaustion side: when the midpoint of the
/// prime pair lies at or beyond the round cap, no offset in the window
/// is a hit, because the modulus factors in no other way.
pub proof fn lemma_weak_convergence_failure(p: nat, q: nat)
    requires
        is_prime(p),
        is_prime(q),
        2 < p < q,
        (p + q) / 2 - sqrt_ceil(p * q) >= WEAK_ROUND_CAP,
    ensures
        !weak_window_hit(p * q),
{
    let n = p * q;
    if weak_window_hit(n) {
        let a = choose|a: nat|
            sqrt_ceil(n) <= a < sqrt_ceil(n) + WEAK_ROUND_CAP && #[trigger] fermat_hit(n, a);
        let b = choose|b: nat| #[trigger] fermat_witness(n, a, b);
        let x = (a - b) as nat;
        let y = (a + b) as nat;
        assert(x * y == n) by (nonlinear_arith)
            requires
                x == a - b,
                y == a + b,
                b <= a,
                a * a == n + b * b,
        ;
        assert(1 < x && x <= y);
        lemma_semiprime_unique(p, q, x, y);
        assert(x == p && y == q);
        assert(p + q == 2 * a);
        assert(a == (p + q) / 2);
        assert(false);
    }
}

/// The weak convergence bound in full: for odd primes `p < q`, the
/// close-factor search of `p * q` succeeds if and only if
/// `(p+q)/2 - ceil(sqrt(p*q))` lies below the round cap.
pub proof fn lemma_weak_convergence(p: nat, q: nat)
    requires
        is_prime(p),
        is_prime(q),
        2 < p < q,
    ensures
        weak_window_hit(p * q) <==> (p + q) / 2 - sqrt_ceil(p * q) < WEAK_ROUND_CAP,
{
    if (p + q) / 2 - sqrt_ceil(p * q) < WEAK_ROUND_CAP {
        lemma_weak_convergence_success(p, q);
    } else {
        lemma_weak_convergence_failure(p, q);
    }
}

} // verus!
