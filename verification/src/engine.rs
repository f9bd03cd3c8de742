//! The factorization engine.
//!
//! Owns one piece of public key material, attempts to factor the modulus
//! by one of two strategies, and derives the full private key from the
//! recovered factors.  The weak strategy is a Fermat-style close-factor
//! search with a fixed round cap; the strong strategy is a randomized
//! probe over candidates of roughly half the modulus bit length.

use vstd::prelude::*;
use vstd::string::StringExecFns;
use vstd::arithmetic::power::pow;
use vstd::arithmetic::power2::{pow2, lemma2_to64, lemma_pow2_adds, lemma_pow2_pos,
    lemma_pow2_strictly_increases};
use std::io::Write;
use crate::arith::{Big, big_from_u64, big_add, big_sub, big_mul, big_div, big_rem, big_eq,
    big_lt, big_sqrt, big_bits, big_modpow, big_modinv, rand_u32, limbs_val,
    lemma_limbs_val_push, lemma_limbs_val_upper, lemma_limbs_val_parity};

verus! {

/// The failures the toolkit distinguishes.  File-system failures stay
/// outside the library and are surfaced by the caller directly.
#[derive(Clone, Copy, Debug, PartialEq, Eq, Structural)]
pub enum Error {
    /// A required argument is missing.
    InvalidInput,
    /// An out-of-range reporting level, carrying the offending value.
    InvalidData(u8),
    /// The input text is not a well-formed key encoding.
    DecodeError,
    /// The modulus fails structural sanity checks, or no private exponent
    /// consistent with the recovered factors exists.
    InvalidKeyMaterial,
    /// An explicit iteration-bound override of zero.
    ConfigError,
    /// The chosen strategy exhausted its bound without finding factors.
    FactorizationFailed,
}

/// The character that denotes one decimal digit.
pub open spec fn dec_digit(d: nat) -> char {
    if d == 0 {
        '0'
    } else if d == 1 {
        '1'
    } else if d == 2 {
        '2'
    } else if d == 3 {
        '3'
    } else if d == 4 {
        '4'
    } else if d == 5 {
        '5'
    } else if d == 6 {
        '6'
    } else if d == 7 {
        '7'
    } else if d == 8 {
        '8'
    } else {
        '9'
    }
}

/// The decimal form of a number, most significant digit first.
pub open spec fn dec_of(v: nat) -> Seq<char>
    decreases v,
{
    if v < 10 {
        seq![dec_digit(v)]
    } else {
        dec_of(v / 10).push(dec_digit(v % 10))
    }
}

/// Appends the decimal form of `v` to `out`.
fn push_decimal(v: u8, out: &mut String)
    ensures
        final(out)@ == old(out)@ + dec_of(v as nat),
    decreases v,
{
    if v >= 10 {
        push_decimal(v / 10, out);
    }
    let d = v % 10;
    let piece: &str = if d == 0 {
        "0"
    } else if d == 1 {
        "1"
    } else if d == 2 {
        "2"
    } else if d == 3 {
        "3"
    } else if d == 4 {
        "4"
    } else if d == 5 {
        "5"
    } else if d == 6 {
        "6"
    } else if d == 7 {
        "7"
    } else if d == 8 {
        "8"
    } else {
        "9"
    };
    proof {
        reveal_strlit("0");
        reveal_strlit("1");
        reveal_strlit("2");
        reveal_strlit("3");
        reveal_strlit("4");
        reveal_strlit("5");
        reveal_strlit("6");
        reveal_strlit("7");
        reveal_strlit("8");
        reveal_strlit("9");
        assert(piece@ =~= seq![dec_digit(d as nat)]);
    }
    out.append(piece);
    proof {
        if v < 10 {
            assert(dec_of(v as nat) =~= seq![dec_digit(v as nat)]);
            assert(final(out)@ =~= old(out)@ + dec_of(v as nat));
        } else {
            assert(dec_of(v as nat) == dec_of((v / 10) as nat).push(dec_digit((v % 10) as nat)));
            assert(final(out)@ =~= old(out)@ + dec_of(v as nat));
        }
    }
}

impl Error {
    pub open spec fn message_spec(self) -> Seq<char> {
        match self {
            Error::InvalidInput => "missing required input"@,
            Error::InvalidData(v) => "expected reporting level 0, 1 or 2, got "@ + dec_of(
                v as nat,
            ),
            Error::DecodeError => "input is not a well-formed key encoding"@,
            Error::InvalidKeyMaterial => "key material is not a crackable RSA key"@,
            Error::ConfigError => "iteration bound override must be positive"@,
            Error::FactorizationFailed => "search exhausted without finding factors"@,
        }
    }

    /// A human-readable diagnostic line for this failure, naming the
    /// offending value where there is one.
    pub fn message(&self) -> (r: String)
        ensures
            r@ == self.message_spec(),
    {
        match self {
            Error::InvalidInput => "missing required input".to_owned(),
            Error::InvalidData(v) => {
                let mut s = "expected reporting level 0, 1 or 2, got ".to_owned();
                push_decimal(*v, &mut s);
                s
            },
            Error::DecodeError => "input is not a well-formed key encoding".to_owned(),
            Error::InvalidKeyMaterial => "key material is not a crackable RSA key".to_owned(),
            Error::ConfigError => "iteration bound override must be positive".to_owned(),
            Error::FactorizationFailed => "search exhausted without finding factors".to_owned(),
        }
    }
}

/// Validates a reporting verbosity level: absent means the quiet default,
/// levels above two are rejected.
pub fn check_level(level: Option<&u8>) -> (r: Result<u8, Error>)
    ensures
        ({
            let want: Result<u8, Error> = match level {
                None => Ok(0u8),
                Some(l) => if *l <= 2 {
                    Ok(*l)
                } else {
                    Err(Error::InvalidData(*l))
                },
            };
            r == want
        }),
{
    match level {
        None => Ok(0),
        Some(l) => if *l <= 2 {
            Ok(*l)
        } else {
            Err(Error::InvalidData(*l))
        },
    }
}

/// The public half of an RSA key.
pub struct PublicKeyMaterial {
    pub modulus: Big,
    pub exponent: Big,
}

/// A complete private key derived from recovered factors.
pub struct PrivateKeyMaterial {
    pub modulus: Big,
    pub public_exponent: Big,
    pub private_exponent: Big,
    pub prime_p: Big,
    pub prime_q: Big,
}

/// Hard cap on the close-factor search: the cost of one round is fixed by
/// the method, so the cap is not user-tunable.
pub const WEAK_ROUND_CAP: u64 = 1000;

/// Iteration bound of the randomized strategy when no override is given.
pub const DEFAULT_MAX_ITERATIONS: u64 = 10000;

/// Smallest modulus that can hold two independent odd primes.
pub const MIN_MODULUS: u64 = 9;

// ---------------------------------------------------------------------
// Square roots at the specification level.

pub open spec fn is_floor_sqrt(n: nat, s: nat) -> bool {
    s * s <= n && n < (s + 1) * (s + 1)
}

pub open spec fn sqrt_floor(n: nat) -> nat {
    choose|s: nat| is_floor_sqrt(n, s)
}

pub proof fn lemma_floor_sqrt_exists(n: nat)
    ensures
        is_floor_sqrt(n, sqrt_floor(n)),
    decreases n,
{
    if n == 0 {
        assert(is_floor_sqrt(0, 0)) by (nonlinear_arith);
        assert(sqrt_floor(0) == choose|s: nat| is_floor_sqrt(0, s));
    } else {
        lemma_floor_sqrt_exists((n - 1) as nat);
        let s = sqrt_floor((n - 1) as nat);
        if (s + 1) * (s + 1) <= n {
            assert(is_floor_sqrt(n, s + 1)) by (nonlinear_arith)
                requires
                    (s + 1) * (s + 1) <= n,
                    n - 1 < (s + 1) * (s + 1),
            ;
        } else {
            assert(is_floor_sqrt(n, s));
        }
    }
}

pub proof fn lemma_floor_sqrt_unique(n: nat, s: nat)
    requires
        is_floor_sqrt(n, s),
    ensures
        s == sqrt_floor(n),
{
    lemma_floor_sqrt_exists(n);
    let t = sqrt_floor(n);
    assert(s == t) by (nonlinear_arith)
        requires
            s * s <= n < (s + 1) * (s + 1),
            t * t <= n < (t + 1) * (t + 1),
    ;
}

/// The least `s` with `s * s >= n`.
pub open spec fn sqrt_ceil(n: nat) -> nat {
    if sqrt_floor(n) * sqrt_floor(n) == n {
        sqrt_floor(n)
    } else {
        sqrt_floor(n) + 1
    }
}

pub proof fn lemma_sqrt_ceil_sq(n: nat)
    ensures
        sqrt_ceil(n) * sqrt_ceil(n) >= n,
{
    lemma_floor_sqrt_exists(n);
}

pub proof fn lemma_sqrt_ceil_least(n: nat, s: nat)
    requires
        s * s >= n,
    ensures
        s >= sqrt_ceil(n),
{
    lemma_floor_sqrt_exists(n);
    let f = sqrt_floor(n);
    if f * f == n {
        assert(s >= f) by (nonlinear_arith)
            requires
                s * s >= n,
                f * f == n,
        ;
    } else {
        assert(s >= f + 1) by (nonlinear_arith)
            requires
                s * s >= n,
                f * f <= n < (f + 1) * (f + 1),
                f * f != n,
        ;
    }
}

/// The ceiling square root, computed by exact integer square root and
/// re-squaring; floating point is never involved.
fn big_ceil_sqrt(n: &Big) -> (r: Big)
    requires
        n@ > 0,
    ensures
        r@ == sqrt_ceil(n@),
{
    let s = big_sqrt(n);
    proof {
        lemma_floor_sqrt_unique(n@, s@);
    }
    let ss = big_mul(&s, &s);
    if big_eq(&ss, n) {
        s
    } else {
        let one = big_from_u64(1);
        big_add(&s, &one)
    }
}

// ---------------------------------------------------------------------
// The close-factor search at the specification level.

/// `b` witnesses a hit of the close-factor search at offset `a`:
/// `a*a - n` is the perfect square `b*b`, and the candidate factor
/// `a - b` is greater than one.
pub open spec fn fermat_witness(n: nat, a: nat, b: nat) -> bool {
    b <= a && a * a == n + b * b && a > b + 1
}

pub open spec fn fermat_hit(n: nat, a: nat) -> bool {
    exists|b: nat| #[trigger] fermat_witness(n, a, b)
}

/// Some offset within the fixed round cap above the ceiling square root
/// of `n` is a hit.
pub open spec fn weak_window_hit(n: nat) -> bool {
    exists|a: nat| sqrt_ceil(n) <= a < sqrt_ceil(n) + WEAK_ROUND_CAP && #[trigger] fermat_hit(n, a)
}

/// The hit that produced the factor pair `(p, q)`.
pub open spec fn window_hit_at(n: nat, p: nat, q: nat) -> bool {
    exists|a: nat|
        sqrt_ceil(n) <= a < sqrt_ceil(n) + WEAK_ROUND_CAP && #[trigger] fermat_hit(n, a) && p + q
            == 2 * a
}

/// Euler's totient of a two-prime modulus, from its factors.
pub open spec fn phi_of(p: nat, q: nat) -> nat {
    ((p - 1) * (q - 1)) as nat
}

/// No value below `phi` is a modular inverse of `e`.
pub open spec fn no_inverse(e: nat, phi: nat) -> bool {
    forall|x: nat| x < phi ==> #[trigger] ((e * x) % phi) != 1
}

/// The structural sanity conditions under which the engine accepts a
/// modulus and exponent: the modulus is odd, large enough for two odd
/// primes, and fails the Fermat primality test to base two or base
/// three (so it is composite; the rare composites that are pseudoprime
/// to both bases are rejected along with the primes); the exponent is
/// odd and lies strictly between one and the modulus.
pub open spec fn acceptable_key(n: nat, e: nat) -> bool {
    &&& n % 2 == 1
    &&& n >= MIN_MODULUS
    &&& !(pow(2, (n - 1) as nat) % (n as int) == 1 && pow(3, (n - 1) as nat) % (n as int) == 1)
    &&& e % 2 == 1
    &&& 1 < e < n
}

/// The derived key is internally consistent with the public material it
/// came from: the factors multiply back to the modulus exactly, and the
/// private exponent inverts the public exponent modulo the totient.
pub open spec fn derived_ok(k: PrivateKeyMaterial, n: nat, e: nat) -> bool {
    &&& k.modulus@ == n
    &&& k.public_exponent@ == e
    &&& k.prime_p@ * k.prime_q@ == n
    &&& 1 < k.prime_p@
    &&& 1 < k.prime_q@
    &&& k.private_exponent@ < phi_of(k.prime_p@, k.prime_q@)
    &&& (e * k.private_exponent@) % phi_of(k.prime_p@, k.prime_q@) == 1
    &&& (k.private_exponent@ * e) % phi_of(k.prime_p@, k.prime_q@) == 1
}

proof fn lemma_odd_factors(n: nat, p: nat, q: nat)
    requires
        n % 2 == 1,
        p * q == n,
    ensures
        p % 2 == 1,
        q % 2 == 1,
{
    if p % 2 == 0 {
        let k = p / 2;
        assert(n == (k * q) * 2) by (nonlinear_arith)
            requires
                p == 2 * k,
                p * q == n,
        ;
        vstd::arithmetic::div_mod::lemma_mod_multiples_basic((k * q) as int, 2);
        assert(false);
    }
    if q % 2 == 0 {
        let k = q / 2;
        assert(n == (p * k) * 2) by (nonlinear_arith)
            requires
                q == 2 * k,
                p * q == n,
        ;
        vstd::arithmetic::div_mod::lemma_mod_multiples_basic((p * k) as int, 2);
        assert(false);
    }
}

// ---------------------------------------------------------------------
// Derivation, shared by both strategies.

/// From recovered factors `(p, q)` of `n`, derive the private exponent as
/// the modular inverse of `e` modulo `(p-1)*(q-1)` and assemble the full
/// private key.  Fails exactly when no inverse exists.
pub fn derive_private(n: &Big, e: &Big, p: &Big, q: &Big) -> (r: Result<PrivateKeyMaterial, Error>)
    requires
        p@ * q@ == n@,
        1 < p@,
        1 < q@,
        n@ % 2 == 1,
    ensures
        match r {
            Ok(k) => {
                &&& derived_ok(k, n@, e@)
                &&& k.prime_p@ == p@
                &&& k.prime_q@ == q@
            },
            Err(err) => err == Error::InvalidKeyMaterial && no_inverse(e@, phi_of(p@, q@)),
        },
{
    proof {
        lemma_odd_factors(n@, p@, q@);
        assert((p@ - 1) * (q@ - 1) >= 4) by (nonlinear_arith)
            requires
                p@ >= 3,
                q@ >= 3,
        ;
    }
    let one = big_from_u64(1);
    let pm1 = big_sub(p, &one);
    let qm1 = big_sub(q, &one);
    let phi = big_mul(&pm1, &qm1);
    match big_modinv(e, &phi) {
        Some(d) => {
            proof {
                assert(e@ * d@ == d@ * e@) by (nonlinear_arith);
            }
            Ok(
                PrivateKeyMaterial {
                    modulus: n.dup(),
                    public_exponent: e.dup(),
                    private_exponent: d,
                    prime_p: p.dup(),
                    prime_q: q.dup(),
                },
            )
        },
        None => Err(Error::InvalidKeyMaterial),
    }
}

// ---------------------------------------------------------------------
// The weak strategy: Fermat-style close-factor search.

/// Searches `a = ceil(sqrt(n)), ceil(sqrt(n)) + 1, ...` for a round where
/// `a*a - n` is a perfect square, for at most the fixed round cap.  The
/// perfect-square test squares the exact integer root and compares.
fn weak_search(n: &Big) -> (r: Result<(Big, Big), Error>)
    requires
        n@ % 2 == 1,
        n@ >= MIN_MODULUS,
    ensures
        match r {
            Ok(pq) => {
                &&& pq.0@ * pq.1@ == n@
                &&& 1 < pq.0@
                &&& pq.0@ <= pq.1@
                &&& window_hit_at(n@, pq.0@, pq.1@)
            },
            Err(e) => e == Error::FactorizationFailed && !weak_window_hit(n@),
        },
{
    let a0 = big_ceil_sqrt(n);
    proof {
        lemma_sqrt_ceil_sq(n@);
    }
    let one = big_from_u64(1);
    let mut a = a0.dup();
    let mut round: u64 = 0;
    while round < WEAK_ROUND_CAP
        invariant
            n@ % 2 == 1,
            n@ >= MIN_MODULUS,
            round <= WEAK_ROUND_CAP,
            a@ == sqrt_ceil(n@) + round,
            one@ == 1,
            sqrt_ceil(n@) * sqrt_ceil(n@) >= n@,
            forall|x: nat| sqrt_ceil(n@) <= x < a@ ==> !#[trigger] fermat_hit(n@, x),
        decreases WEAK_ROUND_CAP - round,
    {
        proof {
            assert(a@ * a@ >= n@) by (nonlinear_arith)
                requires
                    a@ >= sqrt_ceil(n@),
                    sqrt_ceil(n@) * sqrt_ceil(n@) >= n@,
            ;
        }
        let aa = big_mul(&a, &a);
        let c = big_sub(&aa, n);
        let b = big_sqrt(&c);
        let bb = big_mul(&b, &b);
        if big_eq(&bb, &c) {
            proof {
                assert(b@ <= a@) by (nonlinear_arith)
                    requires
                        b@ * b@ == a@ * a@ - n@,
                        n@ >= 1,
                ;
            }
            let p = big_sub(&a, &b);
            let q = big_add(&a, &b);
            if big_lt(&one, &p) {
                proof {
                    assert(p@ * q@ == n@) by (nonlinear_arith)
                        requires
                            p@ == a@ - b@,
                            q@ == a@ + b@,
                            b@ <= a@,
                            a@ * a@ == n@ + b@ * b@,
                    ;
                    assert(fermat_witness(n@, a@, b@));
                    assert(fermat_hit(n@, a@));
                    assert(p@ + q@ == 2 * a@);
                    assert(window_hit_at(n@, p@, q@));
                }
                return Ok((p, q));
            }
        }
        proof {
            // No usable hit at this offset: any witness root would have to
            // be the exact integer square root of c, which either missed
            // the square or left a factor of at most one.
            if fermat_hit(n@, a@) {
                let bp = choose|bp: nat| fermat_witness(n@, a@, bp);
                assert(bp * bp == c@);
                assert(bp == b@) by (nonlinear_arith)
                    requires
                        bp * bp == c@,
                        b@ * b@ <= c@,
                        c@ < (b@ + 1) * (b@ + 1),
                ;
                assert(false);
            }
        }
        a = big_add(&a, &one);
        round = round + 1;
    }
    proof {
        assert(!weak_window_hit(n@));
    }
    Err(Error::FactorizationFailed)
}

// ---------------------------------------------------------------------
// The strong strategy: randomized structural bit-length probe.

/// Relies on `std::io::Stdout` via `writeln`: emits one progress line and
/// computes nothing.
#[verifier::external_body]
fn progress_line(count: u64) {
    let _ = writeln!(std::io::stdout(), "checked {} random candidates so far", count);
}

/// A random odd integer of exactly `h` bits: the top bit is forced set to
/// fix the length, the lowest bit is forced set to make it odd.
fn random_odd_with_bits(h: u64) -> (r: Big)
    requires
        1 <= h <= 0x0100_0000,
    ensures
        r@ % 2 == 1,
        pow2((h - 1) as nat) <= r@ < pow2(h as nat),
{
    let low_count = (h - 1) / 32;
    let t: u32 = ((h - 1) % 32) as u32;
    proof {
        assert((h - 1) as nat == 32 * (low_count as nat) + t as nat);
    }
    let mut v: Vec<u32> = Vec::new();
    if low_count > 0 {
        let y = rand_u32();
        let y_odd = if y % 2 == 0 {
            y + 1
        } else {
            y
        };
        v.push(y_odd);
        let mut j: u64 = 1;
        while j < low_count
            invariant
                1 <= j <= low_count,
                low_count <= 0x0100_0000,
                v@.len() == j,
                v@[0] % 2 == 1,
            decreases low_count - j,
        {
            v.push(rand_u32());
            j = j + 1;
        }
    }
    // The exact power of two at the top bit's position.
    let mut m: u32 = 1;
    let mut c: u32 = 0;
    proof {
        lemma2_to64();
    }
    while c < t
        invariant
            c <= t,
            t < 32,
            m == pow2(c as nat),
        decreases t - c,
    {
        proof {
            lemma2_to64();
            lemma_pow2_adds(c as nat, 1);
            lemma_pow2_strictly_increases(c as nat + 1, 32);
        }
        m = m * 2;
        c = c + 1;
    }
    proof {
        lemma2_to64();
        lemma_pow2_pos(t as nat);
        if (t as nat) < 31 {
            lemma_pow2_strictly_increases(t as nat, 31);
        }
        assert(1 <= m <= 0x8000_0000);
        lemma_pow2_adds(t as nat, 1);
    }
    let x = rand_u32();
    let mut top = (x % m) + m;
    if low_count == 0 && top % 2 == 0 {
        top = top + 1;
    }
    proof {
        assert(m <= top < 2 * m);
        assert(pow2(t as nat + 1) == 2 * m);
        assert(low_count == 0 ==> top % 2 == 1);
    }
    let ghost lows = v@;
    v.push(top);
    proof {
        assert(lows.len() == low_count);
        lemma_limbs_val_push(lows, top);
        lemma_limbs_val_upper(lows);
        let base = pow2(32 * (low_count as nat));
        let value = limbs_val(v@);
        assert(value == limbs_val(lows) + (top as nat) * base);
        lemma_pow2_adds(t as nat, 32 * (low_count as nat));
        lemma_pow2_adds(t as nat + 1, 32 * (low_count as nat));
        assert(value >= (m as nat) * base) by (nonlinear_arith)
            requires
                value == limbs_val(lows) + (top as nat) * base,
                top >= m,
                base >= 0,
        ;
        assert((m as nat) * base == pow2((h - 1) as nat));
        assert(value < (1 + top as nat) * base) by (nonlinear_arith)
            requires
                value == limbs_val(lows) + (top as nat) * base,
                limbs_val(lows) < base,
        ;
        assert((1 + top as nat) * base <= (2 * m as nat) * base) by (nonlinear_arith)
            requires
                1 + top as nat <= 2 * m as nat,
                base >= 0,
        ;
        assert((2 * m as nat) * base == pow2(h as nat));
        if low_count > 0 {
            assert(v@[0] == lows[0]);
        } else {
            assert(v@[0] == top);
        }
        lemma_limbs_val_parity(v@);
    }
    Big { limbs: v }
}

/// Draws random candidates of roughly half the modulus bit length and
/// tests each for exact divisibility; a Monte-Carlo probe, so success is
/// never owed, but a reported factor pair is always exact.
fn strong_search(n: &Big, max_iterations: u64, report: bool) -> (r: Result<(Big, Big), Error>)
    requires
        n@ % 2 == 1,
        n@ >= MIN_MODULUS,
    ensures
        match r {
            Ok(pq) => {
                &&& pq.0@ * pq.1@ == n@
                &&& 1 < pq.0@ < n@
                &&& 1 < pq.1@ < n@
            },
            Err(e) => e == Error::FactorizationFailed,
        },
{
    let bits = big_bits(n);
    proof {
        lemma2_to64();
        if bits <= 3 {
            assert(pow2(bits as nat) <= 8) by {
                if bits == 0 {
                } else if bits == 1 {
                } else if bits == 2 {
                } else {
                }
            }
            assert(false);
        }
    }
    let half = bits / 2;
    let one = big_from_u64(1);
    let zero = big_from_u64(0);
    let mut i: u64 = 0;
    while i < max_iterations
        invariant
            n@ % 2 == 1,
            n@ >= MIN_MODULUS,
            half >= 2,
            half <= u64::MAX / 2,
            one@ == 1,
            zero@ == 0,
        decreases max_iterations - i,
    {
        let h = half - 1 + (i % 3);
        if h <= 0x0100_0000 {
            let candidate = random_odd_with_bits(h);
            if big_lt(&one, &candidate) && big_lt(&candidate, n) {
                let rem = big_rem(n, &candidate);
                if big_eq(&rem, &zero) {
                    let quot = big_div(n, &candidate);
                    proof {
                        vstd::arithmetic::div_mod::lemma_fundamental_div_mod(
                            n@ as int,
                            candidate@ as int,
                        );
                        assert(candidate@ * quot@ == n@);
                        assert(quot@ != 0) by (nonlinear_arith)
                            requires
                                candidate@ * quot@ == n@,
                                n@ >= 1,
                        ;
                        assert(quot@ != 1);
                        assert(quot@ < n@) by (nonlinear_arith)
                            requires
                                candidate@ * quot@ == n@,
                                candidate@ >= 2,
                                quot@ >= 2,
                        ;
                        assert(candidate@ * quot@ == quot@ * candidate@) by (nonlinear_arith);
                    }
                    return Ok((candidate, quot));
                }
            }
        }
        if report && i % 1000 == 999 {
            progress_line(i + 1);
        }
        i = i + 1;
    }
    Err(Error::FactorizationFailed)
}

// ---------------------------------------------------------------------
// The engine.

/// A single-use factorization engine: owns the public key material, a
/// strictly positive iteration bound for the strong strategy, and a
/// reporting verbosity level.
pub struct FactorizationEngine {
    pub key: PublicKeyMaterial,
    pub max_iterations: u64,
    pub report_level: u8,
}

impl FactorizationEngine {
    pub open spec fn wf(&self) -> bool {
        &&& acceptable_key(self.key.modulus@, self.key.exponent@)
        &&& self.max_iterations >= 1
    }

    /// Builds an engine over decoded public key material, rejecting a
    /// modulus that is even, too small, or passes the Fermat primality
    /// test to both base two and base three (a prime modulus cannot be
    /// factored into two primes; the test also rejects the rare
    /// composites that are pseudoprime to both bases), and an exponent
    /// that is even or out of range.
    pub fn new(key: PublicKeyMaterial) -> (r: Result<FactorizationEngine, Error>)
        ensures
            match r {
                Ok(eng) => {
                    &&& eng.wf()
                    &&& eng.key.modulus@ == key.modulus@
                    &&& eng.key.exponent@ == key.exponent@
                    &&& eng.max_iterations == DEFAULT_MAX_ITERATIONS
                    &&& eng.report_level == 0
                },
                Err(e) => e == Error::InvalidKeyMaterial,
            },
            (r matches Ok(_)) <==> acceptable_key(key.modulus@, key.exponent@),
    {
        let one = big_from_u64(1);
        let two = big_from_u64(2);
        let minimum = big_from_u64(MIN_MODULUS);
        let parity = big_rem(&key.modulus, &two);
        if !big_eq(&parity, &one) {
            return Err(Error::InvalidKeyMaterial);
        }
        if big_lt(&key.modulus, &minimum) {
            return Err(Error::InvalidKeyMaterial);
        }
        let nm1 = big_sub(&key.modulus, &one);
        let fermat_two = big_modpow(&two, &nm1, &key.modulus);
        if big_eq(&fermat_two, &one) {
            let three = big_from_u64(3);
            let fermat_three = big_modpow(&three, &nm1, &key.modulus);
            if big_eq(&fermat_three, &one) {
                return Err(Error::InvalidKeyMaterial);
            }
        }
        let eparity = big_rem(&key.exponent, &two);
        if !big_eq(&eparity, &one) {
            return Err(Error::InvalidKeyMaterial);
        }
        if !big_lt(&one, &key.exponent) {
            return Err(Error::InvalidKeyMaterial);
        }
        if !big_lt(&key.exponent, &key.modulus) {
            return Err(Error::InvalidKeyMaterial);
        }
        Ok(
            FactorizationEngine {
                key,
                max_iterations: DEFAULT_MAX_ITERATIONS,
                report_level: 0,
            },
        )
    }

    /// Overrides the strong strategy's iteration bound; an override of
    /// zero is rejected and leaves the engine unchanged.
    pub fn set_iteration_bound(&mut self, n: u64) -> (r: Result<(), Error>)
        ensures
            n == 0 ==> r == Err::<(), Error>(Error::ConfigError) && *final(self) == *old(self),
            n > 0 ==> r == Ok::<(), Error>(()) && final(self).max_iterations == n
                && final(self).key == old(self).key
                && final(self).report_level == old(self).report_level,
    {
        if n == 0 {
            return Err(Error::ConfigError);
        }
        self.max_iterations = n;
        Ok(())
    }

    /// Sets the reporting verbosity; levels above two are rejected and
    /// leave the engine unchanged.
    pub fn set_report_level(&mut self, level: u8) -> (r: Result<(), Error>)
        ensures
            level > 2 ==> r == Err::<(), Error>(Error::InvalidData(level)) && *final(self) == *old(
                self,
            ),
            level <= 2 ==> r == Ok::<(), Error>(()) && final(self).report_level == level
                && final(self).key == old(self).key
                && final(self).max_iterations == old(self).max_iterations,
    {
        if level > 2 {
            return Err(Error::InvalidData(level));
        }
        self.report_level = level;
        Ok(())
    }

    /// Runs the close-factor search and, on success, derives the private
    /// key.  Fails with `FactorizationFailed` exactly when no offset in
    /// the fixed window is a hit; fails with `InvalidKeyMaterial` when
    /// factors were found but the exponent has no inverse.
    pub fn factor_weak(self) -> (r: Result<PrivateKeyMaterial, Error>)
        requires
            self.wf(),
        ensures
            match r {
                Ok(k) => derived_ok(k, self.key.modulus@, self.key.exponent@) && window_hit_at(
                    self.key.modulus@,
                    k.prime_p@,
                    k.prime_q@,
                ),
                Err(e) => {
                    &&& (e == Error::FactorizationFailed || e == Error::InvalidKeyMaterial)
                    &&& (e == Error::InvalidKeyMaterial ==> exists|pp: nat, qq: nat|
                        pp * qq == self.key.modulus@ && 1 < pp && 1 < qq && #[trigger] no_inverse(
                            self.key.exponent@,
                            phi_of(pp, qq),
                        ))
                },
            },
            (r == Err::<PrivateKeyMaterial, Error>(Error::FactorizationFailed)) <==> !weak_window_hit(
                self.key.modulus@,
            ),
    {
        match weak_search(&self.key.modulus) {
            Ok((p, q)) => {
                let d = derive_private(&self.key.modulus, &self.key.exponent, &p, &q);
                match d {
                    Ok(k) => Ok(k),
                    Err(e) => Err(e),
                }
            },
            Err(e) => Err(e),
        }
    }

    /// Runs the randomized probe up to the configured iteration bound
    /// and, on success, derives the private key.  Success is never owed:
    /// the probe is advertised as effective only against keys whose
    /// primes were constrained to half the modulus bit length.  A
    /// reported factor pair always divides the modulus exactly.
    pub fn factor_strong(self) -> (r: Result<PrivateKeyMaterial, Error>)
        requires
            self.wf(),
        ensures
            match r {
                Ok(k) => derived_ok(k, self.key.modulus@, self.key.exponent@),
                Err(e) => {
                    &&& (e == Error::FactorizationFailed || e == Error::InvalidKeyMaterial)
                    &&& (e == Error::InvalidKeyMaterial ==> exists|pp: nat, qq: nat|
                        pp * qq == self.key.modulus@ && 1 < pp && 1 < qq && #[trigger] no_inverse(
                            self.key.exponent@,
                            phi_of(pp, qq),
                        ))
                },
            },
    {
        match strong_search(&self.key.modulus, self.max_iterations, self.report_level == 2) {
            Ok((p, q)) => {
                let d = derive_private(&self.key.modulus, &self.key.exponent, &p, &q);
                match d {
                    Ok(k) => Ok(k),
                    Err(e) => Err(e),
                }
            },
            Err(e) => Err(e),
        }
    }
}

} // verus!
