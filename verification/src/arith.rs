//! Exact-precision arithmetic substrate.
//!
//! `Big` is an arbitrary-precision unsigned integer held as little-endian
//! base-2^32 digits; its abstract value is a `nat`.  The arithmetic itself
//! is delegated to an outside crate through trusted wrappers whose
//! contracts state the exact numeric result of each operation.

use vstd::prelude::*;
use vstd::arithmetic::power::pow;
use vstd::arithmetic::power2::{pow2, lemma_pow2_adds, lemma2_to64};
use vstd::arithmetic::div_mod::lemma_mod_multiples_vanish;
use num_bigint::BigUint;

verus! {

/// Value of a little-endian sequence of base-2^32 digits.
pub open spec fn limbs_val(s: Seq<u32>) -> nat
    decreases s.len(),
{
    if s.len() == 0 {
        0
    } else {
        s[0] as nat + 0x1_0000_0000 * limbs_val(s.drop_first())
    }
}

/// Appending a digit adds its value at the next power position.
pub proof fn lemma_limbs_val_push(s: Seq<u32>, x: u32)
    ensures
        limbs_val(s.push(x)) == limbs_val(s) + (x as nat) * pow2(32 * s.len()),
    decreases s.len(),
{
    lemma2_to64();
    if s.len() == 0 {
        assert(s.push(x).drop_first() =~= Seq::<u32>::empty());
        assert(s.push(x)[0] == x);
        assert(limbs_val(Seq::<u32>::empty()) == 0);
        assert(limbs_val(s.push(x)) == x);
        assert(limbs_val(s) == 0);
        assert(pow2(0) == 1);
    } else {
        assert(s.push(x).drop_first() =~= s.drop_first().push(x));
        lemma_limbs_val_push(s.drop_first(), x);
        lemma_pow2_adds(32, 32 * (s.len() - 1) as nat);
        assert(limbs_val(s.push(x)) == s[0] + 0x1_0000_0000 * (limbs_val(s.drop_first()) + (
        x as nat) * pow2(32 * (s.len() - 1) as nat)));
        assert(limbs_val(s.push(x)) == limbs_val(s) + (x as nat) * (0x1_0000_0000 * pow2(
            32 * (s.len() - 1) as nat,
        ))) by (nonlinear_arith)
            requires
                limbs_val(s.push(x)) == s[0] + 0x1_0000_0000 * (limbs_val(s.drop_first()) + (
                x as nat) * pow2(32 * (s.len() - 1) as nat)),
                limbs_val(s) == s[0] + 0x1_0000_0000 * limbs_val(s.drop_first()),
        ;
        assert(32 * s.len() == 32 + 32 * (s.len() - 1) as nat);
    }
}

/// The value of a digit sequence stays below the next power position.
pub proof fn lemma_limbs_val_upper(s: Seq<u32>)
    ensures
        limbs_val(s) < pow2(32 * s.len()),
    decreases s.len(),
{
    lemma2_to64();
    if s.len() == 0 {
        assert(pow2(0) == 1);
    } else {
        lemma_limbs_val_upper(s.drop_first());
        lemma_pow2_adds(32, 32 * (s.len() - 1) as nat);
        assert(limbs_val(s) < 0x1_0000_0000 * pow2(32 * (s.len() - 1) as nat))
            by (nonlinear_arith)
            requires
                limbs_val(s) == s[0] + 0x1_0000_0000 * limbs_val(s.drop_first()),
                limbs_val(s.drop_first()) < pow2(32 * (s.len() - 1) as nat),
                s[0] < 0x1_0000_0000,
        ;
        assert(32 * s.len() == 32 + 32 * (s.len() - 1) as nat);
    }
}

/// The parity of a digit sequence is the parity of its lowest digit.
pub proof fn lemma_limbs_val_parity(s: Seq<u32>)
    requires
        s.len() >= 1,
    ensures
        limbs_val(s) % 2 == s[0] % 2,
{
    let rest = limbs_val(s.drop_first());
    assert(limbs_val(s) == 2 * (0x8000_0000 * rest) + s[0]) by (nonlinear_arith)
        requires
            limbs_val(s) == s[0] + 0x1_0000_0000 * rest,
    ;
    lemma_mod_multiples_vanish((0x8000_0000 * rest) as int, s[0] as int, 2);
}

/// An arbitrary-precision unsigned integer.  Trailing zero digits are
/// permitted and do not change the value.
pub struct Big {
    pub limbs: Vec<u32>,
}

impl View for Big {
    type V = nat;

    open spec fn view(&self) -> nat {
        limbs_val(self.limbs@)
    }
}

impl Big {
    /// An independently owned copy with the same value.
    pub fn dup(&self) -> (r: Big)
        ensures
            r@ == self@,
    {
        let mut v: Vec<u32> = Vec::new();
        let mut i: usize = 0;
        while i < self.limbs.len()
            invariant
                i <= self.limbs@.len(),
                v@ == self.limbs@.take(i as int),
            decreases self.limbs@.len() - i,
        {
            v.push(self.limbs[i]);
            assert(v@ =~= self.limbs@.take(i as int + 1));
            i = i + 1;
        }
        assert(v@ =~= self.limbs@);
        Big { limbs: v }
    }
}

/// Relies on `num_bigint::BigUint::from::<u64>` and `to_u32_digits`:
/// the digits are the base-2^32 representation of the argument.
#[verifier::external_body]
pub fn big_from_u64(x: u64) -> (r: Big)
    ensures
        r@ == x as nat,
{
    Big { limbs: BigUint::from(x).to_u32_digits() }
}

/// Relies on `u64::try_from::<BigUint>`: succeeds exactly when the value
/// fits in a `u64`.
#[verifier::external_body]
pub fn big_to_u64(a: &Big) -> (r: Option<u64>)
    ensures
        match r {
            Some(x) => x as nat == a@,
            None => a@ > u64::MAX,
        },
{
    u64::try_from(BigUint::new(a.limbs.clone())).ok()
}

/// Relies on `core::ops::Add` for `BigUint`: exact unbounded addition.
#[verifier::external_body]
pub fn big_add(a: &Big, b: &Big) -> (r: Big)
    ensures
        r@ == a@ + b@,
{
    let s = BigUint::new(a.limbs.clone()) + BigUint::new(b.limbs.clone());
    Big { limbs: s.to_u32_digits() }
}

/// Relies on `core::ops::Sub` for `BigUint`: exact subtraction; the
/// wrapper is only called when no underflow can occur.
#[verifier::external_body]
pub fn big_sub(a: &Big, b: &Big) -> (r: Big)
    requires
        b@ <= a@,
    ensures
        r@ == a@ - b@,
{
    let s = BigUint::new(a.limbs.clone()) - BigUint::new(b.limbs.clone());
    Big { limbs: s.to_u32_digits() }
}

/// Relies on `core::ops::Mul` for `BigUint`: exact unbounded multiplication.
#[verifier::external_body]
pub fn big_mul(a: &Big, b: &Big) -> (r: Big)
    ensures
        r@ == a@ * b@,
{
    let s = BigUint::new(a.limbs.clone()) * BigUint::new(b.limbs.clone());
    Big { limbs: s.to_u32_digits() }
}

/// Relies on `core::ops::Div` for `BigUint`: truncated division, which on
/// unsigned values is Euclidean division.
#[verifier::external_body]
pub fn big_div(a: &Big, b: &Big) -> (r: Big)
    requires
        b@ > 0,
    ensures
        r@ == a@ / b@,
{
    let s = BigUint::new(a.limbs.clone()) / BigUint::new(b.limbs.clone());
    Big { limbs: s.to_u32_digits() }
}

/// Relies on `core::ops::Rem` for `BigUint`: the Euclidean remainder.
#[verifier::external_body]
pub fn big_rem(a: &Big, b: &Big) -> (r: Big)
    requires
        b@ > 0,
    ensures
        r@ == a@ % b@,
{
    let s = BigUint::new(a.limbs.clone()) % BigUint::new(b.limbs.clone());
    Big { limbs: s.to_u32_digits() }
}

/// Relies on `PartialEq` for `BigUint`: value equality.
#[verifier::external_body]
pub fn big_eq(a: &Big, b: &Big) -> (r: bool)
    ensures
        r == (a@ == b@),
{
    BigUint::new(a.limbs.clone()) == BigUint::new(b.limbs.clone())
}

/// Relies on `PartialOrd` for `BigUint`: value order.
#[verifier::external_body]
pub fn big_lt(a: &Big, b: &Big) -> (r: bool)
    ensures
        r == (a@ < b@),
{
    BigUint::new(a.limbs.clone()) < BigUint::new(b.limbs.clone())
}

/// Relies on `num_bigint::BigUint::sqrt`: the truncated principal square
/// root, stated as the exact floor of the real square root.
#[verifier::external_body]
pub fn big_sqrt(a: &Big) -> (r: Big)
    ensures
        r@ * r@ <= a@,
        a@ < (r@ + 1) * (r@ + 1),
{
    Big { limbs: BigUint::new(a.limbs.clone()).sqrt().to_u32_digits() }
}

/// Relies on `num_bigint::BigUint::bits`: the fewest bits necessary to
/// express the value.
#[verifier::external_body]
pub fn big_bits(a: &Big) -> (r: u64)
    ensures
        a@ == 0 ==> r == 0,
        a@ > 0 ==> 1 <= r && pow2((r - 1) as nat) <= a@ && a@ < pow2(r as nat),
{
    BigUint::new(a.limbs.clone()).bits()
}

/// Relies on `num_bigint::BigUint::modpow`: `(base ^ exponent) % modulus`.
#[verifier::external_body]
pub fn big_modpow(base: &Big, exponent: &Big, modulus: &Big) -> (r: Big)
    requires
        modulus@ > 0,
    ensures
        r@ == pow(base@ as int, exponent@) % (modulus@ as int),
{
    let b = BigUint::new(base.limbs.clone());
    let m = BigUint::new(modulus.limbs.clone());
    Big { limbs: b.modpow(&BigUint::new(exponent.limbs.clone()), &m).to_u32_digits() }
}

/// Relies on `num_bigint::BigUint::modinv`: the inverse in `[0, modulus)`
/// exists if and only if the arguments are coprime, so a `None` answer
/// refutes every candidate inverse below the modulus.
#[verifier::external_body]
pub fn big_modinv(a: &Big, modulus: &Big) -> (r: Option<Big>)
    requires
        modulus@ > 1,
    ensures
        match r {
            Some(d) => d@ < modulus@ && (a@ * d@) % modulus@ == 1,
            None => forall|x: nat| x < modulus@ ==> #[trigger] ((a@ * x) % modulus@) != 1,
        },
{
    let m = BigUint::new(modulus.limbs.clone());
    match BigUint::new(a.limbs.clone()).modinv(&m) {
        Some(d) => Some(Big { limbs: d.to_u32_digits() }),
        None => None,
    }
}

/// Relies on `rand::random`: one draw from a non-cryptographic source;
/// nothing is promised of the value.
#[verifier::external_body]
pub fn rand_u32() -> u32 {
    rand::random::<u32>()
}

} // verus!
