//! Key codec.
//!
//! Keys travel as text: the numeric fields written as lowercase
//! hexadecimal, big-endian, one field per line.  A public key is the
//! modulus line followed by the exponent line; a private key carries the
//! modulus, public exponent, private exponent and the two primes.  The
//! decoder extracts the numeric fields exactly; the encoder emits each
//! field in canonical form (no leading zeros), so decoding and
//! re-encoding reproduces the numeric fields byte for byte.

use vstd::prelude::*;
use crate::arith::{Big, big_from_u64, big_add, big_mul, big_div, big_rem, big_eq, big_lt,
    big_to_u64};
use crate::engine::{Error, PublicKeyMaterial, PrivateKeyMaterial};

verus! {

/// Lowercase hexadecimal digits only.
pub open spec fn is_hex(c: u8) -> bool {
    (48 <= c <= 57) || (97 <= c <= 102)
}

/// Numeric value of one hexadecimal digit.
pub open spec fn hexd(c: u8) -> nat {
    if 48 <= c <= 57 {
        (c - 48) as nat
    } else {
        (c - 87) as nat
    }
}

/// The digit that denotes `d`.
pub open spec fn hexchar(d: nat) -> u8 {
    if d < 10 {
        (48 + d) as u8
    } else {
        (87 + d) as u8
    }
}

/// Value of a big-endian string of hexadecimal digits.
pub open spec fn hex_val(s: Seq<u8>) -> nat
    decreases s.len(),
{
    if s.len() == 0 {
        0
    } else {
        hex_val(s.drop_last()) * 16 + hexd(s.last())
    }
}

/// The canonical big-endian hexadecimal form of `n`.
pub open spec fn hex_of(n: nat) -> Seq<u8>
    decreases n,
{
    if n < 16 {
        seq![hexchar(n)]
    } else {
        hex_of(n / 16).push(hexchar(n % 16))
    }
}

/// A nonempty run of hexadecimal digits.
pub open spec fn hex_line(s: Seq<u8>) -> bool {
    s.len() >= 1 && forall|k: int| 0 <= k < s.len() ==> is_hex(#[trigger] s[k])
}

/// A hexadecimal line with no leading zero.
pub open spec fn canonical_hex(s: Seq<u8>) -> bool {
    hex_line(s) && (s.len() > 1 ==> s[0] != 48)
}

/// The newline at position `i` separates a public key text into two
/// hexadecimal lines.
pub open spec fn public_split(t: Seq<u8>, i: int) -> bool {
    &&& 0 < i < t.len()
    &&& t[i] == 10
    &&& hex_line(t.subrange(0, i))
    &&& hex_line(t.subrange(i + 1, t.len() as int))
}

pub open spec fn well_formed_public(t: Seq<u8>) -> bool {
    exists|i: int| #[trigger] public_split(t, i)
}

/// `t` decodes to modulus `n` and exponent `e`.
pub open spec fn decoded_as(t: Seq<u8>, n: nat, e: nat) -> bool {
    exists|i: int|
        #[trigger] public_split(t, i) && hex_val(t.subrange(0, i)) == n && hex_val(
            t.subrange(i + 1, t.len() as int),
        ) == e
}

/// The textual form of a public key.
pub open spec fn public_text(n: nat, e: nat) -> Seq<u8> {
    hex_of(n) + seq![10u8] + hex_of(e)
}

/// The textual form of a full private key.
pub open spec fn private_text(n: nat, e: nat, d: nat, p: nat, q: nat) -> Seq<u8> {
    hex_of(n) + seq![10u8] + hex_of(e) + seq![10u8] + hex_of(d) + seq![10u8] + hex_of(p) + seq![
        10u8,
    ] + hex_of(q)
}

// ---------------------------------------------------------------------
// Facts about the hexadecimal forms.

/// The canonical form of `n` is a canonical line and denotes `n`.
pub proof fn lemma_hex_of_val(n: nat)
    ensures
        canonical_hex(hex_of(n)),
        hex_val(hex_of(n)) == n,
        n >= 16 ==> hex_of(n).len() > 1,
    decreases n,
{
    if n < 16 {
        let s = hex_of(n);
        assert(s =~= seq![hexchar(n)]);
        assert(s.drop_last() =~= Seq::<u8>::empty());
        assert(hex_val(Seq::<u8>::empty()) == 0);
        assert(s.last() == hexchar(n));
        assert(hex_val(s) == hex_val(s.drop_last()) * 16 + hexd(s.last()));
        assert(hexd(hexchar(n)) == n);
    } else {
        lemma_hex_of_val(n / 16);
        let pre = hex_of(n / 16);
        let s = hex_of(n);
        assert(s == pre.push(hexchar(n % 16)));
        assert(s.drop_last() =~= pre);
        assert(s.last() == hexchar(n % 16));
        assert(hex_val(s) == hex_val(s.drop_last()) * 16 + hexd(s.last()));
        assert(hexd(hexchar(n % 16)) == n % 16);
        assert(hex_val(s) == hex_val(pre) * 16 + n % 16);
        assert(hex_val(s) == (n / 16) * 16 + n % 16);
        assert(n == (n / 16) * 16 + n % 16);
        assert(s[0] == pre[0]);
        if pre.len() == 1 {
            assert(pre[0] == hexchar(n / 16));
            assert(n / 16 >= 1);
            assert(hexchar(n / 16) != 48);
        }
    }
}

/// A hexadecimal line that does not start with the zero digit denotes a
/// positive value; a longer one denotes at least sixteen.
pub proof fn lemma_hex_val_positive(s: Seq<u8>)
    requires
        hex_line(s),
        s[0] != 48,
    ensures
        hex_val(s) >= 1,
        s.len() > 1 ==> hex_val(s) >= 16,
    decreases s.len(),
{
    if s.len() == 1 {
        assert(s.drop_last() =~= Seq::<u8>::empty());
        assert(hexd(s[0]) >= 1);
    } else {
        let pre = s.drop_last();
        assert(pre[0] == s[0]);
        assert(forall|k: int| 0 <= k < pre.len() ==> is_hex(#[trigger] pre[k]));
        lemma_hex_val_positive(pre);
    }
}

/// On canonical lines, the denotation is injective: writing the value
/// back out reproduces the line.
pub proof fn lemma_hex_canonical_inverse(s: Seq<u8>)
    requires
        canonical_hex(s),
    ensures
        hex_of(hex_val(s)) == s,
    decreases s.len(),
{
    if s.len() == 1 {
        assert(s.drop_last() =~= Seq::<u8>::empty());
        let n = hex_val(s);
        assert(hex_val(Seq::<u8>::empty()) == 0);
        assert(n == hex_val(s.drop_last()) * 16 + hexd(s.last()));
        assert(s.last() == s[0]);
        assert(n == hexd(s[0]));
        assert(n < 16);
        assert(hexchar(hexd(s[0])) == s[0]);
        assert(hex_of(n) =~= s);
    } else {
        let pre = s.drop_last();
        assert(pre[0] == s[0]);
        assert(forall|k: int| 0 <= k < pre.len() ==> is_hex(#[trigger] pre[k]));
        lemma_hex_canonical_inverse(pre);
        lemma_hex_val_positive(pre);
        let n = hex_val(s);
        assert(n == hex_val(pre) * 16 + hexd(s.last()));
        assert(n >= 16) by (nonlinear_arith)
            requires
                n == hex_val(pre) * 16 + hexd(s.last()),
                hex_val(pre) >= 1,
        ;
        assert(n / 16 == hex_val(pre) && n % 16 == hexd(s.last())) by (nonlinear_arith)
            requires
                n == hex_val(pre) * 16 + hexd(s.last()),
                hexd(s.last()) < 16,
        ;
        assert(hexchar(hexd(s.last())) == s.last());
        assert(hex_of(n) == hex_of(n / 16).push(hexchar(n % 16)));
        assert(hex_of(n) =~= s);
    }
}

/// A public key text splits at exactly one place.
pub proof fn lemma_public_split_unique(t: Seq<u8>, i: int, j: int)
    requires
        public_split(t, i),
        public_split(t, j),
    ensures
        i == j,
{
    if i < j {
        assert(is_hex(t.subrange(0, j)[i]));
        assert(t[i] == 10);
        assert(false);
    }
    if j < i {
        assert(is_hex(t.subrange(0, i)[j]));
        assert(t[j] == 10);
        assert(false);
    }
}

/// A text decodes to only one pair of numeric fields.
pub proof fn lemma_decoded_unique(t: Seq<u8>, n1: nat, e1: nat, n2: nat, e2: nat)
    requires
        decoded_as(t, n1, e1),
        decoded_as(t, n2, e2),
    ensures
        n1 == n2,
        e1 == e2,
{
    let i = choose|i: int|
        #[trigger] public_split(t, i) && hex_val(t.subrange(0, i)) == n1 && hex_val(
            t.subrange(i + 1, t.len() as int),
        ) == e1;
    let j = choose|j: int|
        #[trigger] public_split(t, j) && hex_val(t.subrange(0, j)) == n2 && hex_val(
            t.subrange(j + 1, t.len() as int),
        ) == e2;
    lemma_public_split_unique(t, i, j);
}

/// The encoded form of a public key is well formed and splits at the end
/// of the modulus line.
pub proof fn lemma_public_text_split(n: nat, e: nat)
    ensures
        public_split(public_text(n, e), hex_of(n).len() as int),
        public_text(n, e).subrange(0, hex_of(n).len() as int) == hex_of(n),
        public_text(n, e).subrange(
            hex_of(n).len() as int + 1,
            public_text(n, e).len() as int,
        ) == hex_of(e),
{
    lemma_hex_of_val(n);
    lemma_hex_of_val(e);
    let t = public_text(n, e);
    let i = hex_of(n).len() as int;
    assert(t.subrange(0, i) =~= hex_of(n));
    assert(t.subrange(i + 1, t.len() as int) =~= hex_of(e));
    assert(t[i] == 10);
}

/// Round trip, value side: the textual form of a key decodes to exactly
/// the numeric fields it was encoded from.
pub proof fn lemma_public_round_trip(n: nat, e: nat)
    ensures
        decoded_as(public_text(n, e), n, e),
        forall|n2: nat, e2: nat| decoded_as(public_text(n, e), n2, e2) ==> n2 == n && e2 == e,
{
    lemma_public_text_split(n, e);
    lemma_hex_of_val(n);
    lemma_hex_of_val(e);
    let t = public_text(n, e);
    let i = hex_of(n).len() as int;
    assert(public_split(t, i) && hex_val(t.subrange(0, i)) == n && hex_val(
        t.subrange(i + 1, t.len() as int),
    ) == e);
    assert forall|n2: nat, e2: nat| decoded_as(t, n2, e2) implies n2 == n && e2 == e by {
        let j = choose|j: int|
            #[trigger] public_split(t, j) && hex_val(t.subrange(0, j)) == n2 && hex_val(
                t.subrange(j + 1, t.len() as int),
            ) == e2;
        lemma_public_split_unique(t, i, j);
    }
}

/// Round trip, byte side: a well-formed text whose lines are canonical
/// is reproduced byte for byte by re-encoding the fields it decodes to.
pub proof fn lemma_encode_decode_identity(t: Seq<u8>, i: int)
    requires
        public_split(t, i),
        canonical_hex(t.subrange(0, i)),
        canonical_hex(t.subrange(i + 1, t.len() as int)),
    ensures
        public_text(hex_val(t.subrange(0, i)), hex_val(t.subrange(i + 1, t.len() as int))) == t,
{
    lemma_hex_canonical_inverse(t.subrange(0, i));
    lemma_hex_canonical_inverse(t.subrange(i + 1, t.len() as int));
    assert(public_text(hex_val(t.subrange(0, i)), hex_val(t.subrange(i + 1, t.len() as int)))
        =~= t);
}

// ---------------------------------------------------------------------
// Executable codec.

/// Parses the hexadecimal digits of `text` between `lo` and `hi` into a
/// number; rejects an empty range and anything that is not a digit.
fn parse_hex_range(text: &[u8], lo: usize, hi: usize) -> (r: Result<Big, Error>)
    requires
        lo <= hi <= text@.len(),
    ensures
        match r {
            Ok(b) => hex_line(text@.subrange(lo as int, hi as int)) && b@ == hex_val(
                text@.subrange(lo as int, hi as int),
            ),
            Err(e) => e == Error::DecodeError && !hex_line(
                text@.subrange(lo as int, hi as int),
            ),
        },
{
    if lo == hi {
        return Err(Error::DecodeError);
    }
    let sixteen = big_from_u64(16);
    let mut acc = big_from_u64(0);
    let mut i: usize = lo;
    while i < hi
        invariant
            lo <= i <= hi <= text@.len(),
            sixteen@ == 16,
            acc@ == hex_val(text@.subrange(lo as int, i as int)),
            forall|k: int| lo <= k < i ==> is_hex(#[trigger] text@[k]),
        decreases hi - i,
    {
        let c = text[i];
        let d: u8 = if 48 <= c && c <= 57 {
            c - 48
        } else if 97 <= c && c <= 102 {
            c - 87
        } else {
            proof {
                assert(!is_hex(text@[i as int]));
                assert(text@.subrange(lo as int, hi as int)[i - lo] == text@[i as int]);
            }
            return Err(Error::DecodeError);
        };
        let shifted = big_mul(&acc, &sixteen);
        let digit = big_from_u64(d as u64);
        acc = big_add(&shifted, &digit);
        proof {
            let prev = text@.subrange(lo as int, i as int);
            let now = text@.subrange(lo as int, i as int + 1);
            assert(now.drop_last() =~= prev);
            assert(now.last() == text@[i as int]);
            assert(hexd(text@[i as int]) == d);
        }
        i = i + 1;
    }
    proof {
        assert(text@.subrange(lo as int, hi as int).len() >= 1);
        assert(forall|k: int|
            0 <= k < hi - lo ==> #[trigger] text@.subrange(lo as int, hi as int)[k] == text@[lo
                + k]);
    }
    Ok(acc)
}

/// Decodes the textual form of a public key: two hexadecimal lines, the
/// modulus and then the exponent, separated by one newline.
pub fn decode_public(text: &[u8]) -> (r: Result<PublicKeyMaterial, Error>)
    ensures
        match r {
            Ok(k) => decoded_as(text@, k.modulus@, k.exponent@),
            Err(e) => e == Error::DecodeError && !well_formed_public(text@),
        },
{
    let mut fi: usize = 0;
    while fi < text.len() && text[fi] != 10
        invariant
            fi <= text@.len(),
            forall|k: int| 0 <= k < fi ==> #[trigger] text@[k] != 10,
        decreases text@.len() - fi,
    {
        fi = fi + 1;
    }
    if fi == text.len() {
        proof {
            if well_formed_public(text@) {
                let i = choose|i: int| #[trigger] public_split(text@, i);
                assert(text@[i] == 10);
                assert(false);
            }
        }
        return Err(Error::DecodeError);
    }
    proof {
        // Any split index must be this first newline.
        if well_formed_public(text@) {
            let i = choose|i: int| #[trigger] public_split(text@, i);
            if i < fi {
                assert(text@[i] != 10);
                assert(false);
            }
            if i > fi {
                assert(text@.subrange(0, i)[fi as int] == text@[fi as int]);
                assert(is_hex(text@[fi as int]));
                assert(false);
            }
            assert(i == fi);
        }
    }
    let n = match parse_hex_range(text, 0, fi) {
        Ok(b) => b,
        Err(_) => {
            proof {
                if well_formed_public(text@) {
                    let i = choose|i: int| #[trigger] public_split(text@, i);
                    assert(false);
                }
            }
            return Err(Error::DecodeError);
        },
    };
    let e = match parse_hex_range(text, fi + 1, text.len()) {
        Ok(b) => b,
        Err(_) => {
            proof {
                if well_formed_public(text@) {
                    let i = choose|i: int| #[trigger] public_split(text@, i);
                    assert(false);
                }
            }
            return Err(Error::DecodeError);
        },
    };
    proof {
        assert(public_split(text@, fi as int));
    }
    Ok(PublicKeyMaterial { modulus: n, exponent: e })
}

/// Appends the canonical hexadecimal form of `cur` to `out`.
fn push_hex(cur: &Big, out: &mut Vec<u8>)
    requires
        cur@ >= 1,
    ensures
        final(out)@ == old(out)@ + hex_of(cur@),
    decreases cur@,
{
    let sixteen = big_from_u64(16);
    if big_lt(cur, &sixteen) {
        let d = match big_to_u64(cur) {
            Some(d) => d,
            None => {
                proof {
                    assert(false);
                }
                0
            },
        };
        let c: u8 = if d < 10 {
            48 + (d as u8)
        } else {
            87 + (d as u8)
        };
        out.push(c);
        proof {
            assert(hexchar(cur@) == c);
            assert(hex_of(cur@) =~= seq![c]);
            assert(final(out)@ =~= old(out)@ + hex_of(cur@));
        }
    } else {
        let q = big_div(cur, &sixteen);
        let rem = big_rem(cur, &sixteen);
        push_hex(&q, out);
        let d = match big_to_u64(&rem) {
            Some(d) => d,
            None => {
                proof {
                    assert(false);
                }
                0
            },
        };
        let c: u8 = if d < 10 {
            48 + (d as u8)
        } else {
            87 + (d as u8)
        };
        out.push(c);
        proof {
            assert(hexchar(cur@ % 16) == c);
            assert(hex_of(cur@) == hex_of(cur@ / 16).push(hexchar(cur@ % 16)));
            assert(final(out)@ =~= old(out)@ + hex_of(cur@));
        }
    }
}

/// The canonical hexadecimal form of a number, as bytes.
fn big_to_hex(b: &Big) -> (r: Vec<u8>)
    ensures
        r@ == hex_of(b@),
{
    let zero = big_from_u64(0);
    let mut out: Vec<u8> = Vec::new();
    if big_eq(b, &zero) {
        out.push(48);
        proof {
            assert(hexchar(0) == 48);
            assert(hex_of(0) =~= seq![48u8]);
        }
    } else {
        push_hex(b, &mut out);
    }
    out
}

/// Which half of the key material to serialize.
#[derive(Clone, Copy, Debug, PartialEq, Eq, Structural)]
pub enum KeyKind {
    Public,
    Private,
}

/// Serializes key material back into the textual format used for
/// decoding: the public fields alone, or the full private field set.
pub fn encode_key(k: &PrivateKeyMaterial, kind: KeyKind) -> (t: Vec<u8>)
    ensures
        kind == KeyKind::Public ==> t@ == public_text(k.modulus@, k.public_exponent@),
        kind == KeyKind::Private ==> t@ == private_text(
            k.modulus@,
            k.public_exponent@,
            k.private_exponent@,
            k.prime_p@,
            k.prime_q@,
        ),
{
    let mut out = big_to_hex(&k.modulus);
    out.push(10);
    let mut e_part = big_to_hex(&k.public_exponent);
    out.append(&mut e_part);
    match kind {
        KeyKind::Public => {
            proof {
                assert(out@ =~= public_text(k.modulus@, k.public_exponent@));
            }
            out
        },
        KeyKind::Private => {
            out.push(10);
            let mut d_part = big_to_hex(&k.private_exponent);
            out.append(&mut d_part);
            out.push(10);
            let mut p_part = big_to_hex(&k.prime_p);
            out.append(&mut p_part);
            out.push(10);
            let mut q_part = big_to_hex(&k.prime_q);
            out.append(&mut q_part);
            proof {
                assert(out@ =~= private_text(
                    k.modulus@,
                    k.public_exponent@,
                    k.private_exponent@,
                    k.prime_p@,
                    k.prime_q@,
                ));
            }
            out
        },
    }
}

} // verus!
