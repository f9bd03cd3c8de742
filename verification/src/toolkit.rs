//! The complete lock-picking pass over one textual key.
//!
//! Decodes the public key, builds and configures the engine, runs the
//! selected strategy, and serializes the derived private key.  Reading
//! the key file and printing the outcome stay with the caller.

use vstd::prelude::*;
use crate::engine::{Error, FactorizationEngine, PrivateKeyMaterial, check_level, derived_ok,
    acceptable_key, weak_window_hit, window_hit_at, no_inverse, phi_of};
use crate::codec::{decode_public, encode_key, KeyKind, decoded_as, private_text,
    well_formed_public, lemma_decoded_unique};

verus! {

/// What one lock-picking run answers for a text whose numeric fields are
/// `n` and `e`: an unacceptable key is refused before any search; on the
/// weak path the search fails exactly when no offset of its fixed window
/// factors `n`, and a success came from such an offset; an
/// `InvalidKeyMaterial` answer after the search began carries a
/// factorization whose totient admits no inverse of `e`; and a success
/// is always the full textual private key derived from `n` and `e`.
pub open spec fn run_outcome(
    strong_iters: Option<u32>,
    n: nat,
    e: nat,
    r: Result<Vec<u8>, Error>,
) -> bool {
    &&& (!acceptable_key(n, e) ==> r == Err::<Vec<u8>, Error>(Error::InvalidKeyMaterial))
    &&& (acceptable_key(n, e) ==> {
        &&& ((strong_iters matches None) ==> ((r == Err::<Vec<u8>, Error>(
            Error::FactorizationFailed,
        )) <==> !weak_window_hit(n)))
        &&& (r == Err::<Vec<u8>, Error>(Error::InvalidKeyMaterial) ==> exists|pp: nat, qq: nat|
            pp * qq == n && 1 < pp && 1 < qq && #[trigger] no_inverse(e, phi_of(pp, qq)))
        &&& (match r {
            Ok(out) => exists|k: PrivateKeyMaterial|
                #[trigger] derived_ok(k, n, e) && out@ == private_text(
                    k.modulus@,
                    k.public_exponent@,
                    k.private_exponent@,
                    k.prime_p@,
                    k.prime_q@,
                ) && ((strong_iters matches None) ==> window_hit_at(n, k.prime_p@, k.prime_q@)),
            Err(err) => err == Error::FactorizationFailed || err == Error::InvalidKeyMaterial,
        })
    })
}

/// Attempts to pick the lock of the textual key `text`.  `strong_iters`
/// selects the strong strategy; a zero override keeps the engine's
/// default bound, any other value overrides it.  Omitting it selects the
/// weak strategy with its fixed round cap.  The result is the private
/// key in the same textual format family as the input.
pub fn pick_lock(text: &[u8], strong_iters: Option<u32>, report_level: Option<&u8>) -> (r: Result<
    Vec<u8>,
    Error,
>)
    ensures
        ({
            let bad_level = match report_level {
                Some(l) => *l > 2,
                None => false,
            };
            &&& (match report_level {
                Some(l) => *l > 2 ==> r == Err::<Vec<u8>, Error>(Error::InvalidData(*l)),
                None => true,
            })
            &&& (!bad_level ==> !(r matches Err(Error::InvalidData(_))))
            &&& (!bad_level ==> ((!well_formed_public(text@)) <==> r == Err::<Vec<u8>, Error>(
                Error::DecodeError,
            )))
            &&& r != Err::<Vec<u8>, Error>(Error::ConfigError)
            &&& (!bad_level ==> forall|n: nat, e: nat|
                #[trigger] decoded_as(text@, n, e) ==> run_outcome(strong_iters, n, e, r))
        }),
{
    let level = match check_level(report_level) {
        Ok(l) => l,
        Err(err) => { return Err(err) },
    };
    let key = match decode_public(text) {
        Ok(k) => k,
        Err(err) => {
            let res: Result<Vec<u8>, Error> = Err(err);
            proof {
                assert forall|n: nat, e: nat| #[trigger] decoded_as(text@, n, e) implies run_outcome(
                    strong_iters,
                    n,
                    e,
                    res,
                ) by {
                    assert(well_formed_public(text@));
                    assert(false);
                }
            }
            return res;
        },
    };
    let ghost gn = key.modulus@;
    let ghost ge = key.exponent@;
    let mut engine = match FactorizationEngine::new(key) {
        Ok(en) => en,
        Err(err) => {
            let res: Result<Vec<u8>, Error> = Err(err);
            proof {
                assert forall|n: nat, e: nat| #[trigger] decoded_as(text@, n, e) implies run_outcome(
                    strong_iters,
                    n,
                    e,
                    res,
                ) by {
                    lemma_decoded_unique(text@, n, e, gn, ge);
                }
            }
            return res;
        },
    };
    match engine.set_report_level(level) {
        Ok(()) => (),
        Err(err) => {
            proof {
                assert(false);
            }
            return Err(err);
        },
    };
    let outcome = match strong_iters {
        None => engine.factor_weak(),
        Some(it) => {
            if it != 0 {
                match engine.set_iteration_bound(it as u64) {
                    Ok(()) => (),
                    Err(err) => {
                        proof {
                            assert(false);
                        }
                        return Err(err);
                    },
                };
            }
            engine.factor_strong()
        },
    };
    match outcome {
        Ok(k) => {
            let out = encode_key(&k, KeyKind::Private);
            let res: Result<Vec<u8>, Error> = Ok(out);
            proof {
                assert forall|n: nat, e: nat| #[trigger] decoded_as(text@, n, e) implies run_outcome(
                    strong_iters,
                    n,
                    e,
                    res,
                ) by {
                    lemma_decoded_unique(text@, n, e, gn, ge);
                    assert(derived_ok(k, n, e));
                }
            }
            res
        },
        Err(err) => {
            let res: Result<Vec<u8>, Error> = Err(err);
            proof {
                assert forall|n: nat, e: nat| #[trigger] decoded_as(text@, n, e) implies run_outcome(
                    strong_iters,
                    n,
                    e,
                    res,
                ) by {
                    lemma_decoded_unique(text@, n, e, gn, ge);
                }
            }
            res
        },
    }
}

} // verus!
