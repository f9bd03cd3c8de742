use picklock::arith::{big_from_u64, big_to_u64, big_add, big_sub, big_mul, big_div, big_rem,
    big_eq, big_lt, big_sqrt, big_bits, big_modpow, big_modinv, Big};
use picklock::engine::{check_level, Error, FactorizationEngine, PublicKeyMaterial};
use picklock::codec::{decode_public, encode_key, KeyKind};
use picklock::toolkit::pick_lock;

fn val(b: &Big) -> u64 {
    big_to_u64(b).expect("value fits in u64")
}

fn public_key(n: u64, e: u64) -> PublicKeyMaterial {
    PublicKeyMaterial { modulus: big_from_u64(n), exponent: big_from_u64(e) }
}

// ---------------------------------------------------------------------
// Reporting-level validation.

#[test]
fn report_level_omitted_is_quiet_default() {
    assert_eq!(check_level(None), Ok(0));
}

#[test]
fn report_levels_zero_one_two_accepted() {
    assert_eq!(check_level(Some(&0)), Ok(0));
    assert_eq!(check_level(Some(&1)), Ok(1));
    assert_eq!(check_level(Some(&2)), Ok(2));
}

#[test]
fn report_level_three_rejected() {
    assert_eq!(check_level(Some(&3)), Err(Error::InvalidData(3)));
    assert_eq!(check_level(Some(&255)), Err(Error::InvalidData(255)));
}

#[test]
fn report_level_diagnostic_names_the_value() {
    assert_eq!(
        Error::InvalidData(3).message(),
        "expected reporting level 0, 1 or 2, got 3"
    );
    assert_eq!(
        Error::InvalidData(255).message(),
        "expected reporting level 0, 1 or 2, got 255"
    );
    assert_eq!(
        Error::InvalidData(0).message(),
        "expected reporting level 0, 1 or 2, got 0"
    );
}

#[test]
fn pick_lock_rejects_bad_report_level() {
    let r = pick_lock(b"c37\n3", None, Some(&3));
    assert_eq!(r, Err(Error::InvalidData(3)));
}

#[test]
fn pick_lock_omitted_report_level_matches_zero() {
    let with_zero = pick_lock(b"c37\n3", None, Some(&0));
    let omitted = pick_lock(b"c37\n3", None, None);
    assert_eq!(with_zero, omitted);
}

// ---------------------------------------------------------------------
// Arithmetic substrate sanity: each wrapper computes, it does not echo.

#[test]
fn arithmetic_wrappers_compute() {
    let a = big_from_u64(1000);
    let b = big_from_u64(24);
    assert_eq!(val(&big_add(&a, &b)), 1024);
    assert_eq!(val(&big_sub(&a, &b)), 976);
    assert_eq!(val(&big_mul(&a, &b)), 24000);
    assert_eq!(val(&big_div(&a, &b)), 41);
    assert_eq!(val(&big_rem(&a, &b)), 16);
    assert_eq!(val(&big_sqrt(&a)), 31);
    assert!(big_lt(&b, &a));
    assert!(!big_lt(&a, &b));
    assert!(!big_eq(&a, &b));
    assert!(big_eq(&a, &big_from_u64(1000)));
    assert_eq!(big_bits(&a), 10);
    let m = big_from_u64(101);
    assert_eq!(val(&big_modpow(&big_from_u64(2), &big_from_u64(100), &m)), 1);
    let inv = big_modinv(&big_from_u64(3), &big_from_u64(3016)).expect("coprime");
    assert_eq!(val(&inv), 2011);
    assert!(big_modinv(&big_from_u64(6), &big_from_u64(3016)).is_none());
}

#[test]
fn big_values_above_u64_survive() {
    let big = big_mul(&big_from_u64(u64::MAX), &big_from_u64(u64::MAX));
    assert!(big_to_u64(&big).is_none());
    let back = big_div(&big, &big_from_u64(u64::MAX));
    assert_eq!(val(&back), u64::MAX);
}

// ---------------------------------------------------------------------
// Codec round trips.

#[test]
fn decode_extracts_numeric_fields() {
    let k = decode_public(b"c37\n3").expect("well-formed");
    assert_eq!(val(&k.modulus), 3127);
    assert_eq!(val(&k.exponent), 3);
}

#[test]
fn decode_rejects_malformed_text() {
    assert!(matches!(decode_public(b""), Err(Error::DecodeError)));
    assert!(matches!(decode_public(b"c37"), Err(Error::DecodeError)));
    assert!(matches!(decode_public(b"\n3"), Err(Error::DecodeError)));
    assert!(matches!(decode_public(b"c37\n"), Err(Error::DecodeError)));
    assert!(matches!(decode_public(b"c3g\n3"), Err(Error::DecodeError)));
    assert!(matches!(decode_public(b"c37\n3\n5"), Err(Error::DecodeError)));
    assert!(matches!(decode_public(b"C37\n3"), Err(Error::DecodeError)));
}

#[test]
fn decode_tolerates_leading_zeros() {
    // Decoding is by value; only re-encoding is canonical.
    let k = decode_public(b"0c37\n03").expect("still well-formed");
    assert_eq!(val(&k.modulus), 3127);
    assert_eq!(val(&k.exponent), 3);
}

#[test]
fn round_trip_is_byte_identical() {
    let text: &[u8] = b"c37\n3";
    let k = decode_public(text).expect("well-formed");
    let full = picklock::engine::PrivateKeyMaterial {
        modulus: k.modulus,
        public_exponent: k.exponent,
        private_exponent: big_from_u64(2011),
        prime_p: big_from_u64(53),
        prime_q: big_from_u64(59),
    };
    let again = encode_key(&full, KeyKind::Public);
    assert_eq!(again.as_slice(), text);
    let private = encode_key(&full, KeyKind::Private);
    assert_eq!(private.as_slice(), b"c37\n3\n7db\n35\n3b");
}

#[test]
fn encode_zero_and_large_fields() {
    let full = picklock::engine::PrivateKeyMaterial {
        modulus: big_from_u64(0),
        public_exponent: big_from_u64(255),
        private_exponent: big_from_u64(16),
        prime_p: big_from_u64(1),
        prime_q: big_from_u64(0xdeadbeef),
    };
    let text = encode_key(&full, KeyKind::Private);
    assert_eq!(text.as_slice(), b"0\nff\n10\n1\ndeadbeef");
}

// ---------------------------------------------------------------------
// Engine construction sanity checks.

#[test]
fn engine_rejects_even_modulus() {
    assert!(FactorizationEngine::new(public_key(3128, 3)).is_err());
}

#[test]
fn engine_rejects_small_modulus() {
    assert!(FactorizationEngine::new(public_key(7, 3)).is_err());
}

#[test]
fn engine_rejects_prime_modulus() {
    // 101 is prime, so the base-two Fermat test cannot refute it.
    assert!(FactorizationEngine::new(public_key(101, 3)).is_err());
}

#[test]
fn engine_accepts_base_two_pseudoprime() {
    // 341 = 11 * 31 satisfies 2^340 = 1 (mod 341) but not the base-three
    // test, so it is recognized as composite and cracked by the weak
    // search in two rounds.
    let engine = FactorizationEngine::new(public_key(341, 7)).unwrap();
    let k = engine.factor_weak().expect("close primes");
    assert_eq!(val(&k.prime_p), 11);
    assert_eq!(val(&k.prime_q), 31);
    assert_eq!(val(&k.private_exponent), 43);
}

#[test]
fn engine_rejects_bad_exponent() {
    assert!(FactorizationEngine::new(public_key(3127, 4)).is_err());
    assert!(FactorizationEngine::new(public_key(3127, 1)).is_err());
    assert!(FactorizationEngine::new(public_key(3127, 3127)).is_err());
}

#[test]
fn engine_accepts_crackable_key() {
    assert!(FactorizationEngine::new(public_key(3127, 3)).is_ok());
}

// ---------------------------------------------------------------------
// Scenario A: the weak strategy on a close-prime modulus.

#[test]
fn weak_recovers_close_primes() {
    let engine = FactorizationEngine::new(public_key(3127, 3)).unwrap();
    let k = engine.factor_weak().expect("close primes are in reach");
    assert_eq!(val(&k.prime_p), 53);
    assert_eq!(val(&k.prime_q), 59);
    assert_eq!(val(&k.private_exponent), 2011);
    assert_eq!(val(&k.modulus), 3127);
    assert_eq!(val(&k.public_exponent), 3);
    // Exactness of the outcome.
    assert_eq!(val(&k.prime_p) * val(&k.prime_q), val(&k.modulus));
    let phi = (val(&k.prime_p) - 1) * (val(&k.prime_q) - 1);
    assert_eq!(val(&k.private_exponent) * val(&k.public_exponent) % phi, 1);
}

#[test]
fn pick_lock_weak_end_to_end() {
    let out = pick_lock(b"c37\n3", None, Some(&0)).expect("crackable");
    assert_eq!(out.as_slice(), b"c37\n3\n7db\n35\n3b");
}

#[test]
fn weak_factors_perfect_square_modulus() {
    // 49 = 7 * 7: the primes coincide exactly when the modulus is a
    // perfect square, and the search hits in the very first round.
    let engine = FactorizationEngine::new(public_key(49, 5)).unwrap();
    let k = engine.factor_weak().expect("square moduli are immediate");
    assert_eq!(val(&k.prime_p), 7);
    assert_eq!(val(&k.prime_q), 7);
    assert_eq!(val(&k.private_exponent), 29);
}

#[test]
fn weak_derivation_failure_is_invalid_key_material() {
    // 13 divides (53-1)*(59-1) = 3016, so the factors are found but no
    // private exponent exists for the exponent 13.
    let engine = FactorizationEngine::new(public_key(3127, 13)).unwrap();
    assert_eq!(
        engine.factor_weak().map(|k| val(&k.private_exponent)),
        Err(Error::InvalidKeyMaterial)
    );
}

// ---------------------------------------------------------------------
// The weak convergence boundary: a prime gap that needs 999 rounds is
// reached, one that needs 1000 is not.

#[test]
fn weak_succeeds_at_round_nine_nine_nine() {
    // 1238519 = 317 * 3907 and (317 + 3907)/2 - ceil(sqrt(1238519)) = 999.
    let engine = FactorizationEngine::new(public_key(1238519, 65537)).unwrap();
    let k = engine.factor_weak().expect("inside the window");
    assert_eq!(val(&k.prime_p), 317);
    assert_eq!(val(&k.prime_q), 3907);
    assert_eq!(val(&k.private_exponent), 753569);
}

#[test]
fn weak_fails_at_round_one_thousand() {
    // 1209479 = 311 * 3889 and (311 + 3889)/2 - ceil(sqrt(1209479)) = 1000.
    let engine = FactorizationEngine::new(public_key(1209479, 65537)).unwrap();
    assert_eq!(
        engine.factor_weak().map(|k| val(&k.private_exponent)),
        Err(Error::FactorizationFailed)
    );
}

#[test]
fn weak_cracks_a_modulus_beyond_machine_words() {
    // 1099511627791 * 1099511627803: an 81-bit modulus of adjacent
    // primes just above 2^40; the search converges immediately and the
    // whole pass runs on exact multi-word arithmetic.
    let out = pick_lock(b"1000000002a0000000195\n10001", None, None).expect("adjacent primes");
    assert_eq!(
        out.as_slice(),
        b"1000000002a0000000195\n10001\n3cb2c34d462eb1d14e85\n1000000000f\n1000000001b" as &[u8]
    );
}

// ---------------------------------------------------------------------
// Scenario B: the strong strategy on half-bit-length primes.

#[test]
fn strong_recovers_half_length_primes() {
    // 35 = 5 * 7: both primes have exactly half of the six modulus bits,
    // so the three-bit candidate band contains them and every draw in
    // that band divides; success is owed within a modest bound.
    let mut engine = FactorizationEngine::new(public_key(35, 11)).unwrap();
    engine.set_iteration_bound(500).unwrap();
    let k = engine.factor_strong().expect("tiny candidate space");
    let (p, q) = (val(&k.prime_p), val(&k.prime_q));
    assert_eq!(p * q, 35);
    assert!(p > 1 && q > 1);
    let phi = (p - 1) * (q - 1);
    assert_eq!(val(&k.private_exponent) * 11 % phi, 1);
}

#[test]
fn zero_iteration_override_is_config_error() {
    let mut engine = FactorizationEngine::new(public_key(35, 11)).unwrap();
    assert_eq!(engine.set_iteration_bound(0), Err(Error::ConfigError));
    // The engine is unchanged and still usable after the rejection.
    let k = engine.factor_strong().expect("default bound still applies");
    assert_eq!(val(&k.prime_p) * val(&k.prime_q), 35);
}

#[test]
fn strong_exhaustion_is_reported_not_empty() {
    // 6609 = 3 * 2203: no divisor has five to seven bits, so the probe
    // can never hit, whatever the random draws were.
    let mut engine = FactorizationEngine::new(public_key(6609, 7)).unwrap();
    engine.set_iteration_bound(200).unwrap();
    assert_eq!(
        engine.factor_strong().map(|k| val(&k.private_exponent)),
        Err(Error::FactorizationFailed)
    );
}

#[test]
fn strong_never_reports_false_factors() {
    // Exhaustive sweep over small synthetic moduli: whenever the probe
    // reports success the factors divide the modulus exactly.
    let cases: [(u64, u64); 6] = [(15, 7), (21, 5), (33, 7), (35, 11), (77, 13), (3127, 3)];
    for (n, e) in cases {
        let mut engine = FactorizationEngine::new(public_key(n, e)).unwrap();
        engine.set_iteration_bound(300).unwrap();
        match engine.factor_strong() {
            Ok(k) => {
                assert_eq!(val(&k.prime_p) * val(&k.prime_q), n);
                assert!(val(&k.prime_p) > 1 && val(&k.prime_q) > 1);
            }
            Err(e) => assert_eq!(e, Error::FactorizationFailed),
        }
    }
}

// ---------------------------------------------------------------------
// Reporting and configuration details.

#[test]
fn report_level_setter_validates() {
    let mut engine = FactorizationEngine::new(public_key(3127, 3)).unwrap();
    assert_eq!(engine.set_report_level(2), Ok(()));
    assert_eq!(engine.set_report_level(3), Err(Error::InvalidData(3)));
}

#[test]
fn error_messages_are_distinct() {
    let all = [
        Error::InvalidInput,
        Error::InvalidData(3),
        Error::DecodeError,
        Error::InvalidKeyMaterial,
        Error::ConfigError,
        Error::FactorizationFailed,
    ];
    for (i, a) in all.iter().enumerate() {
        for (j, b) in all.iter().enumerate() {
            assert_eq!(a.message() == b.message(), i == j);
        }
    }
}

#[test]
fn pick_lock_reports_decode_failure() {
    assert_eq!(pick_lock(b"not a key", None, None), Err(Error::DecodeError));
}

#[test]
fn pick_lock_strong_zero_keeps_default_bound() {
    // A zero --strong value selects the strong strategy with the
    // engine's default bound rather than failing.
    let out = pick_lock(b"23\nb", Some(0), None).expect("crackable");
    assert_eq!(&out[..3], b"23\n");
}
