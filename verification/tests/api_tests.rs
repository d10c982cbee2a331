use argon2::password_hash::PasswordVerifier;
use argon2_kdf::ct_eq;
use argon2_kdf::{hash, verify, HashError, KdfError, Params, Variant, VerifyError, Version};

const KAT: &str =
    "$argon2id$v=19$m=65536,t=2,p=1$c29tZXNhbHQ$CTFhFdXPJO1aFaMaO6Mm5c8y7cJHAph8ArZWb2GRPPc";

#[test]
fn hash_then_verify_round_trips() {
    let password = "correct horse battery staple";
    let h = hash(password).unwrap();
    assert!(h.starts_with("$argon2id$v=19$m=19456,t=2,p=1$"));
    assert_eq!(verify(&h, password), Ok(true));
    assert_eq!(verify(&h, "wrong password"), Ok(false));
}

#[test]
fn different_passwords_do_not_verify() {
    let h = hash("first secret").unwrap();
    assert_eq!(verify(&h, "second secret"), Ok(false));
}

#[test]
fn fresh_salt_every_call() {
    let h1 = hash("same password").unwrap();
    let h2 = hash("same password").unwrap();
    assert_ne!(h1, h2);
    assert_eq!(verify(&h1, "same password"), Ok(true));
    assert_eq!(verify(&h2, "same password"), Ok(true));
}

#[test]
fn empty_password_is_accepted() {
    let h = hash("").unwrap();
    assert_eq!(verify(&h, ""), Ok(true));
    assert_eq!(verify(&h, "x"), Ok(false));
}

#[test]
fn verifies_reference_hash() {
    assert_eq!(verify(KAT, "password"), Ok(true));
    assert_eq!(verify(KAT, "sassword"), Ok(false));
}

#[test]
fn produced_hashes_interoperate() {
    let h = hash("interop check").unwrap();
    let parsed = argon2::PasswordHash::new(&h).unwrap();
    assert!(argon2::Argon2::default()
        .verify_password(b"interop check", &parsed)
        .is_ok());
    assert!(argon2::Argon2::default()
        .verify_password(b"other password", &parsed)
        .is_err());
}

#[test]
fn malformed_hash_is_an_error_not_a_mismatch() {
    assert_eq!(
        verify("not a hash", "password"),
        Err(VerifyError::MalformedHash)
    );
    assert_eq!(verify("", "password"), Err(VerifyError::MalformedHash));
    let truncated = &KAT[..KAT.len() - 10];
    assert_eq!(verify(truncated, "password"), Err(VerifyError::MalformedHash));
}

#[test]
fn corrupted_hash_never_verifies() {
    // flip one character of the stored output
    let altered = KAT.replace("GRPPc", "GRPPd");
    let r = verify(&altered, "password");
    assert_ne!(r, Ok(true));
}

#[test]
fn memory_below_eight_per_lane_is_rejected() {
    let params = Params { memory_cost_kib: 15, time_cost: 2, parallelism: 2 };
    let r = argon2_kdf::kdf::derive(b"password", b"somesalt", &params, Variant::Argon2id, Version::V0x13, 32);
    assert_eq!(r, Err(KdfError::InvalidParameters));
}

#[test]
fn zero_passes_and_zero_lanes_are_rejected() {
    let p1 = Params { memory_cost_kib: 1024, time_cost: 0, parallelism: 1 };
    let p2 = Params { memory_cost_kib: 1024, time_cost: 1, parallelism: 0 };
    assert_eq!(
        argon2_kdf::kdf::derive(b"pw", b"somesalt", &p1, Variant::Argon2id, Version::V0x13, 32),
        Err(KdfError::InvalidParameters)
    );
    assert_eq!(
        argon2_kdf::kdf::derive(b"pw", b"somesalt", &p2, Variant::Argon2id, Version::V0x13, 32),
        Err(KdfError::InvalidParameters)
    );
}

#[test]
fn short_salt_and_short_output_are_rejected() {
    let params = Params { memory_cost_kib: 1024, time_cost: 1, parallelism: 1 };
    assert_eq!(
        argon2_kdf::kdf::derive(b"pw", b"salt", &params, Variant::Argon2id, Version::V0x13, 32),
        Err(KdfError::InvalidParameters)
    );
    assert_eq!(
        argon2_kdf::kdf::derive(b"pw", b"somesalt", &params, Variant::Argon2id, Version::V0x13, 3),
        Err(KdfError::InvalidParameters)
    );
}

#[test]
fn derivation_is_deterministic() {
    let params = Params { memory_cost_kib: 64, time_cost: 1, parallelism: 1 };
    let a = argon2_kdf::kdf::derive(b"pw", b"somesalt", &params, Variant::Argon2id, Version::V0x13, 32).unwrap();
    let b = argon2_kdf::kdf::derive(b"pw", b"somesalt", &params, Variant::Argon2id, Version::V0x13, 32).unwrap();
    assert_eq!(a, b);
    let c = argon2_kdf::kdf::derive(b"pw", b"othersalt", &params, Variant::Argon2id, Version::V0x13, 32).unwrap();
    assert_ne!(a, c);
    let d = argon2_kdf::kdf::derive(b"pw", b"somesalt", &params, Variant::Argon2i, Version::V0x13, 32).unwrap();
    assert_ne!(a, d);
}

#[test]
fn comparison_reports_exact_equality() {
    assert!(ct_eq(b"", b""));
    assert!(ct_eq(b"abc", b"abc"));
    assert!(!ct_eq(b"abc", b"abd"));
    assert!(!ct_eq(b"abc", b"bbc"));
    assert!(!ct_eq(b"abc", b"ab"));
    assert!(!ct_eq(b"", b"x"));
    let long_a = vec![0xAAu8; 4096];
    let mut long_b = long_a.clone();
    assert!(ct_eq(&long_a, &long_b));
    long_b[0] = 0;
    assert!(!ct_eq(&long_a, &long_b));
}

#[test]
fn error_messages_are_nonempty() {
    assert!(!KdfError::InvalidParameters.message().is_empty());
    assert!(!KdfError::AllocationFailure.message().is_empty());
    assert!(!HashError::RandomnessUnavailable.message().is_empty());
    assert!(!VerifyError::MalformedHash.message().is_empty());
    assert!(!VerifyError::ComputationFailed.message().is_empty());
}

#[test]
fn salted_hashing_is_deterministic() {
    let h1 = argon2_kdf::hash_with_salt("password", b"saltsaltsaltsalt").unwrap();
    let h2 = argon2_kdf::hash_with_salt("password", b"saltsaltsaltsalt").unwrap();
    assert_eq!(h1, h2);
    assert!(h1.starts_with("$argon2id$v=19$m=19456,t=2,p=1$c2FsdHNhbHRzYWx0c2FsdA$"));
    assert_eq!(verify(&h1, "password"), Ok(true));
    assert_eq!(verify(&h1, "Password"), Ok(false));
}

#[test]
fn derive_agrees_with_reference_engine() {
    let params = Params { memory_cost_kib: 128, time_cost: 2, parallelism: 2 };
    let cases = [
        (Variant::Argon2d, argon2::Algorithm::Argon2d, Version::V0x10, argon2::Version::V0x10),
        (Variant::Argon2i, argon2::Algorithm::Argon2i, Version::V0x13, argon2::Version::V0x13),
        (Variant::Argon2id, argon2::Algorithm::Argon2id, Version::V0x13, argon2::Version::V0x13),
        (Variant::Argon2id, argon2::Algorithm::Argon2id, Version::V0x10, argon2::Version::V0x10),
    ];
    for (variant, alg, version, ver) in cases {
        let ours =
            argon2_kdf::kdf::derive(b"password", b"somesalt", &params, variant, version, 24)
                .unwrap();
        let reference_params = argon2::Params::new(128, 2, 2, Some(24)).unwrap();
        let mut expected = [0u8; 24];
        argon2::Argon2::new(alg, ver, reference_params)
            .hash_password_into(b"password", b"somesalt", &mut expected)
            .unwrap();
        assert_eq!(ours, expected.to_vec());
    }
}
