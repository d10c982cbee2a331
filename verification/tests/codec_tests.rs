use argon2_kdf::b64::{b64_decode_exec, b64_encode_exec};
use argon2_kdf::{decode, encode, DecodeError, Params, Variant, Version};

#[test]
fn b64_encodes_known_values() {
    assert_eq!(b64_encode_exec(b"salt"), b"c2FsdA".to_vec());
    assert_eq!(b64_encode_exec(b"hash"), b"aGFzaA".to_vec());
    assert_eq!(b64_encode_exec(b""), Vec::<u8>::new());
    assert_eq!(b64_encode_exec(b"somesalt"), b"c29tZXNhbHQ".to_vec());
}

#[test]
fn b64_decodes_known_values() {
    assert_eq!(b64_decode_exec(b"c2FsdA"), Some(b"salt".to_vec()));
    assert_eq!(b64_decode_exec(b"aGFzaA"), Some(b"hash".to_vec()));
    assert_eq!(b64_decode_exec(b""), Some(Vec::new()));
    assert_eq!(b64_decode_exec(b"c29tZXNhbHQ"), Some(b"somesalt".to_vec()));
}

#[test]
fn b64_rejects_bad_input() {
    // impossible length: one character more than a whole group
    assert_eq!(b64_decode_exec(b"A"), None);
    assert_eq!(b64_decode_exec(b"c2Fsd"), None);
    // padding is not part of the unpadded alphabet
    assert_eq!(b64_decode_exec(b"c2FsdA=="), None);
    // non-alphabet character
    assert_eq!(b64_decode_exec(b"c2F$dA"), None);
    // non-canonical trailing bits
    assert_eq!(b64_decode_exec(b"c2FsdB"), None);
}

#[test]
fn encode_produces_exact_string() {
    let params = Params { memory_cost_kib: 19456, time_cost: 2, parallelism: 1 };
    let s = encode(
        Variant::Argon2id,
        Version::V0x13,
        &params,
        b"saltsaltsaltsalt",
        &[0u8; 32],
    );
    assert_eq!(
        s,
        "$argon2id$v=19$m=19456,t=2,p=1$c2FsdHNhbHRzYWx0c2FsdA$AAAAAAAAAAAAAAAAAAAAAAAAAAAAAAAAAAAAAAAAAAA"
    );
}

#[test]
fn decode_inverts_encode() {
    let params = Params { memory_cost_kib: 65536, time_cost: 3, parallelism: 4 };
    let salt: Vec<u8> = (0u8..16).collect();
    let output: Vec<u8> = (100u8..148).collect();
    let s = encode(Variant::Argon2i, Version::V0x10, &params, &salt, &output);
    let d = decode(&s).unwrap();
    assert_eq!(d.variant, Variant::Argon2i);
    assert_eq!(d.version, Version::V0x10);
    assert_eq!(d.params, params);
    assert_eq!(d.salt, salt);
    assert_eq!(d.output, output);
}

#[test]
fn decode_accepts_known_string() {
    let d = decode("$argon2id$v=19$m=65536,t=2,p=1$c29tZXNhbHQ$CTFhFdXPJO1aFaMaO6Mm5c8y7cJHAph8ArZWb2GRPPc")
        .unwrap();
    assert_eq!(d.variant, Variant::Argon2id);
    assert_eq!(d.version, Version::V0x13);
    assert_eq!(d.params.memory_cost_kib, 65536);
    assert_eq!(d.params.time_cost, 2);
    assert_eq!(d.params.parallelism, 1);
    assert_eq!(d.salt, b"somesalt".to_vec());
    assert_eq!(d.output.len(), 32);
}

#[test]
fn decode_rejects_short_salt_and_output() {
    // valid base64, but the salt decodes to 4 bytes and the output to 4
    let r = decode("$argon2id$v=19$m=19456,t=2,p=1$c2FsdA$aGFzaA");
    assert!(matches!(r, Err(DecodeError::MalformedHash)));
}

#[test]
fn decode_rejects_malformed_strings() {
    let good = "$argon2id$v=19$m=65536,t=2,p=1$c29tZXNhbHQ$CTFhFdXPJO1aFaMaO6Mm5c8y7cJHAph8ArZWb2GRPPc";
    assert!(decode(good).is_ok());
    // empty and truncated
    assert!(decode("").is_err());
    assert!(decode("$argon2id").is_err());
    assert!(decode(&good[..good.len() - 1]).is_err());
    assert!(decode(&good[1..]).is_err());
    // unknown variant tag
    assert!(decode(&good.replace("argon2id", "argon3id")).is_err());
    // unknown version
    assert!(decode(&good.replace("v=19", "v=18")).is_err());
    // non-canonical decimal
    assert!(decode(&good.replace("m=65536", "m=065536")).is_err());
    // parameters out of the legal range
    assert!(decode(&good.replace("m=65536,t=2,p=1", "m=7,t=2,p=1")).is_err());
    assert!(decode(&good.replace("t=2", "t=0")).is_err());
    assert!(decode(&good.replace("p=1", "p=0")).is_err());
    // memory below eight kibibytes per lane
    assert!(decode(&good.replace("m=65536,t=2,p=1", "m=15,t=2,p=2")).is_err());
    // missing and extra fields
    assert!(decode("$argon2id$m=65536,t=2,p=1$c29tZXNhbHQ$CTFhFdXPJO1aFaMaO6Mm5c8y7cJHAph8ArZWb2GRPPc").is_err());
    assert!(decode(&format!("{}$extra", good)).is_err());
    // reordered parameters are not canonical
    assert!(decode(&good.replace("m=65536,t=2,p=1", "t=2,m=65536,p=1")).is_err());
    // non-ASCII input
    assert!(decode("$argon2id$v=19$m=65536,t=2,p=1$c29tZXNhbHQ\u{e9}$CTFhFdXPJO1aFaMaO6Mm5c8y7cJHAph8ArZWb2GRPPc").is_err());
}

#[test]
fn corrupting_one_character_changes_or_breaks_decoding() {
    let good = "$argon2id$v=19$m=65536,t=2,p=1$c29tZXNhbHQ$CTFhFdXPJO1aFaMaO6Mm5c8y7cJHAph8ArZWb2GRPPc";
    let original = decode(good).unwrap();
    let bytes = good.as_bytes();
    for i in 0..bytes.len() {
        let mut altered = bytes.to_vec();
        altered[i] = if altered[i] == b'A' { b'B' } else { b'A' };
        let altered = String::from_utf8(altered).unwrap();
        if altered == good {
            continue;
        }
        match decode(&altered) {
            Err(_) => {}
            Ok(d) => {
                // a different accepted string never carries the same content
                let changed = d.variant != original.variant
                    || d.version != original.version
                    || d.params != original.params
                    || d.salt != original.salt
                    || d.output != original.output;
                assert!(changed, "corruption at index {} went unnoticed", i);
            }
        }
    }
}
