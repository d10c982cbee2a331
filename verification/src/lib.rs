use vstd::prelude::*;

pub mod ascii;
pub mod b64;
pub mod codec;
pub mod compare;
pub mod dec;
pub mod errors;
pub mod kdf;
pub mod params;

verus! {

use vstd::string::StringSliceAdditionalSpecFns;
use vstd::utf8::is_ascii_chars;

pub use crate::codec::Decoded;
pub use crate::codec::HashParts;
pub use crate::codec::decode_bytes;
pub use crate::codec::encode_bytes;
pub use crate::compare::ct_eq;
pub use crate::errors::DecodeError;
pub use crate::errors::HashError;
pub use crate::errors::KdfError;
pub use crate::errors::VerifyError;
pub use crate::kdf::argon2_output;
pub use crate::kdf::derive_inputs_ok;
pub use crate::params::Params;
pub use crate::params::Variant;
pub use crate::params::Version;

broadcast use vstd::string::is_ascii_spec_bytes;

/// The byte values of an all-ASCII character sequence.
pub open spec fn ascii_bytes(s: Seq<char>) -> Seq<u8> {
    Seq::new(s.len(), |i: int| s[i] as u8)
}

/// What `decode` accepts: the string is ASCII and its bytes are a
/// canonical encoded hash string.
pub open spec fn decode_str(s: Seq<char>) -> Option<HashParts> {
    if is_ascii_chars(s) {
        decode_bytes(ascii_bytes(s))
    } else {
        None
    }
}

/// Relies on String::from_utf8: ASCII bytes are valid UTF-8 and decode to
/// the code points with the same values.
#[verifier::external_body]
fn ascii_to_string(v: Vec<u8>) -> (r: String)
    requires
        crate::codec::ascii_ok(v@),
    ensures
        r@.len() == v@.len(),
        forall|i: int| 0 <= i < v@.len() ==> r@[i] == v@[i] as char,
{
    match String::from_utf8(v) {
        Ok(s) => s,
        Err(_) => String::new(),
    }
}

/// Prints the canonical encoded hash string for the given content:
/// `$<variant>$v=<version>$m=<m>,t=<t>,p=<p>$<salt_b64>$<output_b64>`.
pub fn encode(
    variant: Variant,
    version: Version,
    params: &Params,
    salt: &[u8],
    output: &[u8],
) -> (r: String)
    ensures
        is_ascii_chars(r@),
        ascii_bytes(r@) == encode_bytes(
            HashParts { variant, version, params: *params, salt: salt@, output: output@ },
        ),
{
    let ghost x = HashParts { variant, version, params: *params, salt: salt@, output: output@ };
    let bytes = crate::codec::encode_to_bytes(variant, version, params, salt, output);
    proof {
        crate::codec::lemma_encode_ascii(x);
    }
    let s = ascii_to_string(bytes);
    proof {
        assert forall|i: int| 0 <= i < s@.len() implies '\0' <= #[trigger] s@[i] <= '\u{7f}' by {
            assert(s@[i] == bytes@[i] as char);
            assert(bytes@[i] < 128);
        }
        assert(ascii_bytes(s@) =~= encode_bytes(x));
    }
    s
}

/// Parses an encoded hash string strictly: anything but the canonical
/// encoding of a well-formed tuple is rejected whole.
pub fn decode(s: &str) -> (r: Result<Decoded, DecodeError>)
    ensures
        match r {
            Ok(d) => decode_str(s@) == Some(d@),
            Err(e) => {
                &&& e == DecodeError::MalformedHash
                &&& decode_str(s@) is None
            },
        },
{
    if !s.is_ascii() {
        return Err(DecodeError::MalformedHash);
    }
    let b = s.as_bytes();
    proof {
        assert(b@ =~= ascii_bytes(s@));
    }
    match crate::codec::decode_core(b) {
        Some(d) => Ok(d),
        None => Err(DecodeError::MalformedHash),
    }
}

/// The content that `hash` encodes for a given password and salt: the
/// hybrid variant, version 19, baseline cost parameters, and the 32-byte
/// derived key.
pub open spec fn default_hash_parts(password: Seq<u8>, salt: Seq<u8>) -> HashParts {
    HashParts {
        variant: Variant::Argon2id,
        version: Version::V0x13,
        params: Params::spec_default(),
        salt,
        output: argon2_output(2, 19, 19456, 2, 1, password, salt, 32),
    }
}

/// Hashes a password under the baseline cost parameters with the given
/// 16-byte salt: the deterministic core of `hash`, for callers that bring
/// their own randomness source.
pub fn hash_with_salt(password: &str, salt: &[u8]) -> (r: Result<String, HashError>)
    requires
        password.spec_bytes().len() <= 0xFFFF_FFFF,
        salt@.len() == 16,
    ensures
        match r {
            Ok(s) => {
                &&& is_ascii_chars(s@)
                &&& ascii_bytes(s@) == encode_bytes(
                    default_hash_parts(password.spec_bytes(), salt@),
                )
            },
            Err(e) => e == HashError::AllocationFailure,
        },
{
    let params = Params::default();
    let out = match crate::kdf::derive(
        password.as_bytes(),
        salt,
        &params,
        Variant::Argon2id,
        Version::V0x13,
        32,
    ) {
        Ok(v) => v,
        Err(e) => {
            proof {
                assert(derive_inputs_ok(
                    params,
                    salt@.len() as int,
                    password.spec_bytes().len() as int,
                    32,
                ));
                assert(e == KdfError::AllocationFailure);
            }
            return Err(HashError::AllocationFailure);
        },
    };
    let s = encode(Variant::Argon2id, Version::V0x13, &params, salt, out.as_slice());
    proof {
        let x = default_hash_parts(password.spec_bytes(), salt@);
        assert(out@ == x.output);
        assert(ascii_bytes(s@) == encode_bytes(x));
    }
    Ok(s)
}

/// Hashes a password under the baseline cost parameters with a fresh
/// 16-byte random salt, and returns the canonical encoded hash string.
/// Two calls draw two independent salts, so their strings differ with
/// overwhelming probability; each carries everything needed to verify it.
pub fn hash(password: &str) -> (r: Result<String, HashError>)
    requires
        password.spec_bytes().len() <= 0xFFFF_FFFF,
    ensures
        match r {
            Ok(s) => exists|salt: Seq<u8>|
                {
                    &&& #[trigger] salt.len() == 16
                    &&& is_ascii_chars(s@)
                    &&& ascii_bytes(s@) == encode_bytes(
                        default_hash_parts(password.spec_bytes(), salt),
                    )
                },
            Err(e) => e == HashError::RandomnessUnavailable || e == HashError::AllocationFailure,
        },
{
    let salt = match crate::kdf::os_random_salt() {
        Ok(v) => v,
        Err(e) => {
            return Err(e);
        },
    };
    let s = match hash_with_salt(password, salt.as_slice()) {
        Ok(s) => s,
        Err(e) => {
            return Err(e);
        },
    };
    proof {
        assert(ascii_bytes(s@) == encode_bytes(default_hash_parts(password.spec_bytes(), salt@)));
    }
    Ok(s)
}

/// Whether the stored output of a decoded hash string equals the key the
/// engine derives for this candidate password under the stored salt and
/// parameters.
pub open spec fn password_matches(x: HashParts, password: Seq<u8>) -> bool {
    x.output == argon2_output(
        x.variant.id(),
        x.version.num() as int,
        x.params.memory_cost_kib as int,
        x.params.time_cost as int,
        x.params.parallelism as int,
        password,
        x.salt,
        x.output.len() as int,
    )
}

/// Checks a password against a stored encoded hash string.  A string that
/// does not decode is `MalformedHash`, never a silent mismatch; a decoded
/// one has the key derivation re-run and the outputs compared over every
/// byte.  `Ok(false)` is the normal wrong-password outcome, not an error.
pub fn verify(encoded: &str, password: &str) -> (r: Result<bool, VerifyError>)
    requires
        password.spec_bytes().len() <= 0xFFFF_FFFF,
    ensures
        match r {
            Ok(b) => {
                &&& decode_str(encoded@) is Some
                &&& b == password_matches(decode_str(encoded@)->Some_0, password.spec_bytes())
            },
            Err(VerifyError::MalformedHash) => decode_str(encoded@) is None,
            Err(VerifyError::ComputationFailed) => decode_str(encoded@) is Some,
        },
{
    let d = match decode(encoded) {
        Ok(d) => d,
        Err(_) => {
            return Err(VerifyError::MalformedHash);
        },
    };
    let out_len = d.output.len();
    let computed = match crate::kdf::derive(
        password.as_bytes(),
        d.salt.as_slice(),
        &d.params,
        d.variant,
        d.version,
        out_len,
    ) {
        Ok(v) => v,
        Err(_) => {
            return Err(VerifyError::ComputationFailed);
        },
    };
    let same = ct_eq(computed.as_slice(), d.output.as_slice());
    proof {
        assert(same == password_matches(d@, password.spec_bytes()));
    }
    Ok(same)
}

/// Hashing then verifying with the same password can only answer `true`:
/// the freshly encoded string decodes back to exactly what was encoded,
/// and its stored output is the very key that verification recomputes.
/// (Failures of the random source or of the working memory are reported,
/// never turned into an answer.)
pub proof fn lemma_hash_then_verify(password: Seq<u8>, salt: Seq<u8>)
    requires
        salt.len() == 16,
    ensures
        ({
            let x = default_hash_parts(password, salt);
            argon2_output(2, 19, 19456, 2, 1, password, salt, 32).len() == 32 ==> {
                &&& x.wf()
                &&& decode_bytes(encode_bytes(x)) == Some(x)
                &&& password_matches(x, password)
            }
        }),
{
    let x = default_hash_parts(password, salt);
    if argon2_output(2, 19, 19456, 2, 1, password, salt, 32).len() == 32 {
        assert(x.params.valid());
        assert(x.wf());
        crate::codec::lemma_codec_round_trip(x);
        assert(x.variant.id() == 2 && x.version.num() == 19);
        assert(password_matches(x, password));
    }
}

/// Round-trip at the string level: the canonical string printed for a
/// well-formed tuple decodes back to exactly that tuple.  Together with
/// the contract of `encode`, this says `decode` inverts `encode`.
pub proof fn lemma_round_trip_str(x: HashParts, s: Seq<char>)
    requires
        x.wf(),
        is_ascii_chars(s),
        ascii_bytes(s) == encode_bytes(x),
    ensures
        decode_str(s) == Some(x),
{
    crate::codec::lemma_codec_round_trip(x);
}

/// Strict decoding at the string level: no two distinct strings decode to
/// the same content, so truncating or corrupting an encoded hash string
/// either breaks decoding or changes what was decoded; it can never pass
/// for the original.
pub proof fn lemma_decode_str_injective(s1: Seq<char>, s2: Seq<char>, x: HashParts)
    requires
        decode_str(s1) == Some(x),
        decode_str(s2) == Some(x),
    ensures
        s1 == s2,
{
    crate::codec::lemma_decode_injective(ascii_bytes(s1), ascii_bytes(s2), x);
    assert(ascii_bytes(s1).len() == ascii_bytes(s2).len());
    assert forall|i: int| 0 <= i < s1.len() implies s1[i] == s2[i] by {
        assert(ascii_bytes(s1)[i] == ascii_bytes(s2)[i]);
        assert(s1[i] as u8 == s2[i] as u8);
        assert('\0' <= s1[i] <= '\u{7f}' && '\0' <= s2[i] <= '\u{7f}');
    }
    assert(s1 =~= s2);
}

} // verus!
