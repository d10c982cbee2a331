use vstd::prelude::*;

use crate::errors::{HashError, KdfError};
use crate::params::{Params, Variant, Version};

verus! {

/// The Argon2 derived key: a pure function of the algorithm identifier,
/// version number, cost parameters, password, salt and requested length.
/// The function itself is left uninterpreted; the engine below is trusted
/// to compute it, and everything downstream speaks of it by this name.
pub uninterp spec fn argon2_output(
    alg: int,
    version: int,
    memory_cost_kib: int,
    time_cost: int,
    parallelism: int,
    password: Seq<u8>,
    salt: Seq<u8>,
    out_len: int,
) -> Seq<u8>;

/// The cost settings, lengths and counts the engine accepts: legal cost
/// parameters, a salt of 8 to 2^32 - 1 bytes, a password of at most
/// 2^32 - 1 bytes, and an output of 4 to 2^32 - 1 bytes.
pub open spec fn derive_inputs_ok(
    params: Params,
    salt_len: int,
    password_len: int,
    out_len: int,
) -> bool {
    &&& params.valid()
    &&& 8 <= salt_len <= 0xFFFF_FFFF
    &&& password_len <= 0xFFFF_FFFF
    &&& 4 <= out_len <= 0xFFFF_FFFF
}

/// Relies on argon2::Argon2::hash_password_into (argon2 crate): the result
/// is a deterministic function of the algorithm, version, cost parameters,
/// password and salt, filling exactly `out_len` bytes.  With the inputs in
/// the ranges required here, its own validation cannot fail, so the only
/// failure left is the block memory allocation.
#[verifier::external_body]
fn argon2_fill(
    variant: Variant,
    version: Version,
    params: &Params,
    password: &[u8],
    salt: &[u8],
    out_len: usize,
) -> (r: Result<Vec<u8>, KdfError>)
    requires
        derive_inputs_ok(*params, salt@.len() as int, password@.len() as int, out_len as int),
    ensures
        match r {
            Ok(v) => {
                &&& v@.len() == out_len
                &&& v@ == argon2_output(
                    variant.id(),
                    version.num() as int,
                    params.memory_cost_kib as int,
                    params.time_cost as int,
                    params.parallelism as int,
                    password@,
                    salt@,
                    out_len as int,
                )
            },
            Err(e) => e == KdfError::AllocationFailure,
        },
{
    let alg = match variant {
        Variant::Argon2d => argon2::Algorithm::Argon2d,
        Variant::Argon2i => argon2::Algorithm::Argon2i,
        Variant::Argon2id => argon2::Algorithm::Argon2id,
    };
    let ver = if matches!(version, Version::V0x10) { argon2::Version::V0x10 } else { argon2::Version::V0x13 };
    let par = argon2::Params::new(params.memory_cost_kib, params.time_cost, params.parallelism, Some(out_len))
        .map_err(|_| KdfError::AllocationFailure)?;
    let mut out = vec![0u8; out_len];
    match argon2::Argon2::new(alg, ver, par).hash_password_into(password, salt, &mut out) {
        Ok(()) => Ok(out),
        Err(_) => Err(KdfError::AllocationFailure),
    }
}

/// Relies on password_hash::try_generate_salt (via the argon2 crate): 16
/// bytes from the operating system's secure random source; nothing is
/// assumed of their values, and its only failure is the source itself.
#[verifier::external_body]
pub(crate) fn os_random_salt() -> (r: Result<Vec<u8>, HashError>)
    ensures
        match r {
            Ok(v) => v@.len() == 16,
            Err(e) => e == HashError::RandomnessUnavailable,
        },
{
    match argon2::password_hash::try_generate_salt() {
        Ok(a) => Ok(a.to_vec()),
        Err(_) => Err(HashError::RandomnessUnavailable),
    }
}

/// Derives `out_len` bytes of key material from the password and salt.
/// Cost settings or lengths out of the legal range are rejected with
/// `InvalidParameters`, never clamped; with legal inputs the only failure
/// left is the working memory.
pub fn derive(
    password: &[u8],
    salt: &[u8],
    params: &Params,
    variant: Variant,
    version: Version,
    out_len: usize,
) -> (r: Result<Vec<u8>, KdfError>)
    ensures
        match r {
            Ok(v) => {
                &&& derive_inputs_ok(
                    *params,
                    salt@.len() as int,
                    password@.len() as int,
                    out_len as int,
                )
                &&& v@.len() == out_len
                &&& v@ == argon2_output(
                    variant.id(),
                    version.num() as int,
                    params.memory_cost_kib as int,
                    params.time_cost as int,
                    params.parallelism as int,
                    password@,
                    salt@,
                    out_len as int,
                )
            },
            Err(KdfError::InvalidParameters) => !derive_inputs_ok(
                *params,
                salt@.len() as int,
                password@.len() as int,
                out_len as int,
            ),
            Err(KdfError::AllocationFailure) => derive_inputs_ok(
                *params,
                salt@.len() as int,
                password@.len() as int,
                out_len as int,
            ),
        },
{
    if !params.is_valid() {
        return Err(KdfError::InvalidParameters);
    }
    if salt.len() < 8 || salt.len() > 0xFFFF_FFFF {
        return Err(KdfError::InvalidParameters);
    }
    if password.len() > 0xFFFF_FFFF {
        return Err(KdfError::InvalidParameters);
    }
    if out_len < 4 || out_len > 0xFFFF_FFFF {
        return Err(KdfError::InvalidParameters);
    }
    argon2_fill(variant, version, params, password, salt, out_len)
}

} // verus!
