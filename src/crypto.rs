//! Password digests, computed and checked by argon2.
use vstd::prelude::*;
use argon2::{Argon2, PasswordHasher, PasswordVerifier};
use argon2::password_hash::{PasswordHash, SaltString};
use crate::text::{chars_of, has_prefix, is_prefix};

verus! {

/// The longest secret, in characters, that can be hashed: argon2 takes passwords of at most
/// `u32::MAX` bytes, and a character takes at most four.
pub const MAX_SECRET_CHARS: usize = 0x3fff_ffff;

/// How every digest this library writes begins: argon2id, version 19, and argon2's default
/// costs (19456 KiB of memory, two passes, one lane), then the salt and the output.
pub const DIGEST_PREFIX: &'static str = "$argon2id$v=19$m=19456,t=2,p=1$";

/// `phc` names the algorithm, version and costs that this library hashes with. Other
/// parameters are not handed to argon2: some make it overflow, some make one check run for
/// hours or take all memory.
pub open spec fn safe_digest(phc: Seq<char>) -> bool {
    is_prefix(DIGEST_PREFIX@, phc)
}

/// Whether argon2 accepts `password` against the PHC string `phc`.
pub uninterp spec fn argon2_accepts(password: Seq<char>, phc: Seq<char>) -> bool;

/// Relies on `rand::random`: a value drawn from the thread-local generator. Nothing is known
/// of it.
pub assume_specification<T>[ rand::random::<T> ]() -> (r: T)
    where
        rand::distributions::Standard: rand::distributions::Distribution<T>,
;

/// Relies on argon2's `SaltString::encode_b64`, which fails only on salts of more than 48
/// bytes, and on `PasswordHasher::hash_password` of `Argon2::default()`, which fails only
/// on passwords of more than `u32::MAX` bytes. The PHC string it writes carries the salt and
/// the parameters, so `PasswordVerifier::verify_password` recomputes the same output from
/// the same password: argon2 accepts the password against it. `PasswordHash`'s `Display`
/// writes `$argon2id$v=19$`, then the default parameters `m=19456,t=2,p=1`, then `$` and
/// the salt.
#[verifier::external_body]
fn argon2_hash(password: &str, salt: &[u8; 16]) -> (r: String)
    requires
        password@.len() <= MAX_SECRET_CHARS,
    ensures
        argon2_accepts(password@, r@),
        safe_digest(r@),
{
    let salt = SaltString::encode_b64(salt).expect("sixteen bytes fit a salt string");
    let hash = Argon2::default().hash_password(password.as_bytes(), &salt);
    hash.expect("the password length is within argon2's bound").to_string()
}

/// Relies on argon2's `PasswordHash::new`, which parses a PHC string, and on
/// `PasswordVerifier::verify_password` of `Argon2::default()`, which recomputes the hash
/// with the salt and parameters of that string; a string that does not parse accepts nothing.
/// The parameters are argon2's defaults, which `Params::new` takes without overflow.
#[verifier::external_body]
fn argon2_verify(password: &str, phc: &str) -> (r: bool)
    requires
        safe_digest(phc@),
    ensures
        r == argon2_accepts(password@, phc@),
{
    match PasswordHash::new(phc) {
        Ok(parsed) => Argon2::default().verify_password(password.as_bytes(), &parsed).is_ok(),
        Err(_) => false,
    }
}

/// A salted argon2 digest of `password`, in PHC string form. The salt is random, so two
/// calls give different digests; each accepts the password.
pub fn hash_password(password: &str) -> (r: String)
    requires
        password@.len() <= MAX_SECRET_CHARS,
    ensures
        argon2_accepts(password@, r@),
        safe_digest(r@),
{
    let salt: [u8; 16] = rand::random();
    argon2_hash(password, &salt)
}

/// Whether `password` matches the digest `hash`; false for a digest with other parameters
/// than the ones this library hashes with.
pub fn verify_password(password: &str, hash: &str) -> (r: bool)
    ensures
        r == (safe_digest(hash@) && argon2_accepts(password@, hash@)),
{
    let prefix = chars_of(DIGEST_PREFIX);
    let digest = chars_of(hash);
    if !has_prefix(prefix.as_slice(), digest.as_slice()) {
        return false;
    }
    argon2_verify(password, hash)
}

} // verus!
