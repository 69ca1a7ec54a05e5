use vstd::prelude::*;
use vstd::string::StringSliceAdditionalSpecFns;
use argon2::password_hash::{PasswordHasher, PasswordVerifier, SaltString, rand_core::OsRng};
use crate::DbError;

verus! {

/// The error type of the `password-hash` crate, which `argon2` uses.
#[verifier::external_type_specification]
#[verifier::external_body]
pub struct ExPasswordHashError(argon2::password_hash::Error);

/// Name for whether `PasswordHash::new` accepts a string as a PHC hash string.
pub uninterp spec fn phc_parses(phc: Seq<char>) -> bool;

/// Name for whether Argon2 (default parameters) verifies a password against a PHC
/// hash string (`PasswordVerifier::verify_password` returns `Ok`).
pub uninterp spec fn argon2_accepts(password: Seq<u8>, phc: Seq<char>) -> bool;

/// Name for the PHC hash string that Argon2 (default parameters) computes for a
/// password with a salt (`PasswordHasher::hash_password`, serialized).
pub uninterp spec fn argon2_phc(password: Seq<u8>, salt: Seq<char>) -> Seq<char>;

/// A character of the "B64" alphabet (standard Base64 without padding).
pub open spec fn is_b64_char(c: char) -> bool {
    ('A' <= c <= 'Z') || ('a' <= c <= 'z') || ('0' <= c <= '9') || c == '+' || c == '/'
}

/// The B64 encoding of 16 bytes: 22 characters of the B64 alphabet, the last of
/// which carries 2 bits of data and 4 zero bits (so it is `A`, `Q`, `g` or `w`).
pub open spec fn is_b64_of_16_bytes(salt: Seq<char>) -> bool {
    &&& salt.len() == 22
    &&& forall|i: int| 0 <= i < 22 ==> is_b64_char(#[trigger] salt[i])
    &&& (salt[21] == 'A' || salt[21] == 'Q' || salt[21] == 'g' || salt[21] == 'w')
}

/// A fresh random salt (`SaltString::generate` with the operating system's random
/// source): 16 random bytes (`Salt::RECOMMENDED_LENGTH`), B64-encoded. Which bytes
/// goes unsaid: they are random.
#[verifier::external_body]
fn generate_salt() -> (salt: String)
    ensures
        is_b64_of_16_bytes(salt@),
{
    SaltString::generate(&mut OsRng).as_str().to_string()
}

/// Hashes `password` with Argon2 (default parameters) and the B64 salt `salt`, and
/// serializes the hash as a PHC string (`SaltString::from_b64`,
/// `PasswordHasher::hash_password`, `PasswordHash::serialize`). A salt that
/// encodes 16 bytes passes `from_b64` (4 to 64 characters of its alphabet) and
/// decodes to at least `MIN_SALT_LEN` (8) bytes, and a password of at most
/// `MAX_PWD_LEN` (u32::MAX) bytes passes `verify_inputs`: then hashing succeeds.
/// Other failures are left unsaid. A hash it returns parses as a PHC string and
/// verifies the password it was made from, as the crate's documented round trip shows.
#[verifier::external_body]
fn argon2_hash(password: &[u8], salt: &str) -> (res: Result<String, argon2::password_hash::Error>)
    ensures
        is_b64_of_16_bytes(salt@) && password@.len() <= u32::MAX ==> res is Ok,
        res matches Ok(phc) ==> {
            &&& phc@ == argon2_phc(password@, salt@)
            &&& phc_parses(phc@)
            &&& argon2_accepts(password@, phc@)
        },
{
    let salt = SaltString::from_b64(salt)?;
    let hash = argon2::Argon2::default().hash_password(password, &salt)?;
    Ok(hash.serialize().as_str().to_string())
}

/// Parses `phc` as a PHC hash string (`PasswordHash::new`) and, if it parses,
/// whether Argon2 (default parameters) verifies `password` against it
/// (`PasswordVerifier::verify_password`).
#[verifier::external_body]
fn argon2_verify(password: &[u8], phc: &str) -> (res: Result<bool, argon2::password_hash::Error>)
    ensures
        res is Ok <==> phc_parses(phc@),
        res matches Ok(b) ==> b == argon2_accepts(password@, phc@),
{
    let hash = argon2::PasswordHash::new(phc)?;
    Ok(argon2::Argon2::default().verify_password(password, &hash).is_ok())
}

/// The outcome of presenting `password` for the user `user_id` whose stored hash is
/// `phc`: the user id when the password matches, `NoRows` when it does not, and
/// `Conversion` when the stored hash is not a PHC string.
pub open spec fn credential_outcome(user_id: i32, phc: Seq<char>, password: Seq<u8>) -> Result<i32, DbError> {
    if !phc_parses(phc) {
        Err(DbError::Conversion)
    } else if argon2_accepts(password, phc) {
        Ok(user_id)
    } else {
        Err(DbError::NoRows)
    }
}

/// Checks a password against the stored hash of user `user_id` (the row that the
/// lookup by username returned).
pub fn check_credential(user_id: i32, phc: &str, pwd: &str) -> (res: Result<i32, DbError>)
    ensures
        res == credential_outcome(user_id, phc@, pwd.spec_bytes()),
{
    match argon2_verify(pwd.as_bytes(), phc) {
        Err(_) => Err(DbError::Conversion),
        Ok(true) => Ok(user_id),
        Ok(false) => Err(DbError::NoRows),
    }
}

/// The PHC hash string to store for a new password, made with a fresh random salt.
/// Whatever user it is stored for, that user's credentials then check with this
/// password. It succeeds for every password of at most u32::MAX bytes; a failure
/// of the hashing is a `Conversion` error.
pub fn hash_new_password(pwd: &str) -> (res: Result<String, DbError>)
    ensures
        pwd.spec_bytes().len() <= u32::MAX ==> res is Ok,
        res matches Ok(phc) ==> forall|user_id: i32| #[trigger] credential_outcome(user_id, phc@, pwd.spec_bytes()) == Ok::<i32, DbError>(user_id),
        res matches Err(e) ==> e == DbError::Conversion,
{
    let salt = generate_salt();
    match argon2_hash(pwd.as_bytes(), salt.as_str()) {
        Ok(phc) => Ok(phc),
        Err(_) => Err(DbError::Conversion),
    }
}

/// Changes the password of user `user_id`, whose stored hash is `stored_phc`: the
/// old password must check, and the result is the hash to store for the new one,
/// with which the user's credentials then check. When the old password checks,
/// the change succeeds for every new password of at most u32::MAX bytes.
pub fn change_password(user_id: i32, stored_phc: &str, old_pwd: &str, new_pwd: &str) -> (res: Result<String, DbError>)
    ensures
        credential_outcome(user_id, stored_phc@, old_pwd.spec_bytes()) matches Err(e) ==> res == Err::<String, DbError>(e),
        res is Ok ==> credential_outcome(user_id, stored_phc@, old_pwd.spec_bytes()) == Ok::<i32, DbError>(user_id),
        res matches Ok(phc) ==> forall|id: i32| #[trigger] credential_outcome(id, phc@, new_pwd.spec_bytes()) == Ok::<i32, DbError>(id),
        credential_outcome(user_id, stored_phc@, old_pwd.spec_bytes()) is Ok && res is Err ==> res == Err::<String, DbError>(DbError::Conversion),
        credential_outcome(user_id, stored_phc@, old_pwd.spec_bytes()) is Ok && new_pwd.spec_bytes().len() <= u32::MAX ==> res is Ok,
{
    match check_credential(user_id, stored_phc, old_pwd) {
        Err(e) => Err(e),
        Ok(_) => hash_new_password(new_pwd),
    }
}

} // verus!
