use vstd::prelude::*;

verus! {

#[verifier::external_type_specification]
#[verifier::external_body]
pub struct ExBcryptError(bcrypt::BcryptError);

/// What `bcrypt::verify` reports for a password and a stored digest:
/// `Some(matches)`, or `None` where the digest cannot be checked.
pub uninterp spec fn password_check(password: Seq<char>, digest: Seq<char>) -> Option<bool>;

/// Work factor of the password hash: about a tenth of a second per check.
pub const HASH_COST: u32 = 10;

/// Relies on `bcrypt::hash`: draws a fresh random salt, so the digest itself is
/// not determined, but each digest it returns is a 60-character bcrypt string
/// that `bcrypt::verify` accepts for the same password.
#[verifier::external_body]
pub(crate) fn hash_password(password: &String, cost: u32) -> (r: Result<String, bcrypt::BcryptError>)
    ensures
        r matches Ok(d) ==> d@.len() == 60 && password_check(password@, d@) == Some(true),
{
    bcrypt::hash(password.as_bytes(), cost)
}

/// Relies on `bcrypt::verify`: recomputes the digest with the salt and cost
/// stored in `digest`; the outcome depends on the two strings alone.
#[verifier::external_body]
pub(crate) fn verify_password(password: &String, digest: &String) -> (r: Result<bool, bcrypt::BcryptError>)
    ensures
        r matches Ok(b) ==> password_check(password@, digest@) == Some(b),
        r is Err ==> password_check(password@, digest@) is None,
{
    bcrypt::verify(password.as_bytes(), digest.as_str())
}

} // verus!
