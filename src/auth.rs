use vstd::prelude::*;
use vstd::string::*;
use vstd::utf8::encode_utf8;

verus! {

/// The message with which a failed authorization is refused.
pub const AUTHORIZATION_FAILED: &'static str = "Authorization failed";

/// A refused authorization, with the reason.
#[derive(Debug)]
pub struct BadAuthorization(pub String);

/// The 32-byte BLAKE3 hash of `message`.
pub uninterp spec fn digest_of(message: Seq<u8>) -> Seq<u8>;

/// Relies on blake3::hash: the hash of the message, a function of the message alone.
#[verifier::external_body]
pub(crate) fn hash(message: &[u8]) -> (r: [u8; 32])
    ensures
        r@ == digest_of(message@),
{
    *blake3::hash(message).as_bytes()
}

/// Relies on constant_time_eq::constant_time_eq_32: whether the two arrays
/// hold the same bytes, compared in time that does not depend on where they differ.
#[verifier::external_body]
fn same_bytes(a: &[u8; 32], b: &[u8; 32]) -> (r: bool)
    ensures
        r == (a@ == b@),
{
    constant_time_eq::constant_time_eq_32(a, b)
}

/// The authorization header that a client with `token` sends.
pub open spec fn bearer_header(token: Seq<char>) -> Seq<char> {
    seq!['B', 'e', 'a', 'r', 'e', 'r', ' '] + token
}

/// The hash of the authorization header that `token` grants.
pub fn load_correct_bearer_token_hash(token: &str) -> (r: [u8; 32])
    ensures
        r@ == digest_of(encode_utf8(bearer_header(token@))),
{
    let header = String::from_str("Bearer ").concat(token);
    proof {
        reveal_strlit("Bearer ");
        assert(header@ =~= bearer_header(token@));
    }
    hash(header.as_str().as_bytes())
}

/// Accepts an authorization whose hash is `correct_hash`.
pub fn check_digest(digest: &[u8; 32], correct_hash: &[u8; 32]) -> (r: Result<(), String>)
    ensures
        r is Ok <==> digest@ == correct_hash@,
        r is Err ==> r->Err_0@ == AUTHORIZATION_FAILED@,
{
    if same_bytes(correct_hash, digest) {
        Ok(())
    } else {
        Err(String::from_str(AUTHORIZATION_FAILED))
    }
}

/// Accepts `authorization` when it hashes to `correct_hash`.
pub fn check_authorization(authorization: &str, correct_hash: &[u8; 32]) -> (r: Result<(), String>)
    ensures
        r is Ok <==> digest_of(encode_utf8(authorization@)) == correct_hash@,
        r is Err ==> r->Err_0@ == AUTHORIZATION_FAILED@,
{
    let digest = hash(authorization.as_bytes());
    check_digest(&digest, correct_hash)
}

} // verus!
