//! The authorization value the issue-tracker calls carry: HTTP basic
//! auth for the fixed account, built from the token in the environment.

use vstd::prelude::*;

verus! {

/// The base64 text (standard alphabet, with padding) of a string's
/// bytes.
pub uninterp spec fn base64_of(s: Seq<char>) -> Seq<char>;

/// Relies on base64's `STANDARD` engine `encode`: the base64 text of
/// the argument's bytes, a function of the argument alone.
#[verifier::external_body]
fn base64_encode(s: &str) -> (r: String)
    ensures
        r@ == base64_of(s@),
{
    base64::Engine::encode(&base64::engine::general_purpose::STANDARD, s.as_bytes())
}

/// The basic-auth value for the fixed account name and the given token:
/// `user:token`, base64-encoded.
pub fn auth_header(token: &str) -> (r: String)
    ensures
        r@ == base64_of("ehuss:"@ + token@),
{
    let mut s = String::from_str("ehuss:");
    s.append(token);
    base64_encode(s.as_str())
}

} // verus!
