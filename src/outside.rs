use vstd::prelude::*;

use tokio_util::sync::CancellationToken;

verus! {

/// A cursor's cancellation handle; cancelling it cancels every token
/// derived from it.
#[verifier::external_type_specification]
#[verifier::external_body]
pub struct ExCancellationToken(tokio_util::sync::CancellationToken);

/// Relies on uuid's `Uuid::now_v7` and its `Display`, which writes the
/// hyphenated form: 32 hex digits and 4 hyphens.
#[verifier::external_body]
pub(crate) fn fresh_id() -> (r: String)
    ensures
        r@.len() == 36,
{
    uuid::Uuid::now_v7().to_string()
}

/// Relies on `CancellationToken::new`: a token without a parent.
#[verifier::external_body]
pub(crate) fn root_token() -> CancellationToken {
    CancellationToken::new()
}

/// Relies on `CancellationToken::child_token`: a token cancelled whenever
/// `parent` is.
#[verifier::external_body]
pub(crate) fn child_token(parent: &CancellationToken) -> CancellationToken {
    parent.child_token()
}

/// Relies on `CancellationToken::cancel`: cancels the token and every token
/// derived from it.
#[verifier::external_body]
pub(crate) fn cancel(token: &CancellationToken) {
    token.cancel()
}

/// Relies on `CancellationToken::clone`: a handle to the same token.
#[verifier::external_body]
pub(crate) fn share_token(token: &CancellationToken) -> CancellationToken {
    token.clone()
}

} // verus!
