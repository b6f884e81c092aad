//! `mio::Token` as the verifier sees it.

use mio::Token;
use vstd::prelude::*;

verus! {

/// `mio::Token`: the identifier under which a source is registered with the
/// poller, and which every readiness event of that source carries.
#[verifier::external_type_specification]
#[verifier::external_body]
pub struct ExToken(Token);

/// The integer that a token wraps: what `usize::from` gives for it.
pub uninterp spec fn token_index(token: Token) -> usize;

/// Calls `mio::Token`'s constructor. Not proved: that the token made from
/// `index` converts back to `index`, which holds because `Token` is a tuple
/// struct of one `usize` and `usize::from` reads that field.
#[verifier::external_body]
pub(crate) fn token_of(index: usize) -> (token: Token)
    ensures
        token_index(token) == index,
{
    Token(index)
}

/// Calls `usize::from` on a `mio::Token`. Not proved: that the result is the
/// integer the token wraps.
#[verifier::external_body]
pub(crate) fn index_of(token: Token) -> (index: usize)
    ensures
        index == token_index(token),
{
    usize::from(token)
}

} // verus!
