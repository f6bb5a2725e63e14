//! Access to the local dashboard: requests carry the session's bearer token,
//! and changes must come from the dashboard's own origin.
use vstd::prelude::*;

use crate::text::{borrowed_opt_text, same_text};

verus! {

/// Why a dashboard request was refused.
#[derive(Clone, Copy, PartialEq, Eq, Structural, Debug)]
pub enum AccessError {
    /// The request does not carry the session's bearer token.
    Unauthorized,
    /// The request comes from another origin.
    Forbidden,
}

/// The secrets of one dashboard session: its token and the origin it serves.
#[derive(Debug)]
pub struct DashboardAccess {
    pub token: String,
    pub origin: String,
}

/// The `Authorization` header value that carries `token`.
pub open spec fn bearer(token: Seq<char>) -> Seq<char> {
    "Bearer "@ + token
}

/// A read: the token must match, and an `Origin` header, when present,
/// must name the dashboard's origin.
pub open spec fn read_access(
    token: Seq<char>,
    origin: Seq<char>,
    authorization: Option<Seq<char>>,
    request_origin: Option<Seq<char>>,
) -> Result<(), AccessError> {
    if authorization != Some(bearer(token)) {
        Err(AccessError::Unauthorized)
    } else if request_origin is Some && request_origin != Some(origin) {
        Err(AccessError::Forbidden)
    } else {
        Ok(())
    }
}

/// The origin check of a change: the `Origin` header must be present and
/// name the dashboard's origin.
pub open spec fn origin_access(origin: Seq<char>, request_origin: Option<Seq<char>>) -> Result<
    (),
    AccessError,
> {
    if request_origin != Some(origin) {
        Err(AccessError::Forbidden)
    } else {
        Ok(())
    }
}

/// A change: a valid read that also names the dashboard's origin.
pub open spec fn control_access(
    token: Seq<char>,
    origin: Seq<char>,
    authorization: Option<Seq<char>>,
    request_origin: Option<Seq<char>>,
) -> Result<(), AccessError> {
    match read_access(token, origin, authorization, request_origin) {
        Err(e) => Err(e),
        Ok(()) => origin_access(origin, request_origin),
    }
}

fn matches(expected: &str, given: Option<&str>) -> (b: bool)
    ensures
        b == (borrowed_opt_text(given) == Some(expected@)),
{
    match given {
        Some(value) => same_text(value, expected),
        None => false,
    }
}

/// Checks a read request; `authorization` and `origin` are the request's
/// header values, absent when missing or not visible ASCII.
pub fn authorize(access: &DashboardAccess, authorization: Option<&str>, origin: Option<&str>) -> (r:
    Result<(), AccessError>)
    ensures
        r == read_access(
            access.token@,
            access.origin@,
            borrowed_opt_text(authorization),
            borrowed_opt_text(origin),
        ),
{
    let mut expected = String::from_str("Bearer ");
    expected.append(access.token.as_str());
    proof {
        reveal_strlit("Bearer ");
    }
    assert(expected@ == bearer(access.token@));
    if !matches(expected.as_str(), authorization) {
        return Err(AccessError::Unauthorized);
    }
    if origin.is_some() && !matches(access.origin.as_str(), origin) {
        return Err(AccessError::Forbidden);
    }
    Ok(())
}

/// Checks that a request names the dashboard's origin.
pub fn authorize_origin(access: &DashboardAccess, origin: Option<&str>) -> (r: Result<(), AccessError>)
    ensures
        r == origin_access(access.origin@, borrowed_opt_text(origin)),
{
    if !matches(access.origin.as_str(), origin) {
        return Err(AccessError::Forbidden);
    }
    Ok(())
}

/// Checks a request that changes the mesh.
pub fn authorize_control(access: &DashboardAccess, authorization: Option<&str>, origin: Option<&str>) -> (r:
    Result<(), AccessError>)
    ensures
        r == control_access(
            access.token@,
            access.origin@,
            borrowed_opt_text(authorization),
            borrowed_opt_text(origin),
        ),
{
    match authorize(access, authorization, origin) {
        Err(e) => Err(e),
        Ok(()) => authorize_origin(access, origin),
    }
}

/// A change is let through only with the session's token and from the
/// dashboard's own origin.
pub proof fn law_control_needs_token_and_origin(
    token: Seq<char>,
    origin: Seq<char>,
    authorization: Option<Seq<char>>,
    request_origin: Option<Seq<char>>,
)
    ensures
        control_access(token, origin, authorization, request_origin) is Ok <==> authorization == Some(
            bearer(token),
        ) && request_origin == Some(origin),
{
}

} // verus!
