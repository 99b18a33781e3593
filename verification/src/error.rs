//! Error taxonomy: user mistakes, internal inconsistencies, and remote
//! transport failures (carried as plain messages).

use vstd::prelude::*;

verus! {

/// A mistake by the invoking user; reported back verbatim.
#[derive(Debug, PartialEq, Eq)]
pub enum UserError {
    InvalidInvitationCode(String),
    NoSuchProblem(String),
    UserNotInTeam,
    SummaryTooLong,
    RequestInQueue,
    OutOfCompetitionTime,
    Forbidden,
}

/// An internal inconsistency: something the reconciler guarantees to exist
/// was missing, or a command reached a handler that does not know it.
#[derive(Debug, PartialEq, Eq)]
pub enum SystemError {
    NoSuchRole(String),
    NoSuchCategory(String),
    UnhandledCommand(String),
    UnexpectedError(String),
}

/// Top-level error: either of the above, or a remote failure propagated
/// from the platform client or an HTTP service (message only).
#[derive(Debug, PartialEq, Eq)]
pub enum Error {
    UserError(UserError),
    SystemError(SystemError),
    SerenityError(String),
    ReqwestError(String),
}

/// Failures of the low-level platform helpers, including reading the role
/// cache before it was ever refreshed.
#[derive(Debug, PartialEq, Eq)]
pub enum HelperError {
    InvalidChannelKindError,
    RoleCacheNotPopulatedError,
    SerenityError(String),
}

} // verus!
