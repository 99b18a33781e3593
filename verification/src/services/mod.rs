//! The external lookup services the bot consumes: teams, problems and
//! contestants come either from static configuration or from the score
//! server; redeploys go to an HTTP service.  The selection logic is here
//! and verified; HTTP transport stays with the surrounding process.

pub mod contestant;
pub mod problem;
pub mod redeploy;
pub mod team;
