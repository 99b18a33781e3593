//! The event configuration: what the surrounding process loads from its
//! configuration file and hands to the reconciler and the services.

use vstd::prelude::*;

use crate::models::{Problem, Team};

verus! {

/// The whole configuration.
pub struct Configuration {
    pub staff: StaffConfiguration,
    pub discord: DiscordConfiguration,
    pub redeploy: RedeployConfiguration,
    pub teams: Vec<Team>,
    pub problems: Vec<Problem>,
}

/// Staff settings: the password that grants the staff role.
pub struct StaffConfiguration {
    pub password: String,
}

/// The credentials and ids of the guild the bot manages.
pub struct DiscordConfiguration {
    pub token: String,
    pub application_id: u64,
    pub guild_id: u64,
}

/// Which redeploy service to use, and who to notify.
pub struct RedeployConfiguration {
    pub service: RedeployServiceConfiguration,
    pub notifiers: Vec<RedeployNotifiersConfiguration>,
}

/// The available redeploy service backends.
pub enum RedeployServiceConfiguration {
    Rstate(RstateRedeployServiceConfiguration),
    Fake,
}

/// Where the rstate redeploy service lives and how to authenticate.
pub struct RstateRedeployServiceConfiguration {
    pub baseurl: String,
    pub username: String,
    pub password: String,
}

/// The available redeploy notifiers.
pub enum RedeployNotifiersConfiguration {
    Discord(DiscordRedeployNotifierConfiguration),
}

/// A webhook to post redeploy notifications to.
pub struct DiscordRedeployNotifierConfiguration {
    pub webhook_url: String,
}

} // verus!
