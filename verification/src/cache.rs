//! The role cache: a snapshot of the full remote role list, refreshed
//! explicitly and read by every lookup of a reconciliation pass.
//!
//! A refresh replaces the whole list (last writer wins, no merge), so a
//! reader never sees a partially updated cache.  Reading before the first
//! refresh is the "cache not populated" error.  The cache itself is a
//! plain value; the surrounding process decides how to share it and must
//! not run two reconciliation passes over it at once.

use vstd::prelude::*;

use crate::error::HelperError;
use crate::roles::{RemoteRole, clone_roles, roles_named, first_role_with_id, spec_roles_named,
    spec_first_role_with_id};

verus! {

/// The cached role list, or nothing before the first refresh.
pub struct RoleCache {
    entries: Option<Vec<RemoteRole>>,
}

impl RoleCache {
    /// What the cache holds: the snapshot, or `None` before any refresh.
    pub closed spec fn contents(&self) -> Option<Seq<RemoteRole>> {
        match self.entries {
            Some(v) => Some(v@),
            None => None,
        }
    }

    /// An empty, not yet populated cache.
    pub fn new() -> (r: Self)
        ensures
            r.contents() is None,
    {
        RoleCache { entries: None }
    }

    /// Replaces the cached list with a freshly fetched one.
    pub fn update_role_cache(&mut self, roles: Vec<RemoteRole>)
        ensures
            final(self).contents() == Some(roles@),
    {
        self.entries = Some(roles);
    }

    /// A copy of the cached list, or the not-populated error if no
    /// refresh ever happened.
    pub fn get_roles_cached(&self) -> (r: Result<Vec<RemoteRole>, HelperError>)
        ensures
            match (r, self.contents()) {
                (Ok(v), Some(s)) => v@ == s,
                (Err(e), None) => e == HelperError::RoleCacheNotPopulatedError,
                _ => false,
            },
    {
        match &self.entries {
            Some(v) => Ok(clone_roles(v)),
            None => Err(HelperError::RoleCacheNotPopulatedError),
        }
    }

    /// All cached roles with the given name, in cache order.
    pub fn find_roles_by_name_cached(&self, name: &String) -> (r: Result<Vec<RemoteRole>, HelperError>)
        ensures
            match (r, self.contents()) {
                (Ok(v), Some(s)) => v@ == spec_roles_named(s, name@),
                (Err(e), None) => e == HelperError::RoleCacheNotPopulatedError,
                _ => false,
            },
    {
        match &self.entries {
            Some(v) => Ok(roles_named(v, name)),
            None => Err(HelperError::RoleCacheNotPopulatedError),
        }
    }

    /// The first cached role with the given id, if any.
    pub fn find_roles_by_id_cached(&self, id: u64) -> (r: Result<Option<RemoteRole>, HelperError>)
        ensures
            match (r, self.contents()) {
                (Ok(v), Some(s)) => v == spec_first_role_with_id(s, id),
                (Err(e), None) => e == HelperError::RoleCacheNotPopulatedError,
                _ => false,
            },
    {
        match &self.entries {
            Some(v) => Ok(first_role_with_id(v, id)),
            None => Err(HelperError::RoleCacheNotPopulatedError),
        }
    }
}

} // verus!
