//! Contestant lookup: which registered contestant owns a given platform
//! account.

use vstd::prelude::*;

use crate::models::Contestant;

verus! {

/// Failures of a contestant lookup; an unexpected one carries its
/// message.
#[derive(Debug, PartialEq, Eq)]
pub enum ContestantServiceError {
    NotFound,
    Unexpected(String),
}

/// A source of the contestant list.  Implementations back it with the
/// score server; the fake one serves nobody.
pub trait ContestantService {
    fn get_contestants(&self) -> Result<Vec<Contestant>, ContestantServiceError>;

    fn get_contestant(&self, discord_id: &str) -> Result<Contestant, ContestantServiceError>;
}

/// The first contestant with the given platform account id, if any.
pub open spec fn spec_first_contestant_with_discord_id(cs: Seq<Contestant>, discord_id: Seq<char>) -> Option<Contestant>
    decreases cs.len(),
{
    if cs.len() == 0 {
        None
    } else if cs.first().discord_id@ == discord_id {
        Some(cs.first())
    } else {
        spec_first_contestant_with_discord_id(cs.drop_first(), discord_id)
    }
}

/// Selects the contestant with the given platform account id; a missing
/// one is `NotFound`.
pub fn find_contestant(contestants: &Vec<Contestant>, discord_id: &str) -> (r: Result<Contestant, ContestantServiceError>)
    ensures
        match (r, spec_first_contestant_with_discord_id(contestants@, discord_id@)) {
            (Ok(c), Some(d)) => c == d,
            (Err(e), None) => e == ContestantServiceError::NotFound,
            _ => false,
        },
{
    let wanted: String = discord_id.to_owned();
    let mut i: usize = 0;
    proof {
        assert(contestants@.skip(0) =~= contestants@);
    }
    while i < contestants.len()
        invariant
            0 <= i <= contestants@.len(),
            wanted@ == discord_id@,
            spec_first_contestant_with_discord_id(contestants@, discord_id@)
                == spec_first_contestant_with_discord_id(contestants@.skip(i as int), discord_id@),
        decreases contestants@.len() - i,
    {
        proof {
            assert(contestants@.skip(i as int).first() == contestants@[i as int]);
            assert(contestants@.skip(i as int).drop_first() =~= contestants@.skip(i as int + 1));
        }
        if contestants[i].discord_id == wanted {
            return Ok(contestants[i].clone());
        }
        i = i + 1;
    }
    proof {
        assert(contestants@.skip(contestants@.len() as int) =~= Seq::<Contestant>::empty());
    }
    Err(ContestantServiceError::NotFound)
}

/// A contestant service that knows nobody; used when no score server is
/// configured.
pub struct FakeContestantService;

impl ContestantService for FakeContestantService {
    fn get_contestants(&self) -> Result<Vec<Contestant>, ContestantServiceError> {
        Ok(Vec::new())
    }

    fn get_contestant(&self, discord_id: &str) -> Result<Contestant, ContestantServiceError> {
        let contestants = Vec::new();
        find_contestant(&contestants, discord_id)
    }
}

} // verus!
