//! Problem lookup: the list of competition problems and lookup by code.

use vstd::prelude::*;

use crate::models::{clone_problems, Problem};

verus! {

/// Failures of a problem lookup; an unexpected one carries its message.
#[derive(Debug, PartialEq, Eq)]
pub enum ProblemError {
    NotFound,
    Unexpected(String),
}

/// A source of the problem list.  Implementations back it with static
/// configuration or with the score server.
pub trait ProblemService {
    fn get_problems(&self) -> Result<Vec<Problem>, ProblemError>;

    fn get_problem(&self, problem_code: &str) -> Result<Problem, ProblemError>;
}

/// The first problem with the given code, if any.
pub open spec fn spec_first_problem_coded(problems: Seq<Problem>, code: Seq<char>) -> Option<Problem>
    decreases problems.len(),
{
    if problems.len() == 0 {
        None
    } else if problems.first().code@ == code {
        Some(problems.first())
    } else {
        spec_first_problem_coded(problems.drop_first(), code)
    }
}

/// Selects the problem with the given code; a missing one is `NotFound`.
pub fn find_problem(problems: &Vec<Problem>, problem_code: &str) -> (r: Result<Problem, ProblemError>)
    ensures
        match (r, spec_first_problem_coded(problems@, problem_code@)) {
            (Ok(p), Some(q)) => p == q,
            (Err(e), None) => e == ProblemError::NotFound,
            _ => false,
        },
{
    let wanted: String = problem_code.to_owned();
    let mut i: usize = 0;
    proof {
        assert(problems@.skip(0) =~= problems@);
    }
    while i < problems.len()
        invariant
            0 <= i <= problems@.len(),
            wanted@ == problem_code@,
            spec_first_problem_coded(problems@, problem_code@) == spec_first_problem_coded(
                problems@.skip(i as int),
                problem_code@,
            ),
        decreases problems@.len() - i,
    {
        proof {
            assert(problems@.skip(i as int).first() == problems@[i as int]);
            assert(problems@.skip(i as int).drop_first() =~= problems@.skip(i as int + 1));
        }
        if problems[i].code == wanted {
            return Ok(problems[i].clone());
        }
        i = i + 1;
    }
    proof {
        assert(problems@.skip(problems@.len() as int) =~= Seq::<Problem>::empty());
    }
    Err(ProblemError::NotFound)
}

/// A problem service backed by the static problem list of the
/// configuration.
pub struct StaticProblemService {
    problems: Vec<Problem>,
}

impl StaticProblemService {
    /// The list the service will serve.
    pub closed spec fn problems(&self) -> Seq<Problem> {
        self.problems@
    }

    pub fn new(problems: Vec<Problem>) -> (r: Self)
        ensures
            r.problems() == problems@,
    {
        StaticProblemService { problems }
    }
}

impl ProblemService for StaticProblemService {
    fn get_problems(&self) -> Result<Vec<Problem>, ProblemError> {
        Ok(clone_problems(&self.problems))
    }

    fn get_problem(&self, problem_code: &str) -> Result<Problem, ProblemError> {
        find_problem(&self.problems, problem_code)
    }
}

} // verus!
