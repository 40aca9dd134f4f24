use vstd::prelude::*;

verus! {

/// A participant's answer to a question, or a group's vote on it.
#[derive(Debug, Clone, Copy, PartialEq, Eq, Hash, Structural)]
pub enum Choice {
    Pour,
    Contre,
    Abstention,
}

/// How a choice is stored in the database.
pub open spec fn spec_to_db(c: Choice) -> i16 {
    match c {
        Choice::Pour => 1i16,
        Choice::Abstention => 0i16,
        Choice::Contre => -1i16,
    }
}

/// The choice that a stored value stands for, if any.
pub open spec fn spec_from_db(i: i16) -> Option<Choice> {
    if i == 1 {
        Some(Choice::Pour)
    } else if i == 0 {
        Some(Choice::Abstention)
    } else if i == -1 {
        Some(Choice::Contre)
    } else {
        None
    }
}

impl Choice {
    /// Reads a stored choice: 1 is "pour", 0 "abstention", -1 "contre";
    /// any other value stands for nothing.
    pub fn from_db(i: i16) -> (r: Option<Self>)
        ensures
            r == spec_from_db(i),
    {
        match i {
            1 => Some(Choice::Pour),
            0 => Some(Choice::Abstention),
            -1 => Some(Choice::Contre),
            _ => None,
        }
    }

    /// The value under which the choice is stored.
    pub fn to_db(&self) -> (r: i16)
        ensures
            r == spec_to_db(*self),
    {
        match self {
            Choice::Pour => 1,
            Choice::Abstention => 0,
            Choice::Contre => -1,
        }
    }
}

/// Storing a choice and reading it back gives the same choice, and every
/// stored value that reads as a choice is the one under which that choice
/// is stored.
pub proof fn lemma_choice_db_round_trip(c: Choice, i: i16)
    ensures
        spec_from_db(spec_to_db(c)) == Some(c),
        spec_from_db(i) matches Some(d) ==> spec_to_db(d) == i,
        spec_from_db(i) is Some <==> -1 <= i <= 1,
{
}

/// One answer of one stored submission.
#[derive(Debug, Clone, Copy, PartialEq, Eq, Structural)]
pub struct SubmissionsChoices {
    pub submission_id: i64,
    pub question_id: i16,
    pub userchoice: i16,
}

} // verus!
