//! The ways in which a request can be refused.

use vstd::prelude::*;

verus! {

/// A precondition of the requested operation that the arguments violate.
///
/// Every operation validates its arguments before it changes anything, so
/// a value that was handed in by `&mut` is untouched when an error comes
/// back.
#[derive(Debug, Clone, Copy, PartialEq, Eq, Structural)]
pub enum Error {
    /// A rule set needs at least the dead state.
    ZeroStates,
    /// The seed pattern holds a state that the rule set does not have.
    SeedStateOutOfRange,
    /// Half the neighbourhood radius, rounded up, exceeds the grid's
    /// width or height.
    RadiusExceedsGrid,
    /// The seed of a two-dimensional automaton is not a square.
    SeedNotSquare,
    /// The seed is wider or taller than the grid.
    SeedTooLarge,
    /// One rule set is one-dimensional and the other two-dimensional.
    DimensionalityMismatch,
    /// The two rule sets have different neighbourhood radii.
    RadiusMismatch,
    /// The two rule sets have different numbers of states.
    StateCountMismatch,
    /// More cuts were allowed than the rule table has gaps to cut at.
    TooManyCuts,
    /// More mutations were allowed than the rule table has entries.
    TooManyMutations,
    /// The board has not been given a rule set.
    MissingAutomata,
    /// The tournament sample is larger than the population.
    SampleTooLarge,
    /// The tournament sample cannot supply two parents.
    SampleTooSmall,
}

impl Error {
    /// The text of [`Error::message`].
    pub open spec fn text(self) -> Seq<char> {
        match self {
            Error::ZeroStates => "the number of states must be larger than zero"@,
            Error::SeedStateOutOfRange =>
                "the start population contains states that exceed the limit of the automata"@,
            Error::RadiusExceedsGrid =>
                "the neighbourhood is too large for the width or height of the board"@,
            Error::SeedNotSquare =>
                "the length of a two-dimensional start population must be a perfect square"@,
            Error::SeedTooLarge => "the start population does not fit on the board"@,
            Error::DimensionalityMismatch =>
                "the automata do not have the same number of dimensions"@,
            Error::RadiusMismatch => "the automata do not have the same neighbourhood size"@,
            Error::StateCountMismatch => "the automata do not have the same number of states"@,
            Error::TooManyCuts =>
                "the maximum number of cuts must be smaller than the length of the rule string"@,
            Error::TooManyMutations =>
                "the maximum number of mutations must not exceed the length of the rule string"@,
            Error::MissingAutomata => "the board is missing its automata"@,
            Error::SampleTooLarge => "the tournament is larger than the population"@,
            Error::SampleTooSmall => "the tournament needs at least two members"@,
        }
    }

    /// A sentence that names the violated precondition.
    pub fn message(&self) -> (r: String)
        ensures
            r@ == self.text(),
    {
        match self {
            Error::ZeroStates => "the number of states must be larger than zero".to_owned(),
            Error::SeedStateOutOfRange =>
                "the start population contains states that exceed the limit of the automata".to_owned(),
            Error::RadiusExceedsGrid =>
                "the neighbourhood is too large for the width or height of the board".to_owned(),
            Error::SeedNotSquare =>
                "the length of a two-dimensional start population must be a perfect square".to_owned(),
            Error::SeedTooLarge => "the start population does not fit on the board".to_owned(),
            Error::DimensionalityMismatch =>
                "the automata do not have the same number of dimensions".to_owned(),
            Error::RadiusMismatch =>
                "the automata do not have the same neighbourhood size".to_owned(),
            Error::StateCountMismatch =>
                "the automata do not have the same number of states".to_owned(),
            Error::TooManyCuts =>
                "the maximum number of cuts must be smaller than the length of the rule string".to_owned(),
            Error::TooManyMutations =>
                "the maximum number of mutations must not exceed the length of the rule string".to_owned(),
            Error::MissingAutomata => "the board is missing its automata".to_owned(),
            Error::SampleTooLarge => "the tournament is larger than the population".to_owned(),
            Error::SampleTooSmall => "the tournament needs at least two members".to_owned(),
        }
    }
}

} // verus!
