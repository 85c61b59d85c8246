//! The capability a player offers the turn loop: pick a keep before a
//! re-roll, and pick a category for the final hand.

use vstd::prelude::*;
use crate::dice::{sorted, sub_multiset, valid_hand, Dice};
use crate::scorecard::Scorecard;
use crate::types::{spec_score, Entry};

verus! {

/// A participant in the game. Whatever policy it follows, a player must
/// return a keep that really is part of its hand, and must score an open
/// category with that category's true value.
pub trait Player {
    /// Pick the dice to keep before re-rolling the rest.
    fn decide_keep(&self, result: &Scorecard, remaining_tosses: u8, dice: &Dice) -> (r: Dice)
        requires
            result.wf(),
            valid_hand(dice@),
        ensures
            sorted(r@),
            sub_multiset(r@, dice@),
    ;

    /// Pick an open category for the final hand and score it.
    fn decide_entry(&self, result: &Scorecard, dice: &Dice) -> (r: Entry)
        requires
            result.wf(),
            valid_hand(dice@),
            !result.all_recorded(),
        ensures
            !result.recorded(r.0),
            r.1 == spec_score(r.0, dice@),
    ;

    /// The player's display name.
    fn name(&self) -> &str;
}

} // verus!
