//! One player's in-memory game record: the scorecard and the turn history.

use vstd::prelude::*;
use crate::dice::Dice;
use crate::scorecard::Scorecard;
use crate::types::{Category, Entry};

verus! {

/// The evolving state of one player's game.
pub struct GameState {
    pub scorecard: Scorecard,
    pub history: Vec<(Dice, Entry)>,
}

impl GameState {
    /// A fresh game: empty scorecard, no history.
    pub fn new() -> (r: GameState)
        ensures
            r.scorecard.wf(),
            forall|c: Category| !(#[trigger] r.scorecard.recorded(c)),
            r.history@.len() == 0,
    {
        GameState { scorecard: Scorecard::new(), history: Vec::new() }
    }

    /// Record one finished turn: write the entry into the scorecard and
    /// append the hand it came from to the history.
    pub fn write_entry(&mut self, dice: Dice, entry: Entry)
        requires
            old(self).scorecard.wf(),
        ensures
            final (self).scorecard.wf(),
            final (self).scorecard.spec_get(entry.0) == Some(entry.1),
            forall|c: Category|
                c != entry.0 ==> #[trigger] final (self).scorecard.spec_get(c) == old(
                    self,
                ).scorecard.spec_get(c),
            final (self).history@ == old(self).history@.push((dice, entry)),
    {
        self.scorecard.add(entry);
        self.history.push((dice, entry));
    }
}

} // verus!
