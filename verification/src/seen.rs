//! The positions that one game has met.

use crate::deck::same_deck;
use crate::positions::Position;
use std::collections::VecDeque;
use vstd::prelude::*;

verus! {

/// The set of positions met so far in one game. Two positions are the same
/// when both decks hold the same cards in the same order.
#[derive(Debug)]
pub struct SeenStates {
    states: Vec<(VecDeque<i32>, VecDeque<i32>)>,
}

/// The position that a pair of decks stands for.
pub open spec fn position_of(decks: (VecDeque<i32>, VecDeque<i32>)) -> Position {
    (decks.0@, decks.1@)
}

impl View for SeenStates {
    type V = Set<Position>;

    closed spec fn view(&self) -> Set<Position> {
        self.states@.map_values(|decks: (VecDeque<i32>, VecDeque<i32>)| position_of(decks)).to_set()
    }
}

impl SeenStates {
    /// No position met yet.
    pub fn new() -> (seen: SeenStates)
        ensures
            seen@ == Set::<Position>::empty(),
    {
        let seen = SeenStates { states: Vec::new() };
        assert(seen@ =~= Set::<Position>::empty());
        seen
    }

    /// Whether the position made of these two decks was met.
    pub fn contains(&self, deck_1: &VecDeque<i32>, deck_2: &VecDeque<i32>) -> (found: bool)
        ensures
            found == self@.contains((deck_1@, deck_2@)),
    {
        let ghost met = self.states@.map_values(
            |decks: (VecDeque<i32>, VecDeque<i32>)| position_of(decks),
        );
        let n: usize = self.states.len();
        let mut i: usize = 0;
        while i < n
            invariant
                n == self.states@.len(),
                i <= n,
                met == self.states@.map_values(
                    |decks: (VecDeque<i32>, VecDeque<i32>)| position_of(decks),
                ),
                forall|k: int| 0 <= k < i ==> met[k] != (deck_1@, deck_2@),
            decreases n - i,
        {
            if same_deck(&self.states[i].0, deck_1) && same_deck(&self.states[i].1, deck_2) {
                assert(met[i as int] == (deck_1@, deck_2@));
                return true;
            }
            i = i + 1;
        }
        false
    }

    /// Records the position made of these two decks.
    pub fn insert(&mut self, deck_1: VecDeque<i32>, deck_2: VecDeque<i32>)
        ensures
            final(self)@ == old(self)@.insert((deck_1@, deck_2@)),
    {
        let ghost before = self.states@.map_values(
            |decks: (VecDeque<i32>, VecDeque<i32>)| position_of(decks),
        );
        self.states.push((deck_1, deck_2));
        proof {
            let after = self.states@.map_values(
                |decks: (VecDeque<i32>, VecDeque<i32>)| position_of(decks),
            );
            assert(after =~= before.push((deck_1@, deck_2@)));
            before.lemma_push_to_set_commute((deck_1@, deck_2@));
        }
    }
}

} // verus!
