//! What the two games share: the outcome of a round, the ways a game can
//! fail, and how the cards of a round change hands.

use crate::deck::{cards_at_most, valid_deck};
use crate::positions::{cards_in_play, Position};
use vstd::multiset::Multiset;
use vstd::prelude::*;
use vstd::seq_lib::{
    lemma_multiset_commutative, to_multiset_build, to_multiset_contains, to_multiset_len,
    to_multiset_remove,
};

verus! {

/// Who takes the two cards of a round.
#[derive(Clone, Copy, Debug, PartialEq, Eq, Structural)]
pub enum RoundOutcome {
    Player1WinsRound,
    Player2WinsRound,
}

/// Why a round cannot be played.
#[derive(Clone, Copy, Debug, PartialEq, Eq, Structural)]
pub enum GameError {
    /// A card was to be drawn from a deck that holds none.
    EmptyDeck,
    /// The two cards drawn are equal, and nothing else decides the round.
    Tie,
}

impl GameError {
    /// What went wrong, in words.
    pub fn message(&self) -> (text: &'static str)
        ensures
            text@ == match self {
                GameError::EmptyDeck => "a player has no card to draw"@,
                GameError::Tie => "the two cards drawn are equal"@,
            },
    {
        match self {
            GameError::EmptyDeck => "a player has no card to draw",
            GameError::Tie => "the two cards drawn are equal",
        }
    }
}

/// The round goes to the strictly higher card; equal cards decide nothing.
pub open spec fn higher_card(card_1: i32, card_2: i32) -> Result<RoundOutcome, GameError> {
    if card_1 > card_2 {
        Ok(RoundOutcome::Player1WinsRound)
    } else if card_2 > card_1 {
        Ok(RoundOutcome::Player2WinsRound)
    } else {
        Err(GameError::Tie)
    }
}

/// The decks after a round that `winner` takes: both front cards are drawn,
/// and the winner puts them at the back of their deck, their own card first
/// and the opponent's card behind it.
pub open spec fn award(deck_1: Seq<i32>, deck_2: Seq<i32>, winner: RoundOutcome) -> Position
    recommends
        deck_1.len() > 0,
        deck_2.len() > 0,
{
    match winner {
        RoundOutcome::Player1WinsRound => (
            deck_1.drop_first().push(deck_1[0]).push(deck_2[0]),
            deck_2.drop_first(),
        ),
        RoundOutcome::Player2WinsRound => (
            deck_1.drop_first(),
            deck_2.drop_first().push(deck_2[0]).push(deck_1[0]),
        ),
    }
}

/// The cards of a position, whoever holds them and in whatever order.
pub open spec fn cards_of(p: Position) -> Multiset<i32> {
    p.0.to_multiset().add(p.1.to_multiset())
}

/// A deck is its front card and the cards below it.
proof fn lemma_cards_of_deck(deck: Seq<i32>)
    requires
        deck.len() > 0,
    ensures
        deck.to_multiset() == deck.drop_first().to_multiset().insert(deck[0]),
{
    to_multiset_remove(deck, 0);
    to_multiset_contains(deck, deck[0]);
    assert(deck.remove(0) =~= deck.drop_first());
    assert(deck.to_multiset() =~= deck.drop_first().to_multiset().insert(deck[0]));
}

/// Card conservation: a round moves cards between the decks and to the back
/// of a deck, and neither adds a card nor loses one.
pub proof fn lemma_round_conserves_cards(deck_1: Seq<i32>, deck_2: Seq<i32>, winner: RoundOutcome)
    requires
        deck_1.len() > 0,
        deck_2.len() > 0,
    ensures
        cards_of(award(deck_1, deck_2, winner)) == cards_of((deck_1, deck_2)),
        cards_in_play(award(deck_1, deck_2, winner)) == cards_in_play((deck_1, deck_2)),
{
    let rest_1 = deck_1.drop_first();
    let rest_2 = deck_2.drop_first();
    lemma_cards_of_deck(deck_1);
    lemma_cards_of_deck(deck_2);
    to_multiset_build(rest_1, deck_1[0]);
    to_multiset_build(rest_1.push(deck_1[0]), deck_2[0]);
    to_multiset_build(rest_2, deck_2[0]);
    to_multiset_build(rest_2.push(deck_2[0]), deck_1[0]);
    assert(cards_of(award(deck_1, deck_2, winner)) =~= cards_of((deck_1, deck_2)));
}

/// The cards of a position are as many as its two decks hold.
pub proof fn lemma_cards_of_len(p: Position)
    ensures
        cards_of(p).len() == cards_in_play(p),
{
    to_multiset_len(p.0);
    to_multiset_len(p.1);
}

/// Decks that hold, between them, the cards of two valid decks are valid.
pub proof fn lemma_same_cards_valid(p: Position, q: Position)
    requires
        cards_of(p) == cards_of(q),
        valid_deck(q.0),
        valid_deck(q.1),
    ensures
        valid_deck(p.0),
        valid_deck(p.1),
{
    assert forall|i: int| 0 <= i < p.0.len() implies p.0[i] > 0 by {
        lemma_card_is_held(p, q, p.0[i]);
    }
    assert forall|i: int| 0 <= i < p.1.len() implies p.1[i] > 0 by {
        lemma_card_is_held(p, q, p.1[i]);
    }
}

/// Decks that hold, between them, the cards of two decks with no card
/// higher than `top` hold no card higher than `top`.
pub proof fn lemma_same_cards_at_most(p: Position, q: Position, top: int)
    requires
        cards_of(p) == cards_of(q),
        cards_at_most(q.0, top),
        cards_at_most(q.1, top),
    ensures
        cards_at_most(p.0, top),
        cards_at_most(p.1, top),
{
    assert forall|i: int| 0 <= i < p.0.len() implies p.0[i] <= top by {
        lemma_card_is_held(p, q, p.0[i]);
    }
    assert forall|i: int| 0 <= i < p.1.len() implies p.1[i] <= top by {
        lemma_card_is_held(p, q, p.1[i]);
    }
}

/// Decks that hold, between them, the cards of two decks without two equal
/// cards hold no two equal cards either.
pub proof fn lemma_same_cards_distinct(p: Position, q: Position)
    requires
        cards_of(p) == cards_of(q),
        (q.0 + q.1).no_duplicates(),
    ensures
        (p.0 + p.1).no_duplicates(),
{
    lemma_multiset_commutative(p.0, p.1);
    lemma_multiset_commutative(q.0, q.1);
    (q.0 + q.1).lemma_multiset_has_no_duplicates();
    (p.0 + p.1).lemma_multiset_has_no_duplicates_conv();
}

/// A card that one of two decks holds is held by one of any two decks with
/// the same cards.
proof fn lemma_card_is_held(p: Position, q: Position, card: i32)
    requires
        cards_of(p) == cards_of(q),
        p.0.contains(card) || p.1.contains(card),
    ensures
        q.0.contains(card) || q.1.contains(card),
{
    to_multiset_contains(p.0, card);
    to_multiset_contains(p.1, card);
    to_multiset_contains(q.0, card);
    to_multiset_contains(q.1, card);
    assert(cards_of(p).count(card) > 0);
}

} // verus!
