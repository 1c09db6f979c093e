//! Combat, the plain game: each round goes to the higher card.
//!
//! The rules are the specification functions `combat_round` and
//! `combat_game`; `round`, `game` and `part_1` are the engine. A game of
//! Combat may go round in circles, so `game` asks that the game at hand
//! ends, and `game_ends` finds out whether it does.

use crate::deck::{cards_at_most, copy_deck, valid_deck};
use crate::positions::{history_of, lemma_history_bounded, position_count, Position};
use crate::rules::{
    award, cards_of, higher_card, lemma_cards_of_len, lemma_round_conserves_cards,
    lemma_same_cards_at_most, lemma_same_cards_valid, GameError, RoundOutcome,
};
use crate::score::{lemma_score_bound_of_fewer, score, score_spec};
use crate::seen::SeenStates;
use std::collections::VecDeque;
use vstd::prelude::*;
use vstd::seq_lib::{lemma_multiset_commutative, to_multiset_contains};

verus! {

/// Who takes the round of Combat at a position: the player with the higher
/// front card. No round can be played from an empty deck, or decided between
/// equal cards.
pub open spec fn combat_round(deck_1: Seq<i32>, deck_2: Seq<i32>) -> Result<
    RoundOutcome,
    GameError,
> {
    if deck_1.len() == 0 || deck_2.len() == 0 {
        Err(GameError::EmptyDeck)
    } else {
        higher_card(deck_1[0], deck_2[0])
    }
}

/// The position after the round of Combat played at a position.
pub open spec fn after_round(deck_1: Seq<i32>, deck_2: Seq<i32>) -> Position
    recommends
        combat_round(deck_1, deck_2) is Ok,
{
    award(deck_1, deck_2, combat_round(deck_1, deck_2).unwrap())
}

/// Whether the game of Combat at a position stops after exactly `rounds`
/// rounds, at a position from which no round can be played.
pub open spec fn ends_after(deck_1: Seq<i32>, deck_2: Seq<i32>, rounds: nat) -> bool
    decreases rounds,
{
    if combat_round(deck_1, deck_2) is Err {
        rounds == 0
    } else {
        let next = after_round(deck_1, deck_2);
        rounds > 0 && ends_after(next.0, next.1, (rounds - 1) as nat)
    }
}

/// Whether the game of Combat at a position ever stops. It need not: from
/// the decks 43, 19 and 2, 29, 14 the sixth round leads back to the start.
pub open spec fn ends(deck_1: Seq<i32>, deck_2: Seq<i32>) -> bool {
    exists|rounds: nat| ends_after(deck_1, deck_2, rounds)
}

/// The number of rounds that the game of Combat at a position lasts, if it
/// ends.
pub open spec fn rounds_to_play(deck_1: Seq<i32>, deck_2: Seq<i32>) -> nat {
    choose|rounds: nat| ends_after(deck_1, deck_2, rounds)
}

/// The position at which the game of Combat that starts at a position stops.
pub open spec fn combat_game(deck_1: Seq<i32>, deck_2: Seq<i32>) -> Position
    decreases rounds_to_play(deck_1, deck_2),
    when ends(deck_1, deck_2)
    via combat_game_decreases
{
    if combat_round(deck_1, deck_2) is Err {
        (deck_1, deck_2)
    } else {
        let next = after_round(deck_1, deck_2);
        combat_game(next.0, next.1)
    }
}

#[via_fn]
proof fn combat_game_decreases(deck_1: Seq<i32>, deck_2: Seq<i32>) {
    if combat_round(deck_1, deck_2) is Ok {
        lemma_round_nears_end(deck_1, deck_2);
    }
}

/// How a game of Combat that stopped at `end` went: well if a deck is empty,
/// and with a tie if not.
pub open spec fn game_result(end: Position) -> Result<(), GameError> {
    if end.0.len() == 0 || end.1.len() == 0 {
        Ok(())
    } else {
        Err(GameError::Tie)
    }
}

/// The deck that is scored when a game has stopped at `end`: player 2's if
/// player 1 has no card left, and player 1's if not.
pub open spec fn winning_deck(end: Position) -> Seq<i32> {
    if end.0.len() == 0 {
        end.1
    } else {
        end.0
    }
}

/// The score of the game of Combat that starts at a position.
pub open spec fn combat_score(deck_1: Seq<i32>, deck_2: Seq<i32>) -> Result<int, GameError> {
    let end = combat_game(deck_1, deck_2);
    match game_result(end) {
        Ok(_) => Ok(score_spec(winning_deck(end))),
        Err(e) => Err(e),
    }
}

proof fn lemma_ends_after_unique(deck_1: Seq<i32>, deck_2: Seq<i32>, a: nat, b: nat)
    requires
        ends_after(deck_1, deck_2, a),
        ends_after(deck_1, deck_2, b),
    ensures
        a == b,
    decreases a,
{
    if combat_round(deck_1, deck_2) is Ok {
        let next = after_round(deck_1, deck_2);
        lemma_ends_after_unique(next.0, next.1, (a - 1) as nat, (b - 1) as nat);
    }
}

/// A game that ends, ends one round sooner once a round is played.
pub proof fn lemma_round_nears_end(deck_1: Seq<i32>, deck_2: Seq<i32>)
    requires
        ends(deck_1, deck_2),
        combat_round(deck_1, deck_2) is Ok,
    ensures
        ends(after_round(deck_1, deck_2).0, after_round(deck_1, deck_2).1),
        rounds_to_play(after_round(deck_1, deck_2).0, after_round(deck_1, deck_2).1) + 1
            == rounds_to_play(deck_1, deck_2),
{
    let next = after_round(deck_1, deck_2);
    let rounds = rounds_to_play(deck_1, deck_2);
    assert(ends_after(next.0, next.1, (rounds - 1) as nat));
    lemma_ends_after_unique(next.0, next.1, (rounds - 1) as nat, rounds_to_play(next.0, next.1));
}

/// Plays one round of Combat.
pub fn round(player_1: &mut VecDeque<i32>, player_2: &mut VecDeque<i32>) -> (result: Result<
    RoundOutcome,
    GameError,
>)
    ensures
        result == combat_round(old(player_1)@, old(player_2)@),
        match result {
            Ok(winner) => (final(player_1)@, final(player_2)@) == award(
                old(player_1)@,
                old(player_2)@,
                winner,
            ),
            Err(_) => final(player_1)@ == old(player_1)@ && final(player_2)@ == old(player_2)@,
        },
        final(player_1)@.len() + final(player_2)@.len() == old(player_1)@.len() + old(
            player_2,
        )@.len(),
{
    if player_1.len() == 0 || player_2.len() == 0 {
        return Err(GameError::EmptyDeck);
    }
    if player_1[0] == player_2[0] {
        return Err(GameError::Tie);
    }
    let card_1: i32 = match player_1.pop_front() {
        Some(card) => card,
        None => return Err(GameError::EmptyDeck),
    };
    let card_2: i32 = match player_2.pop_front() {
        Some(card) => card,
        None => return Err(GameError::EmptyDeck),
    };
    assert(player_1@ =~= old(player_1)@.drop_first());
    assert(player_2@ =~= old(player_2)@.drop_first());
    if card_1 > card_2 {
        player_1.push_back(card_1);
        player_1.push_back(card_2);
        Ok(RoundOutcome::Player1WinsRound)
    } else {
        player_2.push_back(card_2);
        player_2.push_back(card_1);
        Ok(RoundOutcome::Player2WinsRound)
    }
}

/// Plays a game of Combat until a deck is empty, or two equal cards meet.
///
/// The game must be one that ends, which `game_ends` tells: on one that does
/// not, rounds would be played for ever.
pub fn game(player_1: &mut VecDeque<i32>, player_2: &mut VecDeque<i32>) -> (result: Result<
    (),
    GameError,
>)
    requires
        ends(old(player_1)@, old(player_2)@),
    ensures
        (final(player_1)@, final(player_2)@) == combat_game(old(player_1)@, old(player_2)@),
        result == game_result(combat_game(old(player_1)@, old(player_2)@)),
{
    while player_1.len() != 0 && player_2.len() != 0
        invariant
            ends(player_1@, player_2@),
            combat_game(player_1@, player_2@) == combat_game(old(player_1)@, old(player_2)@),
        decreases rounds_to_play(player_1@, player_2@),
    {
        proof {
            if combat_round(player_1@, player_2@) is Ok {
                lemma_round_nears_end(player_1@, player_2@);
            }
        }
        match round(player_1, player_2) {
            Ok(_) => {},
            Err(e) => {
                return Err(e);
            },
        }
    }
    Ok(())
}

/// Plays a game of Combat and scores the deck of the player who won it.
///
/// The game must end, the decks be valid, and the score fit the result;
/// `lemma_combat_score_bound` bounds the score by the cards in play.
pub fn part_1(player_1: &mut VecDeque<i32>, player_2: &mut VecDeque<i32>) -> (result: Result<
    usize,
    GameError,
>)
    requires
        ends(old(player_1)@, old(player_2)@),
        valid_deck(old(player_1)@),
        valid_deck(old(player_2)@),
        combat_score(old(player_1)@, old(player_2)@) matches Ok(points) ==> points <= usize::MAX,
    ensures
        (final(player_1)@, final(player_2)@) == combat_game(old(player_1)@, old(player_2)@),
        match result {
            Ok(points) => combat_score(old(player_1)@, old(player_2)@) == Ok::<int, GameError>(
                points as int,
            ),
            Err(e) => combat_score(old(player_1)@, old(player_2)@) == Err::<int, GameError>(e),
        },
{
    match game(player_1, player_2) {
        Ok(_) => {},
        Err(e) => {
            return Err(e);
        },
    }
    proof {
        lemma_combat_keeps_valid(old(player_1)@, old(player_2)@);
    }
    if player_1.len() == 0 {
        Ok(score(player_2))
    } else {
        Ok(score(player_1))
    }
}

/// Card conservation: a game of Combat stops where no round can be played,
/// with the cards that it started with.
pub proof fn lemma_combat_conserves_cards(deck_1: Seq<i32>, deck_2: Seq<i32>)
    requires
        ends(deck_1, deck_2),
    ensures
        cards_of(combat_game(deck_1, deck_2)) == cards_of((deck_1, deck_2)),
        combat_round(combat_game(deck_1, deck_2).0, combat_game(deck_1, deck_2).1) is Err,
    decreases rounds_to_play(deck_1, deck_2),
{
    if let Ok(winner) = combat_round(deck_1, deck_2) {
        let next = after_round(deck_1, deck_2);
        lemma_round_nears_end(deck_1, deck_2);
        lemma_round_conserves_cards(deck_1, deck_2, winner);
        lemma_combat_conserves_cards(next.0, next.1);
    }
}

/// A game of Combat between valid decks stops with valid decks.
pub proof fn lemma_combat_keeps_valid(deck_1: Seq<i32>, deck_2: Seq<i32>)
    requires
        ends(deck_1, deck_2),
        valid_deck(deck_1),
        valid_deck(deck_2),
    ensures
        valid_deck(combat_game(deck_1, deck_2).0),
        valid_deck(combat_game(deck_1, deck_2).1),
{
    lemma_combat_conserves_cards(deck_1, deck_2);
    lemma_same_cards_valid(combat_game(deck_1, deck_2), (deck_1, deck_2));
}

/// The score of a game of Combat between valid decks is bounded by the
/// number of cards in play and the highest of them.
pub proof fn lemma_combat_score_bound(deck_1: Seq<i32>, deck_2: Seq<i32>, top: int)
    requires
        ends(deck_1, deck_2),
        valid_deck(deck_1),
        valid_deck(deck_2),
        cards_at_most(deck_1, top),
        cards_at_most(deck_2, top),
        top >= 0,
    ensures
        combat_score(deck_1, deck_2) matches Ok(points) ==> 0 <= 2 * points <= (deck_1.len()
            + deck_2.len()) * (deck_1.len() + deck_2.len() + 1) * top,
{
    let end = combat_game(deck_1, deck_2);
    lemma_combat_conserves_cards(deck_1, deck_2);
    lemma_same_cards_valid(end, (deck_1, deck_2));
    lemma_same_cards_at_most(end, (deck_1, deck_2), top);
    lemma_cards_of_len(end);
    lemma_cards_of_len((deck_1, deck_2));
    lemma_score_bound_of_fewer(winning_deck(end), top, deck_1.len() + deck_2.len());
}

/// A game of Combat that ends, and that no tie stops, ends with exactly one
/// deck empty, as long as there is a card in play at all. That the game ends
/// is asked for, because not every game does.
pub proof fn lemma_combat_leaves_one_deck(deck_1: Seq<i32>, deck_2: Seq<i32>)
    requires
        ends(deck_1, deck_2),
        game_result(combat_game(deck_1, deck_2)) is Ok,
        deck_1.len() + deck_2.len() > 0,
    ensures
        (combat_game(deck_1, deck_2).0.len() == 0) != (combat_game(deck_1, deck_2).1.len() == 0),
{
    lemma_combat_conserves_cards(deck_1, deck_2);
    lemma_cards_of_len(combat_game(deck_1, deck_2));
    lemma_cards_of_len((deck_1, deck_2));
}

/// No tie stops a game of Combat played with cards of which no two are
/// equal.
pub proof fn lemma_distinct_cards_never_tie(deck_1: Seq<i32>, deck_2: Seq<i32>)
    requires
        ends(deck_1, deck_2),
        (deck_1 + deck_2).no_duplicates(),
    ensures
        game_result(combat_game(deck_1, deck_2)) is Ok,
{
    let end = combat_game(deck_1, deck_2);
    lemma_combat_conserves_cards(deck_1, deck_2);
    if end.0.len() > 0 && end.1.len() > 0 {
        let card = end.0[0];
        assert(end.1[0] == card);
        to_multiset_contains(end.0, card);
        to_multiset_contains(end.1, card);
        assert(cards_of(end).count(card) >= 2);
        lemma_multiset_commutative(deck_1, deck_2);
        (deck_1 + deck_2).lemma_multiset_has_no_duplicates();
        assert((deck_1 + deck_2).to_multiset().contains(card));
    }
}

/// Whether `rounds` rounds of Combat lead from the position `from` to the
/// position `to`.
pub open spec fn leads_to(from: Position, to: Position, rounds: nat) -> bool
    decreases rounds,
{
    if rounds == 0 {
        from == to
    } else {
        combat_round(from.0, from.1) is Ok && leads_to(
            after_round(from.0, from.1),
            to,
            (rounds - 1) as nat,
        )
    }
}

/// Whether one round of Combat or more leads from `from` to `to`.
pub open spec fn comes_after(to: Position, from: Position) -> bool {
    exists|rounds: nat| rounds > 0 && leads_to(from, to, rounds)
}

proof fn lemma_leads_on(from: Position, to: Position, rounds: nat)
    requires
        leads_to(from, to, rounds),
        combat_round(to.0, to.1) is Ok,
    ensures
        leads_to(from, after_round(to.0, to.1), rounds + 1),
    decreases rounds,
{
    if rounds > 0 {
        lemma_leads_on(after_round(from.0, from.1), to, (rounds - 1) as nat);
    } else {
        assert(leads_to(after_round(to.0, to.1), after_round(to.0, to.1), 0));
    }
}

proof fn lemma_ends_later(from: Position, to: Position, rounds: nat, total: nat)
    requires
        leads_to(from, to, rounds),
        ends_after(from.0, from.1, total),
    ensures
        total >= rounds,
        ends_after(to.0, to.1, (total - rounds) as nat),
    decreases rounds,
{
    if rounds > 0 {
        lemma_ends_later(
            after_round(from.0, from.1),
            to,
            (rounds - 1) as nat,
            (total - 1) as nat,
        );
    }
}

/// A game of Combat that comes back to a position it has left never ends.
pub proof fn lemma_return_never_ends(deck_1: Seq<i32>, deck_2: Seq<i32>)
    requires
        comes_after((deck_1, deck_2), (deck_1, deck_2)),
    ensures
        !ends(deck_1, deck_2),
{
    if ends(deck_1, deck_2) {
        let rounds = choose|rounds: nat| rounds > 0 && leads_to(
            (deck_1, deck_2),
            (deck_1, deck_2),
            rounds,
        );
        let total = rounds_to_play(deck_1, deck_2);
        lemma_ends_later((deck_1, deck_2), (deck_1, deck_2), rounds, total);
        lemma_ends_after_unique(deck_1, deck_2, total, (total - rounds) as nat);
    }
}

/// One round leads from a position to the next, and on from there.
proof fn lemma_leads_by_round(from: Position, next: Position, to: Position, rounds: nat)
    requires
        combat_round(from.0, from.1) is Ok,
        after_round(from.0, from.1).0 =~= next.0,
        after_round(from.0, from.1).1 =~= next.1,
        leads_to(next, to, rounds),
    ensures
        leads_to(from, to, rounds + 1),
{
}

/// Not every game of Combat ends, even with positive cards of which no two
/// are equal: from the decks 43, 19 and 2, 29, 14 six rounds lead back to
/// the start.
pub proof fn lemma_game_without_end()
    ensures
        !ends(seq![43i32, 19], seq![2i32, 29, 14]),
{
    let start: Position = (seq![43i32, 19], seq![2i32, 29, 14]);
    let first: Position = (seq![19i32, 43, 2], seq![29i32, 14]);
    let second: Position = (seq![43i32, 2], seq![14i32, 29, 19]);
    let third: Position = (seq![2i32, 43, 14], seq![29i32, 19]);
    let fourth: Position = (seq![43i32, 14], seq![19i32, 29, 2]);
    let fifth: Position = (seq![14i32, 43, 19], seq![29i32, 2]);
    assert(leads_to(start, start, 0));
    lemma_leads_by_round(fifth, start, start, 0);
    lemma_leads_by_round(fourth, fifth, start, 1);
    lemma_leads_by_round(third, fourth, start, 2);
    lemma_leads_by_round(second, third, start, 3);
    lemma_leads_by_round(first, second, start, 4);
    lemma_leads_by_round(start, first, start, 5);
    assert(comes_after(start, start));
    lemma_return_never_ends(start.0, start.1);
}

/// Decides whether the game of Combat that starts with these decks ends, by
/// playing it on copies until it stops or comes back to a position.
pub fn game_ends(player_1: &VecDeque<i32>, player_2: &VecDeque<i32>) -> (answer: bool)
    ensures
        answer == ends(player_1@, player_2@),
{
    let ghost cards = player_1@.len() + player_2@.len();
    let mut deck_1 = copy_deck(player_1);
    let mut deck_2 = copy_deck(player_2);
    let mut seen = SeenStates::new();
    loop
        invariant
            deck_1@.len() + deck_2@.len() == cards,
            history_of(seen@, cards),
            ends(deck_1@, deck_2@) == ends(player_1@, player_2@),
            forall|p: Position| seen@.contains(p) ==> comes_after((deck_1@, deck_2@), p),
        decreases position_count(cards) - seen@.len(),
    {
        let ghost here = (deck_1@, deck_2@);
        if seen.contains(&deck_1, &deck_2) {
            proof {
                lemma_return_never_ends(deck_1@, deck_2@);
            }
            return false;
        }
        seen.insert(copy_deck(&deck_1), copy_deck(&deck_2));
        match round(&mut deck_1, &mut deck_2) {
            Err(_) => {
                assert(ends_after(here.0, here.1, 0));
                return true;
            },
            Ok(winner) => {
                proof {
                    let next = (deck_1@, deck_2@);
                    lemma_round_conserves_cards(here.0, here.1, winner);
                    lemma_history_bounded(seen@, cards);
                    if ends(here.0, here.1) {
                        lemma_round_nears_end(here.0, here.1);
                    }
                    if ends(next.0, next.1) {
                        let rounds = rounds_to_play(next.0, next.1);
                        assert(ends_after(here.0, here.1, rounds + 1));
                    }
                    assert forall|p: Position| seen@.contains(p) implies comes_after(next, p) by {
                        if p == here {
                            assert(leads_to(next, next, 0));
                            assert(leads_to(here, next, 1));
                        } else {
                            let rounds = choose|rounds: nat|
                                rounds > 0 && leads_to(p, here, rounds);
                            lemma_leads_on(p, here, rounds);
                            assert(leads_to(p, next, rounds + 1));
                        }
                    }
                }
            },
        }
    }
}

} // verus!
