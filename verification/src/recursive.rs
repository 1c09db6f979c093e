//! Recursive Combat: a round is decided by a game of its own, played with
//! copies of the cards below the two drawn, whenever both players hold as
//! many cards as their drawn card says; and a game that comes back to a
//! position goes to player 1.
//!
//! The rules are the specification functions `recursive_round` and
//! `recursive_game`; `round_2`, `game_2` and `part_2` are the engine.

use crate::deck::{cards_at_most, copy_deck, copy_front, valid_deck};
use crate::positions::{history_of, lemma_history_bounded, position_count, Position};
use crate::rules::{
    award, cards_of, higher_card, lemma_cards_of_len, lemma_round_conserves_cards,
    lemma_same_cards_at_most, lemma_same_cards_distinct, lemma_same_cards_valid, GameError,
    RoundOutcome,
};
use crate::score::{lemma_score_bound_of_fewer, score, score_spec};
use crate::seen::SeenStates;
use std::collections::VecDeque;
use vstd::pervasive::unreached;
use vstd::prelude::*;

verus! {

/// How a game ended: the winner, with the deck they hold at the end.
pub enum GameOutcome {
    Player1Wins(Seq<i32>),
    Player2Wins(Seq<i32>),
}

impl GameOutcome {
    /// The player who won the game, and with it the round that the game was
    /// played to decide.
    pub open spec fn winner(self) -> RoundOutcome {
        match self {
            GameOutcome::Player1Wins(_) => RoundOutcome::Player1WinsRound,
            GameOutcome::Player2Wins(_) => RoundOutcome::Player2WinsRound,
        }
    }

    /// The winner's deck.
    pub open spec fn deck(self) -> Seq<i32> {
        match self {
            GameOutcome::Player1Wins(deck) => deck,
            GameOutcome::Player2Wins(deck) => deck,
        }
    }
}

/// What one step of a game leads to.
pub enum RoundView {
    Player1Win(Seq<i32>),
    Player2Win(Seq<i32>),
    Continue(Seq<i32>, Seq<i32>, Set<Position>),
}

/// What one step of a game leads to: a win, with the winner's deck, or the
/// two decks and the positions met, from which the game goes on.
#[derive(Debug)]
pub enum RoundResult {
    Player1Win(VecDeque<i32>),
    Player2Win(VecDeque<i32>),
    Continue(VecDeque<i32>, VecDeque<i32>, SeenStates),
}

impl View for RoundResult {
    type V = RoundView;

    open spec fn view(&self) -> RoundView {
        match self {
            RoundResult::Player1Win(deck) => RoundView::Player1Win(deck@),
            RoundResult::Player2Win(deck) => RoundView::Player2Win(deck@),
            RoundResult::Continue(deck_1, deck_2, seen) => RoundView::Continue(
                deck_1@,
                deck_2@,
                seen@,
            ),
        }
    }
}

impl RoundResult {
    /// The outcome of the game, where this step has ended it.
    pub open spec fn outcome(&self) -> Option<GameOutcome> {
        match self {
            RoundResult::Player1Win(deck) => Some(GameOutcome::Player1Wins(deck@)),
            RoundResult::Player2Win(deck) => Some(GameOutcome::Player2Wins(deck@)),
            RoundResult::Continue(_, _, _) => None,
        }
    }
}

/// Whether the round at this position is decided by a sub-game: each player
/// has, after drawing, at least as many cards left as the card drawn says.
pub open spec fn recurses(deck_1: Seq<i32>, deck_2: Seq<i32>) -> bool {
    &&& deck_1.len() > 0
    &&& deck_2.len() > 0
    &&& 0 <= deck_1[0] <= deck_1.len() - 1
    &&& 0 <= deck_2[0] <= deck_2.len() - 1
}

/// The deck that a player takes into a sub-game: as many of the cards below
/// the drawn one as the drawn card says.
pub open spec fn sub_deck(deck: Seq<i32>) -> Seq<i32>
    recommends
        deck.len() > 0,
        0 <= deck[0] <= deck.len() - 1,
{
    deck.subrange(1, 1 + deck[0])
}

/// One step of a game, given who takes the round if one is played.
pub open spec fn step(
    deck_1: Seq<i32>,
    deck_2: Seq<i32>,
    seen: Set<Position>,
    winner: Result<RoundOutcome, GameError>,
) -> Result<RoundView, GameError> {
    if seen.contains((deck_1, deck_2)) {
        Ok(RoundView::Player1Win(deck_1))
    } else if deck_1.len() == 0 || deck_2.len() == 0 {
        Err(GameError::EmptyDeck)
    } else {
        match winner {
            Err(e) => Err(e),
            Ok(who) => {
                let (next_1, next_2) = award(deck_1, deck_2, who);
                if who == RoundOutcome::Player1WinsRound && next_2.len() == 0 {
                    Ok(RoundView::Player1Win(next_1))
                } else if who == RoundOutcome::Player2WinsRound && next_1.len() == 0 {
                    Ok(RoundView::Player2Win(next_2))
                } else {
                    Ok(RoundView::Continue(next_1, next_2, seen.insert((deck_1, deck_2))))
                }
            },
        }
    }
}

/// Who takes the round played at a position: the winner of the sub-game
/// between the sub-decks, where one is played, and the player with the
/// higher card where not. A sub-game starts with no position met.
pub open spec fn round_winner(deck_1: Seq<i32>, deck_2: Seq<i32>) -> Result<
    RoundOutcome,
    GameError,
>
    recommends
        deck_1.len() > 0,
        deck_2.len() > 0,
    decreases deck_1.len() + deck_2.len(), 0nat,
{
    if recurses(deck_1, deck_2) {
        match play(sub_deck(deck_1), sub_deck(deck_2), Set::empty()) {
            Ok(outcome) => Ok(outcome.winner()),
            Err(e) => Err(e),
        }
    } else {
        higher_card(deck_1[0], deck_2[0])
    }
}

/// The outcome of the game that stands at a position, having met the
/// positions in `seen` before: that of the step taken there if it ends the
/// game, and that of the game at the next position if not.
///
/// The game ends because it never stands at a position twice, and there are
/// only so many positions of its cards.
pub open spec fn play(deck_1: Seq<i32>, deck_2: Seq<i32>, seen: Set<Position>) -> Result<
    GameOutcome,
    GameError,
>
    decreases deck_1.len() + deck_2.len(),
        1 + position_count(deck_1.len() + deck_2.len()) - seen.len(),
    when history_of(seen, deck_1.len() + deck_2.len())
    via play_decreases
{
    match step(deck_1, deck_2, seen, round_winner(deck_1, deck_2)) {
        Ok(RoundView::Continue(next_1, next_2, met)) => play(next_1, next_2, met),
        Ok(RoundView::Player1Win(deck)) => Ok(GameOutcome::Player1Wins(deck)),
        Ok(RoundView::Player2Win(deck)) => Ok(GameOutcome::Player2Wins(deck)),
        Err(e) => Err(e),
    }
}

#[via_fn]
proof fn play_decreases(deck_1: Seq<i32>, deck_2: Seq<i32>, seen: Set<Position>) {
    let n = deck_1.len() + deck_2.len();
    lemma_history_bounded(seen, n);
    assert forall|winner: Result<RoundOutcome, GameError>|
        (#[trigger] step(deck_1, deck_2, seen, winner) matches Ok(
            RoundView::Continue(next_1, next_2, met),
        ) ==> next_1.len() + next_2.len() == n && seen.len() < met.len() <= position_count(n)) by {
        lemma_step_continues(deck_1, deck_2, seen, winner);
    }
}

/// A step that does not end the game leaves as many cards in play, and adds
/// the position it started from to those met, where it was not before.
pub proof fn lemma_step_continues(
    deck_1: Seq<i32>,
    deck_2: Seq<i32>,
    seen: Set<Position>,
    winner: Result<RoundOutcome, GameError>,
)
    requires
        history_of(seen, deck_1.len() + deck_2.len()),
    ensures
        step(deck_1, deck_2, seen, winner) matches Ok(RoundView::Continue(next_1, next_2, met))
            ==> {
            &&& next_1.len() + next_2.len() == deck_1.len() + deck_2.len()
            &&& next_1.len() > 0
            &&& next_2.len() > 0
            &&& !seen.contains((deck_1, deck_2))
            &&& met == seen.insert((deck_1, deck_2))
            &&& history_of(met, deck_1.len() + deck_2.len())
            &&& met.len() == seen.len() + 1
            &&& met.len() <= position_count(deck_1.len() + deck_2.len())
        },
{
    if let Ok(RoundView::Continue(next_1, next_2, met)) = step(deck_1, deck_2, seen, winner) {
        lemma_history_bounded(met, deck_1.len() + deck_2.len());
    }
}

/// One step of a game at a position, having met the positions in `seen`.
///
/// A position met before ends the game at once for player 1, who keeps the
/// deck as it stands. Otherwise both players draw; a sub-game decides the
/// round if both have cards enough, the higher card if not; the winner takes
/// both cards, and wins the game if the other deck is then empty.
pub open spec fn recursive_round(deck_1: Seq<i32>, deck_2: Seq<i32>, seen: Set<Position>) -> Result<
    RoundView,
    GameError,
> {
    step(deck_1, deck_2, seen, round_winner(deck_1, deck_2))
}

/// The outcome of a game of Recursive Combat that starts with these decks.
pub open spec fn recursive_game(deck_1: Seq<i32>, deck_2: Seq<i32>) -> Result<
    GameOutcome,
    GameError,
> {
    play(deck_1, deck_2, Set::empty())
}

/// The score of the game of Recursive Combat that starts with these decks:
/// the score of the deck that the winner holds at the end.
pub open spec fn recursive_score(deck_1: Seq<i32>, deck_2: Seq<i32>) -> Result<int, GameError> {
    match recursive_game(deck_1, deck_2) {
        Ok(outcome) => Ok(score_spec(outcome.deck())),
        Err(e) => Err(e),
    }
}

/// Plays one step of a game of Recursive Combat: at a position met before,
/// player 1 wins with the deck as it stands; at any other, a round is played,
/// and the position is added to those met.
pub fn round_2(player_1: VecDeque<i32>, player_2: VecDeque<i32>, previous: SeenStates) -> (result:
    Result<RoundResult, GameError>)
    ensures
        match result {
            Ok(next) => recursive_round(player_1@, player_2@, previous@) == Ok::<
                RoundView,
                GameError,
            >(next@),
            Err(e) => recursive_round(player_1@, player_2@, previous@) == Err::<
                RoundView,
                GameError,
            >(e),
        },
        previous@.contains((player_1@, player_2@)) ==> (result matches Ok(
            RoundResult::Player1Win(deck),
        ) && deck@ == player_1@),
        result matches Ok(RoundResult::Continue(next_1, next_2, met)) ==> {
            &&& next_1@.len() + next_2@.len() == player_1@.len() + player_2@.len()
            &&& met@ == previous@.insert((player_1@, player_2@))
        },
    decreases player_1@.len() + player_2@.len(), 0nat,
{
    let mut player_1 = player_1;
    let mut player_2 = player_2;
    let mut previous = previous;
    if previous.contains(&player_1, &player_2) {
        return Ok(RoundResult::Player1Win(player_1));
    }
    if player_1.len() == 0 || player_2.len() == 0 {
        return Err(GameError::EmptyDeck);
    }
    let ghost deck_1 = player_1@;
    let ghost deck_2 = player_2@;
    previous.insert(copy_deck(&player_1), copy_deck(&player_2));
    let card_1: i32 = match player_1.pop_front() {
        Some(card) => card,
        None => return Err(GameError::EmptyDeck),
    };
    let card_2: i32 = match player_2.pop_front() {
        Some(card) => card,
        None => return Err(GameError::EmptyDeck),
    };
    assert(player_1@ =~= deck_1.drop_first());
    assert(player_2@ =~= deck_2.drop_first());

    let player_1_won_round: bool = if card_1 >= 0 && card_2 >= 0 && player_1.len()
        >= card_1 as usize && player_2.len() >= card_2 as usize {
        let new_player_1 = copy_front(&player_1, card_1 as usize);
        let new_player_2 = copy_front(&player_2, card_2 as usize);
        assert(new_player_1@ =~= sub_deck(deck_1));
        assert(new_player_2@ =~= sub_deck(deck_2));
        match game_2(new_player_1, new_player_2) {
            Ok(RoundResult::Player2Win(_)) => false,
            Ok(_) => true,
            Err(e) => return Err(e),
        }
    } else if card_1 == card_2 {
        return Err(GameError::Tie);
    } else {
        card_1 > card_2
    };

    if player_1_won_round {
        player_1.push_back(card_1);
        player_1.push_back(card_2);
        if player_2.len() == 0 {
            return Ok(RoundResult::Player1Win(player_1));
        }
    } else {
        player_2.push_back(card_2);
        player_2.push_back(card_1);
        if player_1.len() == 0 {
            return Ok(RoundResult::Player2Win(player_2));
        }
    }

    Ok(RoundResult::Continue(player_1, player_2, previous))
}

/// Plays a game of Recursive Combat to its end, from no position met. The
/// result is never `Continue`.
pub fn game_2(player_1: VecDeque<i32>, player_2: VecDeque<i32>) -> (result: Result<
    RoundResult,
    GameError,
>)
    ensures
        match result {
            Ok(end) => end.outcome() is Some && recursive_game(player_1@, player_2@) == Ok::<
                GameOutcome,
                GameError,
            >(end.outcome().unwrap()),
            Err(e) => recursive_game(player_1@, player_2@) == Err::<GameOutcome, GameError>(e),
        },
    decreases player_1@.len() + player_2@.len(), 1nat,
{
    let ghost cards = player_1@.len() + player_2@.len();
    let mut deck_1 = player_1;
    let mut deck_2 = player_2;
    let mut seen = SeenStates::new();
    loop
        invariant
            cards == player_1@.len() + player_2@.len(),
            deck_1@.len() + deck_2@.len() == cards,
            history_of(seen@, cards),
            play(deck_1@, deck_2@, seen@) == recursive_game(player_1@, player_2@),
        decreases position_count(cards) - seen@.len(),
    {
        proof {
            lemma_step_continues(deck_1@, deck_2@, seen@, round_winner(deck_1@, deck_2@));
        }
        match round_2(deck_1, deck_2, seen) {
            Err(e) => {
                return Err(e);
            },
            Ok(RoundResult::Continue(next_1, next_2, met)) => {
                deck_1 = next_1;
                deck_2 = next_2;
                seen = met;
            },
            Ok(end) => {
                return Ok(end);
            },
        }
    }
}

/// Plays a game of Recursive Combat and scores the deck of the player who
/// won it.
///
/// The decks must be valid and the score fit the result;
/// `lemma_recursive_score_bound` bounds the score by the cards in play.
pub fn part_2(player_1: VecDeque<i32>, player_2: VecDeque<i32>) -> (result: Result<
    usize,
    GameError,
>)
    requires
        valid_deck(player_1@),
        valid_deck(player_2@),
        recursive_score(player_1@, player_2@) matches Ok(points) ==> points <= usize::MAX,
    ensures
        match result {
            Ok(points) => recursive_score(player_1@, player_2@) == Ok::<int, GameError>(
                points as int,
            ),
            Err(e) => recursive_score(player_1@, player_2@) == Err::<int, GameError>(e),
        },
{
    proof {
        lemma_game_keeps_valid(player_1@, player_2@, Set::empty(), i32::MAX as int);
    }
    let winning_deck = match game_2(player_1, player_2) {
        Ok(RoundResult::Player1Win(cards)) => cards,
        Ok(RoundResult::Player2Win(cards)) => cards,
        Ok(RoundResult::Continue(_, _, _)) => unreached(),
        Err(e) => {
            return Err(e);
        },
    };
    Ok(score(&winning_deck))
}

/// Card conservation: a step that goes on leaves the cards of the position
/// in the two decks; a step that a round ends leaves them all in the
/// winner's deck; and a step that meets a position again plays no round and
/// hands player 1's deck back as it is.
pub proof fn lemma_recursive_round_conserves_cards(
    deck_1: Seq<i32>,
    deck_2: Seq<i32>,
    seen: Set<Position>,
)
    ensures
        match recursive_round(deck_1, deck_2, seen) {
            Ok(RoundView::Continue(next_1, next_2, _)) => cards_of((next_1, next_2)) == cards_of(
                (deck_1, deck_2),
            ),
            Ok(RoundView::Player1Win(deck)) => if seen.contains((deck_1, deck_2)) {
                deck == deck_1
            } else {
                cards_of((deck, Seq::empty())) == cards_of((deck_1, deck_2))
            },
            Ok(RoundView::Player2Win(deck)) => cards_of((Seq::empty(), deck)) == cards_of(
                (deck_1, deck_2),
            ),
            Err(_) => true,
        },
{
    if !seen.contains((deck_1, deck_2)) && deck_1.len() > 0 && deck_2.len() > 0 {
        if let Ok(winner) = round_winner(deck_1, deck_2) {
            lemma_round_conserves_cards(deck_1, deck_2, winner);
            let next = award(deck_1, deck_2, winner);
            if next.0.len() == 0 {
                assert(next.0 =~= Seq::empty());
            }
            if next.1.len() == 0 {
                assert(next.1 =~= Seq::empty());
            }
        }
    }
}

/// Cycle short-circuit: at a position that the game has met before, no
/// round is played, and player 1 wins with the deck as it stands.
pub proof fn lemma_repeat_wins_for_player_1(deck_1: Seq<i32>, deck_2: Seq<i32>, seen: Set<Position>)
    requires
        seen.contains((deck_1, deck_2)),
    ensures
        recursive_round(deck_1, deck_2, seen) == Ok::<RoundView, GameError>(
            RoundView::Player1Win(deck_1),
        ),
        history_of(seen, deck_1.len() + deck_2.len()) ==> play(deck_1, deck_2, seen) == Ok::<
            GameOutcome,
            GameError,
        >(GameOutcome::Player1Wins(deck_1)),
{
}

/// Scope isolation: the positions that a game has met decide only whether
/// the position at hand is one of them. Where it is not, the round goes the
/// same way whatever was met, and the sub-game that decides it starts with
/// nothing met.
pub proof fn lemma_round_apart_from_history(
    deck_1: Seq<i32>,
    deck_2: Seq<i32>,
    seen_a: Set<Position>,
    seen_b: Set<Position>,
)
    requires
        !seen_a.contains((deck_1, deck_2)),
        !seen_b.contains((deck_1, deck_2)),
    ensures
        match recursive_round(deck_1, deck_2, seen_a) {
            Ok(RoundView::Continue(next_1, next_2, met)) => {
                &&& met == seen_a.insert((deck_1, deck_2))
                &&& recursive_round(deck_1, deck_2, seen_b) == Ok::<RoundView, GameError>(
                    RoundView::Continue(next_1, next_2, seen_b.insert((deck_1, deck_2))),
                )
            },
            end => recursive_round(deck_1, deck_2, seen_b) == end,
        },
{
}

/// A game between valid decks ends with a valid deck in the winner's hand,
/// of no more cards than were in play and of no card higher than the
/// highest in play.
pub proof fn lemma_game_keeps_valid(
    deck_1: Seq<i32>,
    deck_2: Seq<i32>,
    seen: Set<Position>,
    top: int,
)
    requires
        history_of(seen, deck_1.len() + deck_2.len()),
        valid_deck(deck_1),
        valid_deck(deck_2),
        cards_at_most(deck_1, top),
        cards_at_most(deck_2, top),
    ensures
        play(deck_1, deck_2, seen) matches Ok(outcome) ==> {
            &&& valid_deck(outcome.deck())
            &&& cards_at_most(outcome.deck(), top)
            &&& outcome.deck().len() <= deck_1.len() + deck_2.len()
        },
    decreases deck_1.len() + deck_2.len(),
        1 + position_count(deck_1.len() + deck_2.len()) - seen.len(),
{
    let winner = round_winner(deck_1, deck_2);
    let start = (deck_1, deck_2);
    lemma_step_continues(deck_1, deck_2, seen, winner);
    lemma_recursive_round_conserves_cards(deck_1, deck_2, seen);
    lemma_cards_of_len(start);
    match step(deck_1, deck_2, seen, winner) {
        Ok(RoundView::Continue(next_1, next_2, met)) => {
            lemma_same_cards_valid((next_1, next_2), start);
            lemma_same_cards_at_most((next_1, next_2), start, top);
            lemma_game_keeps_valid(next_1, next_2, met, top);
        },
        Ok(RoundView::Player1Win(deck)) => {
            if !seen.contains(start) {
                lemma_same_cards_valid((deck, Seq::empty()), start);
                lemma_same_cards_at_most((deck, Seq::empty()), start, top);
                lemma_cards_of_len((deck, Seq::empty()));
            }
        },
        Ok(RoundView::Player2Win(deck)) => {
            lemma_same_cards_valid((Seq::empty(), deck), start);
            lemma_same_cards_at_most((Seq::empty(), deck), start, top);
            lemma_cards_of_len((Seq::empty(), deck));
        },
        Err(_) => {},
    }
}

/// The score of a game of Recursive Combat between valid decks is bounded by
/// the number of cards in play and the highest of them.
pub proof fn lemma_recursive_score_bound(deck_1: Seq<i32>, deck_2: Seq<i32>, top: int)
    requires
        valid_deck(deck_1),
        valid_deck(deck_2),
        cards_at_most(deck_1, top),
        cards_at_most(deck_2, top),
        top >= 0,
    ensures
        recursive_score(deck_1, deck_2) matches Ok(points) ==> 0 <= 2 * points <= (deck_1.len()
            + deck_2.len()) * (deck_1.len() + deck_2.len() + 1) * top,
{
    lemma_game_keeps_valid(deck_1, deck_2, Set::empty(), top);
    if let Ok(outcome) = recursive_game(deck_1, deck_2) {
        lemma_score_bound_of_fewer(outcome.deck(), top, deck_1.len() + deck_2.len());
    }
}

/// Decks as a pack of cards deals them: each player holds a card, every card
/// is a positive integer, and no two cards are equal.
pub open spec fn well_dealt(deck_1: Seq<i32>, deck_2: Seq<i32>) -> bool {
    &&& deck_1.len() > 0
    &&& deck_2.len() > 0
    &&& valid_deck(deck_1)
    &&& valid_deck(deck_2)
    &&& (deck_1 + deck_2).no_duplicates()
}

/// The decks that go into a sub-game are well dealt if the decks of the
/// game are.
proof fn lemma_sub_game_well_dealt(deck_1: Seq<i32>, deck_2: Seq<i32>)
    requires
        well_dealt(deck_1, deck_2),
        recurses(deck_1, deck_2),
    ensures
        well_dealt(sub_deck(deck_1), sub_deck(deck_2)),
{
    let sub_1 = sub_deck(deck_1);
    let sub_2 = sub_deck(deck_2);
    let all = deck_1 + deck_2;
    let sub = sub_1 + sub_2;
    assert forall|i: int, j: int| 0 <= i < j < sub.len() implies sub[i] != sub[j] by {
        let from_i = if i < sub_1.len() {
            1 + i
        } else {
            deck_1.len() + 1 + i - sub_1.len()
        };
        let from_j = if j < sub_1.len() {
            1 + j
        } else {
            deck_1.len() + 1 + j - sub_1.len()
        };
        assert(sub[i] == all[from_i]);
        assert(sub[j] == all[from_j]);
    }
}

/// A game of Recursive Combat between well dealt decks has a winner: no
/// player is left without a card to draw, and no two equal cards meet.
pub proof fn lemma_well_dealt_game_has_winner(
    deck_1: Seq<i32>,
    deck_2: Seq<i32>,
    seen: Set<Position>,
)
    requires
        history_of(seen, deck_1.len() + deck_2.len()),
        well_dealt(deck_1, deck_2),
    ensures
        play(deck_1, deck_2, seen) is Ok,
    decreases deck_1.len() + deck_2.len(),
        1 + position_count(deck_1.len() + deck_2.len()) - seen.len(),
{
    let winner = round_winner(deck_1, deck_2);
    if recurses(deck_1, deck_2) {
        lemma_sub_game_well_dealt(deck_1, deck_2);
        lemma_well_dealt_game_has_winner(sub_deck(deck_1), sub_deck(deck_2), Set::empty());
    } else {
        assert((deck_1 + deck_2)[0] == deck_1[0]);
        assert((deck_1 + deck_2)[deck_1.len() as int] == deck_2[0]);
    }
    lemma_step_continues(deck_1, deck_2, seen, winner);
    lemma_recursive_round_conserves_cards(deck_1, deck_2, seen);
    if let Ok(RoundView::Continue(next_1, next_2, met)) = step(deck_1, deck_2, seen, winner) {
        lemma_same_cards_valid((next_1, next_2), (deck_1, deck_2));
        lemma_same_cards_distinct((next_1, next_2), (deck_1, deck_2));
        lemma_well_dealt_game_has_winner(next_1, next_2, met);
    }
}

} // verus!
