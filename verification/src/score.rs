//! The weighted checksum of a deck.

use crate::deck::{cards_at_most, valid_deck};
use std::collections::VecDeque;
use vstd::prelude::*;

verus! {

/// The score of a deck: the back card counts once, the card before it twice,
/// and so on, so that the front card is weighted by the size of the deck.
pub open spec fn score_spec(deck: Seq<i32>) -> int
    decreases deck.len(),
{
    if deck.len() == 0 {
        0
    } else {
        deck.len() * deck[0] + score_spec(deck.drop_first())
    }
}

/// The score of a valid deck is never negative.
pub proof fn lemma_score_nonnegative(deck: Seq<i32>)
    requires
        valid_deck(deck),
    ensures
        score_spec(deck) >= 0,
    decreases deck.len(),
{
    if deck.len() > 0 {
        lemma_score_nonnegative(deck.drop_first());
        assert(deck.len() * deck[0] >= 0) by (nonlinear_arith)
            requires
                deck.len() >= 0,
                deck[0] > 0,
        ;
    }
}

/// The score of a valid deck is bounded by its size and its highest card:
/// no card counts for more than the highest card at the front of the deck
/// would.
pub proof fn lemma_score_bound(deck: Seq<i32>, top: int)
    requires
        valid_deck(deck),
        cards_at_most(deck, top),
    ensures
        2 * score_spec(deck) <= deck.len() * (deck.len() + 1) * top,
    decreases deck.len(),
{
    if deck.len() > 0 {
        let rest = deck.drop_first();
        lemma_score_bound(rest, top);
        let n = deck.len();
        assert(2 * (n * deck[0]) + (n - 1) * n * top <= n * (n + 1) * top) by (nonlinear_arith)
            requires
                n > 0,
                0 < deck[0] <= top,
        ;
    } else {
        assert(deck.len() * (deck.len() + 1) * top == 0) by (nonlinear_arith)
            requires
                deck.len() == 0,
        ;
    }
}

/// The bound on the score of a deck holds of a deck of fewer cards too.
pub proof fn lemma_score_bound_of_fewer(deck: Seq<i32>, top: int, cards: nat)
    requires
        valid_deck(deck),
        cards_at_most(deck, top),
        deck.len() <= cards,
        top >= 0,
    ensures
        0 <= 2 * score_spec(deck) <= cards * (cards + 1) * top,
{
    lemma_score_bound(deck, top);
    lemma_score_nonnegative(deck);
    if deck.len() > 0 {
        assert(deck[0] <= top);
        let n = deck.len();
        assert(n * (n + 1) * top <= cards * (cards + 1) * top) by (nonlinear_arith)
            requires
                0 <= n <= cards,
                top > 0,
        ;
    } else {
        assert(cards * (cards + 1) * top >= 0) by (nonlinear_arith)
            requires
                cards >= 0,
                top >= 0,
        ;
    }
}

/// Computes the score of a deck. The deck must be valid and its score fit
/// the result; `lemma_score_bound` bounds the score by the size of the deck.
pub fn score(player: &VecDeque<i32>) -> (total: usize)
    requires
        valid_deck(player@),
        score_spec(player@) <= usize::MAX,
    ensures
        total == score_spec(player@),
{
    let n: usize = player.len();
    let mut total: usize = 0;
    let mut i: usize = 0;
    assert(player@.skip(0) =~= player@);
    while i < n
        invariant
            n == player@.len(),
            i <= n,
            valid_deck(player@),
            score_spec(player@) <= usize::MAX,
            total + score_spec(player@.skip(i as int)) == score_spec(player@),
        decreases n - i,
    {
        let card: i32 = player[i];
        proof {
            let rest = player@.skip(i as int);
            assert(rest.drop_first() =~= player@.skip(i + 1));
            assert(rest[0] == card);
            assert(valid_deck(rest.drop_first()));
            lemma_score_nonnegative(rest.drop_first());
            assert((n - i) * card >= 0) by (nonlinear_arith)
                requires
                    n - i > 0,
                    card > 0,
            ;
        }
        total = total + (n - i) * (card as usize);
        i = i + 1;
    }
    total
}

} // verus!
