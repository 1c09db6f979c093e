//! Positions of a game, and a bound on how many of them there are.
//!
//! A game that never meets the same position twice must end, because only
//! finitely many positions hold a given number of cards. This module proves
//! the counting argument behind that: the positions of `n` cards are numbered
//! without repetition below `position_count(n)`.

use vstd::prelude::*;
use vstd::relations::injective_on;
use vstd::set_lib::*;

verus! {

/// A position: the two decks at the start of a round, player 1's first.
pub type Position = (Seq<i32>, Seq<i32>);

/// The number of cards that the two decks of a position hold together.
pub open spec fn cards_in_play(p: Position) -> nat {
    p.0.len() + p.1.len()
}

/// The number of values that a card can take.
pub open spec fn card_values() -> nat {
    0x1_0000_0000
}

/// The number of decks of `n` cards.
pub open spec fn deck_count(n: nat) -> nat
    decreases n,
{
    if n == 0 {
        1
    } else {
        card_values() * deck_count((n - 1) as nat)
    }
}

/// An upper bound on the number of positions of `n` cards: such a position is
/// a row of `n` cards, cut into two decks at one of `n + 1` places.
pub open spec fn position_count(n: nat) -> nat {
    (n + 1) * deck_count(n)
}

/// The positions met so far in one game: finitely many, each of `n` cards.
pub open spec fn history_of(seen: Set<Position>, n: nat) -> bool {
    &&& seen.finite()
    &&& forall|p: Position| seen.contains(p) ==> cards_in_play(p) == n
}

/// The place of a deck among the decks of its length, reading the cards as
/// digits with the front card least significant.
spec fn deck_number(deck: Seq<i32>) -> nat
    decreases deck.len(),
{
    if deck.len() == 0 {
        0
    } else {
        ((deck[0] - i32::MIN) + card_values() * deck_number(deck.drop_first())) as nat
    }
}

/// The place of a position among the positions of as many cards.
spec fn position_number(p: Position) -> nat {
    p.0.len() + (cards_in_play(p) + 1) * deck_number(p.0 + p.1)
}

proof fn lemma_deck_number_bound(deck: Seq<i32>)
    ensures
        deck_number(deck) < deck_count(deck.len()),
    decreases deck.len(),
{
    if deck.len() > 0 {
        lemma_deck_number_bound(deck.drop_first());
    }
}

proof fn lemma_deck_number_injective(a: Seq<i32>, b: Seq<i32>)
    requires
        a.len() == b.len(),
        deck_number(a) == deck_number(b),
    ensures
        a == b,
    decreases a.len(),
{
    if a.len() > 0 {
        let x = deck_number(a.drop_first());
        let y = deck_number(b.drop_first());
        assert(x == y && a[0] == b[0]) by {
            assert((a[0] - i32::MIN) + 0x1_0000_0000 * x == (b[0] - i32::MIN) + 0x1_0000_0000 * y);
        }
        lemma_deck_number_injective(a.drop_first(), b.drop_first());
        assert(a =~= seq![a[0]] + a.drop_first());
        assert(b =~= seq![b[0]] + b.drop_first());
    }
    assert(a =~= b);
}

proof fn lemma_position_number_bound(p: Position)
    ensures
        position_number(p) < position_count(cards_in_play(p)),
{
    let n = cards_in_play(p);
    let row = p.0 + p.1;
    lemma_deck_number_bound(row);
    assert((n + 1) * deck_number(row) + (n + 1) <= (n + 1) * deck_count(n)) by (nonlinear_arith)
        requires
            deck_number(row) < deck_count(n),
    ;
}

proof fn lemma_position_number_injective(p: Position, q: Position)
    requires
        cards_in_play(p) == cards_in_play(q),
        position_number(p) == position_number(q),
    ensures
        p == q,
{
    let n = cards_in_play(p);
    let x = deck_number(p.0 + p.1);
    let y = deck_number(q.0 + q.1);
    assert(x == y && p.0.len() == q.0.len()) by (nonlinear_arith)
        requires
            p.0.len() + (n + 1) * x == q.0.len() + (n + 1) * y,
            p.0.len() <= n,
            q.0.len() <= n,
    ;
    lemma_deck_number_injective(p.0 + p.1, q.0 + q.1);
    assert(p.0 =~= (p.0 + p.1).take(p.0.len() as int));
    assert(q.0 =~= (q.0 + q.1).take(q.0.len() as int));
    assert(p.1 =~= (p.0 + p.1).skip(p.0.len() as int));
    assert(q.1 =~= (q.0 + q.1).skip(q.0.len() as int));
}

/// No more than `position_count(n)` distinct positions of `n` cards exist, so
/// a history of them is never longer than that.
pub proof fn lemma_history_bounded(seen: Set<Position>, n: nat)
    requires
        history_of(seen, n),
    ensures
        seen.len() <= position_count(n),
{
    let number = |p: Position| position_number(p) as int;
    let numbers = seen.map(number);
    let below = set_int_range(0, position_count(n) as int);
    assert(injective_on(number, seen)) by {
        assert forall|p: Position, q: Position|
            seen.contains(p) && seen.contains(q) && #[trigger] number(p) == #[trigger] number(
                q,
            ) implies p == q by {
            lemma_position_number_injective(p, q);
        }
    }
    lemma_map_size(seen, numbers, number);
    assert(numbers.subset_of(below)) by {
        assert forall|k: int| numbers.contains(k) implies below.contains(k) by {
            let p = choose|p: Position| seen.contains(p) && number(p) == k;
            lemma_position_number_bound(p);
        }
    }
    lemma_int_range(0, position_count(n) as int);
    lemma_len_subset(numbers, below);
}

} // verus!
