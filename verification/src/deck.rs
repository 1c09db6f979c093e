//! Decks: what makes one valid, and the operations that the engines need
//! besides drawing a card and putting one at the back.
//!
//! A deck is a `VecDeque<i32>` whose front is the next card to play. Its
//! view, a `Seq<i32>` with the front card at index 0, is what the rules of
//! both games speak of.

use std::collections::VecDeque;
use vstd::prelude::*;

verus! {

/// A deck is valid when every card is a positive integer.
pub open spec fn valid_deck(deck: Seq<i32>) -> bool {
    forall|i: int| 0 <= i < deck.len() ==> deck[i] > 0
}

/// Whether no card of the deck is higher than `top`.
pub open spec fn cards_at_most(deck: Seq<i32>, top: int) -> bool {
    forall|i: int| 0 <= i < deck.len() ==> deck[i] <= top
}

/// Whether two decks hold the same cards in the same order.
pub fn same_deck(a: &VecDeque<i32>, b: &VecDeque<i32>) -> (same: bool)
    ensures
        same == (a@ == b@),
{
    let n: usize = a.len();
    if b.len() != n {
        return false;
    }
    let mut i: usize = 0;
    while i < n
        invariant
            n == a@.len(),
            n == b@.len(),
            i <= n,
            forall|k: int| 0 <= k < i ==> a@[k] == b@[k],
        decreases n - i,
    {
        if a[i] != b[i] {
            return false;
        }
        i = i + 1;
    }
    assert(a@ =~= b@);
    true
}

/// A new deck that holds the first `count` cards of `deck`, in their order,
/// or all of them if there are fewer.
pub fn copy_front(deck: &VecDeque<i32>, count: usize) -> (copy: VecDeque<i32>)
    ensures
        copy@ == deck@.take(
            if count <= deck@.len() {
                count as int
            } else {
                deck@.len() as int
            },
        ),
{
    let n: usize = if count <= deck.len() {
        count
    } else {
        deck.len()
    };
    let mut copy: VecDeque<i32> = VecDeque::new();
    let mut i: usize = 0;
    while i < n
        invariant
            i <= n <= deck@.len(),
            copy@ == deck@.take(i as int),
        decreases n - i,
    {
        copy.push_back(deck[i]);
        assert(deck@.take(i as int).push(deck@[i as int]) =~= deck@.take(i + 1));
        i = i + 1;
    }
    copy
}

/// A new deck that holds the cards of `deck`, in their order.
pub fn copy_deck(deck: &VecDeque<i32>) -> (copy: VecDeque<i32>)
    ensures
        copy@ == deck@,
{
    assert(deck@.take(deck@.len() as int) =~= deck@);
    copy_front(deck, deck.len())
}

} // verus!
