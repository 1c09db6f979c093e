use combat::{game, game_2, game_ends, part_1, part_2, GameError, RoundResult};
use std::collections::{HashSet, VecDeque};

/// A small generator of numbers, the same on every run.
struct Numbers(u64);

impl Numbers {
    fn next(&mut self, below: u64) -> u64 {
        self.0 = self.0.wrapping_mul(6364136223846793005).wrapping_add(1442695040888963407);
        (self.0 >> 33) % below
    }
}

/// The cards 1 to `cards` in a shuffled order, cut into two decks.
fn deal(numbers: &mut Numbers, cards: usize) -> (Vec<i32>, Vec<i32>) {
    let mut pack: Vec<i32> = (1..=cards as i32).collect();
    for i in (1..pack.len()).rev() {
        let j = numbers.next(i as u64 + 1) as usize;
        pack.swap(i, j);
    }
    let cut = numbers.next(cards as u64 + 1) as usize;
    let second = pack.split_off(cut);
    (pack, second)
}

/// Cards that may be equal, or zero: decks on which a game can fail.
fn deal_carelessly(numbers: &mut Numbers, cards: usize) -> (Vec<i32>, Vec<i32>) {
    let pack: Vec<i32> = (0..cards).map(|_| numbers.next(5) as i32).collect();
    let cut = numbers.next(cards as u64 + 1) as usize;
    (pack[..cut].to_vec(), pack[cut..].to_vec())
}

fn points(deck: &[i32]) -> usize {
    deck.iter().rev().enumerate().map(|(i, card)| (i + 1) * *card as usize).sum()
}

/// Combat played by the book, with a watch for positions that come back.
/// `None` says that the game never ends.
fn plain_combat(
    first: &[i32],
    second: &[i32],
) -> Option<(Result<(), GameError>, Vec<i32>, Vec<i32>)> {
    let mut player_1: VecDeque<i32> = first.iter().copied().collect();
    let mut player_2: VecDeque<i32> = second.iter().copied().collect();
    let mut seen = HashSet::new();
    while !player_1.is_empty() && !player_2.is_empty() {
        if !seen.insert((player_1.clone(), player_2.clone())) {
            return None;
        }
        if player_1[0] == player_2[0] {
            return Some((Err(GameError::Tie), player_1.into(), player_2.into()));
        }
        let card_1 = player_1.pop_front().unwrap();
        let card_2 = player_2.pop_front().unwrap();
        if card_1 > card_2 {
            player_1.extend([card_1, card_2]);
        } else {
            player_2.extend([card_2, card_1]);
        }
    }
    Some((Ok(()), player_1.into(), player_2.into()))
}

/// Recursive Combat played by the book: the winner, 1 or 2, and their deck.
fn plain_recursive_combat(first: &[i32], second: &[i32]) -> Result<(u8, Vec<i32>), GameError> {
    let mut player_1: VecDeque<i32> = first.iter().copied().collect();
    let mut player_2: VecDeque<i32> = second.iter().copied().collect();
    let mut seen = HashSet::new();
    loop {
        if !seen.insert((player_1.clone(), player_2.clone())) {
            return Ok((1, player_1.into()));
        }
        let card_1 = player_1.pop_front().ok_or(GameError::EmptyDeck)?;
        let card_2 = player_2.pop_front().ok_or(GameError::EmptyDeck)?;
        let enough = card_1 >= 0
            && card_2 >= 0
            && player_1.len() >= card_1 as usize
            && player_2.len() >= card_2 as usize;
        let player_1_takes = if enough {
            let sub_1: Vec<i32> = player_1.iter().take(card_1 as usize).copied().collect();
            let sub_2: Vec<i32> = player_2.iter().take(card_2 as usize).copied().collect();
            plain_recursive_combat(&sub_1, &sub_2)?.0 == 1
        } else if card_1 == card_2 {
            return Err(GameError::Tie);
        } else {
            card_1 > card_2
        };
        if player_1_takes {
            player_1.extend([card_1, card_2]);
            if player_2.is_empty() {
                return Ok((1, player_1.into()));
            }
        } else {
            player_2.extend([card_2, card_1]);
            if player_1.is_empty() {
                return Ok((2, player_2.into()));
            }
        }
    }
}

fn ended(end: Result<RoundResult, GameError>) -> Result<(u8, Vec<i32>), GameError> {
    match end {
        Ok(RoundResult::Player1Win(deck)) => Ok((1, deck.into())),
        Ok(RoundResult::Player2Win(deck)) => Ok((2, deck.into())),
        Ok(RoundResult::Continue(_, _, _)) => panic!("the game has not ended"),
        Err(e) => Err(e),
    }
}

fn compare_combat(first: &[i32], second: &[i32], scored: bool) {
    let expected = plain_combat(first, second);
    let mut player_1: VecDeque<i32> = first.iter().copied().collect();
    let mut player_2: VecDeque<i32> = second.iter().copied().collect();
    assert_eq!(game_ends(&player_1, &player_2), expected.is_some(), "{:?} {:?}", first, second);
    if let Some((result, end_1, end_2)) = expected {
        assert_eq!(game(&mut player_1, &mut player_2), result, "{:?} {:?}", first, second);
        assert_eq!(Vec::from(player_1), end_1, "{:?} {:?}", first, second);
        assert_eq!(Vec::from(player_2), end_2, "{:?} {:?}", first, second);
        if scored {
            let mut player_1: VecDeque<i32> = first.iter().copied().collect();
            let mut player_2: VecDeque<i32> = second.iter().copied().collect();
            let winner = if end_1.is_empty() { &end_2 } else { &end_1 };
            assert_eq!(part_1(&mut player_1, &mut player_2), result.map(|_| points(winner)));
        }
    }
}

fn compare_recursive_combat(first: &[i32], second: &[i32], scored: bool) {
    let expected = plain_recursive_combat(first, second);
    let player_1: VecDeque<i32> = first.iter().copied().collect();
    let player_2: VecDeque<i32> = second.iter().copied().collect();
    let end = ended(game_2(player_1.clone(), player_2.clone()));
    assert_eq!(end, expected, "{:?} {:?}", first, second);
    if scored {
        assert_eq!(part_2(player_1, player_2), expected.map(|(_, deck)| points(&deck)));
    }
}

#[test]
fn combat_agrees_with_a_plain_game_on_dealt_decks() {
    let mut numbers = Numbers(22);
    let mut endless = 0;
    for round in 0..400 {
        let (first, second) = deal(&mut numbers, round % 11);
        if plain_combat(&first, &second).is_none() {
            endless += 1;
        }
        compare_combat(&first, &second, true);
    }
    assert!(endless > 0);
}

#[test]
fn combat_agrees_with_a_plain_game_on_careless_decks() {
    let mut numbers = Numbers(2020);
    let mut ties = 0;
    for round in 0..400 {
        let (first, second) = deal_carelessly(&mut numbers, round % 9);
        if let Some((Err(_), _, _)) = plain_combat(&first, &second) {
            ties += 1;
        }
        compare_combat(&first, &second, false);
    }
    assert!(ties > 0);
}

#[test]
fn recursive_combat_agrees_with_a_plain_game_on_dealt_decks() {
    let mut numbers = Numbers(12);
    let mut games_for_player_2 = 0;
    for round in 0..400 {
        let (first, second) = deal(&mut numbers, 1 + round % 12);
        let expected = plain_recursive_combat(&first, &second);
        if first.is_empty() || second.is_empty() {
            assert_eq!(expected, Err(GameError::EmptyDeck));
            compare_recursive_combat(&first, &second, false);
        } else {
            assert!(expected.is_ok());
            if let Ok((2, _)) = expected {
                games_for_player_2 += 1;
            }
            compare_recursive_combat(&first, &second, true);
        }
    }
    assert!(games_for_player_2 > 0);
}

#[test]
fn recursive_combat_agrees_with_a_plain_game_on_careless_decks() {
    let mut numbers = Numbers(7);
    let mut failed = 0;
    for round in 0..400 {
        let (first, second) = deal_carelessly(&mut numbers, round % 9);
        if plain_recursive_combat(&first, &second).is_err() {
            failed += 1;
        }
        compare_recursive_combat(&first, &second, false);
    }
    assert!(failed > 0);
}

#[test]
fn recursive_combat_on_a_full_pack() {
    let mut numbers = Numbers(50);
    for _ in 0..3 {
        let mut pack: Vec<i32> = (1..=50).collect();
        for i in (1..pack.len()).rev() {
            let j = numbers.next(i as u64 + 1) as usize;
            pack.swap(i, j);
        }
        let second = pack.split_off(25);
        compare_recursive_combat(&pack, &second, true);
    }
}
