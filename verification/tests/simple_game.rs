use combat::{game, game_ends, part_1, round, GameError, RoundOutcome};
use std::collections::VecDeque;

fn deck(cards: &[i32]) -> VecDeque<i32> {
    cards.iter().copied().collect()
}

fn cards(deck: &VecDeque<i32>) -> Vec<i32> {
    deck.iter().copied().collect()
}

#[test]
fn round_goes_to_the_higher_card_of_player_1() {
    let mut player_1 = deck(&[9, 2, 6, 3, 1]);
    let mut player_2 = deck(&[5, 8, 4, 7, 10]);
    assert_eq!(round(&mut player_1, &mut player_2), Ok(RoundOutcome::Player1WinsRound));
    assert_eq!(cards(&player_1), vec![2, 6, 3, 1, 9, 5]);
    assert_eq!(cards(&player_2), vec![8, 4, 7, 10]);
}

#[test]
fn round_goes_to_the_higher_card_of_player_2() {
    let mut player_1 = deck(&[2, 6, 3, 1, 9, 5]);
    let mut player_2 = deck(&[8, 4, 7, 10]);
    assert_eq!(round(&mut player_1, &mut player_2), Ok(RoundOutcome::Player2WinsRound));
    assert_eq!(cards(&player_1), vec![6, 3, 1, 9, 5]);
    assert_eq!(cards(&player_2), vec![4, 7, 10, 8, 2]);
}

#[test]
fn round_puts_the_winners_card_before_the_losers() {
    let mut player_1 = deck(&[3]);
    let mut player_2 = deck(&[7]);
    assert_eq!(round(&mut player_1, &mut player_2), Ok(RoundOutcome::Player2WinsRound));
    assert_eq!(cards(&player_1), Vec::<i32>::new());
    assert_eq!(cards(&player_2), vec![7, 3]);

    let mut player_1 = deck(&[7, 1]);
    let mut player_2 = deck(&[3, 2]);
    assert_eq!(round(&mut player_1, &mut player_2), Ok(RoundOutcome::Player1WinsRound));
    assert_eq!(cards(&player_1), vec![1, 7, 3]);
    assert_eq!(cards(&player_2), vec![2]);
}

#[test]
fn round_keeps_the_number_of_cards() {
    let mut player_1 = deck(&[4, 11, 6, 20]);
    let mut player_2 = deck(&[17, 5, 1]);
    for _ in 0..5 {
        let before = player_1.len() + player_2.len();
        assert!(round(&mut player_1, &mut player_2).is_ok());
        assert_eq!(player_1.len() + player_2.len(), before);
    }
}

#[test]
fn round_between_equal_cards_is_a_tie() {
    let mut player_1 = deck(&[5, 1]);
    let mut player_2 = deck(&[5, 2]);
    assert_eq!(round(&mut player_1, &mut player_2), Err(GameError::Tie));
    assert_eq!(cards(&player_1), vec![5, 1]);
    assert_eq!(cards(&player_2), vec![5, 2]);
}

#[test]
fn round_from_an_empty_deck_fails() {
    let mut player_1 = deck(&[]);
    let mut player_2 = deck(&[5, 2]);
    assert_eq!(round(&mut player_1, &mut player_2), Err(GameError::EmptyDeck));
    assert_eq!(cards(&player_2), vec![5, 2]);

    let mut player_1 = deck(&[4]);
    let mut player_2 = deck(&[]);
    assert_eq!(round(&mut player_1, &mut player_2), Err(GameError::EmptyDeck));
    assert_eq!(cards(&player_1), vec![4]);

    let mut player_1 = deck(&[]);
    let mut player_2 = deck(&[]);
    assert_eq!(round(&mut player_1, &mut player_2), Err(GameError::EmptyDeck));
}

#[test]
fn game_plays_the_sample_to_its_end() {
    let mut player_1 = deck(&[9, 2, 6, 3, 1]);
    let mut player_2 = deck(&[5, 8, 4, 7, 10]);
    assert!(game_ends(&player_1, &player_2));
    assert_eq!(game(&mut player_1, &mut player_2), Ok(()));
    assert_eq!(cards(&player_1), Vec::<i32>::new());
    assert_eq!(cards(&player_2), vec![3, 2, 10, 6, 8, 5, 9, 4, 7, 1]);
}

#[test]
fn game_leaves_exactly_one_deck_empty() {
    let starts: [(&[i32], &[i32]); 4] = [
        (&[9, 2, 6, 3, 1], &[5, 8, 4, 7, 10]),
        (&[1], &[2]),
        (&[8, 3, 5], &[7, 2, 6, 1]),
        (&[4, 11, 6, 20], &[17, 5, 1]),
    ];
    for (first, second) in starts {
        let mut player_1 = deck(first);
        let mut player_2 = deck(second);
        assert!(game_ends(&player_1, &player_2));
        assert_eq!(game(&mut player_1, &mut player_2), Ok(()));
        assert!(player_1.is_empty() != player_2.is_empty());
        assert_eq!(player_1.len() + player_2.len(), first.len() + second.len());
    }
}

#[test]
fn game_with_an_empty_deck_plays_no_round() {
    let mut player_1 = deck(&[]);
    let mut player_2 = deck(&[3, 1]);
    assert!(game_ends(&player_1, &player_2));
    assert_eq!(game(&mut player_1, &mut player_2), Ok(()));
    assert_eq!(cards(&player_2), vec![3, 1]);

    let mut player_1 = deck(&[]);
    let mut player_2 = deck(&[]);
    assert!(game_ends(&player_1, &player_2));
    assert_eq!(game(&mut player_1, &mut player_2), Ok(()));
}

#[test]
fn game_stops_at_a_tie() {
    let mut player_1 = deck(&[3, 1]);
    let mut player_2 = deck(&[2, 1]);
    assert!(game_ends(&player_1, &player_2));
    assert_eq!(game(&mut player_1, &mut player_2), Err(GameError::Tie));
    assert_eq!(cards(&player_1), vec![1, 3, 2]);
    assert_eq!(cards(&player_2), vec![1]);
}

#[test]
fn game_ends_tells_a_game_that_comes_back_to_its_start() {
    let player_1 = deck(&[43, 19]);
    let player_2 = deck(&[2, 29, 14]);
    assert!(!game_ends(&player_1, &player_2));
    assert_eq!(cards(&player_1), vec![43, 19]);
    assert_eq!(cards(&player_2), vec![2, 29, 14]);
}

#[test]
fn game_ends_tells_a_game_that_comes_back_to_a_later_position() {
    let player_1 = deck(&[10, 1, 2]);
    let player_2 = deck(&[3, 4]);
    assert!(!game_ends(&player_1, &player_2));
}

#[test]
fn six_rounds_lead_back_to_the_start() {
    let mut player_1 = deck(&[43, 19]);
    let mut player_2 = deck(&[2, 29, 14]);
    for played in 1..=6 {
        assert!(round(&mut player_1, &mut player_2).is_ok());
        let back = cards(&player_1) == vec![43, 19] && cards(&player_2) == vec![2, 29, 14];
        assert_eq!(back, played == 6);
    }
}

#[test]
fn part_1_scores_the_sample() {
    let mut player_1 = deck(&[9, 2, 6, 3, 1]);
    let mut player_2 = deck(&[5, 8, 4, 7, 10]);
    assert_eq!(part_1(&mut player_1, &mut player_2), Ok(306));
    assert!(player_1.is_empty());
    assert_eq!(cards(&player_2), vec![3, 2, 10, 6, 8, 5, 9, 4, 7, 1]);
}

#[test]
fn part_1_scores_player_1_when_player_1_wins() {
    let mut player_1 = deck(&[5, 4]);
    let mut player_2 = deck(&[1]);
    assert_eq!(part_1(&mut player_1, &mut player_2), Ok(4 * 3 + 5 * 2 + 1));
    assert_eq!(cards(&player_1), vec![4, 5, 1]);
}

#[test]
fn part_1_fails_at_a_tie() {
    let mut player_1 = deck(&[3, 1]);
    let mut player_2 = deck(&[2, 1]);
    assert_eq!(part_1(&mut player_1, &mut player_2), Err(GameError::Tie));
}

#[test]
fn errors_say_what_went_wrong() {
    assert_eq!(GameError::EmptyDeck.message(), "a player has no card to draw");
    assert_eq!(GameError::Tie.message(), "the two cards drawn are equal");
    assert_ne!(GameError::EmptyDeck, GameError::Tie);
}
