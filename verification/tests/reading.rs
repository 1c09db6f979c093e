use combat::{parse_card, part_1, part_2, read_decks};
use std::collections::VecDeque;

fn cards(deck: &VecDeque<i32>) -> Vec<i32> {
    deck.iter().copied().collect()
}

const SAMPLE: &str = "Player 1:\n9\n2\n6\n3\n1\n\nPlayer 2:\n5\n8\n4\n7\n10\n";

#[test]
fn read_decks_reads_the_sample() {
    let lines: Vec<&str> = SAMPLE.lines().collect();
    let (player_1, player_2) = read_decks(&lines);
    assert_eq!(cards(&player_1), vec![9, 2, 6, 3, 1]);
    assert_eq!(cards(&player_2), vec![5, 8, 4, 7, 10]);
}

#[test]
fn read_decks_passes_over_lines_that_are_no_numbers() {
    let lines = ["Player 1:", "4", "four", " 5", "6 ", "0x10", "7", "", "Player 2:", "1.5", "8"];
    let (player_1, player_2) = read_decks(&lines);
    assert_eq!(cards(&player_1), vec![4, 7]);
    assert_eq!(cards(&player_2), vec![8]);
}

#[test]
fn read_decks_needs_no_headers() {
    let lines = ["3", "1", "", "2"];
    let (player_1, player_2) = read_decks(&lines);
    assert_eq!(cards(&player_1), vec![3, 1]);
    assert_eq!(cards(&player_2), vec![2]);
}

#[test]
fn read_decks_passes_over_a_header_anywhere() {
    let lines = ["1", "Player 7", "Players", "2", "", "3", "Player", "4"];
    let (player_1, player_2) = read_decks(&lines);
    assert_eq!(cards(&player_1), vec![1, 2]);
    assert_eq!(cards(&player_2), vec![3, 4]);
}

#[test]
fn read_decks_gives_all_cards_to_player_1_without_a_blank_line() {
    let lines = ["Player 1:", "3", "Player 2:", "2"];
    let (player_1, player_2) = read_decks(&lines);
    assert_eq!(cards(&player_1), vec![3, 2]);
    assert_eq!(cards(&player_2), Vec::<i32>::new());
}

#[test]
fn read_decks_stays_with_player_2_after_a_second_blank_line() {
    let lines = ["1", "", "2", "", "3", "", ""];
    let (player_1, player_2) = read_decks(&lines);
    assert_eq!(cards(&player_1), vec![1]);
    assert_eq!(cards(&player_2), vec![2, 3]);
}

#[test]
fn read_decks_starts_with_player_2_after_a_leading_blank_line() {
    let lines = ["", "1", "2"];
    let (player_1, player_2) = read_decks(&lines);
    assert_eq!(cards(&player_1), Vec::<i32>::new());
    assert_eq!(cards(&player_2), vec![1, 2]);
}

#[test]
fn read_decks_of_no_lines() {
    let lines: [&str; 0] = [];
    let (player_1, player_2) = read_decks(&lines);
    assert!(player_1.is_empty());
    assert!(player_2.is_empty());
}

#[test]
fn read_decks_keeps_signs_and_zero() {
    let lines = ["+5", "-3", "0", "-0", "007", "", "-2147483648", "2147483647"];
    let (player_1, player_2) = read_decks(&lines);
    assert_eq!(cards(&player_1), vec![5, -3, 0, 0, 7]);
    assert_eq!(cards(&player_2), vec![i32::MIN, i32::MAX]);
}

#[test]
fn read_decks_passes_over_numbers_too_large_for_a_card() {
    let lines = ["2147483648", "1", "-2147483649", "99999999999999999999999", "2"];
    let (player_1, _) = read_decks(&lines);
    assert_eq!(cards(&player_1), vec![1, 2]);
}

#[test]
fn parse_card_reads_what_the_standard_parser_reads() {
    let lines = [
        "", "+", "-", "0", "-0", "+0", "12", "+12", "-12", "--1", "+-1", "1-", "1+1", " 1", "1 ",
        "1_000", "0000000000000000000012", "2147483647", "2147483648", "-2147483648",
        "-2147483649", "4294967296", "18446744073709551617", "Player 1:", "x", "1x", "٣", "1e3",
    ];
    for line in lines {
        assert_eq!(parse_card(line), line.parse::<i32>().ok(), "line {:?}", line);
    }
}

#[test]
fn parse_card_values() {
    assert_eq!(parse_card("42"), Some(42));
    assert_eq!(parse_card("-42"), Some(-42));
    assert_eq!(parse_card("+42"), Some(42));
    assert_eq!(parse_card("forty-two"), None);
    assert_eq!(parse_card(""), None);
}

#[test]
fn both_parts_on_the_sample_list() {
    let lines: Vec<&str> = SAMPLE.lines().collect();
    let (mut player_1, mut player_2) = read_decks(&lines);
    assert_eq!(part_1(&mut player_1, &mut player_2), Ok(306));
    let (player_1, player_2) = read_decks(&lines);
    assert_eq!(part_2(player_1, player_2), Ok(291));
}
