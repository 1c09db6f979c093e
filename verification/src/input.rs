//! The two decks as a list of lines.
//!
//! A list names the cards of player 1, one to a line, then after a blank line
//! those of player 2. The first card listed is the front of the deck. Lines
//! that begin with `Player` head the sections, and any line that is not a
//! number is passed over.

use std::collections::VecDeque;
use vstd::prelude::*;
use vstd::string::StringSliceAdditionalSpecFns;

verus! {

/// The byte of the digit `0`.
pub const ZERO: u8 = 48;

/// The byte of the digit `9`.
pub const NINE: u8 = 57;

/// The byte of the sign `+`.
pub const PLUS: u8 = 43;

/// The byte of the sign `-`.
pub const MINUS: u8 = 45;

/// The bytes of the word `Player`.
pub open spec fn header_word() -> Seq<u8> {
    seq![80u8, 108u8, 97u8, 121u8, 101u8, 114u8]
}

/// Whether a line heads a section: it begins with the word `Player`.
pub open spec fn is_header(line: Seq<u8>) -> bool {
    line.len() >= 6 && line.take(6) == header_word()
}

/// Whether a byte is a decimal digit.
pub open spec fn is_digit(byte: u8) -> bool {
    ZERO <= byte <= NINE
}

/// Whether every byte is a decimal digit.
pub open spec fn all_digits(bytes: Seq<u8>) -> bool {
    forall|i: int| 0 <= i < bytes.len() ==> is_digit(#[trigger] bytes[i])
}

/// The number that a row of decimal digits writes.
pub open spec fn decimal(digits: Seq<u8>) -> int
    decreases digits.len(),
{
    if digits.len() == 0 {
        0
    } else {
        10 * decimal(digits.drop_last()) + (digits.last() - ZERO)
    }
}

/// The card that a line writes, if it writes one: an optional sign, `+` or
/// `-`, then one decimal digit or more and nothing else, of a value that a
/// card can take.
pub open spec fn parse_card_spec(line: Seq<u8>) -> Option<i32> {
    let negative = line.len() > 0 && line[0] == MINUS;
    let signed = line.len() > 0 && (line[0] == MINUS || line[0] == PLUS);
    let digits = if signed {
        line.drop_first()
    } else {
        line
    };
    let value = if negative {
        -decimal(digits)
    } else {
        decimal(digits)
    };
    if digits.len() > 0 && all_digits(digits) && i32::MIN <= value <= i32::MAX {
        Some(value as i32)
    } else {
        None
    }
}

/// The card that a line of the list adds to a deck, if any.
pub open spec fn card_of_line(line: Seq<u8>) -> Option<i32> {
    if is_header(line) {
        None
    } else {
        parse_card_spec(line)
    }
}

/// The cards that a run of lines adds to a deck, in the order of the lines.
pub open spec fn cards_of_lines(lines: Seq<Seq<u8>>) -> Seq<i32>
    decreases lines.len(),
{
    if lines.len() == 0 {
        Seq::empty()
    } else {
        let before = cards_of_lines(lines.drop_last());
        match card_of_line(lines.last()) {
            Some(card) => before.push(card),
            None => before,
        }
    }
}

/// The index of the first blank line, or the number of lines if none is
/// blank.
pub open spec fn first_blank(lines: Seq<Seq<u8>>) -> int
    decreases lines.len(),
{
    if lines.len() == 0 || lines[0].len() == 0 {
        0
    } else {
        1 + first_blank(lines.drop_first())
    }
}

/// The two decks that a list holds: player 1's from the lines before the
/// first blank line, player 2's from the lines after it.
pub open spec fn read_decks_spec(lines: Seq<Seq<u8>>) -> (Seq<i32>, Seq<i32>) {
    let cut = first_blank(lines);
    (cards_of_lines(lines.take(cut)), cards_of_lines(lines.skip(cut)))
}

/// The bytes of each line.
pub open spec fn bytes_of(lines: Seq<&str>) -> Seq<Seq<u8>> {
    lines.map_values(|line: &str| line.spec_bytes())
}

proof fn lemma_decimal_grows(digits: Seq<u8>, count: int)
    requires
        all_digits(digits),
        0 <= count <= digits.len(),
    ensures
        0 <= decimal(digits.take(count)) <= decimal(digits),
    decreases digits.len(),
{
    if count == digits.len() {
        assert(digits.take(count) =~= digits);
        if count > 0 {
            lemma_decimal_grows(digits.drop_last(), count - 1);
            assert(is_digit(digits.last()));
        }
    } else {
        lemma_decimal_grows(digits.drop_last(), count);
        assert(digits.drop_last().take(count) =~= digits.take(count));
        assert(is_digit(digits.last()));
    }
}

proof fn lemma_first_blank(lines: Seq<Seq<u8>>, count: int)
    requires
        0 <= count <= lines.len(),
        forall|k: int| 0 <= k < count ==> lines[k].len() > 0,
    ensures
        count <= first_blank(lines) <= lines.len(),
        count < lines.len() && lines[count].len() == 0 ==> first_blank(lines) == count,
    decreases lines.len(),
{
    if lines.len() > 0 && lines[0].len() > 0 {
        if count > 0 {
            lemma_first_blank(lines.drop_first(), count - 1);
        } else {
            lemma_first_blank(lines.drop_first(), 0);
        }
    }
}

/// Reads the card that a line writes, if it writes one.
#[verifier::loop_isolation(false)]
pub fn parse_card(line: &str) -> (card: Option<i32>)
    ensures
        card == parse_card_spec(line.spec_bytes()),
{
    let bytes = line.as_bytes();
    let n: usize = bytes.len();
    if n == 0 {
        return None;
    }
    let negative: bool = bytes[0] == MINUS;
    let start: usize = if negative || bytes[0] == PLUS {
        1
    } else {
        0
    };
    if start == n {
        return None;
    }
    let ghost digits = bytes@.skip(start as int);
    assert(bytes@.skip(0) =~= bytes@);
    assert(bytes@.skip(1) =~= bytes@.drop_first());
    assert(digits.take(0) =~= Seq::<u8>::empty());
    let mut value: i64 = 0;
    let mut i: usize = start;
    while i < n
        invariant
            start <= i <= n,
            all_digits(digits.take(i - start)),
            value == decimal(digits.take(i - start)),
            0 <= value <= 0x8000_0000,
        decreases n - i,
    {
        let byte: u8 = bytes[i];
        if byte < ZERO || byte > NINE {
            assert(!is_digit(digits[i - start]));
            return None;
        }
        proof {
            let longer = digits.take(i - start + 1);
            assert(longer.drop_last() =~= digits.take(i - start));
            assert(longer.last() == byte);
        }
        value = value * 10 + (byte - ZERO) as i64;
        i = i + 1;
        if value > 0x8000_0000 {
            proof {
                if all_digits(digits) {
                    lemma_decimal_grows(digits, i - start);
                }
            }
            return None;
        }
    }
    assert(digits.take(n - start) =~= digits);
    if negative {
        Some((-value) as i32)
    } else if value == 0x8000_0000 {
        None
    } else {
        Some(value as i32)
    }
}

/// Whether a line begins with `Player`.
fn heads_section(line: &str) -> (heads: bool)
    ensures
        heads == is_header(line.spec_bytes()),
{
    let bytes = line.as_bytes();
    if bytes.len() < 6 {
        return false;
    }
    let heads = bytes[0] == 80 && bytes[1] == 108 && bytes[2] == 97 && bytes[3] == 121
        && bytes[4] == 101 && bytes[5] == 114;
    proof {
        let head = bytes@.take(6);
        let word = header_word();
        assert(head[0] == bytes@[0] && head[1] == bytes@[1] && head[2] == bytes@[2] && head[3]
            == bytes@[3] && head[4] == bytes@[4] && head[5] == bytes@[5]);
        assert(word[0] == 80 && word[1] == 108 && word[2] == 97 && word[3] == 121 && word[4] == 101
            && word[5] == 114);
        if heads {
            assert(head =~= word);
        }
    }
    heads
}

/// Reads the two decks from the lines of a list.
pub fn read_decks(lines: &[&str]) -> (decks: (VecDeque<i32>, VecDeque<i32>))
    ensures
        (decks.0@, decks.1@) == read_decks_spec(bytes_of(lines@)),
{
    let ghost text = bytes_of(lines@);
    let mut player_1: VecDeque<i32> = VecDeque::new();
    let mut player_2: VecDeque<i32> = VecDeque::new();
    let mut second: bool = false;
    let ghost mut cut: int = 0;
    let n: usize = lines.len();
    let mut i: usize = 0;
    assert(text.take(0) =~= Seq::empty());
    while i < n
        invariant
            n == lines@.len(),
            text == bytes_of(lines@),
            i <= n,
            !second ==> {
                &&& forall|k: int| 0 <= k < i ==> text[k].len() > 0
                &&& player_1@ == cards_of_lines(text.take(i as int))
                &&& player_2@ == Seq::<i32>::empty()
            },
            second ==> {
                &&& 0 <= cut < i
                &&& first_blank(text) == cut
                &&& player_1@ == cards_of_lines(text.take(cut))
                &&& player_2@ == cards_of_lines(text.subrange(cut, i as int))
            },
        decreases n - i,
    {
        let line: &str = lines[i];
        let ghost before = if second {
            text.subrange(cut, i as int)
        } else {
            text.take(i as int)
        };
        let ghost after = if second {
            text.subrange(cut, i + 1)
        } else {
            text.take(i + 1)
        };
        proof {
            assert(text[i as int] == line.spec_bytes());
            assert(after.drop_last() =~= before);
            assert(after.last() == text[i as int]);
        }
        if heads_section(line) {
        } else if line.as_bytes().len() == 0 {
            if !second {
                proof {
                    lemma_first_blank(text, i as int);
                    cut = i as int;
                    let blank = text.subrange(cut, i + 1);
                    assert(blank.drop_last() =~= Seq::<Seq<u8>>::empty());
                    assert(cards_of_lines(blank.drop_last()) =~= Seq::<i32>::empty());
                    assert(cards_of_lines(blank) =~= Seq::<i32>::empty());
                }
                second = true;
            }
        } else {
            match parse_card(line) {
                Some(card) => {
                    if second {
                        player_2.push_back(card);
                    } else {
                        player_1.push_back(card);
                    }
                },
                None => {},
            }
        }
        i = i + 1;
    }
    proof {
        if !second {
            lemma_first_blank(text, n as int);
            assert(text.skip(n as int) =~= Seq::<Seq<u8>>::empty());
        } else {
            assert(text.subrange(cut, n as int) =~= text.skip(cut));
        }
    }
    (player_1, player_2)
}

} // verus!
