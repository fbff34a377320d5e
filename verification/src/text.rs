//! Error values and the small pieces of text that messages are made of.

use vstd::prelude::*;

verus! {

/// A refused request or input: the message its caller reads.
#[derive(Debug)]
pub struct ValueError {
    pub message: String,
}

impl ValueError {
    pub fn new(message: String) -> (error: ValueError)
        ensures
            error.message@ == message@,
    {
        ValueError { message }
    }
}

/// What a fallible call comes to, with the error reduced to its text.
pub open spec fn outcome<T>(result: Result<T, ValueError>) -> Result<T, Seq<char>> {
    match result {
        Ok(value) => Ok(value),
        Err(error) => Err(error.message@),
    }
}

/// An operating-system failure, reported in the system's own words.
pub fn io_error(reason: &str) -> (error: ValueError)
    ensures
        error.message@ == reason@,
{
    ValueError::new(reason.to_owned())
}

/// Whether two texts are the same, character for character.
pub fn same_text(left: &str, right: &str) -> (same: bool)
    ensures
        same == (left@ == right@),
{
    let left: String = left.to_owned();
    let right: String = right.to_owned();
    left == right
}

/// The concatenation of text pieces.
pub fn joined(pieces: &[&str]) -> (text: String)
    ensures
        text@ == joined_text(pieces@.map_values(|piece: &str| piece@)),
{
    let mut text: String = String::new();
    let ghost views = pieces@.map_values(|piece: &str| piece@);
    let mut index: usize = 0;
    while index < pieces.len()
        invariant
            index <= pieces.len(),
            views == pieces@.map_values(|piece: &str| piece@),
            text@ == joined_text(views.subrange(0, index as int)),
        decreases pieces.len() - index,
    {
        proof {
            let taken = views.subrange(0, index + 1);
            assert(taken.drop_last() =~= views.subrange(0, index as int));
        }
        text.append(pieces[index]);
        index += 1;
    }
    assert(views.subrange(0, views.len() as int) =~= views);
    text
}

pub open spec fn joined_text(pieces: Seq<Seq<char>>) -> Seq<char>
    decreases pieces.len(),
{
    if pieces.len() == 0 {
        Seq::empty()
    } else {
        joined_text(pieces.drop_last()) + pieces.last()
    }
}

/// The character of one decimal or hexadecimal digit.
pub open spec fn digit_char(digit: nat) -> char {
    if digit == 0 {
        '0'
    } else if digit == 1 {
        '1'
    } else if digit == 2 {
        '2'
    } else if digit == 3 {
        '3'
    } else if digit == 4 {
        '4'
    } else if digit == 5 {
        '5'
    } else if digit == 6 {
        '6'
    } else if digit == 7 {
        '7'
    } else if digit == 8 {
        '8'
    } else if digit == 9 {
        '9'
    } else if digit == 10 {
        'a'
    } else if digit == 11 {
        'b'
    } else if digit == 12 {
        'c'
    } else if digit == 13 {
        'd'
    } else if digit == 14 {
        'e'
    } else {
        'f'
    }
}

fn digit_text(digit: u8) -> (text: &'static str)
    requires
        digit < 16,
    ensures
        text@ == seq![digit_char(digit as nat)],
{
    proof {
        reveal_strlit("0");
        reveal_strlit("1");
        reveal_strlit("2");
        reveal_strlit("3");
        reveal_strlit("4");
        reveal_strlit("5");
        reveal_strlit("6");
        reveal_strlit("7");
        reveal_strlit("8");
        reveal_strlit("9");
        reveal_strlit("a");
        reveal_strlit("b");
        reveal_strlit("c");
        reveal_strlit("d");
        reveal_strlit("e");
        reveal_strlit("f");
    }
    match digit {
        0 => "0",
        1 => "1",
        2 => "2",
        3 => "3",
        4 => "4",
        5 => "5",
        6 => "6",
        7 => "7",
        8 => "8",
        9 => "9",
        10 => "a",
        11 => "b",
        12 => "c",
        13 => "d",
        14 => "e",
        _ => "f",
    }
}

/// A natural number in decimal, without leading zeros.
pub open spec fn decimal_text(number: nat) -> Seq<char>
    decreases number,
{
    if number < 10 {
        seq![digit_char(number)]
    } else {
        decimal_text(number / 10).push(digit_char(number % 10))
    }
}

pub fn decimal(number: u64) -> (text: String)
    ensures
        text@ == decimal_text(number as nat),
    decreases number,
{
    if number < 10 {
        digit_text(number as u8).to_owned()
    } else {
        let mut text: String = decimal(number / 10);
        text.append(digit_text((number % 10) as u8));
        assert(text@ =~= decimal_text((number / 10) as nat).push(
            digit_char((number % 10) as nat),
        ));
        text
    }
}

/// Bytes in lowercase hexadecimal, two digits each.
pub open spec fn hex_text(bytes: Seq<u8>) -> Seq<char> {
    Seq::new(
        2 * bytes.len(),
        |i: int|
            digit_char(
                if i % 2 == 0 {
                    (bytes[i / 2] / 16) as nat
                } else {
                    (bytes[i / 2] % 16) as nat
                },
            ),
    )
}

pub fn hex(bytes: &[u8]) -> (text: String)
    ensures
        text@ == hex_text(bytes@),
{
    let mut text: String = String::new();
    let mut index: usize = 0;
    while index < bytes.len()
        invariant
            index <= bytes.len(),
            text@ == hex_text(bytes@.subrange(0, index as int)),
        decreases bytes.len() - index,
    {
        let byte: u8 = bytes[index];
        text.append(digit_text(byte / 16));
        text.append(digit_text(byte % 16));
        assert(text@ =~= hex_text(bytes@.subrange(0, index + 1)));
        index += 1;
    }
    assert(bytes@.subrange(0, bytes@.len() as int) =~= bytes@);
    text
}

/// Pieces are joined in order without anything between them: one piece is its
/// own text, and the text of two lists is the one before the other.
pub proof fn law_joined_pieces_follow_one_another(left: Seq<Seq<char>>, right: Seq<Seq<char>>)
    ensures
        joined_text(left + right) == joined_text(left) + joined_text(right),
        left.len() == 1 ==> joined_text(left) == left[0],
    decreases right.len(),
{
    reveal_with_fuel(joined_text, 2);
    if left.len() == 1 {
        assert(left.drop_last() =~= Seq::<Seq<char>>::empty());
        assert(joined_text(left) =~= left[0]);
    }
    if right.len() == 0 {
        assert(left + right =~= left);
        assert(joined_text(left) + joined_text(right) =~= joined_text(left));
    } else {
        assert((left + right).drop_last() =~= left + right.drop_last());
        law_joined_pieces_follow_one_another(left, right.drop_last());
        assert(joined_text(left + right) =~= joined_text(left) + joined_text(right));
    }
}

/// A digit's character stands where the digits and then the letters do.
pub proof fn law_digit_characters(digit: nat)
    ensures
        digit < 10 ==> digit_char(digit) as int == '0' as int + digit,
        10 <= digit < 16 ==> digit_char(digit) as int == 'a' as int + digit - 10,
{
}

/// A byte in hexadecimal is its high digit and then its low one.
pub proof fn law_hexadecimal_digits(bytes: Seq<u8>, at: int)
    requires
        0 <= at < bytes.len(),
    ensures
        hex_text(bytes).len() == 2 * bytes.len(),
        hex_text(bytes)[2 * at] == digit_char((bytes[at] / 16) as nat),
        hex_text(bytes)[2 * at + 1] == digit_char((bytes[at] % 16) as nat),
{
}

/// A number in decimal is its tens and then its last digit; the first digit
/// of a number of several digits is not zero.
pub proof fn law_decimal_digits(number: nat)
    ensures
        decimal_text(number).len() > 0,
        decimal_text(number).last() as int == '0' as int + number % 10,
        number < 10 ==> decimal_text(number).len() == 1,
        number >= 10 ==> decimal_text(number).drop_last() == decimal_text(number / 10),
        number > 0 ==> decimal_text(number)[0] != '0',
    decreases number,
{
    if number >= 10 {
        law_decimal_digits(number / 10);
        assert(decimal_text(number).drop_last() =~= decimal_text(number / 10));
    }
}

} // verus!
