//! Request options: clock times, windows, points, routers, names.

use crate::bytes::{
    f64_is_cost, f64_is_finite, f64_is_nan, f64_is_positive, f64_rank, is_cost, is_finite, is_nan,
    is_positive, less,
};
use crate::text::{decimal, decimal_text, joined, joined_text, outcome, same_text, ValueError};
use vstd::prelude::*;

verus! {

/// A text as its characters.
pub fn characters(text: &str) -> (all: Vec<char>)
    ensures
        all@ == text@,
{
    let length: usize = text.unicode_len();
    let mut all: Vec<char> = Vec::new();
    let mut index: usize = 0;
    while index < length
        invariant
            index <= length == text@.len(),
            all@ == text@.subrange(0, index as int),
        decreases length - index,
    {
        all.push(text.get_char(index));
        index += 1;
        assert(all@ =~= text@.subrange(0, index as int));
    }
    assert(text@.subrange(0, text@.len() as int) =~= text@);
    all
}

/// The parts of a text between its colons.
pub open spec fn fields(text: Seq<char>) -> Seq<Seq<char>>
    decreases text.len(),
{
    if text.len() == 0 {
        seq![Seq::empty()]
    } else {
        let before = fields(text.drop_last());
        if text.last() == ':' {
            before.push(Seq::empty())
        } else {
            before.drop_last().push(before.last().push(text.last()))
        }
    }
}

/// The value of a decimal digit, if a character is one.
pub open spec fn digit_value(c: char) -> Option<nat> {
    if '0' <= c <= '9' {
        Some((c as int - '0' as int) as nat)
    } else {
        None
    }
}

/// The number a run of decimal digits stands for.
pub open spec fn digits_value(digits: Seq<char>) -> Option<nat>
    decreases digits.len(),
{
    if digits.len() == 0 {
        Some(0)
    } else {
        match (digits_value(digits.drop_last()), digit_value(digits.last())) {
            (Some(before), Some(digit)) => Some(10 * before + digit),
            _ => None,
        }
    }
}

/// A whole number as requests write it: digits, with an optional plus sign
/// before them, within 32 bits.
pub open spec fn whole_number(text: Seq<char>) -> Option<u32> {
    let digits = if text.len() > 0 && text[0] == '+' {
        text.drop_first()
    } else {
        text
    };
    match digits_value(digits) {
        Some(value) => if digits.len() > 0 && value <= u32::MAX {
            Some(value as u32)
        } else {
            None
        },
        None => None,
    }
}

/// The seconds of an `HH:MM:SS` clock time; hours may exceed 23 for
/// over-midnight times.
pub open spec fn clock_seconds(text: Seq<char>) -> Option<u32> {
    let parts = fields(text);
    if parts.len() != 3 {
        None
    } else {
        match (whole_number(parts[0]), whole_number(parts[1]), whole_number(parts[2])) {
            (Some(hours), Some(minutes), Some(seconds)) => if minutes <= 59 && seconds <= 59
                && hours * 3600 + minutes * 60 + seconds <= u32::MAX {
                Some((hours * 3600 + minutes * 60 + seconds) as u32)
            } else {
                None
            },
            _ => None,
        }
    }
}

pub open spec fn invalid_time_text(value: Seq<char>) -> Seq<char> {
    joined_text(seq!["invalid time '"@, value, "': expected HH:MM:SS"@])
}

proof fn lemma_digits_grow(digits: Seq<char>, count: int)
    requires
        0 <= count <= digits.len(),
        digits_value(digits) is Some,
    ensures
        digits_value(digits.subrange(0, count)) is Some,
        digits_value(digits.subrange(0, count))->0 <= digits_value(digits)->0,
    decreases digits.len(),
{
    if count == digits.len() {
        assert(digits.subrange(0, count) =~= digits);
    } else {
        let before = digits.drop_last();
        assert(before.subrange(0, count) =~= digits.subrange(0, count));
        lemma_digits_grow(before, count);
    }
}

fn parse_whole(text: &[char]) -> (number: Option<u32>)
    ensures
        number == whole_number(text@),
{
    let start: usize = if text.len() > 0 && text[0] == '+' {
        1
    } else {
        0
    };
    let ghost digits = text@.subrange(start as int, text@.len() as int);
    proof {
        if start == 1 {
            assert(digits =~= text@.drop_first());
        } else {
            assert(digits =~= text@);
        }
    }
    if text.len() == start {
        return None;
    }
    let mut value: u64 = 0;
    let mut index: usize = start;
    assert(digits.subrange(0, 0) =~= Seq::empty());
    while index < text.len()
        invariant
            start <= index <= text@.len(),
            digits == text@.subrange(start as int, text@.len() as int),
            digits.len() > 0,
            whole_number(text@) == (match digits_value(digits) {
                Some(value) => if value <= u32::MAX {
                    Some(value as u32)
                } else {
                    None
                },
                None => None,
            }),
            digits_value(digits.subrange(0, index - start)) == Some(value as nat),
            value <= u32::MAX,
        decreases text.len() - index,
    {
        let c: char = text[index];
        let ghost upto = digits.subrange(0, index - start + 1);
        proof {
            assert(upto.drop_last() =~= digits.subrange(0, index - start));
            assert(upto.last() == c);
            if digits_value(digits) is Some {
                lemma_digits_grow(digits, index - start + 1);
            }
        }
        if c < '0' || c > '9' {
            return None;
        }
        let digit: u64 = c as u64 - '0' as u64;
        value = value * 10 + digit;
        if value > u32::MAX as u64 {
            return None;
        }
        index += 1;
    }
    assert(digits.subrange(0, digits.len() as int) =~= digits);
    Some(value as u32)
}

fn split_fields(text: &[char]) -> (parts: Vec<Vec<char>>)
    ensures
        parts@.map_values(|part: Vec<char>| part@) == fields(text@),
{
    let mut parts: Vec<Vec<char>> = Vec::new();
    let mut current: Vec<char> = Vec::new();
    let mut index: usize = 0;
    proof {
        assert(text@.subrange(0, 0) =~= Seq::empty());
        assert(parts@.map_values(|part: Vec<char>| part@).push(current@) =~= fields(
            text@.subrange(0, 0),
        ));
    }
    while index < text.len()
        invariant
            index <= text@.len(),
            parts@.map_values(|part: Vec<char>| part@).push(current@) == fields(
                text@.subrange(0, index as int),
            ),
        decreases text.len() - index,
    {
        let c: char = text[index];
        let ghost before = parts@.map_values(|part: Vec<char>| part@);
        let ghost held = current@;
        proof {
            let upto = text@.subrange(0, index + 1);
            assert(upto.drop_last() =~= text@.subrange(0, index as int));
            assert(before.push(held).drop_last() =~= before);
        }
        if c == ':' {
            parts.push(current);
            current = Vec::new();
            proof {
                assert(parts@.map_values(|part: Vec<char>| part@) =~= before.push(held));
                assert(current@ =~= Seq::empty());
            }
        } else {
            current.push(c);
        }
        index += 1;
    }
    let ghost before = parts@.map_values(|part: Vec<char>| part@);
    let ghost held = current@;
    parts.push(current);
    assert(parts@.map_values(|part: Vec<char>| part@) =~= before.push(held));
    assert(text@.subrange(0, text@.len() as int) =~= text@);
    parts
}

/// Parses `HH:MM:SS` into seconds past the service day's start.
pub fn parse_time(value: &str) -> (seconds: Result<u32, ValueError>)
    ensures
        match clock_seconds(value@) {
            Some(expected) => seconds == Ok::<u32, ValueError>(expected),
            None => seconds matches Err(error) && error.message@ == invalid_time_text(value@),
        },
{
    let all = characters(value);
    let parts = split_fields(all.as_slice());
    let ghost views = parts@.map_values(|part: Vec<char>| part@);
    if parts.len() == 3 {
        assert(views[0] == parts@[0]@ && views[1] == parts@[1]@ && views[2] == parts@[2]@);
        match (
            parse_whole(parts[0].as_slice()),
            parse_whole(parts[1].as_slice()),
            parse_whole(parts[2].as_slice()),
        ) {
            (Some(hours), Some(minutes), Some(seconds)) => {
                if minutes <= 59 && seconds <= 59 {
                    let total: u64 = hours as u64 * 3600 + (minutes * 60 + seconds) as u64;
                    if total <= u32::MAX as u64 {
                        return Ok(total as u32);
                    }
                }
            },
            _ => {},
        }
    }
    let pieces: [&str; 3] = ["invalid time '", value, "': expected HH:MM:SS"];
    let text = joined(&pieces);
    assert(pieces@.map_values(|piece: &str| piece@) =~= seq![
        "invalid time '"@,
        value@,
        "': expected HH:MM:SS"@,
    ]);
    Err(ValueError::new(text))
}

proof fn lemma_decimal_reads(number: nat)
    ensures
        decimal_text(number).len() > 0,
        digits_value(decimal_text(number)) == Some(number),
        forall|i: int|
            0 <= i < decimal_text(number).len() ==> '0' <= #[trigger] decimal_text(number)[i]
                <= '9',
    decreases number,
{
    if number < 10 {
        let text = decimal_text(number);
        assert(text.drop_last() =~= Seq::empty());
        assert(digits_value(text.drop_last()) == Some(0nat));
    } else {
        lemma_decimal_reads(number / 10);
        let text = decimal_text(number);
        assert(text.drop_last() =~= decimal_text(number / 10));
    }
}

/// Decimal numbers hold digits only.
pub proof fn lemma_decimal_has_no_colon(number: nat)
    ensures
        decimal_text(number).len() > 0,
        forall|i: int|
            0 <= i < decimal_text(number).len() ==> #[trigger] decimal_text(number)[i] != ':',
{
    lemma_decimal_reads(number);
    assert forall|i: int| 0 <= i < decimal_text(number).len() implies #[trigger] decimal_text(
        number,
    )[i] != ':' by {
        assert(decimal_text(number)[i] <= '9');
    }
}

/// Different numbers have different decimal texts.
pub proof fn lemma_decimal_is_faithful(left: nat, right: nat)
    requires
        decimal_text(left) == decimal_text(right),
    ensures
        left == right,
{
    lemma_decimal_reads(left);
    lemma_decimal_reads(right);
}

proof fn lemma_fields_of(before: Seq<char>, digits: Seq<char>)
    requires
        forall|i: int| 0 <= i < digits.len() ==> '0' <= #[trigger] digits[i] <= '9',
        fields(before).len() > 0,
    ensures
        fields(before + digits) == fields(before).drop_last().push(fields(before).last() + digits),
    decreases digits.len(),
{
    if digits.len() == 0 {
        assert(before + digits =~= before);
        assert(fields(before).last() + digits =~= fields(before).last());
        assert(fields(before).drop_last().push(fields(before).last()) =~= fields(before));
    } else {
        let rest = digits.drop_last();
        assert forall|i: int| 0 <= i < rest.len() implies '0' <= #[trigger] rest[i] <= '9' by {
            assert(rest[i] == digits[i]);
        }
        lemma_fields_of(before, rest);
        assert((before + digits).drop_last() =~= before + rest);
        assert(digits[digits.len() - 1] <= '9');
        let held = fields(before).drop_last();
        let last = fields(before).last();
        assert(held.push(last + rest).drop_last() =~= held);
        assert((last + rest).push(digits.last()) =~= last + digits);
    }
}

/// A number with so many zeros in front.
pub open spec fn zero_padded(number: nat, zeros: nat) -> Seq<char> {
    Seq::new(zeros, |i: int| '0') + decimal_text(number)
}

/// A number in at least two digits.
pub open spec fn two_digits(number: nat) -> Seq<char> {
    zero_padded(
        number,
        if number < 10 {
            1
        } else {
            0
        },
    )
}

/// `HH:MM:SS`, every field in at least two digits.
pub open spec fn clock_text(hours: nat, minutes: nat, seconds: nat) -> Seq<char> {
    two_digits(hours).push(':') + two_digits(minutes).push(':') + two_digits(seconds)
}

proof fn lemma_zeros_add_nothing(zeros: nat, digits: Seq<char>)
    requires
        digits_value(digits) is Some,
    ensures
        digits_value(Seq::new(zeros, |i: int| '0') + digits) == digits_value(digits),
    decreases zeros + digits.len(),
{
    let all = Seq::new(zeros, |i: int| '0') + digits;
    if digits.len() > 0 {
        assert(all.drop_last() =~= Seq::new(zeros, |i: int| '0') + digits.drop_last());
        lemma_zeros_add_nothing(zeros, digits.drop_last());
    } else if zeros > 0 {
        let fewer = (zeros - 1) as nat;
        assert(all.drop_last() =~= Seq::new(fewer, |i: int| '0') + digits);
        lemma_zeros_add_nothing(fewer, digits);
    } else {
        assert(all =~= digits);
    }
}

proof fn lemma_padded_reads(number: nat, zeros: nat)
    ensures
        zero_padded(number, zeros).len() > 0,
        digits_value(zero_padded(number, zeros)) == Some(number),
        forall|i: int|
            0 <= i < zero_padded(number, zeros).len() ==> '0' <= #[trigger] zero_padded(number, zeros)[i]
                <= '9',
{
    lemma_decimal_reads(number);
    lemma_zeros_add_nothing(zeros, decimal_text(number));
    assert forall|i: int| 0 <= i < zero_padded(number, zeros).len() implies '0' <= #[trigger] zero_padded(
        number,
        zeros,
    )[i] <= '9' by {
        if i >= zeros {
            assert(zero_padded(number, zeros)[i] == decimal_text(number)[i - zeros]);
        }
    }
}

/// A clock time in two-digit fields reads back as its seconds.
pub proof fn law_clock_text_round_trip(hours: u32, minutes: u32, seconds: u32)
    requires
        minutes <= 59,
        seconds <= 59,
        hours * 3600 + minutes * 60 + seconds <= u32::MAX,
    ensures
        clock_seconds(clock_text(hours as nat, minutes as nat, seconds as nat)) == Some(
            (hours * 3600 + minutes * 60 + seconds) as u32,
        ),
{
    let zeros = |number: u32|
        if number < 10 {
            1nat
        } else {
            0nat
        };
    law_clock_round_trip(hours, minutes, seconds, (zeros(hours), zeros(minutes), zeros(seconds)));
}

/// A clock time written out in numbers, with any zeros in front of each,
/// reads back as its seconds.
pub proof fn law_clock_round_trip(hours: u32, minutes: u32, seconds: u32, zeros: (nat, nat, nat))
    requires
        minutes <= 59,
        seconds <= 59,
        hours * 3600 + minutes * 60 + seconds <= u32::MAX,
    ensures
        clock_seconds(
            zero_padded(hours as nat, zeros.0).push(':') + zero_padded(minutes as nat, zeros.1).push(':')
                + zero_padded(seconds as nat, zeros.2),
        ) == Some((hours * 3600 + minutes * 60 + seconds) as u32),
{
    let h = zero_padded(hours as nat, zeros.0);
    let m = zero_padded(minutes as nat, zeros.1);
    let s = zero_padded(seconds as nat, zeros.2);
    lemma_padded_reads(hours as nat, zeros.0);
    lemma_padded_reads(minutes as nat, zeros.1);
    lemma_padded_reads(seconds as nat, zeros.2);
    let none = Seq::<char>::empty();
    assert(fields(none) =~= seq![none]);
    lemma_fields_of(none, h);
    assert(none + h =~= h);
    assert(fields(h) =~= seq![h]);
    let one = h.push(':');
    assert(one.drop_last() =~= h);
    assert(fields(one) =~= seq![h, none]);
    lemma_fields_of(one, m);
    assert(none + m =~= m);
    assert(fields(one + m) =~= seq![h, m]);
    let two = (one + m).push(':');
    assert(two.drop_last() =~= one + m);
    assert(fields(two) =~= seq![h, m, none]);
    lemma_fields_of(two, s);
    assert(none + s =~= s);
    assert(fields(two + s) =~= seq![h, m, s]);
    assert(two + s =~= one + m.push(':') + s);
    assert('0' <= h[0] && '0' <= m[0] && '0' <= s[0]);
}

/// A text in quotes as programs print it, with its special characters
/// escaped.
pub uninterp spec fn quoted(text: Seq<char>) -> Seq<char>;

/// std's debug form of a `str`; which characters are escaped, and how, is
/// left to the name.
#[verifier::external_body]
pub(crate) fn debug_text(text: &str) -> (form: String)
    ensures
        form@ == quoted(text@),
{
    format!("{:?}", text)
}

pub open spec fn invalid_router_text(quoted_router: Seq<char>) -> Seq<char> {
    joined_text(seq!["router must be 'auto', 'raptor', or 'tbtr', not "@, quoted_router])
}

/// The error every routing entry raises for an unknown `router` value.
pub fn invalid_router(router: &str) -> (error: ValueError)
    ensures
        error.message@ == invalid_router_text(quoted(router@)),
{
    let form = debug_text(router);
    let pieces: [&str; 2] = ["router must be 'auto', 'raptor', or 'tbtr', not ", form.as_str()];
    let text = joined(&pieces);
    assert(pieces@.map_values(|piece: &str| piece@) =~= seq![
        "router must be 'auto', 'raptor', or 'tbtr', not "@,
        quoted(router@),
    ]);
    ValueError::new(text)
}

pub open spec fn invalid_axis_text(quoted_axis: Seq<char>) -> Seq<char> {
    joined_text(seq!["axis must be 'time' or 'distance', not "@, quoted_axis])
}

/// The axis a street spread is bounded on.
pub fn parse_axis(axis: &str) -> (by_time: Result<bool, ValueError>)
    ensures
        by_time is Ok == (axis@ == "time"@ || axis@ == "distance"@),
        by_time matches Ok(by_time) ==> by_time == (axis@ == "time"@),
        by_time matches Err(error) ==> error.message@ == invalid_axis_text(quoted(axis@)),
{
    if same_text(axis, "time") {
        Ok(true)
    } else if same_text(axis, "distance") {
        proof {
            reveal_strlit("time");
            reveal_strlit("distance");
            assert("time"@.len() != "distance"@.len());
        }
        Ok(false)
    } else {
        let form = debug_text(axis);
        let pieces: [&str; 2] = ["axis must be 'time' or 'distance', not ", form.as_str()];
        let text = joined(&pieces);
        assert(pieces@.map_values(|piece: &str| piece@) =~= seq![
            "axis must be 'time' or 'distance', not "@,
            quoted(axis@),
        ]);
        Err(ValueError::new(text))
    }
}

/// The pattern of the double 100.
pub const F64_HUNDRED: u64 = 0x4059_0000_0000_0000;

pub open spec fn is_percentile(bits: u64) -> bool {
    !f64_is_nan(bits) && 0 <= f64_rank(bits) <= F64_HUNDRED
}

/// What is wrong with a window and its percentiles.
pub open spec fn window_fault(window: u32, percentiles: Seq<u64>) -> Option<Seq<char>> {
    if window == 0 {
        Some("window must be at least 1 second"@)
    } else if percentiles.len() == 0 {
        Some("percentiles must not be empty"@)
    } else if exists|i: int| 0 <= i < percentiles.len() && !is_percentile(#[trigger] percentiles[i]) {
        Some("percentiles must be finite and within [0, 100]"@)
    } else {
        None
    }
}

/// Rejects an empty or out-of-range window or percentile specification.
pub fn validate_window(window: u32, percentiles: &[u64]) -> (checked: Result<(), ValueError>)
    ensures
        match window_fault(window, percentiles@) {
            Some(text) => checked matches Err(error) && error.message@ == text,
            None => checked is Ok,
        },
{
    if window == 0 {
        return Err(ValueError::new("window must be at least 1 second".to_owned()));
    }
    if percentiles.len() == 0 {
        return Err(ValueError::new("percentiles must not be empty".to_owned()));
    }
    let mut index: usize = 0;
    while index < percentiles.len()
        invariant
            index <= percentiles@.len(),
            window != 0,
            percentiles@.len() > 0,
            forall|i: int| 0 <= i < index ==> is_percentile(#[trigger] percentiles@[i]),
        decreases percentiles.len() - index,
    {
        let bits: u64 = percentiles[index];
        if is_nan(bits) || less(bits, 0) || less(F64_HUNDRED, bits) {
            assert(!is_percentile(percentiles@[index as int]));
            return Err(
                ValueError::new("percentiles must be finite and within [0, 100]".to_owned()),
            );
        }
        index += 1;
    }
    Ok(())
}

pub open spec fn point_finite(point: (u64, u64)) -> bool {
    f64_is_finite(point.0) && f64_is_finite(point.1)
}

/// The first point with a coordinate that is not finite, from `from` on.
pub open spec fn first_bad_point(points: Seq<(u64, u64)>, from: int) -> Option<int>
    decreases points.len() - from,
{
    if from >= points.len() {
        None
    } else if !point_finite(points[from]) {
        Some(from)
    } else {
        first_bad_point(points, from + 1)
    }
}

pub open spec fn bad_point_text(index: nat) -> Seq<char> {
    joined_text(seq!["point "@, decimal_text(index), " has non-finite coordinates"@])
}

/// Rejects non-finite point coordinates with the first offending index.
pub fn validate_points(points: &[(u64, u64)]) -> (checked: Result<(), ValueError>)
    ensures
        match first_bad_point(points@, 0) {
            Some(index) => checked matches Err(error) && error.message@ == bad_point_text(
                index as nat,
            ),
            None => checked is Ok,
        },
{
    let mut index: usize = 0;
    while index < points.len()
        invariant
            index <= points@.len(),
            first_bad_point(points@, 0) == first_bad_point(points@, index as int),
        decreases points.len() - index,
    {
        let (lat, lon): (u64, u64) = points[index];
        if !is_finite(lat) || !is_finite(lon) {
            let number = decimal(index as u64);
            let pieces: [&str; 3] = ["point ", number.as_str(), " has non-finite coordinates"];
            let text = joined(&pieces);
            assert(pieces@.map_values(|piece: &str| piece@) =~= seq![
                "point "@,
                decimal_text(index as nat),
                " has non-finite coordinates"@,
            ]);
            return Err(ValueError::new(text));
        }
        index += 1;
    }
    Ok(())
}

/// What is wrong with street-search options.
pub open spec fn walking_fault(speed: u64, max_time: u64, max_snap: u64) -> Option<Seq<char>> {
    if !f64_is_positive(speed) {
        Some("walking_speed_kmph must be a positive, finite number"@)
    } else if !f64_is_cost(max_time) {
        Some("max_walking_time must be a non-negative, finite number"@)
    } else if !f64_is_cost(max_snap) {
        Some("max_snap_distance must be a non-negative, finite number"@)
    } else {
        None
    }
}

/// Checks street-search options (doubles' bits), naming the one that is out
/// of range.
pub fn validated_walking_speed(
    walking_speed_kmph: u64,
    max_walking_time: u64,
    max_snap_distance: u64,
) -> (checked: Result<(), ValueError>)
    ensures
        match walking_fault(walking_speed_kmph, max_walking_time, max_snap_distance) {
            Some(text) => checked matches Err(error) && error.message@ == text,
            None => checked is Ok,
        },
{
    if !is_positive(walking_speed_kmph) {
        return Err(
            ValueError::new("walking_speed_kmph must be a positive, finite number".to_owned()),
        );
    }
    if !is_cost(max_walking_time) {
        return Err(
            ValueError::new("max_walking_time must be a non-negative, finite number".to_owned()),
        );
    }
    if !is_cost(max_snap_distance) {
        return Err(
            ValueError::new("max_snap_distance must be a non-negative, finite number".to_owned()),
        );
    }
    Ok(())
}

/// What is wrong with the options of a shortcut computation.
pub open spec fn shortcut_fault(
    speed: u64,
    max_transfer_time: u64,
    min_departure: u32,
    max_departure: u32,
) -> Option<Seq<char>> {
    if !f64_is_positive(speed) {
        Some("walking_speed_kmph must be a positive, finite number"@)
    } else if !f64_is_cost(max_transfer_time) {
        Some("max_transfer_time must be a non-negative, finite number"@)
    } else if min_departure > max_departure {
        Some("min_departure must not exceed max_departure"@)
    } else {
        None
    }
}

/// Checks the options of a shortcut computation.
pub fn validate_shortcut_options(
    walking_speed_kmph: u64,
    max_transfer_time: u64,
    min_departure: u32,
    max_departure: u32,
) -> (checked: Result<(), ValueError>)
    ensures
        match shortcut_fault(
            walking_speed_kmph,
            max_transfer_time,
            min_departure,
            max_departure,
        ) {
            Some(text) => checked matches Err(error) && error.message@ == text,
            None => checked is Ok,
        },
{
    if !is_positive(walking_speed_kmph) {
        return Err(
            ValueError::new("walking_speed_kmph must be a positive, finite number".to_owned()),
        );
    }
    if !is_cost(max_transfer_time) {
        return Err(
            ValueError::new("max_transfer_time must be a non-negative, finite number".to_owned()),
        );
    }
    if min_departure > max_departure {
        return Err(ValueError::new("min_departure must not exceed max_departure".to_owned()));
    }
    Ok(())
}

/// The initial and multiplying constants of the factor fingerprint.
pub const FINGERPRINT_START: u64 = 0xcbf2_9ce4_8422_2325;

pub const FINGERPRINT_PRIME: u64 = 0x0100_0000_01b3;

/// One fingerprint step: fold a word in, then multiply, modulo the word
/// size.
pub open spec fn fingerprint_step(hash: u64, word: u64) -> u64 {
    (hash ^ word).wrapping_mul(FINGERPRINT_PRIME)
}

pub open spec fn folded_factors(factors: Seq<u64>) -> u64
    decreases factors.len(),
{
    if factors.len() == 0 {
        FINGERPRINT_START
    } else {
        fingerprint_step(folded_factors(factors.drop_last()), factors.last())
    }
}

/// A deterministic fingerprint of a per-trip emission-factor vector
/// (doubles' bits), length last. For inspection; not a cryptographic digest.
pub fn factor_fingerprint(per_trip: &[u64]) -> (fingerprint: u64)
    ensures
        fingerprint == fingerprint_step(folded_factors(per_trip@), per_trip@.len() as u64),
{
    let mut hash: u64 = FINGERPRINT_START;
    let mut index: usize = 0;
    while index < per_trip.len()
        invariant
            index <= per_trip@.len(),
            hash == folded_factors(per_trip@.subrange(0, index as int)),
        decreases per_trip.len() - index,
    {
        proof {
            let upto = per_trip@.subrange(0, index + 1);
            assert(upto.drop_last() =~= per_trip@.subrange(0, index as int));
        }
        hash = (hash ^ per_trip[index]).wrapping_mul(FINGERPRINT_PRIME);
        index += 1;
    }
    assert(per_trip@.subrange(0, per_trip@.len() as int) =~= per_trip@);
    (hash ^ per_trip.len() as u64).wrapping_mul(FINGERPRINT_PRIME)
}

/// A parsed GTFS route type; extended codes pass through.
#[derive(Debug, Clone, Copy, PartialEq, Eq, Structural)]
pub enum RouteType {
    Tramway,
    Subway,
    Rail,
    Bus,
    Ferry,
    CableCar,
    Gondola,
    Funicular,
    Coach,
    Air,
    Taxi,
    Other(i16),
}

/// The numeric GTFS route_type of a parsed route type.
pub open spec fn type_code(route_type: RouteType) -> int {
    match route_type {
        RouteType::Tramway => 0,
        RouteType::Subway => 1,
        RouteType::Rail => 2,
        RouteType::Bus => 3,
        RouteType::Ferry => 4,
        RouteType::CableCar => 5,
        RouteType::Gondola => 6,
        RouteType::Funicular => 7,
        RouteType::Coach => 200,
        RouteType::Air => 1100,
        RouteType::Taxi => 1500,
        RouteType::Other(code) => code as int,
    }
}

/// The numeric GTFS route_type of a parsed route type.
pub fn route_type_code(route_type: &RouteType) -> (code: i32)
    ensures
        code == type_code(*route_type),
{
    match route_type {
        RouteType::Tramway => 0,
        RouteType::Subway => 1,
        RouteType::Rail => 2,
        RouteType::Bus => 3,
        RouteType::Ferry => 4,
        RouteType::CableCar => 5,
        RouteType::Gondola => 6,
        RouteType::Funicular => 7,
        RouteType::Coach => 200,
        RouteType::Air => 1100,
        RouteType::Taxi => 1500,
        RouteType::Other(code) => *code as i32,
    }
}

/// Where a trip's distances come from.
#[derive(Debug, Clone, Copy, PartialEq, Eq, Structural)]
pub enum DistanceProvenance {
    ShapeDist,
    ShapeLinRef,
    OsmRelation,
    MapMatched,
    CrowFly,
}

pub open spec fn tier_name(tier: DistanceProvenance) -> Seq<char> {
    match tier {
        DistanceProvenance::ShapeDist => "shape_dist"@,
        DistanceProvenance::ShapeLinRef => "shape_linref"@,
        DistanceProvenance::OsmRelation => "osm_relation"@,
        DistanceProvenance::MapMatched => "map_matched"@,
        DistanceProvenance::CrowFly => "crow_fly"@,
    }
}

pub fn provenance_name(tier: DistanceProvenance) -> (name: &'static str)
    ensures
        name@ == tier_name(tier),
{
    match tier {
        DistanceProvenance::ShapeDist => "shape_dist",
        DistanceProvenance::ShapeLinRef => "shape_linref",
        DistanceProvenance::OsmRelation => "osm_relation",
        DistanceProvenance::MapMatched => "map_matched",
        DistanceProvenance::CrowFly => "crow_fly",
    }
}

pub open spec fn named_tier(name: Seq<char>) -> Option<DistanceProvenance> {
    if name == "shape_dist"@ {
        Some(DistanceProvenance::ShapeDist)
    } else if name == "shape_linref"@ {
        Some(DistanceProvenance::ShapeLinRef)
    } else if name == "osm_relation"@ {
        Some(DistanceProvenance::OsmRelation)
    } else if name == "map_matched"@ {
        Some(DistanceProvenance::MapMatched)
    } else if name == "crow_fly"@ {
        Some(DistanceProvenance::CrowFly)
    } else {
        None
    }
}

pub fn parse_provenance(value: &str) -> (tier: Result<DistanceProvenance, ValueError>)
    ensures
        match named_tier(value@) {
            Some(known) => tier == Ok::<DistanceProvenance, ValueError>(known),
            None => tier matches Err(error) && error.message@ == joined_text(
                seq!["unknown distance provenance '"@, value@, "'"@],
            ),
        },
{
    if same_text(value, "shape_dist") {
        Ok(DistanceProvenance::ShapeDist)
    } else if same_text(value, "shape_linref") {
        Ok(DistanceProvenance::ShapeLinRef)
    } else if same_text(value, "osm_relation") {
        Ok(DistanceProvenance::OsmRelation)
    } else if same_text(value, "map_matched") {
        Ok(DistanceProvenance::MapMatched)
    } else if same_text(value, "crow_fly") {
        Ok(DistanceProvenance::CrowFly)
    } else {
        let pieces: [&str; 3] = ["unknown distance provenance '", value, "'"];
        let text = joined(&pieces);
        assert(pieces@.map_values(|piece: &str| piece@) =~= seq![
            "unknown distance provenance '"@,
            value@,
            "'"@,
        ]);
        Err(ValueError::new(text))
    }
}

/// Every tier's name reads back as the tier.
pub proof fn law_provenance_round_trip(tier: DistanceProvenance)
    ensures
        named_tier(tier_name(tier)) == Some(tier),
{
    reveal_strlit("shape_dist");
    reveal_strlit("shape_linref");
    reveal_strlit("osm_relation");
    reveal_strlit("map_matched");
    reveal_strlit("crow_fly");
    assert("shape_dist"@.len() == 10);
    assert("shape_linref"@.len() == 12);
    assert("osm_relation"@.len() == 12);
    assert("map_matched"@.len() == 11);
    assert("crow_fly"@.len() == 8);
    assert("shape_linref"@[0] != "osm_relation"@[0]);
}

/// The street modes a request can name.
#[derive(Debug, Clone, Copy, PartialEq, Eq, Structural)]
pub enum StreetMode {
    Walk,
    Bicycle,
    EBike,
    EScooter,
    Car,
}

pub open spec fn named_mode(name: Seq<char>) -> Option<StreetMode> {
    if name == "walk"@ {
        Some(StreetMode::Walk)
    } else if name == "bicycle"@ {
        Some(StreetMode::Bicycle)
    } else if name == "e_bike"@ {
        Some(StreetMode::EBike)
    } else if name == "e_scooter"@ {
        Some(StreetMode::EScooter)
    } else if name == "car"@ {
        Some(StreetMode::Car)
    } else {
        None
    }
}

pub open spec fn unknown_mode_text(mode: Seq<char>) -> Seq<char> {
    joined_text(
        seq![
            "unknown street mode '"@,
            mode,
            "'; expected one of 'walk', 'bicycle', 'e_bike', 'e_scooter', 'car'"@,
        ],
    )
}

/// The shipped profile that a street mode's name resolves to.
pub fn profile_definition(mode: &str) -> (profile: Result<StreetMode, ValueError>)
    ensures
        match named_mode(mode@) {
            Some(known) => profile == Ok::<StreetMode, ValueError>(known),
            None => profile matches Err(error) && error.message@ == unknown_mode_text(mode@),
        },
{
    if same_text(mode, "walk") {
        Ok(StreetMode::Walk)
    } else if same_text(mode, "bicycle") {
        Ok(StreetMode::Bicycle)
    } else if same_text(mode, "e_bike") {
        Ok(StreetMode::EBike)
    } else if same_text(mode, "e_scooter") {
        Ok(StreetMode::EScooter)
    } else if same_text(mode, "car") {
        Ok(StreetMode::Car)
    } else {
        let pieces: [&str; 3] = [
            "unknown street mode '",
            mode,
            "'; expected one of 'walk', 'bicycle', 'e_bike', 'e_scooter', 'car'",
        ];
        let text = joined(&pieces);
        assert(pieces@.map_values(|piece: &str| piece@) =~= seq![
            "unknown street mode '"@,
            mode@,
            "'; expected one of 'walk', 'bicycle', 'e_bike', 'e_scooter', 'car'"@,
        ]);
        Err(ValueError::new(text))
    }
}

/// What a mode and an optional car delay model (the number of its per-group
/// values) come to: the model applies to the car alone and carries one value
/// per road-class group.
pub open spec fn profile_outcome(mode: Seq<char>, model_groups: Option<nat>) -> Result<
    StreetMode,
    Seq<char>,
> {
    match named_mode(mode) {
        None => Err(unknown_mode_text(mode)),
        Some(known) => match model_groups {
            None => Ok(known),
            Some(groups) => if known != StreetMode::Car {
                Err("the intersection-delay model applies to mode='car' only"@)
            } else if groups != 3 {
                Err("the car delay model carries one value per road-class group (3)"@)
            } else {
                Ok(known)
            },
        },
    }
}

/// The profile of a street query, with its delay model admitted.
pub fn admitted_profile(mode: &str, model_groups: Option<usize>) -> (profile: Result<
    StreetMode,
    ValueError,
>)
    ensures
        outcome(profile) == profile_outcome(
            mode@,
            match model_groups {
                Some(groups) => Some(groups as nat),
                None => None,
            },
        ),
{
    match profile_definition(mode) {
        Err(error) => Err(error),
        Ok(known) => match model_groups {
            None => Ok(known),
            Some(groups) => if known != StreetMode::Car {
                Err(
                    ValueError::new(
                        "the intersection-delay model applies to mode='car' only".to_owned(),
                    ),
                )
            } else if groups != 3 {
                Err(
                    ValueError::new(
                        "the car delay model carries one value per road-class group (3)".to_owned(),
                    ),
                )
            } else {
                Ok(known)
            },
        },
    }
}

/// Fields hold no colon, and put together with colons between them they are
/// the text again.
pub proof fn law_fields_are_the_text_between_colons(text: Seq<char>)
    ensures
        fields(text).len() > 0,
        forall|k: int, i: int|
            0 <= k < fields(text).len() && 0 <= i < fields(text)[k].len() ==> #[trigger] fields(
                text,
            )[k][i] != ':',
        colon_joined(fields(text)) == text,
    decreases text.len(),
{
    reveal_with_fuel(colon_joined, 2);
    if text.len() > 0 {
        let before = fields(text.drop_last());
        law_fields_are_the_text_between_colons(text.drop_last());
        let parts = fields(text);
        if text.last() == ':' {
            assert(parts.drop_last() =~= before);
            assert(colon_joined(parts) =~= colon_joined(before).push(':') + Seq::<char>::empty());
            assert(colon_joined(parts) =~= text);
        } else {
            assert forall|k: int, i: int|
                0 <= k < parts.len() && 0 <= i
                    < parts[k].len() implies #[trigger] parts[k][i] != ':' by {
                if k < parts.len() - 1 {
                    assert(parts[k] == before[k]);
                    assert(before[k][i] != ':');
                } else if i < before.last().len() {
                    assert(before[before.len() - 1][i] != ':');
                }
            }
            assert(parts.drop_last() =~= before.drop_last());
            if before.len() == 1 {
                assert(colon_joined(before) == before[0]);
                assert(colon_joined(parts) == parts[0]);
                assert(parts[0] =~= before[0].push(text.last()));
            } else {
                assert(colon_joined(parts) =~= colon_joined(before).push(text.last()));
            }
            assert(colon_joined(parts) =~= text);
        }
    } else {
        assert(colon_joined(fields(text)) =~= text);
    }
}

/// Texts with a colon between each two.
pub open spec fn colon_joined(parts: Seq<Seq<char>>) -> Seq<char>
    decreases parts.len(),
{
    if parts.len() == 0 {
        Seq::empty()
    } else if parts.len() == 1 {
        parts[0]
    } else {
        colon_joined(parts.drop_last()).push(':') + parts.last()
    }
}

/// A run of digits reads as its number in tens: a digit more makes ten times
/// what was read, and the digit. Anything else does not read.
pub proof fn law_digits_read_in_tens(digits: Seq<char>, next: char)
    ensures
        digits_value(Seq::empty()) == Some(0nat),
        '0' <= next <= '9' ==> (digits_value(digits) matches Some(value) ==> digits_value(
            digits.push(next),
        ) == Some((10 * value + (next as int - '0' as int)) as nat)),
        !('0' <= next <= '9') ==> digits_value(digits.push(next)) is None,
        digits_value(digits) is None ==> digits_value(digits.push(next)) is None,
{
    assert(digits.push(next).drop_last() =~= digits);
}

/// A clock time is its hours, minutes and seconds, which lie below sixty, and
/// has three fields; every such text that fits the clock is one.
pub proof fn law_clock_times_have_three_fields(text: Seq<char>)
    ensures
        ({
            let parts = fields(text);
            &&& clock_seconds(text) matches Some(total) ==> {
                &&& parts.len() == 3
                &&& whole_number(parts[0]) matches Some(hours)
                &&& whole_number(parts[1]) matches Some(minutes)
                &&& whole_number(parts[2]) matches Some(seconds)
                &&& minutes < 60 && seconds < 60
                &&& total == hours * 3600 + minutes * 60 + seconds
            }
            &&& parts.len() == 3 && whole_number(parts[0]) is Some && whole_number(parts[1])
                is Some && whole_number(parts[2]) is Some && whole_number(parts[1])->0 < 60
                && whole_number(parts[2])->0 < 60 && whole_number(parts[0])->0 * 3600
                + whole_number(parts[1])->0 * 60 + whole_number(parts[2])->0 <= u32::MAX
                ==> clock_seconds(text) is Some
        }),
{
}

/// A whole number reads with or without a plus sign before its digits, and
/// never without digits.
pub proof fn law_whole_numbers_may_have_a_sign(digits: Seq<char>)
    requires
        digits.len() > 0 ==> digits[0] != '+',
    ensures
        whole_number(Seq::empty()) is None,
        whole_number(seq!['+'] + digits) == whole_number(digits),
        whole_number(digits) matches Some(number) ==> digits_value(digits) == Some(number as nat),
        digits.len() > 0 ==> (digits_value(digits) matches Some(value) ==> value <= u32::MAX
            ==> whole_number(digits) == Some(value as u32)),
{
    assert((seq!['+'] + digits).drop_first() =~= digits);
}

/// A window is accepted exactly where it is not empty and its percentiles are
/// some, each from zero to a hundred.
pub proof fn law_windows_and_percentiles(window: u32, percentiles: Seq<u64>)
    ensures
        window_fault(window, percentiles) is None ==> window > 0 && percentiles.len() > 0
            && forall|i: int|
            0 <= i < percentiles.len() ==> #[trigger] percentiles[i] <= 0x4059_0000_0000_0000
                || percentiles[i] == 0x8000_0000_0000_0000,
        window_fault(window, percentiles) is Some ==> window == 0 || percentiles.len() == 0
            || exists|i: int|
            0 <= i < percentiles.len() && !(#[trigger] percentiles[i] <= 0x4059_0000_0000_0000
                || percentiles[i] == 0x8000_0000_0000_0000),
{
    if window_fault(window, percentiles) is None {
        assert forall|i: int| 0 <= i < percentiles.len() implies #[trigger] percentiles[i]
            <= 0x4059_0000_0000_0000 || percentiles[i] == 0x8000_0000_0000_0000 by {
            assert(is_percentile(percentiles[i]));
        }
    } else if window > 0 && percentiles.len() > 0 {
        let i = choose|i: int| 0 <= i < percentiles.len() && !is_percentile(
            #[trigger] percentiles[i],
        );
        assert(!(percentiles[i] <= 0x4059_0000_0000_0000 || percentiles[i]
            == 0x8000_0000_0000_0000));
    }
}

/// The point that is refused is the first with a side that is not finite.
pub proof fn law_the_first_bad_point(points: Seq<(u64, u64)>, from: int)
    requires
        0 <= from <= points.len(),
    ensures
        match first_bad_point(points, from) {
            None => forall|i: int|
                from <= i < points.len() ==> f64_is_finite((#[trigger] points[i]).0)
                    && f64_is_finite(points[i].1),
            Some(at) => from <= at < points.len() && !(f64_is_finite(points[at].0)
                && f64_is_finite(points[at].1)) && forall|i: int|
                from <= i < at ==> f64_is_finite((#[trigger] points[i]).0) && f64_is_finite(
                    points[i].1,
                ),
        },
    decreases points.len() - from,
{
    if from < points.len() && point_finite(points[from]) {
        law_the_first_bad_point(points, from + 1);
    }
}

/// Walking options are accepted exactly where the speed is positive and the
/// two limits are amounts; shortcut options where the speed is positive, the
/// limit is an amount and the departures are not the wrong way around.
pub proof fn law_walking_and_shortcut_options(
    speed: u64,
    limit: u64,
    max_snap: u64,
    min_departure: u32,
    max_departure: u32,
)
    ensures
        walking_fault(speed, limit, max_snap) is None <==> f64_is_positive(speed) && f64_is_cost(
            limit,
        ) && f64_is_cost(max_snap),
        shortcut_fault(speed, limit, min_departure, max_departure) is None <==> f64_is_positive(
            speed,
        ) && f64_is_cost(limit) && min_departure <= max_departure,
{
}

/// A fingerprint starts from the standard basis and folds each word in, low
/// bits first mixed and then multiplied by the standard prime.
pub proof fn law_fingerprints_fold_word_by_word(factors: Seq<u64>, next: u64)
    ensures
        folded_factors(Seq::empty()) == 0xcbf2_9ce4_8422_2325,
        folded_factors(factors.push(next)) == (folded_factors(factors) ^ next).wrapping_mul(
            0x0100_0000_01b3,
        ),
{
    assert(factors.push(next).drop_last() =~= factors);
}

/// Route types keep their standard codes apart, and an extended one its own.
pub proof fn law_route_types_keep_their_code(left: RouteType, right: RouteType)
    ensures
        left matches RouteType::Other(code) ==> type_code(left) == code,
        !(left is Other) && !(right is Other) && left != right ==> type_code(left) != type_code(
            right,
        ),
        !(left is Other) ==> 0 <= type_code(left) <= 7 || type_code(left) == 200 || type_code(left)
            == 1100 || type_code(left) == 1500,
        type_code(left) == 3 && !(left is Other) <==> left == RouteType::Bus,
        type_code(left) == 2 && !(left is Other) <==> left == RouteType::Rail,
        type_code(left) == 200 && !(left is Other) <==> left == RouteType::Coach,
        type_code(left) == 1100 && !(left is Other) <==> left == RouteType::Air,
        type_code(left) == 0 && !(left is Other) <==> left == RouteType::Tramway,
        type_code(left) == 1 && !(left is Other) <==> left == RouteType::Subway,
        type_code(left) == 4 && !(left is Other) <==> left == RouteType::Ferry,
        type_code(left) == 5 && !(left is Other) <==> left == RouteType::CableCar,
        type_code(left) == 6 && !(left is Other) <==> left == RouteType::Gondola,
{
}

/// A provenance is known by its own name alone.
pub proof fn law_provenances_are_named(name: Seq<char>)
    ensures
        named_tier(name) == Some(DistanceProvenance::ShapeDist) <==> name == "shape_dist"@,
        named_tier(name) == Some(DistanceProvenance::ShapeLinRef) <==> name == "shape_linref"@,
        named_tier(name) == Some(DistanceProvenance::OsmRelation) <==> name == "osm_relation"@,
        named_tier(name) == Some(DistanceProvenance::MapMatched) <==> name == "map_matched"@,
        named_tier(name) == Some(DistanceProvenance::CrowFly) <==> name == "crow_fly"@,
{
    law_provenance_round_trip(DistanceProvenance::ShapeDist);
    law_provenance_round_trip(DistanceProvenance::ShapeLinRef);
    law_provenance_round_trip(DistanceProvenance::OsmRelation);
    law_provenance_round_trip(DistanceProvenance::MapMatched);
    law_provenance_round_trip(DistanceProvenance::CrowFly);
}

/// A street mode is known by its own name alone.
pub proof fn law_street_modes_are_named(name: Seq<char>)
    ensures
        named_mode(name) == Some(StreetMode::Walk) <==> name == "walk"@,
        named_mode(name) == Some(StreetMode::Bicycle) <==> name == "bicycle"@,
        named_mode(name) == Some(StreetMode::EBike) <==> name == "e_bike"@,
        named_mode(name) == Some(StreetMode::EScooter) <==> name == "e_scooter"@,
        named_mode(name) == Some(StreetMode::Car) <==> name == "car"@,
{
    reveal_strlit("walk");
    reveal_strlit("bicycle");
    reveal_strlit("e_bike");
    reveal_strlit("e_scooter");
    reveal_strlit("car");
    assert("walk"@.len() == 4);
    assert("bicycle"@.len() == 7);
    assert("e_bike"@.len() == 6);
    assert("e_scooter"@.len() == 9);
    assert("car"@.len() == 3);
}

/// A profile is admitted where its mode is known; with a delay model, only the
/// car's, and only with three values.
pub proof fn law_delay_models_are_the_cars(mode: Seq<char>, model_groups: Option<nat>)
    ensures
        profile_outcome(mode, model_groups) is Ok <==> named_mode(mode) is Some && (
        model_groups matches Some(groups) ==> named_mode(mode) == Some(StreetMode::Car) && groups
            == 3),
        profile_outcome(mode, model_groups) matches Ok(known) ==> named_mode(mode) == Some(known),
{
}

} // verus!
