//! Settings from text, such as the values of environment variables.

use vstd::prelude::*;

verus! {

pub open spec fn is_digit(c: char) -> bool {
    '0' <= c <= '9'
}

/// The value of a string of decimal digits.
pub open spec fn digits_value(digits: Seq<char>) -> nat
    decreases digits.len(),
{
    if digits.len() == 0 {
        0
    } else {
        digits_value(digits.drop_last()) * 10 + (digits.last() as u32 - '0' as u32) as nat
    }
}

/// The characters behind an optional plus sign.
pub open spec fn unsigned_part(text: Seq<char>) -> Seq<char> {
    if text.len() > 0 && text[0] == '+' {
        text.drop_first()
    } else {
        text
    }
}

/// The number that a text denotes: an optional plus sign, and then decimal digits,
/// at least one and nothing else.
pub open spec fn decimal_value(text: Seq<char>) -> Option<nat> {
    let digits = unsigned_part(text);
    if digits.len() > 0 && forall|i: int| 0 <= i < digits.len() ==> is_digit(#[trigger] digits[i]) {
        Some(digits_value(digits))
    } else {
        None
    }
}

/// The number that a text denotes, if it is at most `max`.
pub open spec fn number_up_to(text: Seq<char>, max: nat) -> Option<nat> {
    match decimal_value(text) {
        Some(value) => if value <= max {
            Some(value)
        } else {
            None
        },
        None => None,
    }
}

/// `str::parse::<u64>`: it succeeds exactly on an optional plus sign followed by
/// decimal digits, at least one, with a value that is a `u64`, and then gives the
/// value.
#[verifier::external_body]
fn parse_u64(text: &str) -> (value: Option<u64>)
    ensures
        match value {
            Some(v) => number_up_to(text@, u64::MAX as nat) == Some(v as nat),
            None => number_up_to(text@, u64::MAX as nat) is None,
        },
{
    text.parse::<u64>().ok()
}

/// What the text of a setting holds.
#[derive(Clone, Copy, Debug, PartialEq, Eq, Structural)]
pub enum Setting {
    /// The setting is not there.
    Missing,
    /// The text is no number in the range of the setting.
    Invalid,
    Number(u64),
}

/// Reads a numeric setting whose largest value is `max`. An invalid one is told
/// apart from a missing one, so that it can be reported.
pub fn env_parsed(raw: Option<&str>, max: u64) -> (setting: Setting)
    ensures
        setting == match raw {
            None => Setting::Missing,
            Some(text) => match number_up_to(text@, max as nat) {
                Some(value) => Setting::Number(value as u64),
                None => Setting::Invalid,
            },
        },
{
    match raw {
        None => Setting::Missing,
        Some(text) => match parse_u64(text) {
            Some(value) => if value <= max {
                Setting::Number(value)
            } else {
                Setting::Invalid
            },
            None => Setting::Invalid,
        },
    }
}

/// The value of a numeric setting: the default where it is missing or invalid.
pub open spec fn setting_or(raw: Option<Seq<char>>, max: nat, default: nat) -> nat {
    match raw {
        Some(text) => match number_up_to(text, max) {
            Some(value) => value,
            None => default,
        },
        None => default,
    }
}

/// The characters of an optional text.
pub open spec fn optional_text(raw: Option<&str>) -> Option<Seq<char>> {
    match raw {
        Some(text) => Some(text@),
        None => None,
    }
}

/// A text setting, or its default where it is missing.
pub fn env_string(raw: Option<&str>, default: &str) -> (value: String)
    ensures
        value@ == match raw {
            Some(text) => text@,
            None => default@,
        },
{
    match raw {
        Some(text) => text.to_owned(),
        None => default.to_owned(),
    }
}

pub fn env_u32(raw: Option<&str>, default: u32) -> (value: u32)
    ensures
        value == setting_or(optional_text(raw), u32::MAX as nat, default as nat),
{
    match env_parsed(raw, u32::MAX as u64) {
        Setting::Number(value) => value as u32,
        _ => default,
    }
}

pub fn env_usize(raw: Option<&str>, default: usize) -> (value: usize)
    ensures
        value == setting_or(optional_text(raw), usize::MAX as nat, default as nat),
{
    match env_parsed(raw, usize::MAX as u64) {
        Setting::Number(value) => value as usize,
        _ => default,
    }
}

pub fn env_u64(raw: Option<&str>, default: u64) -> (value: u64)
    ensures
        value == setting_or(optional_text(raw), u64::MAX as nat, default as nat),
{
    match env_parsed(raw, u64::MAX) {
        Setting::Number(value) => value,
        _ => default,
    }
}

/// A number in the range of a setting is taken as it is written. Anything else, or
/// nothing at all, leaves the default.
pub proof fn numbers_are_taken_as_written(text: Seq<char>, max: nat, default: nat)
    ensures
        match decimal_value(text) {
            Some(value) if value <= max => {
                &&& setting_or(Some(text), max, default) == value
                &&& number_up_to(text, max) == Some(value)
            },
            _ => {
                &&& setting_or(Some(text), max, default) == default
                &&& number_up_to(text, max) is None
            },
        },
        setting_or(None, max, default) == default,
{
}

/// Numbers are written in decimal: a digit stands for itself, and each further digit
/// counts the ones before it ten times.
pub proof fn further_digit_counts_tenfold(text: Seq<char>, c: char)
    requires
        '0' <= c <= '9',
    ensures
        decimal_value(seq![c]) == Some((c as u32 - '0' as u32) as nat),
        decimal_value(text) matches Some(value) ==> decimal_value(text.push(c)) == Some(
            (10 * value + (c as u32 - '0' as u32)) as nat,
        ),
{
    let one = seq![c];
    assert(unsigned_part(one) =~= one);
    assert(digits_value(one.drop_last()) == 0);
    assert(one.last() == c);
    if decimal_value(text) is Some {
        let digits = unsigned_part(text);
        let more = unsigned_part(text.push(c));
        assert(more =~= digits.push(c));
        assert(more.drop_last() =~= digits);
        assert forall|i: int| 0 <= i < more.len() implies is_digit(#[trigger] more[i]) by {
            if i < digits.len() {
                assert(is_digit(digits[i]));
            }
        }
    }
}

/// A text is a number only if it has a digit and nothing but digits, except that it may
/// begin with one plus sign, which changes nothing.
pub proof fn only_digits_make_a_number(text: Seq<char>)
    ensures
        decimal_value(text) is Some ==> text.len() > 0,
        decimal_value(text) is Some ==> forall|i: int|
            1 <= i < text.len() ==> '0' <= (#[trigger] text[i]) <= '9',
        decimal_value(text) is Some && text[0] != '+' ==> {
            &&& '0' <= text[0] <= '9'
            &&& decimal_value(seq!['+'] + text) == decimal_value(text)
        },
        decimal_value(seq!['+']) is None,
{
    let digits = unsigned_part(text);
    let plus = seq!['+'];
    assert(unsigned_part(plus) =~= Seq::<char>::empty());
    assert(unsigned_part(plus + text) =~= text);
    if decimal_value(text) is Some {
        assert forall|i: int| 1 <= i < text.len() implies '0' <= (#[trigger] text[i]) <= '9' by {
            if digits.len() == text.len() {
                assert(is_digit(digits[i]));
            } else {
                assert(is_digit(digits[i - 1]));
            }
        }
        if text[0] != '+' {
            assert(is_digit(digits[0]));
        }
    }
}

} // verus!
