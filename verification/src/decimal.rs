//! Numbers as text: writing integers with a fixed number of decimal places
//! and padding, and reading decimal text into scaled integers. Nothing here
//! rounds: a value with `places` decimal places is an integer count of
//! units of `10^-places`.

use vstd::prelude::*;
use vstd::slice::slice_subrange;
use vstd::string::*;

verus! {

/// The byte of the plus sign.
pub const PLUS: u8 = 43;

/// The byte of the decimal point.
pub const POINT: u8 = 46;

/// The byte of the digit zero.
pub const ZERO: u8 = 48;

/// The byte of the digit nine.
pub const NINE: u8 = 57;

/// The character of the decimal digit `digit`.
pub open spec fn digit_char(digit: int) -> char {
    (ZERO + digit) as u8 as char
}

/// The decimal digits of `value`, most significant first, without leading
/// zeros.
pub open spec fn decimal_text(value: nat) -> Seq<char>
    decreases value,
{
    if value < 10 {
        seq![digit_char(value as int)]
    } else {
        decimal_text(value / 10).push(digit_char((value % 10) as int))
    }
}

/// `count` times the character `fill`.
pub open spec fn repeated(fill: char, count: int) -> Seq<char> {
    Seq::new(
        if count > 0 {
            count as nat
        } else {
            0
        },
        |i: int| fill,
    )
}

/// `value` counted in units of `10^-places`, written with exactly `places`
/// digits behind the decimal point and at least one before it. With no
/// places there is no point.
pub open spec fn fixed_text(value: nat, places: nat) -> Seq<char> {
    let digits = decimal_text(value);
    if places == 0 {
        digits
    } else if digits.len() > places {
        digits.subrange(0, digits.len() - places) + seq!['.'] + digits.subrange(
            digits.len() - places,
            digits.len() as int,
        )
    } else {
        seq!['0', '.'] + repeated('0', places - digits.len()) + digits
    }
}

/// `text` moved to the right edge of a column of `width` characters; text
/// that is wider than the column is left as it is.
pub open spec fn right_aligned(text: Seq<char>, width: nat) -> Seq<char> {
    repeated(' ', width - text.len()) + text
}

/// The digits of `value` from the least significant up.
pub open spec fn is_low_digits(low: Seq<u8>, value: nat) -> bool {
    &&& low.len() == decimal_text(value).len()
    &&& forall|i: int| 0 <= i < low.len() ==> low[i] < 10
    &&& forall|i: int|
        0 <= i < low.len() ==> decimal_text(value)[i] == digit_char(low[low.len() - 1 - i] as int)
}

/// A number has at least one digit, and a number below `10^39` at most 39.
pub proof fn lemma_decimal_text_length(value: nat)
    ensures
        decimal_text(value).len() >= 1,
        value <= u128::MAX ==> decimal_text(value).len() <= 39,
        value <= u64::MAX ==> decimal_text(value).len() <= 20,
{
    lemma_digits_bound(value, 39);
    lemma_digits_bound(value, 20);
    assert(ten_to(20) > u64::MAX && ten_to(39) > u128::MAX) by {
        reveal_with_fuel(ten_to, 40);
    }
}

/// Ten to the power of `exponent`.
pub open spec fn ten_to(exponent: nat) -> nat
    decreases exponent,
{
    if exponent == 0 {
        1
    } else {
        10 * ten_to((exponent - 1) as nat)
    }
}

/// A number below `10^digits` has at most `digits` digits.
proof fn lemma_digits_bound(value: nat, digits: nat)
    ensures
        decimal_text(value).len() >= 1,
        digits >= 1 && value < ten_to(digits) ==> decimal_text(value).len() <= digits,
    decreases value,
{
    if value >= 10 {
        if digits >= 1 {
            lemma_digits_bound(value / 10, (digits - 1) as nat);
            if value < ten_to(digits) {
                assert(digits >= 2) by {
                    reveal_with_fuel(ten_to, 2);
                }
            }
        } else {
            lemma_digits_bound(value / 10, 1);
        }
    } else {
        assert(ten_to(0) == 1);
    }
}

/// The one-character text of a decimal digit.
fn digit_str(digit: u8) -> (r: &'static str)
    requires
        digit < 10,
    ensures
        r@ == seq![digit_char(digit as int)],
{
    proof {
        reveal_strlit("0");
        reveal_strlit("1");
        reveal_strlit("2");
        reveal_strlit("3");
        reveal_strlit("4");
        reveal_strlit("5");
        reveal_strlit("6");
        reveal_strlit("7");
        reveal_strlit("8");
        reveal_strlit("9");
    }
    let text = if digit == 0 {
        "0"
    } else if digit == 1 {
        "1"
    } else if digit == 2 {
        "2"
    } else if digit == 3 {
        "3"
    } else if digit == 4 {
        "4"
    } else if digit == 5 {
        "5"
    } else if digit == 6 {
        "6"
    } else if digit == 7 {
        "7"
    } else if digit == 8 {
        "8"
    } else {
        "9"
    };
    assert(text@ =~= seq![digit_char(digit as int)]);
    text
}

/// The decimal digits of `value`, least significant first.
fn low_digits(value: u128) -> (low: Vec<u8>)
    ensures
        is_low_digits(low@, value as nat),
        1 <= low@.len() <= 39,
{
    let mut low: Vec<u8> = Vec::new();
    low.push((value % 10) as u8);
    let mut rest: u128 = value / 10;
    while rest > 0
        invariant
            low@.len() >= 1,
            forall|i: int| 0 <= i < low@.len() ==> low@[i] < 10,
            decimal_text(value as nat) =~= (if rest == 0 {
                Seq::<char>::empty()
            } else {
                decimal_text(rest as nat)
            }) + Seq::new(low@.len(), |i: int| digit_char(low@[low@.len() - 1 - i] as int)),
        decreases rest,
    {
        low.push((rest % 10) as u8);
        rest = rest / 10;
    }
    proof {
        lemma_decimal_text_length(value as nat);
    }
    low
}

/// Appends `count` times the character of `fill`, which holds one character.
fn append_repeated(out: &mut String, fill: &str, count: usize)
    requires
        fill@.len() == 1,
    ensures
        final(out)@ == old(out)@ + repeated(fill@[0], count as int),
{
    let mut done: usize = 0;
    while done < count
        invariant
            done <= count,
            fill@.len() == 1,
            out@ == old(out)@ + repeated(fill@[0], done as int),
        decreases count - done,
    {
        out.append(fill);
        done = done + 1;
        assert(out@ =~= old(out)@ + repeated(fill@[0], done as int));
    }
    assert(out@ =~= old(out)@ + repeated(fill@[0], count as int));
}

/// Appends the digits `low[from..upto]`, the most significant first.
fn append_digits(out: &mut String, low: &Vec<u8>, from: usize, upto: usize)
    requires
        from <= upto <= low@.len(),
        forall|i: int| 0 <= i < low@.len() ==> low@[i] < 10,
    ensures
        final(out)@ == old(out)@ + Seq::new(
            (upto - from) as nat,
            |i: int| digit_char(low@[upto - 1 - i] as int),
        ),
{
    let mut next: usize = upto;
    while next > from
        invariant
            from <= next <= upto <= low@.len(),
            forall|i: int| 0 <= i < low@.len() ==> low@[i] < 10,
            out@ == old(out)@ + Seq::new(
                (upto - next) as nat,
                |i: int| digit_char(low@[upto - 1 - i] as int),
            ),
        decreases next,
    {
        next = next - 1;
        out.append(digit_str(low[next]));
        assert(out@ =~= old(out)@ + Seq::new(
            (upto - next) as nat,
            |i: int| digit_char(low@[upto - 1 - i] as int),
        ));
    }
}

/// Appends `value`, counted in units of `10^-places`, with `places` digits
/// behind the decimal point.
pub fn append_fixed(out: &mut String, value: u128, places: usize)
    ensures
        final(out)@ == old(out)@ + fixed_text(value as nat, places as nat),
{
    let low = low_digits(value);
    let length = low.len();
    let ghost digits = decimal_text(value as nat);
    if places == 0 {
        append_digits(out, &low, 0, length);
        assert(out@ =~= old(out)@ + fixed_text(value as nat, places as nat));
    } else if length > places {
        append_digits(out, &low, places, length);
        proof {
            reveal_strlit(".");
        }
        out.append(".");
        append_digits(out, &low, 0, places);
        assert(out@ =~= old(out)@ + fixed_text(value as nat, places as nat));
    } else {
        proof {
            reveal_strlit("0.");
            reveal_strlit("0");
        }
        out.append("0.");
        append_repeated(out, "0", places - length);
        append_digits(out, &low, 0, length);
        assert(out@ =~= old(out)@ + fixed_text(value as nat, places as nat));
    }
}

/// `value`, counted in units of `10^-places`, as text with `places` digits
/// behind the decimal point.
pub fn format_fixed(value: u128, places: usize) -> (r: String)
    ensures
        r@ == fixed_text(value as nat, places as nat),
{
    let mut out = String::new();
    append_fixed(&mut out, value, places);
    assert(out@ =~= fixed_text(value as nat, places as nat));
    out
}

/// Appends `text`, moved to the right edge of a column of `width`
/// characters.
pub fn append_right_aligned(out: &mut String, text: &str, width: usize)
    ensures
        final(out)@ == old(out)@ + right_aligned(text@, width as nat),
{
    let length = text.unicode_len();
    if length < width {
        proof {
            reveal_strlit(" ");
        }
        append_repeated(out, " ", width - length);
    }
    out.append(text);
    assert(out@ =~= old(out)@ + right_aligned(text@, width as nat));
}

/// Whether `byte` is an ASCII decimal digit.
pub open spec fn is_digit(byte: u8) -> bool {
    ZERO <= byte <= NINE
}

/// Whether `text` holds decimal digits and nothing else.
pub open spec fn all_digits(text: Seq<u8>) -> bool {
    forall|i: int| 0 <= i < text.len() ==> is_digit(#[trigger] text[i])
}

/// The number that the decimal digits `digits` spell.
pub open spec fn digits_value(digits: Seq<u8>) -> nat
    decreases digits.len(),
{
    if digits.len() == 0 {
        0
    } else {
        digits_value(digits.drop_last()) * 10 + (digits.last() - ZERO) as nat
    }
}

/// `text` without the plus sign that may lead it.
pub open spec fn unsigned(text: Seq<u8>) -> Seq<u8> {
    if text.len() > 0 && text[0] == PLUS {
        text.subrange(1, text.len() as int)
    } else {
        text
    }
}

/// The place of the first decimal point in `text`, or the length of `text`
/// if there is none.
pub open spec fn first_point(text: Seq<u8>) -> int
    decreases text.len(),
{
    if text.len() == 0 || text[0] == POINT {
        0
    } else {
        1 + first_point(text.subrange(1, text.len() as int))
    }
}

/// What stands before the decimal point of `text`.
pub open spec fn whole_part(text: Seq<u8>) -> Seq<u8> {
    let body = unsigned(text);
    body.subrange(0, first_point(body))
}

/// What stands behind the decimal point of `text`; nothing if it has none.
pub open spec fn fraction_part(text: Seq<u8>) -> Seq<u8> {
    let body = unsigned(text);
    if first_point(body) < body.len() {
        body.subrange(first_point(body) + 1, body.len() as int)
    } else {
        Seq::empty()
    }
}

/// Whether `text` is a whole number: digits, with or without a plus sign
/// before them.
pub open spec fn is_integer(text: Seq<u8>) -> bool {
    unsigned(text).len() > 0 && all_digits(unsigned(text))
}

/// Whether `text` is a decimal number: digits with at most one decimal
/// point among them, with or without a plus sign before them. The point may
/// lead or end the digits, but cannot stand alone.
pub open spec fn is_decimal(text: Seq<u8>) -> bool {
    &&& all_digits(whole_part(text))
    &&& all_digits(fraction_part(text))
    &&& whole_part(text).len() + fraction_part(text).len() > 0
}

/// The digit at place `index` behind the decimal point; zero where
/// `fraction` has run out.
pub open spec fn fraction_digit(fraction: Seq<u8>, index: int) -> u8 {
    if 0 <= index < fraction.len() {
        fraction[index]
    } else {
        ZERO
    }
}

/// The digits of `whole` followed by the first `places` digits behind the
/// decimal point.
pub open spec fn shifted_digits(whole: Seq<u8>, fraction: Seq<u8>, places: nat) -> Seq<u8> {
    whole + Seq::new(places, |i: int| fraction_digit(fraction, i))
}

/// The decimal number `text` in units of `10^-places`, rounded down.
pub open spec fn scaled_value(text: Seq<u8>, places: nat) -> nat {
    digits_value(shifted_digits(whole_part(text), fraction_part(text), places))
}

/// Why text could not be read as a number.
#[derive(Clone, Copy, Debug, PartialEq, Eq)]
pub enum NumberError {
    /// The text is not a number of the kind asked for.
    Invalid,
    /// The text is a number, but one too large to hold.
    TooLarge,
}

/// What [`parse_scaled`] returns: the scaled value of a decimal number, if
/// `text` is one and its scaled value fits.
pub open spec fn parsed_scaled(text: Seq<u8>, places: nat) -> Result<u128, NumberError> {
    if !is_decimal(text) {
        Err(NumberError::Invalid)
    } else if scaled_value(text, places) > u128::MAX {
        Err(NumberError::TooLarge)
    } else {
        Ok(scaled_value(text, places) as u128)
    }
}

/// What [`parse_integer`] returns: the value of a whole number, if `text`
/// is one and its value fits.
pub open spec fn parsed_integer(text: Seq<u8>) -> Result<u64, NumberError> {
    if !is_integer(text) {
        Err(NumberError::Invalid)
    } else if digits_value(unsigned(text)) > u64::MAX {
        Err(NumberError::TooLarge)
    } else {
        Ok(digits_value(unsigned(text)) as u64)
    }
}

/// The first decimal point lies within the text or at its end.
proof fn lemma_first_point_bounds(text: Seq<u8>)
    ensures
        0 <= first_point(text) <= text.len(),
    decreases text.len(),
{
    if !(text.len() == 0 || text[0] == POINT) {
        lemma_first_point_bounds(text.subrange(1, text.len() as int));
    }
}

/// The first decimal point is where no point stands before and either a
/// point stands or the text ends.
proof fn lemma_first_point(text: Seq<u8>, place: int)
    requires
        0 <= place <= text.len(),
        forall|i: int| 0 <= i < place ==> text[i] != POINT,
    ensures
        place < text.len() && text[place] == POINT ==> first_point(text) == place,
        place == text.len() ==> first_point(text) == place,
        place <= first_point(text) <= text.len(),
    decreases place,
{
    lemma_first_point_bounds(text);
    if place > 0 {
        let rest = text.subrange(1, text.len() as int);
        assert(text[0] != POINT);
        assert(forall|i: int| 0 <= i < place - 1 ==> rest[i] == text[i + 1]);
        lemma_first_point(rest, place - 1);
        if place < text.len() {
            assert(rest[place - 1] == text[place]);
        }
    }
}

/// More digits never spell a smaller number.
proof fn lemma_digits_grow(digits: Seq<u8>, more: Seq<u8>)
    ensures
        digits_value(digits + more) >= digits_value(digits),
    decreases more.len(),
{
    if more.len() == 0 {
        assert(digits + more =~= digits);
    } else {
        lemma_digits_grow(digits, more.drop_last());
        assert((digits + more).drop_last() =~= digits + more.drop_last());
    }
}

/// Zeros behind digits that spell zero still spell zero.
proof fn lemma_zero_stays(digits: Seq<u8>, more: Seq<u8>)
    requires
        digits_value(digits) == 0,
        forall|i: int| 0 <= i < more.len() ==> more[i] == ZERO,
    ensures
        digits_value(digits + more) == 0,
    decreases more.len(),
{
    if more.len() == 0 {
        assert(digits + more =~= digits);
    } else {
        lemma_zero_stays(digits, more.drop_last());
        assert((digits + more).drop_last() =~= digits + more.drop_last());
    }
}

/// A running value that may have outgrown `u128`.
pub open spec fn tracks(running: Option<u128>, digits: Seq<u8>) -> bool {
    match running {
        Some(value) => value == digits_value(digits),
        None => digits_value(digits) > u128::MAX,
    }
}

/// Takes one more digit into a running value.
fn take_digit(running: Option<u128>, digit: u8, Ghost(digits): Ghost<Seq<u8>>) -> (r: Option<u128>)
    requires
        is_digit(digit),
        tracks(running, digits),
    ensures
        tracks(r, digits.push(digit)),
{
    assert(digits.push(digit).drop_last() =~= digits);
    match running {
        Some(value) => {
            match value.checked_mul(10) {
                Some(tenfold) => tenfold.checked_add((digit - ZERO) as u128),
                None => None,
            }
        },
        None => None,
    }
}

/// Reads the digits of `body` up to its first decimal point or its end.
/// Returns where they end and their running value, or fails at a byte that
/// is neither a digit nor the first point.
fn scan_whole(body: &[u8]) -> (r: Result<(usize, Option<u128>), NumberError>)
    ensures
        match r {
            Ok((point, running)) => {
                &&& point == first_point(body@)
                &&& point <= body@.len()
                &&& all_digits(body@.subrange(0, point as int))
                &&& tracks(running, body@.subrange(0, point as int))
            },
            Err(error) => error == NumberError::Invalid && !all_digits(
                body@.subrange(0, first_point(body@)),
            ),
        },
{
    let mut running: Option<u128> = Some(0);
    let mut next: usize = 0;
    while next < body.len() && body[next] != POINT
        invariant
            next <= body@.len(),
            forall|i: int| 0 <= i < next ==> body@[i] != POINT && is_digit(body@[i]),
            tracks(running, body@.subrange(0, next as int)),
        decreases body@.len() - next,
    {
        let byte = body[next];
        if byte < ZERO || byte > NINE {
            proof {
                lemma_first_point(body@, next + 1);
                let whole = body@.subrange(0, first_point(body@));
                assert(!is_digit(whole[next as int]));
            }
            return Err(NumberError::Invalid);
        }
        running = take_digit(running, byte, Ghost(body@.subrange(0, next as int)));
        assert(body@.subrange(0, next as int).push(byte) =~= body@.subrange(0, next + 1));
        next = next + 1;
    }
    proof {
        lemma_first_point(body@, next as int);
    }
    Ok((next, running))
}

/// Reads the digits behind the decimal point and takes the first `places`
/// of them into the running value. Returns how many were taken, or fails at
/// a byte that is no digit.
fn scan_fraction(
    fraction: &[u8],
    places: usize,
    running: Option<u128>,
    Ghost(whole): Ghost<Seq<u8>>,
) -> (r: Result<(usize, Option<u128>), NumberError>)
    requires
        tracks(running, whole),
    ensures
        match r {
            Ok((taken, running)) => {
                &&& all_digits(fraction@)
                &&& taken <= places
                &&& taken <= fraction@.len()
                &&& taken < places ==> taken == fraction@.len()
                &&& tracks(running, shifted_digits(whole, fraction@, taken as nat))
            },
            Err(error) => error == NumberError::Invalid && !all_digits(fraction@),
        },
{
    let mut running = running;
    let mut taken: usize = 0;
    let mut next: usize = 0;
    assert(shifted_digits(whole, fraction@, 0) =~= whole);
    while next < fraction.len()
        invariant
            next <= fraction@.len(),
            forall|i: int| 0 <= i < next ==> is_digit(fraction@[i]),
            taken <= places,
            taken <= next,
            taken < places ==> taken == next,
            tracks(running, shifted_digits(whole, fraction@, taken as nat)),
        decreases fraction@.len() - next,
    {
        let byte = fraction[next];
        if byte < ZERO || byte > NINE {
            assert(!is_digit(fraction@[next as int]));
            return Err(NumberError::Invalid);
        }
        if taken < places {
            running = take_digit(
                running,
                byte,
                Ghost(shifted_digits(whole, fraction@, taken as nat)),
            );
            assert(shifted_digits(whole, fraction@, taken as nat).push(byte) =~= shifted_digits(
                whole,
                fraction@,
                (taken + 1) as nat,
            ));
            taken = taken + 1;
        }
        next = next + 1;
    }
    Ok((taken, running))
}

/// Fills the running value up with zeros until it has `places` digits
/// behind the decimal point.
fn fill_places(
    running: Option<u128>,
    taken: usize,
    places: usize,
    Ghost(whole): Ghost<Seq<u8>>,
    Ghost(fraction): Ghost<Seq<u8>>,
) -> (r: Result<u128, NumberError>)
    requires
        taken <= places,
        taken < places ==> taken >= fraction.len(),
        tracks(running, shifted_digits(whole, fraction, taken as nat)),
    ensures
        r == if digits_value(shifted_digits(whole, fraction, places as nat)) > u128::MAX {
            Err::<u128, NumberError>(NumberError::TooLarge)
        } else {
            Ok::<u128, NumberError>(
                digits_value(shifted_digits(whole, fraction, places as nat)) as u128,
            )
        },
{
    let mut running = running;
    let mut taken = taken;
    while taken < places
        invariant
            taken <= places,
            taken < places ==> taken >= fraction.len(),
            tracks(running, shifted_digits(whole, fraction, taken as nat)),
        decreases places - taken,
    {
        let ghost done = shifted_digits(whole, fraction, taken as nat);
        let ghost rest = Seq::new(
            (places - taken) as nat,
            |i: int| fraction_digit(fraction, taken + i),
        );
        assert(done + rest =~= shifted_digits(whole, fraction, places as nat));
        match running {
            Some(value) => {
                if value == 0 {
                    proof {
                        lemma_zero_stays(done, rest);
                    }
                    return Ok(0);
                }
            },
            None => {
                proof {
                    lemma_digits_grow(done, rest);
                }
                return Err(NumberError::TooLarge);
            },
        }
        running = take_digit(running, ZERO, Ghost(done));
        assert(done.push(ZERO) =~= shifted_digits(whole, fraction, (taken + 1) as nat));
        taken = taken + 1;
    }
    match running {
        Some(value) => Ok(value),
        None => Err(NumberError::TooLarge),
    }
}

/// Reads a decimal number in units of `10^-places`, rounding down: the
/// digits before the decimal point and the first `places` behind it, filled
/// up with zeros.
pub fn parse_scaled(text: &[u8], places: usize) -> (r: Result<u128, NumberError>)
    ensures
        r == parsed_scaled(text@, places as nat),
{
    let length = text.len();
    let start: usize = if length > 0 && text[0] == PLUS {
        1
    } else {
        0
    };
    let body = slice_subrange(text, start, length);
    assert(body@ =~= unsigned(text@));
    let (point, running) = match scan_whole(body) {
        Ok(found) => found,
        Err(error) => {
            return Err(error);
        },
    };
    let behind: usize = if point < body.len() {
        point + 1
    } else {
        point
    };
    let fraction = slice_subrange(body, behind, body.len());
    assert(fraction@ =~= fraction_part(text@));
    let ghost whole = whole_part(text@);
    let (taken, running) = match scan_fraction(fraction, places, running, Ghost(whole)) {
        Ok(found) => found,
        Err(error) => {
            return Err(error);
        },
    };
    if point == 0 && fraction.len() == 0 {
        return Err(NumberError::Invalid);
    }
    fill_places(running, taken, places, Ghost(whole), Ghost(fraction@))
}

/// Reads a whole number.
pub fn parse_integer(text: &[u8]) -> (r: Result<u64, NumberError>)
    ensures
        r == parsed_integer(text@),
{
    let length = text.len();
    let start: usize = if length > 0 && text[0] == PLUS {
        1
    } else {
        0
    };
    let ghost body = unsigned(text@);
    assert(body =~= text@.subrange(start as int, length as int));
    if length - start == 0 {
        return Err(NumberError::Invalid);
    }
    let mut running: Option<u128> = Some(0);
    let mut next: usize = start;
    while next < length
        invariant
            start <= next <= length,
            length == text@.len(),
            body == unsigned(text@),
            body == text@.subrange(start as int, length as int),
            forall|i: int| start <= i < next ==> is_digit(text@[i]),
            tracks(running, text@.subrange(start as int, next as int)),
        decreases length - next,
    {
        let byte = text[next];
        if byte < ZERO || byte > NINE {
            assert(!is_digit(body[next - start]));
            return Err(NumberError::Invalid);
        }
        running = take_digit(running, byte, Ghost(text@.subrange(start as int, next as int)));
        assert(text@.subrange(start as int, next as int).push(byte) =~= text@.subrange(
            start as int,
            next + 1,
        ));
        next = next + 1;
    }
    assert(all_digits(body)) by {
        assert forall|i: int| 0 <= i < body.len() implies is_digit(#[trigger] body[i]) by {
            assert(body[i] == text@[i + start]);
        }
    }
    assert(text@.subrange(start as int, next as int) =~= body);
    match running {
        Some(value) => {
            if value <= u64::MAX as u128 {
                Ok(value as u64)
            } else {
                Err(NumberError::TooLarge)
            }
        },
        None => Err(NumberError::TooLarge),
    }
}

/// The bytes of a text of ASCII characters.
pub open spec fn bytes_of(text: Seq<char>) -> Seq<u8> {
    Seq::new(text.len(), |i: int| text[i] as u8)
}

/// The digits of a number spell that number.
proof fn lemma_decimal_text_value(value: nat)
    ensures
        all_digits(bytes_of(decimal_text(value))),
        digits_value(bytes_of(decimal_text(value))) == value,
        decimal_text(value).len() >= 1,
    decreases value,
{
    let digits = bytes_of(decimal_text(value));
    if value >= 10 {
        lemma_decimal_text_value(value / 10);
        let front = bytes_of(decimal_text(value / 10));
        assert(digits.drop_last() =~= front);
        assert(digits.last() == ZERO + value % 10);
        assert forall|i: int| 0 <= i < digits.len() implies is_digit(#[trigger] digits[i]) by {
            if i < front.len() {
                assert(digits[i] == front[i]);
            }
        }
    } else {
        assert(digits.drop_last() =~= Seq::<u8>::empty());
        assert(digits.last() == ZERO + value);
        assert(digits_value(Seq::<u8>::empty()) == 0);
    }
}

/// Zeros before digits do not change the number they spell.
proof fn lemma_leading_zeros(zeros: Seq<u8>, digits: Seq<u8>)
    requires
        forall|i: int| 0 <= i < zeros.len() ==> zeros[i] == ZERO,
    ensures
        digits_value(zeros + digits) == digits_value(digits),
    decreases digits.len(),
{
    if digits.len() == 0 {
        assert(digits_value(Seq::<u8>::empty()) == 0);
        lemma_zero_stays(Seq::<u8>::empty(), zeros);
        assert(Seq::<u8>::empty() + zeros =~= zeros + digits);
    } else {
        lemma_leading_zeros(zeros, digits.drop_last());
        assert((zeros + digits).drop_last() =~= zeros + digits.drop_last());
    }
}

/// What is written with `places` decimal places reads back as the number
/// that was written.
pub proof fn lemma_written_reads_back(value: nat, places: nat)
    ensures
        is_decimal(bytes_of(fixed_text(value, places))),
        scaled_value(bytes_of(fixed_text(value, places)), places) == value,
        value <= u128::MAX ==> parsed_scaled(bytes_of(fixed_text(value, places)), places) == Ok::<
            u128,
            NumberError,
        >(value as u128),
{
    lemma_decimal_text_value(value);
    let digits = bytes_of(decimal_text(value));
    let text = bytes_of(fixed_text(value, places));
    let length = digits.len() as int;
    assert(is_digit(digits[0]));
    if places == 0 {
        assert(text =~= digits);
        assert(unsigned(text) == text);
        assert forall|i: int| 0 <= i < text.len() implies text[i] != POINT by {
            assert(is_digit(text[i]));
        }
        lemma_first_point(text, length);
        assert(whole_part(text) =~= digits);
        assert(fraction_part(text) =~= Seq::<u8>::empty());
        assert(shifted_digits(digits, Seq::<u8>::empty(), 0) =~= digits);
    } else if length > places {
        let whole = digits.subrange(0, length - places);
        let fraction = digits.subrange(length - places, length);
        assert(text =~= whole + seq![POINT] + fraction);
        assert(text[0] == digits[0]);
        assert(unsigned(text) == text);
        assert forall|i: int| 0 <= i < length - places implies text[i] != POINT by {
            assert(text[i] == digits[i]);
            assert(is_digit(digits[i]));
        }
        lemma_first_point(text, length - places);
        assert(whole_part(text) =~= whole);
        assert(fraction_part(text) =~= fraction);
        assert(shifted_digits(whole, fraction, places) =~= digits);
        assert forall|i: int| 0 <= i < whole.len() implies is_digit(#[trigger] whole[i]) by {
            assert(whole[i] == digits[i]);
            assert(is_digit(digits[i]));
        }
        assert forall|i: int| 0 <= i < fraction.len() implies is_digit(#[trigger] fraction[i]) by {
            assert(fraction[i] == digits[i + length - places]);
            assert(is_digit(digits[i + length - places]));
        }
    } else {
        let zeros = Seq::new((places - length) as nat, |i: int| ZERO);
        let whole = seq![ZERO];
        let fraction = zeros + digits;
        assert(text =~= whole + seq![POINT] + fraction);
        assert(unsigned(text) == text);
        lemma_first_point(text, 1);
        assert(whole_part(text) =~= whole);
        assert(fraction_part(text) =~= fraction);
        assert(shifted_digits(whole, fraction, places) =~= (whole + zeros) + digits);
        lemma_leading_zeros(whole + zeros, digits);
        assert(is_digit(whole[0]));
        assert forall|i: int| 0 <= i < fraction.len() implies is_digit(#[trigger] fraction[i]) by {
            if i >= zeros.len() {
                assert(fraction[i] == digits[i - zeros.len()]);
                assert(is_digit(digits[i - zeros.len()]));
            }
        }
    }
}

} // verus!
