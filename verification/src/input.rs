//! Reading one observation from a line of text: the line is split at ASCII
//! whitespace, one field is picked by its zero-based index and read as a
//! number.

use crate::bucket::MAX_TRACKABLE_VALUE;
use crate::decimal::parse_integer;
use crate::decimal::parse_scaled;
use crate::decimal::parsed_integer;
use crate::decimal::parsed_scaled;
use crate::decimal::NumberError;
use vstd::prelude::*;
use vstd::slice::slice_subrange;

verus! {

/// Why a line gave no observation.
#[derive(Clone, Copy, Debug, PartialEq, Eq)]
pub enum InputError {
    /// The line has no field with the index asked for.
    MissingField,
    /// The field is not a number of the kind asked for.
    NotNumeric,
    /// The field is a number above [`MAX_TRACKABLE_VALUE`].
    OutOfRange,
}

/// Whether `byte` is ASCII whitespace: space, tab, line feed, form feed or
/// carriage return.
pub open spec fn is_space(byte: u8) -> bool {
    byte == 32 || byte == 9 || byte == 10 || byte == 12 || byte == 13
}

/// The first place at or behind `from` that holds no whitespace, or the
/// length of `line` if there is none.
pub open spec fn skip_spaces(line: Seq<u8>, from: int) -> int
    decreases line.len() - from,
{
    if from < 0 || from >= line.len() {
        line.len() as int
    } else if !is_space(line[from]) {
        from
    } else {
        skip_spaces(line, from + 1)
    }
}

/// The first place at or behind `from` that holds whitespace, or the length
/// of `line` if there is none.
pub open spec fn skip_field(line: Seq<u8>, from: int) -> int
    decreases line.len() - from,
{
    if from < 0 || from >= line.len() {
        line.len() as int
    } else if is_space(line[from]) {
        from
    } else {
        skip_field(line, from + 1)
    }
}

/// Where the field with index `column` starts; the length of `line` if it
/// has no such field.
pub open spec fn field_start(line: Seq<u8>, column: nat) -> int
    decreases column,
{
    if column == 0 {
        skip_spaces(line, 0)
    } else {
        skip_spaces(line, skip_field(line, field_start(line, (column - 1) as nat)))
    }
}

/// Whether `line` has a field with index `column`.
pub open spec fn has_field(line: Seq<u8>, column: nat) -> bool {
    field_start(line, column) < line.len()
}

/// The field with index `column`.
pub open spec fn field(line: Seq<u8>, column: nat) -> Seq<u8> {
    line.subrange(field_start(line, column), skip_field(line, field_start(line, column)))
}

/// The observation that a field spells. Without `places` the field must be
/// a whole number. With `places` it is a decimal number, taken in units of
/// `10^-places` and rounded down.
pub open spec fn observation_of(text: Seq<u8>, places: Option<usize>) -> Result<u64, InputError> {
    match places {
        None => match parsed_integer(text) {
            Ok(value) => if value <= MAX_TRACKABLE_VALUE {
                Ok(value)
            } else {
                Err(InputError::OutOfRange)
            },
            Err(NumberError::Invalid) => Err(InputError::NotNumeric),
            Err(NumberError::TooLarge) => Err(InputError::OutOfRange),
        },
        Some(places) => match parsed_scaled(text, places as nat) {
            Ok(value) => if value <= MAX_TRACKABLE_VALUE {
                Ok(value as u64)
            } else {
                Err(InputError::OutOfRange)
            },
            Err(NumberError::Invalid) => Err(InputError::NotNumeric),
            Err(NumberError::TooLarge) => Err(InputError::OutOfRange),
        },
    }
}

/// The observation in field `column` of `line`.
pub open spec fn line_observation(line: Seq<u8>, column: nat, places: Option<usize>) -> Result<
    u64,
    InputError,
> {
    if has_field(line, column) {
        observation_of(field(line, column), places)
    } else {
        Err(InputError::MissingField)
    }
}

/// Both skips stay within the line and stop where they say.
pub proof fn lemma_skips(line: Seq<u8>, from: int)
    requires
        0 <= from <= line.len(),
    ensures
        from <= skip_spaces(line, from) <= line.len(),
        from <= skip_field(line, from) <= line.len(),
        forall|i: int| from <= i < skip_spaces(line, from) ==> is_space(line[i]),
        forall|i: int| from <= i < skip_field(line, from) ==> !is_space(line[i]),
        skip_spaces(line, from) < line.len() ==> !is_space(line[skip_spaces(line, from)]),
        skip_field(line, from) < line.len() ==> is_space(line[skip_field(line, from)]),
    decreases line.len() - from,
{
    if from < line.len() {
        lemma_skips(line, from + 1);
    }
}

/// A field starts within the line or at its end; once a line has run out of
/// fields it has none with a higher index.
pub proof fn lemma_field_start(line: Seq<u8>, column: nat)
    ensures
        0 <= field_start(line, column) <= line.len(),
        has_field(line, column) ==> field(line, column).len() > 0,
        has_field(line, column) ==> forall|i: int|
            0 <= i < field(line, column).len() ==> !is_space(#[trigger] field(line, column)[i]),
        column > 0 && !has_field(line, (column - 1) as nat) ==> !has_field(line, column),
    decreases column,
{
    lemma_skips(line, 0);
    if column > 0 {
        lemma_field_start(line, (column - 1) as nat);
        let before = field_start(line, (column - 1) as nat);
        lemma_skips(line, before);
        lemma_skips(line, skip_field(line, before));
    }
    lemma_skips(line, field_start(line, column));
}

/// The first place at or behind `from` that holds no whitespace.
fn next_field(line: &[u8], from: usize) -> (r: usize)
    requires
        from <= line@.len(),
    ensures
        r == skip_spaces(line@, from as int),
        from <= r <= line@.len(),
        r < line@.len() ==> !is_space(line@[r as int]),
{
    let mut at: usize = from;
    while at < line.len() && is_space_byte(line[at])
        invariant
            from <= at <= line@.len(),
            skip_spaces(line@, from as int) == skip_spaces(line@, at as int),
        decreases line@.len() - at,
    {
        at = at + 1;
    }
    at
}

/// The first place at or behind `from` that holds whitespace.
fn field_end(line: &[u8], from: usize) -> (r: usize)
    requires
        from <= line@.len(),
    ensures
        r == skip_field(line@, from as int),
        from <= r <= line@.len(),
{
    let mut at: usize = from;
    while at < line.len() && !is_space_byte(line[at])
        invariant
            from <= at <= line@.len(),
            skip_field(line@, from as int) == skip_field(line@, at as int),
        decreases line@.len() - at,
    {
        at = at + 1;
    }
    at
}

/// Whether `byte` is ASCII whitespace.
pub fn is_space_byte(byte: u8) -> (r: bool)
    ensures
        r == is_space(byte),
{
    byte == 32 || byte == 9 || byte == 10 || byte == 12 || byte == 13
}

/// Finds the field with index `column` in `line`: where it starts and
/// where it ends. Returns nothing if the line has fewer fields.
pub fn find_field(line: &[u8], column: usize) -> (r: Option<(usize, usize)>)
    ensures
        r is Some <==> has_field(line@, column as nat),
        r matches Some((start, end)) ==> start == field_start(line@, column as nat) && end
            == skip_field(line@, start as int) && start < end <= line@.len(),
{
    let mut start = next_field(line, 0);
    let mut index: usize = 0;
    while index < column && start < line.len()
        invariant
            index <= column,
            start <= line@.len(),
            start == field_start(line@, index as nat),
            start < line@.len() ==> !is_space(line@[start as int]),
        decreases column - index,
    {
        let end = field_end(line, start);
        start = next_field(line, end);
        index = index + 1;
    }
    if start < line.len() {
        let end = field_end(line, start);
        proof {
            lemma_skips(line@, start + 1);
        }
        Some((start, end))
    } else {
        proof {
            lemma_no_later_field(line@, index as nat, column as nat);
        }
        None
    }
}

/// A line that has no field with index `column` has none with a higher
/// index.
pub proof fn lemma_no_later_field(line: Seq<u8>, column: nat, later: nat)
    requires
        column <= later,
        !has_field(line, column),
    ensures
        !has_field(line, later),
    decreases later,
{
    if column < later {
        lemma_no_later_field(line, column, (later - 1) as nat);
        lemma_field_start(line, later);
    }
}

/// Reads the observation that `text` spells. Without `places` the text
/// must be a whole number. With `places` it is a decimal number, taken in
/// units of `10^-places` and rounded down.
pub fn parse_field(text: &[u8], places: Option<usize>) -> (r: Result<u64, InputError>)
    ensures
        r == observation_of(text@, places),
{
    match places {
        None => match parse_integer(text) {
            Ok(value) => if value <= MAX_TRACKABLE_VALUE {
                Ok(value)
            } else {
                Err(InputError::OutOfRange)
            },
            Err(NumberError::Invalid) => Err(InputError::NotNumeric),
            Err(NumberError::TooLarge) => Err(InputError::OutOfRange),
        },
        Some(places) => match parse_scaled(text, places) {
            Ok(value) => if value <= MAX_TRACKABLE_VALUE as u128 {
                Ok(value as u64)
            } else {
                Err(InputError::OutOfRange)
            },
            Err(NumberError::Invalid) => Err(InputError::NotNumeric),
            Err(NumberError::TooLarge) => Err(InputError::OutOfRange),
        },
    }
}

/// Reads the observation in field `column` of `line`.
pub fn parse_line(line: &[u8], column: usize, places: Option<usize>) -> (r: Result<
    u64,
    InputError,
>)
    ensures
        r == line_observation(line@, column as nat, places),
        r matches Ok(value) ==> value <= MAX_TRACKABLE_VALUE,
{
    match find_field(line, column) {
        Some((start, end)) => parse_field(slice_subrange(line, start, end), places),
        None => Err(InputError::MissingField),
    }
}

} // verus!
