use crate::dimensions::Dimensions;
use crate::error::Error;
use vstd::prelude::*;

verus! {

/// The byte `x`, which separates the fields of the prober's line.
pub const SEPARATOR: u8 = 120;

/// The byte `+`, which may stand before a number.
pub const PLUS: u8 = 43;

/// Whether the byte is one of `0` to `9`.
pub open spec fn is_digit(byte: u8) -> bool {
    48 <= byte <= 57
}

/// The number that decimal digits spell.
pub open spec fn decimal_value(digits: Seq<u8>) -> nat
    decreases digits.len(),
{
    if digits.len() == 0 {
        0
    } else {
        decimal_value(digits.drop_last()) * 10 + (digits.last() - 48) as nat
    }
}

/// The digits of a field: the field without the `+` that may stand first.
pub open spec fn digits_of(field: Seq<u8>) -> Seq<u8> {
    if field.len() > 0 && field[0] == PLUS {
        field.skip(1)
    } else {
        field
    }
}

/// The number that a field spells: at least one decimal digit, with or
/// without a `+` before them, and nothing else, worth no more than
/// `u32::MAX`.
pub open spec fn number_of(field: Seq<u8>) -> Option<u32> {
    let digits = digits_of(field);
    if digits.len() > 0 && (forall|i: int| 0 <= i < digits.len() ==> is_digit(digits[i]))
        && decimal_value(digits) <= u32::MAX {
        Some(decimal_value(digits) as u32)
    } else {
        None
    }
}

/// Where the field that starts at `from` ends: at the next separator, or
/// at the end of the line.
pub open spec fn field_end(line: Seq<u8>, from: int) -> int
    decreases line.len() - from,
{
    if from >= line.len() {
        line.len() as int
    } else if line[from] == SEPARATOR {
        from
    } else {
        field_end(line, from + 1)
    }
}

/// Whether a field starts at `at`: at the start of the line, and after
/// each separator.
pub open spec fn is_field_start(line: Seq<u8>, at: int) -> bool {
    0 <= at <= line.len() && (at == 0 || line[at - 1] == SEPARATOR)
}

/// Whether every field of the line that starts before `limit` spells a
/// number.
pub open spec fn fields_are_numbers(line: Seq<u8>, limit: int) -> bool {
    forall|at: int|
        #[trigger] is_field_start(line, at) && at < limit ==> number_of(
            line.subrange(at, field_end(line, at)),
        ) is Some
}

/// The dimensions that a line of the prober spells: numbers separated by
/// `x`, at least two of them, of which the first is the width and the
/// second the height.
pub open spec fn dimensions_of_line(line: Seq<u8>) -> Option<Dimensions> {
    let first_end = field_end(line, 0);
    if first_end < line.len() && fields_are_numbers(line, line.len() as int + 1) {
        Some(
            Dimensions {
                width: number_of(line.subrange(0, first_end))->0,
                height: number_of(
                    line.subrange(first_end + 1, field_end(line, first_end + 1)),
                )->0,
            },
        )
    } else {
        None
    }
}

/// A field ends within the line, at or after its start, and holds no
/// separator.
proof fn lemma_field_end(line: Seq<u8>, from: int)
    requires
        0 <= from <= line.len(),
    ensures
        from <= field_end(line, from) <= line.len(),
        field_end(line, from) < line.len() ==> line[field_end(line, from)] == SEPARATOR,
        forall|i: int| from <= i < field_end(line, from) ==> line[i] != SEPARATOR,
    decreases line.len() - from,
{
    if from < line.len() && line[from] != SEPARATOR {
        lemma_field_end(line, from + 1);
    }
}

/// The value of digits, one digit further.
proof fn lemma_decimal_value_step(digits: Seq<u8>, i: int)
    requires
        0 <= i < digits.len(),
    ensures
        decimal_value(digits.take(i + 1)) == decimal_value(digits.take(i)) * 10 + (digits[i]
            - 48) as nat,
{
    assert(digits.take(i + 1).drop_last() =~= digits.take(i));
}

/// Digits are worth at least what their first few are worth.
proof fn lemma_decimal_value_grows(digits: Seq<u8>, i: int)
    requires
        0 <= i <= digits.len(),
        forall|j: int| 0 <= j < digits.len() ==> is_digit(digits[j]),
    ensures
        decimal_value(digits.take(i)) <= decimal_value(digits),
    decreases digits.len() - i,
{
    if i < digits.len() {
        lemma_decimal_value_step(digits, i);
        lemma_decimal_value_grows(digits, i + 1);
    } else {
        assert(digits.take(i) =~= digits);
    }
}

/// Where the field that starts at `from` ends.
fn find_field_end(line: &[u8], from: usize) -> (end: usize)
    requires
        from <= line@.len(),
    ensures
        end == field_end(line@, from as int),
        from <= end <= line@.len(),
{
    let mut end: usize = from;
    while end < line.len() && line[end] != SEPARATOR
        invariant
            from <= end <= line@.len(),
            field_end(line@, from as int) == field_end(line@, end as int),
        decreases line@.len() - end,
    {
        end = end + 1;
    }
    proof {
        lemma_field_end(line@, from as int);
    }
    end
}

/// The number that the bytes from `start` up to `end` spell.
fn parse_number(line: &[u8], start: usize, end: usize) -> (number: Option<u32>)
    requires
        start <= end <= line@.len(),
    ensures
        number == number_of(line@.subrange(start as int, end as int)),
{
    let ghost field: Seq<u8> = line@.subrange(start as int, end as int);
    let ghost digits: Seq<u8> = digits_of(field);
    let first: usize = if start < end && line[start] == PLUS {
        start + 1
    } else {
        start
    };
    assert(digits =~= line@.subrange(first as int, end as int));
    if first == end {
        return None;
    }
    let mut value: u64 = 0;
    let mut i: usize = first;
    while i < end
        invariant
            first <= i <= end <= line@.len(),
            digits == line@.subrange(first as int, end as int),
            digits == digits_of(line@.subrange(start as int, end as int)),
            forall|j: int| 0 <= j < i - first ==> is_digit(digits[j]),
            value == decimal_value(digits.take(i - first)),
            value <= u32::MAX,
        decreases end - i,
    {
        let byte: u8 = line[i];
        if byte < 48 || byte > 57 {
            assert(!is_digit(digits[i - first]));
            return None;
        }
        proof {
            lemma_decimal_value_step(digits, i - first);
        }
        value = value * 10 + (byte - 48) as u64;
        if value > u32::MAX as u64 {
            proof {
                if forall|j: int| 0 <= j < digits.len() ==> is_digit(digits[j]) {
                    lemma_decimal_value_grows(digits, i - first + 1);
                }
            }
            return None;
        }
        i = i + 1;
    }
    assert(digits.take(end - first) =~= digits);
    Some(value as u32)
}

/// Reads the dimensions off the line in which the prober reports them,
/// `<width>x<height>`. Each field is a decimal number that fits 32 bits;
/// fields after the second are read as numbers too and then left aside.
pub fn parse_dimensions(line: &[u8]) -> (dimensions: Result<Dimensions, Error>)
    ensures
        match dimensions {
            Ok(parsed) => dimensions_of_line(line@) == Some(parsed),
            Err(error) => dimensions_of_line(line@) is None && error == Error::ParseDimensionsError,
        },
{
    let first_end: usize = find_field_end(line, 0);
    if first_end >= line.len() {
        return Err(Error::ParseDimensionsError);
    }
    let width: u32 = match parse_number(line, 0, first_end) {
        Some(number) => number,
        None => {
            assert(is_field_start(line@, 0));
            return Err(Error::ParseDimensionsError);
        },
    };
    proof {
        lemma_field_end(line@, 0);
    }
    let second_end: usize = find_field_end(line, first_end + 1);
    let height: u32 = match parse_number(line, first_end + 1, second_end) {
        Some(number) => number,
        None => {
            assert(is_field_start(line@, first_end + 1));
            return Err(Error::ParseDimensionsError);
        },
    };
    proof {
        lemma_field_end(line@, first_end + 1);
    }
    let mut end: usize = second_end;
    while end < line.len()
        invariant
            first_end < end <= line@.len(),
            end < line@.len() ==> line@[end as int] == SEPARATOR,
            fields_are_numbers(line@, end + 1),
        decreases line@.len() - end,
    {
        let next_end: usize = find_field_end(line, end + 1);
        if parse_number(line, end + 1, next_end).is_none() {
            assert(is_field_start(line@, end + 1));
            return Err(Error::ParseDimensionsError);
        }
        proof {
            lemma_field_end(line@, end + 1);
        }
        end = next_end;
    }
    assert(is_field_start(line@, 0));
    assert(is_field_start(line@, first_end + 1));
    Ok(Dimensions::new(width, height))
}

} // verus!
