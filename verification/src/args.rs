//! Reading a problem from program arguments: the item string, split into
//! rows of digits, and the optional numbers after it.

use crate::rules::items_well_formed;
use vstd::prelude::*;
use vstd::utf8::encode_utf8;

verus! {

/// The size of a group where the arguments give none.
pub const DEFAULT_SETS: usize = 3;

/// The number of attributes of an item where the arguments give none.
pub const DEFAULT_VARIANTS: usize = 4;

/// The number of items where the arguments give none.
pub const DEFAULT_ITEMS: usize = 12;

/// The ASCII code of the digit `0`.
pub const DIGIT_ZERO: u8 = 48;

/// The ASCII code of the digit `9`.
pub const DIGIT_NINE: u8 = 57;

/// The ASCII code of the sign `+`.
pub const PLUS_SIGN: u8 = 43;

/// Why a list of arguments describes no problem.
#[derive(Clone, Copy, Debug, PartialEq, Eq, Structural)]
pub enum ArgsError {
    /// There is no item string.
    MissingItems,
    /// The group size is not a number.
    BadSetSize,
    /// The attribute count is not a number.
    BadVariantCount,
    /// The item count is not a number.
    BadItemCount,
    /// The item count is zero.
    ZeroItemCount,
    /// The length of the item string is no multiple of the item count.
    ItemCountMismatch,
    /// The attribute count is zero.
    ZeroVariantCount,
    /// The length of the item string is no multiple of the attribute count.
    VariantCountMismatch,
    /// The item string holds something else than the digits 0 to 9.
    NotADigit,
}

/// The byte is one of the ASCII digits `0` to `9`.
pub open spec fn is_digit(byte: u8) -> bool {
    DIGIT_ZERO <= byte <= DIGIT_NINE
}

/// The number that an ASCII digit stands for.
pub open spec fn digit_of(byte: u8) -> nat {
    (byte - DIGIT_ZERO) as nat
}

/// Every byte of the text is an ASCII digit.
pub open spec fn all_digits(text: Seq<u8>) -> bool {
    forall|i: int| 0 <= i < text.len() ==> is_digit(#[trigger] text[i])
}

/// The number written by a row of decimal digits, the most significant one
/// first.
pub open spec fn digits_value(digits: Seq<u8>) -> nat
    decreases digits.len(),
{
    if digits.len() == 0 {
        0
    } else {
        10 * digits_value(digits.drop_last()) + digit_of(digits.last())
    }
}

/// The text without the one `+` that may stand before a number.
pub open spec fn unsigned_part(text: Seq<u8>) -> Seq<u8> {
    if text.len() > 0 && text[0] == PLUS_SIGN {
        text.skip(1)
    } else {
        text
    }
}

/// The number that the text writes in decimal: an optional `+`, then one or
/// more digits and nothing else, with a value that a `usize` holds.
pub open spec fn parsed_number(text: Seq<u8>) -> Option<usize> {
    let digits = unsigned_part(text);
    if digits.len() > 0 && all_digits(digits) && digits_value(digits) <= usize::MAX {
        Some(digits_value(digits) as usize)
    } else {
        None
    }
}

/// The items that a string of digits writes, `variant_count` digits to an
/// item: attribute `j` of item `i` is the digit at place
/// `i * variant_count + j`.
pub open spec fn digit_rows(text: Seq<u8>, variant_count: nat) -> Seq<Seq<u8>> {
    Seq::new(
        text.len() / variant_count,
        |i: int| Seq::new(variant_count, |j: int| digit_of(text[i * variant_count + j]) as u8),
    )
}

/// The number at place `index` of the arguments, or `default` where the
/// arguments end before it.
pub open spec fn number_at(texts: Seq<Seq<u8>>, index: int, default: usize) -> Option<usize> {
    if texts.len() > index {
        parsed_number(texts[index])
    } else {
        Some(default)
    }
}

/// What a list of arguments describes. The first argument is the program's
/// name; then come the item string, the group size, the attribute count and
/// the item count, the three numbers being optional. The checks run in this
/// order, and the first that fails gives the error.
pub open spec fn parse_outcome(texts: Seq<Seq<u8>>) -> Result<
    (Seq<Seq<u8>>, usize, usize),
    ArgsError,
> {
    let set_size = number_at(texts, 2, DEFAULT_SETS);
    let variant_count = number_at(texts, 3, DEFAULT_VARIANTS);
    let item_count = number_at(texts, 4, DEFAULT_ITEMS);
    if texts.len() < 2 {
        Err(ArgsError::MissingItems)
    } else if set_size is None {
        Err(ArgsError::BadSetSize)
    } else if variant_count is None {
        Err(ArgsError::BadVariantCount)
    } else if item_count is None {
        Err(ArgsError::BadItemCount)
    } else if item_count->0 == 0 {
        Err(ArgsError::ZeroItemCount)
    } else if texts[1].len() % (item_count->0 as nat) != 0 {
        Err(ArgsError::ItemCountMismatch)
    } else if variant_count->0 == 0 {
        Err(ArgsError::ZeroVariantCount)
    } else if texts[1].len() % (variant_count->0 as nat) != 0 {
        Err(ArgsError::VariantCountMismatch)
    } else if !all_digits(texts[1]) {
        Err(ArgsError::NotADigit)
    } else {
        Ok((digit_rows(texts[1], variant_count->0 as nat), set_size->0, variant_count->0))
    }
}

/// The arguments as byte strings: each in its UTF-8 encoding.
pub open spec fn arg_texts(args: Seq<String>) -> Seq<Seq<u8>> {
    Seq::new(args.len(), |i: int| encode_utf8(args[i]@))
}

/// The digits written so far are worth no more than the whole number.
proof fn lemma_digits_value_grows(digits: Seq<u8>, k: int)
    requires
        0 <= k <= digits.len(),
    ensures
        digits_value(digits.take(k)) <= digits_value(digits),
    decreases digits.len(),
{
    if k == digits.len() {
        assert(digits.take(k) =~= digits);
    } else {
        assert(digits.drop_last().take(k) =~= digits.take(k));
        lemma_digits_value_grows(digits.drop_last(), k);
    }
}

/// Reads a decimal number: an optional `+`, then one or more digits. Gives
/// `None` for any other text, and for a number that a `usize` does not hold.
pub fn parse_number(text: &[u8]) -> (number: Option<usize>)
    ensures
        number == parsed_number(text@),
{
    let start: usize = if text.len() > 0 && text[0] == PLUS_SIGN {
        1
    } else {
        0
    };
    let ghost digits = unsigned_part(text@);
    assert(digits =~= text@.skip(start as int));
    if start >= text.len() {
        return None;
    }
    let mut value: usize = 0;
    let mut i: usize = start;
    assert(digits.take(0) =~= Seq::<u8>::empty());
    while i < text.len()
        invariant
            start <= i <= text@.len(),
            digits == unsigned_part(text@),
            digits == text@.skip(start as int),
            all_digits(digits.take(i - start)),
            value == digits_value(digits.take(i - start)),
        decreases text@.len() - i,
    {
        let byte: u8 = text[i];
        let ghost seen = digits.take(i - start);
        let ghost next = digits.take(i - start + 1);
        proof {
            assert(next.drop_last() =~= seen);
            assert(next.last() == byte);
            lemma_digits_value_grows(digits, i - start + 1);
        }
        if byte < DIGIT_ZERO || byte > DIGIT_NINE {
            assert(!is_digit(digits[i - start]));
            return None;
        }
        let digit: usize = (byte - DIGIT_ZERO) as usize;
        let shifted: usize = match value.checked_mul(10) {
            Some(shifted) => shifted,
            None => {
                return None;
            },
        };
        value =
        match shifted.checked_add(digit) {
            Some(sum) => sum,
            None => {
                return None;
            },
        };
        proof {
            assert forall|k: int| 0 <= k < next.len() implies is_digit(#[trigger] next[k]) by {
                if k < seen.len() {
                    assert(next[k] == seen[k]);
                }
            }
        }
        i += 1;
    }
    assert(digits.take(i - start) =~= digits);
    Some(value)
}

/// Splits a string of digits into items of `variant_count` attribute values
/// each, in the order of the string.
pub fn parse_items(text: &[u8], variant_count: usize) -> (items: Vec<Vec<u8>>)
    requires
        variant_count > 0,
        text@.len() % (variant_count as nat) == 0,
        all_digits(text@),
    ensures
        items.deep_view() == digit_rows(text@, variant_count as nat),
        items_well_formed(items.deep_view(), variant_count as nat),
{
    let ghost rows = digit_rows(text@, variant_count as nat);
    let mut items: Vec<Vec<u8>> = Vec::new();
    let mut place: usize = 0;
    proof {
        lemma_row_count(text@.len(), variant_count as nat);
    }
    while place < text.len()
        invariant
            variant_count > 0,
            all_digits(text@),
            rows == digit_rows(text@, variant_count as nat),
            rows.len() * variant_count == text@.len(),
            items@.len() <= rows.len(),
            place == items@.len() * variant_count,
            forall|i: int| 0 <= i < items@.len() ==> (#[trigger] items@[i])@ == rows[i],
        decreases text@.len() - place,
    {
        let ghost row = items@.len() as int;
        proof {
            assert(text.len() == text@.len());
            lemma_row_fits(row, rows.len() as int, variant_count as int);
        }
        let mut item: Vec<u8> = Vec::new();
        let mut j: usize = 0;
        while j < variant_count
            invariant
                0 <= row < rows.len(),
                place == row * variant_count,
                place + variant_count <= text@.len() <= usize::MAX,
                all_digits(text@),
                rows == digit_rows(text@, variant_count as nat),
                j <= variant_count,
                item@.len() == j,
                forall|k: int| 0 <= k < j ==> #[trigger] item@[k] == rows[row][k],
            decreases variant_count - j,
        {
            let byte: u8 = text[place + j];
            assert(is_digit(text@[place + j]));
            item.push(byte - DIGIT_ZERO);
            j += 1;
        }
        assert(item@ =~= rows[row]);
        items.push(item);
        place += variant_count;
        proof {
            lemma_next_row(row, variant_count as int);
        }
    }
    proof {
        lemma_rows_done(items@.len() as int, rows.len() as int, variant_count as int);
        assert(items.deep_view() =~= rows) by {
            assert forall|i: int| 0 <= i < items@.len() implies #[trigger] items.deep_view()[i]
                == rows[i] by {
                assert(items@[i].deep_view() =~= items@[i]@);
            }
        }
    }
    items
}

/// A length that is a multiple of the width is the row count times the width.
proof fn lemma_row_count(length: nat, width: nat)
    by (nonlinear_arith)
    requires
        width > 0,
        length % width == 0,
    ensures
        (length / width) * width == length,
{
}

/// A row before the last one ends inside the text.
proof fn lemma_row_fits(row: int, rows: int, width: int)
    by (nonlinear_arith)
    requires
        0 <= row,
        0 < width,
        row * width < rows * width,
    ensures
        row < rows,
        row * width + width <= rows * width,
{
}

/// The next row begins where this one ends.
proof fn lemma_next_row(row: int, width: int)
    by (nonlinear_arith)
    ensures
        (row + 1) * width == row * width + width,
{
}

/// Where the rows read so far fill the text, they are all the rows.
proof fn lemma_rows_done(read: int, rows: int, width: int)
    by (nonlinear_arith)
    requires
        0 <= read <= rows,
        0 < width,
        read * width >= rows * width,
    ensures
        read == rows,
{
}

/// Reads the number at place `index` of the arguments, or takes `default`
/// where the arguments end before it.
fn read_number_at(args: &Vec<String>, index: usize, default: usize) -> (number: Option<usize>)
    ensures
        number == number_at(arg_texts(args@), index as int, default),
{
    if args.len() > index {
        parse_number(args[index].as_str().as_bytes())
    } else {
        Some(default)
    }
}

/// Reads a problem from program arguments: the items, the group size and the
/// attribute count, or the reason why the arguments describe none.
pub fn try_parse_args(args: &Vec<String>) -> (parsed: Result<
    (Vec<Vec<u8>>, usize, usize),
    ArgsError,
>)
    ensures
        match parsed {
            Ok((items, set_size, variant_count)) => {
                &&& parse_outcome(arg_texts(args@)) == Ok::<
                    (Seq<Seq<u8>>, usize, usize),
                    ArgsError,
                >((items.deep_view(), set_size, variant_count))
                &&& items_well_formed(items.deep_view(), variant_count as nat)
            },
            Err(error) => parse_outcome(arg_texts(args@)) == Err::<
                (Seq<Seq<u8>>, usize, usize),
                ArgsError,
            >(error),
        },
{
    if args.len() < 2 {
        return Err(ArgsError::MissingItems);
    }
    let text: &[u8] = args[1].as_str().as_bytes();
    let set_size: usize = match read_number_at(args, 2, DEFAULT_SETS) {
        Some(number) => number,
        None => {
            return Err(ArgsError::BadSetSize);
        },
    };
    let variant_count: usize = match read_number_at(args, 3, DEFAULT_VARIANTS) {
        Some(number) => number,
        None => {
            return Err(ArgsError::BadVariantCount);
        },
    };
    let item_count: usize = match read_number_at(args, 4, DEFAULT_ITEMS) {
        Some(number) => number,
        None => {
            return Err(ArgsError::BadItemCount);
        },
    };
    if item_count == 0 {
        return Err(ArgsError::ZeroItemCount);
    }
    if text.len() % item_count != 0 {
        return Err(ArgsError::ItemCountMismatch);
    }
    if variant_count == 0 {
        return Err(ArgsError::ZeroVariantCount);
    }
    if text.len() % variant_count != 0 {
        return Err(ArgsError::VariantCountMismatch);
    }
    if !only_digits(text) {
        return Err(ArgsError::NotADigit);
    }
    Ok((parse_items(text, variant_count), set_size, variant_count))
}

/// Tells whether every byte of the text is an ASCII digit.
pub fn only_digits(text: &[u8]) -> (ok: bool)
    ensures
        ok == all_digits(text@),
{
    for i in 0..text.len()
        invariant
            forall|k: int| 0 <= k < i ==> is_digit(#[trigger] text@[k]),
    {
        if text[i] < DIGIT_ZERO || text[i] > DIGIT_NINE {
            assert(!is_digit(text@[i as int]));
            return false;
        }
    }
    true
}

/// Reads a problem from program arguments that describe one: the items, the
/// group size and the attribute count.
pub fn parse_args(args: Vec<String>) -> (parsed: (Vec<Vec<u8>>, usize, usize))
    requires
        parse_outcome(arg_texts(args@)) is Ok,
    ensures
        parse_outcome(arg_texts(args@)) == Ok::<(Seq<Seq<u8>>, usize, usize), ArgsError>(
            (parsed.0.deep_view(), parsed.1, parsed.2),
        ),
        items_well_formed(parsed.0.deep_view(), parsed.2 as nat),
{
    match try_parse_args(&args) {
        Ok(parsed) => parsed,
        Err(_) => unreached(),
    }
}

} // verus!
