//! Telling the two delimiters of a record apart.
//!
//! Every record of the search output holds two delimiters. Counted over the
//! whole stream from zero, the even ones part a path from a page number (the
//! outer boundaries) and the odd ones part a page number from an excerpt.
//!
//! Occurrences are found by their position in the character sequence and
//! handed out as offsets in bytes within the UTF-8 form of the stream.

use crate::error::FindPastPaperError;
use crate::text::{
    byte_offset, byte_offset_of, chars_of, fits_in_memory, lemma_byte_offset_next,
    lemma_byte_offset_within, utf8_width,
};
use vstd::prelude::*;
use vstd::utf8::{is_ascii_chars, is_ascii_chars_encode_utf8};

verus! {

/// The character the search tool puts between the fields of a record.
pub const DELIMITER: char = '|';

/// The character that ends a record.
pub const LINE_BREAK: char = '\n';

/// How often `c` occurs in `text`.
pub open spec fn count(text: Seq<char>, c: char) -> nat
    decreases text.len(),
{
    if text.len() == 0 {
        0
    } else {
        count(text.drop_last(), c) + if text.last() == c {
            1nat
        } else {
            0nat
        }
    }
}

/// `at` is the position of occurrence number `n` of `c` in `text`, counted
/// from zero: `c` stands there, and exactly `n` occurrences come before.
pub open spec fn is_nth_occurrence(text: Seq<char>, c: char, n: nat, at: int) -> bool {
    &&& 0 <= at < text.len()
    &&& text[at] == c
    &&& count(text.take(at), c) == n
}

/// `offset` is where occurrence number `n` of `c` starts within the UTF-8
/// form of `text`: the offset in bytes of the position of that occurrence.
pub open spec fn is_nth_offset(text: Seq<char>, c: char, n: nat, offset: int) -> bool {
    exists|p: int| #[trigger] is_nth_occurrence(text, c, n, p) && offset == byte_offset(text, p)
}

/// The first `number` even numbers: 0, 2, 4, ...
pub open spec fn even_indices(number: nat) -> Seq<nat> {
    Seq::new(number, |k: int| (2 * k) as nat)
}

/// Whether every occurrence that classification looks up exists: with `r`
/// line breaks in `text`, the even occurrences below `2 * r`.
pub open spec fn classifiable(text: Seq<char>, delimiter: char) -> bool {
    2 * count(text, LINE_BREAK) <= count(text, delimiter) + 1
}

/// One more character taken adds one to the count exactly when it is `c`.
pub proof fn lemma_count_take_next(text: Seq<char>, c: char, i: int)
    requires
        0 <= i < text.len(),
    ensures
        count(text.take(i + 1), c) == count(text.take(i), c) + if text[i] == c {
            1nat
        } else {
            0nat
        },
{
    assert(text.take(i + 1).drop_last() =~= text.take(i));
}

/// A longer prefix holds at least as many occurrences as a shorter one.
pub proof fn lemma_count_take_monotone(text: Seq<char>, c: char, i: int, j: int)
    requires
        0 <= i <= j <= text.len(),
    ensures
        count(text.take(i), c) <= count(text.take(j), c),
    decreases j - i,
{
    if i < j {
        lemma_count_take_monotone(text, c, i, j - 1);
        lemma_count_take_next(text, c, j - 1);
    }
}

/// Counting distributes over concatenation.
pub proof fn lemma_count_concat(a: Seq<char>, b: Seq<char>, c: char)
    ensures
        count(a + b, c) == count(a, c) + count(b, c),
    decreases b.len(),
{
    if b.len() == 0 {
        assert(a + b =~= a);
    } else {
        assert((a + b).drop_last() =~= a + b.drop_last());
        lemma_count_concat(a, b.drop_last(), c);
    }
}

/// A text that does not hold `c` counts none.
pub proof fn lemma_count_absent(text: Seq<char>, c: char)
    requires
        !text.contains(c),
    ensures
        count(text, c) == 0,
    decreases text.len(),
{
    if text.len() > 0 {
        assert(text.last() != c);
        assert forall|i: int| 0 <= i < text.drop_last().len() implies text.drop_last()[i] != c by {
            assert(text[i] != c);
        }
        lemma_count_absent(text.drop_last(), c);
    }
}

/// A text of one character counts one where that character is `c`.
pub proof fn lemma_count_single(x: char, c: char)
    ensures
        count(seq![x], c) == if x == c {
            1nat
        } else {
            0nat
        },
{
    assert(seq![x].drop_last() =~= Seq::<char>::empty());
    reveal_with_fuel(count, 2);
}

/// A text that counts no `c` does not hold it.
pub proof fn lemma_count_zero(text: Seq<char>, c: char)
    requires
        count(text, c) == 0,
    ensures
        !text.contains(c),
    decreases text.len(),
{
    if text.len() > 0 {
        lemma_count_zero(text.drop_last(), c);
        assert forall|i: int| 0 <= i < text.len() implies text[i] != c by {
            if i < text.len() - 1 {
                assert(text.drop_last()[i] == text[i]);
            }
        }
    }
}

/// Occurrence number `n` stands at one position only.
pub proof fn lemma_nth_occurrence_unique(text: Seq<char>, c: char, n: nat, i: int, j: int)
    requires
        is_nth_occurrence(text, c, n, i),
        is_nth_occurrence(text, c, n, j),
    ensures
        i == j,
{
    if i < j {
        lemma_count_take_next(text, c, i);
        lemma_count_take_monotone(text, c, i + 1, j);
    } else if j < i {
        lemma_count_take_next(text, c, j);
        lemma_count_take_monotone(text, c, j + 1, i);
    }
}

/// Where occurrence number `n` stands somewhere, the text holds more than `n`
/// occurrences.
pub proof fn lemma_nth_occurrence_exists(text: Seq<char>, c: char, n: nat, at: int)
    requires
        is_nth_occurrence(text, c, n, at),
    ensures
        n < count(text, c),
{
    lemma_count_take_next(text, c, at);
    lemma_count_take_monotone(text, c, at + 1, text.len() as int);
    assert(text.take(text.len() as int) =~= text);
}

/// Where everything before a position is ASCII, the offset in bytes is the
/// position itself.
pub proof fn lemma_ascii_offset_is_position(text: Seq<char>, at: int)
    requires
        0 <= at <= text.len(),
        is_ascii_chars(text.take(at)),
    ensures
        byte_offset(text, at) == at,
{
    is_ascii_chars_encode_utf8(text.take(at));
}

/// The first `number` even numbers, in rising order.
pub fn get_even(number: u32) -> (even_numbers: Vec<u32>)
    requires
        number * 2 <= u32::MAX,
    ensures
        even_numbers@.len() == number,
        forall|k: int| 0 <= k < number ==> even_numbers@[k] == even_indices(number as nat)[k],
{
    let mut even_numbers: Vec<u32> = Vec::new();
    let mut k: u32 = 0;
    while k < number
        invariant
            k <= number,
            number * 2 <= u32::MAX,
            even_numbers@.len() == k,
            forall|j: int| 0 <= j < k ==> even_numbers@[j] == 2 * j,
        decreases number - k,
    {
        even_numbers.push(2 * k);
        k += 1;
    }
    even_numbers
}

/// How often `c` occurs in `text`.
pub fn count_chars(text: &[char], c: char) -> (total: usize)
    ensures
        total == count(text@, c),
{
    let mut total: usize = 0;
    let mut i: usize = 0;
    while i < text.len()
        invariant
            i <= text.len(),
            total == count(text@.take(i as int), c),
            total <= i,
        decreases text.len() - i,
    {
        proof {
            lemma_count_take_next(text@, c, i as int);
        }
        if text[i] == c {
            total += 1;
        }
        i += 1;
    }
    assert(text@.take(text.len() as int) =~= text@);
    total
}

/// The index in `text` of occurrence number `n` of `c`, counted from zero, or
/// `None` where `text` holds no more than `n` occurrences. An index counts
/// characters; `byte_offset_of` turns it into an offset in bytes.
pub fn nth_occurrence(text: &[char], c: char, n: usize) -> (found: Option<usize>)
    ensures
        found is Some <==> n < count(text@, c),
        found matches Some(at) ==> is_nth_occurrence(text@, c, n as nat, at as int),
{
    let mut seen: usize = 0;
    let mut i: usize = 0;
    while i < text.len()
        invariant
            i <= text.len(),
            seen == count(text@.take(i as int), c),
            seen <= n,
            seen <= i,
        decreases text.len() - i,
    {
        proof {
            lemma_count_take_next(text@, c, i as int);
        }
        if text[i] == c {
            if seen == n {
                proof {
                    lemma_nth_occurrence_exists(text@, c, n as nat, i as int);
                }
                return Some(i);
            }
            seen += 1;
        }
        i += 1;
    }
    assert(text@.take(text.len() as int) =~= text@);
    None
}

/// The offset in bytes, within `output_string`, of separator number `n`,
/// counted from zero over the whole string. Fails where the string holds no
/// more than `n` separators.
pub fn get_char_index_of_nth_separator(output_string: String, n: u32) -> (index: Result<
    usize,
    FindPastPaperError,
>)
    ensures
        index is Ok <==> n < count(output_string@, DELIMITER),
        index matches Ok(at) ==> is_nth_offset(output_string@, DELIMITER, n as nat, at as int),
        index matches Err(e) ==> e == FindPastPaperError::MalformedSearchOutput,
{
    let text = chars_of(output_string.as_str());
    match nth_occurrence(text.as_slice(), DELIMITER, n as usize) {
        Some(position) => {
            let at = byte_offset_of(text.as_slice(), position);
            assert(is_nth_occurrence(output_string@, DELIMITER, n as nat, position as int));
            Ok(at)
        },
        None => Err(FindPastPaperError::MalformedSearchOutput),
    }
}

/// The outer boundaries of `text`: for each of its line breaks one offset in
/// bytes, that of the next even occurrence of `delimiter`. `None` where one
/// of these occurrences does not exist.
pub fn outer_boundaries(text: &[char], delimiter: char) -> (found: Option<Vec<usize>>)
    requires
        fits_in_memory(text@),
    ensures
        found is Some <==> classifiable(text@, delimiter),
        found matches Some(offsets) ==> {
            &&& offsets@.len() == count(text@, LINE_BREAK)
            &&& forall|k: int|
                0 <= k < offsets@.len() ==> is_nth_offset(
                    text@,
                    delimiter,
                    #[trigger] even_indices(offsets@.len())[k],
                    offsets@[k] as int,
                )
            &&& forall|j: int, k: int| 0 <= j < k < offsets@.len() ==> offsets@[j] < offsets@[k]
        },
{
    let records = count_chars(text, LINE_BREAK);
    let mut offsets: Vec<usize> = Vec::new();
    let mut seen: usize = 0;
    let mut bytes: usize = 0;
    let mut i: usize = 0;
    let ghost mut last: int = 0;
    assert(text@.take(0) =~= Seq::<char>::empty());
    while i < text.len() && offsets.len() < records
        invariant
            i <= text.len(),
            fits_in_memory(text@),
            seen == count(text@.take(i as int), delimiter),
            seen <= i,
            bytes == byte_offset(text@, i as int),
            offsets@.len() <= records,
            2 * offsets@.len() == seen || 2 * offsets@.len() == seen + 1,
            offsets@.len() > 0 ==> 0 <= last < text@.len() && is_nth_occurrence(
                text@,
                delimiter,
                (2 * (offsets@.len() - 1)) as nat,
                last,
            ),
            forall|k: int| 0 <= k < offsets@.len() ==> offsets@[k] < bytes,
            forall|j: int, k: int| 0 <= j < k < offsets@.len() ==> offsets@[j] < offsets@[k],
            forall|k: int|
                0 <= k < offsets@.len() ==> is_nth_offset(
                    text@,
                    delimiter,
                    (2 * k) as nat,
                    #[trigger] offsets@[k] as int,
                ),
        decreases text.len() - i,
    {
        proof {
            lemma_count_take_next(text@, delimiter, i as int);
            lemma_byte_offset_next(text@, i as int);
            lemma_byte_offset_within(text@, i + 1);
        }
        if text[i] == delimiter {
            if seen % 2 == 0 {
                assert(is_nth_occurrence(text@, delimiter, seen as nat, i as int));
                offsets.push(bytes);
                proof {
                    last = i as int;
                }
            }
            seen += 1;
        }
        bytes += utf8_width(text[i]);
        i += 1;
    }
    if offsets.len() == records {
        proof {
            if records > 0 {
                lemma_nth_occurrence_exists(text@, delimiter, (2 * (records - 1)) as nat, last);
            }
            assert forall|k: int| 0 <= k < offsets@.len() implies is_nth_offset(
                text@,
                delimiter,
                #[trigger] even_indices(offsets@.len())[k],
                offsets@[k] as int,
            ) by {
                assert(is_nth_offset(text@, delimiter, (2 * k) as nat, offsets@[k] as int));
            }
        }
        Some(offsets)
    } else {
        assert(text@.take(text.len() as int) =~= text@);
        None
    }
}

/// Finds the outer boundaries of `stream`: one offset in bytes per line
/// break, the `k`-th being where occurrence `2 * k` of `delimiter` starts, in
/// rising order. Fails where the stream holds too few delimiters for its line
/// breaks.
pub fn classify(stream: &str, delimiter: char) -> (boundaries: Result<
    Vec<usize>,
    FindPastPaperError,
>)
    ensures
        boundaries is Ok <==> classifiable(stream@, delimiter),
        boundaries matches Ok(offsets) ==> {
            &&& offsets@.len() == count(stream@, LINE_BREAK)
            &&& forall|k: int|
                0 <= k < offsets@.len() ==> is_nth_offset(
                    stream@,
                    delimiter,
                    #[trigger] even_indices(offsets@.len())[k],
                    offsets@[k] as int,
                )
            &&& forall|j: int, k: int| 0 <= j < k < offsets@.len() ==> offsets@[j] < offsets@[k]
        },
        boundaries matches Err(e) ==> e == FindPastPaperError::MalformedSearchOutput,
{
    let text = chars_of(stream);
    match outer_boundaries(text.as_slice(), delimiter) {
        Some(offsets) => Ok(offsets),
        None => Err(FindPastPaperError::MalformedSearchOutput),
    }
}

} // verus!
