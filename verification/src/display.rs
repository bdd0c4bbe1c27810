//! From the captured output of the search tool to the page shown to the user.
//!
//! The output is decoded, held to the shape `path|page|excerpt` line by line,
//! classified, rendered and finalized. A stream of any other shape is
//! refused as a whole: no record is rendered on the strength of delimiters
//! counted across a broken one.

use crate::classify::{
    count, even_indices, is_nth_occurrence, is_nth_offset, lemma_count_take_next,
    lemma_nth_occurrence_unique, outer_boundaries, DELIMITER, LINE_BREAK,
};
use crate::error::FindPastPaperError;
use crate::query::{search_root_of, SEARCH_ROOT};
use crate::render::{
    all_char_starts, finalize_chars, highlight, is_marked, mark, render_chars, rewrite, strip,
    MARKER,
};
use crate::text::{
    byte_offset, chars_of, fits_in_memory, is_char_start, lemma_byte_offset_rises, string_of,
};
use vstd::prelude::*;
use vstd::utf8::{decode_utf8, valid_utf8};

verus! {

/// Parts the directories of a path.
pub const PATH_SEPARATOR: &'static str = "/";

/// Whether `text` is a run of complete records: it is empty or ends in a line
/// break, and each line break closes a line of exactly two delimiters. Stated
/// over running counts: up to each line break, the delimiters are twice the
/// lines that it completes.
pub open spec fn well_formed(text: Seq<char>, delimiter: char) -> bool {
    &&& text.len() > 0 ==> text.last() == LINE_BREAK
    &&& forall|i: int|
        0 <= i < text.len() && #[trigger] text[i] == LINE_BREAK ==> count(text.take(i), delimiter)
            == 2 * (count(text.take(i), LINE_BREAK) + 1)
}

/// Whether an outer boundary stands at `at`: an even occurrence of the
/// delimiter, among the first two for each line break of `text`.
pub open spec fn is_outer_boundary(text: Seq<char>, delimiter: char, at: int) -> bool {
    &&& 0 <= at < text.len()
    &&& text[at] == delimiter
    &&& count(text.take(at), delimiter) % 2 == 0
    &&& count(text.take(at), delimiter) < 2 * count(text, LINE_BREAK)
}

/// `text` with the marker in place of each outer boundary.
pub open spec fn mark_outer(text: Seq<char>, delimiter: char) -> Seq<char> {
    Seq::new(
        text.len(),
        |i: int|
            if is_outer_boundary(text, delimiter, i) {
                MARKER
            } else {
                text[i]
            },
    )
}

/// The markup of `text`: outer boundaries marked, then the three rewrites.
pub open spec fn rendered(text: Seq<char>, delimiter: char) -> Seq<char> {
    rewrite(mark_outer(text, delimiter), delimiter)
}

/// The prefix that displayed paths lose: the search root, the subject's
/// directory and a separator.
pub open spec fn path_prefix_of(subject: Seq<char>) -> Seq<char> {
    search_root_of(subject) + PATH_SEPARATOR@
}

/// What a request ends in, given the bytes that the search tool printed: a
/// refusal where they are not valid UTF-8 or do not decode to a well-formed
/// stream, else the page.
pub open spec fn page_for(subject: Seq<char>, question: Seq<char>, output: Seq<u8>) -> Result<
    Seq<char>,
    FindPastPaperError,
> {
    if !valid_utf8(output) {
        Err(FindPastPaperError::CouldNotReadFile)
    } else if !well_formed(decode_utf8(output), DELIMITER) {
        Err(FindPastPaperError::MalformedSearchOutput)
    } else {
        Ok(displayed(subject, question, decode_utf8(output)))
    }
}

/// The page for a well-formed stream: its markup with the question in bold
/// and the subject's directory removed from the paths.
pub open spec fn displayed(subject: Seq<char>, question: Seq<char>, stream: Seq<char>) -> Seq<
    char,
> {
    strip(highlight(rendered(stream, DELIMITER), question), path_prefix_of(subject))
}

/// A well-formed stream holds two delimiters for each of its line breaks.
pub proof fn lemma_well_formed_counts(text: Seq<char>, delimiter: char)
    requires
        well_formed(text, delimiter),
    ensures
        count(text, delimiter) == 2 * count(text, LINE_BREAK),
{
    if text.len() > 0 {
        let last = text.len() - 1;
        assert(text[last] == LINE_BREAK);
        assert(text.take(last) =~= text.drop_last());
    }
}

/// The empty stream is well-formed and renders to the empty page, whatever
/// the question and the subject.
pub proof fn lemma_empty_stream(subject: Seq<char>, question: Seq<char>)
    ensures
        well_formed(Seq::empty(), DELIMITER),
        displayed(subject, question, Seq::empty()) == Seq::<char>::empty(),
        page_for(subject, question, Seq::empty()) == Ok::<Seq<char>, FindPastPaperError>(
            Seq::empty(),
        ),
{
    let nothing = Seq::<char>::empty();
    assert(mark_outer(nothing, DELIMITER) =~= nothing);
    assert(valid_utf8(Seq::empty()));
    assert(decode_utf8(Seq::empty()) =~= nothing);
}

/// Marking at the offsets that classification returns marks exactly the
/// outer boundaries, and a character starts at each of them.
pub proof fn lemma_mark_classified(text: Seq<char>, delimiter: char, offsets: Seq<usize>)
    requires
        offsets.len() == count(text, LINE_BREAK),
        forall|k: int|
            0 <= k < offsets.len() ==> is_nth_offset(
                text,
                delimiter,
                #[trigger] even_indices(offsets.len())[k],
                offsets[k] as int,
            ),
    ensures
        mark(text, offsets) == mark_outer(text, delimiter),
        all_char_starts(text, offsets),
{
    assert forall|k: int| 0 <= k < offsets.len() implies is_nth_offset(
        text,
        delimiter,
        (2 * k) as nat,
        #[trigger] offsets[k] as int,
    ) by {
        assert(even_indices(offsets.len())[k] == 2 * k);
    }
    assert forall|k: int| 0 <= k < offsets.len() implies is_char_start(
        text,
        #[trigger] offsets[k] as int,
    ) by {
        let p = choose|p: int| #[trigger]
            is_nth_occurrence(text, delimiter, (2 * k) as nat, p) && offsets[k] as int
                == byte_offset(text, p);
        assert(byte_offset(text, p) == offsets[k] as int);
    }
    assert forall|i: int| 0 <= i < text.len() implies is_marked(text, offsets, i)
        == is_outer_boundary(text, delimiter, i) by {
        if is_marked(text, offsets, i) {
            let k = choose|k: int|
                0 <= k < offsets.len() && #[trigger] offsets[k] as int == byte_offset(text, i);
            let p = choose|p: int| #[trigger]
                is_nth_occurrence(text, delimiter, (2 * k) as nat, p) && offsets[k] as int
                    == byte_offset(text, p);
            if p < i {
                lemma_byte_offset_rises(text, p, i);
            } else if i < p {
                lemma_byte_offset_rises(text, i, p);
            }
        }
        if is_outer_boundary(text, delimiter, i) {
            let k = (count(text.take(i), delimiter) / 2) as int;
            let p = choose|p: int| #[trigger]
                is_nth_occurrence(text, delimiter, (2 * k) as nat, p) && offsets[k] as int
                    == byte_offset(text, p);
            lemma_nth_occurrence_unique(text, delimiter, (2 * k) as nat, i, p);
            assert(offsets[k] as int == byte_offset(text, i));
        }
    }
    assert(mark(text, offsets) =~= mark_outer(text, delimiter));
}

/// Whether `text` is a run of complete records.
pub fn is_well_formed(text: &[char], delimiter: char) -> (ok: bool)
    ensures
        ok == well_formed(text@, delimiter),
{
    let n = text.len();
    if n == 0 {
        return true;
    }
    if text[n - 1] != LINE_BREAK {
        return false;
    }
    if delimiter == LINE_BREAK {
        assert(text@[n - 1] == LINE_BREAK);
        return false;
    }
    let mut in_line: usize = 0;
    let mut i: usize = 0;
    while i < n
        invariant
            i <= n,
            n == text.len(),
            delimiter != LINE_BREAK,
            in_line <= i,
            in_line == count(text@.take(i as int), delimiter) - 2 * count(
                text@.take(i as int),
                LINE_BREAK,
            ),
            forall|j: int|
                0 <= j < i && #[trigger] text@[j] == LINE_BREAK ==> count(
                    text@.take(j),
                    delimiter,
                ) == 2 * (count(text@.take(j), LINE_BREAK) + 1),
        decreases n - i,
    {
        proof {
            lemma_count_take_next(text@, delimiter, i as int);
            lemma_count_take_next(text@, LINE_BREAK, i as int);
        }
        if text[i] == LINE_BREAK {
            if in_line != 2 {
                assert(text@[i as int] == LINE_BREAK);
                return false;
            }
            in_line = 0;
        } else if text[i] == delimiter {
            in_line += 1;
        }
        i += 1;
    }
    true
}

/// Renders a stream of records and finalizes the markup. `None` where the
/// stream is not well-formed.
pub fn render_stream(text: &[char], term: &[char], prefix: &[char]) -> (page: Option<Vec<char>>)
    requires
        fits_in_memory(text@),
    ensures
        page is Some <==> well_formed(text@, DELIMITER),
        page matches Some(out) ==> out@ == strip(
            highlight(rendered(text@, DELIMITER), term@),
            prefix@,
        ),
{
    if !is_well_formed(text, DELIMITER) {
        return None;
    }
    proof {
        lemma_well_formed_counts(text@, DELIMITER);
    }
    let offsets = match outer_boundaries(text, DELIMITER) {
        Some(offsets) => offsets,
        None => { return None; },
    };
    proof {
        lemma_mark_classified(text@, DELIMITER, offsets@);
    }
    let block = match render_chars(text, offsets.as_slice(), DELIMITER) {
        Some(block) => block,
        None => { return None; },
    };
    Some(finalize_chars(block.as_slice(), term, prefix))
}

/// The prefix that displayed paths lose for `subject`.
pub fn path_prefix(subject: &str) -> (prefix: String)
    ensures
        prefix@ == path_prefix_of(subject@),
{
    let mut prefix = chars_of(SEARCH_ROOT);
    let subject = chars_of(subject);
    crate::replace::append_chars(&mut prefix, subject.as_slice());
    let separator = chars_of(PATH_SEPARATOR);
    crate::replace::append_chars(&mut prefix, separator.as_slice());
    string_of(prefix.as_slice())
}

/// Turns the captured standard output of the search tool into the page for
/// `question` within `subject`.
///
/// Fails with `CouldNotReadFile` where the output is not valid UTF-8, and
/// with `MalformedSearchOutput` where the decoded text is not a run of
/// complete `path|page|excerpt` lines.
pub fn format_output_for_html_display(subject: String, question: String, output: Vec<u8>) -> (page:
    Result<String, FindPastPaperError>)
    ensures
        page matches Ok(html) ==> page_for(subject@, question@, output@) == Ok::<
            Seq<char>,
            FindPastPaperError,
        >(html@),
        page matches Err(e) ==> page_for(subject@, question@, output@) == Err::<
            Seq<char>,
            FindPastPaperError,
        >(e),
{
    let stream = match String::from_utf8(output) {
        Ok(stream) => stream,
        Err(_) => { return Err(FindPastPaperError::CouldNotReadFile); },
    };
    let text = chars_of(stream.as_str());
    let term = chars_of(question.as_str());
    let prefix = path_prefix(subject.as_str());
    let prefix = chars_of(prefix.as_str());
    match render_stream(text.as_slice(), term.as_slice(), prefix.as_slice()) {
        Some(out) => Ok(string_of(out.as_slice())),
        None => Err(FindPastPaperError::MalformedSearchOutput),
    }
}

/// Ends a request with what came back from the search: the page, or
/// `CouldNotReadFile` where the search handed nothing back.
pub fn respond(subject: String, question: String, reply: Option<Vec<u8>>) -> (page: Result<
    String,
    FindPastPaperError,
>)
    ensures
        reply is None ==> page == Err::<String, FindPastPaperError>(
            FindPastPaperError::CouldNotReadFile,
        ),
        reply matches Some(output) ==> {
            &&& page matches Ok(html) ==> page_for(subject@, question@, output@) == Ok::<
                Seq<char>,
                FindPastPaperError,
            >(html@)
            &&& page matches Err(e) ==> page_for(subject@, question@, output@) == Err::<
                Seq<char>,
                FindPastPaperError,
            >(e)
        },
{
    match reply {
        Some(output) => format_output_for_html_display(subject, question, output),
        None => Err(FindPastPaperError::CouldNotReadFile),
    }
}

} // verus!
