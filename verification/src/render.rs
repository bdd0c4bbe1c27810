//! Rewriting a classified stream into markup, then bolding the query term and
//! shortening the displayed paths.

use crate::classify::LINE_BREAK;
use crate::error::FindPastPaperError;
use crate::replace::{
    lemma_replace_all_len, lemma_replace_first_occurrence, occurrences, replace_all,
    replace_all_chars,
};
use crate::text::{
    byte_offset, chars_of, fits_in_memory, is_char_start, lemma_byte_offset_next,
    lemma_byte_offset_rises, lemma_byte_offset_within, string_of, utf8_width,
};
use vstd::prelude::*;

verus! {

/// Stands in for an outer boundary between the two passes of rendering.
pub const MARKER: char = '~';

/// What an outer boundary is shown as.
pub const PAGE_MARKER: &'static str = " - page ";

/// What an inner boundary is shown as; it opens the emphasis of the excerpt.
pub const EMPHASIS_OPEN: &'static str = " - <i>...";

/// What a line break is shown as; it closes the emphasis and leaves a blank
/// line behind the record.
pub const EMPHASIS_CLOSE: &'static str = "...</i>\n\n";

/// Put in front of each occurrence of the query term.
pub const BOLD_OPEN: &'static str = "<b>";

/// Put behind each occurrence of the query term.
pub const BOLD_CLOSE: &'static str = "</b>";

/// Whether the character at `position` starts at one of `offsets`, which
/// count bytes within the UTF-8 form of `text`.
pub open spec fn is_marked(text: Seq<char>, offsets: Seq<usize>, position: int) -> bool {
    exists|k: int|
        0 <= k < offsets.len() && #[trigger] offsets[k] as int == byte_offset(text, position)
}

/// `text` with the marker in place of each character that starts at one of
/// `offsets`.
pub open spec fn mark(text: Seq<char>, offsets: Seq<usize>) -> Seq<char> {
    Seq::new(
        text.len(),
        |p: int|
            if is_marked(text, offsets, p) {
                MARKER
            } else {
                text[p]
            },
    )
}

/// Whether a character of `text` starts at each of `offsets`.
pub open spec fn all_char_starts(text: Seq<char>, offsets: Seq<usize>) -> bool {
    forall|k: int| 0 <= k < offsets.len() ==> is_char_start(text, #[trigger] offsets[k] as int)
}

/// The three rewrites of a marked stream, one after the other: markers, then
/// the delimiters that are left, then line breaks.
pub open spec fn rewrite(marked: Seq<char>, delimiter: char) -> Seq<char> {
    let paged = replace_all(marked, seq![MARKER], PAGE_MARKER@);
    let opened = replace_all(paged, seq![delimiter], EMPHASIS_OPEN@);
    replace_all(opened, seq![LINE_BREAK], EMPHASIS_CLOSE@)
}

/// `text` with every occurrence of `term` set in bold.
pub open spec fn highlight(text: Seq<char>, term: Seq<char>) -> Seq<char> {
    replace_all(text, term, BOLD_OPEN@ + term + BOLD_CLOSE@)
}

/// `text` without any occurrence of `prefix`.
pub open spec fn strip(text: Seq<char>, prefix: Seq<char>) -> Seq<char> {
    replace_all(text, prefix, Seq::empty())
}

/// Highlighting adds the two bold tags, seven characters, once for each
/// occurrence of the term, and nothing else.
pub proof fn lemma_highlight_len(text: Seq<char>, term: Seq<char>)
    ensures
        highlight(text, term).len() == text.len() + 7 * occurrences(text, term),
{
    reveal_strlit("<b>");
    reveal_strlit("</b>");
    let bold = BOLD_OPEN@ + term + BOLD_CLOSE@;
    lemma_replace_all_len(text, term, bold);
    assert(occurrences(text, term) * (bold.len() - term.len()) == 7 * occurrences(text, term))
        by (nonlinear_arith)
        requires
            bold.len() - term.len() == 7,
    ;
}

/// The first occurrence of the term is set in bold once: what stands before
/// it is kept as it is, and what follows it is highlighted in the same way.
/// So each occurrence that a scan from the left meets gets one pair of tags.
pub proof fn lemma_highlight_first_occurrence(
    before: Seq<char>,
    term: Seq<char>,
    after: Seq<char>,
)
    requires
        term.len() > 0,
        forall|i: int|
            0 <= i < before.len() ==> #[trigger] (before + term + after).subrange(
                i,
                i + term.len(),
            ) != term,
    ensures
        highlight(before + term + after, term) == before + (BOLD_OPEN@ + term + BOLD_CLOSE@)
            + highlight(after, term),
{
    lemma_replace_first_occurrence(before, term, after, BOLD_OPEN@ + term + BOLD_CLOSE@);
}

/// Stripping takes the length of the prefix away once for each of its
/// occurrences, and nothing else.
pub proof fn lemma_strip_len(text: Seq<char>, prefix: Seq<char>)
    ensures
        strip(text, prefix).len() == text.len() - occurrences(text, prefix) * prefix.len(),
{
    lemma_replace_all_len(text, prefix, Seq::empty());
    assert(occurrences(text, prefix) * (0 - prefix.len()) == -(occurrences(text, prefix)
        * prefix.len())) by (nonlinear_arith);
}

/// Marking one more offset replaces the character that starts there and no
/// other.
pub proof fn lemma_mark_next(text: Seq<char>, offsets: Seq<usize>, k: int, position: int)
    requires
        0 <= k < offsets.len(),
        0 <= position < text.len(),
        offsets[k] as int == byte_offset(text, position),
    ensures
        mark(text, offsets.take(k + 1)) == mark(text, offsets.take(k)).update(position, MARKER),
{
    let before = offsets.take(k);
    let after = offsets.take(k + 1);
    assert forall|q: int| 0 <= q < text.len() implies is_marked(text, after, q) == (is_marked(
        text,
        before,
        q,
    ) || q == position) by {
        if is_marked(text, before, q) {
            let j = choose|j: int|
                0 <= j < before.len() && #[trigger] before[j] as int == byte_offset(text, q);
            assert(after[j] as int == byte_offset(text, q));
        }
        if q == position {
            assert(after[k] as int == byte_offset(text, q));
        }
        if is_marked(text, after, q) && q != position {
            let j = choose|j: int|
                0 <= j < after.len() && #[trigger] after[j] as int == byte_offset(text, q);
            if q < position {
                lemma_byte_offset_rises(text, q, position);
            } else {
                lemma_byte_offset_rises(text, position, q);
            }
            assert(before[j] as int == byte_offset(text, q));
        }
    }
    assert(mark(text, after) =~= mark(text, before).update(position, MARKER));
}

/// Marks the characters of `text` that start at `offsets`, which count bytes
/// within its UTF-8 form, and rewrites the result. `None` where no character
/// starts at one of them.
pub fn render_chars(text: &[char], offsets: &[usize], delimiter: char) -> (out: Option<Vec<char>>)
    requires
        fits_in_memory(text@),
    ensures
        out is Some <==> all_char_starts(text@, offsets@),
        out matches Some(block) ==> block@ == rewrite(mark(text@, offsets@), delimiter),
{
    let mut marked: Vec<char> = Vec::new();
    crate::replace::append_chars(&mut marked, text);
    assert(marked@ =~= mark(text@, offsets@.take(0)));
    assert(text@.take(0) =~= Seq::<char>::empty());
    let mut k: usize = 0;
    let mut p: usize = 0;
    let mut bytes: usize = 0;
    while k < offsets.len()
        invariant
            k <= offsets.len(),
            p <= text.len(),
            fits_in_memory(text@),
            bytes == byte_offset(text@, p as int),
            marked@ == mark(text@, offsets@.take(k as int)),
            forall|j: int| 0 <= j < k ==> is_char_start(text@, #[trigger] offsets@[j] as int),
        decreases offsets.len() - k,
    {
        let target = offsets[k];
        if target < bytes {
            p = 0;
            bytes = 0;
        }
        proof {
            if p > 0 {
                lemma_byte_offset_rises(text@, p - 1, p as int);
            }
        }
        while p < text.len() && bytes < target
            invariant
                p <= text.len(),
                fits_in_memory(text@),
                bytes == byte_offset(text@, p as int),
                p > 0 ==> byte_offset(text@, p - 1) < target,
            decreases text.len() - p,
        {
            proof {
                lemma_byte_offset_next(text@, p as int);
                lemma_byte_offset_within(text@, p + 1);
            }
            bytes += utf8_width(text[p]);
            p += 1;
        }
        if p >= text.len() || bytes != target {
            proof {
                assert forall|q: int| 0 <= q < text@.len() implies byte_offset(text@, q)
                    != target by {
                    if q < p {
                        if q < p - 1 {
                            lemma_byte_offset_rises(text@, q, p - 1);
                        }
                    } else if q > p {
                        lemma_byte_offset_rises(text@, p as int, q);
                    }
                }
                assert(!is_char_start(text@, offsets@[k as int] as int));
            }
            return None;
        }
        marked.set(p, MARKER);
        proof {
            lemma_mark_next(text@, offsets@, k as int, p as int);
            assert(byte_offset(text@, p as int) == offsets@[k as int]);
        }
        k += 1;
    }
    assert(offsets@.take(offsets.len() as int) =~= offsets@);
    let page = chars_of(PAGE_MARKER);
    let open = chars_of(EMPHASIS_OPEN);
    let close = chars_of(EMPHASIS_CLOSE);
    let marker: Vec<char> = vec![MARKER];
    let inner: Vec<char> = vec![delimiter];
    let line_break: Vec<char> = vec![LINE_BREAK];
    assert(marker@ =~= seq![MARKER]);
    assert(inner@ =~= seq![delimiter]);
    assert(line_break@ =~= seq![LINE_BREAK]);
    let paged = replace_all_chars(marked.as_slice(), marker.as_slice(), page.as_slice());
    let opened = replace_all_chars(paged.as_slice(), inner.as_slice(), open.as_slice());
    Some(replace_all_chars(opened.as_slice(), line_break.as_slice(), close.as_slice()))
}

/// Renders `stream` with the given outer boundaries, which count bytes within
/// the stream: the character that starts at each boundary becomes a page
/// marker, every other `delimiter` opens an emphasis and every line break
/// closes it. Fails where no character starts at one of the boundaries.
pub fn render(stream: &str, outer_boundaries: &[usize], delimiter: char) -> (rendered: Result<
    String,
    FindPastPaperError,
>)
    ensures
        rendered is Ok <==> all_char_starts(stream@, outer_boundaries@),
        rendered matches Ok(block) ==> block@ == rewrite(
            mark(stream@, outer_boundaries@),
            delimiter,
        ),
        rendered matches Err(e) ==> e == FindPastPaperError::MalformedSearchOutput,
{
    let text = chars_of(stream);
    match render_chars(text.as_slice(), outer_boundaries, delimiter) {
        Some(block) => Ok(string_of(block.as_slice())),
        None => Err(FindPastPaperError::MalformedSearchOutput),
    }
}

/// Bolds every occurrence of `term` in `text`, then removes every occurrence
/// of `prefix`.
pub fn finalize_chars(text: &[char], term: &[char], prefix: &[char]) -> (out: Vec<char>)
    ensures
        out@ == strip(highlight(text@, term@), prefix@),
{
    let mut bold = chars_of(BOLD_OPEN);
    crate::replace::append_chars(&mut bold, term);
    let close = chars_of(BOLD_CLOSE);
    crate::replace::append_chars(&mut bold, close.as_slice());
    let highlighted = replace_all_chars(text, term, bold.as_slice());
    let nothing: Vec<char> = Vec::new();
    replace_all_chars(highlighted.as_slice(), prefix, nothing.as_slice())
}

/// Bolds every occurrence of `query_term` in `text`, wherever it stands, then
/// removes every occurrence of `path_prefix`. Nothing is escaped.
pub fn finalize(text: &str, query_term: &str, path_prefix: &str) -> (page: String)
    ensures
        page@ == strip(highlight(text@, query_term@), path_prefix@),
{
    let text = chars_of(text);
    let term = chars_of(query_term);
    let prefix = chars_of(path_prefix);
    let out = finalize_chars(text.as_slice(), term.as_slice(), prefix.as_slice());
    string_of(out.as_slice())
}

} // verus!
