//! The shape of a well-formed stream, record by record, and what rendering
//! makes of it.

use crate::classify::{
    count, is_nth_occurrence, is_nth_offset, lemma_count_absent, lemma_count_concat,
    lemma_count_single, lemma_count_zero, lemma_nth_occurrence_exists, DELIMITER, LINE_BREAK,
};
use crate::text::{byte_offset, lemma_encode_concat};
use vstd::utf8::encode_utf8;
use crate::display::{
    is_outer_boundary, lemma_well_formed_counts, mark_outer, rendered, well_formed,
};
use crate::render::{rewrite, EMPHASIS_CLOSE, EMPHASIS_OPEN, MARKER, PAGE_MARKER};
use crate::replace::{
    lemma_replace_char_absent, lemma_replace_char_alone, lemma_replace_char_concat, replace_all,
};
use vstd::prelude::*;

verus! {

/// One match as the search tool reports it.
pub struct Record {
    /// The file that holds the match.
    pub path: Seq<char>,
    /// The page of the match.
    pub locator: Seq<char>,
    /// The matched text.
    pub excerpt: Seq<char>,
}

/// Whether `field` holds neither a delimiter nor a line break, so that it
/// can stand in a line as one field.
pub open spec fn unbroken(field: Seq<char>) -> bool {
    &&& !field.contains(DELIMITER)
    &&& !field.contains(LINE_BREAK)
}

/// Whether `field` is free of the characters that rendering gives a meaning:
/// the delimiter, the line break and the marker.
pub open spec fn plain(field: Seq<char>) -> bool {
    &&& unbroken(field)
    &&& !field.contains(MARKER)
}

impl Record {
    /// Whether each of the three fields is unbroken.
    pub open spec fn is_unbroken(self) -> bool {
        unbroken(self.path) && unbroken(self.locator) && unbroken(self.excerpt)
    }

    /// Whether each of the three fields is plain.
    pub open spec fn is_plain(self) -> bool {
        plain(self.path) && plain(self.locator) && plain(self.excerpt)
    }

    /// The line of the stream that reports this record.
    pub open spec fn line(self) -> Seq<char> {
        self.path + seq![DELIMITER] + self.locator + seq![DELIMITER] + self.excerpt
            + seq![LINE_BREAK]
    }

    /// The line with its outer boundary marked.
    pub open spec fn marked_line(self) -> Seq<char> {
        self.path + seq![MARKER] + self.locator + seq![DELIMITER] + self.excerpt
            + seq![LINE_BREAK]
    }

    /// The block that displays this record: one page marker between path and
    /// page, one emphasis around the excerpt.
    pub open spec fn block(self) -> Seq<char> {
        self.path + PAGE_MARKER@ + self.locator + EMPHASIS_OPEN@ + self.excerpt
            + EMPHASIS_CLOSE@
    }
}

/// The stream that reports `records`, one line each, in order.
pub open spec fn stream_of(records: Seq<Record>) -> Seq<char>
    decreases records.len(),
{
    if records.len() == 0 {
        Seq::empty()
    } else {
        stream_of(records.drop_last()) + records.last().line()
    }
}

/// The lines of `records` with their outer boundaries marked.
pub open spec fn marked_stream_of(records: Seq<Record>) -> Seq<char>
    decreases records.len(),
{
    if records.len() == 0 {
        Seq::empty()
    } else {
        marked_stream_of(records.drop_last()) + records.last().marked_line()
    }
}

/// The blocks that display `records`, one each, in order.
pub open spec fn blocks_of(records: Seq<Record>) -> Seq<char>
    decreases records.len(),
{
    if records.len() == 0 {
        Seq::empty()
    } else {
        blocks_of(records.drop_last()) + records.last().block()
    }
}

/// `text` with the marker in place of every even occurrence of the delimiter.
pub open spec fn mark_even(text: Seq<char>) -> Seq<char> {
    Seq::new(
        text.len(),
        |i: int|
            if text[i] == DELIMITER && count(text.take(i), DELIMITER) % 2 == 0 {
                MARKER
            } else {
                text[i]
            },
    )
}

/// In a well-formed stream the outer boundaries are the even occurrences of
/// the delimiter, all of them.
pub proof fn lemma_mark_outer_is_even(text: Seq<char>)
    requires
        well_formed(text, DELIMITER),
    ensures
        mark_outer(text, DELIMITER) == mark_even(text),
{
    lemma_well_formed_counts(text, DELIMITER);
    assert forall|i: int| 0 <= i < text.len() implies is_outer_boundary(text, DELIMITER, i) == (
    text[i] == DELIMITER && count(text.take(i), DELIMITER) % 2 == 0) by {
        if text[i] == DELIMITER {
            lemma_nth_occurrence_exists(text, DELIMITER, count(text.take(i), DELIMITER), i);
        }
    }
    assert(mark_outer(text, DELIMITER) =~= mark_even(text));
}

/// Behind a text with an even number of delimiters, the even occurrences of
/// what follows are those it has on its own.
pub proof fn lemma_mark_even_concat(a: Seq<char>, b: Seq<char>)
    requires
        count(a, DELIMITER) % 2 == 0,
    ensures
        mark_even(a + b) == mark_even(a) + mark_even(b),
{
    let whole = a + b;
    assert forall|i: int| 0 <= i < whole.len() implies mark_even(whole)[i] == (mark_even(a)
        + mark_even(b))[i] by {
        if i < a.len() {
            assert(whole.take(i) =~= a.take(i));
        } else {
            let j = i - a.len();
            assert(whole.take(i) =~= a + b.take(j));
            lemma_count_concat(a, b.take(j), DELIMITER);
        }
    }
    assert(mark_even(whole) =~= mark_even(a) + mark_even(b));
}

/// The line of an unbroken record holds two delimiters and one line break, the
/// line break at its end, and its first delimiter is the even one.
pub proof fn lemma_line_shape(record: Record)
    requires
        record.is_unbroken(),
    ensures
        count(record.line(), DELIMITER) == 2,
        count(record.line().drop_last(), DELIMITER) == 2,
        count(record.line().drop_last(), LINE_BREAK) == 0,
        record.line().len() > 0,
        record.line().last() == LINE_BREAK,
        !record.line().drop_last().contains(LINE_BREAK),
        mark_even(record.line()) == record.marked_line(),
{
    let path = record.path;
    let locator = record.locator;
    let excerpt = record.excerpt;
    let line = record.line();
    let head = path + seq![DELIMITER];
    let middle = head + locator;
    let body = middle + seq![DELIMITER] + excerpt;
    assert(line.drop_last() =~= body);
    lemma_count_absent(path, DELIMITER);
    lemma_count_absent(locator, DELIMITER);
    lemma_count_absent(excerpt, DELIMITER);
    lemma_count_single(DELIMITER, DELIMITER);
    lemma_count_single(LINE_BREAK, DELIMITER);
    lemma_count_concat(path, seq![DELIMITER], DELIMITER);
    lemma_count_concat(head, locator, DELIMITER);
    lemma_count_concat(middle, seq![DELIMITER], DELIMITER);
    lemma_count_concat(middle + seq![DELIMITER], excerpt, DELIMITER);
    lemma_count_concat(body, seq![LINE_BREAK], DELIMITER);
    assert forall|i: int| 0 <= i < body.len() implies body[i] != LINE_BREAK by {
        if i < path.len() {
            assert(path[i] != LINE_BREAK);
        } else if i == path.len() {
        } else if i < middle.len() {
            assert(locator[i - head.len()] != LINE_BREAK);
        } else if i == middle.len() {
        } else {
            assert(excerpt[i - middle.len() - 1] != LINE_BREAK);
        }
    }
    lemma_count_absent(body, LINE_BREAK);
    assert forall|i: int| 0 <= i < line.len() implies mark_even(line)[i] == record.marked_line()[i] by {
        if i < path.len() {
            assert(path[i] != DELIMITER);
        } else if i == path.len() {
            assert(line.take(i) =~= path);
        } else if i < middle.len() {
            assert(locator[i - head.len()] != DELIMITER);
        } else if i == middle.len() {
            assert(line.take(i) =~= middle);
        } else if i < body.len() {
            assert(excerpt[i - middle.len() - 1] != DELIMITER);
        } else {
        }
    }
    assert(mark_even(line) =~= record.marked_line());
}

/// A stream of unbroken records is well-formed and holds one line break and
/// two delimiters for each record.
pub proof fn lemma_stream_well_formed(records: Seq<Record>)
    requires
        forall|k: int| 0 <= k < records.len() ==> (#[trigger] records[k]).is_unbroken(),
    ensures
        well_formed(stream_of(records), DELIMITER),
        count(stream_of(records), LINE_BREAK) == records.len(),
        count(stream_of(records), DELIMITER) == 2 * records.len(),
    decreases records.len(),
{
    if records.len() > 0 {
        let before = stream_of(records.drop_last());
        let line = records.last().line();
        let text = stream_of(records);
        lemma_stream_well_formed(records.drop_last());
        lemma_line_shape(records.last());
        lemma_count_concat(before, line, DELIMITER);
        lemma_count_concat(before, line, LINE_BREAK);
        lemma_count_single(LINE_BREAK, LINE_BREAK);
        lemma_count_concat(line.drop_last(), seq![LINE_BREAK], LINE_BREAK);
        assert(line =~= line.drop_last() + seq![LINE_BREAK]);
        assert forall|i: int| 0 <= i < text.len() && #[trigger] text[i] == LINE_BREAK implies count(
            text.take(i),
            DELIMITER,
        ) == 2 * (count(text.take(i), LINE_BREAK) + 1) by {
            if i < before.len() {
                assert(text.take(i) =~= before.take(i));
                assert(before[i] == LINE_BREAK);
            } else {
                let j = i - before.len();
                if j < line.len() - 1 {
                    assert(line.drop_last()[j] == LINE_BREAK);
                }
                assert(text.take(i) =~= before + line.drop_last());
                lemma_count_concat(before, line.drop_last(), DELIMITER);
                lemma_count_concat(before, line.drop_last(), LINE_BREAK);
            }
        }
    }
}

/// The three rewrites work piece by piece.
pub proof fn lemma_rewrite_concat(a: Seq<char>, b: Seq<char>, delimiter: char)
    ensures
        rewrite(a + b, delimiter) == rewrite(a, delimiter) + rewrite(b, delimiter),
{
    lemma_replace_char_concat(a, b, MARKER, PAGE_MARKER@);
    let paged_a = replace_all(a, seq![MARKER], PAGE_MARKER@);
    let paged_b = replace_all(b, seq![MARKER], PAGE_MARKER@);
    lemma_replace_char_concat(paged_a, paged_b, delimiter, EMPHASIS_OPEN@);
    let opened_a = replace_all(paged_a, seq![delimiter], EMPHASIS_OPEN@);
    let opened_b = replace_all(paged_b, seq![delimiter], EMPHASIS_OPEN@);
    lemma_replace_char_concat(opened_a, opened_b, LINE_BREAK, EMPHASIS_CLOSE@);
}

/// A plain field passes through the rewrites unchanged.
pub proof fn lemma_rewrite_plain(field: Seq<char>)
    requires
        plain(field),
    ensures
        rewrite(field, DELIMITER) == field,
{
    lemma_replace_char_absent(field, MARKER, PAGE_MARKER@);
    lemma_replace_char_absent(field, DELIMITER, EMPHASIS_OPEN@);
    lemma_replace_char_absent(field, LINE_BREAK, EMPHASIS_CLOSE@);
}

/// A marked line is rewritten into the block of its record.
pub proof fn lemma_rewrite_marked_line(record: Record)
    requires
        record.is_plain(),
    ensures
        rewrite(record.marked_line(), DELIMITER) == record.block(),
{
    reveal_strlit(" - page ");
    reveal_strlit(" - <i>...");
    let page = PAGE_MARKER@;
    let open = EMPHASIS_OPEN@;
    let close = EMPHASIS_CLOSE@;
    assert(rewrite(seq![MARKER], DELIMITER) == page) by {
        lemma_replace_char_alone(MARKER, page);
        assert forall|i: int| 0 <= i < page.len() implies page[i] != DELIMITER && page[i]
            != LINE_BREAK by {}
        lemma_replace_char_absent(page, DELIMITER, open);
        lemma_replace_char_absent(page, LINE_BREAK, close);
    }
    assert(rewrite(seq![DELIMITER], DELIMITER) == open) by {
        lemma_replace_char_absent(seq![DELIMITER], MARKER, page);
        lemma_replace_char_alone(DELIMITER, open);
        assert forall|i: int| 0 <= i < open.len() implies open[i] != LINE_BREAK by {}
        lemma_replace_char_absent(open, LINE_BREAK, close);
    }
    assert(rewrite(seq![LINE_BREAK], DELIMITER) == close) by {
        lemma_replace_char_absent(seq![LINE_BREAK], MARKER, page);
        lemma_replace_char_absent(seq![LINE_BREAK], DELIMITER, open);
        lemma_replace_char_alone(LINE_BREAK, close);
    }
    lemma_rewrite_plain(record.path);
    lemma_rewrite_plain(record.locator);
    lemma_rewrite_plain(record.excerpt);
    let a = record.path + seq![MARKER];
    let b = a + record.locator;
    let c = b + seq![DELIMITER];
    let d = c + record.excerpt;
    lemma_rewrite_concat(record.path, seq![MARKER], DELIMITER);
    lemma_rewrite_concat(a, record.locator, DELIMITER);
    lemma_rewrite_concat(b, seq![DELIMITER], DELIMITER);
    lemma_rewrite_concat(c, record.excerpt, DELIMITER);
    lemma_rewrite_concat(d, seq![LINE_BREAK], DELIMITER);
}

/// Marking the even delimiters of a stream of unbroken records marks the
/// outer boundary of each line.
pub proof fn lemma_mark_even_stream(records: Seq<Record>)
    requires
        forall|k: int| 0 <= k < records.len() ==> (#[trigger] records[k]).is_unbroken(),
    ensures
        mark_even(stream_of(records)) == marked_stream_of(records),
    decreases records.len(),
{
    if records.len() == 0 {
        assert(mark_even(stream_of(records)) =~= marked_stream_of(records));
    } else {
        lemma_mark_even_stream(records.drop_last());
        lemma_stream_well_formed(records.drop_last());
        lemma_line_shape(records.last());
        lemma_mark_even_concat(stream_of(records.drop_last()), records.last().line());
    }
}

/// The marked lines of plain records are rewritten into their blocks.
pub proof fn lemma_rewrite_marked_stream(records: Seq<Record>)
    requires
        forall|k: int| 0 <= k < records.len() ==> (#[trigger] records[k]).is_plain(),
    ensures
        rewrite(marked_stream_of(records), DELIMITER) == blocks_of(records),
    decreases records.len(),
{
    if records.len() == 0 {
        lemma_rewrite_plain(Seq::empty());
    } else {
        lemma_rewrite_marked_stream(records.drop_last());
        lemma_rewrite_marked_line(records.last());
        lemma_rewrite_concat(
            marked_stream_of(records.drop_last()),
            records.last().marked_line(),
            DELIMITER,
        );
    }
}

/// A stream of plain records is well-formed, and it renders to one block for
/// each record, in the order of the records: the path, one page marker, the
/// page, one opened emphasis, the excerpt, and the closing of the emphasis.
pub proof fn lemma_records_render_to_blocks(records: Seq<Record>)
    requires
        forall|k: int| 0 <= k < records.len() ==> (#[trigger] records[k]).is_plain(),
    ensures
        well_formed(stream_of(records), DELIMITER),
        count(stream_of(records), LINE_BREAK) == records.len(),
        rendered(stream_of(records), DELIMITER) == blocks_of(records),
{
    assert forall|k: int| 0 <= k < records.len() implies (#[trigger] records[k]).is_unbroken() by {
        assert(records[k].is_plain());
    }
    lemma_stream_well_formed(records);
    lemma_mark_outer_is_even(stream_of(records));
    lemma_mark_even_stream(records);
    lemma_rewrite_marked_stream(records);
}

/// The stream of two runs of records in a row is their streams in a row.
pub proof fn lemma_stream_concat(a: Seq<Record>, b: Seq<Record>)
    ensures
        stream_of(a + b) == stream_of(a) + stream_of(b),
    decreases b.len(),
{
    if b.len() == 0 {
        assert(a + b =~= a);
        assert(stream_of(a) + stream_of(b) =~= stream_of(a));
    } else {
        assert((a + b).drop_last() =~= a + b.drop_last());
        lemma_stream_concat(a, b.drop_last());
        assert(stream_of(a + b) =~= stream_of(a) + stream_of(b));
    }
}

/// Where the boundaries of record `k` start, in bytes: its outer boundary,
/// occurrence `2 * k` of the delimiter, behind the earlier records and its
/// own path; its inner boundary, occurrence `2 * k + 1`, one delimiter and
/// the page number further on.
pub proof fn lemma_boundaries_of_record(records: Seq<Record>, k: int)
    requires
        forall|j: int| 0 <= j < records.len() ==> (#[trigger] records[j]).is_unbroken(),
        0 <= k < records.len(),
    ensures
        is_nth_offset(
            stream_of(records),
            DELIMITER,
            (2 * k) as nat,
            (encode_utf8(stream_of(records.take(k))).len() + encode_utf8(records[k].path).len())
                as int,
        ),
        is_nth_offset(
            stream_of(records),
            DELIMITER,
            (2 * k + 1) as nat,
            (encode_utf8(stream_of(records.take(k))).len() + encode_utf8(records[k].path).len() + 1
                + encode_utf8(records[k].locator).len()) as int,
        ),
{
    let text = stream_of(records);
    let earlier = records.take(k);
    let before = stream_of(earlier);
    let record = records[k];
    let upto = records.take(k + 1);
    assert(records =~= upto + records.skip(k + 1));
    lemma_stream_concat(upto, records.skip(k + 1));
    assert(upto.drop_last() =~= earlier);
    assert(upto.last() == record);
    assert(text =~= before + record.line() + stream_of(records.skip(k + 1)));
    lemma_stream_well_formed(earlier);
    lemma_count_absent(record.path, DELIMITER);
    lemma_count_absent(record.locator, DELIMITER);
    lemma_count_single(DELIMITER, DELIMITER);
    let one = seq![DELIMITER];
    let outer = (before.len() + record.path.len()) as int;
    let inner = outer + 1 + record.locator.len();
    assert(text.take(outer) =~= before + record.path);
    assert(text.take(inner) =~= before + record.path + one + record.locator);
    lemma_count_concat(before, record.path, DELIMITER);
    lemma_count_concat(before + record.path, one, DELIMITER);
    lemma_count_concat(before + record.path + one, record.locator, DELIMITER);
    lemma_encode_concat(before, record.path);
    lemma_encode_concat(before + record.path, one);
    lemma_encode_concat(before + record.path + one, record.locator);
    assert(encode_utf8(one).len() == 1) by {
        assert(one.drop_first() =~= Seq::<char>::empty());
        reveal_with_fuel(encode_utf8, 2);
    }
    assert(is_nth_occurrence(text, DELIMITER, (2 * k) as nat, outer));
    assert(byte_offset(text, outer) == encode_utf8(before).len() + encode_utf8(
        record.path,
    ).len());
    assert(is_nth_occurrence(text, DELIMITER, (2 * k + 1) as nat, inner));
    assert(byte_offset(text, inner) == encode_utf8(before).len() + encode_utf8(
        record.path,
    ).len() + 1 + encode_utf8(record.locator).len());
}

/// Where the last line of `text` begins: behind its last line break, or at
/// the start where it holds none.
pub open spec fn last_line_start(text: Seq<char>) -> int
    decreases text.len(),
{
    if text.len() == 0 {
        0
    } else if text.last() == LINE_BREAK {
        text.len() as int
    } else {
        last_line_start(text.drop_last())
    }
}

/// The first position of `c` in `text`, or the length of `text` where it
/// holds none.
pub open spec fn first_position(text: Seq<char>, c: char) -> int
    decreases text.len(),
{
    if text.len() == 0 || text[0] == c {
        0
    } else {
        1 + first_position(text.skip(1), c)
    }
}

/// The last line begins behind a line break or at the start, and holds no
/// line break.
pub proof fn lemma_last_line_start(text: Seq<char>)
    ensures
        0 <= last_line_start(text) <= text.len(),
        last_line_start(text) > 0 ==> text[last_line_start(text) - 1] == LINE_BREAK,
        forall|i: int| last_line_start(text) <= i < text.len() ==> text[i] != LINE_BREAK,
    decreases text.len(),
{
    if text.len() > 0 && text.last() != LINE_BREAK {
        lemma_last_line_start(text.drop_last());
        assert forall|i: int| last_line_start(text) <= i < text.len() implies text[i]
            != LINE_BREAK by {
            if i < text.len() - 1 {
                assert(text.drop_last()[i] == text[i]);
            }
        }
    }
}

/// In a text that holds `c`, its first position holds it, nothing before
/// does, and what follows holds one occurrence less.
pub proof fn lemma_first_position(text: Seq<char>, c: char)
    requires
        count(text, c) > 0,
    ensures
        0 <= first_position(text, c) < text.len(),
        text[first_position(text, c)] == c,
        !text.take(first_position(text, c)).contains(c),
        count(text.skip(first_position(text, c) + 1), c) == count(text, c) - 1,
    decreases text.len(),
{
    assert(text.len() > 0);
    let rest = text.skip(1);
    assert(seq![text[0]] + rest =~= text);
    lemma_count_concat(seq![text[0]], rest, c);
    lemma_count_single(text[0], c);
    if text[0] != c {
        lemma_first_position(rest, c);
        let inner = first_position(rest, c);
        let at = inner + 1;
        assert(text.skip(at + 1) =~= rest.skip(inner + 1));
        assert forall|i: int| 0 <= i < at implies text.take(at)[i] != c by {
            if i > 0 {
                assert(rest.take(inner)[i - 1] == text[i]);
            }
        }
    }
}

/// A text that holds two delimiters and no line break is three unbroken
/// fields with a delimiter between them.
pub proof fn lemma_split_fields(body: Seq<char>) -> (record: Record)
    requires
        count(body, DELIMITER) == 2,
        !body.contains(LINE_BREAK),
    ensures
        record.is_unbroken(),
        record.line() == body.push(LINE_BREAK),
        !body.contains(MARKER) ==> record.is_plain(),
{
    lemma_first_position(body, DELIMITER);
    let first = first_position(body, DELIMITER);
    let rest = body.skip(first + 1);
    lemma_first_position(rest, DELIMITER);
    let second = first_position(rest, DELIMITER);
    let record = Record {
        path: body.take(first),
        locator: rest.take(second),
        excerpt: rest.skip(second + 1),
    };
    lemma_count_zero(record.excerpt, DELIMITER);
    assert forall|i: int| 0 <= i < record.path.len() implies record.path[i] != LINE_BREAK && (
    !body.contains(MARKER) ==> record.path[i] != MARKER) by {
        assert(body[i] == record.path[i]);
    }
    assert forall|i: int| 0 <= i < record.locator.len() implies record.locator[i] != LINE_BREAK
        && (!body.contains(MARKER) ==> record.locator[i] != MARKER) by {
        assert(body[first + 1 + i] == record.locator[i]);
    }
    assert forall|i: int| 0 <= i < record.excerpt.len() implies record.excerpt[i] != LINE_BREAK
        && (!body.contains(MARKER) ==> record.excerpt[i] != MARKER) by {
        assert(body[first + 1 + second + 1 + i] == record.excerpt[i]);
    }
    assert(record.line() =~= body.push(LINE_BREAK));
    record
}

/// Every well-formed stream is a run of records: lines of three unbroken
/// fields, one for each of its line breaks. Where the stream holds no marker,
/// the fields are plain.
pub proof fn lemma_well_formed_is_stream_of_records(text: Seq<char>) -> (records: Seq<Record>)
    requires
        well_formed(text, DELIMITER),
    ensures
        stream_of(records) == text,
        forall|k: int| 0 <= k < records.len() ==> (#[trigger] records[k]).is_unbroken(),
        !text.contains(MARKER) ==> forall|k: int|
            0 <= k < records.len() ==> (#[trigger] records[k]).is_plain(),
    decreases text.len(),
{
    if text.len() == 0 {
        let records = Seq::<Record>::empty();
        assert(stream_of(records) =~= text);
        records
    } else {
        let inner = text.drop_last();
        lemma_last_line_start(inner);
        let start = last_line_start(inner);
        let before = text.take(start);
        let body = inner.skip(start);
        assert(text[text.len() - 1] == LINE_BREAK);
        assert(well_formed(before, DELIMITER)) by {
            if start > 0 {
                assert(inner[start - 1] == text[start - 1]);
            }
            assert forall|i: int|
                0 <= i < before.len() && #[trigger] before[i] == LINE_BREAK implies count(
                before.take(i),
                DELIMITER,
            ) == 2 * (count(before.take(i), LINE_BREAK) + 1) by {
                assert(text[i] == LINE_BREAK);
                assert(before.take(i) =~= text.take(i));
            }
        }
        if !text.contains(MARKER) {
            assert forall|i: int| 0 <= i < before.len() implies before[i] != MARKER by {
                assert(before[i] == text[i]);
            }
        }
        let earlier = lemma_well_formed_is_stream_of_records(before);
        assert forall|i: int| 0 <= i < body.len() implies body[i] != LINE_BREAK && (
        !text.contains(MARKER) ==> body[i] != MARKER) by {
            assert(body[i] == inner[start + i]);
            assert(inner[start + i] == text[start + i]);
        }
        assert(count(body, DELIMITER) == 2) by {
            lemma_well_formed_counts(before, DELIMITER);
            lemma_count_absent(body, LINE_BREAK);
            assert(text.take(text.len() - 1) =~= before + body);
            lemma_count_concat(before, body, DELIMITER);
            lemma_count_concat(before, body, LINE_BREAK);
        }
        let record = lemma_split_fields(body);
        let records = earlier.push(record);
        assert(records.drop_last() =~= earlier);
        assert(stream_of(records) =~= text) by {
            assert(before + body.push(LINE_BREAK) =~= text);
        }
        records
    }
}

/// A well-formed stream that holds no marker renders to the blocks of its
/// records, one for each of its line breaks, in their order.
pub proof fn lemma_well_formed_renders_to_blocks(text: Seq<char>) -> (records: Seq<Record>)
    requires
        well_formed(text, DELIMITER),
        !text.contains(MARKER),
    ensures
        stream_of(records) == text,
        records.len() == count(text, LINE_BREAK),
        forall|k: int| 0 <= k < records.len() ==> (#[trigger] records[k]).is_plain(),
        rendered(text, DELIMITER) == blocks_of(records),
{
    let records = lemma_well_formed_is_stream_of_records(text);
    lemma_records_render_to_blocks(records);
    records
}

} // verus!
