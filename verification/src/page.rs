//! The finished page of a stream of records: where neither the question nor
//! the search root stands in a field, the page is the blocks of the records
//! and nothing else.

use crate::classify::{DELIMITER, LINE_BREAK};
use crate::display::{displayed, path_prefix_of, PATH_SEPARATOR};
use crate::query::SEARCH_ROOT;
use crate::records::{blocks_of, lemma_records_render_to_blocks, stream_of, Record};
use crate::render::{
    highlight, strip, BOLD_CLOSE, BOLD_OPEN, EMPHASIS_CLOSE, EMPHASIS_OPEN, MARKER, PAGE_MARKER,
};
use crate::replace::{
    lemma_occurs_in_part, lemma_occurs_in_single, lemma_replace_absent,
    lemma_replace_first_occurrence, lemma_seam, made_of, occurrences, occurs_in,
};
use vstd::prelude::*;

verus! {

/// The one word that the markup itself holds.
pub const PAGE_WORD: &'static str = "page";

/// The tag that opens an emphasis.
pub const EMPHASIS_TAG: &'static str = "<i>";

/// Whether `c` is a letter of the basic Latin alphabet.
pub open spec fn is_letter(c: char) -> bool {
    ('a' <= c <= 'z') || ('A' <= c <= 'Z')
}

/// Whether `c` is a character of the search root.
pub open spec fn in_search_root(c: char) -> bool {
    SEARCH_ROOT@.contains(c)
}

impl Record {
    /// Whether `pat` stands in one of the three fields.
    pub open spec fn holds(self, pat: Seq<char>) -> bool {
        occurs_in(self.path, pat) || occurs_in(self.locator, pat) || occurs_in(self.excerpt, pat)
    }
}

/// A word of four letters or more, other than `page`, stands in none of the
/// three pieces of markup.
pub proof fn lemma_word_not_in_markup(word: Seq<char>)
    requires
        made_of(word, |c: char| is_letter(c)),
        word.len() >= 4,
        word != PAGE_WORD@,
    ensures
        !occurs_in(PAGE_MARKER@, word),
        !occurs_in(EMPHASIS_OPEN@, word),
        !occurs_in(EMPHASIS_CLOSE@, word),
{
    reveal_strlit(" - page ");
    reveal_strlit(" - <i>...");
    reveal_strlit("...</i>\n\n");
    reveal_strlit("page");
    let m = word.len() as int;
    let letter = |c: char| is_letter(c);
    assert(letter(word[0]) && letter(word[1]) && letter(word[2]) && letter(word[3]));
    if occurs_in(PAGE_MARKER@, word) {
        let text = PAGE_MARKER@;
        let i = choose|i: int|
            0 <= i && i + m <= text.len() && #[trigger] text.subrange(i, i + m) == word;
        let window = text.subrange(i, i + m);
        assert(window[0] == text[i] && window[1] == text[i + 1] && window[2] == text[i + 2]
            && window[3] == text[i + 3]);
        assert(i == 3);
        if m > 4 {
            assert(window[4] == text[7]);
            assert(letter(word[4]));
        }
        assert(word =~= PAGE_WORD@);
    }
    if occurs_in(EMPHASIS_OPEN@, word) {
        let text = EMPHASIS_OPEN@;
        let i = choose|i: int|
            0 <= i && i + m <= text.len() && #[trigger] text.subrange(i, i + m) == word;
        let window = text.subrange(i, i + m);
        assert(window[0] == text[i] && window[1] == text[i + 1]);
    }
    if occurs_in(EMPHASIS_CLOSE@, word) {
        let text = EMPHASIS_CLOSE@;
        let i = choose|i: int|
            0 <= i && i + m <= text.len() && #[trigger] text.subrange(i, i + m) == word;
        let window = text.subrange(i, i + m);
        assert(window[0] == text[i] && window[1] == text[i + 1]);
    }
}

/// The blocks of some records end in a line break.
pub proof fn lemma_blocks_end_in_line_break(records: Seq<Record>)
    requires
        records.len() > 0,
    ensures
        blocks_of(records).len() > 0,
        blocks_of(records).last() == LINE_BREAK,
{
    reveal_strlit("...</i>\n\n");
}

/// A word that stands in no field and in no piece of markup, and that cannot
/// hold a blank, a full stop or a line break, stands nowhere in the blocks.
pub proof fn lemma_word_not_in_blocks(
    records: Seq<Record>,
    word: Seq<char>,
    allowed: spec_fn(char) -> bool,
)
    requires
        word.len() > 0,
        made_of(word, allowed),
        !allowed(' '),
        !allowed('.'),
        !allowed(LINE_BREAK),
        !occurs_in(PAGE_MARKER@, word),
        !occurs_in(EMPHASIS_OPEN@, word),
        !occurs_in(EMPHASIS_CLOSE@, word),
        forall|k: int| 0 <= k < records.len() ==> !(#[trigger] records[k]).holds(word),
    ensures
        !occurs_in(blocks_of(records), word),
    decreases records.len(),
{
    reveal_strlit(" - page ");
    reveal_strlit(" - <i>...");
    reveal_strlit("...</i>\n\n");
    if records.len() == 0 {
        assert(blocks_of(records).len() == 0);
    } else {
        let earlier = records.drop_last();
        let record = records.last();
        assert(!record.holds(word));
        assert forall|k: int| 0 <= k < earlier.len() implies !(#[trigger] earlier[k]).holds(
            word,
        ) by {
            assert(!records[k].holds(word));
        }
        lemma_word_not_in_blocks(earlier, word, allowed);
        let a = record.path + PAGE_MARKER@;
        let b = a + record.locator;
        let c = b + EMPHASIS_OPEN@;
        let d = c + record.excerpt;
        let block = d + EMPHASIS_CLOSE@;
        lemma_seam(record.path, PAGE_MARKER@, word, allowed);
        assert(a.last() == ' ');
        lemma_seam(a, record.locator, word, allowed);
        lemma_seam(b, EMPHASIS_OPEN@, word, allowed);
        assert(c.last() == '.');
        lemma_seam(c, record.excerpt, word, allowed);
        lemma_seam(d, EMPHASIS_CLOSE@, word, allowed);
        assert(block == record.block());
        if earlier.len() > 0 {
            lemma_blocks_end_in_line_break(earlier);
        }
        lemma_seam(blocks_of(earlier), block, word, allowed);
    }
}

/// The block of a record none of whose fields holds the word `page` holds
/// the page marker exactly once.
pub proof fn lemma_one_page_marker(record: Record)
    requires
        !record.holds(PAGE_WORD@),
    ensures
        occurrences(record.block(), PAGE_MARKER@) == 1,
{
    reveal_strlit(" - page ");
    reveal_strlit(" - <i>...");
    reveal_strlit("...</i>\n\n");
    reveal_strlit("page");
    let marker = PAGE_MARKER@;
    let word = PAGE_WORD@;
    let path = record.path;
    let after = record.locator + EMPHASIS_OPEN@ + record.excerpt + EMPHASIS_CLOSE@;
    let text = path + marker + after;
    assert(text =~= record.block());
    assert forall|i: int| 0 <= i < path.len() implies #[trigger] text.subrange(
        i,
        i + marker.len(),
    ) != marker by {
        let window = text.subrange(i, i + 8);
        if window == marker {
            let inside = path.len() - i;
            if inside >= 7 {
                assert forall|j: int| 0 <= j < 4 implies path.subrange(i + 3, i + 7)[j]
                    == word[j] by {
                    assert(window[3 + j] == path[i + 3 + j]);
                }
                assert(path.subrange(i + 3, i + 3 + word.len()) =~= word);
            } else {
                assert(window[inside] == marker[0]);
                assert(window[inside + 1] == marker[1]);
            }
        }
    }
    lemma_replace_first_occurrence(path, marker, after, Seq::empty());
    let letter = |c: char| is_letter(c);
    assert(made_of(word, letter));
    assert(!occurs_in(EMPHASIS_OPEN@, word)) by {
        if occurs_in(EMPHASIS_OPEN@, word) {
            let i = choose|i: int|
                0 <= i && i + word.len() <= EMPHASIS_OPEN@.len()
                    && #[trigger] EMPHASIS_OPEN@.subrange(i, i + word.len()) == word;
            assert(EMPHASIS_OPEN@.subrange(i, i + 4)[0] == EMPHASIS_OPEN@[i]);
        }
    }
    assert(!occurs_in(EMPHASIS_CLOSE@, word)) by {
        if occurs_in(EMPHASIS_CLOSE@, word) {
            let i = choose|i: int|
                0 <= i && i + word.len() <= EMPHASIS_CLOSE@.len()
                    && #[trigger] EMPHASIS_CLOSE@.subrange(i, i + word.len()) == word;
            assert(EMPHASIS_CLOSE@.subrange(i, i + 4)[0] == EMPHASIS_CLOSE@[i]);
        }
    }
    let a = record.locator + EMPHASIS_OPEN@;
    let b = a + record.excerpt;
    lemma_seam(record.locator, EMPHASIS_OPEN@, word, letter);
    assert(a.last() == '.');
    lemma_seam(a, record.excerpt, word, letter);
    lemma_seam(b, EMPHASIS_CLOSE@, word, letter);
    if occurs_in(after, marker) {
        assert(marker =~= seq![' ', '-', ' '] + word + seq![' ']);
        lemma_occurs_in_part(after, seq![' ', '-', ' '], word, seq![' ']);
    }
    lemma_replace_absent(after, marker, Seq::empty());
}

/// The block of a record none of whose fields holds the tag `<i>` holds the
/// opening of the emphasis exactly once.
pub proof fn lemma_one_emphasis(record: Record)
    requires
        !record.holds(EMPHASIS_TAG@),
    ensures
        occurrences(record.block(), EMPHASIS_OPEN@) == 1,
{
    reveal_strlit(" - page ");
    reveal_strlit(" - <i>...");
    reveal_strlit("...</i>\n\n");
    reveal_strlit("<i>");
    let open = EMPHASIS_OPEN@;
    let tag = EMPHASIS_TAG@;
    let path = record.path;
    let locator = record.locator;
    let front = path + PAGE_MARKER@;
    let before = front + locator;
    let after = record.excerpt + EMPHASIS_CLOSE@;
    let text = before + open + after;
    assert(text =~= record.block());
    assert forall|i: int| 0 <= i < before.len() implies #[trigger] text.subrange(
        i,
        i + open.len(),
    ) != open by {
        let window = text.subrange(i, i + 9);
        if window == open {
            let at = i + 3;
            assert(window[3] == text[at] && window[4] == text[at + 1] && window[5] == text[at
                + 2]);
            if at + 3 <= path.len() {
                assert forall|j: int| 0 <= j < 3 implies path.subrange(at, at + 3)[j]
                    == tag[j] by {
                    assert(text[at + j] == path[at + j]);
                }
                assert(path.subrange(at, at + tag.len()) =~= tag);
            } else if at < path.len() {
                assert(text[path.len() as int] == PAGE_MARKER@[0]);
            } else if at < front.len() {
                assert(text[at] == PAGE_MARKER@[at - path.len()]);
            } else if at + 3 <= before.len() {
                let from = at - front.len();
                assert forall|j: int| 0 <= j < 3 implies locator.subrange(from, from + 3)[j]
                    == tag[j] by {
                    assert(text[at + j] == locator[from + j]);
                }
                assert(locator.subrange(from, from + tag.len()) =~= tag);
            } else if at < before.len() {
                assert(text[before.len() as int] == open[0]);
            } else {
                assert(text[at] == open[at - before.len()]);
            }
        }
    }
    lemma_replace_first_occurrence(before, open, after, Seq::empty());
    let tagged = |c: char| c == '<' || c == 'i' || c == '>';
    assert(made_of(tag, tagged));
    assert(!occurs_in(EMPHASIS_CLOSE@, tag)) by {
        if occurs_in(EMPHASIS_CLOSE@, tag) {
            let i = choose|i: int|
                0 <= i && i + tag.len() <= EMPHASIS_CLOSE@.len()
                    && #[trigger] EMPHASIS_CLOSE@.subrange(i, i + tag.len()) == tag;
            let window = EMPHASIS_CLOSE@.subrange(i, i + 3);
            assert(window[0] == EMPHASIS_CLOSE@[i] && window[1] == EMPHASIS_CLOSE@[i + 1]);
        }
    }
    lemma_seam(record.excerpt, EMPHASIS_CLOSE@, tag, tagged);
    if occurs_in(after, open) {
        assert(open =~= seq![' ', '-', ' '] + tag + seq!['.', '.', '.']);
        lemma_occurs_in_part(after, seq![' ', '-', ' '], tag, seq!['.', '.', '.']);
    }
    lemma_replace_absent(after, open, Seq::empty());
}

/// The blocks of plain records hold neither a delimiter nor a marker: every
/// boundary has become markup.
pub proof fn lemma_blocks_hold_no_boundary(records: Seq<Record>)
    requires
        forall|k: int| 0 <= k < records.len() ==> (#[trigger] records[k]).is_plain(),
    ensures
        !blocks_of(records).contains(DELIMITER),
        !blocks_of(records).contains(MARKER),
{
    reveal_strlit(" - page ");
    reveal_strlit(" - <i>...");
    reveal_strlit("...</i>\n\n");
    lemma_no_such_character(records, DELIMITER);
    lemma_no_such_character(records, MARKER);
}

/// A character that stands in no field and in no piece of markup stands
/// nowhere in the blocks.
pub proof fn lemma_no_such_character(records: Seq<Record>, c: char)
    requires
        c != ' ',
        c != '.',
        c != LINE_BREAK,
        !PAGE_MARKER@.contains(c),
        !EMPHASIS_OPEN@.contains(c),
        !EMPHASIS_CLOSE@.contains(c),
        forall|k: int|
            0 <= k < records.len() ==> !(#[trigger] records[k]).path.contains(c)
                && !records[k].locator.contains(c) && !records[k].excerpt.contains(c),
    ensures
        !blocks_of(records).contains(c),
{
    let word = seq![c];
    let same = |x: char| x == c;
    lemma_occurs_in_single(PAGE_MARKER@, c);
    lemma_occurs_in_single(EMPHASIS_OPEN@, c);
    lemma_occurs_in_single(EMPHASIS_CLOSE@, c);
    assert forall|k: int| 0 <= k < records.len() implies !(#[trigger] records[k]).holds(word) by {
        lemma_occurs_in_single(records[k].path, c);
        lemma_occurs_in_single(records[k].locator, c);
        lemma_occurs_in_single(records[k].excerpt, c);
    }
    lemma_word_not_in_blocks(records, word, same);
    lemma_occurs_in_single(blocks_of(records), c);
}

/// The page of plain records whose fields hold neither the question nor the
/// search root, for a question that is a word of four letters or more other
/// than `page`: it is the blocks of the records, one for each, in their
/// order, with nothing set in bold and nothing removed.
pub proof fn lemma_page_of_records(
    subject: Seq<char>,
    question: Seq<char>,
    records: Seq<Record>,
)
    requires
        forall|k: int| 0 <= k < records.len() ==> (#[trigger] records[k]).is_plain(),
        forall|k: int| 0 <= k < records.len() ==> !(#[trigger] records[k]).holds(question),
        forall|k: int| 0 <= k < records.len() ==> !(#[trigger] records[k]).holds(SEARCH_ROOT@),
        made_of(question, |c: char| is_letter(c)),
        question.len() >= 4,
        question != PAGE_WORD@,
    ensures
        displayed(subject, question, stream_of(records)) == blocks_of(records),
        !displayed(subject, question, stream_of(records)).contains(DELIMITER),
        !displayed(subject, question, stream_of(records)).contains(MARKER),
{
    lemma_blocks_hold_no_boundary(records);
    reveal_strlit("past-papers/");
    reveal_strlit(" - page ");
    reveal_strlit(" - <i>...");
    reveal_strlit("...</i>\n\n");
    let blocks = blocks_of(records);
    lemma_records_render_to_blocks(records);
    lemma_word_not_in_markup(question);
    lemma_word_not_in_blocks(records, question, |c: char| is_letter(c));
    lemma_replace_absent(blocks, question, BOLD_OPEN@ + question + BOLD_CLOSE@);
    assert(highlight(blocks, question) == blocks);
    let root = SEARCH_ROOT@;
    let rooted = |c: char| in_search_root(c);
    assert(made_of(root, rooted)) by {
        assert forall|j: int| 0 <= j < root.len() implies rooted(#[trigger] root[j]) by {
            assert(root.contains(root[j]));
        }
    }
    assert forall|j: int| 0 <= j < root.len() implies root[j] != ' ' && root[j] != '.' && root[j]
        != LINE_BREAK by {}
    lemma_word_not_in_blocks(records, root, rooted);
    let prefix = path_prefix_of(subject);
    if occurs_in(blocks, prefix) {
        assert(prefix =~= Seq::<char>::empty() + root + (subject + PATH_SEPARATOR@));
        lemma_occurs_in_part(blocks, Seq::empty(), root, subject + PATH_SEPARATOR@);
    }
    lemma_replace_absent(blocks, prefix, Seq::empty());
}

} // verus!
