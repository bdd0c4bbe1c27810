use find_past_paper::classify::{
    classify, count_chars, get_char_index_of_nth_separator, get_even, nth_occurrence,
    outer_boundaries,
};
use find_past_paper::display::{
    format_output_for_html_display, is_well_formed, path_prefix, render_stream, respond,
};
use find_past_paper::error::FindPastPaperError;
use find_past_paper::render::{finalize, finalize_chars, render, render_chars};
use find_past_paper::replace::{append_chars, occurs_at, replace_all_chars};
use find_past_paper::text::{byte_offset_of, chars_of, string_of, utf8_width};

fn chars(s: &str) -> Vec<char> {
    s.chars().collect()
}

fn page(subject: &str, question: &str, output: &[u8]) -> Result<String, FindPastPaperError> {
    format_output_for_html_display(subject.to_string(), question.to_string(), output.to_vec())
}

#[test]
fn get_even_lists_the_first_even_numbers() {
    assert_eq!(get_even(0), Vec::<u32>::new());
    assert_eq!(get_even(1), vec![0]);
    assert_eq!(get_even(4), vec![0, 2, 4, 6]);
}

#[test]
fn nth_separator_is_found_by_its_number() {
    let stream = "a|1|hello\n".to_string();
    assert_eq!(get_char_index_of_nth_separator(stream.clone(), 0), Ok(1));
    assert_eq!(get_char_index_of_nth_separator(stream, 1), Ok(3));
}

#[test]
fn nth_separator_beyond_the_last_is_an_error() {
    assert_eq!(
        get_char_index_of_nth_separator("a|1|hello\n".to_string(), 2),
        Err(FindPastPaperError::MalformedSearchOutput)
    );
    assert_eq!(
        get_char_index_of_nth_separator(String::new(), 0),
        Err(FindPastPaperError::MalformedSearchOutput)
    );
}

#[test]
fn offsets_count_bytes_not_characters() {
    assert_eq!(get_char_index_of_nth_separator("\u{e9}|1|x\n".to_string(), 0), Ok(2));
    assert_eq!(get_char_index_of_nth_separator("\u{e9}|1|x\n".to_string(), 1), Ok(4));
    assert_eq!(classify("\u{e9}\u{e9}|1|x\n", '|'), Ok(vec![4]));
    assert_eq!(classify("a|1|\u{2026}\n\u{1f600}|2|y\n", '|'), Ok(vec![1, 12]));
}

#[test]
fn offsets_fit_replace_range() {
    let stream = "caf\u{e9}.pdf|1|x\nna\u{ef}ve|2|y\n";
    let mut marked = stream.to_string();
    for at in classify(stream, '|').unwrap() {
        marked.replace_range(at..at + 1, "~");
    }
    assert_eq!(marked, "caf\u{e9}.pdf~1|x\nna\u{ef}ve~2|y\n");
}

#[test]
fn offsets_agree_with_match_indices() {
    let stream = "\u{e9}|1|x\n\u{2026}\u{2026}|22|y\n";
    let found: Vec<usize> = stream.match_indices('|').map(|m| m.0).collect();
    for (n, at) in found.iter().enumerate() {
        assert_eq!(get_char_index_of_nth_separator(stream.to_string(), n as u32), Ok(*at));
    }
    assert_eq!(classify(stream, '|'), Ok(vec![found[0], found[2]]));
}

#[test]
fn byte_offsets_and_widths() {
    assert_eq!(utf8_width('a'), 1);
    assert_eq!(utf8_width('\u{7f}'), 1);
    assert_eq!(utf8_width('\u{80}'), 2);
    assert_eq!(utf8_width('\u{e9}'), 2);
    assert_eq!(utf8_width('\u{7ff}'), 2);
    assert_eq!(utf8_width('\u{800}'), 3);
    assert_eq!(utf8_width('\u{2026}'), 3);
    assert_eq!(utf8_width('\u{ffff}'), 3);
    assert_eq!(utf8_width('\u{10000}'), 4);
    assert_eq!(utf8_width('\u{10ffff}'), 4);
    let text = chars("a\u{e9}\u{2026}\u{1f600}b");
    assert_eq!(byte_offset_of(&text, 0), 0);
    assert_eq!(byte_offset_of(&text, 1), 1);
    assert_eq!(byte_offset_of(&text, 2), 3);
    assert_eq!(byte_offset_of(&text, 3), 6);
    assert_eq!(byte_offset_of(&text, 4), 10);
    assert_eq!(byte_offset_of(&text, 5), 11);
}

#[test]
fn render_marks_the_character_that_starts_at_the_offset() {
    assert_eq!(
        render("\u{e9}|1|x\n", &[2], '|'),
        Ok("\u{e9} - page 1 - <i>...x...</i>\n\n".to_string())
    );
    assert_eq!(render("\u{e9}b", &[0], '|'), Ok(" - page b".to_string()));
}

#[test]
fn render_refuses_an_offset_inside_a_character() {
    assert_eq!(
        render("\u{e9}|1|x\n", &[1], '|'),
        Err(FindPastPaperError::MalformedSearchOutput)
    );
}

#[test]
fn render_takes_boundaries_in_any_order() {
    assert_eq!(
        render("a|1|x\nb|2|y\n", &[7, 1, 7], '|'),
        Ok("a - page 1 - <i>...x...</i>\n\nb - page 2 - <i>...y...</i>\n\n".to_string())
    );
}

#[test]
fn count_and_nth_occurrence_agree() {
    let text = chars("x|y||z");
    assert_eq!(count_chars(&text, '|'), 3);
    assert_eq!(count_chars(&text, 'q'), 0);
    assert_eq!(nth_occurrence(&text, '|', 0), Some(1));
    assert_eq!(nth_occurrence(&text, '|', 1), Some(3));
    assert_eq!(nth_occurrence(&text, '|', 2), Some(4));
    assert_eq!(nth_occurrence(&text, '|', 3), None);
}

#[test]
fn classify_returns_one_outer_boundary_per_record() {
    assert_eq!(classify("a|1|x\nbc|22|y\n", '|'), Ok(vec![1, 8]));
    assert_eq!(classify("", '|'), Ok(vec![]));
    assert_eq!(classify("no line break | here", '|'), Ok(vec![]));
}

#[test]
fn classify_works_with_another_delimiter() {
    assert_eq!(classify("a;1;x\n", ';'), Ok(vec![1]));
}

#[test]
fn classify_fails_when_an_occurrence_is_missing() {
    assert_eq!(classify("a\nb\n", '|'), Err(FindPastPaperError::MalformedSearchOutput));
    assert_eq!(classify("a|1|x\nb\n", '|'), Err(FindPastPaperError::MalformedSearchOutput));
}

#[test]
fn classify_does_not_validate_each_record() {
    assert_eq!(classify("a|1\nb|2|y\n", '|'), Ok(vec![1, 7]));
    assert_eq!(outer_boundaries(&chars("a|1\nb|2|y\n"), '|'), Some(vec![1, 7]));
}

#[test]
fn single_record_round_trip() {
    let stream = "a|1|hello\n";
    let boundaries = classify(stream, '|').unwrap();
    assert_eq!(boundaries, vec![1]);
    assert_eq!(
        render(stream, &boundaries, '|'),
        Ok("a - page 1 - <i>...hello...</i>\n\n".to_string())
    );
}

#[test]
fn render_marks_only_the_given_boundaries() {
    assert_eq!(
        render("a|1|x\n", &[], '|'),
        Ok("a - <i>...1 - <i>...x...</i>\n\n".to_string())
    );
    assert_eq!(
        render("a|1|x\n", &[3], '|'),
        Ok("a - <i>...1 - page x...</i>\n\n".to_string())
    );
}

#[test]
fn render_refuses_a_boundary_outside_the_stream() {
    assert_eq!(render("abc", &[3], '|'), Err(FindPastPaperError::MalformedSearchOutput));
    assert_eq!(render_chars(&chars("abc"), &[0, 7], '|'), None);
    assert_eq!(render_chars(&chars("abc"), &[2], '|'), Some(chars("ab - page ")));
}

#[test]
fn marker_in_the_stream_is_rewritten_too() {
    assert_eq!(
        page("s", "zzzz", b"~a|1|x\n"),
        Ok(" - page a - page 1 - <i>...x...</i>\n\n".to_string())
    );
}

#[test]
fn every_record_gets_its_block_in_order() {
    assert_eq!(
        page("s", "zzzz", b"a|1|x\nb|2|y\nc|3|z\n"),
        Ok(concat_blocks(&[("a", "1", "x"), ("b", "2", "y"), ("c", "3", "z")]))
    );
}

fn concat_blocks(records: &[(&str, &str, &str)]) -> String {
    let mut out = String::new();
    for (path, locator, excerpt) in records {
        out.push_str(path);
        out.push_str(" - page ");
        out.push_str(locator);
        out.push_str(" - <i>...");
        out.push_str(excerpt);
        out.push_str("...</i>\n\n");
    }
    out
}

#[test]
fn each_block_holds_one_page_marker_and_one_emphasis() {
    let html = page("s", "zzzz", b"a|1|x\nb|2|y\n").unwrap();
    assert_eq!(html.matches(" - page ").count(), 2);
    assert_eq!(html.matches(" - <i>...").count(), 2);
    assert_eq!(html.matches("...</i>\n\n").count(), 2);
}

#[test]
fn highlighting_wraps_every_literal_occurrence() {
    assert_eq!(
        finalize(
            "hello.pdf - page 1 - <i>...hello world hello...</i>\n\n",
            "hello",
            "none/"
        ),
        "<b>hello</b>.pdf - page 1 - <i>...<b>hello</b> world <b>hello</b>...</i>\n\n"
    );
}

#[test]
fn highlighting_is_case_sensitive() {
    assert_eq!(finalize("Hello hello", "hello", "none/"), "Hello <b>hello</b>");
}

#[test]
fn highlighting_adds_seven_characters_per_occurrence() {
    let text = "hello, hello and hello";
    let out = finalize(text, "hello", "none/");
    assert_eq!(out.chars().count(), text.chars().count() + 3 * 7);
}

#[test]
fn occurrences_do_not_overlap() {
    assert_eq!(finalize("aaa", "aa", "none/"), "<b>aa</b>a");
    assert_eq!(finalize("aaaa", "aa", "none/"), "<b>aa</b><b>aa</b>");
}

#[test]
fn empty_term_and_prefix_change_nothing() {
    assert_eq!(finalize("abc", "", ""), "abc");
    assert_eq!(finalize_chars(&chars("abc"), &[], &[]), chars("abc"));
}

#[test]
fn path_prefix_is_removed() {
    assert_eq!(finalize("roots/math/2020.pdf", "zzzz", "roots/math/"), "2020.pdf");
}

#[test]
fn path_prefix_is_removed_wherever_it_stands() {
    assert_eq!(finalize("x/a x/b", "zzzz", "x/"), "a b");
}

#[test]
fn markup_is_not_escaped() {
    assert_eq!(finalize("a <i>&</i> b", "<i>", "none/"), "a <b><i></b>&</i> b");
}

#[test]
fn path_prefix_names_the_subject_directory() {
    assert_eq!(path_prefix("math"), "past-papers/math/");
    assert_eq!(path_prefix(""), "past-papers//");
}

#[test]
fn whole_page_for_one_match() {
    assert_eq!(
        page("math", "hello", b"past-papers/math/2020.pdf|3|say hello there\n"),
        Ok("2020.pdf - page 3 - <i>...say <b>hello</b> there...</i>\n\n".to_string())
    );
}

#[test]
fn term_inside_the_path_is_bolded_before_the_prefix_is_looked_for() {
    assert_eq!(
        page("math", "math", b"past-papers/math/a.pdf|1|x\n"),
        Ok("past-papers/<b>math</b>/a.pdf - page 1 - <i>...x...</i>\n\n".to_string())
    );
}

#[test]
fn empty_stream_renders_to_empty_output() {
    assert_eq!(page("math", "hello", b""), Ok(String::new()));
    assert_eq!(render("", &[], '|'), Ok(String::new()));
    assert_eq!(render_stream(&[], &chars("hello"), &chars("p/")), Some(vec![]));
}

#[test]
fn record_with_one_delimiter_fails_the_whole_call() {
    assert_eq!(
        page("s", "zzzz", b"a|1\nb|2|y\n"),
        Err(FindPastPaperError::MalformedSearchOutput)
    );
    assert_eq!(
        page("s", "zzzz", b"a|1|x\nb|2\n"),
        Err(FindPastPaperError::MalformedSearchOutput)
    );
}

#[test]
fn record_with_three_delimiters_fails_the_whole_call() {
    assert_eq!(
        page("s", "zzzz", b"a|1|x|y\nb|2|z\n"),
        Err(FindPastPaperError::MalformedSearchOutput)
    );
}

#[test]
fn unfinished_last_record_fails_the_whole_call() {
    assert_eq!(page("s", "zzzz", b"a|1|hello"), Err(FindPastPaperError::MalformedSearchOutput));
    assert_eq!(
        page("s", "zzzz", b"a|1|x\nb|2|y"),
        Err(FindPastPaperError::MalformedSearchOutput)
    );
}

#[test]
fn blank_line_is_no_record() {
    assert_eq!(page("s", "zzzz", b"\n"), Err(FindPastPaperError::MalformedSearchOutput));
}

#[test]
fn well_formedness_is_decided_line_by_line() {
    assert!(is_well_formed(&chars(""), '|'));
    assert!(is_well_formed(&chars("a|1|x\n"), '|'));
    assert!(is_well_formed(&chars("||\n||\n"), '|'));
    assert!(!is_well_formed(&chars("a|1|x"), '|'));
    assert!(!is_well_formed(&chars("|\n|||\n"), '|'));
    assert!(!is_well_formed(&chars("a\n"), '\n'));
    assert!(is_well_formed(&chars(""), '\n'));
}

#[test]
fn bytes_that_are_not_text_cannot_be_read() {
    assert_eq!(page("s", "zzzz", &[0xff, 0xfe]), Err(FindPastPaperError::CouldNotReadFile));
    assert_eq!(
        page("s", "zzzz", &[b'a', b'|', b'1', b'|', 0xc3, b'\n']),
        Err(FindPastPaperError::CouldNotReadFile)
    );
}

#[test]
fn bytes_are_decoded_as_utf8() {
    assert_eq!(
        page("s", "zzzz", "caf\u{e9}.pdf|1|na\u{ef}ve \u{2026}\n".as_bytes()),
        Ok("caf\u{e9}.pdf - page 1 - <i>...na\u{ef}ve \u{2026}...</i>\n\n".to_string())
    );
}

#[test]
fn missing_reply_cannot_be_read() {
    assert_eq!(
        respond("s".to_string(), "zzzz".to_string(), None),
        Err(FindPastPaperError::CouldNotReadFile)
    );
}

#[test]
fn reply_is_rendered() {
    assert_eq!(
        respond("s".to_string(), "zzzz".to_string(), Some(b"past-papers/s/a|1|x\n".to_vec())),
        Ok("a - page 1 - <i>...x...</i>\n\n".to_string())
    );
}

#[test]
fn rendering_rendered_output_ends_without_a_page() {
    let once = page("s", "zzzz", b"a|1|x\n").unwrap();
    assert_eq!(
        page("s", "zzzz", once.as_bytes()),
        Err(FindPastPaperError::MalformedSearchOutput)
    );
    assert_eq!(classify(&once, '|'), Err(FindPastPaperError::MalformedSearchOutput));
    assert_eq!(finalize(&once, "zzzz", "none/"), once);
}

#[test]
fn replacement_is_not_scanned_again() {
    assert_eq!(replace_all_chars(&chars("aXa"), &chars("X"), &chars("XX")), chars("aXXa"));
    assert_eq!(replace_all_chars(&chars("abab"), &chars("ab"), &chars("a")), chars("aa"));
    assert_eq!(replace_all_chars(&chars("ab"), &chars("abc"), &chars("x")), chars("ab"));
}

#[test]
fn occurs_at_compares_in_place() {
    let text = chars("hello");
    assert!(occurs_at(&text, 1, &chars("ell")));
    assert!(!occurs_at(&text, 0, &chars("ell")));
    assert!(occurs_at(&text, 5, &[]));
}

#[test]
fn append_chars_extends_at_the_end() {
    let mut out = chars("ab");
    append_chars(&mut out, &chars("cd"));
    assert_eq!(out, chars("abcd"));
}

#[test]
fn text_conversions_keep_every_character() {
    assert_eq!(chars_of("a\u{e9}\u{2026}\n"), vec!['a', '\u{e9}', '\u{2026}', '\n']);
    assert_eq!(string_of(&['a', '\u{e9}', '\u{2026}', '\n']), "a\u{e9}\u{2026}\n");
    assert_eq!(string_of(&[]), "");
}

#[test]
fn page_for_two_records() {
    assert_eq!(
        page("math", "zzzz", b"a|1|x\nb|2|y\n"),
        Ok("a - page 1 - <i>...x...</i>\n\nb - page 2 - <i>...y...</i>\n\n".to_string())
    );
}

#[test]
fn page_for_one_record_modulo_trailing_line_breaks() {
    let html = page("math", "zzzz", b"a|1|hello\n").unwrap();
    assert_eq!(html.trim_end_matches('\n'), "a - page 1 - <i>...hello...</i>");
}

#[test]
fn term_in_the_path_is_bolded_and_other_case_is_not() {
    assert_eq!(
        page("math", "hello", b"hello.pdf|2|hello Hello hello\n"),
        Ok("<b>hello</b>.pdf - page 2 - <i>...<b>hello</b> Hello <b>hello</b>...</i>\n\n"
            .to_string())
    );
}

#[test]
fn displayed_path_is_relative_to_the_subject_directory() {
    assert_eq!(
        page("math", "zzzz", b"past-papers/math/2020.pdf|3|text\n"),
        Ok("2020.pdf - page 3 - <i>...text...</i>\n\n".to_string())
    );
}

#[test]
fn blocks_come_apart_at_line_breaks() {
    let html = page("math", "entropy", b"a.pdf|1|x\nb.pdf|22|y z\nc.pdf|3|w\n").unwrap();
    let blocks: Vec<&str> = html.split('\n').filter(|b| !b.is_empty()).collect();
    assert_eq!(
        blocks,
        vec![
            "a.pdf - page 1 - <i>...x...</i>",
            "b.pdf - page 22 - <i>...y z...</i>",
            "c.pdf - page 3 - <i>...w...</i>"
        ]
    );
    for block in blocks {
        assert_eq!(block.matches(" - page ").count(), 1);
        assert_eq!(block.matches(" - <i>...").count(), 1);
    }
    assert!(!html.contains('|'));
    assert!(!html.contains('~'));
}

