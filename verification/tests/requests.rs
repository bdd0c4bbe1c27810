use find_past_paper::error::FindPastPaperError;
use find_past_paper::query::{check_question, pdfgrep_arguments, plan_search, search_root};

#[test]
fn blank_question_is_refused() {
    assert_eq!(check_question(""), Err(FindPastPaperError::InputFieldIsEmpty));
}

#[test]
fn short_question_is_refused() {
    assert_eq!(check_question("a"), Err(FindPastPaperError::UnsuitableInputLength));
    assert_eq!(check_question("abc"), Err(FindPastPaperError::UnsuitableInputLength));
}

#[test]
fn question_of_four_bytes_is_accepted() {
    assert_eq!(check_question("abcd"), Ok(()));
    assert_eq!(check_question("what is entropy"), Ok(()));
}

#[test]
fn question_length_is_measured_in_bytes() {
    assert_eq!(check_question("\u{e9}\u{e9}"), Ok(()));
    assert_eq!(check_question("\u{e9}a"), Err(FindPastPaperError::UnsuitableInputLength));
}

#[test]
fn search_root_is_the_subject_directory() {
    assert_eq!(search_root("math"), "past-papers/math");
}

#[test]
fn search_arguments_are_in_order() {
    assert_eq!(
        pdfgrep_arguments("hello", "math"),
        vec!["hello", "past-papers/math", "-n", "-r", "-H", "--match-prefix-separator", "|"]
    );
}

#[test]
fn plan_is_a_refusal_or_a_search() {
    assert_eq!(plan_search("", "math"), Err(FindPastPaperError::InputFieldIsEmpty));
    assert_eq!(plan_search("abc", "math"), Err(FindPastPaperError::UnsuitableInputLength));
    assert_eq!(plan_search("abcd", "math"), Ok(pdfgrep_arguments("abcd", "math")));
}

#[test]
fn every_failure_has_its_message() {
    assert_eq!(FindPastPaperError::ServerFailed.to_string(), "server failed to start");
    assert_eq!(FindPastPaperError::CouldNotReadFile.to_string(), "Could not read file");
    assert_eq!(
        FindPastPaperError::InputFieldIsEmpty.to_string(),
        "Please enter a question in the input field"
    );
    assert_eq!(
        FindPastPaperError::UnsuitableInputLength.to_string(),
        "Input must be over 3 characters"
    );
    assert_eq!(
        FindPastPaperError::MalformedSearchOutput.to_string(),
        "Malformed search output"
    );
}
