//! What happens before the search tool runs: the question is checked and the
//! tool's arguments are put together.

use crate::classify::DELIMITER;
use crate::error::FindPastPaperError;
use crate::replace::append_chars;
use crate::text::{chars_of, string_of};
use vstd::prelude::*;

verus! {

/// The least length of a question, in bytes of its UTF-8 form.
pub const MIN_QUESTION_LEN: usize = 4;

/// The directory below which the papers of every subject lie.
pub const SEARCH_ROOT: &'static str = "past-papers/";

/// Has the search tool print the page number of each match.
pub const PAGE_NUMBER_FLAG: &'static str = "-n";

/// Has the search tool descend into directories.
pub const RECURSIVE_FLAG: &'static str = "-r";

/// Has the search tool print the file name of each match.
pub const FILE_NAME_FLAG: &'static str = "-H";

/// Announces the character that the search tool puts between the fields.
pub const SEPARATOR_FLAG: &'static str = "--match-prefix-separator";

/// The verdict on a question: blank, too short, or fit to be searched for.
pub open spec fn question_verdict(user_input: &str) -> Result<(), FindPastPaperError> {
    if user_input@.len() == 0 {
        Err(FindPastPaperError::InputFieldIsEmpty)
    } else if user_input.len() < MIN_QUESTION_LEN {
        Err(FindPastPaperError::UnsuitableInputLength)
    } else {
        Ok(())
    }
}

/// The directory that holds the papers of `subject`.
pub open spec fn search_root_of(subject: Seq<char>) -> Seq<char> {
    SEARCH_ROOT@ + subject
}

/// The arguments of one search, in the order the tool takes them.
pub open spec fn search_arguments(question: Seq<char>, subject: Seq<char>) -> Seq<Seq<char>> {
    seq![
        question,
        search_root_of(subject),
        PAGE_NUMBER_FLAG@,
        RECURSIVE_FLAG@,
        FILE_NAME_FLAG@,
        SEPARATOR_FLAG@,
        seq![DELIMITER],
    ]
}

/// Accepts a question of at least `MIN_QUESTION_LEN` bytes. A blank one is
/// refused as `InputFieldIsEmpty`, any other short one as
/// `UnsuitableInputLength`.
pub fn check_question(user_input: &str) -> (verdict: Result<(), FindPastPaperError>)
    ensures
        verdict == question_verdict(user_input),
{
    if user_input.is_empty() {
        Err(FindPastPaperError::InputFieldIsEmpty)
    } else if user_input.len() < MIN_QUESTION_LEN {
        Err(FindPastPaperError::UnsuitableInputLength)
    } else {
        Ok(())
    }
}

/// The directory that holds the papers of `subject`.
pub fn search_root(subject: &str) -> (root: String)
    ensures
        root@ == search_root_of(subject@),
{
    let mut root = chars_of(SEARCH_ROOT);
    let subject = chars_of(subject);
    append_chars(&mut root, subject.as_slice());
    string_of(root.as_slice())
}

/// The arguments that make the search tool look for `question` in the papers
/// of `subject` and report each match as `path|page|excerpt`.
pub fn pdfgrep_arguments(question: &str, subject: &str) -> (arguments: Vec<String>)
    ensures
        arguments@.len() == 7,
        forall|k: int|
            0 <= k < 7 ==> (#[trigger] arguments@[k])@ == search_arguments(question@, subject@)[k],
{
    let separator: Vec<char> = vec![DELIMITER];
    assert(separator@ =~= seq![DELIMITER]);
    let mut arguments: Vec<String> = Vec::new();
    arguments.push(question.to_owned());
    arguments.push(search_root(subject));
    arguments.push(PAGE_NUMBER_FLAG.to_owned());
    arguments.push(RECURSIVE_FLAG.to_owned());
    arguments.push(FILE_NAME_FLAG.to_owned());
    arguments.push(SEPARATOR_FLAG.to_owned());
    arguments.push(string_of(separator.as_slice()));
    arguments
}

/// Decides what a request leads to: a refusal of the question, or a search
/// with the arguments returned.
pub fn plan_search(user_input: &str, subject: &str) -> (plan: Result<
    Vec<String>,
    FindPastPaperError,
>)
    ensures
        plan is Ok <==> question_verdict(user_input) is Ok,
        plan matches Err(e) ==> question_verdict(user_input) == Err::<(), FindPastPaperError>(e),
        plan matches Ok(arguments) ==> {
            &&& arguments@.len() == 7
            &&& forall|k: int|
                0 <= k < 7 ==> (#[trigger] arguments@[k])@ == search_arguments(
                    user_input@,
                    subject@,
                )[k]
        },
{
    match check_question(user_input) {
        Ok(()) => Ok(pdfgrep_arguments(user_input, subject)),
        Err(e) => Err(e),
    }
}

} // verus!
