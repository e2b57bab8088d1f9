//! The outside crates this library calls. What is declared of an outside
//! type or function here is believed, not proved: each item states what the
//! outside function is taken to do, and on which inputs it may be called.

use freedesktop_entry_parser::Entry as ParsedDescriptor;
use freedesktop_entry_parser::ParseError as DescriptorError;
use fuzzy_matcher::skim::SkimMatcherV2;
use fuzzy_matcher::FuzzyMatcher;
use shell_words::ParseError as SplitError;
use vstd::prelude::*;

verus! {

/// A descriptor as `freedesktop_entry_parser` holds it after parsing: its
/// type `Entry`, here under another name.
#[verifier::external_type_specification]
#[verifier::external_body]
pub struct ExParsedDescriptor(ParsedDescriptor);

/// The reason `freedesktop_entry_parser` gives for rejecting a buffer: its
/// type `ParseError`.
#[verifier::external_type_specification]
#[verifier::external_body]
pub struct ExDescriptorError(DescriptorError);

/// The reason `shell_words` gives for rejecting a command line: its type
/// `ParseError`.
#[verifier::external_type_specification]
#[verifier::external_body]
pub struct ExSplitError(SplitError);

/// Sections of a descriptor: section title, then key, then the key's values
/// in file order.
pub type Sections = Map<Seq<char>, Map<Seq<char>, Seq<Seq<char>>>>;

/// What a parsed descriptor holds: for each section title, the values of each
/// key that carries no `[param]`, in file order.
pub uninterp spec fn descriptor_sections(parsed: ParsedDescriptor) -> Map<Seq<char>, Map<Seq<char>, Seq<Seq<char>>>>;

/// What `freedesktop_entry_parser::Entry::parse` makes of a buffer: the
/// sections it reads, or nothing where it rejects the buffer.
pub uninterp spec fn parsed_sections(bytes: Seq<u8>) -> Option<Map<Seq<char>, Map<Seq<char>, Seq<Seq<char>>>>>;

/// The words `shell_words::split` cuts a command line into, or nothing where
/// it rejects the line.
pub uninterp spec fn shell_words_of(line: Seq<char>) -> Option<Seq<Seq<char>>>;

/// The score that `SkimMatcherV2::fuzzy_match`, set to ignore case, gives to
/// `choice` for `pattern`, or nothing where the pattern does not match.
pub uninterp spec fn fuzzy_score(choice: Seq<char>, pattern: Seq<char>) -> Option<i64>;

/// Two characters are the same letter: they are equal, or one is an ASCII
/// capital and the other its small form.
pub open spec fn same_letter(a: char, b: char) -> bool {
    ||| a == b
    ||| ('A' <= a <= 'Z' && b as int == a as int + 32)
    ||| ('A' <= b <= 'Z' && a as int == b as int + 32)
}

/// The letters of `pattern` appear in `text` in order, not necessarily side
/// by side. The empty pattern appears in every text.
pub open spec fn appears_in(pattern: Seq<char>, text: Seq<char>) -> bool
    decreases text.len(),
{
    if pattern.len() == 0 {
        true
    } else if text.len() == 0 {
        false
    } else if same_letter(pattern[0], text[0]) {
        appears_in(pattern.drop_first(), text.drop_first())
    } else {
        appears_in(pattern, text.drop_first())
    }
}

/// The longest run of comment lines that a descriptor may hold.
pub const COMMENT_RUN_LIMIT: usize = 512;

/// The bytes that the descriptor parser skips as blank: newline, tab,
/// carriage return and space.
pub open spec fn is_blank(byte: u8) -> bool {
    byte == 10 || byte == 9 || byte == 13 || byte == 32
}

/// The bytes that open a comment: `#` and `;`.
pub open spec fn opens_comment(byte: u8) -> bool {
    byte == 35 || byte == 59
}

/// The number of comments that follow one another from position `at` on:
/// after blank bytes a byte that opens a comment counts one, the comment
/// runs to the end of its line, and the count goes on behind it. Any other
/// byte ends the run. With `inside` set, `at` lies in a comment that is
/// counted already.
pub open spec fn comment_run(bytes: Seq<u8>, at: int, inside: bool) -> nat
    decreases bytes.len() - at,
{
    if at < 0 || at >= bytes.len() {
        0
    } else if inside {
        comment_run(bytes, at + 1, bytes[at] != 10)
    } else if is_blank(bytes[at]) {
        comment_run(bytes, at + 1, false)
    } else if opens_comment(bytes[at]) {
        1 + comment_run(bytes, at + 1, true)
    } else {
        0
    }
}

/// No run of comments in `bytes`, from whatever position, is longer than
/// `limit`.
pub open spec fn comment_runs_within(bytes: Seq<u8>, limit: int) -> bool {
    forall|at: int| 0 <= at <= bytes.len() ==> #[trigger] comment_run(bytes, at, false) <= limit
}

/// The values of `key` in `section`: nothing where the section is missing,
/// no values where only the key is.
pub open spec fn section_values(sections: Sections, section: Seq<char>, key: Seq<char>) -> Option<
    Seq<Seq<char>>,
> {
    if sections.contains_key(section) {
        if sections[section].contains_key(key) {
            Some(sections[section][key])
        } else {
            Some(Seq::empty())
        }
    } else {
        None
    }
}

/// Calls `freedesktop_entry_parser::Entry::parse`, which reads a buffer
/// without touching the file system. The claim: the outcome depends on the
/// bytes alone, and a descriptor that comes back holds the sections that
/// `parsed_sections` names for these bytes. The parser calls itself once for
/// every comment it skips in a row, each time after skipping blank bytes and
/// the comment up to the end of its line, so the depth of its calls is the
/// length of a run of comments; the bound on the runs keeps its use of the
/// stack small.
#[verifier::external_body]
pub(crate) fn parse_descriptor(bytes: &[u8]) -> (r: Result<ParsedDescriptor, DescriptorError>)
    requires
        comment_runs_within(bytes@, COMMENT_RUN_LIMIT as int),
    ensures
        match r {
            Ok(parsed) => parsed_sections(bytes@) == Some(descriptor_sections(parsed)),
            Err(_) => parsed_sections(bytes@) is None,
        },
{
    ParsedDescriptor::parse(bytes)
}

/// Calls `freedesktop_entry_parser::Entry::get` and copies what it returns.
/// The claim: `None` for a missing section, otherwise the values of the key
/// without parameter, in file order, none for a missing key.
#[verifier::external_body]
pub(crate) fn descriptor_values(
    parsed: &ParsedDescriptor,
    section: &str,
    key: &str,
) -> (r: Option<Vec<String>>)
    ensures
        r.deep_view() == section_values(descriptor_sections(*parsed), section@, key@),
{
    parsed.get(section, key).map(|values| values.to_vec())
}

/// Calls `shell_words::split`. The claim: the outcome depends on the line
/// alone; it is the words that `shell_words_of` names, or an error where it
/// names none.
#[verifier::external_body]
pub(crate) fn split_command(line: &str) -> (r: Result<Vec<String>, SplitError>)
    ensures
        match r {
            Ok(words) => shell_words_of(line@) == Some(words.deep_view()),
            Err(_) => shell_words_of(line@) is None,
        },
{
    shell_words::split(line)
}

/// Calls `fuzzy_match` on a fresh `SkimMatcherV2::default().ignore_case()`.
/// Two claims. The outcome depends on the two texts alone. And there is a
/// score exactly when the letters of the pattern appear in the choice in
/// order: the matcher gives up only where its first pass, which walks the
/// choice once and ticks off the pattern's letters as they come, leaves a
/// letter of the pattern over.
#[verifier::external_body]
pub(crate) fn fuzzy_match(choice: &str, pattern: &str) -> (r: Option<i64>)
    ensures
        r == fuzzy_score(choice@, pattern@),
        r is Some <==> appears_in(pattern@, choice@),
{
    SkimMatcherV2::default().ignore_case().fuzzy_match(choice, pattern)
}

} // verus!
