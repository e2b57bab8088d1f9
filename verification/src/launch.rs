//! From a command template to the program and arguments to run.

use crate::entry::{Entry, EntryView};
use crate::outside::{shell_words_of, split_command};
use crate::text::chars_of;
use vstd::prelude::*;

verus! {

/// Why an entry cannot be launched.
#[derive(Debug, Clone, Copy, PartialEq, Eq, Structural)]
pub enum LaunchError {
    /// The entry has no command.
    NoCommand,
    /// The command cannot be cut into words: a quote is left open.
    InvalidCommand,
    /// Nothing is left to run once the field codes are gone.
    EmptyCommand,
}

impl LaunchError {
    /// A sentence for the user.
    pub fn message(&self) -> (r: &'static str)
        ensures
            r@ == match *self {
                LaunchError::NoCommand => "the entry has no command"@,
                LaunchError::InvalidCommand => "the command has an unclosed quote"@,
                LaunchError::EmptyCommand => "the command names no program"@,
            },
    {
        match self {
            LaunchError::NoCommand => "the entry has no command",
            LaunchError::InvalidCommand => "the command has an unclosed quote",
            LaunchError::EmptyCommand => "the command names no program",
        }
    }
}

/// What to run, and the two conditions the caller has to honour.
#[derive(Debug)]
pub struct LaunchPlan {
    pub program: String,
    pub arguments: Vec<String>,
    pub in_terminal: bool,
    pub needs_confirmation: bool,
}

/// The mathematical content of a [`LaunchPlan`].
pub struct LaunchPlanView {
    pub program: Seq<char>,
    pub arguments: Seq<Seq<char>>,
    pub in_terminal: bool,
    pub needs_confirmation: bool,
}

impl View for LaunchPlan {
    type V = LaunchPlanView;

    open spec fn view(&self) -> LaunchPlanView {
        LaunchPlanView {
            program: self.program@,
            arguments: self.arguments.deep_view(),
            in_terminal: self.in_terminal,
            needs_confirmation: self.needs_confirmation,
        }
    }
}

/// The view of a planning outcome.
pub open spec fn outcome_view(r: Result<LaunchPlan, LaunchError>) -> Result<
    LaunchPlanView,
    LaunchError,
> {
    match r {
        Ok(plan) => Ok(plan@),
        Err(e) => Err(e),
    }
}

/// The program that runs a command inside a terminal emulator.
pub open spec fn terminal_launcher() -> Seq<char> {
    "xdg-terminal"@
}

/// What one word of a command becomes: `%%` is a literal `%`, any other word
/// that starts with `%` is a field code and goes, every other word stays.
pub open spec fn expand_word(word: Seq<char>) -> Option<Seq<char>> {
    if word == "%%"@ {
        Some("%"@)
    } else if word.len() > 0 && word[0] == '%' {
        None
    } else {
        Some(word)
    }
}

/// The words of a command after field-code expansion, in order.
pub open spec fn expanded(words: Seq<Seq<char>>) -> Seq<Seq<char>>
    decreases words.len(),
{
    if words.len() == 0 {
        Seq::empty()
    } else {
        let before = expanded(words.drop_last());
        match expand_word(words.last()) {
            Some(word) => before.push(word),
            None => before,
        }
    }
}

/// Expansion works word by word: expanding two runs of words one after the
/// other is expanding them joined.
pub proof fn lemma_expanded_concat(a: Seq<Seq<char>>, b: Seq<Seq<char>>)
    ensures
        expanded(a + b) == expanded(a) + expanded(b),
    decreases b.len(),
{
    if b.len() == 0 {
        assert(a + b =~= a);
        assert(expanded(a) + expanded(b) =~= expanded(a));
    } else {
        assert((a + b).drop_last() =~= a + b.drop_last());
        assert((a + b).last() == b.last());
        lemma_expanded_concat(a, b.drop_last());
        match expand_word(b.last()) {
            Some(word) => {
                assert((expanded(a) + expanded(b.drop_last())).push(word) =~= expanded(a)
                    + expanded(b.drop_last()).push(word));
            },
            None => {},
        }
    }
}

/// A word `%%` leaves a literal `%` at its place among the words that stay.
pub proof fn lemma_percent_is_literal(before: Seq<Seq<char>>, after: Seq<Seq<char>>)
    ensures
        expanded(before + seq!["%%"@] + after) == expanded(before) + seq!["%"@] + expanded(after),
{
    let one = seq!["%%"@];
    assert(one.drop_last() =~= Seq::<Seq<char>>::empty());
    assert(one.last() == "%%"@);
    assert(expanded(one.drop_last()) =~= Seq::<Seq<char>>::empty());
    assert(expanded(one) =~= seq!["%"@]);
    lemma_expanded_concat(before, one);
    lemma_expanded_concat(before + one, after);
}

/// A field code leaves nothing: the words around it close up.
pub proof fn lemma_field_code_dropped(
    before: Seq<Seq<char>>,
    code: Seq<char>,
    after: Seq<Seq<char>>,
)
    requires
        code.len() > 0,
        code[0] == '%',
        code != "%%"@,
    ensures
        expanded(before + seq![code] + after) == expanded(before) + expanded(after),
{
    let one = seq![code];
    assert(one.drop_last() =~= Seq::<Seq<char>>::empty());
    assert(one.last() == code);
    assert(expanded(one.drop_last()) =~= Seq::<Seq<char>>::empty());
    assert(expanded(one) =~= Seq::<Seq<char>>::empty());
    lemma_expanded_concat(before, one);
    lemma_expanded_concat(before + one, after);
    assert(expanded(before) + Seq::<Seq<char>>::empty() =~= expanded(before));
}

/// Expands the field codes in the words of a command.
pub fn expand_field_codes(words: &Vec<String>) -> (r: Vec<String>)
    ensures
        r.deep_view() == expanded(words.deep_view()),
{
    let ghost all = words.deep_view();
    let mut out: Vec<String> = Vec::new();
    let mut i: usize = 0;
    proof {
        assert(all.take(0) =~= Seq::empty());
        assert(out.deep_view() =~= Seq::<Seq<char>>::empty());
    }
    while i < words.len()
        invariant
            i <= words.len(),
            all == words.deep_view(),
            out.deep_view() == expanded(all.take(i as int)),
        decreases words.len() - i,
    {
        let word = &words[i];
        let letters = chars_of(word.as_str());
        let ghost before = out.deep_view();
        proof {
            reveal_strlit("%%");
            assert(all.take(i + 1).drop_last() =~= all.take(i as int));
            assert(all.take(i + 1).last() == word@);
            assert("%%"@ =~= seq!['%', '%']);
        }
        if letters.len() == 2 && letters[0] == '%' && letters[1] == '%' {
            let literal = "%".to_owned();
            proof {
                assert(word@ =~= "%%"@);
            }
            out.push(literal);
            proof {
                assert(out.deep_view() =~= before.push("%"@));
            }
        } else if letters.len() > 0 && letters[0] == '%' {
        } else {
            out.push(word.clone());
            proof {
                assert(out.deep_view() =~= before.push(word@));
            }
        }
        i += 1;
    }
    proof {
        assert(all.take(words.len() as int) =~= all);
    }
    out
}

/// The plan for a command already cut into words. In a terminal the fixed
/// launcher is the program and every remaining word an argument; otherwise
/// the first remaining word is the program and the rest are its arguments.
pub open spec fn planned(words: Seq<Seq<char>>, is_terminal: bool, user_confirm: bool) -> Result<
    LaunchPlanView,
    LaunchError,
> {
    let remaining = expanded(words);
    if is_terminal {
        Ok(
            LaunchPlanView {
                program: terminal_launcher(),
                arguments: remaining,
                in_terminal: true,
                needs_confirmation: user_confirm,
            },
        )
    } else if remaining.len() == 0 {
        Err(LaunchError::EmptyCommand)
    } else {
        Ok(
            LaunchPlanView {
                program: remaining[0],
                arguments: remaining.skip(1),
                in_terminal: false,
                needs_confirmation: user_confirm,
            },
        )
    }
}

/// Plans the launch of a command that is already cut into words.
pub fn plan_words(words: &Vec<String>, is_terminal: bool, user_confirm: bool) -> (r: Result<
    LaunchPlan,
    LaunchError,
>)
    ensures
        outcome_view(r) == planned(words.deep_view(), is_terminal, user_confirm),
{
    let mut remaining = expand_field_codes(words);
    let ghost all = remaining.deep_view();
    if is_terminal {
        Ok(
            LaunchPlan {
                program: "xdg-terminal".to_owned(),
                arguments: remaining,
                in_terminal: true,
                needs_confirmation: user_confirm,
            },
        )
    } else if remaining.len() == 0 {
        Err(LaunchError::EmptyCommand)
    } else {
        let program = remaining.remove(0);
        proof {
            assert(program@ == all[0]);
            assert(remaining.deep_view() =~= all.skip(1));
        }
        Ok(
            LaunchPlan {
                program,
                arguments: remaining,
                in_terminal: false,
                needs_confirmation: user_confirm,
            },
        )
    }
}

/// The plan for an entry: none without a command, none where the command
/// does not split into words, otherwise the plan for its words.
pub open spec fn launch_plan_of(entry: EntryView) -> Result<LaunchPlanView, LaunchError> {
    match entry.launch_command {
        None => Err(LaunchError::NoCommand),
        Some(command) => match shell_words_of(command) {
            None => Err(LaunchError::InvalidCommand),
            Some(words) => planned(words, entry.is_terminal, entry.user_confirm),
        },
    }
}

/// Plans the launch of an entry. An entry without a command gives
/// `NoCommand`, and only such an entry does.
pub fn plan_launch(entry: &Entry) -> (r: Result<LaunchPlan, LaunchError>)
    ensures
        outcome_view(r) == launch_plan_of(entry@),
        entry@.launch_command is None <==> outcome_view(r) == Err::<LaunchPlanView, LaunchError>(
            LaunchError::NoCommand,
        ),
{
    match entry.launch_command() {
        None => Err(LaunchError::NoCommand),
        Some(command) => match split_command(command) {
            Err(_) => Err(LaunchError::InvalidCommand),
            Ok(words) => plan_words(&words, entry.is_terminal(), entry.user_confirm()),
        },
    }
}

} // verus!
