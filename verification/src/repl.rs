//! The decisions of the interactive shell: what a line of input asks for.

use crate::source_utils::{
    brackets_balanced, check_program_brackets, instructions_of, remove_no_coding_symbols,
    text_chars, text_of,
};
use vstd::prelude::*;

verus! {

/// What a magic word asks the shell to do.
#[derive(Debug, Copy, Clone, PartialEq, Eq, Structural)]
pub enum Action {
    /// Leave the shell.
    Exit,
    /// Run the lines that follow compiled.
    UseDebugInterpreter,
    /// Run the lines that follow as they are.
    UseFastInterpreter,
}

/// How the shell runs a program.
#[derive(Debug, Copy, Clone, PartialEq, Eq, Structural)]
pub enum InterpreterMode {
    /// Compiled, on the opcode interpreter.
    UseDebugInterpreter,
    /// As it is, on the simple interpreter.
    UseFastInterpreter,
}

/// What the shell does with one line.
#[derive(Debug, PartialEq, Eq)]
pub enum ReplStep {
    /// It ends.
    Exit,
    /// It changes how it runs programs.
    SwitchTo(InterpreterMode),
    /// It says that the line holds no program.
    NoCode,
    /// It says that the brackets of the program are not balanced.
    BadBrackets,
    /// It runs the program.
    Run { code: String, mode: InterpreterMode },
}

/// Whether a character has the Unicode property `White_Space`.
pub uninterp spec fn whitespace(c: char) -> bool;

/// The lowercase form of a text under the Unicode case mapping.
pub uninterp spec fn lowercase_of(text: Seq<char>) -> Seq<char>;

/// Calls `char::is_whitespace`, which tells whether a character has the
/// Unicode property `White_Space`. Not proved: the contract gives the answer
/// a name, and so claims that it depends on the character alone.
#[verifier::external_body]
fn is_whitespace(c: char) -> (yes: bool)
    ensures
        yes == whitespace(c),
{
    c.is_whitespace()
}

/// Calls `str::to_lowercase`, which returns the lowercase equivalent of a
/// text as a new string. Not proved: the contract gives the result a name,
/// and so claims that it depends on the text alone.
#[verifier::external_body]
fn to_lowercase(text: &str) -> (lowered: String)
    ensures
        lowered@ == lowercase_of(text@),
{
    text.to_lowercase()
}

/// The text without its whitespace.
pub open spec fn whitespace_removed(text: Seq<char>) -> Seq<char> {
    text.filter(|c: char| !whitespace(c))
}

/// Whether `word` stands in `text` at index `i`.
pub open spec fn occurs_at(text: Seq<char>, word: Seq<char>, i: int) -> bool {
    0 <= i && i + word.len() <= text.len() && text.subrange(i, i + word.len()) == word
}

/// Whether `word` stands somewhere in `text`.
pub open spec fn occurs(text: Seq<char>, word: Seq<char>) -> bool {
    exists|i: int| occurs_at(text, word, i)
}

/// What a line in lowercase asks for: the first of the magic words `exit`,
/// `debug` and `fast`, in this order, that stands in it.
pub open spec fn action_of(lowered: Seq<char>) -> Option<Action> {
    if occurs(lowered, "exit"@) {
        Some(Action::Exit)
    } else if occurs(lowered, "debug"@) {
        Some(Action::UseDebugInterpreter)
    } else if occurs(lowered, "fast"@) {
        Some(Action::UseFastInterpreter)
    } else {
        None
    }
}

/// What the shell does with a line while it runs programs in `mode`. The
/// whitespace of the line does not count: a magic word may be spread over it.
pub open spec fn step_of_line(mode: InterpreterMode, line: Seq<char>) -> ReplStepView {
    let input = whitespace_removed(line);
    match action_of(lowercase_of(input)) {
        Some(Action::Exit) => ReplStepView::Exit,
        Some(Action::UseDebugInterpreter) => ReplStepView::SwitchTo(
            InterpreterMode::UseDebugInterpreter,
        ),
        Some(Action::UseFastInterpreter) => ReplStepView::SwitchTo(
            InterpreterMode::UseFastInterpreter,
        ),
        None => {
            let code = instructions_of(input);
            if code.len() == 0 {
                ReplStepView::NoCode
            } else if !brackets_balanced(code) {
                ReplStepView::BadBrackets
            } else {
                ReplStepView::Run { code, mode }
            }
        },
    }
}

/// A step of the shell, with its program as plain characters.
pub enum ReplStepView {
    Exit,
    SwitchTo(InterpreterMode),
    NoCode,
    BadBrackets,
    Run { code: Seq<char>, mode: InterpreterMode },
}

impl View for ReplStep {
    type V = ReplStepView;

    open spec fn view(&self) -> ReplStepView {
        match self {
            ReplStep::Exit => ReplStepView::Exit,
            ReplStep::SwitchTo(mode) => ReplStepView::SwitchTo(*mode),
            ReplStep::NoCode => ReplStepView::NoCode,
            ReplStep::BadBrackets => ReplStepView::BadBrackets,
            ReplStep::Run { code, mode } => ReplStepView::Run { code: code@, mode: *mode },
        }
    }
}

/// Removes the whitespace from a line.
pub fn without_whitespace(line: &str) -> (kept: String)
    ensures
        kept@ == whitespace_removed(line@),
{
    let chars = text_chars(line);
    let mut kept: Vec<char> = Vec::new();
    let mut i: usize = 0;
    proof {
        reveal(Seq::filter);
    }
    while i < chars.len()
        invariant
            i <= chars.len(),
            kept@ == whitespace_removed(chars@.take(i as int)),
        decreases chars.len() - i,
    {
        let c = chars[i];
        proof {
            reveal(Seq::filter);
            assert(chars@.take(i + 1).drop_last() == chars@.take(i as int));
        }
        if !is_whitespace(c) {
            kept.push(c);
        }
        i += 1;
    }
    assert(chars@.take(i as int) == chars@);
    text_of(&kept)
}

/// Whether `word` stands somewhere in `text`.
pub fn contains_word(text: &Vec<char>, word: &Vec<char>) -> (found: bool)
    ensures
        found == occurs(text@, word@),
{
    if word.len() > text.len() {
        assert forall|i: int| !occurs_at(text@, word@, i) by {}
        return false;
    }
    let last = text.len() - word.len();
    let mut i: usize = 0;
    while i <= last
        invariant
            i <= last + 1,
            last == text.len() - word.len(),
            forall|k: int| 0 <= k < i ==> !occurs_at(text@, word@, k),
        decreases last + 1 - i,
    {
        let mut j: usize = 0;
        while j < word.len() && text[i + j] == word[j]
            invariant
                j <= word.len(),
                i <= last,
                last == text.len() - word.len(),
                forall|t: int| 0 <= t < j ==> text@[i + t] == word@[t],
            decreases word.len() - j,
        {
            j += 1;
        }
        if j == word.len() {
            assert(text@.subrange(i as int, i + word.len()) == word@);
            assert(occurs_at(text@, word@, i as int));
            return true;
        }
        assert(!occurs_at(text@, word@, i as int)) by {
            if occurs_at(text@, word@, i as int) {
                assert(text@.subrange(i as int, i + word.len())[j as int] == word@[j as int]);
            }
        }
        i += 1;
    }
    assert forall|k: int| !occurs_at(text@, word@, k) by {}
    false
}

/// What a line that is already in lowercase asks for.
pub fn action_for(lowered: &str) -> (action: Option<Action>)
    ensures
        action == action_of(lowered@),
{
    let text = text_chars(lowered);
    if contains_word(&text, &text_chars("exit")) {
        return Some(Action::Exit);
    }
    if contains_word(&text, &text_chars("debug")) {
        return Some(Action::UseDebugInterpreter);
    }
    if contains_word(&text, &text_chars("fast")) {
        return Some(Action::UseFastInterpreter);
    }
    None
}

/// What a line asks for: a magic word counts in any case of its letters.
pub fn find_action(input: &str) -> (action: Option<Action>)
    ensures
        action == action_of(lowercase_of(input@)),
{
    let lowered_input = to_lowercase(input);
    action_for(lowered_input.as_str())
}

/// Decides what the shell does with a line while it runs programs in `mode`.
pub fn next_step(mode: InterpreterMode, line: &str) -> (step: ReplStep)
    ensures
        step@ == step_of_line(mode, line@),
{
    let input = without_whitespace(line);
    match find_action(input.as_str()) {
        Some(Action::Exit) => ReplStep::Exit,
        Some(Action::UseDebugInterpreter) => ReplStep::SwitchTo(
            InterpreterMode::UseDebugInterpreter,
        ),
        Some(Action::UseFastInterpreter) => ReplStep::SwitchTo(
            InterpreterMode::UseFastInterpreter,
        ),
        None => {
            let code = remove_no_coding_symbols(input);
            if code.as_str().unicode_len() == 0 {
                ReplStep::NoCode
            } else if !check_program_brackets(code.as_str()) {
                ReplStep::BadBrackets
            } else {
                ReplStep::Run { code, mode }
            }
        },
    }
}

} // verus!
