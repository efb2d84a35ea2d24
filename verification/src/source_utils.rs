//! Source text: the instruction alphabet, sanitizing, and the bracket
//! pre-check.

pub use crate::c_backend::get_c_file_prefix;
use vstd::prelude::*;

verus! {

/// `String::push` appends a character to the end of a string. Not proved:
/// that the string afterwards holds what it held, followed by the character.
pub assume_specification[ String::push ](s: &mut String, c: char)
    ensures
        final(s)@ == old(s)@.push(c),
;

/// One of the eight characters that are instructions.
pub open spec fn is_instruction(c: char) -> bool {
    c == '+' || c == '-' || c == '<' || c == '>' || c == ',' || c == '.' || c == '[' || c == ']'
}

/// The instruction characters of a text, in order.
pub open spec fn instructions_of(text: Seq<char>) -> Seq<char> {
    text.filter(|c: char| is_instruction(c))
}

/// What a character adds to the nesting depth.
pub open spec fn depth_change_of(c: char) -> int {
    if c == '[' {
        1
    } else if c == ']' {
        -1
    } else {
        0
    }
}

/// Nesting depth after the first `n` characters: opens minus closes.
pub open spec fn text_depth(text: Seq<char>, n: int) -> int
    decreases n,
{
    if n <= 0 {
        0
    } else {
        text_depth(text, n - 1) + depth_change_of(text[n - 1])
    }
}

/// No prefix of the text closes more brackets than it opens.
pub open spec fn text_closes_matched(text: Seq<char>) -> bool {
    forall|n: int| 0 <= n <= text.len() ==> #[trigger] text_depth(text, n) >= 0
}

/// The text opens as many brackets as it closes, and never closes more than
/// it has opened so far.
pub open spec fn brackets_balanced(text: Seq<char>) -> bool {
    text_closes_matched(text) && text_depth(text, text.len() as int) == 0
}

/// Depth is bounded by the number of characters read.
pub proof fn lemma_text_depth_bound(text: Seq<char>, n: int)
    requires
        0 <= n,
    ensures
        -n <= text_depth(text, n) <= n,
    decreases n,
{
    if n > 0 {
        lemma_text_depth_bound(text, n - 1);
    }
}

/// The instruction characters of a text with one more character.
pub proof fn lemma_instructions_push(text: Seq<char>, c: char)
    ensures
        instructions_of(text.push(c)) == if is_instruction(c) {
            instructions_of(text).push(c)
        } else {
            instructions_of(text)
        },
{
    reveal(Seq::filter);
    assert(text.push(c).drop_last() == text);
}

/// The characters of a string, in order.
pub fn text_chars(text: &str) -> (chars: Vec<char>)
    ensures
        chars@ == text@,
{
    let mut chars: Vec<char> = Vec::new();
    for c in it: text.chars()
        invariant
            it.seq() == text@,
            chars@ == text@.take(it.index() as int),
    {
        chars.push(c);
    }
    chars
}

/// The string made of the given characters.
pub fn text_of(chars: &Vec<char>) -> (text: String)
    ensures
        text@ == chars@,
{
    let mut text = String::new();
    let mut i: usize = 0;
    while i < chars.len()
        invariant
            i <= chars.len(),
            text@ == chars@.take(i as int),
        decreases chars.len() - i,
    {
        text.push(chars[i]);
        assert(chars@.take(i + 1) == chars@.take(i as int).push(chars@[i as int]));
        i += 1;
    }
    assert(chars@.take(i as int) == chars@);
    text
}

/// Whether `c` is one of the eight instruction characters.
pub fn is_instruction_char(c: char) -> (yes: bool)
    ensures
        yes == is_instruction(c),
{
    c == '+' || c == '-' || c == '<' || c == '>' || c == ',' || c == '.' || c == '[' || c == ']'
}

/// The instruction characters among `chars`, in order.
pub fn keep_instructions(chars: &Vec<char>) -> (kept: Vec<char>)
    ensures
        kept@ == instructions_of(chars@),
{
    let mut kept: Vec<char> = Vec::new();
    let mut i: usize = 0;
    proof {
        reveal(Seq::filter);
    }
    while i < chars.len()
        invariant
            i <= chars.len(),
            kept@ == instructions_of(chars@.take(i as int)),
        decreases chars.len() - i,
    {
        let c = chars[i];
        proof {
            lemma_instructions_push(chars@.take(i as int), c);
            assert(chars@.take(i + 1) == chars@.take(i as int).push(c));
        }
        if is_instruction_char(c) {
            kept.push(c);
        }
        i += 1;
    }
    assert(chars@.take(i as int) == chars@);
    kept
}

/// Removes every character that is not an instruction.
pub fn remove_no_coding_symbols(program_code: String) -> (cleaned: String)
    ensures
        cleaned@ == instructions_of(program_code@),
{
    let chars = text_chars(program_code.as_str());
    let kept = keep_instructions(&chars);
    text_of(&kept)
}

/// Whether the brackets of a program are balanced: as many closes as opens,
/// and never a close before its open.
pub fn check_program_brackets(program_code: &str) -> (ok: bool)
    ensures
        ok == brackets_balanced(program_code@),
{
    let chars = text_chars(program_code);
    let mut bracket_open_count: usize = 0;
    let mut i: usize = 0;
    while i < chars.len()
        invariant
            i <= chars.len(),
            chars@ == program_code@,
            bracket_open_count == text_depth(chars@, i as int),
            forall|n: int| 0 <= n <= i ==> #[trigger] text_depth(chars@, n) >= 0,
        decreases chars.len() - i,
    {
        let c = chars[i];
        proof {
            lemma_text_depth_bound(chars@, i as int);
        }
        if c == '[' {
            bracket_open_count += 1;
        } else if c == ']' {
            if bracket_open_count == 0 {
                assert(text_depth(chars@, i + 1) < 0);
                return false;
            }
            bracket_open_count -= 1;
        }
        i += 1;
    }
    bracket_open_count == 0
}

} // verus!
