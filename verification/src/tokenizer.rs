//! The tokenizer: sanitized source text becomes the first opcode sequence,
//! with the two literal clear loops marked beforehand and every bracket
//! resolved to its partner.

use crate::brackets::{balanced, depth, reset_bracket, resolved, same_shape, well_paired};
use crate::opcodes::{lemma_weight_push, total_weight, Opcode};
use crate::source_utils::{
    brackets_balanced, instructions_of, is_instruction, keep_instructions,
    text_chars, text_closes_matched, text_depth,
};
use vstd::prelude::*;

verus! {

/// The character that stands for a whole clear loop once the text is marked.
pub const CLEAR_MARK: char = 'C';

/// The three characters at `i` are a loop whose whole body is `sign`.
pub open spec fn clear_loop_at(text: Seq<char>, i: int, sign: char) -> bool {
    &&& 0 <= i
    &&& i + 3 <= text.len()
    &&& text[i] == '['
    &&& text[i + 1] == sign
    &&& text[i + 2] == ']'
}

/// The text with each loop whose whole body is `sign` replaced by the clear
/// mark, taking occurrences from the left.
pub open spec fn marked(text: Seq<char>, sign: char) -> Seq<char>
    decreases text.len(),
{
    if text.len() == 0 {
        Seq::empty()
    } else if clear_loop_at(text, 0, sign) {
        seq![CLEAR_MARK] + marked(text.skip(3), sign)
    } else {
        seq![text[0]] + marked(text.skip(1), sign)
    }
}

/// The opcode that one character of marked text stands for, if any. Brackets
/// carry a placeholder target.
pub open spec fn token_of(c: char) -> Option<Opcode> {
    if c == '[' {
        Some(Opcode::JumpIfZero { target: 0 })
    } else if c == ']' {
        Some(Opcode::JumpIfNonZero { target: 0 })
    } else if c == '+' {
        Some(Opcode::Change { delta: 1 })
    } else if c == '-' {
        Some(Opcode::Change { delta: -1i32 })
    } else if c == '<' {
        Some(Opcode::Move { delta: -1i32 })
    } else if c == '>' {
        Some(Opcode::Move { delta: 1 })
    } else if c == '.' {
        Some(Opcode::PutChar { count: 1 })
    } else if c == ',' {
        Some(Opcode::ReadChar { count: 1 })
    } else if c == CLEAR_MARK {
        Some(Opcode::SetTo { value: 0 })
    } else {
        None
    }
}

/// The opcodes that a marked text stands for, in order.
pub open spec fn tokens_of(text: Seq<char>) -> Seq<Opcode> {
    text.filter_map(|c: char| token_of(c))
}

/// The marked form of a source text: its instruction characters, with the
/// decrementing and then the incrementing clear loop replaced by the mark.
pub open spec fn marked_source(source: Seq<char>) -> Seq<char> {
    marked(marked(instructions_of(source), '-'), '+')
}

/// The opcodes of a source text before their brackets are resolved.
pub open spec fn raw_tokens(source: Seq<char>) -> Seq<Opcode> {
    tokens_of(marked_source(source))
}

/// The opcodes of a text with one more character.
pub proof fn lemma_tokens_push(text: Seq<char>, c: char)
    ensures
        tokens_of(text.push(c)) == match token_of(c) {
            Some(op) => tokens_of(text).push(op),
            None => tokens_of(text),
        },
{
    assert(text.push(c).drop_last() == text);
    match token_of(c) {
        Some(op) => {
            assert(tokens_of(text) + seq![op] == tokens_of(text).push(op));
        },
        None => {},
    }
}

proof fn lemma_text_depth_agree(a: Seq<char>, b: Seq<char>, n: int)
    requires
        0 <= n <= a.len(),
        n <= b.len(),
        forall|k: int| 0 <= k < n ==> #[trigger] a[k] == b[k],
    ensures
        text_depth(a, n) == text_depth(b, n),
    decreases n,
{
    if n > 0 {
        lemma_text_depth_agree(a, b, n - 1);
    }
}

proof fn lemma_text_depth_concat(a: Seq<char>, b: Seq<char>, k: int)
    requires
        0 <= k <= b.len(),
    ensures
        text_depth(a + b, a.len() + k) == text_depth(a, a.len() as int) + text_depth(b, k),
    decreases k,
{
    if k > 0 {
        lemma_text_depth_concat(a, b, k - 1);
        assert((a + b)[a.len() + k - 1] == b[k - 1]);
    } else {
        lemma_text_depth_agree(a + b, a, a.len() as int);
    }
}

/// Filtering a text changes none of the depths that it reaches.
proof fn lemma_instructions_depth(text: Seq<char>)
    ensures
        text_depth(instructions_of(text), instructions_of(text).len() as int) == text_depth(
            text,
            text.len() as int,
        ),
        text_closes_matched(text) ==> text_closes_matched(instructions_of(text)),
    decreases text.len(),
{
    reveal(Seq::filter);
    if text.len() > 0 {
        let front = text.drop_last();
        let c = text.last();
        lemma_instructions_depth(front);
        let kept = instructions_of(front);
        let all = instructions_of(text);
        lemma_text_depth_agree(text, front, front.len() as int);
        if text_closes_matched(text) {
            assert forall|n: int| 0 <= n <= front.len() implies #[trigger] text_depth(front, n)
                >= 0 by {
                lemma_text_depth_agree(text, front, n);
                assert(text_depth(text, n) >= 0);
            }
            assert(text_depth(text, text.len() as int) >= 0);
        }
        if all.len() > kept.len() {
            assert(all == kept.push(c));
            lemma_text_depth_agree(all, kept, kept.len() as int);
            if text_closes_matched(text) {
                assert forall|n: int| 0 <= n <= all.len() implies #[trigger] text_depth(all, n)
                    >= 0 by {
                    if n <= kept.len() {
                        lemma_text_depth_agree(all, kept, n);
                        assert(text_depth(kept, n) >= 0);
                    }
                }
            }
        } else {
            assert(all == kept);
        }
    }
}

/// Marking clear loops changes none of the depths that a text reaches:
/// starting `above` a floor that the text never falls below, the marked text
/// never falls below it either, and both end at the same depth.
proof fn lemma_marked_depth(text: Seq<char>, sign: char, above: int)
    requires
        sign != '[',
        sign != ']',
        forall|n: int| 0 <= n <= text.len() ==> above + #[trigger] text_depth(text, n) >= 0,
    ensures
        text_depth(marked(text, sign), marked(text, sign).len() as int) == text_depth(
            text,
            text.len() as int,
        ),
        forall|n: int|
            0 <= n <= marked(text, sign).len() ==> above + #[trigger] text_depth(
                marked(text, sign),
                n,
            ) >= 0,
    decreases text.len(),
{
    let out = marked(text, sign);
    assert(above + text_depth(text, 0) >= 0);
    if text.len() == 0 {
    } else {
        let cut: int = if clear_loop_at(text, 0, sign) {
            3
        } else {
            1
        };
        let head = text.take(cut);
        let rest = text.skip(cut);
        let first = if clear_loop_at(text, 0, sign) {
            seq![CLEAR_MARK]
        } else {
            seq![text[0]]
        };
        assert(out == first + marked(rest, sign));
        assert(text == head + rest);
        reveal_with_fuel(text_depth, 4);
        let step = text_depth(head, cut);
        assert(text_depth(first, 1) == step);
        assert(above + text_depth(text, cut) >= 0);
        lemma_text_depth_agree(text, head, cut);
        assert forall|n: int| 0 <= n <= rest.len() implies above + step + #[trigger] text_depth(
            rest,
            n,
        ) >= 0 by {
            lemma_text_depth_concat(head, rest, n);
            assert(above + text_depth(text, cut + n) >= 0);
        }
        lemma_marked_depth(rest, sign, above + step);
        let tail = marked(rest, sign);
        lemma_text_depth_concat(first, tail, tail.len() as int);
        lemma_text_depth_concat(head, rest, rest.len() as int);
        assert forall|n: int| 0 <= n <= out.len() implies above + #[trigger] text_depth(out, n)
            >= 0 by {
            if n >= 1 {
                lemma_text_depth_concat(first, tail, n - 1);
                assert(above + step + text_depth(tail, n - 1) >= 0);
            }
        }
    }
}

/// The opcodes of a text reach the depths that the text reaches.
proof fn lemma_tokens_depth(text: Seq<char>)
    ensures
        depth(tokens_of(text), tokens_of(text).len() as int) == text_depth(
            text,
            text.len() as int,
        ),
        text_closes_matched(text) ==> forall|n: int|
            0 <= n <= tokens_of(text).len() ==> #[trigger] depth(tokens_of(text), n) >= 0,
    decreases text.len(),
{
    if text.len() > 0 {
        let front = text.drop_last();
        let c = text.last();
        lemma_tokens_depth(front);
        assert(front.push(c) == text);
        lemma_tokens_push(front, c);
        let some = tokens_of(front);
        let all = tokens_of(text);
        lemma_text_depth_agree(text, front, front.len() as int);
        crate::brackets::lemma_depth_agree(all, some, some.len() as int);
        if text_closes_matched(text) {
            assert forall|n: int| 0 <= n <= front.len() implies #[trigger] text_depth(front, n)
                >= 0 by {
                lemma_text_depth_agree(text, front, n);
                assert(text_depth(text, n) >= 0);
            }
            assert(text_depth(text, text.len() as int) >= 0);
            assert forall|n: int| 0 <= n <= all.len() implies #[trigger] depth(all, n) >= 0 by {
                if n <= some.len() {
                    crate::brackets::lemma_depth_agree(all, some, n);
                    assert(depth(some, n) >= 0);
                }
            }
        }
    }
}

/// The opcodes of a source text with balanced brackets are balanced.
pub proof fn lemma_raw_tokens_balanced(source: Seq<char>)
    requires
        brackets_balanced(source),
    ensures
        balanced(raw_tokens(source)),
{
    let kept = instructions_of(source);
    lemma_instructions_depth(source);
    let once = marked(kept, '-');
    lemma_marked_depth(kept, '-', 0);
    assert(text_closes_matched(once));
    let twice = marked(once, '+');
    lemma_marked_depth(once, '+', 0);
    assert(text_closes_matched(twice));
    lemma_tokens_depth(twice);
}

/// Marking never lengthens a text.
proof fn lemma_marked_len(text: Seq<char>, sign: char)
    ensures
        marked(text, sign).len() <= text.len(),
    decreases text.len(),
{
    if text.len() == 0 {
    } else if clear_loop_at(text, 0, sign) {
        lemma_marked_len(text.skip(3), sign);
    } else {
        lemma_marked_len(text.skip(1), sign);
    }
}

/// No opcode of a text weighs more than one.
proof fn lemma_tokens_weight(text: Seq<char>)
    ensures
        total_weight(tokens_of(text)) <= text.len(),
    decreases text.len(),
{
    if text.len() > 0 {
        let front = text.drop_last();
        lemma_tokens_weight(front);
        assert(front.push(text.last()) == text);
        lemma_tokens_push(front, text.last());
        match token_of(text.last()) {
            Some(op) => {
                lemma_weight_push(tokens_of(front), op);
            },
            None => {},
        }
    }
}

/// A text stands for no more opcodes than it has characters.
proof fn lemma_tokens_len(text: Seq<char>)
    ensures
        tokens_of(text).len() <= text.len(),
    decreases text.len(),
{
    if text.len() > 0 {
        let front = text.drop_last();
        lemma_tokens_len(front);
        assert(front.push(text.last()) == text);
        lemma_tokens_push(front, text.last());
    }
}

/// A source text stands for no more opcodes than it has characters.
pub proof fn lemma_raw_tokens_len(source: Seq<char>)
    ensures
        raw_tokens(source).len() <= source.len(),
{
    let kept = instructions_of(source);
    assert(kept.len() <= source.len()) by {
        source.lemma_filter_len(|c: char| is_instruction(c));
    }
    lemma_marked_len(kept, '-');
    lemma_marked_len(marked(kept, '-'), '+');
    lemma_tokens_len(marked_source(source));
}

/// The opcodes of a source text weigh no more than the text is long.
pub proof fn lemma_raw_tokens_weight(source: Seq<char>)
    ensures
        total_weight(raw_tokens(source)) <= source.len(),
{
    let kept = instructions_of(source);
    kept.lemma_filter_len(|c: char| is_instruction(c));
    assert(kept.len() <= source.len()) by {
        source.lemma_filter_len(|c: char| is_instruction(c));
    }
    lemma_marked_len(kept, '-');
    lemma_marked_len(marked(kept, '-'), '+');
    lemma_tokens_weight(marked_source(source));
}

/// Replaces each loop whose whole body is `sign` by the clear mark.
pub fn mark_clear_loops(text: &Vec<char>, sign: char) -> (out: Vec<char>)
    ensures
        out@ == marked(text@, sign),
{
    let mut out: Vec<char> = Vec::new();
    let mut i: usize = 0;
    proof {
        assert(text@.skip(0) == text@);
        assert(out@ + marked(text@, sign) == marked(text@, sign));
    }
    while i < text.len()
        invariant
            i <= text.len(),
            out@ + marked(text@.skip(i as int), sign) == marked(text@, sign),
        decreases text.len() - i,
    {
        let ghost rest = text@.skip(i as int);
        let ghost before = out@;
        if text.len() - i >= 3 && text[i] == '[' && text[i + 1] == sign && text[i + 2] == ']' {
            out.push(CLEAR_MARK);
            proof {
                assert(clear_loop_at(rest, 0, sign));
                assert(rest.skip(3) == text@.skip(i + 3));
                assert(out@ + marked(text@.skip(i + 3), sign) == before + (seq![CLEAR_MARK]
                    + marked(rest.skip(3), sign)));
            }
            i += 3;
        } else {
            out.push(text[i]);
            proof {
                assert(!clear_loop_at(rest, 0, sign));
                assert(rest.skip(1) == text@.skip(i + 1));
                assert(out@ + marked(text@.skip(i + 1), sign) == before + (seq![rest[0]] + marked(
                    rest.skip(1),
                    sign,
                )));
            }
            i += 1;
        }
    }
    assert(out@ + Seq::<char>::empty() == out@);
    out
}

/// Turns source text into opcodes: characters that are no instructions are
/// passed over, the two literal clear loops become `SetTo(0)`, every other
/// instruction becomes its opcode, and each bracket gets the index of its
/// partner as its target.
pub fn tokenize_instructions(program_code: String) -> (ops: Vec<Opcode>)
    requires
        brackets_balanced(program_code@),
    ensures
        ops@ == resolved(raw_tokens(program_code@)),
        same_shape(ops@, raw_tokens(program_code@)),
        well_paired(ops@),
        balanced(ops@),
{
    let chars = text_chars(program_code.as_str());
    let kept = keep_instructions(&chars);
    let once = mark_clear_loops(&kept, '-');
    let program_chars = mark_clear_loops(&once, '+');
    let mut raw: Vec<Opcode> = Vec::new();
    let mut pos: usize = 0;
    while pos < program_chars.len()
        invariant
            pos <= program_chars.len(),
            raw@ == tokens_of(program_chars@.take(pos as int)),
        decreases program_chars.len() - pos,
    {
        let curr = program_chars[pos];
        proof {
            lemma_tokens_push(program_chars@.take(pos as int), curr);
            assert(program_chars@.take(pos + 1) == program_chars@.take(pos as int).push(curr));
        }
        if curr == '[' {
            raw.push(Opcode::JumpIfZero { target: 0 });
        } else if curr == ']' {
            raw.push(Opcode::JumpIfNonZero { target: 0 });
        } else if curr == '+' {
            raw.push(Opcode::Change { delta: 1 });
        } else if curr == '-' {
            raw.push(Opcode::Change { delta: -1 });
        } else if curr == '<' {
            raw.push(Opcode::Move { delta: -1 });
        } else if curr == '>' {
            raw.push(Opcode::Move { delta: 1 });
        } else if curr == '.' {
            raw.push(Opcode::PutChar { count: 1 });
        } else if curr == ',' {
            raw.push(Opcode::ReadChar { count: 1 });
        } else if curr == CLEAR_MARK {
            raw.push(Opcode::SetTo { value: 0 });
        }
        pos += 1;
    }
    proof {
        assert(program_chars@.take(pos as int) == program_chars@);
        lemma_raw_tokens_balanced(program_code@);
    }
    reset_bracket(raw)
}

} // verus!
