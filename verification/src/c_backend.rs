//! Rendering of a finished program as statements of C, one opcode at a time.

use crate::opcodes::Opcode;
use vstd::prelude::*;
use vstd::string::StringExecFns;

verus! {

/// The character of a decimal digit.
pub open spec fn digit_char(d: int) -> char {
    if d == 0 {
        '0'
    } else if d == 1 {
        '1'
    } else if d == 2 {
        '2'
    } else if d == 3 {
        '3'
    } else if d == 4 {
        '4'
    } else if d == 5 {
        '5'
    } else if d == 6 {
        '6'
    } else if d == 7 {
        '7'
    } else if d == 8 {
        '8'
    } else {
        '9'
    }
}

/// The decimal digits of a number that is not negative.
pub open spec fn digits(n: nat) -> Seq<char>
    decreases n,
{
    if n < 10 {
        seq![digit_char(n as int)]
    } else {
        digits(n / 10).push(digit_char((n % 10) as int))
    }
}

/// A number in decimal, with a minus sign if it is negative.
pub open spec fn decimal(n: int) -> Seq<char> {
    if n < 0 {
        seq!['-'] + digits((-n) as nat)
    } else {
        digits(n as nat)
    }
}

/// `count` copies of a text, one after the other.
pub open spec fn repeated_text(piece: Seq<char>, count: nat) -> Seq<char>
    decreases count,
{
    if count == 0 {
        Seq::empty()
    } else {
        repeated_text(piece, (count - 1) as nat) + piece
    }
}

/// The statement that stands for an opcode.
pub open spec fn statement_of(op: Opcode) -> Seq<char> {
    match op {
        Opcode::Change { delta } => "change(m, p, "@ + decimal(delta as int) + ");\n"@,
        Opcode::Move { delta } => "p = move(p, "@ + decimal(delta as int) + ");\n"@,
        Opcode::PutChar { count } => repeated_text("display_char(m, p);\n"@, count as nat),
        Opcode::ReadChar { count } => repeated_text("m[p] = read_char();\n"@, count as nat),
        Opcode::JumpIfZero { .. } => "while (m[p] != 0){\n"@,
        Opcode::JumpIfNonZero { .. } => "}\n"@,
        Opcode::SetTo { value } => "set_to(m, p, "@ + decimal(value as int) + ");\n"@,
        Opcode::ScanBy { step } => "p = scan_by(m, p, "@ + decimal(step as int) + ");\n"@,
        Opcode::Multi { offset, factor } => "multi(m, p, "@ + decimal(offset as int) + ", "@
            + decimal(factor as int) + ");\n"@,
    }
}

/// Appends the decimal digits of `n` to `text`.
fn push_digits(text: &mut String, n: u64)
    ensures
        final(text)@ == old(text)@ + digits(n as nat),
    decreases n,
{
    if n >= 10 {
        push_digits(text, n / 10);
    }
    let d = n % 10;
    let c = if d == 0 {
        '0'
    } else if d == 1 {
        '1'
    } else if d == 2 {
        '2'
    } else if d == 3 {
        '3'
    } else if d == 4 {
        '4'
    } else if d == 5 {
        '5'
    } else if d == 6 {
        '6'
    } else if d == 7 {
        '7'
    } else if d == 8 {
        '8'
    } else {
        '9'
    };
    text.push(c);
    proof {
        if n < 10 {
            assert(old(text)@.push(c) == old(text)@ + seq![c]);
        } else {
            assert((old(text)@ + digits((n / 10) as nat)).push(c) == old(text)@ + digits(
                (n / 10) as nat,
            ).push(c));
        }
    }
}

/// Appends `n` in decimal to `text`.
fn push_decimal(text: &mut String, n: i32)
    ensures
        final(text)@ == old(text)@ + decimal(n as int),
{
    if n < 0 {
        text.push('-');
        push_digits(text, (-(n as i64)) as u64);
        assert(old(text)@.push('-') + digits((-n) as nat) == old(text)@ + (seq!['-'] + digits(
            (-n) as nat,
        )));
    } else {
        push_digits(text, n as u64);
    }
}

/// `count` copies of `piece`.
fn repeat_text(piece: &str, count: usize) -> (text: String)
    ensures
        text@ == repeated_text(piece@, count as nat),
{
    let mut text = String::new();
    let mut i: usize = 0;
    while i < count
        invariant
            i <= count,
            text@ == repeated_text(piece@, i as nat),
        decreases count - i,
    {
        text.append(piece);
        i += 1;
    }
    text
}

/// A statement that takes one number.
fn with_one_number(head: &str, n: i32, tail: &str) -> (text: String)
    ensures
        text@ == head@ + decimal(n as int) + tail@,
{
    let mut text = String::from_str(head);
    push_decimal(&mut text, n);
    text.append(tail);
    text
}

/// The statement of C that stands for `op`.
pub fn make_opcode_string(op: Opcode) -> (text: String)
    ensures
        text@ == statement_of(op),
{
    match op {
        Opcode::Change { delta } => with_one_number("change(m, p, ", delta, ");\n"),
        Opcode::Move { delta } => with_one_number("p = move(p, ", delta, ");\n"),
        Opcode::PutChar { count } => repeat_text("display_char(m, p);\n", count),
        Opcode::ReadChar { count } => repeat_text("m[p] = read_char();\n", count),
        Opcode::JumpIfZero { .. } => String::from_str("while (m[p] != 0){\n"),
        Opcode::JumpIfNonZero { .. } => String::from_str("}\n"),
        Opcode::SetTo { value } => with_one_number("set_to(m, p, ", value, ");\n"),
        Opcode::ScanBy { step } => with_one_number("p = scan_by(m, p, ", step, ");\n"),
        Opcode::Multi { offset, factor } => {
            let mut text = String::from_str("multi(m, p, ");
            push_decimal(&mut text, offset);
            text.append(", ");
            push_decimal(&mut text, factor);
            text.append(");\n");
            text
        },
    }
}

/// The head of a C file: the helpers that the statements call, and the
/// opening of `main`.
pub const C_FILE_PREFIX: &'static str = r#"#include <stdio.h>
#include <stdint.h>
#include <stdlib.h>

#define MEMSIZE 30000
#define IS_CHECK_ADDR

#ifdef _MSC_VER
#define _INLINE __forceinline
#elif __GNUC__
#define _INLINE __attribute__((always_inline)) inline
#else
#define _INLINE inline
#endif

_INLINE
void check_addr(uint32_t addr) {
	if (addr >= MEMSIZE) {
		printf("Tried to Access an illegal memory location at %d", addr);
		exit(1);
	}
}

_INLINE
void change(int32_t* m, uint32_t p, int32_t amount) {
	m[p] += amount;
}

_INLINE
uint32_t move(uint32_t p, int32_t amount) {

	#ifdef CHECK_ADDR
	check_addr(p + amount);
	#endif

	return p + amount;
}

_INLINE
void display_char(int32_t* m, uint32_t p) {
	putchar(m[p]);
}

_INLINE
int32_t read_char() {
	return getchar();
}

_INLINE
void set_to(int32_t* m, uint32_t p, int32_t amount) {
	m[p] = amount;
}

_INLINE
void multi(int32_t* m, uint32_t p, int32_t x, int32_t y) {
	int32_t pi = max((int32_t)p + x,0);
	m[pi] += y * m[p];
}

_INLINE
uint32_t scan_by(int32_t* m, uint32_t p, int32_t arg) {
	uint32_t new_p = p;

	while (m[new_p] != 0) {
		new_p = move(new_p, arg);
	}

	return new_p;
}

_INLINE
uint32_t moving_change(int32_t* m, uint32_t p, int32_t x, int32_t y, int32_t z) {

	uint32_t new_p = p;

	while (m[new_p] != 0) {
		new_p = move(new_p, x);
		change(m, new_p, y);
		new_p = move(new_p, z);
	}

	return new_p;
}

_INLINE
uint32_t moving_set(int32_t* m, uint32_t p, int32_t x, int32_t y, int32_t z) {

	uint32_t new_p = p;

	while (m[new_p] != 0) {
		new_p = move(new_p, x);
		set_to(m, new_p, y);
		new_p = move(new_p, z);
	}

	return new_p;
}

int main() {

	uint32_t p = 0;
	int32_t m[MEMSIZE] = { 0 };
	"#;

/// The tail of a C file: the end of `main`.
pub const C_FILE_SUFFIX: &'static str = "return 0;\n}\n";

/// The statements that stand for a program, one after the other.
pub open spec fn statements_of(code: Seq<Opcode>) -> Seq<char>
    decreases code.len(),
{
    if code.len() == 0 {
        Seq::empty()
    } else {
        statements_of(code.drop_last()) + statement_of(code.last())
    }
}

/// The head of the C file that a program is rendered into.
pub fn get_c_file_prefix() -> (text: String)
    ensures
        text@ == C_FILE_PREFIX@,
{
    String::from_str(C_FILE_PREFIX)
}

/// A program rendered as a C file: the head, the statement of each opcode in
/// order, and the tail.
pub fn make_c_file(code: &Vec<Opcode>) -> (text: String)
    ensures
        text@ == C_FILE_PREFIX@ + statements_of(code@) + C_FILE_SUFFIX@,
{
    let mut text = get_c_file_prefix();
    let mut i: usize = 0;
    while i < code.len()
        invariant
            i <= code.len(),
            text@ == C_FILE_PREFIX@ + statements_of(code@.take(i as int)),
        decreases code.len() - i,
    {
        let statement = make_opcode_string(code[i]);
        text.append(statement.as_str());
        proof {
            assert(code@.take(i + 1).drop_last() == code@.take(i as int));
        }
        i += 1;
    }
    assert(code@.take(i as int) == code@);
    text.append(C_FILE_SUFFIX);
    text
}

} // verus!
