//! Random programs and memory contents, as the text that the parser reads.

use vstd::prelude::*;

use crate::text::{decimal, push_char, push_digits};

verus! {

/// Number of kinds of instruction that are generated: addition,
/// subtraction, multiplication, division and load.
pub const KINDS: usize = 5;

/// Registers that generated instructions name: all of them.
pub const REGISTERS: usize = 32;

/// Offsets of generated loads are below this.
pub const OFFSETS: usize = 10;

/// Generated words of memory are at least 1 and below this.
pub const VALUES: usize = 10;

/// Generated register values are below this.
pub const REGISTER_VALUES: usize = 1000;

/// `Rng::gen_range` of the rand crate, on the generator that `thread_rng`
/// gives: some number from `low` up to, not including, `high`. Which one
/// is not said; two calls may differ.
#[verifier::external_body]
fn random_in(low: usize, high: usize) -> (r: usize)
    requires
        low < high,
    ensures
        low <= r < high,
{
    rand::Rng::gen_range(&mut rand::thread_rng(), low..high)
}

/// The name of the instruction of kind `kind`.
pub open spec fn opcode(kind: int) -> Seq<char> {
    if kind == 0 {
        seq!['A', 'D', 'D']
    } else if kind == 1 {
        seq!['S', 'U', 'B']
    } else if kind == 2 {
        seq!['M', 'U', 'L']
    } else if kind == 3 {
        seq!['D', 'I', 'V']
    } else {
        seq!['L', 'D']
    }
}

/// The text of the instruction of kind `kind` with target register
/// `target`, first source register `r1` and, last, the second source
/// register or, for a load, the offset: `ADD,R1,R2,R3` or `LD,R1,R2,8`.
pub open spec fn instruction_line(kind: int, target: int, r1: int, last: int) -> Seq<char> {
    opcode(kind) + seq![',', 'R'] + decimal(target) + seq![',', 'R'] + decimal(r1) + (if kind
        == 4 {
        seq![',']
    } else {
        seq![',', 'R']
    }) + decimal(last)
}

/// The text of a word of memory: its address, a colon and a space, its
/// value.
pub open spec fn data_line(addr: int, val: int) -> Seq<char> {
    decimal(addr) + seq![':', ' '] + decimal(val)
}

/// `line` is the text of an instruction that may be generated: of one of the
/// five kinds, with registers in range and, for a load, an offset below
/// `OFFSETS`.
pub open spec fn generated(line: Seq<char>) -> bool {
    exists|kind: int, target: int, r1: int, last: int|
        0 <= kind < KINDS && 0 <= target < REGISTERS && 0 <= r1 < REGISTERS && 0 <= last < (
        if kind == 4 {
            OFFSETS
        } else {
            REGISTERS
        }) && line == #[trigger] instruction_line(kind, target, r1, last)
}

/// `line` is the text of a word of memory that may be generated for
/// address `addr`: its value is at least 1 and below `VALUES`.
pub open spec fn generated_word(line: Seq<char>, addr: int) -> bool {
    exists|val: int| 1 <= val < VALUES && line == #[trigger] data_line(addr, val)
}

/// The text of the instruction of kind `kind`.
pub fn instruction_text(kind: usize, target: usize, r1: usize, last: usize) -> (line: String)
    requires
        kind < KINDS,
    ensures
        line@ == instruction_line(kind as int, target as int, r1 as int, last as int),
{
    let mut line = String::new();
    if kind == 0 {
        push_char(&mut line, 'A');
        push_char(&mut line, 'D');
        push_char(&mut line, 'D');
    } else if kind == 1 {
        push_char(&mut line, 'S');
        push_char(&mut line, 'U');
        push_char(&mut line, 'B');
    } else if kind == 2 {
        push_char(&mut line, 'M');
        push_char(&mut line, 'U');
        push_char(&mut line, 'L');
    } else if kind == 3 {
        push_char(&mut line, 'D');
        push_char(&mut line, 'I');
        push_char(&mut line, 'V');
    } else {
        push_char(&mut line, 'L');
        push_char(&mut line, 'D');
    }
    assert(line@ =~= opcode(kind as int));
    push_char(&mut line, ',');
    push_char(&mut line, 'R');
    push_digits(&mut line, target as u64);
    push_char(&mut line, ',');
    push_char(&mut line, 'R');
    push_digits(&mut line, r1 as u64);
    push_char(&mut line, ',');
    if kind != 4 {
        push_char(&mut line, 'R');
    }
    push_digits(&mut line, last as u64);
    assert(line@ =~= instruction_line(kind as int, target as int, r1 as int, last as int));
    line
}

/// The text of the word `val` of memory at `addr`.
pub fn data_text(addr: usize, val: usize) -> (line: String)
    ensures
        line@ == data_line(addr as int, val as int),
{
    let mut line = String::new();
    push_digits(&mut line, addr as u64);
    push_char(&mut line, ':');
    push_char(&mut line, ' ');
    push_digits(&mut line, val as u64);
    assert(line@ =~= data_line(addr as int, val as int));
    line
}

/// The text of a random instruction: of a random kind, with random
/// registers and, for a load, a random offset.
pub fn random_instruction() -> (line: String)
    ensures
        generated(line@),
{
    let kind = random_in(0, KINDS);
    let target = random_in(0, REGISTERS);
    let r1 = random_in(0, REGISTERS);
    let last = if kind == 4 {
        random_in(0, OFFSETS)
    } else {
        random_in(0, REGISTERS)
    };
    instruction_text(kind, target, r1, last)
}

/// The text of `count` random instructions.
pub fn random_program(count: usize) -> (lines: Vec<String>)
    ensures
        lines.len() == count,
        forall|i: int| 0 <= i < count ==> generated((#[trigger] lines[i])@),
{
    let mut lines: Vec<String> = Vec::new();
    let mut n: usize = 0;
    while n < count
        invariant
            n <= count,
            lines.len() == n,
            forall|i: int| 0 <= i < n ==> generated((#[trigger] lines[i])@),
        decreases count - n,
    {
        lines.push(random_instruction());
        n += 1;
    }
    lines
}

/// The text of `count` random words of memory, at the addresses 0, 4, 8
/// and so on.
pub fn random_data(count: usize) -> (lines: Vec<String>)
    requires
        4 * count <= usize::MAX,
    ensures
        lines.len() == count,
        forall|i: int| 0 <= i < count ==> generated_word((#[trigger] lines[i])@, 4 * i),
{
    let mut lines: Vec<String> = Vec::new();
    let mut n: usize = 0;
    while n < count
        invariant
            n <= count,
            4 * count <= usize::MAX,
            lines.len() == n,
            forall|i: int| 0 <= i < n ==> generated_word((#[trigger] lines[i])@, 4 * i),
        decreases count - n,
    {
        let val = random_in(1, VALUES);
        lines.push(data_text(4 * n, val));
        n += 1;
    }
    lines
}

/// A random value for each register.
pub fn random_registers() -> (values: Vec<i32>)
    ensures
        values.len() == REGISTERS,
        forall|i: int| 0 <= i < REGISTERS ==> 0 <= (#[trigger] values[i]) < REGISTER_VALUES,
{
    let mut values: Vec<i32> = Vec::new();
    let mut n: usize = 0;
    while n < REGISTERS
        invariant
            n <= REGISTERS,
            values.len() == n,
            forall|i: int| 0 <= i < n ==> 0 <= (#[trigger] values[i]) < REGISTER_VALUES,
        decreases REGISTERS - n,
    {
        values.push(random_in(0, REGISTER_VALUES) as i32);
        n += 1;
    }
    values
}

} // verus!
