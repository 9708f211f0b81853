//! The trace: one line for each retired instruction, with every register
//! in decimal.

use vstd::prelude::*;

use crate::text::{decimal, push_char, push_decimal, push_digits};

verus! {

/// The part of a trace line for one register: `reg`, the register's
/// number, a colon and a space, its value, a semicolon and a space.
pub open spec fn register_entry(index: int, value: int) -> Seq<char> {
    seq!['r', 'e', 'g'] + decimal(index) + seq![':', ' '] + decimal(value) + seq![';', ' ']
}

/// The parts for the first `n` registers, in rising order.
pub open spec fn dump_upto(regs: Seq<i32>, n: nat) -> Seq<char>
    decreases n,
{
    if n == 0 {
        Seq::empty()
    } else {
        dump_upto(regs, (n - 1) as nat) + register_entry(n - 1, regs[n - 1] as int)
    }
}

/// The trace line for the register file `regs`.
pub open spec fn register_dump(regs: Seq<i32>) -> Seq<char> {
    dump_upto(regs, regs.len())
}

/// Appends the part for register `index` with value `value` to `line`.
fn push_entry(line: &mut String, index: usize, value: i32)
    ensures
        final(line)@ == old(line)@ + register_entry(index as int, value as int),
{
    push_char(line, 'r');
    push_char(line, 'e');
    push_char(line, 'g');
    push_digits(line, index as u64);
    push_char(line, ':');
    push_char(line, ' ');
    push_decimal(line, value as i64);
    push_char(line, ';');
    push_char(line, ' ');
    assert(line@ =~= old(line)@ + register_entry(index as int, value as int));
}

/// The trace line for a register file: for each register in rising order
/// `reg`, its number, `: `, its value and `; `.
pub fn dump_registers(regs: &[i32; 32]) -> (line: String)
    ensures
        line@ == register_dump(regs@),
{
    let mut line = String::new();
    let mut index: usize = 0;
    while index < 32
        invariant
            index <= 32,
            regs@.len() == 32,
            line@ == dump_upto(regs@, index as nat),
        decreases 32 - index,
    {
        push_entry(&mut line, index, regs[index]);
        index += 1;
    }
    line
}

} // verus!
