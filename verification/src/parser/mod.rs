//! Instructions and memory contents as text.
//!
//! An arithmetic instruction is written `ADD,R1,R2,R3` (also `SUB`, `MUL`,
//! `DIV`), a load `LD,R1,R2,8`, and a word of memory `8: 42`. The shapes
//! are regular expressions, matched by the regex crate.

use vstd::prelude::*;
use vstd::string::*;

use crate::cpu::{Cpu, Instruction, Operand};

verus! {

/// Shape of a load.
pub const LOAD_PATTERN: &'static str = r"LD,R([0-9]*),R([0-9]*),([0-9]*)";

/// Shape of an addition.
pub const ADD_PATTERN: &'static str = r"ADD,R([0-9]*),R([0-9]*),R([0-9]*)";

/// Shape of a subtraction.
pub const SUB_PATTERN: &'static str = r"SUB,R([0-9]*),R([0-9]*),R([0-9]*)";

/// Shape of a multiplication.
pub const MUL_PATTERN: &'static str = r"MUL,R([0-9]*),R([0-9]*),R([0-9]*)";

/// Shape of a division.
pub const DIV_PATTERN: &'static str = r"DIV,R([0-9]*),R([0-9]*),R([0-9]*)";

/// Shape of a word of memory: its address and its value.
pub const DATA_PATTERN: &'static str = r"([0-9]*): ([0-9]*)";

/// The capture groups of the leftmost match of the regular expression
/// `pattern` in `text`, the whole match first: for each group the text it
/// matched, or nothing where it took no part. Nothing at all where `text`
/// holds no match or the regex crate does not take `pattern` for a regular
/// expression.
pub uninterp spec fn regex_captures(pattern: Seq<char>, text: Seq<char>) -> Option<
    Seq<Option<Seq<char>>>,
>;

/// The text of a group.
pub open spec fn group_text(group: Option<String>) -> Option<Seq<char>> {
    match group {
        Some(s) => Some(s@),
        None => None,
    }
}

/// `found` holds the groups `groups`.
pub open spec fn holds_groups(
    found: Option<Vec<Option<String>>>,
    groups: Option<Seq<Option<Seq<char>>>>,
) -> bool {
    match (found, groups) {
        (Some(v), Some(g)) => v@.len() == g.len() && forall|i: int|
            0 <= i < g.len() ==> group_text(#[trigger] v@[i]) == g[i],
        (None, None) => true,
        _ => false,
    }
}

/// `Regex::new` and `Regex::captures` of the regex crate: the groups of the
/// leftmost match of `pattern` in `text`, each as the text it matched. The
/// result is what the crate finds, which `regex_captures` names: the
/// contract says nothing of which texts match.
#[verifier::external_body]
fn captures(pattern: &str, text: &str) -> (found: Option<Vec<Option<String>>>)
    ensures
        holds_groups(found, regex_captures(pattern@, text@)),
{
    match regex::Regex::new(pattern) {
        Ok(re) => re.captures(text).map(
            |caps| caps.iter().map(|m| m.map(|g| g.as_str().to_string())).collect(),
        ),
        Err(_) => None,
    }
}

/// The value of a decimal digit.
pub open spec fn digit_value(c: char) -> Option<nat> {
    if '0' <= c && c <= '9' {
        Some((c as u32 - '0' as u32) as nat)
    } else {
        None
    }
}

/// The number that `s` is in decimal. Nothing where `s` is empty or holds
/// anything but digits.
pub open spec fn number(s: Seq<char>) -> Option<nat>
    decreases s.len(),
{
    if s.len() == 0 {
        None
    } else if s.len() == 1 {
        digit_value(s[0])
    } else {
        match (number(s.drop_last()), digit_value(s.last())) {
            (Some(high), Some(low)) => Some(10 * high + low),
            _ => None,
        }
    }
}

/// The number that `s` is in decimal, where it is at most `max`.
pub open spec fn bounded_number(s: Seq<char>, max: nat) -> Option<nat> {
    match number(s) {
        Some(n) => if n <= max {
            Some(n)
        } else {
            None
        },
        None => None,
    }
}

/// A longer run of digits is no smaller a number.
proof fn lemma_number_grows(s: Seq<char>, n: int)
    requires
        1 <= n <= s.len(),
        number(s) is Some,
    ensures
        number(s.subrange(0, n)) is Some,
        number(s.subrange(0, n))->0 <= number(s)->0,
    decreases s.len(),
{
    if n == s.len() {
        assert(s.subrange(0, n) =~= s);
    } else {
        assert(s.drop_last().subrange(0, n) =~= s.subrange(0, n));
        lemma_number_grows(s.drop_last(), n);
    }
}

/// The number that `text` is in decimal, where it is at most `max`.
pub fn parse_number(text: &str, max: u64) -> (r: Option<u64>)
    ensures
        match r {
            Some(n) => bounded_number(text@, max as nat) == Some(n as nat),
            None => bounded_number(text@, max as nat) is None,
        },
{
    let len = text.unicode_len();
    if len == 0 {
        return None;
    }
    let mut value: u64 = 0;
    let mut i: usize = 0;
    while i < len
        invariant
            i <= len,
            len == text@.len(),
            i > 0 ==> number(text@.subrange(0, i as int)) == Some(value as nat),
            i == 0 ==> value == 0,
            value <= max,
        decreases len - i,
    {
        let c = text.get_char(i);
        let ghost prefix = text@.subrange(0, i + 1);
        proof {
            assert(prefix.last() == c);
            assert(prefix.drop_last() =~= text@.subrange(0, i as int));
        }
        if !('0' <= c && c <= '9') {
            proof {
                if number(text@) is Some {
                    lemma_number_grows(text@, i + 1);
                }
            }
            return None;
        }
        let digit: u64 = (c as u32 - '0' as u32) as u64;
        if digit > max || value > (max - digit) / 10 {
            proof {
                assert(10 * value + digit > max);
                if number(text@) is Some {
                    lemma_number_grows(text@, i + 1);
                }
            }
            return None;
        }
        value = 10 * value + digit;
        i += 1;
    }
    proof {
        assert(text@.subrange(0, len as int) =~= text@);
    }
    Some(value)
}

/// The number in group `k` of `groups`, where it is at most `max`.
pub open spec fn field(groups: Seq<Option<Seq<char>>>, k: int, max: nat) -> Option<nat> {
    if 0 <= k < groups.len() && groups[k] is Some {
        bounded_number(groups[k]->0, max)
    } else {
        None
    }
}

/// The number in group `k` of `groups`, where it is at most `max`.
fn read_field(groups: &Vec<Option<String>>, k: usize, max: u64) -> (r: Option<u64>)
    ensures
        match r {
            Some(n) => field(groups@.map_values(|g: Option<String>| group_text(g)), k as int, max as nat)
                == Some(n as nat),
            None => field(groups@.map_values(|g: Option<String>| group_text(g)), k as int, max as nat)
                is None,
        },
{
    if k < groups.len() {
        match &groups[k] {
            Some(s) => parse_number(s.as_str(), max),
            None => None,
        }
    } else {
        None
    }
}

/// The instruction that the groups of a match stand for, by the first
/// letter of the line: three register numbers for arithmetic, two register
/// numbers and an offset for a load. Nothing where a number is missing or
/// too large.
pub open spec fn decoded(first: char, groups: Seq<Option<Seq<char>>>) -> Option<Instruction> {
    let a = field(groups, 1, usize::MAX as nat);
    let b = field(groups, 2, usize::MAX as nat);
    let c = field(groups, 3, usize::MAX as nat);
    let imm = field(groups, 3, u32::MAX as nat);
    if first == 'L' {
        if a is Some && b is Some && imm is Some {
            Some(Instruction::Ld(a->0 as usize, b->0 as usize, imm->0 as u32))
        } else {
            None
        }
    } else if a is Some && b is Some && c is Some {
        let op = Operand { target: a->0 as usize, operand1: b->0 as usize, operand2: c->0 as usize };
        if first == 'A' {
            Some(Instruction::Add(op))
        } else if first == 'S' {
            Some(Instruction::Sub(op))
        } else if first == 'M' {
            Some(Instruction::Mul(op))
        } else if first == 'D' {
            Some(Instruction::Div(op))
        } else {
            None
        }
    } else {
        None
    }
}

/// The instruction that the groups of a match stand for, by the first
/// letter of the line.
pub fn decode(first: char, groups: &Vec<Option<String>>) -> (r: Option<Instruction>)
    ensures
        r == decoded(first, groups@.map_values(|g: Option<String>| group_text(g))),
{
    let a = read_field(groups, 1, usize::MAX as u64);
    let b = read_field(groups, 2, usize::MAX as u64);
    if first == 'L' {
        let imm = read_field(groups, 3, u32::MAX as u64);
        match (a, b, imm) {
            (Some(a), Some(b), Some(imm)) => Some(Instruction::Ld(a as usize, b as usize, imm as u32)),
            _ => None,
        }
    } else {
        let c = read_field(groups, 3, usize::MAX as u64);
        match (a, b, c) {
            (Some(a), Some(b), Some(c)) => {
                let op = Operand::new(a as usize, b as usize, c as usize);
                if first == 'A' {
                    Some(Instruction::Add(op))
                } else if first == 'S' {
                    Some(Instruction::Sub(op))
                } else if first == 'M' {
                    Some(Instruction::Mul(op))
                } else if first == 'D' {
                    Some(Instruction::Div(op))
                } else {
                    None
                }
            },
            _ => None,
        }
    }
}

/// The shape that a line beginning with `first` must have, if any.
pub open spec fn pattern_of(first: char) -> Option<Seq<char>> {
    if first == 'L' {
        Some(LOAD_PATTERN@)
    } else if first == 'A' {
        Some(ADD_PATTERN@)
    } else if first == 'S' {
        Some(SUB_PATTERN@)
    } else if first == 'M' {
        Some(MUL_PATTERN@)
    } else if first == 'D' {
        Some(DIV_PATTERN@)
    } else {
        None
    }
}

/// The instruction that `text` stands for. A line that begins with none
/// of `L`, `A`, `S`, `M`, `D` stands for `Invalid`. A line that begins
/// with one of them and does not hold the shape of that letter, or holds
/// it with a number too large, stands for nothing.
pub open spec fn instruction_of(text: Seq<char>) -> Option<Instruction> {
    if text.len() == 0 || pattern_of(text[0]) is None {
        Some(Instruction::Invalid)
    } else {
        match regex_captures(pattern_of(text[0])->0, text) {
            Some(groups) => decoded(text[0], groups),
            None => None,
        }
    }
}

/// The address and the value that `text` stands for: the numbers of the
/// first place in `text` that has the shape of a word of memory. Nothing
/// where there is no such place or a number is too large.
pub open spec fn data_of(text: Seq<char>) -> Option<(u32, i32)> {
    match regex_captures(DATA_PATTERN@, text) {
        Some(groups) => {
            let addr = field(groups, 1, u32::MAX as nat);
            let val = field(groups, 2, i32::MAX as nat);
            if addr is Some && val is Some {
                Some((addr->0 as u32, val->0 as i32))
            } else {
                None
            }
        },
        None => None,
    }
}

/// The instructions that the first `n` of `lines` stand for.
pub open spec fn instructions(lines: Seq<String>, n: nat) -> Seq<Instruction> {
    Seq::new(n, |i: int| instruction_of(lines[i]@)->0)
}

/// A line stands for a word of memory that can be stored: its address is
/// a multiple of four.
pub open spec fn storable(line: Seq<char>) -> bool {
    match data_of(line) {
        Some((addr, _)) => addr % 4 == 0,
        None => false,
    }
}

/// `mem` after the words that the first `n` of `lines` stand for were
/// stored in it, in order.
pub open spec fn loaded(mem: Map<u32, i32>, lines: Seq<String>, n: nat) -> Map<u32, i32>
    decreases n,
{
    if n == 0 {
        mem
    } else {
        let word = data_of(lines[n - 1]@)->0;
        loaded(mem, lines, (n - 1) as nat).insert(word.0, word.1)
    }
}

/// The groups that `found` holds are the groups that it stands for.
proof fn lemma_holds_groups(found: Vec<Option<String>>, groups: Seq<Option<Seq<char>>>)
    requires
        holds_groups(Some(found), Some(groups)),
    ensures
        found@.map_values(|g: Option<String>| group_text(g)) == groups,
{
    assert(found@.map_values(|g: Option<String>| group_text(g)) =~= groups);
}

/// Reads instructions and memory contents.
pub struct Parser();

impl Parser {
    pub fn new() -> Self {
        Self()
    }

    /// The instruction that `inst` stands for, if it stands for one.
    fn scan(&self, inst: &str) -> (r: Option<Instruction>)
        ensures
            r == instruction_of(inst@),
    {
        if inst.unicode_len() == 0 {
            return Some(Instruction::Invalid);
        }
        let first = inst.get_char(0);
        let pattern = if first == 'L' {
            LOAD_PATTERN
        } else if first == 'A' {
            ADD_PATTERN
        } else if first == 'S' {
            SUB_PATTERN
        } else if first == 'M' {
            MUL_PATTERN
        } else if first == 'D' {
            DIV_PATTERN
        } else {
            return Some(Instruction::Invalid);
        };
        match captures(pattern, inst) {
            Some(groups) => {
                proof {
                    lemma_holds_groups(groups, regex_captures(pattern@, inst@)->0);
                }
                decode(first, &groups)
            },
            None => None,
        }
    }

    /// The instruction that `inst` stands for.
    pub fn parse(&self, inst: &str) -> (r: Instruction)
        requires
            instruction_of(inst@) is Some,
        ensures
            Some(r) == instruction_of(inst@),
    {
        match self.scan(inst) {
            Some(i) => i,
            None => Instruction::Invalid,
        }
    }

    /// The instruction that `inst` stands for, if it stands for one.
    pub fn try_parse(&self, inst: &str) -> (r: Option<Instruction>)
        ensures
            r == instruction_of(inst@),
    {
        if self.scan(inst).is_some() {
            Some(self.parse(inst))
        } else {
            None
        }
    }

    /// The address and the value that `line` stands for, if it stands for
    /// a word of memory.
    pub fn parse_data(&self, line: &str) -> (r: Option<(u32, i32)>)
        ensures
            r == data_of(line@),
    {
        match captures(DATA_PATTERN, line) {
            Some(groups) => {
                proof {
                    lemma_holds_groups(groups, regex_captures(DATA_PATTERN@, line@)->0);
                }
                let addr = read_field(&groups, 1, u32::MAX as u64);
                let val = read_field(&groups, 2, i32::MAX as u64);
                match (addr, val) {
                    (Some(addr), Some(val)) => Some((addr as u32, val as i32)),
                    _ => None,
                }
            },
            None => None,
        }
    }

    /// Queues on `cpu` the instructions that `lines` stand for, in order,
    /// up to the first line that stands for none, whose index is the error.
    pub fn read_inst<C: Cpu>(&self, cpu: &mut C, lines: &Vec<String>) -> (r: Result<(), usize>)
        requires
            old(cpu).inv(),
            old(cpu).room() >= lines.len(),
        ensures
            final(cpu).inv(),
            final(cpu).stored() == old(cpu).stored(),
            final(cpu).traced() == old(cpu).traced(),
            match r {
                Ok(_) => {
                    &&& forall|j: int|
                        0 <= j < lines.len() ==> instruction_of((#[trigger] lines[j])@) is Some
                    &&& final(cpu).queued() == old(cpu).queued() + instructions(
                        lines@,
                        lines.len() as nat,
                    )
                },
                Err(i) => {
                    &&& i < lines.len()
                    &&& instruction_of(lines[i as int]@) is None
                    &&& forall|j: int| 0 <= j < i ==> instruction_of((#[trigger] lines[j])@) is Some
                    &&& final(cpu).queued() == old(cpu).queued() + instructions(lines@, i as nat)
                },
            },
    {
        let mut i: usize = 0;
        proof {
            assert(old(cpu).queued() + instructions(lines@, 0) =~= old(cpu).queued());
        }
        while i < lines.len()
            invariant
                i <= lines.len(),
                cpu.inv(),
                cpu.room() >= lines.len() - i,
                cpu.stored() == old(cpu).stored(),
                cpu.traced() == old(cpu).traced(),
                forall|j: int| 0 <= j < i ==> instruction_of((#[trigger] lines[j])@) is Some,
                cpu.queued() == old(cpu).queued() + instructions(lines@, i as nat),
            decreases lines.len() - i,
        {
            match self.try_parse(lines[i].as_str()) {
                Some(inst) => {
                    cpu.add_inst(inst);
                    proof {
                        assert(instructions(lines@, (i + 1) as nat) =~= instructions(
                            lines@,
                            i as nat,
                        ).push(inst));
                        assert(cpu.queued() =~= old(cpu).queued() + instructions(
                            lines@,
                            (i + 1) as nat,
                        ));
                    }
                },
                None => {
                    return Err(i);
                },
            }
            i += 1;
        }
        Ok(())
    }

    /// Stores in the memory of `cpu` the words that `lines` stand for, in
    /// order, up to the first line that stands for none or names an address
    /// that is not a multiple of four, whose index is the error.
    pub fn read_data<C: Cpu>(&self, cpu: &mut C, lines: &Vec<String>) -> (r: Result<(), usize>)
        requires
            old(cpu).inv(),
        ensures
            final(cpu).inv(),
            final(cpu).queued() == old(cpu).queued(),
            final(cpu).traced() == old(cpu).traced(),
            match r {
                Ok(_) => {
                    &&& forall|j: int| 0 <= j < lines.len() ==> storable((#[trigger] lines[j])@)
                    &&& final(cpu).stored() == loaded(
                        old(cpu).stored(),
                        lines@,
                        lines.len() as nat,
                    )
                },
                Err(i) => {
                    &&& i < lines.len()
                    &&& !storable(lines[i as int]@)
                    &&& forall|j: int| 0 <= j < i ==> storable((#[trigger] lines[j])@)
                    &&& final(cpu).stored() == loaded(old(cpu).stored(), lines@, i as nat)
                },
            },
    {
        let mut i: usize = 0;
        while i < lines.len()
            invariant
                i <= lines.len(),
                cpu.inv(),
                cpu.queued() == old(cpu).queued(),
                cpu.traced() == old(cpu).traced(),
                forall|j: int| 0 <= j < i ==> storable((#[trigger] lines[j])@),
                cpu.stored() == loaded(old(cpu).stored(), lines@, i as nat),
            decreases lines.len() - i,
        {
            match self.parse_data(lines[i].as_str()) {
                Some((addr, val)) => {
                    if addr % 4 != 0 {
                        return Err(i);
                    }
                    cpu.write_memory(addr, val);
                },
                None => {
                    return Err(i);
                },
            }
            i += 1;
        }
        Ok(())
    }
}

} // verus!
