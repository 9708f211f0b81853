//! Instructions, their sequential meaning, and the interface shared by the
//! two processors.

use vstd::prelude::*;

pub mod common;
pub mod laws;
pub mod memory;
pub mod order;
pub mod pipeline;
pub mod progress;
pub mod search;
pub mod sound;
pub mod tomasulo;

pub use common::SingleCycleCpu;
pub use memory::Memory;
pub use tomasulo::{ResStationType, TomasuloCpu};

verus! {

/// Number of scalar registers.
pub const REGISTER_COUNT: usize = 32;

/// Register operands of an arithmetic instruction.
#[derive(Debug, Clone, Copy, PartialEq, Eq, Structural)]
pub struct Operand {
    pub target: usize,
    pub operand1: usize,
    pub operand2: usize,
}

impl Operand {
    pub fn new(target: usize, operand1: usize, operand2: usize) -> (op: Self)
        ensures
            op == (Operand { target, operand1, operand2 }),
    {
        Self { target, operand1, operand2 }
    }
}

/// One decoded instruction.
#[derive(Debug, Clone, Copy, PartialEq, Eq, Structural)]
pub enum Instruction {
    Add(Operand),
    Sub(Operand),
    Mul(Operand),
    Div(Operand),
    /// `Ld(rd, base, imm)`: `rd` receives the word at `base + imm`.
    Ld(usize, usize, u32),
    /// `Sd(rs, base, imm)`: the word of `rs` goes to `base + imm`.
    Sd(usize, usize, u32),
    /// Occupies the pipeline and writes no register.
    Jump(usize, usize),
    /// Text that decoded to nothing.
    Invalid,
}

/// Why a processor refused to go on.
#[derive(Debug, Clone, Copy, PartialEq, Eq, Structural)]
pub enum CpuError {
    /// An instruction names a register outside `0..REGISTER_COUNT`.
    InvalidRegisterIndex,
    /// `Instruction::Invalid` reached the processor.
    InvalidInstruction,
    /// A store to an address that is not a multiple of four.
    MisalignedAccess,
}

/// What one retired instruction leaves behind: the register it targets, if
/// any, and the value it produced.
#[derive(Debug, Clone, Copy, PartialEq, Eq, Structural)]
pub struct Commit {
    pub dest: Option<usize>,
    pub value: i32,
}

/// A processor: it takes instructions and memory contents, runs the
/// instructions, and keeps a trace.
pub trait Cpu {
    /// The state is one that the processor can be in.
    spec fn inv(&self) -> bool;

    /// The instructions not yet taken up, oldest first.
    spec fn queued(&self) -> Seq<Instruction>;

    /// The memory.
    spec fn stored(&self) -> Map<u32, i32>;

    /// The lines traced so far.
    spec fn traced(&self) -> Seq<Seq<char>>;

    /// How many more instructions the processor can take.
    spec fn room(&self) -> nat;

    /// The counters of the processor have room for a run.
    spec fn can_run(&self) -> bool;

    /// Executes the queued instructions until none is left or one cannot
    /// be executed.
    fn run(&mut self) -> (r: Result<(), CpuError>)
        requires
            old(self).inv(),
            old(self).can_run(),
        ensures
            final(self).inv(),
            r is Ok ==> final(self).queued().len() == 0,
    ;

    /// Queues an instruction behind those already queued.
    fn add_inst(&mut self, inst: Instruction)
        requires
            old(self).inv(),
            old(self).room() > 0,
        ensures
            final(self).inv(),
            final(self).queued() == old(self).queued().push(inst),
            final(self).stored() == old(self).stored(),
            final(self).traced() == old(self).traced(),
            final(self).room() == old(self).room() - 1,
    ;

    /// Adds a line to the trace.
    fn trace(&mut self, s: String)
        requires
            old(self).inv(),
        ensures
            final(self).inv(),
            final(self).traced() == old(self).traced().push(s@),
            final(self).queued() == old(self).queued(),
            final(self).stored() == old(self).stored(),
            final(self).room() == old(self).room(),
    ;

    /// Stores `val` at the word boundary `addr`.
    fn write_memory(&mut self, addr: u32, val: i32)
        requires
            old(self).inv(),
            addr % 4 == 0,
        ensures
            final(self).inv(),
            final(self).stored() == old(self).stored().insert(addr, val),
            final(self).queued() == old(self).queued(),
            final(self).traced() == old(self).traced(),
            final(self).room() == old(self).room(),
    ;
}

/// Quotient rounded towards zero, for a divisor other than zero.
pub open spec fn quotient(a: int, b: int) -> int {
    if a >= 0 && b > 0 {
        a / b
    } else if a < 0 && b < 0 {
        (-a) / (-b)
    } else if a < 0 {
        -((-a) / b)
    } else {
        -(a / (-b))
    }
}

/// `v` where it fits in 32 bits, and 0 where it does not.
pub open spec fn fit_or_zero(v: int) -> i32 {
    if i32::MIN <= v <= i32::MAX {
        v as i32
    } else {
        0
    }
}

/// Address of a load or store: base plus offset, modulo 2^32.
pub open spec fn effective_address(base: i32, imm: u32) -> u32 {
    ((base + imm) % 0x1_0000_0000) as u32
}

/// The word that `mem` holds for `addr`: the one at the word boundary at or
/// below `addr`, and 0 where nothing was stored.
pub open spec fn read_word(mem: Map<u32, i32>, addr: u32) -> i32 {
    let base = (addr - addr % 4) as u32;
    if mem.contains_key(base) {
        mem[base]
    } else {
        0
    }
}

/// The value of register `r` in `regs`, and 0 where no register is read.
pub open spec fn read_reg(regs: Seq<i32>, r: Option<usize>) -> i32 {
    match r {
        Some(i) => regs[i as int],
        None => 0,
    }
}

/// How an execution ends: what was retired, the registers, the memory,
/// and the error that ended it, if one did.
pub struct Outcome {
    pub commits: Seq<Commit>,
    pub regs: Seq<i32>,
    pub memory: Map<u32, i32>,
    pub error: Option<CpuError>,
}

impl Outcome {
    /// The outcome of an execution that first retires with `c` and then
    /// goes on to this outcome.
    pub open spec fn after(self, c: Commit) -> Outcome {
        Outcome { commits: seq![c] + self.commits, ..self }
    }

    /// The outcome of an execution that first retires `cs` and then goes
    /// on to this outcome.
    pub open spec fn after_all(self, cs: Seq<Commit>) -> Outcome {
        Outcome { commits: cs + self.commits, ..self }
    }

    /// This outcome without its registers where it ends with a misaligned
    /// store.
    pub open spec fn observable(self) -> Outcome {
        if self.error == Some(CpuError::MisalignedAccess) {
            Outcome { regs: Seq::empty(), ..self }
        } else {
            self
        }
    }
}

/// The outcome of executing the instructions of `prog` one after the other
/// on the registers `regs` and the memory `mem`, each on what its
/// predecessors left. The execution ends before the first instruction that
/// cannot be decoded, names a register out of range, or stores to an
/// address that is not a multiple of four.
pub open spec fn in_order(regs: Seq<i32>, mem: Map<u32, i32>, prog: Seq<Instruction>) -> Outcome
    decreases prog.len(),
{
    if prog.len() == 0 {
        Outcome { commits: Seq::empty(), regs, memory: mem, error: None }
    } else if prog[0].stuck(regs) is Some {
        Outcome { commits: Seq::empty(), regs, memory: mem, error: prog[0].stuck(regs) }
    } else {
        in_order(
            prog[0].write_back(regs, mem),
            prog[0].store(regs, mem),
            prog.drop_first(),
        ).after(prog[0].retirement(regs, mem))
    }
}

impl Instruction {
    /// The register that receives the result.
    pub open spec fn dest(self) -> Option<usize> {
        match self {
            Instruction::Add(op) | Instruction::Sub(op) | Instruction::Mul(op) | Instruction::Div(
                op,
            ) => Some(op.target),
            Instruction::Ld(rd, _, _) => Some(rd),
            _ => None,
        }
    }

    /// The register read as first operand.
    pub open spec fn source1(self) -> Option<usize> {
        match self {
            Instruction::Add(op) | Instruction::Sub(op) | Instruction::Mul(op) | Instruction::Div(
                op,
            ) => Some(op.operand1),
            Instruction::Ld(_, base, _) => Some(base),
            Instruction::Sd(_, base, _) => Some(base),
            Instruction::Jump(r1, _) => Some(r1),
            Instruction::Invalid => None,
        }
    }

    /// The register read as second operand.
    pub open spec fn source2(self) -> Option<usize> {
        match self {
            Instruction::Add(op) | Instruction::Sub(op) | Instruction::Mul(op) | Instruction::Div(
                op,
            ) => Some(op.operand2),
            Instruction::Sd(rs, _, _) => Some(rs),
            Instruction::Jump(_, r2) => Some(r2),
            _ => None,
        }
    }

    /// Why the instruction cannot be executed, if it cannot.
    pub open spec fn fault(self) -> Option<CpuError> {
        if self is Invalid {
            Some(CpuError::InvalidInstruction)
        } else if (self.dest() is Some && self.dest()->0 >= REGISTER_COUNT) || (self.source1() is Some
            && self.source1()->0 >= REGISTER_COUNT) || (self.source2() is Some
            && self.source2()->0 >= REGISTER_COUNT) {
            Some(CpuError::InvalidRegisterIndex)
        } else {
            None
        }
    }

    /// The value the instruction produces from its operand values `a` and
    /// `b`, with memory as `mem`. Arithmetic that overflows, and division by
    /// zero, give 0. A load gives the word at its address, a store the value
    /// it stores, a jump 0.
    pub open spec fn result(self, a: i32, b: i32, mem: Map<u32, i32>) -> i32 {
        match self {
            Instruction::Add(_) => fit_or_zero(a + b),
            Instruction::Sub(_) => fit_or_zero(a - b),
            Instruction::Mul(_) => fit_or_zero(a * b),
            Instruction::Div(_) => if b == 0 {
                0
            } else {
                fit_or_zero(quotient(a as int, b as int))
            },
            Instruction::Ld(_, _, imm) => read_word(mem, effective_address(a, imm)),
            Instruction::Sd(_, _, _) => b,
            _ => 0,
        }
    }

    /// The address that a load or store reaches from the base value `a`.
    pub open spec fn address(self, a: i32) -> u32 {
        match self {
            Instruction::Ld(_, _, imm) | Instruction::Sd(_, _, imm) => effective_address(a, imm),
            _ => 0,
        }
    }

    /// Why the instruction cannot be executed on `regs`, if it cannot: it
    /// cannot be decoded, names a register out of range, or stores to an
    /// address that is not a multiple of four.
    pub open spec fn stuck(self, regs: Seq<i32>) -> Option<CpuError> {
        if self.fault() is Some {
            self.fault()
        } else if self is Sd && self.address(read_reg(regs, self.source1())) % 4 != 0 {
            Some(CpuError::MisalignedAccess)
        } else {
            None
        }
    }

    /// The memory after the instruction, executed on `regs`: a store
    /// writes the value of its register at its address.
    pub open spec fn store(self, regs: Seq<i32>, mem: Map<u32, i32>) -> Map<u32, i32> {
        if self is Sd {
            mem.insert(
                self.address(read_reg(regs, self.source1())),
                read_reg(regs, self.source2()),
            )
        } else {
            mem
        }
    }

    /// The value the instruction produces when it reads its operands from
    /// the register file `regs`.
    pub open spec fn value(self, regs: Seq<i32>, mem: Map<u32, i32>) -> i32 {
        self.result(read_reg(regs, self.source1()), read_reg(regs, self.source2()), mem)
    }

    /// The register file after the instruction, executed on `regs`.
    pub open spec fn write_back(self, regs: Seq<i32>, mem: Map<u32, i32>) -> Seq<i32> {
        match self.dest() {
            Some(rd) => regs.update(rd as int, self.value(regs, mem)),
            None => regs,
        }
    }

    /// What the instruction retires with, executed on `regs`.
    pub open spec fn retirement(self, regs: Seq<i32>, mem: Map<u32, i32>) -> Commit {
        Commit { dest: self.dest(), value: self.value(regs, mem) }
    }

    /// Checks the register indices.
    pub fn check(&self) -> (r: Result<(), CpuError>)
        ensures
            match self.fault() {
                Some(e) => r == Err::<(), CpuError>(e),
                None => r is Ok,
            },
    {
        match *self {
            Instruction::Add(op) | Instruction::Sub(op) | Instruction::Mul(op) | Instruction::Div(
                op,
            ) => {
                if op.target < REGISTER_COUNT && op.operand1 < REGISTER_COUNT && op.operand2
                    < REGISTER_COUNT {
                    Ok(())
                } else {
                    Err(CpuError::InvalidRegisterIndex)
                }
            },
            Instruction::Ld(r1, r2, _) | Instruction::Sd(r1, r2, _) | Instruction::Jump(r1, r2) => {
                if r1 < REGISTER_COUNT && r2 < REGISTER_COUNT {
                    Ok(())
                } else {
                    Err(CpuError::InvalidRegisterIndex)
                }
            },
            Instruction::Invalid => Err(CpuError::InvalidInstruction),
        }
    }
}

/// Base plus offset, modulo 2^32.
pub fn address_of(base: i32, imm: u32) -> (addr: u32)
    ensures
        addr == effective_address(base, imm),
{
    let sum: i64 = base as i64 + imm as i64;
    if sum < 0 {
        (sum + 0x1_0000_0000) as u32
    } else if sum >= 0x1_0000_0000 {
        (sum - 0x1_0000_0000) as u32
    } else {
        sum as u32
    }
}

/// The value that `inst` produces from its operand values `a` and `b`,
/// with memory as `mem`.
pub fn evaluate(inst: Instruction, a: i32, b: i32, mem: &Memory) -> (v: i32)
    ensures
        v == inst.result(a, b, mem@),
{
    match inst {
        Instruction::Add(_) => match a.checked_add(b) {
            Some(v) => v,
            None => 0,
        },
        Instruction::Sub(_) => match a.checked_sub(b) {
            Some(v) => v,
            None => 0,
        },
        Instruction::Mul(_) => match a.checked_mul(b) {
            Some(v) => v,
            None => 0,
        },
        Instruction::Div(_) => match a.checked_div(b) {
            Some(v) => v,
            None => 0,
        },
        Instruction::Ld(_, _, imm) => mem.read(address_of(a, imm)),
        Instruction::Sd(_, _, _) => b,
        _ => 0,
    }
}

} // verus!
