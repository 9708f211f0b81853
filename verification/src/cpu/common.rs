//! The in-order processor: one instruction after the other, each finished
//! before the next begins.

use std::collections::VecDeque;
use vstd::prelude::*;

use super::{
    address_of, evaluate, in_order, Commit, Cpu, CpuError, Instruction, Memory, REGISTER_COUNT,
};
use crate::trace::{dump_registers, register_dump};

verus! {

pub const ADD_CYCLES: usize = 2;

pub const SUB_CYCLES: usize = 2;

pub const MUL_CYCLES: usize = 12;

pub const DIV_CYCLES: usize = 24;

pub const LOAD_CYCLES: usize = 2;

pub const JUMP_CYCLES: usize = 1;

/// Cycles that the in-order processor counts for `inst`. A store counts
/// for none.
pub open spec fn cost(inst: Instruction) -> nat {
    match inst {
        Instruction::Add(_) => ADD_CYCLES as nat,
        Instruction::Sub(_) => SUB_CYCLES as nat,
        Instruction::Mul(_) => MUL_CYCLES as nat,
        Instruction::Div(_) => DIV_CYCLES as nat,
        Instruction::Ld(_, _, _) => LOAD_CYCLES as nat,
        Instruction::Jump(_, _) => JUMP_CYCLES as nat,
        _ => 0,
    }
}

/// State of the in-order processor.
pub struct Sequential {
    pub regs: Seq<i32>,
    /// Instructions not yet executed, oldest first.
    pub queue: Seq<Instruction>,
    pub memory: Map<u32, i32>,
    pub cycles: nat,
    /// Every instruction executed so far, in order.
    pub commits: Seq<Commit>,
    /// The lines traced so far.
    pub trace: Seq<Seq<char>>,
}

impl Sequential {
    /// Registers at zero, memory empty, nothing queued.
    pub open spec fn initial() -> Sequential {
        Sequential {
            regs: Seq::new(REGISTER_COUNT as nat, |i: int| 0i32),
            queue: Seq::empty(),
            memory: Map::empty(),
            cycles: 0,
            commits: Seq::empty(),
            trace: Seq::empty(),
        }
    }

    /// Why the head of the queue cannot be executed, if it cannot: its
    /// registers are out of range, or it is a store to an address that is
    /// not a multiple of four.
    pub open spec fn stuck(self) -> Option<CpuError> {
        self.queue[0].stuck(self.regs)
    }

    /// The state after the head of the queue was executed: its result is in
    /// its register, a store has written memory, the cycles are counted,
    /// and the register file is traced.
    pub open spec fn execute(self) -> Sequential {
        let inst = self.queue[0];
        let regs = inst.write_back(self.regs, self.memory);
        Sequential {
            regs,
            queue: self.queue.drop_first(),
            memory: inst.store(self.regs, self.memory),
            cycles: self.cycles + cost(inst),
            commits: self.commits.push(inst.retirement(self.regs, self.memory)),
            trace: self.trace.push(register_dump(regs)),
        }
    }

    /// The state in which `run` leaves the processor: the instructions are
    /// executed in order up to the first that cannot be.
    pub open spec fn run(self) -> Sequential
        decreases self.queue.len(),
    {
        if self.queue.len() == 0 || self.stuck() is Some {
            self
        } else {
            self.execute().run()
        }
    }

    /// The error that ends `run`, if one does.
    pub open spec fn run_error(self) -> Option<CpuError>
        decreases self.queue.len(),
    {
        if self.queue.len() == 0 {
            None
        } else if self.stuck() is Some {
            self.stuck()
        } else {
            self.execute().run_error()
        }
    }

    /// Thirty-two registers.
    pub open spec fn wf(self) -> bool {
        self.regs.len() == REGISTER_COUNT
    }
}

/// The in-order processor.
pub struct SingleCycleCpu {
    regs: [i32; 32],
    instruction_queue: VecDeque<Instruction>,
    memory: Memory,
    cycles: usize,
    commits: Vec<Commit>,
    trace: Vec<String>,
}

impl View for SingleCycleCpu {
    type V = Sequential;

    closed spec fn view(&self) -> Sequential {
        Sequential {
            regs: self.regs@,
            queue: self.instruction_queue@,
            memory: self.memory@,
            cycles: self.cycles as nat,
            commits: self.commits@,
            trace: self.trace.deep_view(),
        }
    }
}

/// Cycles that the in-order processor counts for `inst`.
fn cycles_of(inst: Instruction) -> (c: usize)
    ensures
        c == cost(inst),
        c <= DIV_CYCLES,
{
    match inst {
        Instruction::Add(_) => ADD_CYCLES,
        Instruction::Sub(_) => SUB_CYCLES,
        Instruction::Mul(_) => MUL_CYCLES,
        Instruction::Div(_) => DIV_CYCLES,
        Instruction::Ld(_, _, _) => LOAD_CYCLES,
        Instruction::Jump(_, _) => JUMP_CYCLES,
        _ => 0,
    }
}

impl SingleCycleCpu {
    /// The processor with registers at zero, memory empty and nothing
    /// queued.
    pub fn new() -> (cpu: Self)
        ensures
            cpu@ == Sequential::initial(),
    {
        let cpu = Self {
            regs: [0i32;32],
            instruction_queue: VecDeque::new(),
            memory: Memory::init(),
            cycles: 0,
            commits: Vec::new(),
            trace: Vec::new(),
        };
        proof {
            assert(cpu@.regs =~= Sequential::initial().regs);
            assert(cpu@.trace =~= Sequential::initial().trace);
        }
        cpu
    }

    /// Sets a register.
    pub fn set_regs(&mut self, index: usize, number: i32)
        requires
            index < REGISTER_COUNT,
        ensures
            final(self)@ == (Sequential {
                regs: old(self)@.regs.update(index as int, number),
                ..old(self)@
            }),
    {
        self.regs[index] = number;
    }

    /// The value of register `index`.
    pub fn reg(&self, index: usize) -> (v: i32)
        requires
            index < REGISTER_COUNT,
        ensures
            v == self@.regs[index as int],
    {
        self.regs[index]
    }

    /// Number of cycles counted.
    pub fn cycles(&self) -> (c: usize)
        ensures
            c == self@.cycles,
    {
        self.cycles
    }

    /// Every instruction executed so far, in order.
    pub fn commits(&self) -> (log: &Vec<Commit>)
        ensures
            log@ == self@.commits,
    {
        &self.commits
    }

    /// The lines traced so far.
    pub fn trace_lines(&self) -> (lines: &Vec<String>)
        ensures
            lines.deep_view() == self@.trace,
    {
        &self.trace
    }

    /// Executes the instruction at the head of the queue, unless it cannot
    /// be executed.
    fn step(&mut self) -> (r: Result<(), CpuError>)
        requires
            old(self)@.queue.len() > 0,
            old(self)@.cycles + DIV_CYCLES <= usize::MAX,
        ensures
            match r {
                Ok(_) => old(self)@.stuck() is None && final(self)@ == old(self)@.execute(),
                Err(e) => old(self)@.stuck() == Some(e) && final(self)@ == old(self)@,
            },
    {
        let inst = self.instruction_queue[0];
        match inst.check() {
            Err(e) => {
                return Err(e);
            },
            Ok(_) => {},
        }
        let ghost before = self@;
        let mut value: i32 = 0;
        match inst {
            Instruction::Add(operand) | Instruction::Sub(operand) | Instruction::Mul(operand)
            | Instruction::Div(operand) => {
                value =
                evaluate(inst, self.regs[operand.operand1], self.regs[operand.operand2], &self.memory);
                self.regs[operand.target] = value;
            },
            Instruction::Ld(reg1, reg2, _) => {
                value = evaluate(inst, self.regs[reg2], 0, &self.memory);
                self.regs[reg1] = value;
            },
            Instruction::Sd(reg1, reg2, imm) => {
                let addr = address_of(self.regs[reg2], imm);
                if addr % 4 != 0 {
                    return Err(CpuError::MisalignedAccess);
                }
                value = self.regs[reg1];
                self.memory.write(addr, value);
            },
            _ => {},
        }
        self.cycles += cycles_of(inst);
        let _ = self.instruction_queue.pop_front();
        self.commits.push(Commit { dest: dest_of(inst), value });
        self.trace.push(dump_registers(&self.regs));
        proof {
            let want = before.execute();
            assert(self@.regs =~= want.regs);
            assert(self@.queue =~= want.queue);
            assert(self@.commits =~= want.commits);
            assert(self@.trace =~= want.trace);
        }
        Ok(())
    }
}

/// The register that receives the result of `inst`.
fn dest_of(inst: Instruction) -> (d: Option<usize>)
    ensures
        d == inst.dest(),
{
    match inst {
        Instruction::Add(op) | Instruction::Sub(op) | Instruction::Mul(op) | Instruction::Div(
            op,
        ) => Some(op.target),
        Instruction::Ld(rd, _, _) => Some(rd),
        _ => None,
    }
}

impl Cpu for SingleCycleCpu {
    open spec fn inv(&self) -> bool {
        self@.wf()
    }

    open spec fn queued(&self) -> Seq<Instruction> {
        self@.queue
    }

    open spec fn stored(&self) -> Map<u32, i32> {
        self@.memory
    }

    open spec fn traced(&self) -> Seq<Seq<char>> {
        self@.trace
    }

    open spec fn room(&self) -> nat {
        if self@.queue.len() <= usize::MAX {
            (usize::MAX - self@.queue.len()) as nat
        } else {
            0
        }
    }

    /// The count of cycles can grow by the most that the queue can cost.
    open spec fn can_run(&self) -> bool {
        self@.cycles + DIV_CYCLES * self@.queue.len() <= usize::MAX
    }

    /// Executes the queued instructions in order. An instruction that
    /// cannot be executed stays at the head of the queue, and ends the run
    /// with its error.
    fn run(&mut self) -> (r: Result<(), CpuError>)
        ensures
            final(self)@ == old(self)@.run(),
            match r {
                Ok(_) => old(self)@.run_error() is None,
                Err(e) => old(self)@.run_error() == Some(e),
            },
    {
        while self.instruction_queue.len() > 0
            invariant
                self@.wf(),
                self@.cycles + DIV_CYCLES * self@.queue.len() <= usize::MAX,
                self@.run() == old(self)@.run(),
                self@.run_error() == old(self)@.run_error(),
            decreases self@.queue.len(),
        {
            match self.step() {
                Ok(_) => {},
                Err(e) => {
                    return Err(e);
                },
            }
        }
        Ok(())
    }

    fn add_inst(&mut self, inst: Instruction)
        ensures
            final(self)@ == (Sequential { queue: old(self)@.queue.push(inst), ..old(self)@ }),
    {
        self.instruction_queue.push_back(inst);
    }

    fn trace(&mut self, s: String)
        ensures
            final(self)@ == (Sequential { trace: old(self)@.trace.push(s@), ..old(self)@ }),
    {
        self.trace.push(s);
        proof {
            assert(self@.trace =~= old(self)@.trace.push(s@));
        }
    }

    fn write_memory(&mut self, addr: u32, val: i32)
        ensures
            final(self)@ == (Sequential {
                memory: old(self)@.memory.insert(addr, val),
                ..old(self)@
            }),
    {
        self.memory.write(addr, val);
    }
}

/// The in-order processor ends as an in-order execution of its queue ends:
/// with the same retirements after those it had, the same registers, the
/// same memory and the same error, if any.
pub proof fn lemma_run_in_order(s: Sequential)
    requires
        s.wf(),
    ensures
        s.run_error() == in_order(s.regs, s.memory, s.queue).error,
        s.run().memory == in_order(s.regs, s.memory, s.queue).memory,
        s.run().commits == s.commits + in_order(s.regs, s.memory, s.queue).commits,
        s.run().regs == in_order(s.regs, s.memory, s.queue).regs,
    decreases s.queue.len(),
{
    if s.queue.len() > 0 && s.stuck() is None {
        let inst = s.queue[0];
        let t = s.execute();
        assert(inst.fault() is None);
        lemma_run_in_order(t);
        assert(s.commits.push(inst.retirement(s.regs, s.memory)) + in_order(
            t.regs,
            t.memory,
            t.queue,
        ).commits =~= s.commits + in_order(s.regs, s.memory, s.queue).commits);
    } else {
        assert(s.commits + in_order(s.regs, s.memory, s.queue).commits =~= s.commits);
    }
}

} // verus!
