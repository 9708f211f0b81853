//! The out-of-order processor: reservation stations, execution units, a
//! reorder buffer and the bus that ties them together.

use std::collections::VecDeque;
use vstd::prelude::*;

use super::pipeline::{
    blank_station, capture, idle_unit, is_store, retirable, value_or_zero, Pipeline,
};
use super::progress::{
    lemma_commit_settled, lemma_dispatch_settled, lemma_equipped_same, lemma_initial_equipped,
    lemma_issue_settled, lemma_progress, lemma_step_settled, lemma_step_work,
    lemma_write_result_settled,
};
use super::search::{lemma_first_where, lemma_first_where_is};
use super::sound::{
    lemma_add_exec_unit_wf, lemma_add_rob_wf, lemma_add_rs_wf, lemma_commit_wf,
    lemma_committable_head, lemma_committable_retire, lemma_dispatch_one_wf,
    lemma_dispatch_upto_wf, lemma_empty_wf, lemma_in_flight, lemma_issue_wf, lemma_retire_wf,
    lemma_step_wf, lemma_tick_unit_wf, lemma_tick_upto_wf, lemma_wf_frame, lemma_wf_renames,
};
use super::{
    address_of, evaluate, Commit, Cpu, CpuError, Instruction, Memory, REGISTER_COUNT,
};
use crate::trace::dump_registers;

verus! {

pub const ADD_CYCLES: usize = 2;

pub const SUB_CYCLES: usize = 2;

pub const MUL_CYCLES: usize = 12;

pub const DIV_CYCLES: usize = 24;

pub const LOAD_CYCLES: usize = 2;

pub const STORE_CYCLES: usize = 2;

pub const JUMP_CYCLES: usize = 1;

/// Instructions issued per cycle by `run`.
pub const ISSUE_WIDTH: usize = 8;

/// Names the result of one instruction in flight. Tags are handed out in
/// rising order and never reused, so a tag outlives the reorder-buffer slot
/// it was given to without ever naming another instruction.
#[derive(Clone, Copy, PartialEq, Eq, Structural, Debug)]
pub struct Tag {
    pub id: u64,
}

/// Class of functional unit.
#[derive(Clone, Copy, PartialEq, Eq, Structural, Debug)]
pub enum ResStationType {
    AddSub,
    MulDiv,
    LoadStore,
    JUMP,
}

impl ResStationType {
    /// The class that executes `item`.
    pub open spec fn of(item: Instruction) -> ResStationType {
        match item {
            Instruction::Add(_) | Instruction::Sub(_) => ResStationType::AddSub,
            Instruction::Mul(_) | Instruction::Div(_) => ResStationType::MulDiv,
            Instruction::Ld(_, _, _) | Instruction::Sd(_, _, _) => ResStationType::LoadStore,
            _ => ResStationType::JUMP,
        }
    }

    /// The class that executes `item`.
    pub fn from(item: Instruction) -> (t: ResStationType)
        requires
            !(item is Invalid),
        ensures
            t == Self::of(item),
    {
        match item {
            Instruction::Add(_) | Instruction::Sub(_) => ResStationType::AddSub,
            Instruction::Mul(_) | Instruction::Div(_) => ResStationType::MulDiv,
            Instruction::Ld(_, _, _) | Instruction::Sd(_, _, _) => ResStationType::LoadStore,
            _ => ResStationType::JUMP,
        }
    }
}

/// Cycles an execution unit spends on `inst`.
pub open spec fn latency(inst: Instruction) -> usize {
    match inst {
        Instruction::Add(_) => ADD_CYCLES,
        Instruction::Sub(_) => SUB_CYCLES,
        Instruction::Mul(_) => MUL_CYCLES,
        Instruction::Div(_) => DIV_CYCLES,
        Instruction::Ld(_, _, _) => LOAD_CYCLES,
        Instruction::Sd(_, _, _) => STORE_CYCLES,
        _ => JUMP_CYCLES,
    }
}

/// Cycles an execution unit spends on `inst`.
pub fn cycles_of(inst: Instruction) -> (c: usize)
    ensures
        c == latency(inst),
{
    match inst {
        Instruction::Add(_) => ADD_CYCLES,
        Instruction::Sub(_) => SUB_CYCLES,
        Instruction::Mul(_) => MUL_CYCLES,
        Instruction::Div(_) => DIV_CYCLES,
        Instruction::Ld(_, _, _) => LOAD_CYCLES,
        Instruction::Sd(_, _, _) => STORE_CYCLES,
        _ => JUMP_CYCLES,
    }
}

/// The value in `v`, and 0 where there is none.
fn known(v: Option<i32>) -> (x: i32)
    ensures
        x == value_or_zero(v),
{
    match v {
        Some(x) => x,
        None => 0,
    }
}

/// What a reservation station holds of its instruction.
#[derive(Clone, Copy, PartialEq, Eq, Structural, Debug)]
pub struct ResStationInner {
    /// Offset of a load or store while it waits, its address once computed.
    pub address: Option<u32>,
    pub inst: Option<Instruction>,
    /// Qj: the tag the first operand waits for.
    pub rs_index: Option<Tag>,
    /// Qk: the tag the second operand waits for.
    pub rt_index: Option<Tag>,
    /// Vj: the first operand, once known.
    pub rs_value: Option<i32>,
    /// Vk: the second operand, once known.
    pub rt_value: Option<i32>,
    /// Tag of the reorder-buffer entry that takes the result.
    pub dest: Option<Tag>,
}

/// A reservation station.
#[derive(Clone, Copy, PartialEq, Eq, Structural, Debug)]
pub struct ReservedStation {
    pub rs_type: ResStationType,
    pub busy: bool,
    /// Set while an execution unit works on the station.
    pub dispatched: bool,
    pub inner: ResStationInner,
}

/// What a reorder-buffer entry holds of its instruction.
#[derive(Clone, Copy, PartialEq, Eq, Structural, Debug)]
pub struct ROBInner {
    pub inst: Option<Instruction>,
    /// Register the result goes to.
    pub dest: Option<usize>,
    /// The result, once computed. For a store, the value it stores.
    pub value: Option<i32>,
    /// The address that a load read or a store writes, once computed.
    pub address: Option<u32>,
}

/// An entry of the reorder buffer.
#[derive(Clone, Copy, PartialEq, Eq, Structural, Debug)]
pub struct ReorderBuffer {
    pub busy: bool,
    pub ready: bool,
    pub index: Tag,
    pub inner: ROBInner,
}

impl ReorderBuffer {
    /// An entry that holds no instruction.
    pub open spec fn fresh(tag: Tag) -> ReorderBuffer {
        ReorderBuffer {
            busy: false,
            ready: false,
            index: tag,
            inner: ROBInner { inst: None, dest: None, value: None, address: None },
        }
    }

    /// An entry that holds no instruction, named `tag`.
    pub fn init(tag: Tag) -> (rob: Self)
        ensures
            rob == Self::fresh(tag),
    {
        Self {
            busy: false,
            ready: false,
            index: tag,
            inner: ROBInner { inst: None, dest: None, value: None, address: None },
        }
    }
}

/// Renaming state of one register.
#[derive(Clone, Copy, PartialEq, Eq, Structural, Debug)]
pub struct RegisterStatus {
    pub busy: bool,
    /// Tag of the newest instruction in flight that writes the register.
    pub reorder: Option<Tag>,
}

/// An execution unit.
#[derive(Clone, Copy, PartialEq, Eq, Structural, Debug)]
pub struct ExecUint {
    pub busy: bool,
    pub rs_type: ResStationType,
    /// Cycles left.
    pub cycles: usize,
    /// The station the unit works on.
    pub rs_index: usize,
}

/// The out-of-order processor.
pub struct TomasuloCpu {
    done: bool,
    cycles: usize,
    reg_stat: Vec<RegisterStatus>,
    regs: [i32; 32],
    instruction_queue: VecDeque<Instruction>,
    rs: Vec<ReservedStation>,
    rob: Vec<ReorderBuffer>,
    exec_units: Vec<ExecUint>,
    memory: Memory,
    next_tag: u64,
    commits: Vec<Commit>,
    trace: Vec<String>,
}

impl View for TomasuloCpu {
    type V = Pipeline;

    closed spec fn view(&self) -> Pipeline {
        Pipeline {
            done: self.done,
            cycles: self.cycles as nat,
            reg_stat: self.reg_stat@,
            regs: self.regs@,
            queue: self.instruction_queue@,
            rs: self.rs@,
            rob: self.rob@,
            exec_units: self.exec_units@,
            memory: self.memory@,
            next_tag: self.next_tag as nat,
            commits: self.commits@,
            trace: self.trace.deep_view(),
        }
    }
}

impl TomasuloCpu {
    /// The processor with its pools, registers at zero, memory empty and
    /// nothing queued.
    pub fn new() -> (cpu: Self)
        ensures
            cpu@ == Pipeline::initial(),
            cpu@.wf(),
            cpu@.equipped(),
    {
        proof {
            lemma_initial_equipped();
        }
        let mut reg_stat: Vec<RegisterStatus> = Vec::new();
        let mut i: usize = 0;
        while i < REGISTER_COUNT
            invariant
                i <= REGISTER_COUNT,
                reg_stat@ =~= Seq::new(
                    i as nat,
                    |k: int| RegisterStatus { busy: false, reorder: None },
                ),
            decreases REGISTER_COUNT - i,
        {
            reg_stat.push(RegisterStatus { busy: false, reorder: None });
            i += 1;
        }
        let mut cpu = Self {
            done: false,
            cycles: 0,
            reg_stat,
            regs: [0i32;32],
            instruction_queue: VecDeque::new(),
            rs: Vec::new(),
            rob: Vec::new(),
            exec_units: Vec::new(),
            memory: Memory::init(),
            next_tag: 0,
            commits: Vec::new(),
            trace: Vec::new(),
        };
        proof {
            assert(cpu@.regs =~= Pipeline::empty().regs);
            assert(cpu@.trace =~= Pipeline::empty().trace);
            assert(cpu@ == Pipeline::empty());
            lemma_empty_wf();
            lemma_in_flight(cpu@);
        }
        cpu.add_rs(ResStationType::AddSub, 3);
        cpu.add_rs(ResStationType::MulDiv, 2);
        cpu.add_rs(ResStationType::LoadStore, 3);
        cpu.add_rs(ResStationType::JUMP, 3);
        proof {
            assert(cpu@.rob == Pipeline::empty().rob);
        }
        cpu.add_rob(6);
        cpu.add_exec_unit(ResStationType::AddSub, 3);
        cpu.add_exec_unit(ResStationType::MulDiv, 2);
        cpu.add_exec_unit(ResStationType::LoadStore, 3);
        cpu.add_exec_unit(ResStationType::JUMP, 3);
        cpu
    }

    /// Sets a register, before a run.
    pub fn set_regs(&mut self, index: usize, number: i32)
        requires
            old(self)@.wf(),
            index < REGISTER_COUNT,
        ensures
            final(self)@ == (Pipeline {
                regs: old(self)@.regs.update(index as int, number),
                ..old(self)@
            }),
            final(self)@.wf(),
            final(self)@.settled() == old(self)@.settled(),
    {
        self.regs[index] = number;
        proof {
            lemma_wf_frame(old(self)@, self@);
        }
    }

    /// Whether a cycle found nothing queued and nothing in flight.
    pub fn done(&self) -> (d: bool)
        ensures
            d == self@.done,
    {
        self.done
    }

    /// Adds `count` stations of class `rs_type`.
    pub fn add_rs(&mut self, rs_type: ResStationType, count: usize)
        requires
            old(self)@.wf(),
            old(self)@.rs.len() + count <= usize::MAX,
        ensures
            final(self)@ == old(self)@.add_rs(rs_type, count as nat),
            final(self)@.wf(),
    {
        let ghost before = self@;
        let mut n: usize = 0;
        while n < count
            invariant
                n <= count,
                self@ == (Pipeline {
                    rs: before.rs + Seq::new(n as nat, |i: int| blank_station(rs_type)),
                    ..before
                }),
            decreases count - n,
        {
            self.rs.push(
                ReservedStation {
                    rs_type,
                    busy: false,
                    dispatched: false,
                    inner: ResStationInner {
                        address: None,
                        inst: None,
                        rs_index: None,
                        rs_value: None,
                        rt_index: None,
                        rt_value: None,
                        dest: None,
                    },
                },
            );
            n += 1;
            assert(self@.rs =~= before.rs + Seq::new(n as nat, |i: int| blank_station(rs_type)));
        }
        proof {
            lemma_add_rs_wf(before, rs_type, count as nat);
        }
    }

    /// Adds `count` entries to the reorder buffer.
    pub fn add_rob(&mut self, count: usize)
        requires
            old(self)@.wf(),
            old(self)@.next_tag + count + old(self)@.queue.len() + old(self)@.in_flight()
                <= u64::MAX,
        ensures
            final(self)@ == old(self)@.add_rob(count as nat),
            final(self)@.wf(),
            final(self)@.in_flight() == old(self)@.in_flight(),
    {
        let ghost before = self@;
        let mut n: usize = 0;
        proof {
            lemma_in_flight(before);
        }
        while n < count
            invariant
                n <= count,
                before.next_tag + count <= u64::MAX,
                self@ == (Pipeline {
                    rob: before.rob + Seq::new(
                        n as nat,
                        |i: int| ReorderBuffer::fresh(Tag { id: (before.next_tag + i) as u64 }),
                    ),
                    next_tag: before.next_tag + n as nat,
                    ..before
                }),
            decreases count - n,
        {
            self.rob.push(ReorderBuffer::init(Tag { id: self.next_tag }));
            self.next_tag = self.next_tag + 1;
            n += 1;
            assert(self@.rob =~= before.rob + Seq::new(
                n as nat,
                |i: int| ReorderBuffer::fresh(Tag { id: (before.next_tag + i) as u64 }),
            ));
        }
        proof {
            lemma_add_rob_wf(before, count as nat);
        }
    }

    /// Adds `count` execution units of class `rs_type`.
    pub fn add_exec_unit(&mut self, rs_type: ResStationType, count: usize)
        requires
            old(self)@.wf(),
        ensures
            final(self)@ == old(self)@.add_exec_unit(rs_type, count as nat),
            final(self)@.wf(),
    {
        let ghost before = self@;
        let mut n: usize = 0;
        while n < count
            invariant
                n <= count,
                self@ == (Pipeline {
                    exec_units: before.exec_units + Seq::new(
                        n as nat,
                        |i: int| idle_unit(rs_type),
                    ),
                    ..before
                }),
            decreases count - n,
        {
            self.exec_units.push(ExecUint { busy: false, rs_type, cycles: 0, rs_index: 0 });
            n += 1;
            assert(self@.exec_units =~= before.exec_units + Seq::new(
                n as nat,
                |i: int| idle_unit(rs_type),
            ));
        }
        proof {
            lemma_add_exec_unit_wf(before, rs_type, count as nat);
        }
    }

    /// Position in the reorder buffer of the entry named `addr`.
    fn find_reorder(&self, addr: Tag) -> (r: Option<usize>)
        requires
            self@.shape_ok(),
        ensures
            match r {
                Some(j) => j == self@.slot(addr) && j < self@.rob.len(),
                None => !(0 <= self@.slot(addr) < self@.rob.len()),
            },
    {
        let mut j: usize = 0;
        while j < self.rob.len()
            invariant
                j <= self.rob.len(),
                self@.shape_ok(),
                !(0 <= self@.slot(addr) < j),
            decreases self.rob.len() - j,
        {
            assert(self@.rob[j as int].index.id == self@.head_tag() + j);
            if self.rob[j].index == addr {
                return Some(j);
            }
            j += 1;
        }
        None
    }

    /// The first idle execution unit of class `rs_type`.
    #[verifier::loop_isolation(false)]
    fn find_empty_exec_unit(&self, rs_type: ResStationType) -> (r: Option<usize>)
        ensures
            match r {
                Some(u) => u == self@.free_unit(rs_type) && u < self@.exec_units.len(),
                None => self@.free_unit(rs_type) == self@.exec_units.len(),
            },
    {
        let ghost p = |u: ExecUint| !u.busy && u.rs_type == rs_type;
        let mut i: usize = 0;
        while i < self.exec_units.len()
            invariant
                i <= self.exec_units.len(),
                forall|k: int| 0 <= k < i ==> !p(#[trigger] self@.exec_units[k]),
            decreases self.exec_units.len() - i,
        {
            if !self.exec_units[i].busy && self.exec_units[i].rs_type == rs_type {
                proof {
                    lemma_first_where_is(self@.exec_units, p, 0, i as int);
                }
                return Some(i);
            }
            i += 1;
        }
        proof {
            lemma_first_where_is(self@.exec_units, p, 0, i as int);
        }
        None
    }

    /// Renames register `reg_index` into operand `op` (1 or 2) of station
    /// `rs`: the operand gets the register's value where nothing in flight
    /// writes it, the value of its newest producer where that is computed,
    /// and the producer's tag where it is not.
    fn issue_op(&mut self, reg_index: usize, rs: usize, op: usize)
        requires
            old(self)@.renames(),
            reg_index < REGISTER_COUNT,
            rs < old(self)@.rs.len(),
        ensures
            final(self)@ == old(self)@.issue_op(reg_index as int, rs as int, op as int),
            final(self)@.renames(),
    {
        proof {
            lemma_in_flight(self@);
            assert(self@.status_ok(reg_index as int));
        }
        if self.reg_stat[reg_index].busy {
            let reorder_addr = self.reg_stat[reg_index].reorder.unwrap();
            let reorder_index = self.find_reorder(reorder_addr).unwrap();
            if self.rob[reorder_index].ready {
                assert(self@.rob[reorder_index as int].inner.value is Some);
                let value = self.rob[reorder_index].inner.value.unwrap();
                if op == 1 {
                    self.rs[rs].inner.rs_value = Some(value);
                    self.rs[rs].inner.rs_index = None;
                } else if op == 2 {
                    self.rs[rs].inner.rt_value = Some(value);
                    self.rs[rs].inner.rt_index = None;
                }
            } else {
                if op == 1 {
                    self.rs[rs].inner.rs_value = None;
                    self.rs[rs].inner.rs_index = Some(reorder_addr);
                } else if op == 2 {
                    self.rs[rs].inner.rt_value = None;
                    self.rs[rs].inner.rt_index = Some(reorder_addr);
                }
            }
        } else {
            if op == 1 {
                self.rs[rs].inner.rs_value = Some(self.regs[reg_index]);
                self.rs[rs].inner.rs_index = None;
            } else if op == 2 {
                self.rs[rs].inner.rt_value = Some(self.regs[reg_index]);
                self.rs[rs].inner.rt_index = None;
            }
        }
        proof {
            let t = self@;
            let s = old(self)@;
            assert(t.rs =~= s.issue_op(reg_index as int, rs as int, op as int).rs);
            assert forall|r: int| 0 <= r < t.reg_stat.len() implies #[trigger] t.status_ok(r) by {
                assert(s.status_ok(r));
            }
        }
    }

    /// The first free station of class `rs_type` and the first free entry
    /// of the reorder buffer, where both exist.
    #[verifier::loop_isolation(false)]
    fn can_issue(&self, rs_type: ResStationType) -> (r: Option<(usize, usize)>)
        ensures
            match r {
                Some((i, j)) => self@.can_issue(rs_type) == Some((i as int, j as int)),
                None => self@.can_issue(rs_type) is None,
            },
    {
        let ghost p = |st: ReservedStation| !st.busy && st.rs_type == rs_type;
        let ghost q = |e: ReorderBuffer| !e.busy;
        let mut i: usize = 0;
        while i < self.rs.len()
            invariant
                i <= self.rs.len(),
                forall|k: int| 0 <= k < i ==> !p(#[trigger] self@.rs[k]),
            decreases self.rs.len() - i,
        {
            if !self.rs[i].busy && self.rs[i].rs_type == rs_type {
                proof {
                    lemma_first_where_is(self@.rs, p, 0, i as int);
                }
                let mut j: usize = 0;
                while j < self.rob.len()
                    invariant
                        j <= self.rob.len(),
                        forall|k: int| 0 <= k < j ==> !q(#[trigger] self@.rob[k]),
                    decreases self.rob.len() - j,
                {
                    if !self.rob[j].busy {
                        proof {
                            lemma_first_where_is(self@.rob, q, 0, j as int);
                        }
                        return Some((i, j));
                    }
                    j += 1;
                }
                proof {
                    lemma_first_where_is(self@.rob, q, 0, j as int);
                }
                return None;
            }
            i += 1;
        }
        proof {
            lemma_first_where_is(self@.rs, p, 0, i as int);
        }
        None
    }

    /// Whether the load in station `rs_index` may start: the station holds
    /// an instruction that no unit works on, its base register is known,
    /// and every store before the load has retired.
    #[verifier::loop_isolation(false)]
    pub fn load_can_exec(&self, rs_index: usize) -> (r: bool)
        requires
            self@.wf(),
            rs_index < self@.rs.len(),
        ensures
            r == (self@.rs[rs_index as int].inner.rs_index is None
                && self@.rs[rs_index as int].busy && !self@.rs[rs_index as int].dispatched
                && self@.first_store() >= self@.slot(self@.rs[rs_index as int].inner.dest->0)),
    {
        if self.rs[rs_index].inner.rs_index.is_none() && self.rs[rs_index].busy
            && !self.rs[rs_index].dispatched {
            proof {
                lemma_in_flight(self@);
                assert(self@.station_ok(rs_index as int));
                lemma_first_where(self@.rob, |e: ReorderBuffer| is_store(e), 0);
            }
            let dest = self.rs[rs_index].inner.dest.unwrap();
            let rob_index = self.find_reorder(dest).unwrap();
            let mut j: usize = 0;
            while j < rob_index
                invariant
                    j <= rob_index,
                    rob_index < self@.rob.len(),
                    forall|k: int| 0 <= k < j ==> !is_store(#[trigger] self@.rob[k]),
                decreases rob_index - j,
            {
                let store = self.rob[j].busy && match self.rob[j].inner.inst {
                    Some(Instruction::Sd(_, _, _)) => true,
                    _ => false,
                };
                if store {
                    proof {
                        lemma_first_where(self@.rob, |e: ReorderBuffer| is_store(e), 0);
                    }
                    return false;
                }
                j += 1;
            }
            proof {
                lemma_first_where(self@.rob, |e: ReorderBuffer| is_store(e), 0);
            }
            true
        } else {
            false
        }
    }

    /// One attempt to issue the head of the queue. It leaves the queue for
    /// a station and a reorder-buffer entry where both are free. It stays
    /// where one is missing, and where it cannot be decoded or names a
    /// register out of range, which is an error.
    pub fn issue(&mut self) -> (r: Result<bool, CpuError>)
        requires
            old(self)@.wf(),
        ensures
            final(self)@ == old(self)@.issue(),
            final(self)@.wf(),
            old(self)@.settled() ==> final(self)@.settled(),
            match r {
                Ok(issued) => issued == old(self)@.issues() && (!issued ==> old(self)@.refused()
                    is None),
                Err(e) => !old(self)@.issues() && old(self)@.refused() == Some(e),
            },
    {
        proof {
            if self@.settled() {
                lemma_issue_settled(self@);
            }
        }
        if self.instruction_queue.len() == 0 {
            return Ok(false);
        }
        let inst = self.instruction_queue[0];
        match inst.check() {
            Err(e) => {
                return Err(e);
            },
            Ok(_) => {},
        }
        let rs_type = ResStationType::from(inst);
        match self.can_issue(rs_type) {
            None => Ok(false),
            Some((rs, rob)) => {
                proof {
                    lemma_in_flight(self@);
                    lemma_first_where(
                        self@.rs,
                        |st: ReservedStation| !st.busy && st.rs_type == rs_type,
                        0,
                    );
                    lemma_issue_wf(self@);
                }
                let _ = self.instruction_queue.pop_front();
                proof {
                    lemma_wf_frame(old(self)@, self@);
                    lemma_wf_renames(self@);
                }
                let dest: Option<usize>;
                let address: Option<u32>;
                match inst {
                    Instruction::Add(op) | Instruction::Sub(op) | Instruction::Mul(op)
                    | Instruction::Div(op) => {
                        self.issue_op(op.operand1, rs, 1);
                        self.issue_op(op.operand2, rs, 2);
                        dest = Some(op.target);
                        address = None;
                    },
                    Instruction::Ld(reg1, reg2, imm) => {
                        self.issue_op(reg2, rs, 1);
                        self.rs[rs].inner.rt_index = None;
                        self.rs[rs].inner.rt_value = None;
                        dest = Some(reg1);
                        address = Some(imm);
                    },
                    Instruction::Sd(reg1, reg2, imm) => {
                        self.issue_op(reg2, rs, 1);
                        self.issue_op(reg1, rs, 2);
                        dest = None;
                        address = Some(imm);
                    },
                    Instruction::Jump(r1, r2) => {
                        self.issue_op(r1, rs, 1);
                        self.issue_op(r2, rs, 2);
                        dest = None;
                        address = None;
                    },
                    Instruction::Invalid => {
                        dest = None;
                        address = None;
                    },
                }
                let tag = self.rob[rob].index;
                self.rs[rs].inner.inst = Some(inst);
                self.rs[rs].inner.address = address;
                self.rs[rs].inner.dest = Some(tag);
                self.rs[rs].busy = true;
                self.rs[rs].dispatched = false;
                match dest {
                    Some(rd) => {
                        self.reg_stat[rd].reorder = Some(tag);
                        self.reg_stat[rd].busy = true;
                    },
                    None => {},
                }
                self.rob[rob].inner.dest = dest;
                self.rob[rob].inner.inst = Some(inst);
                self.rob[rob].inner.value = None;
                self.rob[rob].inner.address = None;
                self.rob[rob].busy = true;
                self.rob[rob].ready = false;
                proof {
                    let t = self@;
                    let want = old(self)@.issue();
                    assert(t.rs =~= want.rs);
                    assert(t.rob =~= want.rob);
                    assert(t.reg_stat =~= want.reg_stat);
                    assert(t.queue =~= want.queue);
                }
                Ok(true)
            },
        }
    }

    /// Station `rs_index`, which may start and holds `inst`, claims the
    /// first idle unit of its class, if there is one.
    fn claim_unit(&mut self, rs_index: usize, inst: Instruction)
        requires
            old(self)@.wf(),
            rs_index < old(self)@.rs.len(),
            old(self)@.may_start(rs_index as int),
            old(self)@.rs[rs_index as int].inner.inst == Some(inst),
        ensures
            final(self)@ == old(self)@.dispatch_one(rs_index as int),
    {
        proof {
            lemma_in_flight(self@);
            assert(self@.station_ok(rs_index as int));
            assert(self@.entry_ok(self@.slot(self@.rs[rs_index as int].inner.dest->0)));
        }
        let rs_type = ResStationType::from(inst);
        if let Some(exec_unit_index) = self.find_empty_exec_unit(rs_type) {
            self.rs[rs_index].dispatched = true;
            self.exec_units[exec_unit_index].busy = true;
            self.exec_units[exec_unit_index].cycles = cycles_of(inst);
            self.exec_units[exec_unit_index].rs_index = rs_index;
            proof {
                let want = old(self)@.dispatch_one(rs_index as int);
                lemma_first_where(
                    old(self)@.exec_units,
                    |u: ExecUint| !u.busy && u.rs_type == rs_type,
                    0,
                );
                assert(self@.rs =~= want.rs);
                assert(self@.exec_units =~= want.exec_units);
            }
        }
    }

    /// The dispatch phase: every station that may start, in rising order,
    /// claims an idle unit of its class if there is one. A load may start
    /// once every store before it has retired.
    pub fn execute(&mut self)
        requires
            old(self)@.wf(),
        ensures
            final(self)@ == old(self)@.dispatch(),
            final(self)@.wf(),
            old(self)@.settled() ==> final(self)@.settled(),
    {
        proof {
            if self@.settled() {
                lemma_dispatch_settled(self@);
            }
        }
        let n = self.rs.len();
        let mut rs_index: usize = 0;
        while rs_index < n
            invariant
                rs_index <= n,
                n == self@.rs.len(),
                n == old(self)@.rs.len(),
                old(self)@.wf(),
                self@ == old(self)@.dispatch_upto(rs_index as nat),
                self@.wf(),
            decreases n - rs_index,
        {
            let ghost before = self@;
            proof {
                lemma_dispatch_one_wf(before, rs_index as int);
                lemma_dispatch_upto_wf(old(self)@, (rs_index + 1) as nat);
                if before.rs[rs_index as int].busy {
                    assert(before.station_ok(rs_index as int));
                }
            }
            match self.rs[rs_index].rs_type {
                ResStationType::AddSub | ResStationType::MulDiv | ResStationType::JUMP => {
                    if self.rs[rs_index].inner.rs_index.is_none()
                        && self.rs[rs_index].inner.rt_index.is_none() && self.rs[rs_index].busy
                        && !self.rs[rs_index].dispatched {
                        let inst = self.rs[rs_index].inner.inst.unwrap();
                        self.claim_unit(rs_index, inst);
                    }
                },
                ResStationType::LoadStore => {
                    if let Some(inst) = self.rs[rs_index].inner.inst {
                        match inst {
                            Instruction::Ld(_, _, _) => {
                                if self.load_can_exec(rs_index) {
                                    self.claim_unit(rs_index, inst);
                                }
                            },
                            Instruction::Sd(_, _, _) => {
                                if self.rs[rs_index].inner.rs_index.is_none()
                                    && self.rs[rs_index].inner.rt_index.is_none()
                                    && self.rs[rs_index].busy && !self.rs[rs_index].dispatched {
                                    self.claim_unit(rs_index, inst);
                                }
                            },
                            _ => {},
                        }
                    }
                },
            }
            assert(self@ == before.dispatch_one(rs_index as int));
            rs_index += 1;
        }
    }

    /// Unit `i` finishes: the result of its station goes out on the bus.
    /// Every station that waits for the tag takes the value, the
    /// reorder-buffer entry of the tag becomes ready, and station and unit
    /// are freed.
    fn complete(&mut self, i: usize)
        requires
            old(self)@.wf(),
            i < old(self)@.exec_units.len(),
            old(self)@.exec_units[i as int].busy,
        ensures
            final(self)@ == old(self)@.complete(i as int),
    {
        let ghost before = self@;
        proof {
            lemma_in_flight(before);
            assert(before.unit_ok(i as int));
            assert(before.station_ok(before.exec_units[i as int].rs_index as int));
        }
        let rs_index = self.exec_units[i].rs_index;
        let inst = self.rs[rs_index].inner.inst.unwrap();
        let a = known(self.rs[rs_index].inner.rs_value);
        let b = known(self.rs[rs_index].inner.rt_value);
        let res = evaluate(inst, a, b, &self.memory);
        let reached = match inst {
            Instruction::Ld(_, _, imm) | Instruction::Sd(_, _, imm) => Some(address_of(a, imm)),
            _ => None,
        };
        if reached.is_some() {
            self.rs[rs_index].inner.address = reached;
        }
        self.rs[rs_index].busy = false;
        self.rs[rs_index].dispatched = false;
        let dest = self.rs[rs_index].inner.dest.unwrap();
        let rob_index = self.find_reorder(dest).unwrap();
        let ghost heard = self@.rs;
        let n = self.rs.len();
        let mut k: usize = 0;
        while k < n
            invariant
                k <= n,
                n == self.rs.len(),
                n == heard.len(),
                forall|m: int| 0 <= m < k ==> #[trigger] self.rs@[m] == capture(heard[m], dest, res),
                forall|m: int| k <= m < n ==> #[trigger] self.rs@[m] == heard[m],
                self.exec_units == old(self).exec_units,
                self.rob == old(self).rob,
                self.reg_stat == old(self).reg_stat,
                self.regs == old(self).regs,
                self.instruction_queue == old(self).instruction_queue,
                self.memory == old(self).memory,
                self.commits == old(self).commits,
                self.trace == old(self).trace,
                self.done == old(self).done,
                self.cycles == old(self).cycles,
                self.next_tag == old(self).next_tag,
            decreases n - k,
        {
            let first = match self.rs[k].inner.rs_index {
                Some(t) => t == dest,
                None => false,
            };
            if first {
                self.rs[k].inner.rs_value = Some(res);
                self.rs[k].inner.rs_index = None;
            }
            let second = match self.rs[k].inner.rt_index {
                Some(t) => t == dest,
                None => false,
            };
            if second {
                self.rs[k].inner.rt_value = Some(res);
                self.rs[k].inner.rt_index = None;
            }
            k += 1;
        }
        self.rob[rob_index].ready = true;
        self.rob[rob_index].inner.value = Some(res);
        self.rob[rob_index].inner.address = reached;
        self.exec_units[i].busy = false;
        self.exec_units[i].cycles = 0;
        proof {
            let want = before.complete(i as int);
            assert(self@.rs =~= want.rs);
            assert(self@.rob =~= want.rob);
            assert(self@.exec_units =~= want.exec_units);
        }
    }

    /// The broadcast phase: every busy unit counts down one cycle, and one
    /// that reaches zero puts its result on the bus.
    pub fn write_result(&mut self)
        requires
            old(self)@.wf(),
        ensures
            final(self)@ == old(self)@.write_result(),
            final(self)@.wf(),
            old(self)@.settled() ==> final(self)@.settled(),
    {
        proof {
            if self@.settled() {
                lemma_write_result_settled(self@);
            }
        }
        let n = self.exec_units.len();
        let mut i: usize = 0;
        while i < n
            invariant
                i <= n,
                n == self@.exec_units.len(),
                n == old(self)@.exec_units.len(),
                old(self)@.wf(),
                self@ == old(self)@.tick_upto(i as nat),
                self@.wf(),
            decreases n - i,
        {
            let ghost before = self@;
            proof {
                lemma_tick_unit_wf(before, i as int);
                lemma_tick_upto_wf(old(self)@, (i + 1) as nat);
            }
            if self.exec_units[i].busy {
                if self.exec_units[i].cycles > 1 {
                    self.exec_units[i].cycles -= 1;
                    assert(self@.exec_units =~= before.tick_unit(i as int).exec_units);
                } else {
                    self.complete(i);
                }
            }
            assert(self@ == before.tick_unit(i as int));
            i += 1;
        }
    }

    /// Whether the head of the reorder buffer can retire: it is ready, and
    /// no store to an address that is not a multiple of four.
    fn head_retirable(&self) -> (r: bool)
        requires
            self@.rob.len() >= 1,
        ensures
            r == retirable(self@.rob[0]),
    {
        let head = self.rob[0];
        let jam = match head.inner.inst {
            Some(Instruction::Sd(_, _, _)) => match head.inner.address {
                Some(a) => a % 4 != 0,
                None => false,
            },
            _ => false,
        };
        head.ready && head.busy && !jam
    }

    /// The head of the reorder buffer retires.
    fn retire(&mut self)
        requires
            old(self)@.wf(),
            old(self)@.rob.len() >= 1,
            retirable(old(self)@.rob[0]),
        ensures
            final(self)@ == old(self)@.retire(),
    {
        proof {
            lemma_in_flight(self@);
            assert(self@.entry_ok(0));
        }
        let head = self.rob[0];
        let value = known(head.inner.value);
        match head.inner.dest {
            Some(dest) => {
                let owns = match self.reg_stat[dest].reorder {
                    Some(t) => t == head.index,
                    None => false,
                };
                if owns && self.reg_stat[dest].busy {
                    self.regs[dest] = value;
                    self.reg_stat[dest].busy = false;
                    self.reg_stat[dest].reorder = None;
                }
            },
            None => {},
        }
        match head.inner.inst {
            Some(Instruction::Sd(_, _, _)) => {
                let addr = match head.inner.address {
                    Some(a) => a,
                    None => 0,
                };
                self.memory.write(addr, value);
            },
            _ => {},
        }
        let _ = self.rob.remove(0);
        self.rob.push(ReorderBuffer::init(Tag { id: self.next_tag }));
        self.next_tag = self.next_tag + 1;
        self.commits.push(Commit { dest: head.inner.dest, value });
        self.trace.push(dump_registers(&self.regs));
        proof {
            let want = old(self)@.retire();
            assert(self@.trace =~= want.trace);
            assert(self@.rob =~= want.rob);
            assert(self@.reg_stat =~= want.reg_stat);
            assert(self@.regs =~= want.regs);
        }
    }

    /// The commit phase. A processor with nothing queued and nothing in
    /// flight is marked done. Otherwise the entries at the head of the
    /// reorder buffer retire, in order, for as long as the head is ready. A
    /// store writes memory when it retires; one whose address is not a
    /// multiple of four does not retire, and holds back what follows it.
    pub fn commit(&mut self)
        requires
            old(self)@.wf(),
            old(self)@.rob.len() >= 1,
        ensures
            final(self)@ == old(self)@.commit(),
            final(self)@.wf(),
            old(self)@.settled() ==> final(self)@.settled(),
    {
        proof {
            lemma_commit_wf(self@);
            if self@.settled() {
                lemma_commit_settled(self@);
            }
        }
        if self.instruction_queue.len() == 0 && !self.rob[0].busy {
            self.done = true;
        } else {
            proof {
                lemma_committable_head(self@);
            }
            while self.head_retirable()
                invariant
                    self@.wf(),
                    self@.rob.len() >= 1,
                    self@.retire_n(self@.committable() as nat) == old(self)@.commit(),
                    self@.committable() >= 0,
                decreases self@.committable(),
            {
                proof {
                    lemma_committable_retire(self@);
                    lemma_retire_wf(self@);
                    lemma_committable_head(self@.retire());
                }
                self.retire();
            }
            proof {
                lemma_committable_head(self@);
            }
        }
    }

    /// One cycle: broadcast, commit, up to `issue_nums` issues that end
    /// with the first that fails, and dispatch. The cycle reports a store
    /// at the head of the reorder buffer that cannot retire, or else an
    /// instruction at the head of the queue that cannot be issued; either
    /// stays where it is.
    pub fn mult_issue(&mut self, issue_nums: usize) -> (r: Result<(), CpuError>)
        requires
            old(self)@.wf(),
            old(self)@.rob.len() >= 1,
            old(self)@.cycles < usize::MAX,
        ensures
            final(self)@ == old(self)@.step(issue_nums as nat),
            final(self)@.wf(),
            final(self)@.same_pools(old(self)@),
            old(self)@.settled() ==> final(self)@.settled(),
            match r {
                Ok(_) => old(self)@.step_error(issue_nums as nat) is None,
                Err(e) => old(self)@.step_error(issue_nums as nat) == Some(e),
            },
    {
        proof {
            lemma_step_wf(self@, issue_nums as nat);
            if self@.settled() {
                lemma_step_settled(self@, issue_nums as nat);
            }
        }
        self.write_result();
        self.commit();
        self.cycles += 1;
        let ghost mid = self@;
        assert(mid == old(self)@.retired());
        let jam = self.rob[0].busy && self.rob[0].ready && !self.head_retirable();
        let mut left = issue_nums;
        let mut stop = false;
        let mut result: Result<(), CpuError> = Ok(());
        while left > 0 && !stop
            invariant
                self@.wf(),
                mid.issue_n(issue_nums as nat) == (if stop {
                    self@
                } else {
                    self@.issue_n(left as nat)
                }),
                mid.issue_error(issue_nums as nat) == (if stop {
                    match result {
                        Ok(_) => None,
                        Err(e) => Some(e),
                    }
                } else {
                    self@.issue_error(left as nat)
                }),
                !stop ==> result is Ok,
            decreases left + (if stop { 0int } else { 1int }),
        {
            match self.issue() {
                Ok(true) => {
                    left -= 1;
                },
                Ok(false) => {
                    stop = true;
                },
                Err(e) => {
                    result = Err(e);
                    stop = true;
                },
            }
        }
        self.execute();
        if jam {
            Err(CpuError::MisalignedAccess)
        } else {
            result
        }
    }

    /// The value of register `index`.
    pub fn reg(&self, index: usize) -> (v: i32)
        requires
            index < REGISTER_COUNT,
        ensures
            v == self@.regs[index as int],
    {
        self.regs[index]
    }

    /// Number of cycles run.
    pub fn cycles(&self) -> (c: usize)
        ensures
            c == self@.cycles,
    {
        self.cycles
    }

    /// Every instruction retired so far, in the order of retirement.
    pub fn commits(&self) -> (log: &Vec<Commit>)
        ensures
            log@ == self@.commits,
    {
        &self.commits
    }

    /// The lines traced so far.
    pub fn trace_lines(&self) -> (lines: &Vec<String>)
        ensures
            lines.deep_view() == self@.trace,
    {
        &self.trace
    }

    /// The reservation stations.
    pub fn stations(&self) -> (rs: &Vec<ReservedStation>)
        ensures
            rs@ == self@.rs,
    {
        &self.rs
    }

    /// The reorder buffer, oldest entry first.
    pub fn reorder_buffer(&self) -> (rob: &Vec<ReorderBuffer>)
        ensures
            rob@ == self@.rob,
    {
        &self.rob
    }

    /// The execution units.
    pub fn units(&self) -> (units: &Vec<ExecUint>)
        ensures
            units@ == self@.exec_units,
    {
        &self.exec_units
    }

    /// The renaming table.
    pub fn register_status(&self) -> (table: &Vec<RegisterStatus>)
        ensures
            table@ == self@.reg_stat,
    {
        &self.reg_stat
    }

    /// Number of instructions not yet issued.
    pub fn queue_len(&self) -> (n: usize)
        ensures
            n == self@.queue.len(),
    {
        self.instruction_queue.len()
    }
}

impl Cpu for TomasuloCpu {
    open spec fn inv(&self) -> bool {
        self@.wf() && self@.settled()
    }

    open spec fn queued(&self) -> Seq<Instruction> {
        self@.queue
    }

    open spec fn stored(&self) -> Map<u32, i32> {
        self@.memory
    }

    open spec fn traced(&self) -> Seq<Seq<char>> {
        self@.trace
    }

    /// Every instruction takes a tag, and tags are not reused.
    open spec fn room(&self) -> nat {
        if self@.next_tag + self@.queue.len() + self@.in_flight() <= u64::MAX {
            (u64::MAX - self@.next_tag - self@.queue.len() - self@.in_flight()) as nat
        } else {
            0
        }
    }

    /// The processor has a reorder buffer and a station and a unit of every
    /// class, and the count of cycles can grow by the work left.
    open spec fn can_run(&self) -> bool {
        self@.equipped() && self@.cycles + self@.work() <= usize::MAX
    }

    /// Runs cycles, each with up to `ISSUE_WIDTH` issues, until the
    /// processor is done. A store to an address that is not a multiple of
    /// four ends the run with `MisalignedAccess` when it is due to retire.
    /// An instruction that cannot be issued ends the run with its error
    /// once everything before it has retired; it stays at the head of the
    /// queue.
    fn run(&mut self) -> (r: Result<(), CpuError>)
        ensures
            final(self)@ == old(self)@.run(),
            final(self)@.same_pools(old(self)@),
            match r {
                Ok(_) => old(self)@.run_error() is None && final(self)@.done,
                Err(e) => old(self)@.run_error() == Some(e),
            },
    {
        while !self.done
            invariant
                self@.wf(),
                self@.settled(),
                self@.equipped(),
                self@.cycles + self@.work() <= usize::MAX,
                self@.run() == old(self)@.run(),
                self@.run_error() == old(self)@.run_error(),
                self@.same_pools(old(self)@),
            decreases self@.work(),
        {
            let ghost before = self@;
            proof {
                lemma_step_work(before, ISSUE_WIDTH as nat);
                if !before.halts() {
                    lemma_progress(before, ISSUE_WIDTH as nat);
                }
            }
            match self.mult_issue(ISSUE_WIDTH) {
                Ok(_) => {},
                Err(e) => {
                    let jam = match e {
                        CpuError::MisalignedAccess => true,
                        _ => false,
                    };
                    if jam || !self.rob[0].busy {
                        return Err(e);
                    }
                },
            }
            proof {
                lemma_equipped_same(before, self@);
                assert(self@.same_pools(old(self)@)) by {
                    assert forall|i: int| 0 <= i < self@.rs.len() implies (#[trigger] self@.rs[i]).rs_type
                        == old(self)@.rs[i].rs_type by {
                        assert(before.rs[i].rs_type == old(self)@.rs[i].rs_type);
                    }
                    assert forall|u: int| 0 <= u < self@.exec_units.len() implies (
                    #[trigger] self@.exec_units[u]).rs_type == old(self)@.exec_units[u].rs_type by {
                        assert(before.exec_units[u].rs_type == old(self)@.exec_units[u].rs_type);
                    }
                }
            }
        }
        Ok(())
    }

    /// Queues an instruction behind those already queued. A processor that
    /// was done is done no longer.
    fn add_inst(&mut self, inst: Instruction)
        ensures
            final(self)@ == (Pipeline {
                queue: old(self)@.queue.push(inst),
                done: false,
                ..old(self)@
            }),
    {
        proof {
            lemma_in_flight(self@);
        }
        self.instruction_queue.push_back(inst);
        self.done = false;
        proof {
            lemma_wf_frame(old(self)@, self@);
        }
    }

    fn trace(&mut self, s: String)
        ensures
            final(self)@ == (Pipeline { trace: old(self)@.trace.push(s@), ..old(self)@ }),
    {
        proof {
            lemma_in_flight(self@);
        }
        self.trace.push(s);
        proof {
            assert(self@.trace =~= old(self)@.trace.push(s@));
            lemma_wf_frame(old(self)@, self@);
        }
    }

    fn write_memory(&mut self, addr: u32, val: i32)
        ensures
            final(self)@ == (Pipeline {
                memory: old(self)@.memory.insert(addr, val),
                ..old(self)@
            }),
    {
        proof {
            lemma_in_flight(self@);
        }
        self.memory.write(addr, val);
        proof {
            lemma_wf_frame(old(self)@, self@);
        }
    }
}

} // verus!
