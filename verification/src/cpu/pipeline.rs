//! The out-of-order processor as a state machine over sequences and maps:
//! what each phase of a cycle does to the state.

use vstd::prelude::*;

use super::search::first_where;
use super::tomasulo::{
    latency, ExecUint, ROBInner, RegisterStatus, ReorderBuffer, ResStationInner, ResStationType,
    ReservedStation, Tag,
};
use super::{effective_address, Commit, CpuError, Instruction, REGISTER_COUNT};
use crate::trace::register_dump;

verus! {

/// State of the processor.
pub struct Pipeline {
    /// Set once a cycle found nothing queued and nothing in flight.
    pub done: bool,
    pub cycles: nat,
    pub reg_stat: Seq<RegisterStatus>,
    pub regs: Seq<i32>,
    /// Instructions not yet issued, oldest first.
    pub queue: Seq<Instruction>,
    pub rs: Seq<ReservedStation>,
    /// Reorder buffer, oldest entry first.
    pub rob: Seq<ReorderBuffer>,
    pub exec_units: Seq<ExecUint>,
    pub memory: Map<u32, i32>,
    /// The tag that the next new reorder-buffer entry gets.
    pub next_tag: nat,
    /// Every instruction retired so far, in the order of retirement.
    pub commits: Seq<Commit>,
    /// The lines traced so far.
    pub trace: Seq<Seq<char>>,
}

/// The operand of a station: the tag it waits for, or its value.
pub struct Source {
    pub tag: Option<Tag>,
    pub value: Option<i32>,
}

/// The value in `v`, and 0 where there is none.
pub open spec fn value_or_zero(v: Option<i32>) -> i32 {
    match v {
        Some(x) => x,
        None => 0,
    }
}

/// The offset of a load or store.
pub open spec fn offset_of(inst: Instruction) -> Option<u32> {
    match inst {
        Instruction::Ld(_, _, imm) | Instruction::Sd(_, _, imm) => Some(imm),
        _ => None,
    }
}

/// The address in `a`, and 0 where there is none.
pub open spec fn address_or_zero(a: Option<u32>) -> u32 {
    match a {
        Some(x) => x,
        None => 0,
    }
}

/// A station holds an instruction that no unit works on and waits for no
/// tag.
pub open spec fn eligible(st: ReservedStation) -> bool {
    st.busy && !st.dispatched && st.inner.rs_index is None && st.inner.rt_index is None
}

/// The entry holds a store.
pub open spec fn is_store(e: ReorderBuffer) -> bool {
    e.busy && e.inner.inst is Some && e.inner.inst->0 is Sd
}

/// The entry holds a store whose address is not a multiple of four.
pub open spec fn misaligned(e: ReorderBuffer) -> bool {
    is_store(e) && address_or_zero(e.inner.address) % 4 != 0
}

/// The entry can retire: it is ready, and no store to an address that is
/// not a multiple of four.
pub open spec fn retirable(e: ReorderBuffer) -> bool {
    e.busy && e.ready && !misaligned(e)
}

/// The station after hearing `tag` with `value` on the bus.
pub open spec fn capture(st: ReservedStation, tag: Tag, value: i32) -> ReservedStation {
    let first = st.inner.rs_index == Some(tag);
    let second = st.inner.rt_index == Some(tag);
    ReservedStation {
        inner: ResStationInner {
            rs_index: if first {
                None
            } else {
                st.inner.rs_index
            },
            rs_value: if first {
                Some(value)
            } else {
                st.inner.rs_value
            },
            rt_index: if second {
                None
            } else {
                st.inner.rt_index
            },
            rt_value: if second {
                Some(value)
            } else {
                st.inner.rt_value
            },
            ..st.inner
        },
        ..st
    }
}

/// A station that holds nothing.
pub open spec fn blank_station(t: ResStationType) -> ReservedStation {
    ReservedStation {
        rs_type: t,
        busy: false,
        dispatched: false,
        inner: ResStationInner {
            address: None,
            inst: None,
            rs_index: None,
            rt_index: None,
            rs_value: None,
            rt_value: None,
            dest: None,
        },
    }
}

/// A unit that works on nothing.
pub open spec fn idle_unit(t: ResStationType) -> ExecUint {
    ExecUint { busy: false, rs_type: t, cycles: 0, rs_index: 0 }
}

impl Pipeline {
    /// A processor without stations, units or reorder buffer: registers at
    /// zero, memory empty, nothing queued.
    pub open spec fn empty() -> Pipeline {
        Pipeline {
            done: false,
            cycles: 0,
            reg_stat: Seq::new(
                REGISTER_COUNT as nat,
                |i: int| RegisterStatus { busy: false, reorder: None },
            ),
            regs: Seq::new(REGISTER_COUNT as nat, |i: int| 0i32),
            queue: Seq::empty(),
            rs: Seq::empty(),
            rob: Seq::empty(),
            exec_units: Seq::empty(),
            memory: Map::empty(),
            next_tag: 0,
            commits: Seq::empty(),
            trace: Seq::empty(),
        }
    }

    /// With `count` more stations of class `t`.
    pub open spec fn add_rs(self, t: ResStationType, count: nat) -> Pipeline {
        Pipeline { rs: self.rs + Seq::new(count, |i: int| blank_station(t)), ..self }
    }

    /// With `count` more reorder-buffer entries, each with a new tag.
    pub open spec fn add_rob(self, count: nat) -> Pipeline {
        Pipeline {
            rob: self.rob + Seq::new(
                count,
                |i: int| ReorderBuffer::fresh(Tag { id: (self.next_tag + i) as u64 }),
            ),
            next_tag: self.next_tag + count,
            ..self
        }
    }

    /// With `count` more execution units of class `t`.
    pub open spec fn add_exec_unit(self, t: ResStationType, count: nat) -> Pipeline {
        Pipeline { exec_units: self.exec_units + Seq::new(count, |i: int| idle_unit(t)), ..self }
    }

    /// The processor as it is built: three stations and units for addition
    /// and subtraction, two for multiplication and division, three for
    /// memory, three for jumps, and six reorder-buffer entries.
    pub open spec fn initial() -> Pipeline {
        Pipeline::empty().add_rs(ResStationType::AddSub, 3).add_rs(ResStationType::MulDiv, 2).add_rs(
            ResStationType::LoadStore,
            3,
        ).add_rs(ResStationType::JUMP, 3).add_rob(6).add_exec_unit(
            ResStationType::AddSub,
            3,
        ).add_exec_unit(ResStationType::MulDiv, 2).add_exec_unit(
            ResStationType::LoadStore,
            3,
        ).add_exec_unit(ResStationType::JUMP, 3)
    }

    /// The tag of the oldest entry of the reorder buffer, where tags rise
    /// by one from entry to entry.
    pub open spec fn head_tag(self) -> int {
        self.next_tag - self.rob.len()
    }

    /// Position in the reorder buffer of the entry named `tag`.
    pub open spec fn slot(self, tag: Tag) -> int {
        tag.id - self.head_tag()
    }

    /// Index of the first free station of class `t`; the number of stations
    /// where there is none.
    pub open spec fn free_station(self, t: ResStationType) -> int {
        first_where(self.rs, |st: ReservedStation| !st.busy && st.rs_type == t, 0)
    }

    /// Index of the first free reorder-buffer entry; the length of the
    /// buffer where there is none.
    pub open spec fn free_slot(self) -> int {
        first_where(self.rob, |e: ReorderBuffer| !e.busy, 0)
    }

    /// Index of the first idle unit of class `t`; the number of units where
    /// there is none.
    pub open spec fn free_unit(self, t: ResStationType) -> int {
        first_where(self.exec_units, |u: ExecUint| !u.busy && u.rs_type == t, 0)
    }

    /// Number of leading reorder-buffer entries that can retire.
    pub open spec fn committable(self) -> int {
        first_where(self.rob, |e: ReorderBuffer| !retirable(e), 0)
    }

    /// Position in the reorder buffer of the oldest store in flight; the
    /// length of the buffer where there is none.
    pub open spec fn first_store(self) -> int {
        first_where(self.rob, |e: ReorderBuffer| is_store(e), 0)
    }

    /// Station `i` may start executing: it is eligible, and if it holds a
    /// load, every store before the load has retired, so that memory is as
    /// the load must see it.
    pub open spec fn may_start(self, i: int) -> bool {
        let st = self.rs[i];
        eligible(st) && (st.inner.inst is Some && st.inner.inst->0 is Ld ==> self.first_store()
            >= self.slot(st.inner.dest->0))
    }

    // ------------------------------------------------------------------
    // Issue
    // ------------------------------------------------------------------
    /// Register renaming: where the value of register `reg` comes from for
    /// an instruction issued now. A register nobody in flight writes is read
    /// from the register file. Otherwise its newest producer is asked: the
    /// value if it has one, its tag if not.
    pub open spec fn renamed(self, reg: int) -> Source {
        let st = self.reg_stat[reg];
        if st.busy {
            let producer = self.rob[self.slot(st.reorder->0)];
            if producer.ready {
                Source { tag: None, value: Some(value_or_zero(producer.inner.value)) }
            } else {
                Source { tag: st.reorder, value: None }
            }
        } else {
            Source { tag: None, value: Some(self.regs[reg]) }
        }
    }

    /// The state after register `reg` was renamed into operand `op` (1 or 2)
    /// of station `rs`.
    pub open spec fn issue_op(self, reg: int, rs: int, op: int) -> Pipeline {
        let src = self.renamed(reg);
        let st = self.rs[rs];
        if op == 1 {
            Pipeline {
                rs: self.rs.update(
                    rs,
                    ReservedStation {
                        inner: ResStationInner {
                            rs_index: src.tag,
                            rs_value: src.value,
                            ..st.inner
                        },
                        ..st
                    },
                ),
                ..self
            }
        } else if op == 2 {
            Pipeline {
                rs: self.rs.update(
                    rs,
                    ReservedStation {
                        inner: ResStationInner {
                            rt_index: src.tag,
                            rt_value: src.value,
                            ..st.inner
                        },
                        ..st
                    },
                ),
                ..self
            }
        } else {
            self
        }
    }

    /// Operand of an instruction issued now that reads `reg`, or nothing.
    pub open spec fn operand(self, reg: Option<usize>) -> Source {
        match reg {
            Some(r) => self.renamed(r as int),
            None => Source { tag: None, value: None },
        }
    }

    /// The station and the reorder-buffer entry for the instruction at the
    /// head of the queue, where both are free.
    pub open spec fn can_issue(self, t: ResStationType) -> Option<(int, int)> {
        if self.free_station(t) < self.rs.len() && self.free_slot() < self.rob.len() {
            Some((self.free_station(t), self.free_slot()))
        } else {
            None
        }
    }

    /// The head of the queue can be issued now.
    pub open spec fn issues(self) -> bool {
        &&& self.queue.len() > 0
        &&& self.queue[0].fault() is None
        &&& self.can_issue(ResStationType::of(self.queue[0])) is Some
    }

    /// The head of the queue is refused: the error.
    pub open spec fn refused(self) -> Option<CpuError> {
        if self.queue.len() > 0 {
            self.queue[0].fault()
        } else {
            None
        }
    }

    /// The state after `inst` was placed in station `i` and reorder-buffer
    /// entry `j`.
    pub open spec fn place(self, inst: Instruction, i: int, j: int) -> Pipeline {
        let tag = self.rob[j].index;
        let first = self.operand(inst.source1());
        let second = self.operand(inst.source2());
        let station = ReservedStation {
            rs_type: self.rs[i].rs_type,
            busy: true,
            dispatched: false,
            inner: ResStationInner {
                address: offset_of(inst),
                inst: Some(inst),
                rs_index: first.tag,
                rt_index: second.tag,
                rs_value: first.value,
                rt_value: second.value,
                dest: Some(tag),
            },
        };
        let entry = ReorderBuffer {
            busy: true,
            ready: false,
            index: tag,
            inner: ROBInner { inst: Some(inst), dest: inst.dest(), value: None, address: None },
        };
        Pipeline {
            rs: self.rs.update(i, station),
            rob: self.rob.update(j, entry),
            reg_stat: match inst.dest() {
                Some(rd) => self.reg_stat.update(
                    rd as int,
                    RegisterStatus { busy: true, reorder: Some(tag) },
                ),
                None => self.reg_stat,
            },
            ..self
        }
    }

    /// One attempt to issue. The head of the queue leaves it for a station
    /// and a reorder-buffer entry where both are free and the instruction
    /// is sound; otherwise nothing changes.
    pub open spec fn issue(self) -> Pipeline {
        if self.issues() {
            let inst = self.queue[0];
            let (i, j) = self.can_issue(ResStationType::of(inst))->0;
            Pipeline { queue: self.queue.drop_first(), ..self.place(inst, i, j) }
        } else {
            self
        }
    }

    /// Up to `k` attempts to issue, ending with the first that fails.
    pub open spec fn issue_n(self, k: nat) -> Pipeline
        decreases k,
    {
        if k == 0 || !self.issues() {
            self
        } else {
            self.issue().issue_n((k - 1) as nat)
        }
    }

    /// The error that ends up to `k` attempts to issue, if one does.
    pub open spec fn issue_error(self, k: nat) -> Option<CpuError>
        decreases k,
    {
        if k == 0 {
            None
        } else if self.issues() {
            self.issue().issue_error((k - 1) as nat)
        } else {
            self.refused()
        }
    }

    // ------------------------------------------------------------------
    // Dispatch
    // ------------------------------------------------------------------
    /// Station `i`, if it may start, claims the first idle unit of its
    /// class for as many cycles as its instruction takes. Without such a
    /// unit it stays as it is.
    pub open spec fn dispatch_one(self, i: int) -> Pipeline {
        let st = self.rs[i];
        let u = self.free_unit(st.rs_type);
        if self.may_start(i) && u < self.exec_units.len() {
            Pipeline {
                rs: self.rs.update(i, ReservedStation { dispatched: true, ..st }),
                exec_units: self.exec_units.update(
                    u,
                    ExecUint {
                        busy: true,
                        rs_type: st.rs_type,
                        cycles: latency(st.inner.inst->0),
                        rs_index: i as usize,
                    },
                ),
                ..self
            }
        } else {
            self
        }
    }

    /// Dispatch of the stations before index `n`, in rising order.
    pub open spec fn dispatch_upto(self, n: nat) -> Pipeline
        decreases n,
    {
        if n == 0 {
            self
        } else {
            self.dispatch_upto((n - 1) as nat).dispatch_one(n - 1)
        }
    }

    /// The dispatch phase of a cycle.
    pub open spec fn dispatch(self) -> Pipeline {
        self.dispatch_upto(self.rs.len())
    }

    // ------------------------------------------------------------------
    // Broadcast
    // ------------------------------------------------------------------
    /// The result that the station of unit `u` computes.
    pub open spec fn outcome(self, u: int) -> i32 {
        let st = self.rs[self.exec_units[u].rs_index as int];
        st.inner.inst->0.result(
            value_or_zero(st.inner.rs_value),
            value_or_zero(st.inner.rt_value),
            self.memory,
        )
    }

    /// The address that the station of unit `u` reaches, if it holds a
    /// load or a store.
    pub open spec fn reached(self, u: int) -> Option<u32> {
        let st = self.rs[self.exec_units[u].rs_index as int];
        match st.inner.inst->0 {
            Instruction::Ld(_, _, imm) | Instruction::Sd(_, _, imm) => Some(
                effective_address(value_or_zero(st.inner.rs_value), imm),
            ),
            _ => None,
        }
    }

    /// Unit `u` finishes: its station's result goes to every station that
    /// waits for the tag and to the reorder-buffer entry of that tag, which
    /// also takes the address of a load or store, and station and unit are
    /// freed.
    pub open spec fn complete(self, u: int) -> Pipeline {
        let unit = self.exec_units[u];
        let i = unit.rs_index as int;
        let st = self.rs[i];
        let res = self.outcome(u);
        let tag = st.inner.dest->0;
        let j = self.slot(tag);
        let freed = ReservedStation {
            busy: false,
            dispatched: false,
            inner: ResStationInner {
                address: match self.reached(u) {
                    Some(a) => Some(a),
                    None => st.inner.address,
                },
                ..st.inner
            },
            ..st
        };
        let heard = self.rs.update(i, freed);
        Pipeline {
            rs: Seq::new(heard.len(), |k: int| capture(heard[k], tag, res)),
            rob: self.rob.update(
                j,
                ReorderBuffer {
                    ready: true,
                    inner: ROBInner {
                        value: Some(res),
                        address: self.reached(u),
                        ..self.rob[j].inner
                    },
                    ..self.rob[j]
                },
            ),
            exec_units: self.exec_units.update(u, ExecUint { busy: false, cycles: 0, ..unit }),
            ..self
        }
    }

    /// One cycle of unit `u`: a busy unit counts down, and finishes when it
    /// reaches zero.
    pub open spec fn tick_unit(self, u: int) -> Pipeline {
        let unit = self.exec_units[u];
        if !unit.busy {
            self
        } else if unit.cycles > 1 {
            Pipeline {
                exec_units: self.exec_units.update(
                    u,
                    ExecUint { cycles: (unit.cycles - 1) as usize, ..unit },
                ),
                ..self
            }
        } else {
            self.complete(u)
        }
    }

    /// One cycle of the units before index `n`, in rising order.
    pub open spec fn tick_upto(self, n: nat) -> Pipeline
        decreases n,
    {
        if n == 0 {
            self
        } else {
            self.tick_upto((n - 1) as nat).tick_unit(n - 1)
        }
    }

    /// The broadcast phase of a cycle.
    pub open spec fn write_result(self) -> Pipeline {
        self.tick_upto(self.exec_units.len())
    }

    // ------------------------------------------------------------------
    // Commit
    // ------------------------------------------------------------------
    /// The head of the reorder buffer still owns its destination register:
    /// no younger instruction in flight writes it.
    pub open spec fn head_owns_dest(self) -> bool {
        let head = self.rob[0];
        &&& head.inner.dest is Some
        &&& self.reg_stat[head.inner.dest->0 as int].busy
        &&& self.reg_stat[head.inner.dest->0 as int].reorder == Some(head.index)
    }

    /// The head of the reorder buffer retires. Its value reaches the
    /// register file only if the head still owns the register; a store
    /// writes its value to memory. The entry leaves the buffer, and a free
    /// one with a new tag joins at the end. The register file as it then
    /// stands is traced.
    pub open spec fn retire(self) -> Pipeline {
        let head = self.rob[0];
        let value = value_or_zero(head.inner.value);
        let rd = head.inner.dest->0 as int;
        let regs = if self.head_owns_dest() {
            self.regs.update(rd, value)
        } else {
            self.regs
        };
        Pipeline {
            regs,
            memory: if is_store(head) {
                self.memory.insert(address_or_zero(head.inner.address), value)
            } else {
                self.memory
            },
            trace: self.trace.push(register_dump(regs)),
            reg_stat: if self.head_owns_dest() {
                self.reg_stat.update(rd, RegisterStatus { busy: false, reorder: None })
            } else {
                self.reg_stat
            },
            rob: self.rob.drop_first().push(
                ReorderBuffer::fresh(Tag { id: self.next_tag as u64 }),
            ),
            next_tag: self.next_tag + 1,
            commits: self.commits.push(Commit { dest: head.inner.dest, value }),
            ..self
        }
    }

    /// `n` retirements.
    pub open spec fn retire_n(self, n: nat) -> Pipeline
        decreases n,
    {
        if n == 0 {
            self
        } else {
            self.retire().retire_n((n - 1) as nat)
        }
    }

    /// Nothing is queued and nothing is in flight.
    pub open spec fn drained(self) -> bool {
        self.queue.len() == 0 && !self.rob[0].busy
    }

    /// The head of the reorder buffer is a store that is ready and cannot
    /// retire: its address is not a multiple of four.
    pub open spec fn jammed(self) -> bool {
        self.rob[0].busy && self.rob[0].ready && misaligned(self.rob[0])
    }

    /// The commit phase of a cycle: a drained processor is marked done;
    /// otherwise every leading entry that can retire retires.
    pub open spec fn commit(self) -> Pipeline {
        if self.drained() {
            Pipeline { done: true, ..self }
        } else {
            self.retire_n(self.committable() as nat)
        }
    }

    // ------------------------------------------------------------------
    // The cycle
    // ------------------------------------------------------------------
    /// The state after broadcast, commit and the count of the cycle.
    pub open spec fn retired(self) -> Pipeline {
        let s = self.write_result().commit();
        Pipeline { cycles: s.cycles + 1, ..s }
    }

    /// One cycle with up to `k` issues: broadcast, commit, issue, dispatch.
    pub open spec fn step(self, k: nat) -> Pipeline {
        self.retired().issue_n(k).dispatch()
    }

    /// The error that the cycle reports, if any: a store at the head of
    /// the reorder buffer that cannot retire, or else an instruction at the
    /// head of the queue that cannot be issued.
    pub open spec fn step_error(self, k: nat) -> Option<CpuError> {
        if self.retired().jammed() {
            Some(CpuError::MisalignedAccess)
        } else {
            self.retired().issue_error(k)
        }
    }
}

} // verus!
