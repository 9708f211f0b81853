//! Retirement in program order: what the processor retires, what it
//! writes to memory and what it leaves in the registers is what executing
//! the instructions one after the other gives.

use vstd::prelude::*;

use super::pipeline::{address_or_zero, is_store, retirable, value_or_zero, Pipeline};
use super::search::{lemma_first_where, lemma_first_where_same};
use super::sound::{
    lemma_commit_wf, lemma_committable_head, lemma_committable_retire, lemma_dispatch_upto_wf,
    lemma_in_flight, lemma_in_flight_frame, lemma_issue_wf, lemma_retire_wf,
    lemma_station_of_frame, lemma_step_wf, lemma_tick_upto_wf,
};
use super::tomasulo::{ExecUint, ResStationType, ReservedStation, Tag};
use super::{in_order, read_reg, Commit, CpuError, Outcome, REGISTER_COUNT};

verus! {

impl Pipeline {
    /// The value of an operand once it is known: its value, or the value
    /// that the older entry it waits for will retire with.
    pub open spec fn source_value(self, q: Option<Tag>, v: Option<i32>, j: int) -> i32
        decreases j, 1int,
    {
        match q {
            Some(t) => if 0 <= self.slot(t) < j {
                self.entry_value(self.slot(t))
            } else {
                0
            },
            None => value_or_zero(v),
        }
    }

    /// The value that entry `j` of the reorder buffer will retire with: the
    /// one it holds, or the one its station will compute.
    pub open spec fn entry_value(self, j: int) -> i32
        decreases j, 2int,
    {
        let e = self.rob[j];
        let i = self.station_of(e.index);
        if e.ready {
            value_or_zero(e.inner.value)
        } else if 0 <= i < self.rs.len() {
            let st = self.rs[i];
            st.inner.inst->0.result(
                self.source_value(st.inner.rs_index, st.inner.rs_value, j),
                self.source_value(st.inner.rt_index, st.inner.rt_value, j),
                self.mem_before(j),
            )
        } else {
            0
        }
    }

    /// The address that entry `j` of the reorder buffer will have reached
    /// when it retires, if it holds a load or a store.
    pub open spec fn entry_address(self, j: int) -> u32
        decreases j, 2int,
    {
        let e = self.rob[j];
        let i = self.station_of(e.index);
        if e.ready {
            address_or_zero(e.inner.address)
        } else if 0 <= i < self.rs.len() {
            let st = self.rs[i];
            st.inner.inst->0.address(self.source_value(st.inner.rs_index, st.inner.rs_value, j))
        } else {
            0
        }
    }

    /// The memory as it will be when entry `j` of the reorder buffer is
    /// the oldest: the stores before it have written.
    pub open spec fn mem_before(self, j: int) -> Map<u32, i32>
        decreases j, 0int,
    {
        if j <= 0 {
            self.memory
        } else if is_store(self.rob[j - 1]) {
            self.mem_before(j - 1).insert(self.entry_address(j - 1), self.entry_value(j - 1))
        } else {
            self.mem_before(j - 1)
        }
    }

    /// Entry `j` of the reorder buffer holds a store that will not be able
    /// to retire.
    pub open spec fn entry_stuck(self, j: int) -> bool {
        is_store(self.rob[j]) && self.entry_address(j) % 4 != 0
    }

    /// The value of register `r` as the next instruction to issue will see
    /// it: the value its newest producer will retire with, or the register
    /// file's where nothing in flight writes it.
    pub open spec fn logical_reg(self, r: int) -> i32 {
        if self.reg_stat[r].busy {
            self.entry_value(self.slot(self.reg_stat[r].reorder->0))
        } else {
            self.regs[r]
        }
    }

    /// The registers as the next instruction to issue will see them.
    pub open spec fn logical_regs(self) -> Seq<i32> {
        Seq::new(REGISTER_COUNT as nat, |r: int| self.logical_reg(r))
    }

    /// What entry `j` of the reorder buffer will retire with.
    pub open spec fn entry_commit(self, j: int) -> Commit {
        Commit { dest: self.rob[j].inner.dest, value: self.entry_value(j) }
    }

    /// How the processor is bound to end, from entry `j` of the reorder
    /// buffer on: the entries in flight retire in order up to a store that
    /// cannot, and after them the queue is executed in order on the
    /// registers and the memory that they leave.
    pub open spec fn flight(self, j: int) -> Outcome
        decreases self.in_flight() - j,
    {
        if j < 0 || j >= self.in_flight() {
            in_order(
                self.logical_regs(),
                self.mem_before(self.in_flight()),
                self.queue,
            ).observable()
        } else if self.entry_stuck(j) {
            Outcome {
                commits: Seq::empty(),
                regs: Seq::empty(),
                memory: self.mem_before(j),
                error: Some(CpuError::MisalignedAccess),
            }
        } else {
            self.flight(j + 1).after(self.entry_commit(j))
        }
    }

    /// How the processor is bound to end: with what it has retired and is
    /// bound to retire, and with the memory, the registers and the error
    /// that an in-order execution ends with.
    pub open spec fn destiny(self) -> Outcome {
        self.flight(0).after_all(self.commits)
    }

    /// The state has ended as `error` says.
    pub open spec fn ended(self, error: Option<CpuError>) -> Outcome {
        (Outcome { commits: self.commits, regs: self.regs, memory: self.memory, error }).observable()
    }
}

/// The memory that an entry will see is the memory that the entry before
/// it will see, with what that entry stores.
pub proof fn lemma_mem_step(s: Pipeline, j: int)
    requires
        j >= 0,
    ensures
        s.mem_before(j + 1) == if is_store(s.rob[j]) {
            s.mem_before(j).insert(s.entry_address(j), s.entry_value(j))
        } else {
            s.mem_before(j)
        },
{
    assert(j + 1 - 1 == j);
}

/// With no store before entry `k`, the memory that entry `k` will see is
/// the memory as it is.
pub proof fn lemma_mem_before_no_store(s: Pipeline, k: int)
    requires
        s.no_store_before(k),
    ensures
        s.mem_before(k) == s.memory,
    decreases k,
{
    if k > 0 {
        assert(!is_store(s.rob[k - 1]));
        lemma_mem_before_no_store(s, k - 1);
    }
}

/// What an entry is bound to retire with depends on the reorder buffer, on
/// the memory, and on what the stations hold, not on whether they are
/// dispatched.
pub proof fn lemma_value_frame(s: Pipeline, t: Pipeline, j: int)
    requires
        t.rob == s.rob,
        t.memory == s.memory,
        t.next_tag == s.next_tag,
        t.rs.len() == s.rs.len(),
        forall|i: int|
            0 <= i < s.rs.len() ==> (#[trigger] t.rs[i]).busy == s.rs[i].busy && t.rs[i].inner
                == s.rs[i].inner,
    ensures
        t.entry_value(j) == s.entry_value(j),
        t.entry_address(j) == s.entry_address(j),
        t.mem_before(j) == s.mem_before(j),
        t.mem_before(j + 1) == s.mem_before(j + 1),
    decreases j,
{
    if j > 0 {
        lemma_value_frame(s, t, j - 1);
    }
    if j >= 0 {
        lemma_mem_step(s, j);
        lemma_mem_step(t, j);
    }
    let e = s.rob[j];
    if !e.ready {
        lemma_first_where_same(
            s.rs,
            |x: ReservedStation| x.busy && x.inner.dest == Some(e.index),
            t.rs,
            |x: ReservedStation| x.busy && x.inner.dest == Some(e.index),
            0,
        );
        let i = s.station_of(e.index);
        if 0 <= i < s.rs.len() {
            let st = s.rs[i];
            assert(t.rs[i].inner == st.inner);
            if st.inner.rs_index is Some && 0 <= s.slot(st.inner.rs_index->0) < j {
                lemma_value_frame(s, t, s.slot(st.inner.rs_index->0));
            }
            if st.inner.rt_index is Some && 0 <= s.slot(st.inner.rt_index->0) < j {
                lemma_value_frame(s, t, s.slot(st.inner.rt_index->0));
            }
        }
    }
}

/// What the entries from `j` on are bound to retire with follows what each
/// is bound to retire with.
pub proof fn lemma_flight_same(s: Pipeline, t: Pipeline, j: int)
    requires
        t.in_flight() == s.in_flight(),
        t.queue == s.queue,
        t.logical_regs() == s.logical_regs(),
        t.mem_before(s.in_flight()) == s.mem_before(s.in_flight()),
        forall|k: int|
            0 <= k < s.in_flight() ==> is_store(#[trigger] t.rob[k]) == is_store(s.rob[k])
                && t.rob[k].inner.dest == s.rob[k].inner.dest,
        forall|k: int| 0 <= k < s.in_flight() ==> #[trigger] t.entry_value(k) == s.entry_value(k),
        forall|k: int|
            0 <= k < s.in_flight() ==> #[trigger] t.entry_address(k) == s.entry_address(k),
        forall|k: int| 0 <= k < s.in_flight() ==> #[trigger] t.mem_before(k) == s.mem_before(k),
    ensures
        t.flight(j) == s.flight(j),
    decreases s.in_flight() - j,
{
    if 0 <= j < s.in_flight() {
        assert(is_store(t.rob[j]) == is_store(s.rob[j]));
        assert(t.entry_address(j) == s.entry_address(j));
        assert(t.entry_value(j) == s.entry_value(j));
        assert(t.mem_before(j) == s.mem_before(j));
        lemma_flight_same(s, t, j + 1);
    }
}

/// How the processor is bound to end depends on nothing but the reorder
/// buffer, the stations' contents, the renaming table, the registers, the
/// memory, the queue and the record.
pub proof fn lemma_destiny_frame(s: Pipeline, t: Pipeline)
    requires
        t.rob == s.rob,
        t.memory == s.memory,
        t.next_tag == s.next_tag,
        t.rs.len() == s.rs.len(),
        forall|i: int|
            0 <= i < s.rs.len() ==> (#[trigger] t.rs[i]).busy == s.rs[i].busy && t.rs[i].inner
                == s.rs[i].inner,
        t.reg_stat == s.reg_stat,
        t.regs == s.regs,
        t.queue == s.queue,
        t.commits == s.commits,
    ensures
        t.destiny() == s.destiny(),
{
    assert forall|j: int|
        t.entry_value(j) == s.entry_value(j) && t.entry_address(j) == s.entry_address(j)
            && t.mem_before(j) == s.mem_before(j) by {
        lemma_value_frame(s, t, j);
    }
    assert(t.logical_regs() =~= s.logical_regs());
    lemma_flight_same(s, t, 0);
}

/// The station of a finishing unit computes what its entry was bound to
/// retire with, and reaches the address it was bound to reach.
pub proof fn lemma_outcome(s: Pipeline, u: int)
    requires
        s.wf(),
        0 <= u < s.exec_units.len(),
        s.exec_units[u].busy,
    ensures
        s.entry_value(s.slot(s.rs[s.exec_units[u].rs_index as int].inner.dest->0)) == s.outcome(u),
        s.entry_address(s.slot(s.rs[s.exec_units[u].rs_index as int].inner.dest->0))
            == address_or_zero(s.reached(u)),
{
    let i = s.exec_units[u].rs_index as int;
    assert(s.unit_ok(u));
    assert(s.station_ok(i));
    lemma_in_flight(s);
    let k = s.slot(s.rs[i].inner.dest->0);
    if s.rs[i].inner.inst->0 is Ld {
        lemma_mem_before_no_store(s, k);
    }
}

/// A unit that finishes changes nothing in what the entries are bound to
/// retire with.
pub proof fn lemma_complete_value(s: Pipeline, u: int, j: int)
    requires
        s.wf(),
        0 <= u < s.exec_units.len(),
        s.exec_units[u].busy,
        0 <= j < s.in_flight(),
    ensures
        s.complete(u).entry_value(j) == s.entry_value(j),
        s.complete(u).entry_address(j) == s.entry_address(j),
        s.complete(u).mem_before(j) == s.mem_before(j),
        s.complete(u).mem_before(j + 1) == s.mem_before(j + 1),
    decreases j,
{
    let t = s.complete(u);
    let i0 = s.exec_units[u].rs_index as int;
    let tag0 = s.rs[i0].inner.dest->0;
    let j0 = s.slot(tag0);
    assert(s.unit_ok(u));
    assert(s.station_ok(i0));
    lemma_in_flight(s);
    lemma_outcome(s, u);
    if j > 0 {
        lemma_complete_value(s, u, j - 1);
    }
    lemma_mem_step(s, j);
    lemma_mem_step(t, j);
    assert(is_store(t.rob[j]) == is_store(s.rob[j]));
    if j == j0 {
    } else if s.rob[j].ready {
    } else {
        let e = s.rob[j];
        assert(s.entry_ok(j));
        let i = s.station_of(e.index);
        lemma_first_where(s.rs, |x: ReservedStation| x.busy && x.inner.dest == Some(e.index), 0);
        assert(e.index != tag0);
        lemma_station_of_frame(s, t, i0, e.index);
        assert(s.station_ok(i));
        let st = s.rs[i];
        assert(s.slot(st.inner.dest->0) == j);
        if st.inner.rs_index is Some {
            lemma_complete_value(s, u, s.slot(st.inner.rs_index->0));
        }
        if st.inner.rt_index is Some {
            lemma_complete_value(s, u, s.slot(st.inner.rt_index->0));
        }
    }
}

/// A unit that finishes changes nothing in how the processor is bound to
/// end.
pub proof fn lemma_complete_destiny(s: Pipeline, u: int)
    requires
        s.wf(),
        0 <= u < s.exec_units.len(),
        s.exec_units[u].busy,
    ensures
        s.complete(u).destiny() == s.destiny(),
{
    let t = s.complete(u);
    let i0 = s.exec_units[u].rs_index as int;
    assert(s.unit_ok(u));
    assert(s.station_ok(i0));
    lemma_in_flight(s);
    lemma_in_flight_frame(s, t);
    assert forall|j: int| 0 <= j < s.in_flight() implies #[trigger] t.entry_value(j)
        == s.entry_value(j) by {
        lemma_complete_value(s, u, j);
    }
    assert forall|j: int| 0 <= j < s.in_flight() implies #[trigger] t.entry_address(j)
        == s.entry_address(j) by {
        lemma_complete_value(s, u, j);
    }
    assert forall|j: int| 0 <= j < s.in_flight() implies #[trigger] t.mem_before(j)
        == s.mem_before(j) by {
        lemma_complete_value(s, u, j);
    }
    assert forall|r: int| 0 <= r < REGISTER_COUNT implies t.logical_reg(r) == s.logical_reg(r) by {
        assert(s.status_ok(r));
    }
    assert(t.logical_regs() =~= s.logical_regs());
    if s.in_flight() > 0 {
        lemma_complete_value(s, u, s.in_flight() - 1);
    }
    lemma_flight_same(s, t, 0);
}

/// Issuing changes nothing in what the entries already in flight are bound
/// to retire with.
pub proof fn lemma_issue_value(s: Pipeline, j: int)
    requires
        s.wf(),
        s.issues(),
        0 <= j < s.in_flight(),
    ensures
        s.issue().entry_value(j) == s.entry_value(j),
        s.issue().entry_address(j) == s.entry_address(j),
        s.issue().mem_before(j) == s.mem_before(j),
        s.issue().mem_before(j + 1) == s.mem_before(j + 1),
    decreases j,
{
    let t = s.issue();
    let inst = s.queue[0];
    let class = ResStationType::of(inst);
    let i_new = s.free_station(class);
    let j_new = s.free_slot();
    lemma_in_flight(s);
    lemma_first_where(s.rs, |st: ReservedStation| !st.busy && st.rs_type == class, 0);
    if j > 0 {
        lemma_issue_value(s, j - 1);
    }
    lemma_mem_step(s, j);
    lemma_mem_step(t, j);
    let e = s.rob[j];
    assert(t.rob[j] == e);
    if !e.ready {
        assert(s.entry_ok(j));
        let i = s.station_of(e.index);
        lemma_first_where(s.rs, |x: ReservedStation| x.busy && x.inner.dest == Some(e.index), 0);
        assert(e.index != s.rob[j_new].index);
        lemma_station_of_frame(s, t, i_new, e.index);
        assert(s.station_ok(i));
        let st = s.rs[i];
        assert(s.slot(st.inner.dest->0) == j);
        if st.inner.rs_index is Some {
            lemma_issue_value(s, s.slot(st.inner.rs_index->0));
        }
        if st.inner.rt_index is Some {
            lemma_issue_value(s, s.slot(st.inner.rt_index->0));
        }
    }
}

/// The memory that the next entry of the reorder buffer will see is not
/// changed by an issue.
pub proof fn lemma_issue_memory(s: Pipeline)
    requires
        s.wf(),
        s.issues(),
    ensures
        s.issue().mem_before(s.in_flight()) == s.mem_before(s.in_flight()),
{
    lemma_in_flight(s);
    if s.in_flight() > 0 {
        lemma_issue_value(s, s.in_flight() - 1);
    }
}

/// The operand that renaming gives an instruction stands for the value of
/// the register as the instruction sees it.
pub proof fn lemma_operand_value(s: Pipeline, reg: Option<usize>)
    requires
        s.wf(),
        s.issues(),
        reg is Some ==> reg->0 < REGISTER_COUNT,
    ensures
        s.issue().source_value(s.operand(reg).tag, s.operand(reg).value, s.in_flight())
            == read_reg(s.logical_regs(), reg),
{
    lemma_in_flight(s);
    if reg is Some {
        let r = reg->0 as int;
        assert(s.status_ok(r));
        if s.reg_stat[r].busy {
            let p = s.slot(s.reg_stat[r].reorder->0);
            assert(s.entry_ok(p));
            lemma_issue_value(s, p);
        }
    }
}

/// The instruction that issues is bound to retire with the value it has
/// when executed on the registers and the memory as it sees them, and to
/// reach the address it then reaches.
pub proof fn lemma_issue_entry(s: Pipeline)
    requires
        s.wf(),
        s.issues(),
    ensures
        s.issue().entry_value(s.in_flight()) == s.queue[0].value(
            s.logical_regs(),
            s.mem_before(s.in_flight()),
        ),
        s.issue().entry_address(s.in_flight()) == s.queue[0].address(
            read_reg(s.logical_regs(), s.queue[0].source1()),
        ),
        s.issue().mem_before(s.in_flight() + 1) == s.queue[0].store(
            s.logical_regs(),
            s.mem_before(s.in_flight()),
        ),
        s.issue().entry_stuck(s.in_flight()) == (s.queue[0].stuck(s.logical_regs()) is Some),
{
    let t = s.issue();
    let inst = s.queue[0];
    let class = ResStationType::of(inst);
    let i_new = s.free_station(class);
    lemma_in_flight(s);
    lemma_issue_wf(s);
    lemma_in_flight(t);
    lemma_issue_memory(s);
    lemma_first_where(s.rs, |st: ReservedStation| !st.busy && st.rs_type == class, 0);
    assert(t.station_ok(i_new));
    lemma_operand_value(s, inst.source1());
    lemma_operand_value(s, inst.source2());
    lemma_mem_step(t, s.in_flight());
}

/// The instruction that issues is bound to end as it ends when executed
/// after everything before it, and leaves registers and memory to its
/// successors accordingly.
pub proof fn lemma_issue_destiny(s: Pipeline)
    requires
        s.wf(),
    ensures
        s.issue().destiny() == s.destiny(),
{
    if s.issues() {
        let t = s.issue();
        let inst = s.queue[0];
        let n = s.in_flight();
        let regs = s.logical_regs();
        let mem = s.mem_before(n);
        lemma_in_flight(s);
        lemma_issue_wf(s);
        lemma_in_flight(t);
        lemma_issue_entry(s);
        lemma_issue_memory(s);
        assert forall|j: int| 0 <= j < n implies t.entry_value(j) == s.entry_value(j)
            && t.entry_address(j) == s.entry_address(j) && t.mem_before(j) == s.mem_before(j) by {
            lemma_issue_value(s, j);
        }
        assert forall|r: int| 0 <= r < REGISTER_COUNT implies t.logical_reg(r) == inst.write_back(
            regs,
            mem,
        )[r] by {
            assert(s.status_ok(r));
        }
        assert(t.logical_regs() =~= inst.write_back(regs, mem));
        assert(t.entry_commit(n) == inst.retirement(regs, mem));
        assert(inst.fault() is None);
        // the new entry and what follows it end as the queue was bound to
        let rest = in_order(t.logical_regs(), t.mem_before(n + 1), t.queue);
        assert(t.flight(n + 1) == rest.observable());
        assert(rest.after(inst.retirement(regs, mem)).observable() == rest.observable().after(
            inst.retirement(regs, mem),
        ));
        assert(t.flight(n) == s.flight(n));
        lemma_issue_flight(s, 0);
    }
}

/// Issuing changes nothing in how the entries already in flight, and what
/// follows them, are bound to end.
pub proof fn lemma_issue_flight(s: Pipeline, j: int)
    requires
        s.wf(),
        s.issues(),
        0 <= j <= s.in_flight(),
        s.issue().flight(s.in_flight()) == s.flight(s.in_flight()),
    ensures
        s.issue().flight(j) == s.flight(j),
    decreases s.in_flight() - j,
{
    let t = s.issue();
    if j < s.in_flight() {
        lemma_in_flight(s);
        lemma_issue_wf(s);
        lemma_issue_value(s, j);
        assert(t.rob[j] == s.rob[j]);
        lemma_issue_flight(s, j + 1);
    }
}

/// After the head retires, each entry left is bound to retire with what it
/// was bound to retire with.
pub proof fn lemma_retire_value(s: Pipeline, j: int)
    requires
        s.wf(),
        s.rob.len() >= 1,
        retirable(s.rob[0]),
        0 <= j < s.in_flight() - 1,
    ensures
        s.retire().entry_value(j) == s.entry_value(j + 1),
        s.retire().entry_address(j) == s.entry_address(j + 1),
        s.retire().mem_before(j) == s.mem_before(j + 1),
        s.retire().mem_before(j + 1) == s.mem_before(j + 2),
    decreases j,
{
    let t = s.retire();
    lemma_in_flight(s);
    if j > 0 {
        lemma_retire_value(s, j - 1);
    } else {
        lemma_retire_memory(s);
    }
    lemma_mem_step(t, j);
    lemma_mem_step(s, j + 1);
    let e = s.rob[j + 1];
    assert(t.rob[j] == e);
    if !e.ready {
        assert(s.entry_ok(j + 1));
        let i = s.station_of(e.index);
        lemma_first_where(s.rs, |x: ReservedStation| x.busy && x.inner.dest == Some(e.index), 0);
        assert(s.station_ok(i));
        let st = s.rs[i];
        assert(s.slot(st.inner.dest->0) == j + 1);
        if st.inner.rs_index is Some {
            lemma_retire_value(s, s.slot(st.inner.rs_index->0) - 1);
        }
        if st.inner.rt_index is Some {
            lemma_retire_value(s, s.slot(st.inner.rt_index->0) - 1);
        }
    }
}

/// When the head retires, memory becomes what the entry behind it was
/// bound to see.
pub proof fn lemma_retire_memory(s: Pipeline)
    requires
        s.rob.len() >= 1,
        retirable(s.rob[0]),
    ensures
        s.retire().mem_before(0) == s.mem_before(1),
{
    let t = s.retire();
    assert(t.mem_before(0) == t.memory);
    assert(s.mem_before(0) == s.memory);
    assert(s.entry_address(0) == address_or_zero(s.rob[0].inner.address));
    assert(s.entry_value(0) == value_or_zero(s.rob[0].inner.value));
    assert(s.mem_before(1) == if is_store(s.rob[0]) {
        s.mem_before(0).insert(s.entry_address(0), s.entry_value(0))
    } else {
        s.mem_before(0)
    });
}

/// After the head retires, the entries left and what follows them are
/// bound to end as they were.
pub proof fn lemma_retire_flight(s: Pipeline, j: int)
    requires
        s.wf(),
        s.rob.len() >= 1,
        retirable(s.rob[0]),
        0 <= j <= s.in_flight() - 1,
        s.retire().logical_regs() == s.logical_regs(),
    ensures
        s.retire().flight(j) == s.flight(j + 1),
    decreases s.in_flight() - j,
{
    let t = s.retire();
    lemma_in_flight(s);
    lemma_retire_wf(s);
    lemma_in_flight(t);
    if j < s.in_flight() - 1 {
        lemma_retire_value(s, j);
        assert(t.rob[j] == s.rob[j + 1]);
        lemma_retire_flight(s, j + 1);
    } else {
        if j > 0 {
            lemma_retire_value(s, j - 1);
        } else {
            lemma_retire_memory(s);
        }
    }
}

/// The head retires with what it was bound to retire with, and nothing
/// changes in how the processor is bound to end.
pub proof fn lemma_retire_destiny(s: Pipeline)
    requires
        s.wf(),
        s.rob.len() >= 1,
        retirable(s.rob[0]),
    ensures
        s.retire().destiny() == s.destiny(),
{
    let t = s.retire();
    lemma_in_flight(s);
    lemma_retire_wf(s);
    lemma_in_flight(t);
    assert(s.entry_ok(0));
    assert forall|j: int| 0 <= j < s.in_flight() - 1 implies t.entry_value(j) == s.entry_value(
        j + 1,
    ) by {
        lemma_retire_value(s, j);
    }
    assert forall|r: int| 0 <= r < REGISTER_COUNT implies t.logical_reg(r) == s.logical_reg(r) by {
        assert(s.status_ok(r));
        assert(t.status_ok(r));
    }
    assert(t.logical_regs() =~= s.logical_regs());
    lemma_retire_flight(s, 0);
    assert(!s.entry_stuck(0));
    assert(t.commits =~= s.commits.push(s.entry_commit(0)));
    assert(s.commits.push(s.entry_commit(0)) + s.flight(1).commits =~= s.commits + (
    seq![s.entry_commit(0)] + s.flight(1).commits));
}

/// One cycle of one unit changes nothing in how the processor is bound to
/// end.
pub proof fn lemma_tick_unit_destiny(s: Pipeline, u: int)
    requires
        s.wf(),
        0 <= u < s.exec_units.len(),
    ensures
        s.tick_unit(u).destiny() == s.destiny(),
{
    let unit = s.exec_units[u];
    if !unit.busy {
    } else if unit.cycles > 1 {
        lemma_destiny_frame(s, s.tick_unit(u));
    } else {
        lemma_complete_destiny(s, u);
    }
}

/// The broadcast by the first `n` units changes nothing in how the
/// processor is bound to end.
pub proof fn lemma_tick_upto_destiny(s: Pipeline, n: nat)
    requires
        s.wf(),
        n <= s.exec_units.len(),
    ensures
        s.tick_upto(n).destiny() == s.destiny(),
    decreases n,
{
    if n > 0 {
        lemma_tick_upto_destiny(s, (n - 1) as nat);
        lemma_tick_upto_wf(s, (n - 1) as nat);
        lemma_tick_unit_destiny(s.tick_upto((n - 1) as nat), n - 1);
    }
}

/// Retirements change nothing in how the processor is bound to end.
pub proof fn lemma_retire_n_destiny(s: Pipeline, n: nat)
    requires
        s.wf(),
        s.rob.len() >= 1,
        n <= s.committable(),
    ensures
        s.retire_n(n).destiny() == s.destiny(),
    decreases n,
{
    if n > 0 {
        lemma_committable_head(s);
        lemma_committable_retire(s);
        lemma_retire_wf(s);
        lemma_retire_destiny(s);
        lemma_retire_n_destiny(s.retire(), (n - 1) as nat);
    }
}

/// Issues change nothing in how the processor is bound to end.
pub proof fn lemma_issue_n_destiny(s: Pipeline, k: nat)
    requires
        s.wf(),
    ensures
        s.issue_n(k).destiny() == s.destiny(),
    decreases k,
{
    if k > 0 && s.issues() {
        lemma_issue_wf(s);
        lemma_issue_destiny(s);
        lemma_issue_n_destiny(s.issue(), (k - 1) as nat);
    }
}

/// Dispatch changes nothing in how the processor is bound to end.
pub proof fn lemma_dispatch_upto_destiny(s: Pipeline, n: nat)
    requires
        s.wf(),
        n <= s.rs.len(),
    ensures
        s.dispatch_upto(n).destiny() == s.destiny(),
    decreases n,
{
    if n > 0 {
        lemma_dispatch_upto_destiny(s, (n - 1) as nat);
        lemma_dispatch_upto_wf(s, (n - 1) as nat);
        let m = s.dispatch_upto((n - 1) as nat);
        lemma_first_where(
            m.exec_units,
            |x: ExecUint| !x.busy && x.rs_type == m.rs[n - 1].rs_type,
            0,
        );
        lemma_destiny_frame(m, m.dispatch_one(n - 1));
    }
}

/// A cycle changes nothing in how the processor is bound to end: whatever
/// the order in which results are computed, instructions retire and stores
/// write in program order, with the values of an in-order execution.
pub proof fn lemma_step_destiny(s: Pipeline, k: nat)
    requires
        s.wf(),
        s.rob.len() >= 1,
    ensures
        s.step(k).destiny() == s.destiny(),
{
    lemma_step_wf(s, k);
    lemma_tick_upto_destiny(s, s.exec_units.len());
    let a = s.write_result();
    if a.drained() {
        lemma_destiny_frame(a, a.commit());
    } else {
        lemma_committable_head(a);
        lemma_retire_n_destiny(a, a.committable() as nat);
    }
    let b = a.commit();
    lemma_commit_wf(a);
    let c = s.retired();
    lemma_destiny_frame(b, c);
    lemma_issue_n_destiny(c, k);
    let d = c.issue_n(k);
    lemma_dispatch_upto_destiny(d, d.rs.len());
}

} // verus!
