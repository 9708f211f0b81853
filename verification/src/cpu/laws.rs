//! What holds of every run of the out-of-order processor.

use vstd::prelude::*;

use super::common::{lemma_run_in_order, Sequential};
use super::order::{lemma_issue_entry, lemma_outcome, lemma_step_destiny};
use super::pipeline::Pipeline;
use super::progress::{
    lemma_dispatch_upto_frame, lemma_equipped_same, lemma_issue_n_done, lemma_progress,
    lemma_retire_n_done, lemma_step_settled, lemma_tick_upto_frame, lemma_weigh_same, weigh,
};
use super::sound::{
    lemma_commit_wf, lemma_committable_head, lemma_in_flight, lemma_issue_wf, lemma_step_wf,
};
use super::tomasulo::{ResStationType, ReservedStation, ISSUE_WIDTH};
use super::{in_order, CpuError, Instruction, REGISTER_COUNT};

verus! {

/// The instruction that ends the issues of a cycle with an error is the one
/// then at the head of the queue. Issues leave the oldest entry of the
/// reorder buffer as it is while it is busy.
pub proof fn lemma_issue_n_end(s: Pipeline, k: nat)
    requires
        s.wf(),
        s.rob.len() >= 1,
    ensures
        s.issue_error(k) is Some ==> s.issue_n(k).refused() == s.issue_error(k),
        s.rob[0].busy ==> s.issue_n(k).rob[0] == s.rob[0],
        s.issue_n(k).rob.len() == s.rob.len(),
    decreases k,
{
    if k > 0 && s.issues() {
        lemma_in_flight(s);
        lemma_issue_wf(s);
        lemma_issue_n_end(s.issue(), (k - 1) as nat);
    }
}

/// With nothing queued, nothing issues and nothing is refused.
pub proof fn lemma_issue_n_empty(s: Pipeline, k: nat)
    requires
        s.queue.len() == 0,
    ensures
        s.issue_error(k) is None,
        s.issue_n(k) == s,
{
}

/// A cycle that reports a store that cannot retire leaves it at the head
/// of the reorder buffer. A cycle that reports an instruction that cannot
/// be issued leaves it at the head of the queue, and does not mark the
/// processor done.
pub proof fn lemma_step_end(s: Pipeline, k: nat)
    requires
        s.wf(),
        s.rob.len() >= 1,
    ensures
        s.step_error(k) == Some(CpuError::MisalignedAccess) ==> s.step(k).jammed(),
        s.step_error(k) is Some && s.step_error(k) != Some(CpuError::MisalignedAccess) ==> s.step(
            k,
        ).refused() == s.step_error(k) && s.step(k).done == s.done,
{
    lemma_step_wf(s, k);
    lemma_tick_upto_frame(s, s.exec_units.len());
    let a = s.write_result();
    lemma_commit_wf(a);
    lemma_committable_head(a);
    lemma_retire_n_done(a, a.committable() as nat);
    let c = s.retired();
    assert(c.queue == s.queue);
    lemma_issue_n_end(c, k);
    lemma_issue_n_done(c, k);
    let d = c.issue_n(k);
    lemma_dispatch_upto_frame(d, d.rs.len());
    if s.step_error(k) is Some && k > 0 {
        if c.queue.len() == 0 {
            lemma_issue_n_empty(c, k);
        }
    }
}

/// A processor that has come to its end has ended as it was then bound to
/// end: one that is done, one whose oldest store cannot retire, and one
/// with nothing in flight whose next instruction cannot be issued.
pub proof fn lemma_ended(f: Pipeline, error: Option<CpuError>)
    requires
        f.wf(),
        f.rob.len() >= 1,
        f.settled(),
        match error {
            None => f.done,
            Some(CpuError::MisalignedAccess) => f.jammed(),
            Some(e) => f.in_flight() == 0 && f.refused() == Some(e),
        },
    ensures
        f.destiny() == f.ended(error),
{
    lemma_in_flight(f);
    if error == Some(CpuError::MisalignedAccess) {
        assert(f.in_flight() >= 1);
        assert(f.entry_stuck(0));
        assert(f.destiny().commits =~= f.commits);
    } else {
        assert forall|r: int| 0 <= r < REGISTER_COUNT implies f.logical_reg(r) == f.regs[r] by {
            assert(f.status_ok(r));
        }
        assert(f.logical_regs() =~= f.regs);
        assert(f.mem_before(0) == f.memory);
        if error is None {
            assert(f.queue.len() == 0);
        } else {
            assert(f.queue[0].stuck(f.regs) == error);
        }
        assert(f.destiny().commits =~= f.commits);
    }
}

/// A run keeps the state sound and the pools as they are, and changes
/// nothing in how the processor is bound to end. It ends done, or with a
/// store at the head of the reorder buffer that cannot retire, or with
/// nothing in flight and an instruction at the head of the queue that
/// cannot be issued.
pub proof fn lemma_run(s: Pipeline)
    requires
        s.wf(),
        s.equipped(),
    ensures
        s.run().wf(),
        s.run().equipped(),
        s.run().same_pools(s),
        s.run().destiny() == s.destiny(),
        s.settled() ==> s.run().settled(),
        match s.run_error() {
            None => s.run().done,
            Some(CpuError::MisalignedAccess) => s.run().jammed(),
            Some(e) => !s.run().done && s.run().in_flight() == 0 && s.run().refused() == Some(e),
        },
    decreases s.work(),
{
    let k = ISSUE_WIDTH as nat;
    if !s.done {
        let t = s.step(k);
        lemma_step_wf(s, k);
        lemma_step_destiny(s, k);
        lemma_step_end(s, k);
        lemma_equipped_same(s, t);
        lemma_in_flight(t);
        if s.settled() {
            lemma_step_settled(s, k);
        }
        if !s.halts() {
            lemma_progress(s, k);
            lemma_run(t);
            let r = t.run();
            assert forall|i: int| 0 <= i < r.rs.len() implies (#[trigger] r.rs[i]).rs_type
                == s.rs[i].rs_type by {
                assert(t.rs[i].rs_type == s.rs[i].rs_type);
            }
            assert forall|u: int| 0 <= u < r.exec_units.len() implies (#[trigger] r.exec_units[u]).rs_type
                == s.exec_units[u].rs_type by {
                assert(t.exec_units[u].rs_type == s.exec_units[u].rs_type);
            }
        }
    }
}

/// Program-order commit. Whatever the order in which results are computed,
/// a run ends as the processor was bound to end when it began: it has
/// retired, after what was retired before, the instructions in flight and
/// then the queued ones, each with the value it has when the instructions
/// are executed one after the other, up to the first that cannot be
/// executed, whose error ends the run; and the stores among them have
/// written memory in that order.
pub proof fn lemma_program_order_commit(s: Pipeline)
    requires
        s.wf(),
        s.equipped(),
        s.settled(),
    ensures
        s.run().ended(s.run_error()) == s.destiny(),
{
    lemma_run(s);
    lemma_ended(s.run(), s.run_error());
}

/// A processor with nothing in flight is bound to end as an in-order
/// execution of its queue on its registers and memory ends.
pub proof fn lemma_idle(s: Pipeline)
    requires
        s.wf(),
        s.in_flight() == 0,
    ensures
        s.logical_regs() == s.regs,
        s.destiny() == in_order(s.regs, s.memory, s.queue).observable().after_all(s.commits),
{
    assert forall|r: int| 0 <= r < REGISTER_COUNT implies s.logical_reg(r) == s.regs[r] by {
        assert(s.status_ok(r));
    }
    assert(s.logical_regs() =~= s.regs);
    assert(s.mem_before(0) == s.memory);
}

/// Program-order commit, from a standstill. With nothing in flight, a run
/// retires exactly what executing the queue in order on the registers and
/// the memory retires, leaves the memory that it leaves, and ends with the
/// error that it ends with, if any. Unless that error is a misaligned
/// store, it also leaves the registers that it leaves.
pub proof fn lemma_program_order_from_idle(s: Pipeline)
    requires
        s.wf(),
        s.equipped(),
        s.settled(),
        s.in_flight() == 0,
    ensures
        s.run_error() == in_order(s.regs, s.memory, s.queue).error,
        s.run().commits == s.commits + in_order(s.regs, s.memory, s.queue).commits,
        s.run().memory == in_order(s.regs, s.memory, s.queue).memory,
        s.run_error() != Some(CpuError::MisalignedAccess) ==> s.run().regs == in_order(
            s.regs,
            s.memory,
            s.queue,
        ).regs,
{
    lemma_program_order_commit(s);
    lemma_idle(s);
}

/// The out-of-order processor and the in-order processor agree. Started
/// with the same registers, memory and queue, and with nothing in flight,
/// both end with the same record of retirements, the same memory and the
/// same error, if any; unless that error is a misaligned store, also with
/// the same registers.
pub proof fn lemma_agrees_with_in_order(p: Pipeline, q: Sequential)
    requires
        p.wf(),
        p.equipped(),
        p.settled(),
        p.in_flight() == 0,
        q.wf(),
        p.regs == q.regs,
        p.memory == q.memory,
        p.queue == q.queue,
        p.commits == q.commits,
    ensures
        p.run_error() == q.run_error(),
        p.run().commits == q.run().commits,
        p.run().memory == q.run().memory,
        p.run_error() != Some(CpuError::MisalignedAccess) ==> p.run().regs == q.run().regs,
{
    lemma_program_order_from_idle(p);
    lemma_run_in_order(q);
}

/// A register that no instruction writes is left as it is by an in-order
/// execution.
pub proof fn lemma_untouched(regs: Seq<i32>, mem: Map<u32, i32>, prog: Seq<Instruction>, r: int)
    requires
        regs.len() == REGISTER_COUNT,
        0 <= r < REGISTER_COUNT,
        forall|i: int| 0 <= i < prog.len() ==> (#[trigger] prog[i]).dest() != Some(r as usize),
    ensures
        in_order(regs, mem, prog).regs[r] == regs[r],
    decreases prog.len(),
{
    if prog.len() > 0 && prog[0].stuck(regs) is None {
        let rest = prog.drop_first();
        assert(prog[0].dest() != Some(r as usize));
        assert forall|i: int| 0 <= i < rest.len() implies (#[trigger] rest[i]).dest() != Some(
            r as usize,
        ) by {
            assert(rest[i] == prog[i + 1]);
        }
        lemma_untouched(prog[0].write_back(regs, mem), prog[0].store(regs, mem), rest, r);
    }
}

/// In an in-order execution that ends without an error, every instruction
/// retires, and the last instruction that writes a register decides what
/// the register holds in the end.
pub proof fn lemma_last_writer(
    regs: Seq<i32>,
    mem: Map<u32, i32>,
    prog: Seq<Instruction>,
    r: int,
    k: int,
)
    requires
        regs.len() == REGISTER_COUNT,
        in_order(regs, mem, prog).error is None,
        0 <= r < REGISTER_COUNT,
        0 <= k < prog.len(),
        prog[k].dest() == Some(r as usize),
        forall|i: int| k < i < prog.len() ==> (#[trigger] prog[i]).dest() != Some(r as usize),
    ensures
        in_order(regs, mem, prog).commits.len() == prog.len(),
        in_order(regs, mem, prog).regs[r] == in_order(regs, mem, prog).commits[k].value,
    decreases prog.len(),
{
    let inst = prog[0];
    let rest = prog.drop_first();
    let next = inst.write_back(regs, mem);
    let next_mem = inst.store(regs, mem);
    assert(inst.stuck(regs) is None);
    lemma_in_order_len(next, next_mem, rest);
    if k == 0 {
        assert forall|i: int| 0 <= i < rest.len() implies (#[trigger] rest[i]).dest() != Some(
            r as usize,
        ) by {
            assert(rest[i] == prog[i + 1]);
        }
        lemma_untouched(next, next_mem, rest, r);
    } else {
        assert(rest[k - 1] == prog[k]);
        assert forall|i: int| k - 1 < i < rest.len() implies (#[trigger] rest[i]).dest() != Some(
            r as usize,
        ) by {
            assert(rest[i] == prog[i + 1]);
        }
        lemma_last_writer(next, next_mem, rest, r, k - 1);
    }
}

/// An in-order execution that ends without an error retires once for each
/// instruction.
pub proof fn lemma_in_order_len(regs: Seq<i32>, mem: Map<u32, i32>, prog: Seq<Instruction>)
    requires
        in_order(regs, mem, prog).error is None,
    ensures
        in_order(regs, mem, prog).commits.len() == prog.len(),
    decreases prog.len(),
{
    if prog.len() > 0 {
        lemma_in_order_len(
            prog[0].write_back(regs, mem),
            prog[0].store(regs, mem),
            prog.drop_first(),
        );
    }
}

/// Write after write. Where several queued instructions write register
/// `r`, the register holds after a run without an error what the last of
/// them retired with, whatever the order in which they were computed.
pub proof fn lemma_write_after_write(s: Pipeline, r: int, k: int)
    requires
        s.wf(),
        s.equipped(),
        s.settled(),
        s.in_flight() == 0,
        s.run_error() is None,
        0 <= r < REGISTER_COUNT,
        0 <= k < s.queue.len(),
        s.queue[k].dest() == Some(r as usize),
        forall|i: int| k < i < s.queue.len() ==> (#[trigger] s.queue[i]).dest() != Some(r as usize),
    ensures
        s.run().commits.len() == s.commits.len() + s.queue.len(),
        s.run().regs[r] == s.run().commits[s.commits.len() + k].value,
{
    lemma_program_order_from_idle(s);
    lemma_last_writer(s.regs, s.memory, s.queue, r, k);
}

/// Read after write, on the bus. A station that waits for a tag takes,
/// when the unit that computes the tag finishes, the value that the unit
/// puts on the bus, which is the value that the producer retires with.
pub proof fn lemma_read_after_write(s: Pipeline, u: int, i: int)
    requires
        s.wf(),
        0 <= u < s.exec_units.len(),
        s.exec_units[u].busy,
        0 <= i < s.rs.len(),
        s.rs[i].busy,
    ensures
        ({
            let tag = s.rs[s.exec_units[u].rs_index as int].inner.dest->0;
            let after = s.complete(u).rs[i].inner;
            &&& s.outcome(u) == s.entry_value(s.slot(tag))
            &&& s.rs[i].inner.rs_index == Some(tag) ==> after.rs_index is None && after.rs_value
                == Some(s.outcome(u))
            &&& s.rs[i].inner.rt_index == Some(tag) ==> after.rt_index is None && after.rt_value
                == Some(s.outcome(u))
        }),
{
    lemma_outcome(s, u);
    assert(s.unit_ok(u));
    assert(s.station_ok(s.exec_units[u].rs_index as int));
    assert(s.station_ok(i));
}

/// Read after write, at issue. An instruction that issues sees each
/// register it reads as its newest producer in flight leaves it, and as
/// the register file holds it where nothing in flight writes it; a load
/// sees memory as the stores before it leave it. So it is bound to retire
/// with the value it has in an in-order execution.
pub proof fn lemma_issue_reads_newest(s: Pipeline)
    requires
        s.wf(),
        s.issues(),
    ensures
        s.issue().entry_value(s.in_flight()) == s.queue[0].value(
            s.logical_regs(),
            s.mem_before(s.in_flight()),
        ),
{
    lemma_issue_entry(s);
}

impl Pipeline {
    /// Number of stations of class `t`.
    pub open spec fn pool_size(self, t: ResStationType) -> nat {
        weigh(
            self.rs,
            |st: ReservedStation| if st.rs_type == t {
                1nat
            } else {
                0nat
            },
            self.rs.len(),
        )
    }

    /// Number of busy stations of class `t`.
    pub open spec fn busy_stations(self, t: ResStationType) -> nat {
        weigh(
            self.rs,
            |st: ReservedStation| if st.busy && st.rs_type == t {
                1nat
            } else {
                0nat
            },
            self.rs.len(),
        )
    }
}

/// A sum of weights is at most the sum of weights that are as large.
pub proof fn lemma_weigh_le<T>(s: Seq<T>, v: spec_fn(T) -> nat, w: spec_fn(T) -> nat, n: nat)
    requires
        forall|k: int| 0 <= k < n ==> v(#[trigger] s[k]) <= w(s[k]),
    ensures
        weigh(s, v, n) <= weigh(s, w, n),
    decreases n,
{
    if n > 0 {
        lemma_weigh_le(s, v, w, (n - 1) as nat);
    }
}

/// Resource bound. After any cycle the busy stations of a class are no
/// more than the class has stations, and the class has as many stations as
/// before.
pub proof fn lemma_resource_bound(s: Pipeline, k: nat, t: ResStationType)
    requires
        s.wf(),
        s.rob.len() >= 1,
    ensures
        s.busy_stations(t) <= s.pool_size(t),
        s.step(k).busy_stations(t) <= s.step(k).pool_size(t),
        s.step(k).pool_size(t) == s.pool_size(t),
{
    let n = s.step(k);
    lemma_step_wf(s, k);
    lemma_weigh_le(
        s.rs,
        |st: ReservedStation| if st.busy && st.rs_type == t {
            1nat
        } else {
            0nat
        },
        |st: ReservedStation| if st.rs_type == t {
            1nat
        } else {
            0nat
        },
        s.rs.len(),
    );
    lemma_weigh_le(
        n.rs,
        |st: ReservedStation| if st.busy && st.rs_type == t {
            1nat
        } else {
            0nat
        },
        |st: ReservedStation| if st.rs_type == t {
            1nat
        } else {
            0nat
        },
        n.rs.len(),
    );
    lemma_weigh_same(
        n.rs,
        s.rs,
        |st: ReservedStation| if st.rs_type == t {
            1nat
        } else {
            0nat
        },
        s.rs.len(),
    );
}

/// Determinism. Two processors as built, given the same registers, memory
/// and queue, end a run in the same state: the same registers, the same
/// memory, the same count of cycles, the same record and the same error,
/// if any.
pub proof fn lemma_repeatable(
    a: Pipeline,
    b: Pipeline,
    regs: Seq<i32>,
    mem: Map<u32, i32>,
    prog: Seq<Instruction>,
)
    requires
        a == (Pipeline { regs, memory: mem, queue: prog, ..Pipeline::initial() }),
        b == (Pipeline { regs, memory: mem, queue: prog, ..Pipeline::initial() }),
    ensures
        a.run().regs == b.run().regs,
        a.run().memory == b.run().memory,
        a.run().cycles == b.run().cycles,
        a.run().commits == b.run().commits,
        a.run_error() == b.run_error(),
{
}

} // verus!
