//! Every cycle of a processor that is not done brings it closer to being
//! done: the work left, a number, falls.

use vstd::prelude::*;

use super::pipeline::{is_store, retirable, Pipeline};
use super::search::{first_where, lemma_first_where, lemma_first_where_is, lemma_first_where_same};
use super::sound::{
    lemma_commit_wf, lemma_committable_head, lemma_committable_retire, lemma_dispatch_upto_wf,
    lemma_in_flight, lemma_in_flight_frame, lemma_issue_wf, lemma_retire_wf, lemma_step_wf,
    lemma_tick_upto_wf,
};
use super::tomasulo::{ExecUint, ReorderBuffer, ResStationType, ReservedStation};

verus! {

/// Sum of the weights of the first `n` elements of `s`.
pub open spec fn weigh<T>(s: Seq<T>, w: spec_fn(T) -> nat, n: nat) -> nat
    decreases n,
{
    if n == 0 {
        0
    } else {
        weigh(s, w, (n - 1) as nat) + w(s[n - 1])
    }
}

/// Sequences whose elements weigh the same weigh the same.
pub proof fn lemma_weigh_same<T>(a: Seq<T>, b: Seq<T>, w: spec_fn(T) -> nat, n: nat)
    requires
        forall|k: int| 0 <= k < n ==> w(#[trigger] a[k]) == w(b[k]),
    ensures
        weigh(a, w, n) == weigh(b, w, n),
    decreases n,
{
    if n > 0 {
        lemma_weigh_same(a, b, w, (n - 1) as nat);
    }
}

/// Where one element alone changes its weight, the sum changes by as much.
pub proof fn lemma_weigh_change<T>(a: Seq<T>, b: Seq<T>, w: spec_fn(T) -> nat, n: nat, i: int)
    requires
        0 <= i < n,
        forall|k: int| 0 <= k < n && k != i ==> w(#[trigger] a[k]) == w(b[k]),
    ensures
        weigh(a, w, n) - w(a[i]) == weigh(b, w, n) - w(b[i]),
    decreases n,
{
    if i == n - 1 {
        lemma_weigh_same(a, b, w, (n - 1) as nat);
    } else {
        lemma_weigh_change(a, b, w, (n - 1) as nat, i);
    }
}

/// What a station still has to wait for: 32 while it holds an instruction
/// that no unit works on.
pub open spec fn station_work(st: ReservedStation) -> nat {
    if st.busy && !st.dispatched {
        32
    } else {
        0
    }
}

/// What a unit still has to do: its cycles left and one more, while busy.
pub open spec fn unit_work(u: ExecUint) -> nat {
    if u.busy {
        (1 + u.cycles) as nat
    } else {
        0
    }
}

impl Pipeline {
    /// The work left: 64 for each instruction queued, 1 for each in
    /// flight, what the stations wait for, what the units have to do, and
    /// 1 until the processor is marked done. No cycle of a processor that
    /// is not done leaves it as it is.
    pub open spec fn work(self) -> nat {
        (if self.done {
            0nat
        } else {
            1nat
        }) + 64 * self.queue.len() + self.in_flight() as nat + weigh(
            self.rs,
            |st: ReservedStation| station_work(st),
            self.rs.len(),
        ) + weigh(self.exec_units, |u: ExecUint| unit_work(u), self.exec_units.len())
    }

    /// Class `t` has a station and a unit.
    pub open spec fn serves(self, t: ResStationType) -> bool {
        &&& first_where(self.rs, |st: ReservedStation| st.rs_type == t, 0) < self.rs.len()
        &&& first_where(self.exec_units, |u: ExecUint| u.rs_type == t, 0) < self.exec_units.len()
    }

    /// The processor can execute every instruction: it has a reorder
    /// buffer, and a station and a unit of every class.
    pub open spec fn equipped(self) -> bool {
        &&& self.rob.len() >= 1
        &&& self.serves(ResStationType::AddSub)
        &&& self.serves(ResStationType::MulDiv)
        &&& self.serves(ResStationType::LoadStore)
        &&& self.serves(ResStationType::JUMP)
    }
}

/// A processor with the same pools is equipped as well.
pub proof fn lemma_equipped_same(s: Pipeline, t: Pipeline)
    requires
        s.equipped(),
        t.same_pools(s),
    ensures
        t.equipped(),
{
    assert forall|c: ResStationType| s.serves(c) implies t.serves(c) by {
        lemma_first_where_same(
            s.rs,
            |st: ReservedStation| st.rs_type == c,
            t.rs,
            |st: ReservedStation| st.rs_type == c,
            0,
        );
        lemma_first_where_same(
            s.exec_units,
            |u: ExecUint| u.rs_type == c,
            t.exec_units,
            |u: ExecUint| u.rs_type == c,
            0,
        );
    }
}

/// One cycle of a busy unit reduces the work left; an idle unit changes
/// nothing.
pub proof fn lemma_tick_unit_work(s: Pipeline, u: int)
    requires
        s.wf(),
        0 <= u < s.exec_units.len(),
    ensures
        s.exec_units[u].busy ==> s.tick_unit(u).work() < s.work(),
        !s.exec_units[u].busy ==> s.tick_unit(u) == s,
        forall|k: int|
            0 <= k < s.exec_units.len() && k != u ==> #[trigger] s.tick_unit(u).exec_units[k]
                == s.exec_units[k],
{
    let t = s.tick_unit(u);
    let unit = s.exec_units[u];
    if unit.busy {
        lemma_in_flight(s);
        assert(s.unit_ok(u));
        assert(s.station_ok(unit.rs_index as int));
        lemma_in_flight_frame(s, t);
        lemma_weigh_change(
            s.exec_units,
            t.exec_units,
            |x: ExecUint| unit_work(x),
            s.exec_units.len(),
            u,
        );
        lemma_weigh_same(s.rs, t.rs, |st: ReservedStation| station_work(st), s.rs.len());
    }
}

/// The broadcast never adds work, leaves the units it has not reached as
/// they are, and reduces the work where one of the units it reaches is
/// busy.
pub proof fn lemma_tick_upto_work(s: Pipeline, n: nat)
    requires
        s.wf(),
        n <= s.exec_units.len(),
    ensures
        s.tick_upto(n).work() <= s.work(),
        forall|k: int|
            n <= k < s.exec_units.len() ==> #[trigger] s.tick_upto(n).exec_units[k]
                == s.exec_units[k],
        (forall|k: int| 0 <= k < n ==> !(#[trigger] s.exec_units[k]).busy) ==> s.tick_upto(n) == s,
        (exists|k: int| 0 <= k < n && (#[trigger] s.exec_units[k]).busy) ==> s.tick_upto(n).work()
            < s.work(),
    decreases n,
{
    if n > 0 {
        let m = s.tick_upto((n - 1) as nat);
        lemma_tick_upto_work(s, (n - 1) as nat);
        lemma_tick_upto_wf(s, (n - 1) as nat);
        lemma_tick_unit_work(m, n - 1);
        assert(m.exec_units[n - 1] == s.exec_units[n - 1]);
        if exists|k: int| 0 <= k < n && (#[trigger] s.exec_units[k]).busy {
            let k = choose|k: int| 0 <= k < n && (#[trigger] s.exec_units[k]).busy;
            if k < n - 1 {
            } else {
                assert(s.exec_units[n - 1].busy);
            }
        }
    }
}

/// A retirement reduces the work left by one.
pub proof fn lemma_retire_work(s: Pipeline)
    requires
        s.wf(),
        s.rob.len() >= 1,
        retirable(s.rob[0]),
    ensures
        s.retire().work() == s.work() - 1,
{
    lemma_retire_wf(s);
}

/// `n` retirements reduce the work left by `n`.
pub proof fn lemma_retire_n_work(s: Pipeline, n: nat)
    requires
        s.wf(),
        s.rob.len() >= 1,
        n <= s.committable(),
    ensures
        s.retire_n(n).work() == s.work() - n,
    decreases n,
{
    if n > 0 {
        lemma_committable_head(s);
        lemma_committable_retire(s);
        lemma_retire_wf(s);
        lemma_retire_work(s);
        lemma_retire_n_work(s.retire(), (n - 1) as nat);
    }
}

/// The commit phase never adds work. It reduces the work where it marks the
/// processor done and where the head can retire, and otherwise changes
/// nothing.
pub proof fn lemma_commit_work(s: Pipeline)
    requires
        s.wf(),
        s.rob.len() >= 1,
    ensures
        s.commit().work() <= s.work(),
        s.drained() && !s.done ==> s.commit().work() < s.work(),
        !s.drained() && retirable(s.rob[0]) ==> s.commit().work() < s.work(),
        !s.drained() && !retirable(s.rob[0]) ==> s.commit() == s,
{
    lemma_committable_head(s);
    if !s.drained() {
        lemma_retire_n_work(s, s.committable() as nat);
    }
}

/// An issue reduces the work left; an attempt that fails changes nothing.
pub proof fn lemma_issue_work(s: Pipeline)
    requires
        s.wf(),
    ensures
        s.issues() ==> s.issue().work() < s.work(),
        !s.issues() ==> s.issue() == s,
{
    if s.issues() {
        let t = s.issue();
        let class = ResStationType::of(s.queue[0]);
        let i = s.free_station(class);
        lemma_in_flight(s);
        lemma_issue_wf(s);
        lemma_first_where(s.rs, |st: ReservedStation| !st.busy && st.rs_type == class, 0);
        lemma_weigh_change(s.rs, t.rs, |st: ReservedStation| station_work(st), s.rs.len(), i);
    }
}

/// Issues never add work, and reduce it where the first succeeds.
pub proof fn lemma_issue_n_work(s: Pipeline, k: nat)
    requires
        s.wf(),
    ensures
        s.issue_n(k).work() <= s.work(),
        k > 0 && s.issues() ==> s.issue_n(k).work() < s.work(),
        !s.issues() ==> s.issue_n(k) == s,
    decreases k,
{
    if k > 0 && s.issues() {
        lemma_issue_work(s);
        lemma_issue_wf(s);
        lemma_issue_n_work(s.issue(), (k - 1) as nat);
    }
}

/// Station `i` claims a unit exactly if it may start and a unit of its
/// class is idle.
pub open spec fn claims(s: Pipeline, i: int) -> bool {
    s.may_start(i) && s.free_unit(s.rs[i].rs_type) < s.exec_units.len()
}

/// A station that claims a unit reduces the work left; one that does not
/// changes nothing. The other stations stay as they are.
pub proof fn lemma_dispatch_one_work(s: Pipeline, i: int)
    requires
        s.wf(),
        0 <= i < s.rs.len(),
    ensures
        claims(s, i) ==> s.dispatch_one(i).work() < s.work(),
        !claims(s, i) ==> s.dispatch_one(i) == s,
        forall|k: int|
            0 <= k < s.rs.len() && k != i ==> #[trigger] s.dispatch_one(i).rs[k] == s.rs[k],
        s.dispatch_one(i).rob == s.rob,
        s.dispatch_one(i).next_tag == s.next_tag,
{
    if claims(s, i) {
        let t = s.dispatch_one(i);
        let u = s.free_unit(s.rs[i].rs_type);
        lemma_first_where(
            s.exec_units,
            |x: ExecUint| !x.busy && x.rs_type == s.rs[i].rs_type,
            0,
        );
        lemma_weigh_change(s.rs, t.rs, |st: ReservedStation| station_work(st), s.rs.len(), i);
        lemma_weigh_change(
            s.exec_units,
            t.exec_units,
            |x: ExecUint| unit_work(x),
            s.exec_units.len(),
            u,
        );
    }
}

/// Dispatch never adds work, leaves the stations it has not reached as
/// they are, and changes nothing or reduces the work.
pub proof fn lemma_dispatch_upto_work(s: Pipeline, n: nat)
    requires
        s.wf(),
        n <= s.rs.len(),
    ensures
        s.dispatch_upto(n).work() <= s.work(),
        s.dispatch_upto(n) == s || s.dispatch_upto(n).work() < s.work(),
        forall|k: int| n <= k < s.rs.len() ==> #[trigger] s.dispatch_upto(n).rs[k] == s.rs[k],
        s.dispatch_upto(n).rob == s.rob,
        s.dispatch_upto(n).next_tag == s.next_tag,
    decreases n,
{
    if n > 0 {
        let m = s.dispatch_upto((n - 1) as nat);
        lemma_dispatch_upto_work(s, (n - 1) as nat);
        lemma_dispatch_upto_wf(s, (n - 1) as nat);
        lemma_dispatch_one_work(m, n - 1);
    }
}

/// Dispatch reduces the work left where a station it reaches can claim a
/// unit.
pub proof fn lemma_dispatch_progress(s: Pipeline, n: nat, i: int)
    requires
        s.wf(),
        0 <= i < n <= s.rs.len(),
        claims(s, i),
    ensures
        s.dispatch_upto(n).work() < s.work(),
    decreases n,
{
    let m = s.dispatch_upto((n - 1) as nat);
    lemma_dispatch_upto_work(s, (n - 1) as nat);
    lemma_dispatch_upto_wf(s, (n - 1) as nat);
    lemma_dispatch_one_work(m, n - 1);
    if i < n - 1 {
        lemma_dispatch_progress(s, (n - 1) as nat, i);
    }
}

/// A class that the processor serves has an idle unit where every unit is
/// idle.
pub proof fn lemma_idle_unit(s: Pipeline, t: ResStationType)
    requires
        s.serves(t),
        forall|k: int| 0 <= k < s.exec_units.len() ==> !(#[trigger] s.exec_units[k]).busy,
    ensures
        s.free_unit(t) < s.exec_units.len(),
{
    lemma_first_where(s.exec_units, |u: ExecUint| u.rs_type == t, 0);
    lemma_first_where(s.exec_units, |u: ExecUint| !u.busy && u.rs_type == t, 0);
    let w = first_where(s.exec_units, |u: ExecUint| u.rs_type == t, 0);
    assert(!s.exec_units[w].busy);
}

/// A class that the processor serves has a free station where nothing is
/// in flight.
pub proof fn lemma_free_station(s: Pipeline, t: ResStationType)
    requires
        s.wf(),
        s.serves(t),
        s.in_flight() == 0,
    ensures
        s.free_station(t) < s.rs.len(),
{
    lemma_first_where(s.rs, |st: ReservedStation| st.rs_type == t, 0);
    lemma_first_where(s.rs, |st: ReservedStation| !st.busy && st.rs_type == t, 0);
    let w = first_where(s.rs, |st: ReservedStation| st.rs_type == t, 0);
    if s.rs[w].busy {
        assert(s.station_ok(w));
    }
}

/// The station of the oldest instruction in flight, where its result is
/// not computed and every unit is idle, can claim a unit.
pub proof fn lemma_head_claims(s: Pipeline)
    requires
        s.wf(),
        s.equipped(),
        s.rob[0].busy,
        !s.rob[0].ready,
        forall|k: int| 0 <= k < s.exec_units.len() ==> !(#[trigger] s.exec_units[k]).busy,
    ensures
        0 <= s.station_of(s.rob[0].index) < s.rs.len(),
        claims(s, s.station_of(s.rob[0].index)),
{
    lemma_in_flight(s);
    assert(s.in_flight() >= 1);
    assert(s.entry_ok(0));
    let tag = s.rob[0].index;
    let i = s.station_of(tag);
    lemma_first_where(s.rs, |x: ReservedStation| x.busy && x.inner.dest == Some(tag), 0);
    assert(s.station_ok(i));
    assert(s.slot(tag) == 0);
    if s.rs[i].dispatched {
        lemma_first_where(s.exec_units, |x: ExecUint| x.busy && x.rs_index == i, 0);
        assert(s.exec_units[s.unit_of(i)].busy);
    }
    lemma_first_where(s.rob, |e: ReorderBuffer| is_store(e), 0);
    match s.rs[i].rs_type {
        ResStationType::AddSub => lemma_idle_unit(s, ResStationType::AddSub),
        ResStationType::MulDiv => lemma_idle_unit(s, ResStationType::MulDiv),
        ResStationType::LoadStore => lemma_idle_unit(s, ResStationType::LoadStore),
        ResStationType::JUMP => lemma_idle_unit(s, ResStationType::JUMP),
    }
}

/// A cycle never adds work, and counts as one.
pub proof fn lemma_step_work(s: Pipeline, k: nat)
    requires
        s.wf(),
        s.rob.len() >= 1,
    ensures
        s.step(k).work() <= s.work(),
        s.step(k).cycles == s.cycles + 1,
{
    lemma_step_wf(s, k);
    lemma_issue_n_done(s.retired(), k);
    lemma_dispatch_upto_frame(s.retired().issue_n(k), s.retired().issue_n(k).rs.len());
    lemma_tick_upto_work(s, s.exec_units.len());
    let a = s.write_result();
    lemma_commit_work(a);
    let c = s.retired();
    lemma_issue_n_work(c, k);
    let d = c.issue_n(k);
    lemma_dispatch_upto_work(d, d.rs.len());
}

/// A cycle of an equipped processor that is not done reduces the work
/// left, unless it ends the run: the processor cannot stall for ever.
pub proof fn lemma_progress(s: Pipeline, k: nat)
    requires
        s.wf(),
        s.equipped(),
        !s.done,
        k >= 1,
        !s.ends_run(k),
    ensures
        s.step(k).work() < s.work(),
{
    lemma_step_wf(s, k);
    lemma_tick_upto_work(s, s.exec_units.len());
    let a = s.write_result();
    lemma_commit_work(a);
    let b = a.commit();
    let c = s.retired();
    lemma_issue_n_work(c, k);
    let d = c.issue_n(k);
    lemma_dispatch_upto_work(d, d.rs.len());
    if forall|u: int| 0 <= u < s.exec_units.len() ==> !(#[trigger] s.exec_units[u]).busy {
        assert(a == s);
        if !s.drained() && !retirable(s.rob[0]) && !c.issues() {
            assert(b == s);
            assert(d == c);
            lemma_equipped_same(s, c);
            lemma_in_flight(c);
            if c.rob[0].busy {
                lemma_head_claims(c);
                lemma_dispatch_progress(d, d.rs.len(), c.station_of(c.rob[0].index));
            } else {
                assert(c.in_flight() == 0);
                lemma_dispatch_upto_frame(d, d.rs.len());
                match ResStationType::of(c.queue[0]) {
                    ResStationType::AddSub => lemma_free_station(c, ResStationType::AddSub),
                    ResStationType::MulDiv => lemma_free_station(c, ResStationType::MulDiv),
                    ResStationType::LoadStore => lemma_free_station(c, ResStationType::LoadStore),
                    ResStationType::JUMP => lemma_free_station(c, ResStationType::JUMP),
                }
            }
        }
    }
}

impl Pipeline {
    /// A processor marked done has nothing queued and nothing in flight.
    pub open spec fn settled(self) -> bool {
        self.done ==> self.queue.len() == 0 && self.in_flight() == 0
    }

    /// A cycle with up to `k` issues ends the run with an error: a store
    /// that cannot retire ends it at once, an instruction that cannot be
    /// issued once nothing is in flight.
    pub open spec fn ends_run(self, k: nat) -> bool {
        self.step_error(k) == Some(super::CpuError::MisalignedAccess) || (self.step_error(k)
            is Some && !self.step(k).rob[0].busy)
    }

    /// A cycle of `run` ends the run with an error.
    pub open spec fn halts(self) -> bool {
        self.ends_run(super::tomasulo::ISSUE_WIDTH as nat)
    }

    /// The state in which `run` leaves the processor. The cycles go on
    /// until the processor is done, or until a store cannot retire, or until
    /// the head of the queue cannot be issued and everything before it has
    /// retired.
    pub open spec fn run(self) -> Pipeline
        decreases self.work(),
    {
        let k = super::tomasulo::ISSUE_WIDTH as nat;
        if self.done {
            self
        } else if self.halts() {
            self.step(k)
        } else if self.step(k).work() < self.work() {
            self.step(k).run()
        } else {
            self
        }
    }

    /// The error that ends `run`, if one does.
    pub open spec fn run_error(self) -> Option<super::CpuError>
        decreases self.work(),
    {
        let k = super::tomasulo::ISSUE_WIDTH as nat;
        if self.done {
            None
        } else if self.halts() {
            self.step_error(k)
        } else if self.step(k).work() < self.work() {
            self.step(k).run_error()
        } else {
            None
        }
    }
}

/// The broadcast keeps a processor that is marked done drained.
pub proof fn lemma_write_result_settled(s: Pipeline)
    requires
        s.wf(),
        s.settled(),
    ensures
        s.write_result().settled(),
{
    lemma_tick_upto_wf(s, s.exec_units.len());
    lemma_tick_upto_frame(s, s.exec_units.len());
}

/// The commit phase marks no processor done that is not drained.
pub proof fn lemma_commit_settled(s: Pipeline)
    requires
        s.wf(),
        s.rob.len() >= 1,
        s.settled(),
    ensures
        s.commit().settled(),
{
    lemma_commit_wf(s);
    lemma_in_flight(s);
    lemma_in_flight(s.commit());
    if s.drained() {
        lemma_in_flight_frame(s, s.commit());
    } else {
        lemma_committable_head(s);
        lemma_retire_n_done(s, s.committable() as nat);
    }
}

/// An issue keeps a processor that is marked done drained: nothing issues
/// on one.
pub proof fn lemma_issue_settled(s: Pipeline)
    requires
        s.wf(),
        s.settled(),
    ensures
        s.issue().settled(),
{
    lemma_issue_wf(s);
}

/// Dispatch keeps a processor that is marked done drained.
pub proof fn lemma_dispatch_settled(s: Pipeline)
    requires
        s.wf(),
        s.settled(),
    ensures
        s.dispatch().settled(),
{
    lemma_dispatch_upto_frame(s, s.rs.len());
    lemma_in_flight_frame(s, s.dispatch());
}

/// A cycle keeps a processor that is marked done drained, and marks none
/// done that is not.
pub proof fn lemma_step_settled(s: Pipeline, k: nat)
    requires
        s.wf(),
        s.rob.len() >= 1,
        s.settled(),
    ensures
        s.step(k).settled(),
{
    lemma_step_wf(s, k);
    let a = s.write_result();
    lemma_commit_wf(a);
    let b = a.commit();
    let c = s.retired();
    lemma_issue_n_work(c, k);
    let d = c.issue_n(k);
    lemma_dispatch_upto_wf(d, d.rs.len());
    let e = d.dispatch();
    lemma_in_flight(a);
    lemma_in_flight(c);
    if s.done {
        lemma_in_flight(s);
        // nothing in flight: no station is busy, so no unit is
        assert forall|u: int| 0 <= u < s.exec_units.len() implies !(#[trigger] s.exec_units[u]).busy by {
            if s.exec_units[u].busy {
                assert(s.unit_ok(u));
                assert(s.station_ok(s.exec_units[u].rs_index as int));
            }
        }
        lemma_tick_upto_work(s, s.exec_units.len());
        assert(a == s);
        if s.rob[0].busy {
            assert(false);
        }
        assert(b == s);
        assert(d == c);
    } else {
        if a.drained() {
            assert(b.rob == a.rob);
            assert(d == c);
            if a.rob[0].busy {
                assert(false);
            }
            assert(c.in_flight() == 0) by {
                lemma_first_where_is(c.rob, |x: ReorderBuffer| !x.busy, 0, 0);
            }
        } else {
            lemma_tick_upto_frame(s, s.exec_units.len());
            lemma_committable_head(a);
            lemma_retire_n_done(a, a.committable() as nat);
            lemma_issue_n_done(c, k);
        }
    }
    lemma_dispatch_upto_frame(d, d.rs.len());
    lemma_in_flight_frame(d, e);
}

/// The broadcast touches the stations, the units and the entries of the
/// reorder buffer, and nothing else.
pub proof fn lemma_tick_upto_frame(s: Pipeline, n: nat)
    ensures
        s.tick_upto(n).done == s.done,
        s.tick_upto(n).queue == s.queue,
        s.tick_upto(n).regs == s.regs,
        s.tick_upto(n).reg_stat == s.reg_stat,
        s.tick_upto(n).commits == s.commits,
        s.tick_upto(n).cycles == s.cycles,
        s.tick_upto(n).next_tag == s.next_tag,
    decreases n,
{
    if n > 0 {
        lemma_tick_upto_frame(s, (n - 1) as nat);
    }
}

/// Retirements leave the flag as it is.
pub proof fn lemma_retire_n_done(s: Pipeline, n: nat)
    ensures
        s.retire_n(n).done == s.done,
    decreases n,
{
    if n > 0 {
        lemma_retire_n_done(s.retire(), (n - 1) as nat);
    }
}

/// Issues leave the flag and the count of cycles as they are.
pub proof fn lemma_issue_n_done(s: Pipeline, k: nat)
    ensures
        s.issue_n(k).done == s.done,
        s.issue_n(k).cycles == s.cycles,
    decreases k,
{
    if k > 0 && s.issues() {
        lemma_issue_n_done(s.issue(), (k - 1) as nat);
    }
}

/// Dispatch touches the stations' flags and the units, and nothing else.
pub proof fn lemma_dispatch_upto_frame(s: Pipeline, n: nat)
    requires
        n <= s.rs.len(),
    ensures
        s.dispatch_upto(n).rob == s.rob,
        s.dispatch_upto(n).queue == s.queue,
        s.dispatch_upto(n).done == s.done,
        s.dispatch_upto(n).rs.len() == s.rs.len(),
        s.dispatch_upto(n).regs == s.regs,
        s.dispatch_upto(n).commits == s.commits,
        s.dispatch_upto(n).cycles == s.cycles,
    decreases n,
{
    if n > 0 {
        lemma_dispatch_upto_frame(s, (n - 1) as nat);
    }
}

/// Weights that are all zero sum to zero.
pub proof fn lemma_weigh_zero<T>(s: Seq<T>, w: spec_fn(T) -> nat, n: nat)
    requires
        forall|k: int| 0 <= k < n ==> w(#[trigger] s[k]) == 0,
    ensures
        weigh(s, w, n) == 0,
    decreases n,
{
    if n > 0 {
        lemma_weigh_zero(s, w, (n - 1) as nat);
    }
}

/// With nothing in flight, the work left is the queue's: 64 for each
/// instruction, and 1 until the processor is marked done.
pub proof fn lemma_idle_work(s: Pipeline)
    requires
        s.wf(),
        s.in_flight() == 0,
    ensures
        s.work() == (if s.done {
            0nat
        } else {
            1nat
        }) + 64 * s.queue.len(),
{
    assert forall|k: int| 0 <= k < s.rs.len() implies station_work(#[trigger] s.rs[k]) == 0 by {
        if s.rs[k].busy {
            assert(s.station_ok(k));
        }
    }
    assert forall|u: int| 0 <= u < s.exec_units.len() implies unit_work(
        #[trigger] s.exec_units[u],
    ) == 0 by {
        if s.exec_units[u].busy {
            assert(s.unit_ok(u));
            assert(s.station_ok(s.exec_units[u].rs_index as int));
        }
    }
    lemma_weigh_zero(s.rs, |st: ReservedStation| station_work(st), s.rs.len());
    lemma_weigh_zero(s.exec_units, |u: ExecUint| unit_work(u), s.exec_units.len());
}

/// The processor as it is built can execute every instruction, and has
/// nothing in flight.
pub proof fn lemma_initial_equipped()
    ensures
        Pipeline::initial().equipped(),
        Pipeline::initial().in_flight() == 0,
{
    let s = Pipeline::initial();
    assert(s.rs.len() == 11);
    assert(s.exec_units.len() == 11);
    assert(s.rob.len() == 6);
    assert(s.rs[0].rs_type == ResStationType::AddSub);
    assert(s.rs[3].rs_type == ResStationType::MulDiv);
    assert(s.rs[5].rs_type == ResStationType::LoadStore);
    assert(s.rs[8].rs_type == ResStationType::JUMP);
    assert(s.exec_units[0].rs_type == ResStationType::AddSub);
    assert(s.exec_units[3].rs_type == ResStationType::MulDiv);
    assert(s.exec_units[5].rs_type == ResStationType::LoadStore);
    assert(s.exec_units[8].rs_type == ResStationType::JUMP);
    lemma_first_where(s.rs, |st: ReservedStation| st.rs_type == ResStationType::AddSub, 0);
    lemma_first_where(s.rs, |st: ReservedStation| st.rs_type == ResStationType::MulDiv, 0);
    lemma_first_where(s.rs, |st: ReservedStation| st.rs_type == ResStationType::LoadStore, 0);
    lemma_first_where(s.rs, |st: ReservedStation| st.rs_type == ResStationType::JUMP, 0);
    lemma_first_where(s.exec_units, |u: ExecUint| u.rs_type == ResStationType::AddSub, 0);
    lemma_first_where(s.exec_units, |u: ExecUint| u.rs_type == ResStationType::MulDiv, 0);
    lemma_first_where(s.exec_units, |u: ExecUint| u.rs_type == ResStationType::LoadStore, 0);
    lemma_first_where(s.exec_units, |u: ExecUint| u.rs_type == ResStationType::JUMP, 0);
    assert(!s.rob[0].busy);
    lemma_first_where_is(s.rob, |e: ReorderBuffer| !e.busy, 0, 0);
}

} // verus!
