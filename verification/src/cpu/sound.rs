//! What holds of every state that the processor reaches.

use vstd::prelude::*;

use super::pipeline::{is_store, retirable, Pipeline};
use super::search::{
    first_where, lemma_first_where, lemma_first_where_append, lemma_first_where_is,
    lemma_first_where_same,
};
use super::tomasulo::{ExecUint, ReorderBuffer, ResStationType, ReservedStation, Tag};
use super::REGISTER_COUNT;

verus! {

impl Pipeline {
    /// Number of instructions in flight: the busy entries of the reorder
    /// buffer, which are its first ones.
    pub open spec fn in_flight(self) -> int {
        self.free_slot()
    }

    /// Index of the station that computes the result named `tag`; the
    /// number of stations where none does.
    pub open spec fn station_of(self, tag: Tag) -> int {
        first_where(self.rs, |st: ReservedStation| st.busy && st.inner.dest == Some(tag), 0)
    }

    /// Index of the unit that works on station `i`; the number of units
    /// where none does.
    pub open spec fn unit_of(self, i: int) -> int {
        first_where(self.exec_units, |u: ExecUint| u.busy && u.rs_index == i, 0)
    }

    /// No store is among the first `k` entries of the reorder buffer.
    pub open spec fn no_store_before(self, k: int) -> bool {
        forall|j: int| 0 <= j < k ==> !is_store(#[trigger] self.rob[j])
    }

    /// `tag` names an instruction in flight whose result is not computed.
    pub open spec fn awaited(self, tag: Tag) -> bool {
        0 <= self.slot(tag) < self.in_flight() && !self.rob[self.slot(tag)].ready
    }

    /// Sizes, tags and the order of the reorder buffer: tags rise by one
    /// from entry to entry, and the busy entries come first.
    pub open spec fn shape_ok(self) -> bool {
        &&& self.regs.len() == REGISTER_COUNT
        &&& self.reg_stat.len() == REGISTER_COUNT
        &&& self.rs.len() <= usize::MAX
        &&& self.rob.len() <= self.next_tag
        &&& forall|j: int|
            0 <= j < self.rob.len() ==> (#[trigger] self.rob[j]).index.id == self.head_tag() + j
        &&& self.next_tag + self.queue.len() + self.in_flight() <= u64::MAX
        &&& forall|j: int| self.in_flight() <= j < self.rob.len() ==> !(#[trigger] self.rob[j]).busy
    }

    /// Entry `j` of the reorder buffer, in flight, holds a sound
    /// instruction; it has its value, or a station that computes it.
    pub open spec fn entry_ok(self, j: int) -> bool {
        let e = self.rob[j];
        &&& e.inner.inst is Some
        &&& e.inner.inst->0.fault() is None
        &&& e.inner.dest == e.inner.inst->0.dest()
        &&& e.ready ==> e.inner.value is Some
        &&& !e.ready ==> self.station_of(e.index) < self.rs.len()
    }

    /// An operand is known, or waits for an older instruction whose result
    /// is not computed.
    pub open spec fn source_ok(
        self,
        q: Option<Tag>,
        v: Option<i32>,
        reg: Option<usize>,
        k: int,
    ) -> bool {
        match q {
            Some(t) => reg is Some && self.awaited(t) && self.slot(t) < k,
            None => reg is Some ==> v is Some,
        }
    }

    /// Station `i`, busy, serves exactly one instruction in flight whose
    /// result is not computed, and is the only station to do so. A load
    /// that a unit works on has no store before it in the reorder buffer.
    pub open spec fn station_ok(self, i: int) -> bool {
        let st = self.rs[i];
        let k = self.slot(st.inner.dest->0);
        let inst = st.inner.inst->0;
        &&& st.inner.dest is Some
        &&& self.awaited(st.inner.dest->0)
        &&& self.station_of(st.inner.dest->0) == i
        &&& st.inner.inst is Some
        &&& st.inner.inst == self.rob[k].inner.inst
        &&& st.rs_type == ResStationType::of(inst)
        &&& self.source_ok(st.inner.rs_index, st.inner.rs_value, inst.source1(), k)
        &&& self.source_ok(st.inner.rt_index, st.inner.rt_value, inst.source2(), k)
        &&& st.dispatched ==> {
            &&& st.inner.rs_index is None
            &&& st.inner.rt_index is None
            &&& self.unit_of(i) < self.exec_units.len()
            &&& inst is Ld ==> self.no_store_before(k)
        }
    }

    /// A busy register names its producer, an instruction in flight that
    /// writes it; an idle one names nothing.
    pub open spec fn status_ok(self, r: int) -> bool {
        let st = self.reg_stat[r];
        if st.busy {
            &&& st.reorder is Some
            &&& 0 <= self.slot(st.reorder->0) < self.in_flight()
            &&& self.rob[self.slot(st.reorder->0)].inner.dest == Some(r as usize)
        } else {
            st.reorder is None
        }
    }

    /// Unit `u`, busy, works on a dispatched station of its class, and is
    /// the only unit to do so.
    pub open spec fn unit_ok(self, u: int) -> bool {
        let unit = self.exec_units[u];
        let i = unit.rs_index as int;
        &&& i < self.rs.len()
        &&& self.rs[i].busy
        &&& self.rs[i].dispatched
        &&& self.rs[i].rs_type == unit.rs_type
        &&& self.unit_of(i) == u
    }

    /// What register renaming relies on: the shape, the registers' producers
    /// and the values of the entries that are ready.
    pub open spec fn renames(self) -> bool {
        &&& self.shape_ok()
        &&& forall|r: int| 0 <= r < self.reg_stat.len() ==> #[trigger] self.status_ok(r)
        &&& forall|j: int|
            0 <= j < self.in_flight() && self.rob[j].ready ==> (#[trigger] self.rob[j]).inner.value
                is Some
    }

    /// The state is one that the processor can be in.
    pub open spec fn wf(self) -> bool {
        &&& self.shape_ok()
        &&& forall|j: int| 0 <= j < self.in_flight() ==> #[trigger] self.entry_ok(j)
        &&& forall|i: int| 0 <= i < self.rs.len() && self.rs[i].busy ==> #[trigger] self.station_ok(i)
        &&& forall|i: int|
            0 <= i < self.rs.len() && !self.rs[i].busy ==> !(#[trigger] self.rs[i]).dispatched
        &&& forall|r: int| 0 <= r < self.reg_stat.len() ==> #[trigger] self.status_ok(r)
        &&& forall|u: int|
            0 <= u < self.exec_units.len() && self.exec_units[u].busy ==> #[trigger] self.unit_ok(u)
    }
}

/// The busy entries of the reorder buffer are the first `in_flight` ones.
pub proof fn lemma_in_flight(s: Pipeline)
    ensures
        0 <= s.in_flight() <= s.rob.len(),
        forall|j: int| 0 <= j < s.in_flight() ==> (#[trigger] s.rob[j]).busy,
        s.in_flight() < s.rob.len() ==> !s.rob[s.in_flight()].busy,
{
    lemma_first_where(s.rob, |e: ReorderBuffer| !e.busy, 0);
}

/// A sound state has what register renaming relies on.
pub proof fn lemma_wf_renames(s: Pipeline)
    requires
        s.wf(),
    ensures
        s.renames(),
{
    assert forall|j: int| 0 <= j < s.in_flight() && s.rob[j].ready implies (#[trigger] s.rob[j]).inner.value
        is Some by {
        assert(s.entry_ok(j));
    }
}

/// No two entries of the reorder buffer share a tag.
pub proof fn lemma_tags_unique(s: Pipeline, i: int, j: int)
    requires
        s.wf(),
        0 <= i < s.rob.len(),
        0 <= j < s.rob.len(),
        i != j,
    ensures
        s.rob[i].index != s.rob[j].index,
{
}

/// Tags are not reused: every tag in the reorder buffer is below the tag
/// that the next new entry gets, which is the tag of the entry that joins
/// the buffer when the head retires.
pub proof fn lemma_tags_fresh(s: Pipeline, j: int)
    requires
        s.wf(),
        0 <= j < s.rob.len(),
    ensures
        s.rob[j].index.id < s.next_tag,
        s.retire().rob[s.rob.len() - 1].index.id == s.next_tag,
        s.retire().next_tag == s.next_tag + 1,
{
    lemma_in_flight(s);
}

/// The dispatch of one station keeps the state sound.
pub proof fn lemma_dispatch_one_wf(s: Pipeline, i: int)
    requires
        s.wf(),
        0 <= i < s.rs.len(),
    ensures
        s.dispatch_one(i).wf(),
{
    let t = s.dispatch_one(i);
    let st = s.rs[i];
    let u = s.free_unit(st.rs_type);
    if t != s {
        lemma_first_where(s.exec_units, |x: ExecUint| !x.busy && x.rs_type == st.rs_type, 0);
        lemma_first_where(s.rob, |e: ReorderBuffer| is_store(e), 0);
        assert(s.station_ok(i));
        assert(t.rob == s.rob);
        assert(t.in_flight() == s.in_flight());
        assert forall|tag: Tag| t.station_of(tag) == s.station_of(tag) by {
            lemma_first_where_same(
                s.rs,
                |x: ReservedStation| x.busy && x.inner.dest == Some(tag),
                t.rs,
                |x: ReservedStation| x.busy && x.inner.dest == Some(tag),
                0,
            );
        }
        // units: unit u now serves station i; no other busy unit served i
        assert forall|k: int| 0 <= k < t.rs.len() implies t.unit_of(k) == (if k == i {
            u
        } else {
            s.unit_of(k)
        }) by {
            if k == i {
                // no busy unit in s serves i, since i was not dispatched
                assert forall|w: int| 0 <= w < s.exec_units.len() implies !(
                s.exec_units[w].busy && s.exec_units[w].rs_index == i) by {
                    if s.exec_units[w].busy {
                        assert(s.unit_ok(w));
                    }
                }
                lemma_first_where_is(
                    t.exec_units,
                    |x: ExecUint| x.busy && x.rs_index == k,
                    0,
                    u,
                );
            } else {
                lemma_first_where_same(
                    s.exec_units,
                    |x: ExecUint| x.busy && x.rs_index == k,
                    t.exec_units,
                    |x: ExecUint| x.busy && x.rs_index == k,
                    0,
                );
            }
        }
        assert forall|j: int| 0 <= j < t.in_flight() implies #[trigger] t.entry_ok(j) by {
            assert(s.entry_ok(j));
        }
        assert forall|k: int| 0 <= k < t.rs.len() && t.rs[k].busy implies #[trigger] t.station_ok(
            k,
        ) by {
            assert(s.station_ok(k));
        }
        assert forall|r: int| 0 <= r < t.reg_stat.len() implies #[trigger] t.status_ok(r) by {
            assert(s.status_ok(r));
        }
        assert forall|w: int|
            0 <= w < t.exec_units.len() && t.exec_units[w].busy implies #[trigger] t.unit_ok(
            w,
        ) by {
            if w != u {
                assert(s.unit_ok(w));
            }
        }
    }
}

/// The stations that compute the results of other tags stay where they are
/// when one station alone changes and serves none of those tags before or
/// after.
pub proof fn lemma_station_of_frame(s: Pipeline, t: Pipeline, i: int, tag: Tag)
    requires
        s.rs.len() == t.rs.len(),
        forall|k: int|
            0 <= k < s.rs.len() && k != i ==> (#[trigger] t.rs[k]).busy == s.rs[k].busy
                && t.rs[k].inner.dest == s.rs[k].inner.dest,
        0 <= i < s.rs.len() ==> !(s.rs[i].busy && s.rs[i].inner.dest == Some(tag)),
        0 <= i < s.rs.len() ==> !(t.rs[i].busy && t.rs[i].inner.dest == Some(tag)),
    ensures
        t.station_of(tag) == s.station_of(tag),
{
    lemma_first_where_same(
        s.rs,
        |x: ReservedStation| x.busy && x.inner.dest == Some(tag),
        t.rs,
        |x: ReservedStation| x.busy && x.inner.dest == Some(tag),
        0,
    );
}

/// The units that work on other stations stay where they are when one unit
/// alone changes and works on none of those stations before or after.
pub proof fn lemma_unit_of_frame(s: Pipeline, t: Pipeline, u: int, i: int)
    requires
        s.exec_units.len() == t.exec_units.len(),
        forall|k: int|
            0 <= k < s.exec_units.len() && k != u ==> (#[trigger] t.exec_units[k])
                == s.exec_units[k],
        0 <= u < s.exec_units.len() ==> !(s.exec_units[u].busy && s.exec_units[u].rs_index == i),
        0 <= u < s.exec_units.len() ==> !(t.exec_units[u].busy && t.exec_units[u].rs_index == i),
    ensures
        t.unit_of(i) == s.unit_of(i),
{
    lemma_first_where_same(
        s.exec_units,
        |x: ExecUint| x.busy && x.rs_index == i,
        t.exec_units,
        |x: ExecUint| x.busy && x.rs_index == i,
        0,
    );
}

/// The number of instructions in flight depends on the busy flags alone.
pub proof fn lemma_in_flight_frame(s: Pipeline, t: Pipeline)
    requires
        s.rob.len() == t.rob.len(),
        forall|k: int| 0 <= k < s.rob.len() ==> (#[trigger] t.rob[k]).busy == s.rob[k].busy,
    ensures
        t.in_flight() == s.in_flight(),
{
    lemma_first_where_same(
        s.rob,
        |e: ReorderBuffer| !e.busy,
        t.rob,
        |e: ReorderBuffer| !e.busy,
        0,
    );
}

/// A unit that finishes keeps the state sound.
pub proof fn lemma_complete_wf(s: Pipeline, u: int)
    requires
        s.wf(),
        0 <= u < s.exec_units.len(),
        s.exec_units[u].busy,
    ensures
        s.complete(u).wf(),
{
    let t = s.complete(u);
    let unit = s.exec_units[u];
    let i = unit.rs_index as int;
    let st = s.rs[i];
    let tag = st.inner.dest->0;
    let j = s.slot(tag);
    assert(s.unit_ok(u));
    assert(s.station_ok(i));
    lemma_in_flight(s);
    lemma_in_flight_frame(s, t);
    assert forall|tg: Tag| tg != tag implies t.station_of(tg) == s.station_of(tg) by {
        lemma_station_of_frame(s, t, i, tg);
    }
    assert forall|k: int| 0 <= k < s.rs.len() && k != i implies t.unit_of(k) == s.unit_of(k) by {
        lemma_unit_of_frame(s, t, u, k);
    }
    assert forall|k: int| 0 <= k < t.in_flight() implies #[trigger] t.entry_ok(k) by {
        assert(s.entry_ok(k));
        if k != j {
            assert(s.rob[k].index != tag);
        }
    }
    assert forall|k: int| 0 <= k < t.rs.len() && t.rs[k].busy implies #[trigger] t.station_ok(
        k,
    ) by {
        assert(k != i);
        assert(s.station_ok(k));
        assert(s.rs[k].inner.dest->0 != tag);
    }
    assert forall|r: int| 0 <= r < t.reg_stat.len() implies #[trigger] t.status_ok(r) by {
        assert(s.status_ok(r));
    }
    assert forall|w: int|
        0 <= w < t.exec_units.len() && t.exec_units[w].busy implies #[trigger] t.unit_ok(w) by {
        assert(w != u);
        assert(s.unit_ok(w));
    }
}

/// One cycle of one unit keeps the state sound.
pub proof fn lemma_tick_unit_wf(s: Pipeline, u: int)
    requires
        s.wf(),
        0 <= u < s.exec_units.len(),
    ensures
        s.tick_unit(u).wf(),
{
    let t = s.tick_unit(u);
    let unit = s.exec_units[u];
    if !unit.busy {
    } else if unit.cycles > 1 {
        assert forall|k: int| 0 <= k < s.rs.len() implies t.unit_of(k) == s.unit_of(k) by {
            lemma_first_where_same(
                s.exec_units,
                |x: ExecUint| x.busy && x.rs_index == k,
                t.exec_units,
                |x: ExecUint| x.busy && x.rs_index == k,
                0,
            );
        }
        assert forall|j: int| 0 <= j < t.in_flight() implies #[trigger] t.entry_ok(j) by {
            assert(s.entry_ok(j));
        }
        assert forall|k: int| 0 <= k < t.rs.len() && t.rs[k].busy implies #[trigger] t.station_ok(
            k,
        ) by {
            assert(s.station_ok(k));
        }
        assert forall|r: int| 0 <= r < t.reg_stat.len() implies #[trigger] t.status_ok(r) by {
            assert(s.status_ok(r));
        }
        assert forall|w: int|
            0 <= w < t.exec_units.len() && t.exec_units[w].busy implies #[trigger] t.unit_ok(
            w,
        ) by {
            assert(s.unit_ok(w));
        }
    } else {
        lemma_complete_wf(s, u);
    }
}

/// Issuing the head of the queue keeps the state sound.
pub proof fn lemma_issue_wf(s: Pipeline)
    requires
        s.wf(),
    ensures
        s.issue().wf(),
        s.issues() ==> s.issue().in_flight() == s.in_flight() + 1,
{
    if s.issues() {
        let t = s.issue();
        let inst = s.queue[0];
        let class = ResStationType::of(inst);
        let i = s.free_station(class);
        let j = s.free_slot();
        let tag = s.rob[j].index;
        lemma_in_flight(s);
        lemma_first_where(s.rs, |st: ReservedStation| !st.busy && st.rs_type == class, 0);
        assert(t.in_flight() == j + 1) by {
            lemma_first_where_is(t.rob, |e: ReorderBuffer| !e.busy, 0, j + 1);
        }
        assert forall|k: int| 0 <= k < s.rs.len() && s.rs[k].busy implies s.rs[k].inner.dest
            != Some(tag) by {
            assert(s.station_ok(k));
        }
        assert(t.station_of(tag) == i) by {
            lemma_first_where_is(
                t.rs,
                |x: ReservedStation| x.busy && x.inner.dest == Some(tag),
                0,
                i,
            );
        }
        assert forall|tg: Tag| tg != tag implies t.station_of(tg) == s.station_of(tg) by {
            lemma_station_of_frame(s, t, i, tg);
        }
        assert forall|k: int| 0 <= k < t.in_flight() implies #[trigger] t.entry_ok(k) by {
            if k < j {
                assert(s.entry_ok(k));
                assert(s.rob[k].index != tag);
            }
        }
        assert forall|r: int| 0 <= r < t.reg_stat.len() implies #[trigger] t.status_ok(r) by {
            assert(s.status_ok(r));
        }
        assert forall|k: int| 0 <= k < t.rs.len() && t.rs[k].busy implies #[trigger] t.station_ok(
            k,
        ) by {
            if k != i {
                assert(s.station_ok(k));
            } else {
                if inst.source1() is Some {
                    assert(s.status_ok(inst.source1()->0 as int));
                    let p = s.slot(s.reg_stat[inst.source1()->0 as int].reorder->0);
                    if s.reg_stat[inst.source1()->0 as int].busy {
                        assert(s.entry_ok(p));
                    }
                }
                if inst.source2() is Some {
                    assert(s.status_ok(inst.source2()->0 as int));
                    let p = s.slot(s.reg_stat[inst.source2()->0 as int].reorder->0);
                    if s.reg_stat[inst.source2()->0 as int].busy {
                        assert(s.entry_ok(p));
                    }
                }
            }
        }
        assert forall|w: int|
            0 <= w < t.exec_units.len() && t.exec_units[w].busy implies #[trigger] t.unit_ok(
            w,
        ) by {
            assert(s.unit_ok(w));
        }
    }
}

/// Retiring the head of the reorder buffer keeps the state sound.
pub proof fn lemma_retire_wf(s: Pipeline)
    requires
        s.wf(),
        s.rob.len() >= 1,
        retirable(s.rob[0]),
    ensures
        s.retire().wf(),
        s.retire().in_flight() == s.in_flight() - 1,
{
    let t = s.retire();
    lemma_in_flight(s);
    assert(s.in_flight() >= 1);
    assert(s.entry_ok(0));
    assert(t.in_flight() == s.in_flight() - 1) by {
        lemma_first_where_is(t.rob, |e: ReorderBuffer| !e.busy, 0, s.in_flight() - 1);
    }
    assert forall|tg: Tag| t.slot(tg) == s.slot(tg) - 1 by {}
    assert forall|tg: Tag| t.station_of(tg) == s.station_of(tg) by {}
    assert forall|k: int| 0 <= k < t.in_flight() implies #[trigger] t.entry_ok(k) by {
        assert(s.entry_ok(k + 1));
    }
    assert forall|k: int| 0 <= k < t.rs.len() && t.rs[k].busy implies #[trigger] t.station_ok(
        k,
    ) by {
        assert(s.station_ok(k));
    }
    assert forall|r: int| 0 <= r < t.reg_stat.len() implies #[trigger] t.status_ok(r) by {
        assert(s.status_ok(r));
    }
    assert forall|w: int|
        0 <= w < t.exec_units.len() && t.exec_units[w].busy implies #[trigger] t.unit_ok(w) by {
        assert(s.unit_ok(w));
    }
}

impl Pipeline {
    /// The two states have the same pools: as many stations and units, of
    /// the same classes, and as many reorder-buffer entries.
    pub open spec fn same_pools(self, other: Pipeline) -> bool {
        &&& self.rs.len() == other.rs.len()
        &&& self.exec_units.len() == other.exec_units.len()
        &&& self.rob.len() == other.rob.len()
        &&& forall|i: int|
            0 <= i < self.rs.len() ==> (#[trigger] self.rs[i]).rs_type == other.rs[i].rs_type
        &&& forall|u: int|
            0 <= u < self.exec_units.len() ==> (#[trigger] self.exec_units[u]).rs_type
                == other.exec_units[u].rs_type
    }
}

/// One cycle of the first `n` units keeps the state sound and the pools as
/// they are.
pub proof fn lemma_tick_upto_wf(s: Pipeline, n: nat)
    requires
        s.wf(),
        n <= s.exec_units.len(),
    ensures
        s.tick_upto(n).wf(),
        s.tick_upto(n).same_pools(s),
        s.tick_upto(n).cycles == s.cycles,
        s.tick_upto(n).in_flight() == s.in_flight(),
    decreases n,
{
    if n > 0 {
        lemma_tick_upto_wf(s, (n - 1) as nat);
        let m = s.tick_upto((n - 1) as nat);
        lemma_tick_unit_wf(m, n - 1);
        let t = m.tick_unit(n - 1);
        lemma_in_flight(m);
        if m.exec_units[n - 1].busy {
            assert(m.unit_ok(n - 1));
            assert(m.station_ok(m.exec_units[n - 1].rs_index as int));
        }
        lemma_in_flight_frame(m, t);
        assert forall|i: int| 0 <= i < t.rs.len() implies (#[trigger] t.rs[i]).rs_type
            == s.rs[i].rs_type by {
            assert(m.rs[i].rs_type == s.rs[i].rs_type);
        }
        assert forall|u: int| 0 <= u < t.exec_units.len() implies (#[trigger] t.exec_units[u]).rs_type
            == s.exec_units[u].rs_type by {
            assert(m.exec_units[u].rs_type == s.exec_units[u].rs_type);
        }
    }
}

/// The dispatch of the first `n` stations keeps the state sound and the
/// pools as they are.
pub proof fn lemma_dispatch_upto_wf(s: Pipeline, n: nat)
    requires
        s.wf(),
        n <= s.rs.len(),
    ensures
        s.dispatch_upto(n).wf(),
        s.dispatch_upto(n).same_pools(s),
    decreases n,
{
    if n > 0 {
        lemma_dispatch_upto_wf(s, (n - 1) as nat);
        let m = s.dispatch_upto((n - 1) as nat);
        lemma_dispatch_one_wf(m, n - 1);
        lemma_first_where(
            m.exec_units,
            |x: ExecUint| !x.busy && x.rs_type == m.rs[n - 1].rs_type,
            0,
        );
    }
}

/// After the head retires, one entry fewer can retire.
pub proof fn lemma_committable_retire(s: Pipeline)
    requires
        s.rob.len() >= 1,
        retirable(s.rob[0]),
    ensures
        s.committable() >= 1,
        s.retire().committable() == s.committable() - 1,
{
    let p = |e: ReorderBuffer| !retirable(e);
    lemma_first_where(s.rob, p, 0);
    let c = s.committable();
    assert(c >= 1) by {
        if c == 0 {
            assert(p(s.rob[0]));
        }
    }
    let t = s.retire();
    assert forall|k: int| 0 <= k < c - 1 implies !p(#[trigger] t.rob[k]) by {
        assert(t.rob[k] == s.rob[k + 1]);
    }
    lemma_first_where_is(t.rob, p, 0, c - 1);
}

/// An entry can retire exactly where the head can.
pub proof fn lemma_committable_head(s: Pipeline)
    requires
        s.rob.len() >= 1,
    ensures
        s.committable() >= 1 <==> retirable(s.rob[0]),
        0 <= s.committable() <= s.rob.len(),
{
    let p = |e: ReorderBuffer| !retirable(e);
    lemma_first_where(s.rob, p, 0);
    if retirable(s.rob[0]) {
        lemma_committable_retire(s);
    }
}

/// Retiring entries that can retire keeps the state sound and the pools as
/// they are.
pub proof fn lemma_retire_n_wf(s: Pipeline, n: nat)
    requires
        s.wf(),
        s.rob.len() >= 1,
        n <= s.committable(),
    ensures
        s.retire_n(n).wf(),
        s.retire_n(n).same_pools(s),
        s.retire_n(n).queue == s.queue,
        s.retire_n(n).cycles == s.cycles,
        s.retire_n(n).in_flight() == s.in_flight() - n,
    decreases n,
{
    if n > 0 {
        lemma_committable_head(s);
        lemma_committable_retire(s);
        lemma_retire_wf(s);
        lemma_retire_n_wf(s.retire(), (n - 1) as nat);
    }
}

/// The commit phase keeps the state sound and the pools as they are.
pub proof fn lemma_commit_wf(s: Pipeline)
    requires
        s.wf(),
        s.rob.len() >= 1,
    ensures
        s.commit().wf(),
        s.commit().same_pools(s),
        s.commit().queue == s.queue,
        s.commit().cycles == s.cycles,
        s.commit().in_flight() <= s.in_flight(),
{
    if s.drained() {
        lemma_wf_frame(s, s.commit());
    } else {
        lemma_committable_head(s);
        lemma_retire_n_wf(s, s.committable() as nat);
    }
}

/// Up to `k` issues keep the state sound and the pools as they are.
pub proof fn lemma_issue_n_wf(s: Pipeline, k: nat)
    requires
        s.wf(),
    ensures
        s.issue_n(k).wf(),
        s.issue_n(k).same_pools(s),
    decreases k,
{
    if k > 0 && s.issues() {
        lemma_issue_wf(s);
        lemma_in_flight(s);
        lemma_first_where(
            s.rs,
            |st: ReservedStation| !st.busy && st.rs_type == ResStationType::of(s.queue[0]),
            0,
        );
        lemma_issue_n_wf(s.issue(), (k - 1) as nat);
    }
}

/// Soundness does not depend on the registers' values, the memory, the
/// count of cycles, the record of retirements or the flag, nor on what is
/// queued while tags last.
pub proof fn lemma_wf_frame(s: Pipeline, t: Pipeline)
    requires
        s.wf(),
        t.rob == s.rob,
        t.rs == s.rs,
        t.reg_stat == s.reg_stat,
        t.exec_units == s.exec_units,
        t.regs.len() == s.regs.len(),
        t.next_tag == s.next_tag,
        t.next_tag + t.queue.len() + s.in_flight() <= u64::MAX,
    ensures
        t.wf(),
        t.in_flight() == s.in_flight(),
{
    assert forall|j: int| 0 <= j < t.in_flight() implies #[trigger] t.entry_ok(j) by {
        assert(s.entry_ok(j));
    }
    assert forall|k: int| 0 <= k < t.rs.len() && t.rs[k].busy implies #[trigger] t.station_ok(
        k,
    ) by {
        assert(s.station_ok(k));
    }
    assert forall|r: int| 0 <= r < t.reg_stat.len() implies #[trigger] t.status_ok(r) by {
        assert(s.status_ok(r));
    }
    assert forall|w: int|
        0 <= w < t.exec_units.len() && t.exec_units[w].busy implies #[trigger] t.unit_ok(w) by {
        assert(s.unit_ok(w));
    }
}

/// A cycle keeps the state sound and the pools as they are.
pub proof fn lemma_step_wf(s: Pipeline, k: nat)
    requires
        s.wf(),
        s.rob.len() >= 1,
    ensures
        s.write_result().wf(),
        s.write_result().same_pools(s),
        s.write_result().commit().cycles == s.cycles,
        s.retired().wf(),
        s.retired().same_pools(s),
        s.retired().issue_n(k).wf(),
        s.retired().issue_n(k).same_pools(s),
        s.step(k).wf(),
        s.step(k).same_pools(s),
{
    lemma_tick_upto_wf(s, s.exec_units.len());
    let a = s.write_result();
    lemma_commit_wf(a);
    let b = a.commit();
    lemma_wf_frame(b, Pipeline { cycles: b.cycles + 1, ..b });
    let c = s.retired();
    lemma_issue_n_wf(c, k);
    let d = c.issue_n(k);
    lemma_dispatch_upto_wf(d, d.rs.len());
}

/// A processor without stations, units or reorder buffer is sound.
pub proof fn lemma_empty_wf()
    ensures
        Pipeline::empty().wf(),
{
    let s = Pipeline::empty();
    lemma_in_flight(s);
}

/// More stations keep the state sound.
pub proof fn lemma_add_rs_wf(s: Pipeline, t: ResStationType, count: nat)
    requires
        s.wf(),
        s.rs.len() + count <= usize::MAX,
    ensures
        s.add_rs(t, count).wf(),
{
    let n = s.add_rs(t, count);
    assert(n.rob == s.rob);
    assert forall|tag: Tag| s.station_of(tag) < s.rs.len() implies n.station_of(tag)
        == s.station_of(tag) by {
        lemma_first_where_append(
            s.rs,
            n.rs.subrange(s.rs.len() as int, n.rs.len() as int),
            |x: ReservedStation| x.busy && x.inner.dest == Some(tag),
            0,
        );
        assert(s.rs + n.rs.subrange(s.rs.len() as int, n.rs.len() as int) =~= n.rs);
    }
    assert forall|j: int| 0 <= j < n.in_flight() implies #[trigger] n.entry_ok(j) by {
        assert(s.entry_ok(j));
    }
    assert forall|k: int| 0 <= k < n.rs.len() && n.rs[k].busy implies #[trigger] n.station_ok(
        k,
    ) by {
        assert(s.station_ok(k));
    }
    assert forall|r: int| 0 <= r < n.reg_stat.len() implies #[trigger] n.status_ok(r) by {
        assert(s.status_ok(r));
    }
    assert forall|w: int|
        0 <= w < n.exec_units.len() && n.exec_units[w].busy implies #[trigger] n.unit_ok(w) by {
        assert(s.unit_ok(w));
    }
}

/// More execution units keep the state sound.
pub proof fn lemma_add_exec_unit_wf(s: Pipeline, t: ResStationType, count: nat)
    requires
        s.wf(),
    ensures
        s.add_exec_unit(t, count).wf(),
{
    let n = s.add_exec_unit(t, count);
    assert(n.rob == s.rob);
    assert forall|i: int| s.unit_of(i) < s.exec_units.len() implies n.unit_of(i) == s.unit_of(
        i,
    ) by {
        lemma_first_where_append(
            s.exec_units,
            n.exec_units.subrange(s.exec_units.len() as int, n.exec_units.len() as int),
            |x: ExecUint| x.busy && x.rs_index == i,
            0,
        );
        assert(s.exec_units + n.exec_units.subrange(
            s.exec_units.len() as int,
            n.exec_units.len() as int,
        ) =~= n.exec_units);
    }
    assert forall|j: int| 0 <= j < n.in_flight() implies #[trigger] n.entry_ok(j) by {
        assert(s.entry_ok(j));
    }
    assert forall|k: int| 0 <= k < n.rs.len() && n.rs[k].busy implies #[trigger] n.station_ok(
        k,
    ) by {
        assert(s.station_ok(k));
    }
    assert forall|r: int| 0 <= r < n.reg_stat.len() implies #[trigger] n.status_ok(r) by {
        assert(s.status_ok(r));
    }
    assert forall|w: int|
        0 <= w < n.exec_units.len() && n.exec_units[w].busy implies #[trigger] n.unit_ok(w) by {
        assert(s.unit_ok(w));
    }
}

/// More reorder-buffer entries keep the state sound, while tags last.
pub proof fn lemma_add_rob_wf(s: Pipeline, count: nat)
    requires
        s.wf(),
        s.next_tag + count + s.queue.len() + s.in_flight() <= u64::MAX,
    ensures
        s.add_rob(count).wf(),
        s.add_rob(count).in_flight() == s.in_flight(),
{
    let n = s.add_rob(count);
    let extra = n.rob.subrange(s.rob.len() as int, n.rob.len() as int);
    lemma_in_flight(s);
    assert(n.in_flight() == s.in_flight()) by {
        lemma_first_where_append(s.rob, extra, |e: ReorderBuffer| !e.busy, 0);
        assert(s.rob + extra =~= n.rob);
        if s.in_flight() == s.rob.len() {
            lemma_first_where_is(
                n.rob,
                |e: ReorderBuffer| !e.busy,
                s.rob.len() as int,
                s.rob.len() as int,
            );
        }
    }
    assert forall|tg: Tag| n.slot(tg) == s.slot(tg) by {}
    assert forall|j: int| 0 <= j < n.in_flight() implies #[trigger] n.entry_ok(j) by {
        assert(s.entry_ok(j));
    }
    assert forall|k: int| 0 <= k < n.rs.len() && n.rs[k].busy implies #[trigger] n.station_ok(
        k,
    ) by {
        assert(s.station_ok(k));
    }
    assert forall|r: int| 0 <= r < n.reg_stat.len() implies #[trigger] n.status_ok(r) by {
        assert(s.status_ok(r));
    }
    assert forall|w: int|
        0 <= w < n.exec_units.len() && n.exec_units[w].busy implies #[trigger] n.unit_ok(w) by {
        assert(s.unit_ok(w));
    }
}

} // verus!
