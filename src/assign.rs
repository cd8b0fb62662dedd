//! The greedy earliest-finish-time assignment engine shared by HEFT and the
//! Buyya heuristic. Tasks are placed one at a time, in a given order; for
//! each, the caller supplies the finish time the task would have on every
//! device, and the engine picks the device, records the task's matching and
//! advances that device's delay table entry.
use crate::error::ScheduleError;
use crate::graph::{is_permutation, respects, Dependency, TaskGraph};
use crate::time::{
    finite, first_earliest, is_finite, is_first_earliest, later, latest_of, no_later, not_later,
    ZERO_BITS,
};
use vstd::prelude::*;

verus! {

/// Where a task runs and when it finishes (an encoded time, see `time`).
#[derive(Clone, Copy, Debug, Default, PartialEq, Eq, Structural)]
pub struct Matching {
    pub finish_time: u64,
    pub node: usize,
}

/// The matching of a task that has not been placed.
pub open spec fn unplaced() -> Matching {
    Matching { finish_time: ZERO_BITS, node: 0 }
}

/// The delay table entry of device `d` after the placements in `log`: the
/// finish time of the last task placed on `d`, or `+0` when there is none.
pub open spec fn delay_after(log: Seq<Matching>, d: usize) -> u64
    decreases log.len(),
{
    if log.len() == 0 {
        ZERO_BITS
    } else if log.last().node == d {
        log.last().finish_time
    } else {
        delay_after(log.drop_last(), d)
    }
}

/// Device `d` is the one chosen from the trial finish times `trials`: the
/// pinned device when there is one, else the first of the earliest.
pub open spec fn selects(pin: Option<usize>, trials: Seq<u64>, d: usize) -> bool {
    match pin {
        Some(p) => d == p,
        None => is_first_earliest(trials, d as int),
    }
}

/// Every pin names one of `devices` devices.
pub open spec fn pins_within(pins: Seq<Option<usize>>, devices: nat) -> bool {
    forall|t: int| 0 <= t < pins.len() ==> (#[trigger] pins[t] matches Some(p) ==> p < devices)
}

/// The state of one scheduling call: `order[..next]` have been placed, in
/// that order, and `log` records their matchings as they were made.
pub struct Assigner {
    pub order: Vec<usize>,
    pub pins: Vec<Option<usize>>,
    pub next: usize,
    pub matchings: Vec<Matching>,
    pub delay: Vec<u64>,
    pub log: Ghost<Seq<Matching>>,
}

impl Assigner {
    pub open spec fn task_count(&self) -> nat {
        self.pins@.len()
    }

    pub open spec fn device_count(&self) -> nat {
        self.delay@.len()
    }

    /// Every task has been placed.
    pub open spec fn complete(&self) -> bool {
        self.next == self.order@.len()
    }

    pub open spec fn wf(&self) -> bool {
        let log = self.log@;
        &&& is_permutation(self.order@, self.task_count())
        &&& self.matchings@.len() == self.task_count()
        &&& self.device_count() > 0
        &&& pins_within(self.pins@, self.device_count())
        &&& self.next <= self.order@.len()
        &&& log.len() == self.next
        &&& forall|i: int|
            0 <= i < self.next ==> #[trigger] log[i] == self.matchings@[self.order@[i] as int]
        &&& forall|i: int|
            self.next <= i < self.order@.len() ==> self.matchings@[#[trigger] self.order@[i] as int]
                == unplaced()
        &&& forall|i: int|
            0 <= i < self.next ==> (#[trigger] log[i]).node < self.device_count()
                && is_finite(log[i].finish_time)
        &&& forall|i: int|
            0 <= i < self.next ==> (self.pins@[#[trigger] self.order@[i] as int] matches Some(p)
                ==> log[i].node == p)
        &&& forall|d: usize|
            d < self.device_count() ==> #[trigger] self.delay@[d as int] == delay_after(log, d)
        &&& forall|i: int|
            0 <= i < self.next ==> no_later(
                (#[trigger] log[i]).finish_time,
                self.delay@[log[i].node as int],
            )
        &&& forall|i: int, j: int|
            0 <= i < j < self.next && (#[trigger] log[i]).node == (#[trigger] log[j]).node
                ==> no_later(log[i].finish_time, log[j].finish_time)
    }

    /// Starts a scheduling call over the tasks of `g`, taken in `order`, on
    /// `devices` devices. Fails with `EmptyTopology` when there is no device,
    /// and with `PinOutOfRange` when a task is pinned to a missing device.
    pub fn new(g: &TaskGraph, order: Vec<usize>, devices: usize) -> (r: Result<Assigner, ScheduleError>)
        requires
            is_permutation(order@, g.task_count()),
        ensures
            devices == 0 ==> r == Err::<Assigner, ScheduleError>(ScheduleError::EmptyTopology),
            devices > 0 && !pins_within(g.pins@, devices as nat) ==> r == Err::<Assigner, ScheduleError>(
                ScheduleError::PinOutOfRange,
            ),
            devices > 0 && pins_within(g.pins@, devices as nat) ==> r is Ok,
            r matches Ok(a) ==> {
                &&& a.wf()
                &&& a.next == 0
                &&& a.order@ == order@
                &&& a.pins@ == g.pins@
                &&& a.device_count() == devices
                &&& forall|d: int| 0 <= d < devices ==> #[trigger] a.delay@[d] == ZERO_BITS
                &&& forall|t: int| 0 <= t < g.task_count() ==> #[trigger] a.matchings@[t] == unplaced()
            },
    {
        if devices == 0 {
            return Err(ScheduleError::EmptyTopology);
        }
        let n = g.pins.len();
        let mut t: usize = 0;
        while t < n
            invariant
                t <= n,
                n == g.pins@.len(),
                devices > 0,
                forall|s: int| 0 <= s < t ==> (#[trigger] g.pins@[s] matches Some(p) ==> p < devices),
            decreases n - t,
        {
            if let Some(p) = g.pins[t] {
                if p >= devices {
                    return Err(ScheduleError::PinOutOfRange);
                }
            }
            t += 1;
        }
        let mut matchings: Vec<Matching> = Vec::new();
        let mut i: usize = 0;
        while i < n
            invariant
                i <= n,
                matchings@.len() == i,
                forall|s: int| 0 <= s < i ==> #[trigger] matchings@[s] == unplaced(),
            decreases n - i,
        {
            matchings.push(Matching { finish_time: ZERO_BITS, node: 0 });
            i += 1;
        }
        let mut delay: Vec<u64> = Vec::new();
        let mut d: usize = 0;
        while d < devices
            invariant
                d <= devices,
                delay@.len() == d,
                forall|s: int| 0 <= s < d ==> #[trigger] delay@[s] == ZERO_BITS,
            decreases devices - d,
        {
            delay.push(ZERO_BITS);
            d += 1;
        }
        let a = Assigner {
            order,
            pins: g.pins.clone(),
            next: 0,
            matchings,
            delay,
            log: Ghost(Seq::empty()),
        };
        assert(a.pins@ == g.pins@);
        Ok(a)
    }

    /// The next task to place, or `None` when every task has been placed.
    pub fn current_task(&self) -> (r: Option<usize>)
        requires
            self.wf(),
        ensures
            self.complete() ==> r is None,
            !self.complete() ==> r == Some(self.order@[self.next as int]),
    {
        if self.next < self.order.len() {
            Some(self.order[self.next])
        } else {
            None
        }
    }

    /// The device on which task `t` was placed (`0` before it is placed).
    pub fn device_of(&self, t: usize) -> (r: usize)
        requires
            self.wf(),
            t < self.task_count(),
        ensures
            r == self.matchings@[t as int].node,
            r < self.device_count(),
    {
        proof {
            assert(self.order@.contains(t));
            let i = choose|i: int| 0 <= i < self.order@.len() && self.order@[i] == t;
            if i < self.next {
                assert(self.log@[i] == self.matchings@[t as int]);
            }
        }
        self.matchings[t].node
    }

    /// The time at which device `d` next becomes free.
    pub fn delay_of(&self, d: usize) -> (r: u64)
        requires
            self.wf(),
            d < self.device_count(),
        ensures
            r == self.delay@[d as int],
    {
        self.delay[d]
    }

    /// The earliest start on each device of a task whose inputs are ready on
    /// device `μ` at `ready[μ]`: the later of that and the time the device
    /// becomes free.
    pub fn start_times(&self, ready: &Vec<u64>) -> (r: Vec<u64>)
        requires
            self.wf(),
            ready@.len() == self.device_count(),
        ensures
            r@.len() == self.device_count(),
            forall|d: int|
                0 <= d < r@.len() ==> #[trigger] r@[d] == latest_of(seq![ready@[d], self.delay@[d]]),
    {
        let mut r: Vec<u64> = Vec::new();
        let mut d: usize = 0;
        while d < self.delay.len()
            invariant
                d <= self.delay@.len(),
                ready@.len() == self.delay@.len(),
                r@.len() == d,
                forall|s: int|
                    0 <= s < d ==> #[trigger] r@[s] == latest_of(seq![ready@[s], self.delay@[s]]),
            decreases self.delay@.len() - d,
        {
            r.push(later(ready[d], self.delay[d]));
            d += 1;
        }
        r
    }

    /// Places the current task, given its finish time `trials[μ]` on each
    /// device `μ`. The device is the task's pin, or else the first device
    /// with the earliest finish time. Fails, leaving the state as it was,
    /// with `Unreachable` when that finish time is not a finite number, and
    /// with `FinishBeforeAvailable` when it precedes the device's delay.
    pub fn place(&mut self, trials: &Vec<u64>) -> (r: Result<usize, ScheduleError>)
        requires
            old(self).wf(),
            !old(self).complete(),
            trials@.len() == old(self).device_count(),
        ensures
            final(self).wf(),
            r matches Ok(d) ==> selects(
                old(self).pins@[old(self).order@[old(self).next as int] as int],
                trials@,
                d,
            ),
            forall|d: usize|
                selects(old(self).pins@[old(self).order@[old(self).next as int] as int], trials@, d)
                    ==> {
                    let t = old(self).order@[old(self).next as int];
                    let f = trials@[d as int];
                    let m = Matching { finish_time: f, node: d };
                    if !is_finite(f) {
                        r == Err::<usize, ScheduleError>(ScheduleError::Unreachable) && *final(self)
                            == *old(self)
                    } else if !no_later(old(self).delay@[d as int], f) {
                        r == Err::<usize, ScheduleError>(ScheduleError::FinishBeforeAvailable)
                            && *final(self) == *old(self)
                    } else {
                        &&& r == Ok::<usize, ScheduleError>(d)
                        &&& final(self).order@ == old(self).order@
                        &&& final(self).pins@ == old(self).pins@
                        &&& final(self).next == old(self).next + 1
                        &&& final(self).matchings@ == old(self).matchings@.update(t as int, m)
                        &&& final(self).delay@ == old(self).delay@.update(d as int, f)
                        &&& final(self).log@ == old(self).log@.push(m)
                    }
                },
    {
        let len = self.order.len();
        let t = self.order[self.next];
        proof {
            assert(self.order@.contains(t));
        }
        let d = match self.pins[t] {
            Some(p) => p,
            None => first_earliest(trials),
        };
        let f = trials[d];
        if !finite(f) {
            return Err(ScheduleError::Unreachable);
        }
        if !not_later(self.delay[d], f) {
            return Err(ScheduleError::FinishBeforeAvailable);
        }
        let ghost before = *self;
        let m = Matching { finish_time: f, node: d };
        self.matchings.set(t, m);
        self.delay.set(d, f);
        self.log = Ghost(self.log@.push(m));
        self.next = self.next + 1;
        proof {
            self.lemma_place_preserves(before, t, m);
            assert forall|d2: usize| selects(before.pins@[t as int], trials@, d2) implies d2 == d by {
                if before.pins@[t as int] is None {
                    crate::time::lemma_first_earliest_unique(trials@, d2 as int, d as int);
                }
            }
        }
        Ok(d)
    }

    proof fn lemma_place_preserves(self, before: Assigner, t: usize, m: Matching)
        requires
            before.wf(),
            !before.complete(),
            t == before.order@[before.next as int],
            m.node < before.device_count(),
            is_finite(m.finish_time),
            no_later(before.delay@[m.node as int], m.finish_time),
            before.pins@[t as int] matches Some(p) ==> m.node == p,
            self.order@ == before.order@,
            self.pins@ == before.pins@,
            self.next == before.next + 1,
            self.matchings@ == before.matchings@.update(t as int, m),
            self.delay@ == before.delay@.update(m.node as int, m.finish_time),
            self.log@ == before.log@.push(m),
        ensures
            self.wf(),
    {
        let log = self.log@;
        let n = before.next as int;
        assert(log.drop_last() =~= before.log@);
        assert forall|i: int| 0 <= i < self.next implies #[trigger] log[i] == self.matchings@[self.order@[i] as int] by {
            if i < n {
                assert(self.order@[i] != t);
            }
        }
        assert forall|i: int| self.next <= i < self.order@.len() implies self.matchings@[#[trigger] self.order@[i] as int]
            == unplaced() by {
            assert(self.order@[i] != t);
        }
        assert forall|d: usize| d < self.device_count() implies #[trigger] self.delay@[d as int] == delay_after(log, d) by {
            assert(log.last() == m);
            assert(before.delay@[d as int] == delay_after(before.log@, d));
        }
        assert forall|i: int| 0 <= i < self.next implies no_later(
            (#[trigger] log[i]).finish_time,
            self.delay@[log[i].node as int],
        ) by {
            if i < n {
                assert(before.log@[i] == log[i]);
            }
        }
        assert forall|i: int, j: int|
            0 <= i < j < self.next && (#[trigger] log[i]).node == (#[trigger] log[j]).node implies no_later(
                log[i].finish_time,
                log[j].finish_time,
            ) by {
            assert(before.log@[i] == log[i]);
            if j < n {
                assert(before.log@[j] == log[j]);
            }
        }
    }

    /// The matchings of every task, indexed by task.
    pub fn into_matchings(self) -> (r: Vec<Matching>)
        requires
            self.wf(),
            self.complete(),
        ensures
            r@ == self.matchings@,
    {
        self.matchings
    }
}

/// Coverage: once every task is placed, each task index stands exactly once
/// in the placement order, there is one matching per task, and a task's
/// matching is the one recorded when it was placed.
pub proof fn lemma_every_task_placed_once(a: Assigner, t: usize)
    requires
        a.wf(),
        a.complete(),
        t < a.task_count(),
    ensures
        a.matchings@.len() == a.task_count(),
        a.log@.len() == a.task_count(),
        exists|i: int| 0 <= i < a.log@.len() && a.order@[i] == t && #[trigger] a.log@[i] == a.matchings@[t as int],
        forall|i: int, j: int|
            0 <= i < a.order@.len() && 0 <= j < a.order@.len() && #[trigger] a.order@[i] == t
                && #[trigger] a.order@[j] == t ==> i == j,
{
    assert(a.order@.contains(t));
    let i = choose|i: int| 0 <= i < a.order@.len() && a.order@[i] == t;
    assert(a.log@[i] == a.matchings@[t as int]);
}

/// Delay monotonicity: on each device, the finish times of the tasks placed
/// on it, taken in placement order, never decrease; and none is later than
/// the device's delay table entry.
pub proof fn lemma_device_finish_times_nondecreasing(a: Assigner, i: int, j: int)
    requires
        a.wf(),
        0 <= i < j < a.log@.len(),
        a.log@[i].node == a.log@[j].node,
    ensures
        no_later(a.log@[i].finish_time, a.log@[j].finish_time),
        no_later(a.log@[j].finish_time, a.delay@[a.log@[j].node as int]),
{
    assert(no_later(a.log@[j].finish_time, a.delay@[a.log@[j].node as int]));
}

/// Pin respect: a placed task that is pinned runs on its pinned device.
pub proof fn lemma_pins_respected(a: Assigner, i: int)
    requires
        a.wf(),
        0 <= i < a.next,
    ensures
        a.pins@[a.order@[i] as int] matches Some(p) ==> a.matchings@[a.order@[i] as int].node == p,
{
    assert(a.log@[i] == a.matchings@[a.order@[i] as int]);
}

/// Causal order: when tasks are taken in an order that respects the
/// dependencies, every producer of the current task has already been placed,
/// so the device and finish time read for it are those of its own placement.
pub proof fn lemma_producers_placed_first(a: Assigner, deps: Seq<Dependency>, e: int)
    requires
        a.wf(),
        !a.complete(),
        respects(a.order@, deps),
        0 <= e < deps.len(),
        deps[e].target == a.order@[a.next as int],
        deps[e].source < a.task_count(),
    ensures
        exists|i: int|
            0 <= i < a.next && a.order@[i] == deps[e].source && #[trigger] a.log@[i]
                == a.matchings@[deps[e].source as int],
{
    assert(a.order@.contains(deps[e].source));
    let i = choose|i: int| 0 <= i < a.order@.len() && a.order@[i] == deps[e].source;
    assert(i < a.next);
    assert(a.log@[i] == a.matchings@[deps[e].source as int]);
}

/// The delay table: each device's entry is the finish time of the task most
/// recently placed on it, or `+0` while none has been.
pub proof fn lemma_delay_is_last_finish(a: Assigner, d: usize)
    requires
        a.wf(),
        d < a.device_count(),
    ensures
        a.delay@[d as int] == delay_after(a.log@, d),
        (forall|i: int| 0 <= i < a.log@.len() ==> (#[trigger] a.log@[i]).node != d) ==> a.delay@[d as int]
            == ZERO_BITS,
        a.log@.len() > 0 && a.log@.last().node == d ==> a.delay@[d as int] == a.log@.last().finish_time,
{
    lemma_delay_after_untouched(a.log@, d);
}

/// A device on which nothing in `log` was placed keeps the entry `+0`.
proof fn lemma_delay_after_untouched(log: Seq<Matching>, d: usize)
    ensures
        (forall|i: int| 0 <= i < log.len() ==> (#[trigger] log[i]).node != d) ==> delay_after(log, d)
            == ZERO_BITS,
    decreases log.len(),
{
    if log.len() > 0 {
        lemma_delay_after_untouched(log.drop_last(), d);
        if forall|i: int| 0 <= i < log.len() ==> (#[trigger] log[i]).node != d {
            assert(log.last() == log[log.len() - 1]);
            assert forall|i: int| 0 <= i < log.drop_last().len() implies (#[trigger] log.drop_last()[i]).node != d by {
                assert(log.drop_last()[i] == log[i]);
            }
        }
    }
}

} // verus!
