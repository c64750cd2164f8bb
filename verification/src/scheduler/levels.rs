//! What each level of the scheduler makes of it: the state it leaves behind
//! as a function of the state it finds.

use vstd::prelude::*;
use crate::condition::Condition;
use crate::event::Event;
use crate::processor::ticked;
use crate::queue::Rank;
use crate::queue::rank_of;
use crate::scheduler::model::SchedulerModel;
use crate::scheduler::model::bottom;
use crate::scheduler::model::dispatched;
use crate::scheduler::model::entering;
use crate::scheduler::model::is_bottom;
use crate::scheduler::model::is_top;
use crate::scheduler::model::top;
use crate::task::ProcessState;
use crate::task::Task;

verus! {

/// A rank as a point of three natural numbers, ordered as ranks are.
pub open spec fn rank_point(k: Rank) -> (int, int, int) {
    (k.0 as int, k.1 + 0x8000_0000, k.2 as int)
}

/// The point of rank `k` lies strictly below `bound`.
pub open spec fn rank_below(k: Rank, bound: (int, int, int)) -> bool {
    let p = rank_point(k);
    p.0 < bound.0 || (p.0 == bound.0 && (p.1 < bound.1 || (p.1 == bound.1 && p.2 < bound.2)))
}

/// The two tasks differ at most in where they are: in whether they are
/// suspended, in the memory they hold, and in when they entered their
/// queue.
pub open spec fn alike(a: Task, b: Task) -> bool {
    b == (Task {
        is_suspended: b.is_suspended,
        memory_range: b.memory_range,
        in_queue_time: b.in_queue_time,
        ..a
    })
}

/// `b` is `a`, or `a` moved into or out of memory at time `now`.
pub open spec fn moved(a: Task, b: Task, now: int) -> bool {
    b == a || (alike(a, b) && b.in_queue_time == now)
}

/// The tasks of `post` are those of `pre`, each as it was or moved into or
/// out of memory at time `now`.
pub open spec fn relocated(pre: Map<u32, Task>, post: Map<u32, Task>, now: int) -> bool {
    &&& forall|pid: u32| pre.contains_key(pid) == #[trigger] post.contains_key(pid)
    &&& forall|pid: u32| pre.contains_key(pid) ==> moved(pre[pid], #[trigger] post[pid], now)
}

/// Every task of `a` is in `b`, as it is in `a`.
pub open spec fn within(a: Map<u32, Task>, b: Map<u32, Task>) -> bool {
    forall|pid: u32| #[trigger] a.contains_key(pid) ==> b.contains_key(pid) && a[pid] == b[pid]
}

/// Tasks that moved twice at one time have moved.
pub proof fn lemma_relocated_twice(
    a: Map<u32, Task>,
    b: Map<u32, Task>,
    c: Map<u32, Task>,
    now: int,
)
    requires
        relocated(a, b, now),
        relocated(b, c, now),
    ensures
        relocated(a, c, now),
{
    assert forall|pid: u32| a.contains_key(pid) == #[trigger] c.contains_key(pid) by {
        assert(a.contains_key(pid) == b.contains_key(pid));
    }
    assert forall|pid: u32| a.contains_key(pid) implies moved(a[pid], #[trigger] c[pid], now) by {
        assert(b.contains_key(pid));
        assert(moved(a[pid], b[pid], now));
        assert(moved(b[pid], c[pid], now));
    }
}

/// Tasks stay relocated when some of them move and the others stay as
/// they are.
pub proof fn lemma_relocated_step(
    origin: Map<u32, Task>,
    cur: Map<u32, Task>,
    next: Map<u32, Task>,
    changed: Set<u32>,
    now: int,
)
    requires
        relocated(origin, cur, now),
        forall|pid: u32|
            changed.contains(pid) ==> cur.contains_key(pid) && next.contains_key(pid) && moved(
                cur[pid],
                next[pid],
                now,
            ),
        forall|pid: u32|
            !changed.contains(pid) ==> cur.contains_key(pid) == next.contains_key(pid) && (
            cur.contains_key(pid) ==> cur[pid] == next[pid]),
    ensures
        relocated(origin, next, now),
{
    assert forall|pid: u32| origin.contains_key(pid) == #[trigger] next.contains_key(pid) by {
        assert(origin.contains_key(pid) == cur.contains_key(pid));
        if changed.contains(pid) {
        }
    }
    assert forall|pid: u32| origin.contains_key(pid) implies moved(
        origin[pid],
        #[trigger] next[pid],
        now,
    ) by {
        assert(cur.contains_key(pid));
        assert(moved(origin[pid], cur[pid], now));
        if changed.contains(pid) {
            assert(moved(cur[pid], next[pid], now));
        }
    }
}

/// `b` is the new task `a` made ready at time `now`, with memory.
pub open spec fn promoted(a: Task, b: Task, now: int) -> bool {
    b == (Task {
        state: ProcessState::Ready,
        in_queue_time: now as i32,
        memory_range: b.memory_range,
        ..a
    })
}

/// The report that the blocked task of pid `pid` became ready.
pub open spec fn unblocking(pid: u32) -> Event {
    Event::Transition { pid, from: ProcessState::Blocked, to: ProcessState::Ready }
}

/// Every latch of `pre` is in `post`, and no others; those that were set
/// are set.
pub open spec fn latches_advance(pre: Map<u32, Condition>, post: Map<u32, Condition>) -> bool {
    &&& forall|pid: u32| pre.contains_key(pid) == #[trigger] post.contains_key(pid)
    &&& forall|pid: u32| pre.contains_key(pid) && pre[pid]@ ==> (#[trigger] post[pid])@
}

/// `q` has a task of highest rank.
pub open spec fn has_top(q: Map<u32, Task>) -> bool {
    exists|t: Task| is_top(q, t)
}

/// `q` has a task of lowest rank.
pub open spec fn has_bottom(q: Map<u32, Task>) -> bool {
    exists|t: Task| is_bottom(q, t)
}

/// A point above the point of every rank.
pub open spec fn top_point() -> (int, int, int) {
    (u32::MAX + 1, 0, 0)
}

impl SchedulerModel {
    /// The ready task of highest rank waits for a predecessor that is not
    /// done.
    pub open spec fn head_must_wait(self) -> bool {
        &&& self.ready_q.dom().finite()
        &&& exists|t: Task| is_top(self.ready_q, t)
        &&& !top(self.ready_q).cond_satisfied(self.latches)
    }

    /// The scheduler with its ready task of highest rank among the blocked
    /// tasks.
    pub open spec fn head_blocked(self) -> SchedulerModel {
        let t = top(self.ready_q);
        self.dequeued(t).entered(t, ProcessState::Blocked)
    }

    /// The scheduler after every ready task that ranks above all ready
    /// tasks whose predecessor is done became blocked: the ready task of
    /// highest rank, if one is left, can run.
    pub open spec fn after_blocking(self) -> SchedulerModel
        decreases self.ready_q.len(),
        when self.lane_ok(self.ready_q, ProcessState::Ready, false)
        via Self::after_blocking_decreases
    {
        if self.head_must_wait() {
            self.head_blocked().after_blocking()
        } else {
            self
        }
    }

    #[via_fn]
    proof fn after_blocking_decreases(self) {
        if self.head_must_wait() {
            let t = top(self.ready_q);
            assert(is_top(self.ready_q, t));
            assert(self.head_blocked().ready_q == self.ready_q.remove(t.pid));
        }
    }

    /// The ready task of highest rank has a higher priority than the task
    /// that processor `proc` is bound to.
    pub open spec fn preempts(self, proc: int) -> bool {
        let bound = self.running[proc];
        bound is Some && self.ready_q.len() > 0 && top(self.ready_q).priority
            > bound.unwrap().priority
    }

    /// A processor takes the ready task of highest rank when it is free,
    /// and also when that task has a higher priority than the task it is
    /// bound to.
    pub open spec fn dispatches(self, proc: int) -> bool {
        let idle = match self.running[proc] {
            None => true,
            Some(o) => o.request_time <= 0 || o.sch_time <= 0,
        };
        idle || self.preempts(proc)
    }

    /// The scheduler after `o` left its processor: it has terminated if it
    /// needs no more time, and is ready again otherwise.
    pub open spec fn reclassified(self, o: Task) -> SchedulerModel {
        if o.request_time <= 0 {
            self.after_terminate(o)
        } else {
            self.entered(o, ProcessState::Ready)
        }
    }

    /// The scheduler after processor `proc` was looked after. A preemption
    /// is reported. Where the processor dispatches, the ready task of
    /// highest rank is bound to it with a new slice, which is reported,
    /// and the task that was bound before is reclassified; with no ready
    /// task, the bound task runs on if it needs more time and terminates
    /// otherwise.
    pub open spec fn after_dispatch(self, proc: int) -> SchedulerModel {
        let bound = self.running[proc];
        if !self.dispatches(proc) {
            self
        } else if self.ready_q.len() > 0 {
            let n = top(self.ready_q);
            let announced = if self.preempts(proc) {
                self.noted(Event::Preempted { pid: bound.unwrap().pid, by: n.pid })
            } else {
                self
            };
            let taken = announced.dequeued(n).with_running(
                proc,
                Some(dispatched(n, self.time_slice)),
            ).noted(
                Event::Transition {
                    pid: n.pid,
                    from: ProcessState::Ready,
                    to: ProcessState::Running,
                },
            );
            match bound {
                None => taken,
                Some(o) => taken.reclassified(o),
            }
        } else {
            match bound {
                Some(o) if o.request_time <= 0 => self.with_running(proc, None).after_terminate(o),
                _ => self,
            }
        }
    }

    /// The scheduler after each processor ran its task for one tick.
    pub open spec fn after_run(self) -> SchedulerModel {
        SchedulerModel {
            running: Seq::new(
                2,
                |i: int|
                    match self.running[i] {
                        None => None,
                        Some(t) => Some(ticked(t)),
                    },
            ),
            ..self
        }
    }

    /// Running the bound tasks for one tick keeps the invariant, where
    /// each of them can run one more tick.
    pub proof fn lemma_run(self)
        requires
            self.inv(),
            self.can_tick(self.running[0]),
            self.can_tick(self.running[1]),
        ensures
            self.after_run().inv(),
            self.same_places(self.after_run()),
    {
        let after = self.after_run();
        assert forall|pid: u32| #[trigger] after.places(pid) <= 1 by {
            assert(self.places(pid) <= 1);
        }
    }

    /// All ready tasks, resident and suspended.
    pub open spec fn ready_all(self) -> Map<u32, Task> {
        self.ready_q.union_prefer_right(self.ready_susp_q)
    }

    /// All blocked tasks, resident and suspended.
    pub open spec fn blocked_all(self) -> Map<u32, Task> {
        self.blocked_q.union_prefer_right(self.blocked_susp_q)
    }

    /// The queue of blocked tasks that are suspended, or of those that are
    /// not, as `susp` says.
    pub open spec fn blocked_lane(self, susp: bool) -> Map<u32, Task> {
        if susp {
            self.blocked_susp_q
        } else {
            self.blocked_q
        }
    }

    /// The queue of ready tasks that are suspended, or of those that are
    /// not, as `susp` says.
    pub open spec fn ready_lane(self, susp: bool) -> Map<u32, Task> {
        if susp {
            self.ready_susp_q
        } else {
            self.ready_q
        }
    }

    /// How the blocked tasks that are suspended, or those that are not, as
    /// `susp` says, fare when the scheduler goes from `self` to `post` by
    /// unblocking. A task that stays blocked stays as it was; one that
    /// does not has become ready at that time, its predecessor being
    /// done; while a slot is left free, no task stays blocked whose
    /// predecessor is done; and the only new ready tasks are those, each
    /// of them reported.
    pub open spec fn unblocked(self, post: SchedulerModel, susp: bool) -> bool {
        &&& within(post.blocked_lane(susp), self.blocked_lane(susp))
        &&& within(self.ready_lane(susp), post.ready_lane(susp))
        &&& forall|pid: u32|
            self.blocked_lane(susp).contains_key(pid) ==> {
                let t = #[trigger] self.blocked_lane(susp)[pid];
                let stays = post.blocked_lane(susp).contains_key(pid);
                let goes = post.ready_lane(susp).contains_key(pid) && post.ready_lane(susp)[pid]
                    == entering(t, ProcessState::Ready, self.time) && t.cond_satisfied(
                    self.latches,
                );
                &&& stays || goes
                &&& stays && post.has_slot() ==> !t.cond_satisfied(self.latches)
            }
        &&& forall|pid: u32| #[trigger]
            post.ready_lane(susp).contains_key(pid) && !self.ready_lane(susp).contains_key(pid)
                ==> self.blocked_lane(susp).contains_key(pid) && self.reported(
                post,
                unblocking(pid),
            )
    }

    /// Going from `self` to `post`, the event `e` was reported.
    pub open spec fn reported(self, post: SchedulerModel, e: Event) -> bool {
        exists|i: int| self.events.len() <= i < post.events.len() && #[trigger] post.events[i] == e
    }

    /// Going from `self` to `post`, nothing was reported but that blocked
    /// tasks became ready, of those that did; the earlier reports stand.
    pub open spec fn reports_unblocking(self, post: SchedulerModel) -> bool {
        &&& self.events.len() <= post.events.len()
        &&& forall|i: int| 0 <= i < self.events.len() ==> #[trigger] post.events[i] == self.events[i]
        &&& forall|i: int|
            self.events.len() <= i < post.events.len() ==> match #[trigger] post.events[i] {
                Event::Transition { pid, from, to } => {
                    &&& from == ProcessState::Blocked
                    &&& to == ProcessState::Ready
                    &&& post.ready_all().contains_key(pid)
                    &&& !self.ready_all().contains_key(pid)
                },
                _ => false,
            }
    }

    /// What unblocking does: see `unblocked` and `reports_unblocking`. The
    /// clock, the latches, the allocator, the processors and the new tasks
    /// stay as they are, and no task is lost or held twice.
    pub open spec fn unblock_step(self, post: SchedulerModel) -> bool {
        &&& post.inv()
        &&& post.same_ground(self)
        &&& post.terminated == self.terminated
        &&& post.running == self.running
        &&& post.new_q == self.new_q
        &&& self.unblocked(post, false)
        &&& self.unblocked(post, true)
        &&& self.reports_unblocking(post)
        &&& self.same_places(post)
    }

    /// What the high level does. The clock, the latches, the processors
    /// and the new tasks stay as they are. The ready tasks are the same,
    /// and so are the blocked ones, each as it was or moved into or out of
    /// memory at this time; blocked tasks only move out. No task is lost
    /// or held twice. Afterwards no blocked task is resident or no new task
    /// waits.
    pub open spec fn high_level_step(self, post: SchedulerModel) -> bool {
        &&& post.inv()
        &&& post.time == self.time
        &&& post.time_slice == self.time_slice
        &&& post.slots == self.slots
        &&& post.latches == self.latches
        &&& post.terminated == self.terminated
        &&& post.running == self.running
        &&& post.new_q == self.new_q
        &&& relocated(self.ready_all(), post.ready_all(), self.time)
        &&& relocated(self.blocked_all(), post.blocked_all(), self.time)
        &&& within(post.blocked_q, self.blocked_q)
        &&& within(self.blocked_susp_q, post.blocked_susp_q)
        &&& (post.blocked_q.len() == 0 || post.new_q.len() == 0)
        &&& self.same_places(post)
        &&& post == self.after_high_level()
    }

    /// What the middle level does. The clock, the latches, the processors,
    /// the blocked tasks and the suspended ready tasks stay as they are.
    /// A new task stays as it is or becomes ready at this time, with
    /// memory; the ready tasks stay, and the only new ones are those. No
    /// task is lost or held twice. Afterwards no slot is free, or there is
    /// room for no new task.
    pub open spec fn mid_level_step(self, post: SchedulerModel) -> bool {
        &&& post.inv()
        &&& post.time == self.time
        &&& post.time_slice == self.time_slice
        &&& post.slots == self.slots
        &&& post.latches == self.latches
        &&& post.terminated == self.terminated
        &&& post.running == self.running
        &&& post.ready_susp_q == self.ready_susp_q
        &&& post.blocked_q == self.blocked_q
        &&& post.blocked_susp_q == self.blocked_susp_q
        &&& within(post.new_q, self.new_q)
        &&& within(self.ready_q, post.ready_q)
        &&& forall|pid: u32| #[trigger]
            self.new_q.contains_key(pid) ==> post.new_q.contains_key(pid) || (
            post.ready_q.contains_key(pid) && promoted(
                self.new_q[pid],
                post.ready_q[pid],
                self.time,
            ))
        &&& forall|pid: u32| #[trigger]
            post.ready_q.contains_key(pid) && !self.ready_q.contains_key(pid)
                ==> self.new_q.contains_key(pid) && !post.new_q.contains_key(pid)
        &&& (post.has_slot() ==> forall|pid: u32|
            post.new_q.contains_key(pid) ==> !post.memory.fits(
                (#[trigger] post.new_q[pid]).memory_size as int,
            ))
        &&& self.same_places(post)
        &&& post == self.after_mid_level()
    }

    /// What the low level does for one processor.
    pub open spec fn low_level_step(self, proc: int) -> SchedulerModel {
        self.after_blocking().after_dispatch(proc)
    }

    /// What the levels make of the scheduler once it has unblocked: the
    /// high level, the middle level, and the low level for processor 0 and
    /// then for processor 1.
    pub open spec fn after_levels(self) -> SchedulerModel {
        self.after_high_level().after_mid_level().low_level_step(0).low_level_step(1)
    }

    /// What a round of scheduling does: it unblocks, and then runs the
    /// three levels.
    pub open spec fn scheduled(self, post: SchedulerModel) -> bool {
        exists|a: SchedulerModel| #[trigger] self.unblock_step(a) && post == a.after_levels()
    }

    /// What a tick does: the clock advances, a round of scheduling
    /// follows, and each processor runs its task for the tick.
    pub open spec fn ticked_to(self, post: SchedulerModel) -> bool {
        exists|mid: SchedulerModel| #[trigger] self.later().scheduled(mid) && post == mid.after_run()
    }

    /// The middle level from here on, with the new tasks of `held` set
    /// aside for want of memory. While a slot is free and a new task
    /// waits, the new task of highest rank gets the first fit and becomes
    /// ready, or is set aside if there is no room; in the end the tasks
    /// set aside are new tasks again.
    pub open spec fn promoting(self, held: Map<u32, Task>) -> SchedulerModel
        decreases self.new_q.len(),
        when self.inv()
        via Self::promoting_decreases
    {
        if self.new_q.len() == 0 || !self.has_slot() || !has_top(self.new_q) {
            self.rejoined_new(held)
        } else {
            let t = top(self.new_q);
            let n = t.memory_size as int;
            let rest = self.dequeued(t);
            if self.memory.fits(n) {
                let hole = self.memory.grant(n);
                rest.with_memory(self.memory.after_allocate(n, t.pid)).noted(
                    Event::Allocated { pid: t.pid, hole },
                ).entered(Task { memory_range: Some(hole), ..t }, ProcessState::Ready).promoting(
                    held,
                )
            } else {
                rest.promoting(held.insert(t.pid, t))
            }
        }
    }

    #[via_fn]
    proof fn promoting_decreases(self, held: Map<u32, Task>) {
        if !(self.new_q.len() == 0 || !self.has_slot() || !has_top(self.new_q)) {
            let t = top(self.new_q);
            assert(is_top(self.new_q, t));
            assert(t.state == ProcessState::New);
            assert(self.dequeued(t).new_q == self.new_q.remove(t.pid));
        }
    }

    /// What the middle level makes of the scheduler.
    pub open spec fn after_mid_level(self) -> SchedulerModel {
        self.promoting(Map::empty())
    }

    /// The first pass of the high level from here on, with the suspended
    /// ready tasks of `held` set aside for want of memory. While a slot is
    /// free and a suspended ready task waits, the one of highest rank
    /// comes back into memory, or is set aside if there is no room; in the
    /// end the tasks set aside are suspended ready tasks again.
    pub open spec fn resuming(self, held: Map<u32, Task>) -> SchedulerModel
        decreases self.ready_susp_q.len(),
        when self.inv()
        via Self::resuming_decreases
    {
        if !self.has_slot() || self.ready_susp_q.len() == 0 || !has_top(self.ready_susp_q) {
            self.rejoined_ready_susp(held)
        } else {
            let t = top(self.ready_susp_q);
            let rest = self.dequeued(t);
            if self.memory.fits(t.memory_size as int) {
                rest.after_unsuspend(t).resuming(held)
            } else {
                rest.resuming(held.insert(t.pid, t))
            }
        }
    }

    #[via_fn]
    proof fn resuming_decreases(self, held: Map<u32, Task>) {
        if !(!self.has_slot() || self.ready_susp_q.len() == 0 || !has_top(self.ready_susp_q)) {
            let t = top(self.ready_susp_q);
            assert(is_top(self.ready_susp_q, t));
            assert(t.state == ProcessState::Ready && t.is_suspended);
            assert(self.dequeued(t).ready_susp_q == self.ready_susp_q.remove(t.pid));
        }
    }

    /// The rank of every suspended ready task lies below `bound`.
    pub open spec fn bounded(self, bound: (int, int, int)) -> bool {
        &&& bound.0 >= 0 && bound.1 >= 0 && bound.2 >= 0
        &&& forall|pid: u32|
            self.ready_susp_q.contains_key(pid) ==> rank_below(
                rank_of(#[trigger] self.ready_susp_q[pid]),
                bound,
            )
    }

    /// The second pass of the high level from here on, with the suspended
    /// ready tasks of `held` passed over; each suspended ready task ranks
    /// below `bound`. While no slot is free, the suspended ready task of
    /// highest rank is held against the resident ready task of lowest
    /// rank. If it has no higher priority, the pass ends. If it needs no
    /// more memory than the resident one holds, the resident one is
    /// suspended and it comes back, if the allocator finds room; else, or
    /// if it finds none, it is passed over. In the end the tasks passed
    /// over are suspended ready tasks again.
    pub open spec fn swapping(self, held: Map<u32, Task>, bound: (int, int, int)) -> SchedulerModel
        decreases bound.0, bound.1, bound.2,
        when self.inv() && self.bounded(bound)
        via Self::swapping_decreases
    {
        if self.has_slot() || self.ready_q.len() == 0 || self.ready_susp_q.len() == 0
            || !has_bottom(self.ready_q) || !has_top(self.ready_susp_q) {
            self.rejoined_ready_susp(held)
        } else {
            let a = bottom(self.ready_q);
            let b = top(self.ready_susp_q);
            let next = rank_point(rank_of(b));
            if a.priority >= b.priority {
                self.rejoined_ready_susp(held)
            } else if a.memory_size >= b.memory_size {
                let swapped = self.dequeued(b).dequeued(a).after_suspend(a);
                if swapped.memory.fits(b.memory_size as int) {
                    swapped.after_unsuspend(b).swapping(held, next)
                } else {
                    swapped.swapping(held.insert(b.pid, b), next)
                }
            } else {
                self.dequeued(b).swapping(held.insert(b.pid, b), next)
            }
        }
    }

    #[via_fn]
    proof fn swapping_decreases(self, held: Map<u32, Task>, bound: (int, int, int)) {
        if !(self.has_slot() || self.ready_q.len() == 0 || self.ready_susp_q.len() == 0
            || !has_bottom(self.ready_q) || !has_top(self.ready_susp_q)) {
            let b = top(self.ready_susp_q);
            assert(is_top(self.ready_susp_q, b));
            assert(rank_below(rank_of(self.ready_susp_q[b.pid]), bound));
        }
    }

    /// The third pass of the high level from here on, with the new tasks
    /// of `held` passed over. While no slot is free, the new task of
    /// highest rank is held against the resident ready task of lowest
    /// rank. If it has no higher priority, the pass ends. If it needs no
    /// more memory than the resident one holds, the resident one is
    /// suspended, which frees a slot; else it is passed over. In the end
    /// the tasks passed over are new tasks again.
    pub open spec fn making_room(self, held: Map<u32, Task>) -> SchedulerModel
        decreases self.new_q.len() + self.ready_q.len(),
        when self.inv()
        via Self::making_room_decreases
    {
        if self.has_slot() || self.ready_q.len() == 0 || self.new_q.len() == 0 || !has_bottom(
            self.ready_q,
        ) || !has_top(self.new_q) {
            self.rejoined_new(held)
        } else {
            let a = bottom(self.ready_q);
            let n = top(self.new_q);
            if a.priority >= n.priority {
                self.rejoined_new(held)
            } else if a.memory_size >= n.memory_size {
                self.dequeued(a).after_suspend(a).making_room(held)
            } else {
                self.dequeued(n).making_room(held.insert(n.pid, n))
            }
        }
    }

    #[via_fn]
    proof fn making_room_decreases(self, held: Map<u32, Task>) {
        if !(self.has_slot() || self.ready_q.len() == 0 || self.new_q.len() == 0 || !has_bottom(
            self.ready_q,
        ) || !has_top(self.new_q)) {
            let a = bottom(self.ready_q);
            let n = top(self.new_q);
            assert(is_bottom(self.ready_q, a));
            assert(is_top(self.new_q, n));
            assert(a.state == ProcessState::Ready && !a.is_suspended);
            assert(n.state == ProcessState::New);
            assert(self.dequeued(a).ready_q == self.ready_q.remove(a.pid));
            assert(self.dequeued(n).new_q == self.new_q.remove(n.pid));
        }
    }

    /// The last pass of the high level from here on: while a blocked
    /// task is resident and a new task waits, the resident blocked task of
    /// lowest rank is suspended.
    pub open spec fn relieving(self) -> SchedulerModel
        decreases self.blocked_q.len(),
        when self.inv()
        via Self::relieving_decreases
    {
        if self.blocked_q.len() == 0 || self.new_q.len() == 0 || !has_bottom(self.blocked_q) {
            self
        } else {
            let b = bottom(self.blocked_q);
            self.dequeued(b).after_suspend(b).relieving()
        }
    }

    #[via_fn]
    proof fn relieving_decreases(self) {
        if !(self.blocked_q.len() == 0 || self.new_q.len() == 0 || !has_bottom(self.blocked_q)) {
            let b = bottom(self.blocked_q);
            assert(is_bottom(self.blocked_q, b));
            assert(b.state == ProcessState::Blocked && !b.is_suspended);
            assert(self.dequeued(b).blocked_q == self.blocked_q.remove(b.pid));
        }
    }

    /// What the high level makes of the scheduler: its four passes, one
    /// after the other.
    pub open spec fn after_high_level(self) -> SchedulerModel {
        self.resuming(Map::empty()).swapping(Map::empty(), top_point()).making_room(
            Map::empty(),
        ).relieving()
    }
}

} // verus!
