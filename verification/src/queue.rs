//! Priority queues of tasks.
//!
//! A queue keeps its tasks in a table by pid and their ranks in a
//! double-ended heap. The rank of a task is a triple of integers, ordered as
//! such triples are: a higher priority ranks higher; among equal priorities
//! the task that entered its queue earlier; among those the smaller pid.

use std::collections::HashMap;
use min_max_heap::MinMaxHeap;
use vstd::multiset::Multiset;
use vstd::prelude::*;
use crate::task::Task;

verus! {

broadcast use {
    vstd::std_specs::hash::group_hash_axioms,
    vstd::multiset::group_multiset_axioms,
    vstd::multiset::group_multiset_properties,
};

/// The double-ended heap of the `min-max-heap` crate. Verus sees nothing
/// inside it; what it holds is named by `heap_items`.
#[verifier::external_type_specification]
#[verifier::external_body]
#[verifier::reject_recursive_types(T)]
pub struct ExMinMaxHeap<T>(MinMaxHeap<T>);

/// The rank of a task in a queue: its priority, the negated time at which
/// it entered the queue, and the complement of its pid.
pub type Rank = (u32, i64, u32);

/// The ranks that a heap holds, each as often as it was pushed and not yet
/// popped.
pub uninterp spec fn heap_items(heap: MinMaxHeap<(u32, i64, u32)>) -> Multiset<(u32, i64, u32)>;

/// The order of ranks: that of triples of integers, the first component
/// deciding before the second, the second before the third.
pub open spec fn rank_le(a: Rank, b: Rank) -> bool {
    a.0 < b.0 || (a.0 == b.0 && (a.1 < b.1 || (a.1 == b.1 && a.2 <= b.2)))
}

/// The rank of a task.
pub open spec fn rank_of(t: Task) -> Rank {
    (t.priority, (0 - t.in_queue_time) as i64, (u32::MAX - t.pid) as u32)
}

/// The pid of the task that has rank `k`.
pub open spec fn pid_of(k: Rank) -> u32 {
    (u32::MAX - k.2) as u32
}

/// No task in `tasks` ranks higher than `t`.
pub open spec fn is_highest(tasks: Map<u32, Task>, t: Task) -> bool {
    forall|pid: u32| tasks.contains_key(pid) ==> rank_le(rank_of(#[trigger] tasks[pid]), rank_of(t))
}

/// No task in `tasks` ranks lower than `t`.
pub open spec fn is_lowest(tasks: Map<u32, Task>, t: Task) -> bool {
    forall|pid: u32| tasks.contains_key(pid) ==> rank_le(rank_of(t), rank_of(#[trigger] tasks[pid]))
}

/// Each task is filed under its own pid.
pub open spec fn keyed_by_pid(tasks: Map<u32, Task>) -> bool {
    forall|pid: u32| tasks.contains_key(pid) ==> (#[trigger] tasks[pid]).pid == pid
}

/// `MinMaxHeap::new`: the new heap holds nothing.
#[verifier::external_body]
fn heap_new() -> (heap: MinMaxHeap<Rank>)
    ensures
        heap_items(heap) == Multiset::<Rank>::empty(),
{
    MinMaxHeap::new()
}

/// `MinMaxHeap::len`: the number of ranks in the heap.
#[verifier::external_body]
fn heap_len(heap: &MinMaxHeap<Rank>) -> (len: usize)
    ensures
        len == heap_items(*heap).len(),
{
    heap.len()
}

/// `MinMaxHeap::is_empty`: whether the heap holds no rank.
#[verifier::external_body]
fn heap_is_empty(heap: &MinMaxHeap<Rank>) -> (empty: bool)
    ensures
        empty == (heap_items(*heap).len() == 0),
{
    heap.is_empty()
}

/// `MinMaxHeap::push`: the heap holds `k` once more, and the rest as
/// before.
#[verifier::external_body]
fn heap_push(heap: &mut MinMaxHeap<Rank>, k: Rank)
    ensures
        heap_items(*final(heap)) == heap_items(*old(heap)).insert(k),
{
    heap.push(k)
}

/// `MinMaxHeap::peek_max`: nothing for an empty heap, else a rank that the
/// heap holds and that none in it exceeds.
#[verifier::external_body]
fn heap_peek_max(heap: &MinMaxHeap<Rank>) -> (top: Option<Rank>)
    ensures
        match top {
            None => heap_items(*heap).len() == 0,
            Some(k) => heap_items(*heap).count(k) > 0 && forall|j: Rank|
                heap_items(*heap).count(j) > 0 ==> rank_le(j, k),
        },
{
    heap.peek_max().copied()
}

/// `MinMaxHeap::peek_min`: nothing for an empty heap, else a rank that the
/// heap holds and that is below none in it.
#[verifier::external_body]
fn heap_peek_min(heap: &MinMaxHeap<Rank>) -> (bottom: Option<Rank>)
    ensures
        match bottom {
            None => heap_items(*heap).len() == 0,
            Some(k) => heap_items(*heap).count(k) > 0 && forall|j: Rank|
                heap_items(*heap).count(j) > 0 ==> rank_le(k, j),
        },
{
    heap.peek_min().copied()
}

/// `MinMaxHeap::pop_max`: nothing for an empty heap, which stays as it is;
/// else a rank that the heap held and that none in it exceeded, and the
/// heap holds it once less.
#[verifier::external_body]
fn heap_pop_max(heap: &mut MinMaxHeap<Rank>) -> (top: Option<Rank>)
    ensures
        match top {
            None => heap_items(*old(heap)).len() == 0 && heap_items(*final(heap)) == heap_items(
                *old(heap),
            ),
            Some(k) => heap_items(*old(heap)).count(k) > 0 && heap_items(*final(heap))
                == heap_items(*old(heap)).remove(k) && forall|j: Rank|
                heap_items(*old(heap)).count(j) > 0 ==> rank_le(j, k),
        },
{
    heap.pop_max()
}

/// `MinMaxHeap::pop_min`: nothing for an empty heap, which stays as it is;
/// else a rank that the heap held and that was below none in it, and the
/// heap holds it once less.
#[verifier::external_body]
fn heap_pop_min(heap: &mut MinMaxHeap<Rank>) -> (bottom: Option<Rank>)
    ensures
        match bottom {
            None => heap_items(*old(heap)).len() == 0 && heap_items(*final(heap)) == heap_items(
                *old(heap),
            ),
            Some(k) => heap_items(*old(heap)).count(k) > 0 && heap_items(*final(heap))
                == heap_items(*old(heap)).remove(k) && forall|j: Rank|
                heap_items(*old(heap)).count(j) > 0 ==> rank_le(k, j),
        },
{
    heap.pop_min()
}

/// `MinMaxHeap::drain`: the ranks that the heap held, in the order in which
/// the heap gives them, and the heap holds nothing afterwards.
#[verifier::external_body]
fn heap_drain(heap: &mut MinMaxHeap<Rank>) -> (ranks: Vec<Rank>)
    ensures
        ranks@.to_multiset() == heap_items(*old(heap)),
        heap_items(*final(heap)) == Multiset::<Rank>::empty(),
{
    heap.drain().collect()
}

/// The rank of a task, computed.
pub fn rank(t: &Task) -> (k: Rank)
    ensures
        k == rank_of(*t),
        pid_of(k) == t.pid,
{
    (t.priority(), -(t.in_queue_time() as i64), u32::MAX - t.pid())
}

/// Whether `tasks` holds the task that has rank `k`.
pub open spec fn holds_rank(tasks: Map<u32, Task>, k: Rank) -> bool {
    tasks.contains_key(pid_of(k)) && rank_of(tasks[pid_of(k)]) == k
}

/// A priority queue of tasks, at most one for each pid.
pub struct TaskQueue {
    order: MinMaxHeap<Rank>,
    tasks: HashMap<u32, Task>,
}

impl View for TaskQueue {
    type V = Map<u32, Task>;

    /// A queue is modelled by the tasks in it, by pid.
    closed spec fn view(&self) -> Map<u32, Task> {
        self.tasks@
    }
}

impl TaskQueue {
    /// The heap holds the ranks of the tasks in the table, each once, and
    /// nothing else.
    pub closed spec fn index_ok(&self) -> bool {
        &&& forall|k: Rank| #[trigger]
            heap_items(self.order).count(k) == (if holds_rank(self.tasks@, k) {
                1nat
            } else {
                0nat
            })
        &&& heap_items(self.order).len() == self.tasks@.len()
    }

    /// The queue's invariant.
    pub open spec fn wf(&self) -> bool {
        &&& self.index_ok()
        &&& self@.dom().finite()
        &&& keyed_by_pid(self@)
    }

    /// An empty queue.
    pub fn new() -> (q: Self)
        ensures
            q.wf(),
            q@ == Map::<u32, Task>::empty(),
    {
        TaskQueue { order: heap_new(), tasks: HashMap::new() }
    }

    /// The number of tasks in the queue.
    pub fn len(&self) -> (len: usize)
        requires
            self.wf(),
        ensures
            len == self@.len(),
    {
        heap_len(&self.order)
    }

    /// Whether the queue holds no task.
    pub fn is_empty(&self) -> (empty: bool)
        requires
            self.wf(),
        ensures
            empty == (self@.len() == 0),
            empty == (self@ =~= Map::<u32, Task>::empty()),
    {
        proof {
            if self@.len() == 0 {
                self@.dom().lemma_len0_is_empty();
            }
        }
        heap_is_empty(&self.order)
    }

    /// The task of pid `pid`, if the queue holds it.
    pub fn get(&self, pid: u32) -> (found: Option<&Task>)
        requires
            self.wf(),
        ensures
            match found {
                None => !self@.contains_key(pid),
                Some(t) => self@.contains_key(pid) && self@[pid] == *t,
            },
    {
        self.tasks.get(&pid)
    }

    /// Puts `task` into the queue.
    pub fn push(&mut self, task: Task)
        requires
            old(self).wf(),
            !old(self)@.contains_key(task.pid),
        ensures
            final(self).wf(),
            final(self)@ == old(self)@.insert(task.pid, task),
    {
        let k = rank(&task);
        heap_push(&mut self.order, k);
        self.tasks.insert(task.pid(), task);
        proof {
            assert forall|j: Rank| #[trigger]
                heap_items(self.order).count(j) == (if holds_rank(self.tasks@, j) {
                    1nat
                } else {
                    0nat
                }) by {
                assert(heap_items(old(self).order).count(j) == (if holds_rank(old(self).tasks@, j) {
                    1nat
                } else {
                    0nat
                }));
            }
        }
    }

    /// The task of highest rank, if the queue holds any.
    pub fn peek_max(&self) -> (top: Option<&Task>)
        requires
            self.wf(),
        ensures
            match top {
                None => self@ =~= Map::<u32, Task>::empty(),
                Some(t) => self@.contains_key(t.pid) && self@[t.pid] == *t && is_highest(self@, *t),
            },
    {
        match heap_peek_max(&self.order) {
            None => {
                proof {
                    self@.dom().lemma_len0_is_empty();
                }
                None
            },
            Some(k) => {
                let pid = u32::MAX - k.2;
                assert(holds_rank(self.tasks@, k));
                let t = self.tasks.get(&pid);
                proof {
                    self.lemma_ranks_held();
                }
                t
            },
        }
    }

    /// The task of lowest rank, if the queue holds any.
    pub fn peek_min(&self) -> (bottom: Option<&Task>)
        requires
            self.wf(),
        ensures
            match bottom {
                None => self@ =~= Map::<u32, Task>::empty(),
                Some(t) => self@.contains_key(t.pid) && self@[t.pid] == *t && is_lowest(self@, *t),
            },
    {
        match heap_peek_min(&self.order) {
            None => {
                proof {
                    self@.dom().lemma_len0_is_empty();
                }
                None
            },
            Some(k) => {
                let pid = u32::MAX - k.2;
                assert(holds_rank(self.tasks@, k));
                let t = self.tasks.get(&pid);
                proof {
                    self.lemma_ranks_held();
                }
                t
            },
        }
    }

    /// Takes the task of highest rank out of the queue, if it holds any.
    pub fn pop_max(&mut self) -> (top: Option<Task>)
        requires
            old(self).wf(),
        ensures
            final(self).wf(),
            match top {
                None => old(self)@ =~= Map::<u32, Task>::empty() && final(self)@ == old(self)@,
                Some(t) => old(self)@.contains_key(t.pid) && old(self)@[t.pid] == t && is_highest(
                    old(self)@,
                    t,
                ) && final(self)@ == old(self)@.remove(t.pid),
            },
    {
        match heap_pop_max(&mut self.order) {
            None => {
                proof {
                    self@.dom().lemma_len0_is_empty();
                }
                None
            },
            Some(k) => {
                let pid = u32::MAX - k.2;
                assert(holds_rank(old(self).tasks@, k));
                let t = self.tasks.remove(&pid);
                proof {
                    old(self).lemma_ranks_held();
                    old(self).lemma_without(k, *self);
                }
                t
            },
        }
    }

    /// Takes the task of lowest rank out of the queue, if it holds any.
    pub fn pop_min(&mut self) -> (bottom: Option<Task>)
        requires
            old(self).wf(),
        ensures
            final(self).wf(),
            match bottom {
                None => old(self)@ =~= Map::<u32, Task>::empty() && final(self)@ == old(self)@,
                Some(t) => old(self)@.contains_key(t.pid) && old(self)@[t.pid] == t && is_lowest(
                    old(self)@,
                    t,
                ) && final(self)@ == old(self)@.remove(t.pid),
            },
    {
        match heap_pop_min(&mut self.order) {
            None => {
                proof {
                    self@.dom().lemma_len0_is_empty();
                }
                None
            },
            Some(k) => {
                let pid = u32::MAX - k.2;
                assert(holds_rank(old(self).tasks@, k));
                let t = self.tasks.remove(&pid);
                proof {
                    old(self).lemma_ranks_held();
                    old(self).lemma_without(k, *self);
                }
                t
            },
        }
    }

    /// Empties the queue and returns the tasks that were in it, each once,
    /// in the order in which the heap gives their ranks.
    pub fn drain(&mut self) -> (out: Vec<Task>)
        requires
            old(self).wf(),
        ensures
            final(self).wf(),
            final(self)@ =~= Map::<u32, Task>::empty(),
            out@.len() == old(self)@.len(),
            forall|i: int|
                0 <= i < out@.len() ==> old(self)@.contains_key((#[trigger] out@[i]).pid) && old(self)@[out@[i].pid] == out@[i],
            forall|i: int, j: int|
                0 <= i < out@.len() && 0 <= j < out@.len() && i != j ==> (#[trigger] out@[i]).pid != (
                #[trigger] out@[j]).pid,
            forall|pid: u32|
                old(self)@.contains_key(pid) ==> exists|i: int|
                    0 <= i < out@.len() && (#[trigger] out@[i]).pid == pid,
    {
        let ranks = heap_drain(&mut self.order);
        let n = ranks.len();
        proof {
            broadcast use vstd::seq_lib::group_to_multiset_ensures;

            assert forall|x: Rank| ranks@.to_multiset().contains(x) implies ranks@.to_multiset().count(
                x,
            ) == 1 by {
                assert(heap_items(old(self).order).count(x) == (if holds_rank(
                    old(self).tasks@,
                    x,
                ) {
                    1nat
                } else {
                    0nat
                }));
            }
            ranks@.lemma_multiset_has_no_duplicates_conv();
            assert forall|j: int| 0 <= j < n implies holds_rank(
                old(self).tasks@,
                #[trigger] ranks@[j],
            ) by {
                assert(ranks@.contains(ranks@[j]));
                assert(heap_items(old(self).order).count(ranks@[j]) > 0);
            }
        }
        let mut out: Vec<Task> = Vec::new();
        let mut i: usize = 0;
        while i < n
            invariant
                n == ranks@.len(),
                i <= n,
                ranks@.no_duplicates(),
                keyed_by_pid(old(self).tasks@),
                heap_items(self.order) == Multiset::<Rank>::empty(),
                self.tasks@.dom().finite(),
                self.tasks@.len() == n - i,
                forall|j: int|
                    i <= j < n ==> holds_rank(self.tasks@, #[trigger] ranks@[j]) && self.tasks@[pid_of(
                        ranks@[j],
                    )] == old(self).tasks@[pid_of(ranks@[j])],
                forall|j: int| 0 <= j < n ==> holds_rank(old(self).tasks@, #[trigger] ranks@[j]),
                out@.len() == i,
                forall|m: int| 0 <= m < i ==> rank_of(#[trigger] out@[m]) == ranks@[m],
                forall|m: int|
                    0 <= m < i ==> (#[trigger] out@[m]) == old(self).tasks@[pid_of(ranks@[m])],
            decreases n - i,
        {
            let k = ranks[i];
            let pid = u32::MAX - k.2;
            let ghost before = self.tasks@;
            let ghost done = out@;
            assert(holds_rank(before, k));
            match self.tasks.remove(&pid) {
                None => {},
                Some(t) => {
                    out.push(t);
                },
            }
            proof {
                assert(self.tasks@ == before.remove(pid));
                assert(self.tasks@.dom() =~= before.dom().remove(pid));
                assert(out@ == done.push(before[pid]));
                assert forall|j: int| i < j < n implies holds_rank(
                    self.tasks@,
                    #[trigger] ranks@[j],
                ) && self.tasks@[pid_of(ranks@[j])] == old(self).tasks@[pid_of(ranks@[j])] by {
                    assert(holds_rank(before, ranks@[j]));
                    assert(ranks@[j] != ranks@[i as int]);
                }
            }
            i += 1;
        }
        proof {
            broadcast use vstd::seq_lib::group_to_multiset_ensures;

            self.tasks@.dom().lemma_len0_is_empty();
            assert(old(self).tasks@.len() == n);
            assert forall|a: int| 0 <= a < out@.len() implies old(self)@.contains_key(
                (#[trigger] out@[a]).pid,
            ) && old(self)@[out@[a].pid] == out@[a] by {
                assert(holds_rank(old(self).tasks@, ranks@[a]));
                assert(rank_of(out@[a]) == ranks@[a]);
            }
            assert forall|a: int, b: int|
                0 <= a < out@.len() && 0 <= b < out@.len() && a != b implies (#[trigger] out@[a]).pid
                != (#[trigger] out@[b]).pid by {
                assert(ranks@[a] != ranks@[b]);
                assert(rank_of(out@[a]) == ranks@[a]);
                assert(rank_of(out@[b]) == ranks@[b]);
                assert(holds_rank(old(self).tasks@, ranks@[a]));
                assert(holds_rank(old(self).tasks@, ranks@[b]));
            }
            assert forall|pid: u32| old(self)@.contains_key(pid) implies exists|m: int|
                0 <= m < out@.len() && (#[trigger] out@[m]).pid == pid by {
                let k = rank_of(old(self)@[pid]);
                assert(pid_of(k) == pid);
                assert(holds_rank(old(self).tasks@, k));
                assert(heap_items(old(self).order).count(k) == 1);
                assert(ranks@.contains(k));
                let j = choose|j: int| 0 <= j < ranks@.len() && ranks@[j] == k;
                assert(rank_of(out@[j]) == ranks@[j]);
                assert(out@[j] == old(self).tasks@[pid_of(ranks@[j])]);
                assert(out@[j].pid == pid);
            }
        }
        out
    }

    /// The heap holds the rank of every task in the queue.
    proof fn lemma_ranks_held(&self)
        requires
            self.wf(),
        ensures
            forall|pid: u32| self@.contains_key(pid) ==> heap_items(self.order).count(
                rank_of(#[trigger] self@[pid]),
            ) > 0,
    {
        assert forall|pid: u32| self@.contains_key(pid) implies heap_items(self.order).count(
            rank_of(#[trigger] self@[pid]),
        ) > 0 by {
            let k = rank_of(self@[pid]);
            assert(self@[pid].pid == pid);
            assert(pid_of(k) == pid);
            assert(holds_rank(self.tasks@, k));
        }
    }

    /// A queue whose heap and table have both lost the task of rank `k` is
    /// well formed again.
    proof fn lemma_without(&self, k: Rank, after: TaskQueue)
        requires
            self.wf(),
            holds_rank(self.tasks@, k),
            heap_items(after.order) == heap_items(self.order).remove(k),
            after.tasks@ == self.tasks@.remove(pid_of(k)),
        ensures
            after.wf(),
    {
        assert forall|j: Rank| #[trigger]
            heap_items(after.order).count(j) == (if holds_rank(after.tasks@, j) {
                1nat
            } else {
                0nat
            }) by {
            assert(heap_items(self.order).count(j) == (if holds_rank(self.tasks@, j) {
                1nat
            } else {
                0nat
            }));
            assert(heap_items(self.order).count(k) == 1);
        }
        assert(heap_items(self.order).count(k) == 1);
        assert(after.tasks@.dom() =~= self.tasks@.dom().remove(pid_of(k)));
    }
}

} // verus!
