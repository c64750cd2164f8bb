//! Lists of tasks from which the task of highest rank is taken first.

use vstd::prelude::*;
use crate::queue::is_highest;
use crate::queue::keyed_by_pid;
use crate::queue::rank;
use crate::queue::rank_le;
use crate::queue::rank_of;
use crate::task::Task;

verus! {

/// The tasks of a sequence, filed by pid.
pub open spec fn filed(s: Seq<Task>) -> Map<u32, Task>
    decreases s.len(),
{
    if s.len() == 0 {
        Map::empty()
    } else {
        filed(s.drop_last()).insert(s.last().pid, s.last())
    }
}

/// No two tasks of the sequence have the same pid.
pub open spec fn distinct_pids(s: Seq<Task>) -> bool {
    forall|i: int, j: int| 0 <= i < j < s.len() ==> (#[trigger] s[i]).pid != (#[trigger] s[j]).pid
}

/// A sequence of tasks with distinct pids, filed by pid, holds each of its
/// tasks under its pid, and nothing else.
pub proof fn lemma_filed(s: Seq<Task>)
    requires
        distinct_pids(s),
    ensures
        filed(s).dom().finite(),
        filed(s).len() == s.len(),
        keyed_by_pid(filed(s)),
        forall|i: int|
            0 <= i < s.len() ==> filed(s).contains_key((#[trigger] s[i]).pid) && filed(s)[s[i].pid]
                == s[i],
        forall|pid: u32| #[trigger]
            filed(s).contains_key(pid) ==> exists|i: int|
                0 <= i < s.len() && (#[trigger] s[i]).pid == pid,
    decreases s.len(),
{
    if s.len() > 0 {
        let front = s.drop_last();
        let t = s.last();
        assert forall|i: int, j: int| 0 <= i < j < front.len() implies (#[trigger] front[i]).pid != (
        #[trigger] front[j]).pid by {
            assert(front[i] == s[i] && front[j] == s[j]);
        }
        lemma_filed(front);
        if filed(front).contains_key(t.pid) {
            let i = choose|i: int| 0 <= i < front.len() && (#[trigger] front[i]).pid == t.pid;
            assert(front[i] == s[i]);
            assert(s[i].pid != s[s.len() - 1].pid);
        }
        assert forall|i: int| 0 <= i < s.len() implies filed(s).contains_key((#[trigger] s[i]).pid)
            && filed(s)[s[i].pid] == s[i] by {
            if i < s.len() - 1 {
                assert(front[i] == s[i]);
                assert(s[i].pid != s[s.len() - 1].pid);
            }
        }
        assert forall|pid: u32| #[trigger] filed(s).contains_key(pid) implies exists|i: int|
            0 <= i < s.len() && (#[trigger] s[i]).pid == pid by {
            if pid == t.pid {
                assert(s[s.len() - 1].pid == pid);
            } else {
                let i = choose|i: int| 0 <= i < front.len() && (#[trigger] front[i]).pid == pid;
                assert(s[i].pid == pid);
            }
        }
    }
}

/// Taking a task out of a sequence takes it out of the file.
pub proof fn lemma_filed_remove(s: Seq<Task>, at: int)
    requires
        distinct_pids(s),
        0 <= at < s.len(),
    ensures
        distinct_pids(s.remove(at)),
        filed(s.remove(at)) == filed(s).remove(s[at].pid),
{
    let r = s.remove(at);
    assert forall|i: int, j: int| 0 <= i < j < r.len() implies (#[trigger] r[i]).pid != (
    #[trigger] r[j]).pid by {
        let i0 = if i < at { i } else { i + 1 };
        let j0 = if j < at { j } else { j + 1 };
        assert(r[i] == s[i0] && r[j] == s[j0]);
    }
    lemma_filed(s);
    lemma_filed(r);
    assert forall|pid: u32| filed(r).contains_key(pid) == filed(s).remove(s[at].pid).contains_key(
        pid,
    ) by {
        if filed(r).contains_key(pid) {
            let i = choose|i: int| 0 <= i < r.len() && (#[trigger] r[i]).pid == pid;
            let i0 = if i < at { i } else { i + 1 };
            assert(r[i] == s[i0]);
            assert(s[i0].pid == pid);
            if i0 < at {
                assert(s[i0].pid != s[at].pid);
            } else {
                assert(s[at].pid != s[i0].pid);
            }
        }
        if filed(s).remove(s[at].pid).contains_key(pid) {
            let i0 = choose|i: int| 0 <= i < s.len() && (#[trigger] s[i]).pid == pid;
            let i = if i0 < at { i0 } else { i0 - 1 };
            assert(r[i] == s[i0]);
            assert(r[i].pid == pid);
        }
    }
    assert forall|pid: u32| filed(r).contains_key(pid) implies filed(r)[pid] == filed(s).remove(
        s[at].pid,
    )[pid] by {
        let i = choose|i: int| 0 <= i < r.len() && (#[trigger] r[i]).pid == pid;
        let i0 = if i < at { i } else { i + 1 };
        assert(r[i] == s[i0]);
        assert(filed(s)[s[i0].pid] == s[i0]);
    }
    assert(filed(r) =~= filed(s).remove(s[at].pid));
}

/// Whether `a` ranks strictly above `b`.
pub fn ranks_above(a: &Task, b: &Task) -> (above: bool)
    ensures
        above == !rank_le(rank_of(*a), rank_of(*b)),
{
    let x = rank(a);
    let y = rank(b);
    x.0 > y.0 || (x.0 == y.0 && (x.1 > y.1 || (x.1 == y.1 && x.2 > y.2)))
}

/// A list of tasks, at most one for each pid, from which the task of
/// highest rank is taken first.
pub struct TaskList {
    tasks: Vec<Task>,
}

impl View for TaskList {
    type V = Map<u32, Task>;

    /// A list is modelled by the tasks in it, by pid.
    closed spec fn view(&self) -> Map<u32, Task> {
        filed(self.tasks@)
    }
}

impl TaskList {
    /// No two tasks of the list have the same pid.
    pub closed spec fn distinct(&self) -> bool {
        distinct_pids(self.tasks@)
    }

    /// The list's invariant.
    pub open spec fn wf(&self) -> bool {
        &&& self.distinct()
        &&& self@.dom().finite()
        &&& keyed_by_pid(self@)
    }

    /// An empty list.
    pub fn new() -> (q: Self)
        ensures
            q.wf(),
            q@ == Map::<u32, Task>::empty(),
    {
        TaskList { tasks: Vec::new() }
    }

    /// The number of tasks in the list.
    pub fn len(&self) -> (len: usize)
        requires
            self.wf(),
        ensures
            len == self@.len(),
    {
        proof {
            lemma_filed(self.tasks@);
        }
        self.tasks.len()
    }

    /// Whether the list holds no task.
    pub fn is_empty(&self) -> (empty: bool)
        requires
            self.wf(),
        ensures
            empty == (self@.len() == 0),
            empty == (self@ =~= Map::<u32, Task>::empty()),
    {
        proof {
            lemma_filed(self.tasks@);
            if self@.len() == 0 {
                self@.dom().lemma_len0_is_empty();
            }
        }
        self.tasks.len() == 0
    }

    /// The task of pid `pid`, if the list holds it.
    pub fn get(&self, pid: u32) -> (found: Option<&Task>)
        requires
            self.wf(),
        ensures
            match found {
                None => !self@.contains_key(pid),
                Some(t) => self@.contains_key(pid) && self@[pid] == *t,
            },
    {
        let mut i: usize = 0;
        while i < self.tasks.len()
            invariant
                self.wf(),
                i <= self.tasks@.len(),
                forall|j: int| 0 <= j < i ==> (#[trigger] self.tasks@[j]).pid != pid,
            decreases self.tasks@.len() - i,
        {
            if self.tasks[i].pid() == pid {
                proof {
                    lemma_filed(self.tasks@);
                }
                return Some(&self.tasks[i]);
            }
            i += 1;
        }
        proof {
            lemma_filed(self.tasks@);
        }
        None
    }

    /// Puts `task` into the list.
    pub fn push(&mut self, task: Task)
        requires
            old(self).wf(),
            !old(self)@.contains_key(task.pid),
        ensures
            final(self).wf(),
            final(self)@ == old(self)@.insert(task.pid, task),
    {
        proof {
            lemma_filed(self.tasks@);
        }
        self.tasks.push(task);
        proof {
            let s = self.tasks@;
            assert(s.drop_last() =~= old(self).tasks@);
            assert forall|i: int, j: int| 0 <= i < j < s.len() implies (#[trigger] s[i]).pid != (
            #[trigger] s[j]).pid by {
                if j == s.len() - 1 {
                    assert(old(self).tasks@[i] == s[i]);
                } else {
                    assert(old(self).tasks@[i] == s[i] && old(self).tasks@[j] == s[j]);
                }
            }
            lemma_filed(s);
        }
    }

    /// The place in the list of its task of highest rank.
    fn highest(&self) -> (at: usize)
        requires
            self.wf(),
            self.tasks@.len() > 0,
        ensures
            at < self.tasks@.len(),
            is_highest(self@, self.tasks@[at as int]),
            self@.contains_key(self.tasks@[at as int].pid),
            self@[self.tasks@[at as int].pid] == self.tasks@[at as int],
    {
        let mut at: usize = 0;
        let mut i: usize = 1;
        while i < self.tasks.len()
            invariant
                at < i <= self.tasks@.len(),
                forall|j: int|
                    0 <= j < i ==> rank_le(
                        rank_of(#[trigger] self.tasks@[j]),
                        rank_of(self.tasks@[at as int]),
                    ),
            decreases self.tasks@.len() - i,
        {
            if ranks_above(&self.tasks[i], &self.tasks[at]) {
                at = i;
            }
            i += 1;
        }
        proof {
            lemma_filed(self.tasks@);
            assert forall|pid: u32| self@.contains_key(pid) implies rank_le(
                rank_of(#[trigger] self@[pid]),
                rank_of(self.tasks@[at as int]),
            ) by {
                let j = choose|j: int|
                    0 <= j < self.tasks@.len() && (#[trigger] self.tasks@[j]).pid == pid;
                assert(self@[self.tasks@[j].pid] == self.tasks@[j]);
            }
        }
        at
    }

    /// The task of highest rank, if the list holds any.
    pub fn peek_max(&self) -> (top: Option<&Task>)
        requires
            self.wf(),
        ensures
            match top {
                None => self@ =~= Map::<u32, Task>::empty(),
                Some(t) => self@.contains_key(t.pid) && self@[t.pid] == *t && is_highest(self@, *t),
            },
    {
        if self.tasks.len() == 0 {
            None
        } else {
            let at = self.highest();
            Some(&self.tasks[at])
        }
    }

    /// Takes the task of highest rank out of the list, if it holds any.
    pub fn pop_max(&mut self) -> (top: Option<Task>)
        requires
            old(self).wf(),
        ensures
            final(self).wf(),
            match top {
                None => old(self)@ =~= Map::<u32, Task>::empty() && final(self)@ == old(self)@,
                Some(t) => old(self)@.contains_key(t.pid) && old(self)@[t.pid] == t && is_highest(
                    old(self)@,
                    t,
                ) && final(self)@ == old(self)@.remove(t.pid),
            },
    {
        if self.tasks.len() == 0 {
            None
        } else {
            let at = self.highest();
            proof {
                lemma_filed_remove(self.tasks@, at as int);
            }
            let t = self.tasks.remove(at);
            proof {
                lemma_filed(self.tasks@);
            }
            Some(t)
        }
    }

    /// Empties the list and returns the tasks that were in it, each once,
    /// in no particular order.
    pub fn drain(&mut self) -> (out: Vec<Task>)
        requires
            old(self).wf(),
        ensures
            final(self).wf(),
            final(self)@ =~= Map::<u32, Task>::empty(),
            out@.len() == old(self)@.len(),
            forall|i: int|
                0 <= i < out@.len() ==> old(self)@.contains_key((#[trigger] out@[i]).pid)
                    && old(self)@[out@[i].pid] == out@[i],
            forall|i: int, j: int|
                0 <= i < out@.len() && 0 <= j < out@.len() && i != j ==> (#[trigger] out@[i]).pid != (
                #[trigger] out@[j]).pid,
            forall|pid: u32|
                old(self)@.contains_key(pid) ==> exists|i: int|
                    0 <= i < out@.len() && (#[trigger] out@[i]).pid == pid,
    {
        let mut out: Vec<Task> = Vec::new();
        proof {
            lemma_filed(self.tasks@);
        }
        core::mem::swap(&mut self.tasks, &mut out);
        proof {
            assert forall|i: int, j: int|
                0 <= i < out@.len() && 0 <= j < out@.len() && i != j implies (#[trigger] out@[i]).pid
                != (#[trigger] out@[j]).pid by {
                if i < j {
                } else {
                    assert(out@[j].pid != out@[i].pid);
                }
            }
        }
        out
    }

    /// Moves every task of `other` into this list.
    pub fn extend(&mut self, other: TaskList)
        requires
            old(self).wf(),
            other.wf(),
            old(self)@.dom().disjoint(other@.dom()),
        ensures
            final(self).wf(),
            final(self)@ == old(self)@.union_prefer_right(other@),
    {
        let mut other = other;
        let ghost all = self@.union_prefer_right(other@);
        loop
            invariant
                self.wf(),
                other.wf(),
                self@.dom().disjoint(other@.dom()),
                self@.union_prefer_right(other@) =~= all,
            ensures
                self@ =~= all,
            decreases other@.len(),
        {
            match other.pop_max() {
                None => {
                    break ;
                },
                Some(t) => {
                    self.push(t);
                },
            }
        }
    }
}

} // verus!
