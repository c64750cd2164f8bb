//! Contiguous page allocation: a first-fit allocator over a fixed range of
//! page frames, with a free list that is kept sorted and coalesced.

pub mod hole;

use std::collections::HashMap;
use vstd::prelude::*;
use crate::memory::hole::Hole;

verus! {

broadcast use vstd::std_specs::hash::group_hash_axioms;

/// Why the allocator turned a request down.
#[derive(Debug, Clone, Copy, PartialEq, Eq, Structural)]
pub enum MemoryError {
    /// No free range is large enough.
    OutOfMemory,
    /// The pid holds no memory.
    PIDInvalid,
}

/// Two ranges share no page.
pub open spec fn apart(a: Hole, b: Hole) -> bool {
    a.end <= b.beg || b.end <= a.beg
}

/// Each range ends strictly before the next one begins: the list is sorted
/// and no two of its ranges touch.
pub open spec fn sorted_apart(free: Seq<Hole>) -> bool {
    forall|i: int, j: int| 0 <= i < j < free.len() ==> (#[trigger] free[i]).end < (#[trigger] free[j]).beg
}

/// The first `n` pages of `h`.
pub open spec fn head_of(h: Hole, n: int) -> Hole {
    Hole { beg: h.beg, end: (h.beg + n) as u32 }
}

/// What is left of `h` without its first `n` pages.
pub open spec fn rest_of(h: Hole, n: int) -> Hole {
    Hole { beg: (h.beg + n) as u32, end: h.end }
}

/// The free list after the first `n` pages of its range `i` were handed
/// out: the range is gone if it had exactly `n` pages, and has lost its
/// head otherwise.
pub open spec fn taken(free: Seq<Hole>, i: int, n: int) -> Seq<Hole> {
    if free[i].pages() == n {
        free.remove(i)
    } else {
        free.update(i, rest_of(free[i], n))
    }
}

/// The free list after `h` came back at position `pos`, merged with the
/// ranges before and after it where they touch.
pub open spec fn coalesced(free: Seq<Hole>, h: Hole, pos: int) -> Seq<Hole> {
    let left = pos > 0 && free[pos - 1].end == h.beg;
    let right = pos < free.len() && free[pos].beg == h.end;
    if left && right {
        free.update(pos - 1, Hole { beg: free[pos - 1].beg, end: free[pos].end }).remove(pos)
    } else if left {
        free.update(pos - 1, Hole { beg: free[pos - 1].beg, end: h.end })
    } else if right {
        free.update(pos, Hole { beg: h.beg, end: free[pos].end })
    } else {
        free.insert(pos, h)
    }
}

/// The allocator as a mathematical value: the size of the memory and of a
/// page, the free ranges in order, and the range that each pid holds.
pub struct MemoryModel {
    pub size: int,
    pub page_size: int,
    pub free: Seq<Hole>,
    pub used: Map<u32, Hole>,
}

impl MemoryModel {
    /// The number of page frames.
    pub open spec fn pages(self) -> int {
        self.size / self.page_size
    }

    /// Page `p` lies in a free range.
    pub open spec fn free_at(self, p: int) -> bool {
        exists|i: int| 0 <= i < self.free.len() && #[trigger] self.free[i].covers(p)
    }

    /// Page `p` lies in a range that some pid holds.
    pub open spec fn used_at(self, p: int) -> bool {
        exists|pid: u32| self.used.contains_key(pid) && #[trigger] self.used[pid].covers(p)
    }

    /// The allocator's invariant. The free list is sorted and coalesced;
    /// every range, free or held, is non-empty and inside the memory; no
    /// two ranges overlap; and every page of the memory is in one of them.
    pub open spec fn inv(self) -> bool {
        &&& self.page_size > 0
        &&& 0 < self.pages() <= u32::MAX
        &&& self.used.dom().finite()
        &&& forall|i: int| 0 <= i < self.free.len() ==> (#[trigger] self.free[i]).wf() && self.free[i].end <= self.pages()
        &&& sorted_apart(self.free)
        &&& forall|pid: u32| self.used.contains_key(pid) ==> (#[trigger] self.used[pid]).wf() && self.used[pid].end <= self.pages()
        &&& forall|p: u32, q: u32| self.used.contains_key(p) && self.used.contains_key(q) && p != q ==> apart(#[trigger] self.used[p], #[trigger] self.used[q])
        &&& forall|i: int, pid: u32| 0 <= i < self.free.len() && self.used.contains_key(pid) ==> apart(#[trigger] self.free[i], #[trigger] self.used[pid])
        &&& forall|p: int| 0 <= p < self.pages() ==> self.free_at(p) || self.used_at(p)
    }

    /// Some free range has at least `n` pages.
    pub open spec fn fits(self, n: int) -> bool {
        exists|i: int| 0 <= i < self.free.len() && (#[trigger] self.free[i]).pages() >= n
    }

    /// Range `i` is the first free range with at least `n` pages.
    pub open spec fn is_first_fit(self, n: int, i: int) -> bool {
        &&& 0 <= i < self.free.len()
        &&& self.free[i].pages() >= n
        &&& forall|j: int| 0 <= j < i ==> (#[trigger] self.free[j]).pages() < n
    }

    /// The index of the first free range with at least `n` pages, where
    /// there is one.
    pub open spec fn first_fit(self, n: int) -> int {
        choose|i: int| self.is_first_fit(n, i)
    }

    /// The range that a request for `n` pages is given.
    pub open spec fn grant(self, n: int) -> Hole {
        head_of(self.free[self.first_fit(n)], n)
    }

    /// The allocator after it gave `pid` the first `n` pages of the first
    /// free range that has that many.
    pub open spec fn after_allocate(self, n: int, pid: u32) -> MemoryModel {
        MemoryModel {
            free: taken(self.free, self.first_fit(n), n),
            used: self.used.insert(pid, self.grant(n)),
            ..self
        }
    }

    /// `pos` is where `h` belongs in the free list: the ranges before
    /// `pos` lie before `h`, the others after it.
    pub open spec fn is_slot(self, h: Hole, pos: int) -> bool {
        &&& 0 <= pos <= self.free.len()
        &&& forall|j: int| 0 <= j < pos ==> (#[trigger] self.free[j]).end <= h.beg
        &&& forall|j: int| pos <= j < self.free.len() ==> h.end <= (#[trigger] self.free[j]).beg
    }

    /// The position in the free list where `h` belongs.
    pub open spec fn slot(self, h: Hole) -> int {
        choose|pos: int| self.is_slot(h, pos)
    }

    /// The allocator after `pid` gave its range back: the range is in the
    /// free list again, merged with its neighbours where they touch.
    pub open spec fn after_free(self, pid: u32) -> MemoryModel {
        let h = self.used[pid];
        MemoryModel {
            free: coalesced(self.free, h, self.slot(h)),
            used: self.used.remove(pid),
            ..self
        }
    }

    /// A range can be the first fit at one index only.
    pub proof fn lemma_first_fit_unique(self, n: int, i: int)
        requires
            self.is_first_fit(n, i),
        ensures
            self.first_fit(n) == i,
            self.fits(n),
    {
        let c = self.first_fit(n);
        assert(self.is_first_fit(n, c));
        if c < i {
            assert(self.free[c].pages() < n);
        }
        if i < c {
            assert(self.free[i].pages() < n);
        }
    }

    /// Among the ranges up to `k`, if range `k` is large enough, one is
    /// the first that is.
    proof fn lemma_first_fit_upto(self, n: int, k: int)
        requires
            0 <= k < self.free.len(),
            self.free[k].pages() >= n,
        ensures
            self.is_first_fit(n, self.first_fit(n)),
        decreases k,
    {
        if forall|j: int| 0 <= j < k ==> (#[trigger] self.free[j]).pages() < n {
            assert(self.is_first_fit(n, k));
        } else {
            let j = choose|j: int| 0 <= j < k && !((#[trigger] self.free[j]).pages() < n);
            self.lemma_first_fit_upto(n, j);
        }
    }

    /// Where a request fits at all, it has a first fit.
    pub proof fn lemma_first_fit_exists(self, n: int)
        requires
            self.fits(n),
        ensures
            self.is_first_fit(n, self.first_fit(n)),
    {
        let k = choose|i: int| 0 <= i < self.free.len() && (#[trigger] self.free[i]).pages() >= n;
        self.lemma_first_fit_upto(n, k);
    }

    /// A range has one place in the free list only.
    pub proof fn lemma_slot_unique(self, h: Hole, pos: int)
        requires
            h.wf(),
            forall|i: int| 0 <= i < self.free.len() ==> (#[trigger] self.free[i]).wf(),
            self.is_slot(h, pos),
        ensures
            self.slot(h) == pos,
    {
        let c = self.slot(h);
        assert(self.is_slot(h, c));
        if c < pos {
            assert(self.free[c].wf());
            assert(self.free[c].end <= h.beg);
            assert(h.end <= self.free[c].beg);
        }
        if pos < c {
            assert(self.free[pos].wf());
            assert(self.free[pos].end <= h.beg);
            assert(h.end <= self.free[pos].beg);
        }
    }

    /// Handing out the head of the first fit keeps the invariant.
    pub proof fn lemma_allocate_inv(self, n: int, pid: u32, i: int)
        requires
            self.inv(),
            n > 0,
            self.is_first_fit(n, i),
            !self.used.contains_key(pid),
        ensures
            self.first_fit(n) == i,
            self.grant(n).wf(),
            self.grant(n).pages() == n,
            self.grant(n).end <= self.pages(),
            self.after_allocate(n, pid).inv(),
    {
        self.lemma_first_fit_unique(n, i);
        let after = self.after_allocate(n, pid);
        let h = self.free[i];
        let g = self.grant(n);
        assert(h.wf() && h.end <= self.pages());
        assert(g == head_of(h, n));
        assert forall|k: int| 0 <= k < after.free.len() implies (#[trigger] after.free[k]).wf()
            && after.free[k].end <= after.pages() by {
            if h.pages() == n {
                if k < i {
                    assert(after.free[k] == self.free[k]);
                } else {
                    assert(after.free[k] == self.free[k + 1]);
                }
            } else {
                if k != i {
                    assert(after.free[k] == self.free[k]);
                }
            }
        }
        assert(sorted_apart(after.free)) by {
            assert forall|a: int, b: int| 0 <= a < b < after.free.len() implies (
            #[trigger] after.free[a]).end < (#[trigger] after.free[b]).beg by {
                if h.pages() == n {
                    let a0 = if a < i { a } else { a + 1 };
                    let b0 = if b < i { b } else { b + 1 };
                    assert(after.free[a] == self.free[a0]);
                    assert(after.free[b] == self.free[b0]);
                } else {
                    assert(after.free[a].end == self.free[a].end);
                    assert(after.free[b].beg >= self.free[b].beg);
                }
            }
        }
        assert forall|q: u32| after.used.contains_key(q) implies (#[trigger] after.used[q]).wf()
            && after.used[q].end <= after.pages() by {
            if q != pid {
                assert(after.used[q] == self.used[q]);
            }
        }
        assert forall|p: u32, q: u32|
            after.used.contains_key(p) && after.used.contains_key(q) && p != q implies apart(
            #[trigger] after.used[p],
            #[trigger] after.used[q],
        ) by {
            if p == pid {
                assert(apart(self.free[i], self.used[q]));
            } else if q == pid {
                assert(apart(self.free[i], self.used[p]));
            } else {
                assert(apart(self.used[p], self.used[q]));
            }
        }
        assert forall|k: int, q: u32|
            0 <= k < after.free.len() && after.used.contains_key(q) implies apart(
            #[trigger] after.free[k],
            #[trigger] after.used[q],
        ) by {
            let k0 = if h.pages() == n && k >= i { k + 1 } else { k };
            assert(self.free[k0].wf());
            if q == pid {
                if k0 < i {
                    assert(self.free[k0].end < self.free[i].beg);
                } else if k0 > i {
                    assert(self.free[i].end < self.free[k0].beg);
                }
            } else {
                assert(apart(self.free[k0], self.used[q]));
            }
        }
        assert forall|p: int| 0 <= p < after.pages() implies after.free_at(p) || after.used_at(
            p,
        ) by {
            if self.free_at(p) {
                let k = choose|k: int| 0 <= k < self.free.len() && #[trigger] self.free[k].covers(p);
                if k == i {
                    if g.covers(p) {
                        assert(after.used[pid].covers(p));
                    } else {
                        assert(after.free[i].covers(p));
                    }
                } else if h.pages() == n && k > i {
                    assert(after.free[k - 1].covers(p));
                } else {
                    assert(after.free[k].covers(p));
                }
            } else {
                let q = choose|q: u32| self.used.contains_key(q) && #[trigger] self.used[q].covers(p);
                assert(after.used[q].covers(p));
            }
        }
    }

    /// A range that is held has a place in the free list.
    pub proof fn lemma_slot_exists(self, pid: u32)
        requires
            self.inv(),
            self.used.contains_key(pid),
        ensures
            self.is_slot(self.used[pid], self.slot(self.used[pid])),
    {
        self.lemma_slot_upto(pid, self.free.len() as int);
    }

    /// Among the first `k` free ranges, those before the range of `pid`
    /// come first.
    proof fn lemma_slot_upto(self, pid: u32, k: int)
        requires
            self.inv(),
            self.used.contains_key(pid),
            0 <= k <= self.free.len(),
            forall|j: int| k <= j < self.free.len() ==> self.used[pid].end <= (#[trigger] self.free[j]).beg,
        ensures
            self.is_slot(self.used[pid], self.slot(self.used[pid])),
        decreases k,
    {
        let h = self.used[pid];
        if k == 0 {
            assert(self.is_slot(h, 0));
        } else if self.free[k - 1].end <= h.beg {
            assert forall|j: int| 0 <= j < k implies (#[trigger] self.free[j]).end <= h.beg by {
                if j < k - 1 {
                    assert(self.free[j].end < self.free[k - 1].beg);
                    assert(self.free[k - 1].wf());
                }
            }
            assert(self.is_slot(h, k));
        } else {
            assert(apart(self.free[k - 1], self.used[pid]));
            self.lemma_slot_upto(pid, k - 1);
        }
    }

    /// Taking a range back into the free list keeps the invariant.
    pub proof fn lemma_free_inv(self, pid: u32, pos: int)
        requires
            self.inv(),
            self.used.contains_key(pid),
            self.is_slot(self.used[pid], pos),
        ensures
            self.slot(self.used[pid]) == pos,
            self.after_free(pid).inv(),
    {
        let h = self.used[pid];
        assert(h.wf());
        self.lemma_slot_unique(h, pos);
        let after = self.after_free(pid);
        let left = pos > 0 && self.free[pos - 1].end == h.beg;
        let right = pos < self.free.len() && self.free[pos].beg == h.end;
        if pos > 0 {
            assert(self.free[pos - 1].wf() && self.free[pos - 1].end <= h.beg);
        }
        if pos < self.free.len() {
            assert(self.free[pos].wf() && h.end <= self.free[pos].beg);
        }
        // Where each range of the new list comes from: `lo(k)..=hi(k)` are
        // the old indices that it spans.
        let lo = |k: int| -> int {
            if left && right {
                if k <= pos - 1 { k } else { k + 1 }
            } else if left || right {
                k
            } else {
                if k < pos { k } else { k - 1 }
            }
        };
        assert forall|k: int| 0 <= k < after.free.len() implies (#[trigger] after.free[k]).wf()
            && after.free[k].end <= after.pages() by {
            if left && right {
                if k < pos - 1 {
                    assert(after.free[k] == self.free[k]);
                } else if k > pos - 1 {
                    assert(after.free[k] == self.free[k + 1]);
                }
            } else if left {
                if k != pos - 1 {
                    assert(after.free[k] == self.free[k]);
                }
            } else if right {
                if k != pos {
                    assert(after.free[k] == self.free[k]);
                }
            } else {
                if k < pos {
                    assert(after.free[k] == self.free[k]);
                } else if k > pos {
                    assert(after.free[k] == self.free[k - 1]);
                }
            }
        }
        assert(sorted_apart(after.free)) by {
            assert forall|a: int, b: int| 0 <= a < b < after.free.len() implies (
            #[trigger] after.free[a]).end < (#[trigger] after.free[b]).beg by {
                if left && right {
                    let a0 = if a <= pos - 1 { a } else { a + 1 };
                    let b0 = if b <= pos - 1 { b } else { b + 1 };
                    assert(self.free[a0].end < self.free[b0].beg);
                    if a == pos - 1 {
                        assert(after.free[a].end == self.free[pos].end);
                        if b0 > pos {
                            assert(self.free[pos].end < self.free[b0].beg);
                        }
                    } else {
                        assert(after.free[a].end == self.free[a0].end);
                    }
                    assert(after.free[b].beg == self.free[b0].beg);
                } else if left {
                    assert(self.free[a].end < self.free[b].beg);
                    assert(after.free[b].beg == self.free[b].beg);
                    if a == pos - 1 {
                        assert(h.end <= self.free[b].beg);
                    } else {
                        assert(after.free[a].end == self.free[a].end);
                    }
                } else if right {
                    assert(self.free[a].end < self.free[b].beg);
                    assert(after.free[a].end == self.free[a].end);
                    if b == pos {
                        assert(self.free[a].end <= h.beg);
                    } else {
                        assert(after.free[b].beg == self.free[b].beg);
                    }
                } else {
                    let a0 = if a < pos { a } else { a - 1 };
                    let b0 = if b < pos { b } else { b - 1 };
                    if a == pos {
                        assert(after.free[a] == h);
                        assert(after.free[b] == self.free[b0]);
                        assert(h.end <= self.free[b0].beg);
                        assert(self.free[pos].beg <= self.free[b0].beg) by {
                            if b0 > pos {
                                assert(self.free[pos].end < self.free[b0].beg);
                            }
                        }
                    } else if b == pos {
                        assert(after.free[b] == h);
                        assert(after.free[a] == self.free[a0]);
                        assert(self.free[a0].end <= h.beg);
                        assert(self.free[a0].end <= self.free[pos - 1].end) by {
                            if a0 < pos - 1 {
                                assert(self.free[a0].end < self.free[pos - 1].beg);
                            }
                        }
                    } else {
                        assert(after.free[a] == self.free[a0]);
                        assert(after.free[b] == self.free[b0]);
                        assert(self.free[a0].end < self.free[b0].beg);
                    }
                }
            }
        }
        assert forall|p: u32, q: u32|
            after.used.contains_key(p) && after.used.contains_key(q) && p != q implies apart(
            #[trigger] after.used[p],
            #[trigger] after.used[q],
        ) by {
            assert(apart(self.used[p], self.used[q]));
        }
        assert forall|k: int, q: u32|
            0 <= k < after.free.len() && after.used.contains_key(q) implies apart(
            #[trigger] after.free[k],
            #[trigger] after.used[q],
        ) by {
            assert(self.used[q].wf());
            assert(apart(self.used[pid], self.used[q]));
            if pos > 0 {
                assert(apart(self.free[pos - 1], self.used[q]));
            }
            if pos < self.free.len() {
                assert(apart(self.free[pos], self.used[q]));
            }
            let k0 = lo(k);
            if 0 <= k0 < self.free.len() {
                assert(apart(self.free[k0], self.used[q]));
            }
        }
        assert forall|p: int| 0 <= p < after.pages() implies after.free_at(p) || after.used_at(
            p,
        ) by {
            if self.free_at(p) {
                let k = choose|k: int| 0 <= k < self.free.len() && #[trigger] self.free[k].covers(p);
                if left && right {
                    let k2 = if k <= pos - 1 { k } else { k - 1 };
                    assert(after.free[k2].covers(p));
                } else if left || right {
                    assert(after.free[k].covers(p));
                } else {
                    let k2 = if k < pos { k } else { k + 1 };
                    assert(after.free[k2].covers(p));
                }
            } else {
                let q = choose|q: u32| self.used.contains_key(q) && #[trigger] self.used[q].covers(p);
                if q == pid {
                    if left {
                        assert(after.free[pos - 1].covers(p));
                    } else {
                        assert(after.free[pos].covers(p));
                    }
                } else {
                    assert(after.used[q].covers(p));
                }
            }
        }
    }

    /// Every page of the memory lies in exactly one range, free or held,
    /// and no range reaches beyond the memory.
    pub proof fn lemma_exact_cover(self, p: int)
        requires
            self.inv(),
        ensures
            (0 <= p < self.pages()) == (self.free_at(p) || self.used_at(p)),
            !(self.free_at(p) && self.used_at(p)),
            forall|i: int, j: int|
                0 <= i < self.free.len() && 0 <= j < self.free.len() && self.free[i].covers(p)
                    && self.free[j].covers(p) ==> i == j,
            forall|a: u32, b: u32|
                self.used.contains_key(a) && self.used.contains_key(b) && self.used[a].covers(p)
                    && self.used[b].covers(p) ==> a == b,
    {
        if self.free_at(p) && self.used_at(p) {
            let i = choose|i: int| 0 <= i < self.free.len() && #[trigger] self.free[i].covers(p);
            let q = choose|q: u32| self.used.contains_key(q) && #[trigger] self.used[q].covers(p);
            assert(apart(self.free[i], self.used[q]));
        }
        if self.free_at(p) {
            let i = choose|i: int| 0 <= i < self.free.len() && #[trigger] self.free[i].covers(p);
            assert(self.free[i].wf() && self.free[i].end <= self.pages());
        }
        if self.used_at(p) {
            let q = choose|q: u32| self.used.contains_key(q) && #[trigger] self.used[q].covers(p);
            assert(self.used[q].wf() && self.used[q].end <= self.pages());
        }
        assert forall|i: int, j: int|
            0 <= i < self.free.len() && 0 <= j < self.free.len() && self.free[i].covers(p)
                && self.free[j].covers(p) implies i == j by {
            if i < j {
                assert(self.free[i].end < self.free[j].beg);
            }
            if j < i {
                assert(self.free[j].end < self.free[i].beg);
            }
        }
        assert forall|a: u32, b: u32|
            self.used.contains_key(a) && self.used.contains_key(b) && self.used[a].covers(p)
                && self.used[b].covers(p) implies a == b by {
            if a != b {
                assert(apart(self.used[a], self.used[b]));
            }
        }
    }

    /// Of any two free ranges, the earlier ends strictly before the later
    /// begins: the free list is sorted, and no two of its ranges touch.
    pub proof fn lemma_free_list_apart(self, i: int, j: int)
        requires
            self.inv(),
            0 <= i < j < self.free.len(),
        ensures
            self.free[i].end < self.free[j].beg,
    {
    }

    /// Handing out memory makes room for no request that had none.
    pub proof fn lemma_allocate_shrinks(self, n: int, pid: u32, k: int)
        requires
            self.inv(),
            n > 0,
            self.fits(n),
            self.after_allocate(n, pid).fits(k),
        ensures
            self.fits(k),
    {
        self.lemma_first_fit_exists(n);
        let i = self.first_fit(n);
        let after = self.after_allocate(n, pid);
        let j = choose|j: int| 0 <= j < after.free.len() && (#[trigger] after.free[j]).pages() >= k;
        assert(self.free[i].wf());
        if self.free[i].pages() == n {
            let j0 = if j < i { j } else { j + 1 };
            assert(after.free[j] == self.free[j0]);
            assert(self.free[j0].pages() >= k);
        } else {
            assert(self.free[j].pages() >= k);
        }
    }

    /// Giving a range out and taking it back leaves the allocator as it
    /// was: the same free list, the same holdings.
    pub proof fn lemma_allocate_then_free(self, n: int, pid: u32)
        requires
            self.inv(),
            n > 0,
            self.fits(n),
            !self.used.contains_key(pid),
        ensures
            self.after_allocate(n, pid).after_free(pid) == self,
    {
        self.lemma_first_fit_exists(n);
        let i = self.first_fit(n);
        self.lemma_allocate_inv(n, pid, i);
        let mid = self.after_allocate(n, pid);
        let g = self.grant(n);
        let h = self.free[i];
        assert(mid.used[pid] == g);
        assert(h.wf());
        assert(mid.is_slot(g, i)) by {
            assert forall|j: int| 0 <= j < i implies (#[trigger] mid.free[j]).end <= g.beg by {
                assert(mid.free[j] == self.free[j]);
                assert(self.free[j].end < self.free[i].beg);
            }
            assert forall|j: int| i <= j < mid.free.len() implies g.end <= (
            #[trigger] mid.free[j]).beg by {
                if h.pages() == n {
                    assert(mid.free[j] == self.free[j + 1]);
                    assert(self.free[i].end < self.free[j + 1].beg);
                } else if j > i {
                    assert(mid.free[j] == self.free[j]);
                    assert(self.free[i].end < self.free[j].beg);
                }
            }
        }
        mid.lemma_free_inv(pid, i);
        let back = mid.after_free(pid);
        if i > 0 {
            assert(mid.free[i - 1] == self.free[i - 1]);
            assert(self.free[i - 1].end < self.free[i].beg);
        }
        if h.pages() == n {
            if i < mid.free.len() {
                assert(mid.free[i] == self.free[i + 1]);
                assert(self.free[i].end < self.free[i + 1].beg);
            }
            assert(back.free =~= self.free);
        } else {
            assert(mid.free[i] == rest_of(h, n));
            assert(back.free =~= self.free);
        }
        assert(back.used =~= self.used);
    }

    /// While no pid holds memory, the free list is the one range of all
    /// pages.
    pub proof fn lemma_all_free(self)
        requires
            self.inv(),
            self.used.dom() =~= Set::empty(),
        ensures
            self.free =~= seq![Hole { beg: 0, end: self.pages() as u32 }],
    {
        assert(forall|p: int| 0 <= p < self.pages() ==> !self.used_at(p));
        assert(self.free_at(0));
        let k = choose|k: int| 0 <= k < self.free.len() && #[trigger] self.free[k].covers(0);
        if k > 0 {
            assert(self.free[0].wf());
            assert(self.free[0].end < self.free[k].beg);
        }
        let first = self.free[0];
        assert(first.wf() && first.end <= self.pages());
        if first.end < self.pages() {
            let p = first.end as int;
            assert(self.free_at(p));
            let j = choose|j: int| 0 <= j < self.free.len() && #[trigger] self.free[j].covers(p);
            if j > 0 {
                assert(self.free[0].end < self.free[j].beg);
            }
        }
        if self.free.len() > 1 {
            assert(self.free[0].end < self.free[1].beg);
            assert(self.free[1].wf() && self.free[1].end <= self.pages());
        }
    }
}

/// A first-fit allocator of contiguous page ranges.
pub struct MemoryManager {
    size: u64,
    page_size: u32,
    pid_to_mem: HashMap<u32, Hole>,
    holes: Vec<Hole>,
}

impl View for MemoryManager {
    type V = MemoryModel;

    closed spec fn view(&self) -> MemoryModel {
        MemoryModel {
            size: self.size as int,
            page_size: self.page_size as int,
            free: self.holes@,
            used: self.pid_to_mem@,
        }
    }
}

impl MemoryManager {
    /// An allocator for `size` bytes in pages of `page_size` bytes, all of
    /// them free.
    pub fn new(size: u64, page_size: u32) -> (m: Self)
        requires
            page_size > 0,
            0 < size / (page_size as u64) <= u32::MAX,
        ensures
            m@ == (MemoryModel {
                size: size as int,
                page_size: page_size as int,
                free: seq![Hole { beg: 0, end: (size / (page_size as u64)) as u32 }],
                used: Map::empty(),
            }),
            m@.inv(),
    {
        let pages: u32 = (size / page_size as u64) as u32;
        let all = Hole { beg: 0, end: pages };
        let m = MemoryManager { size, page_size, pid_to_mem: HashMap::new(), holes: vec![all] };
        proof {
            assert(m@.free =~= seq![all]);
            assert(m@.free[0] == all);
            assert forall|p: int| 0 <= p < m@.pages() implies m@.free_at(p) by {
                assert(m@.free[0].covers(p));
            }
        }
        m
    }

    /// Gives `pid` the first `req_size` pages of the first free range that
    /// has that many, or reports that there is none and changes nothing.
    pub fn allocate(&mut self, req_size: u32, pid: u32) -> (r: Result<Hole, MemoryError>)
        requires
            old(self)@.inv(),
            req_size > 0,
            !old(self)@.used.contains_key(pid),
        ensures
            final(self)@.inv(),
            old(self)@.fits(req_size as int) ==> r == Ok::<Hole, MemoryError>(
                old(self)@.grant(req_size as int),
            ) && final(self)@ == old(self)@.after_allocate(req_size as int, pid),
            !old(self)@.fits(req_size as int) ==> r == Err::<Hole, MemoryError>(
                MemoryError::OutOfMemory,
            ) && final(self)@ == old(self)@,
            r matches Ok(h) ==> h.wf() && h.pages() == req_size && h.end <= old(self)@.pages(),
    {
        let mut i: usize = 0;
        while i < self.holes.len() && self.holes[i].get_size() < req_size
            invariant
                *self == *old(self),
                self@.inv(),
                i <= self.holes.len(),
                forall|j: int| 0 <= j < i ==> (#[trigger] self@.free[j]).pages() < req_size,
            decreases self.holes.len() - i,
        {
            i += 1;
        }
        if i == self.holes.len() {
            return Err(MemoryError::OutOfMemory);
        }
        proof {
            old(self)@.lemma_allocate_inv(req_size as int, pid, i as int);
        }
        let hole = if self.holes[i].get_size() == req_size {
            self.holes.remove(i)
        } else {
            match self.holes[i].split_head(req_size) {
                Ok(head) => head,
                Err(_) => {
                    return Err(MemoryError::OutOfMemory);
                },
            }
        };
        self.pid_to_mem.insert(pid, hole);
        assert(self@.free =~= old(self)@.after_allocate(req_size as int, pid).free);
        Ok(hole)
    }

    /// Takes back the range that `pid` holds and merges it with the free
    /// ranges it touches, or reports that `pid` holds none and changes
    /// nothing.
    pub fn free(&mut self, pid: u32) -> (r: Result<(), MemoryError>)
        requires
            old(self)@.inv(),
        ensures
            final(self)@.inv(),
            old(self)@.used.contains_key(pid) ==> r == Ok::<(), MemoryError>(()) && final(self)@
                == old(self)@.after_free(pid),
            !old(self)@.used.contains_key(pid) ==> r == Err::<(), MemoryError>(
                MemoryError::PIDInvalid,
            ) && final(self)@ == old(self)@,
    {
        let hole = match self.pid_to_mem.remove(&pid) {
            None => {
                assert(self@.used =~= old(self)@.used);
                return Err(MemoryError::PIDInvalid);
            },
            Some(h) => h,
        };
        let mut pos: usize = 0;
        while pos < self.holes.len() && !(self.holes[pos] > hole)
            invariant
                self.holes == old(self).holes,
                old(self)@.inv(),
                old(self)@.used.contains_key(pid),
                hole == old(self)@.used[pid],
                pos <= self.holes.len(),
                forall|j: int| 0 <= j < pos ==> (#[trigger] self.holes@[j]).end <= hole.beg,
            decreases self.holes.len() - pos,
        {
            proof {
                assert(apart(old(self)@.free[pos as int], old(self)@.used[pid]));
            }
            pos += 1;
        }
        proof {
            let m = old(self)@;
            assert(hole.wf());
            assert(m.is_slot(hole, pos as int)) by {
                assert forall|j: int| pos <= j < m.free.len() implies hole.end <= (
                #[trigger] m.free[j]).beg by {
                    assert(m.free[pos as int].wf());
                    if j > pos {
                        assert(m.free[pos as int].end < m.free[j].beg);
                    }
                }
            }
            m.lemma_free_inv(pid, pos as int);
            if pos > 0 {
                assert(m.free[pos - 1].wf());
            }
            if pos < m.free.len() {
                assert(m.free[pos as int].wf());
            }
        }
        if pos < self.holes.len() && self.holes[pos].test_adjacency(&hole) {
            let _ = self.holes[pos].merge_into_self(&hole);
        } else {
            self.holes.insert(pos, hole);
        }
        if pos > 0 {
            let temp = self.holes[pos];
            if self.holes[pos - 1].test_adjacency(&temp) {
                let _ = self.holes[pos - 1].merge_into_self(&temp);
                self.holes.remove(pos);
            }
        }
        assert(self@.free =~= old(self)@.after_free(pid).free);
        Ok(())
    }

    /// The size of the memory in bytes.
    pub fn size(&self) -> (size: u64)
        ensures
            size == self@.size,
    {
        self.size
    }

    /// The size of a page in bytes.
    pub fn page_size(&self) -> (page_size: u32)
        ensures
            page_size == self@.page_size,
    {
        self.page_size
    }

    /// The range that each pid holds.
    pub fn get_mem_usage(&self) -> (usage: &HashMap<u32, Hole>)
        ensures
            usage@ == self@.used,
    {
        &self.pid_to_mem
    }

    /// The free ranges, in order.
    pub fn free_holes(&self) -> (free: &Vec<Hole>)
        ensures
            free@ == self@.free,
    {
        &self.holes
    }
}

} // verus!
