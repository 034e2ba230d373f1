//! Deadline bookkeeping for calls into untrusted code.
//!
//! Each plugin owns a timer identity; arming it records a wall-clock
//! deadline before an export is invoked, disarming drops it right after.
//! The timekeeping thread polls for expired deadlines and asks the
//! execution engine for cooperative interruption of each; it never touches
//! guest memory. The bookkeeping here is the decision part of that loop.

use vstd::prelude::*;

verus! {

spec fn seq_has_timer(t: Seq<(u64, u64)>, id: int) -> bool {
    exists|i: int| 0 <= i < t.len() && (#[trigger] t[i]).0 == id
}

spec fn seq_timer_idx(t: Seq<(u64, u64)>, id: int) -> int {
    choose|i: int| 0 <= i < t.len() && (#[trigger] t[i]).0 == id
}

/// The armed deadlines, one per timer identity.
pub struct TimerManager {
    timers: Vec<(u64, u64)>,
}

impl TimerManager {
    pub closed spec fn is_armed(self, id: int) -> bool {
        seq_has_timer(self.timers@, id)
    }

    pub closed spec fn deadline_of(self, id: int) -> int {
        self.timers@[seq_timer_idx(self.timers@, id)].1 as int
    }

    /// Each armed timer identity, mapped to its deadline.
    pub open spec fn armed(self) -> Map<int, int> {
        Map::new(|id: int| self.is_armed(id), |id: int| self.deadline_of(id))
    }

    /// Timer identities are unique.
    pub closed spec fn wf(self) -> bool {
        forall|i: int, j: int|
            #![trigger self.timers@[i], self.timers@[j]]
            0 <= i < j < self.timers@.len() ==> self.timers@[i].0 != self.timers@[j].0
    }

    proof fn lemma_id_unique(self, i: int, j: int)
        requires
            self.wf(),
            0 <= i < self.timers@.len(),
            0 <= j < self.timers@.len(),
            self.timers@[i].0 == self.timers@[j].0,
        ensures
            i == j,
    {
        if i < j {
            assert(self.timers@[i].0 != self.timers@[j].0);
        }
        if j < i {
            assert(self.timers@[j].0 != self.timers@[i].0);
        }
    }

    proof fn lemma_entry_at(self, i: int)
        requires
            self.wf(),
            0 <= i < self.timers@.len(),
        ensures
            self.armed().dom().contains(self.timers@[i].0 as int),
            self.armed()[self.timers@[i].0 as int] == self.timers@[i].1 as int,
    {
        let id = self.timers@[i].0 as int;
        assert(seq_has_timer(self.timers@, id));
        let j = seq_timer_idx(self.timers@, id);
        assert(0 <= j < self.timers@.len() && self.timers@[j].0 == id);
        self.lemma_id_unique(i, j);
    }

    proof fn lemma_armed_entry(self, id: int) -> (i: int)
        requires
            self.wf(),
            self.armed().dom().contains(id),
        ensures
            0 <= i < self.timers@.len(),
            self.timers@[i].0 == id,
            self.armed()[id] == self.timers@[i].1 as int,
    {
        let i = seq_timer_idx(self.timers@, id);
        assert(0 <= i < self.timers@.len() && self.timers@[i].0 == id);
        i
    }

    /// No timers armed.
    pub fn new() -> (r: Self)
        ensures
            r.wf(),
            r.armed() == Map::<int, int>::empty(),
    {
        let r = TimerManager { timers: Vec::new() };
        proof {
            assert(r.armed() =~= Map::<int, int>::empty());
        }
        r
    }

    /// Arm timer `id` for `deadline`, replacing any deadline it had.
    pub fn arm(&mut self, id: u64, deadline: u64)
        requires
            old(self).wf(),
        ensures
            final(self).wf(),
            final(self).armed() == old(self).armed().insert(id as int, deadline as int),
    {
        let n = self.timers.len();
        let mut i: usize = 0;
        while i < n
            invariant
                *self == *old(self),
                old(self).wf(),
                n == self.timers@.len(),
                i <= n,
                forall|k: int| 0 <= k < i ==> (#[trigger] self.timers@[k]).0 != id,
            decreases n - i,
        {
            if self.timers[i].0 == id {
                self.timers[i] = (id, deadline);
                proof {
                    self.lemma_after_rearm(*old(self), i as int);
                }
                return ;
            }
            i += 1;
        }
        proof {
            if old(self).armed().dom().contains(id as int) {
                let j = old(self).lemma_armed_entry(id as int);
            }
        }
        self.timers.push((id, deadline));
        proof {
            self.lemma_after_arm_push(*old(self));
        }
    }

    proof fn lemma_after_rearm(self, pre: Self, i: int)
        requires
            pre.wf(),
            0 <= i < pre.timers@.len(),
            self.timers@ == pre.timers@.update(i, self.timers@[i]),
            self.timers@[i].0 == pre.timers@[i].0,
        ensures
            self.wf(),
            self.armed() == pre.armed().insert(self.timers@[i].0 as int, self.timers@[i].1 as int),
    {
        let id0 = self.timers@[i].0 as int;
        assert forall|p: int, q: int|
            #![trigger self.timers@[p], self.timers@[q]]
            0 <= p < q < self.timers@.len() implies self.timers@[p].0 != self.timers@[q].0 by {
            assert(self.timers@[p].0 == pre.timers@[p].0);
            assert(self.timers@[q].0 == pre.timers@[q].0);
        }
        let m1 = self.armed();
        let m2 = pre.armed().insert(id0, self.timers@[i].1 as int);
        self.lemma_entry_at(i);
        assert forall|id: int| #[trigger] m1.dom().contains(id) implies m2.dom().contains(id)
            && m1[id] == m2[id] by {
            if id != id0 {
                let p = self.lemma_armed_entry(id);
                assert(pre.timers@[p].0 as int == id);
                pre.lemma_entry_at(p);
            }
        }
        assert forall|id: int| #[trigger] m2.dom().contains(id) implies m1.dom().contains(
            id,
        ) by {
            if id != id0 {
                let p = pre.lemma_armed_entry(id);
                assert(self.timers@[p].0 as int == id);
                self.lemma_entry_at(p);
            }
        }
        assert(m1 =~= m2);
    }

    proof fn lemma_after_arm_push(self, pre: Self)
        requires
            pre.wf(),
            self.timers@.len() == pre.timers@.len() + 1,
            self.timers@ == pre.timers@.push(self.timers@.last()),
            !pre.is_armed(self.timers@.last().0 as int),
        ensures
            self.wf(),
            self.armed() == pre.armed().insert(
                self.timers@.last().0 as int,
                self.timers@.last().1 as int,
            ),
    {
        let n = pre.timers@.len() as int;
        let id0 = self.timers@.last().0 as int;
        assert forall|p: int, q: int|
            #![trigger self.timers@[p], self.timers@[q]]
            0 <= p < q < self.timers@.len() implies self.timers@[p].0 != self.timers@[q].0 by {
            if q < n {
                assert(self.timers@[p].0 == pre.timers@[p].0);
                assert(self.timers@[q].0 == pre.timers@[q].0);
            } else {
                assert(self.timers@[p].0 == pre.timers@[p].0);
                if self.timers@[p].0 as int == id0 {
                    assert(seq_has_timer(pre.timers@, id0));
                    assert(false);
                }
            }
        }
        let m1 = self.armed();
        let m2 = pre.armed().insert(id0, self.timers@.last().1 as int);
        self.lemma_entry_at(n);
        assert forall|id: int| #[trigger] m1.dom().contains(id) implies m2.dom().contains(id)
            && m1[id] == m2[id] by {
            if id != id0 {
                let p = self.lemma_armed_entry(id);
                assert(p < n);
                assert(pre.timers@[p].0 as int == id);
                pre.lemma_entry_at(p);
            }
        }
        assert forall|id: int| #[trigger] m2.dom().contains(id) implies m1.dom().contains(
            id,
        ) by {
            if id != id0 {
                let p = pre.lemma_armed_entry(id);
                assert(self.timers@[p].0 as int == id);
                self.lemma_entry_at(p);
            }
        }
        assert(m1 =~= m2);
    }

    /// Disarm timer `id`. Reports whether it was armed; disarming a timer
    /// that never fired and one that already expired are both safe.
    pub fn disarm(&mut self, id: u64) -> (was_armed: bool)
        requires
            old(self).wf(),
        ensures
            final(self).wf(),
            final(self).armed() == old(self).armed().remove(id as int),
            was_armed <==> old(self).is_armed(id as int),
    {
        let n = self.timers.len();
        let mut i: usize = 0;
        while i < n
            invariant
                *self == *old(self),
                old(self).wf(),
                n == self.timers@.len(),
                i <= n,
                forall|k: int| 0 <= k < i ==> (#[trigger] self.timers@[k]).0 != id,
            decreases n - i,
        {
            if self.timers[i].0 == id {
                proof {
                    old(self).lemma_entry_at(i as int);
                }
                self.timers.swap_remove(i);
                proof {
                    self.lemma_after_drop(*old(self), i as int);
                }
                return true;
            }
            i += 1;
        }
        proof {
            if old(self).armed().dom().contains(id as int) {
                let j = old(self).lemma_armed_entry(id as int);
            }
            assert(self.armed() =~= old(self).armed().remove(id as int));
        }
        false
    }

    proof fn lemma_after_drop(self, pre: Self, i: int)
        requires
            pre.wf(),
            0 <= i < pre.timers@.len(),
            self.timers@ == pre.timers@.update(i, pre.timers@.last()).drop_last(),
        ensures
            self.wf(),
            self.armed() == pre.armed().remove(pre.timers@[i].0 as int),
    {
        let n = pre.timers@.len() as int;
        let id0 = pre.timers@[i].0 as int;
        assert forall|p: int, q: int|
            #![trigger self.timers@[p], self.timers@[q]]
            0 <= p < q < self.timers@.len() implies self.timers@[p].0 != self.timers@[q].0 by {
            let p2: int = if p == i {
                n - 1
            } else {
                p
            };
            let q2: int = if q == i {
                n - 1
            } else {
                q
            };
            assert(self.timers@[p] == pre.timers@[p2]);
            assert(self.timers@[q] == pre.timers@[q2]);
            if pre.timers@[p2].0 == pre.timers@[q2].0 {
                pre.lemma_id_unique(p2, q2);
                assert(false);
            }
        }
        let m1 = self.armed();
        let m2 = pre.armed().remove(id0);
        assert forall|id: int| #[trigger] m1.dom().contains(id) implies m2.dom().contains(id)
            && m1[id] == m2[id] by {
            let p = self.lemma_armed_entry(id);
            let p2: int = if p == i {
                n - 1
            } else {
                p
            };
            assert(self.timers@[p] == pre.timers@[p2]);
            pre.lemma_entry_at(p2);
            if id == id0 {
                pre.lemma_id_unique(p2, i);
                assert(false);
            }
        }
        assert forall|id: int| #[trigger] m2.dom().contains(id) implies m1.dom().contains(
            id,
        ) by {
            let q = pre.lemma_armed_entry(id);
            if q == i {
                assert(false);
            }
            if q == n - 1 {
                if i < n - 1 {
                    assert(self.timers@[i] == pre.timers@[n - 1]);
                    self.lemma_entry_at(i);
                } else {
                    assert(false);
                }
            } else {
                assert(self.timers@[q] == pre.timers@[q]);
                self.lemma_entry_at(q);
            }
        }
        assert(m1 =~= m2);
    }

    /// One timer whose deadline has passed at `now`, removed from the armed
    /// set so the caller can request interruption of its plugin's call; or
    /// `None` when every armed deadline still lies ahead.
    pub fn next_expired(&mut self, now: u64) -> (r: Option<u64>)
        requires
            old(self).wf(),
        ensures
            final(self).wf(),
            match r {
                Some(id) => old(self).armed().dom().contains(id as int)
                    && old(self).armed()[id as int] <= now as int
                    && final(self).armed() == old(self).armed().remove(id as int),
                None => *final(self) == *old(self) && forall|id: int|
                    (#[trigger] old(self).armed().dom().contains(id)) ==> old(self).armed()[id]
                        > now as int,
            },
    {
        let n = self.timers.len();
        let mut i: usize = 0;
        while i < n
            invariant
                *self == *old(self),
                old(self).wf(),
                n == self.timers@.len(),
                i <= n,
                forall|k: int| 0 <= k < i ==> (#[trigger] self.timers@[k]).1 > now,
            decreases n - i,
        {
            let e = self.timers[i];
            if e.1 <= now {
                proof {
                    old(self).lemma_entry_at(i as int);
                }
                self.timers.swap_remove(i);
                proof {
                    self.lemma_after_drop(*old(self), i as int);
                }
                return Some(e.0);
            }
            i += 1;
        }
        proof {
            assert forall|id: int| (#[trigger] old(self).armed().dom().contains(id)) implies old(
                self,
            ).armed()[id] > now as int by {
                let j = old(self).lemma_armed_entry(id);
            }
        }
        None
    }
}

} // verus!
