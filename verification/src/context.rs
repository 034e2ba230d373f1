//! The plugin registry: a context owns every live plugin, hands out integer
//! handles for them, and mediates each call through exclusive access.
//!
//! Handles are issued monotonically and never reused while the context
//! lives; a freed handle is simply absent, and every operation against it
//! fails cleanly. Taking a plugin out for a call and putting it back is
//! what serializes calls on one handle: a second caller, or a re-entrant
//! call from inside a host function, finds the handle absent and is
//! rejected rather than allowed to interleave.

use vstd::prelude::*;

use crate::error::RuntimeError;
use crate::error::error_message;
use crate::error::error_text;
use crate::plugin::Plugin;

verus! {

spec fn seq_has_handle(t: Seq<(i32, Plugin)>, h: int) -> bool {
    exists|i: int| 0 <= i < t.len() && (#[trigger] t[i]).0 == h
}

spec fn seq_handle_idx(t: Seq<(i32, Plugin)>, h: int) -> int {
    choose|i: int| 0 <= i < t.len() && (#[trigger] t[i]).0 == h
}

/// The process-visible registry of live plugins.
pub struct Context {
    plugins: Vec<(i32, Plugin)>,
    next_id: i32,
    active_plugin: Option<i32>,
    error: Option<Vec<u8>>,
}

impl Context {
    pub closed spec fn contains_handle(self, h: int) -> bool {
        seq_has_handle(self.plugins@, h)
    }

    pub closed spec fn plugin_at(self, h: int) -> Plugin {
        self.plugins@[seq_handle_idx(self.plugins@, h)].1
    }

    /// The registry's contents: each live handle, mapped to its plugin.
    pub open spec fn plugins_map(self) -> Map<int, Plugin> {
        Map::new(|h: int| self.contains_handle(h), |h: int| self.plugin_at(h))
    }

    /// The handle the next registration will be issued.
    pub closed spec fn next_handle(self) -> int {
        self.next_id as int
    }

    /// The advisory marker for the most recently invoked plugin.
    pub closed spec fn active(self) -> Option<i32> {
        self.active_plugin
    }

    /// The context's own error slot, for failures before a plugin is reached.
    pub closed spec fn error_bytes(self) -> Option<Seq<u8>> {
        match self.error {
            Some(v) => Some(v@),
            None => None,
        }
    }

    /// Handles are unique, below the issue counter, and never negative;
    /// every registered plugin is well formed.
    pub closed spec fn wf(self) -> bool {
        &&& 0 <= self.next_id
        &&& forall|i: int, j: int|
            #![trigger self.plugins@[i], self.plugins@[j]]
            0 <= i < j < self.plugins@.len() ==> self.plugins@[i].0 != self.plugins@[j].0
        &&& forall|i: int|
            0 <= i < self.plugins@.len() ==> 0 <= (#[trigger] self.plugins@[i]).0
                < self.next_id && self.plugins@[i].1.wf()
    }

    proof fn lemma_handle_unique(self, i: int, j: int)
        requires
            self.wf(),
            0 <= i < self.plugins@.len(),
            0 <= j < self.plugins@.len(),
            self.plugins@[i].0 == self.plugins@[j].0,
        ensures
            i == j,
    {
        if i < j {
            assert(self.plugins@[i].0 != self.plugins@[j].0);
        }
        if j < i {
            assert(self.plugins@[j].0 != self.plugins@[i].0);
        }
    }

    proof fn lemma_entry_at(self, i: int)
        requires
            self.wf(),
            0 <= i < self.plugins@.len(),
        ensures
            self.plugins_map().dom().contains(self.plugins@[i].0 as int),
            self.plugins_map()[self.plugins@[i].0 as int] == self.plugins@[i].1,
    {
        let h = self.plugins@[i].0 as int;
        assert(seq_has_handle(self.plugins@, h));
        let j = seq_handle_idx(self.plugins@, h);
        assert(0 <= j < self.plugins@.len() && self.plugins@[j].0 == h);
        self.lemma_handle_unique(i, j);
    }

    proof fn lemma_handle_entry(self, h: int) -> (i: int)
        requires
            self.wf(),
            self.plugins_map().dom().contains(h),
        ensures
            0 <= i < self.plugins@.len(),
            self.plugins@[i].0 == h,
            self.plugins_map()[h] == self.plugins@[i].1,
    {
        let i = seq_handle_idx(self.plugins@, h);
        assert(0 <= i < self.plugins@.len() && self.plugins@[i].0 == h);
        i
    }

    /// Every registered handle is in the issued range.
    pub proof fn lemma_handle_in_range(self, h: int)
        requires
            self.wf(),
            self.plugins_map().dom().contains(h),
        ensures
            0 <= h < self.next_handle(),
            self.plugins_map()[h].wf(),
    {
        let i = self.lemma_handle_entry(h);
    }

    /// An empty registry.
    pub fn new() -> (r: Self)
        ensures
            r.wf(),
            r.plugins_map() == Map::<int, Plugin>::empty(),
            r.next_handle() == 0,
            r.active() is None,
            r.error_bytes() is None,
    {
        let r = Context { plugins: Vec::new(), next_id: 0, active_plugin: None, error: None };
        proof {
            assert(r.plugins_map() =~= Map::<int, Plugin>::empty());
        }
        r
    }

    /// Register a plugin under a fresh handle and assign it the matching
    /// timer identity. Fails with -1, recording the error, only when the
    /// handle space is exhausted.
    pub fn register_plugin(&mut self, p: Plugin) -> (r: i32)
        requires
            old(self).wf(),
            p.wf(),
        ensures
            final(self).wf(),
            final(self).active() == old(self).active(),
            r == -1 <==> old(self).next_handle() == i32::MAX as int,
            r == -1 ==> final(self).plugins_map() == old(self).plugins_map() && final(self).error_bytes() == Some(error_text(RuntimeError::AllocationFailed)),
            r != -1 ==> {
                &&& r as int == old(self).next_handle()
                &&& final(self).next_handle() == old(self).next_handle() + 1
                &&& !old(self).plugins_map().dom().contains(r as int)
                &&& final(self).plugins_map().dom() == old(self).plugins_map().dom().insert(
                    r as int,
                )
                &&& forall|h: int|
                    (#[trigger] old(self).plugins_map().dom().contains(h)) ==> final(self).plugins_map()[h] == old(self).plugins_map()[h]
                &&& final(self).plugins_map()[r as int].timer_id() == r as u64
                &&& final(self).plugins_map()[r as int].mem() == p.mem()
                &&& final(self).plugins_map()[r as int].vars() == p.vars()
                &&& final(self).plugins_map()[r as int].config() == p.config()
                &&& final(self).plugins_map()[r as int].error_bytes() == p.error_bytes()
                &&& final(self).plugins_map()[r as int].has_wasi() == p.has_wasi()
                &&& final(self).plugins_map()[r as int].needs_reinstantiation()
                    == p.needs_reinstantiation()
                &&& final(self).plugins_map()[r as int].host_fns() == p.host_fns()
                &&& final(self).error_bytes() == old(self).error_bytes()
            },
    {
        if self.next_id == i32::MAX {
            self.error = Some(error_message(RuntimeError::AllocationFailed));
            return -1;
        }
        let h = self.next_id;
        self.next_id = self.next_id + 1;
        let mut q = p;
        q.set_timer_id(h as u64);
        proof {
            if old(self).plugins_map().dom().contains(h as int) {
                let j = old(self).lemma_handle_entry(h as int);
            }
        }
        self.plugins.push((h, q));
        proof {
            self.lemma_after_register(*old(self), h as int);
        }
        h
    }

    proof fn lemma_after_register(self, pre: Self, h: int)
        requires
            pre.wf(),
            !pre.contains_handle(h),
            self.plugins@.len() == pre.plugins@.len() + 1,
            self.plugins@ == pre.plugins@.push(self.plugins@.last()),
            self.plugins@.last().0 as int == h,
            self.plugins@.last().1.wf(),
            self.next_id as int == pre.next_id + 1,
            0 <= h < self.next_id as int,
        ensures
            self.wf(),
            self.plugins_map().dom() == pre.plugins_map().dom().insert(h),
            self.plugins_map()[h] == self.plugins@.last().1,
            forall|h2: int|
                (#[trigger] pre.plugins_map().dom().contains(h2)) ==> self.plugins_map()[h2]
                    == pre.plugins_map()[h2],
    {
        let n = pre.plugins@.len() as int;
        assert forall|p: int, q: int|
            #![trigger self.plugins@[p], self.plugins@[q]]
            0 <= p < q < self.plugins@.len() implies self.plugins@[p].0 != self.plugins@[q].0 by {
            if q < n {
                assert(self.plugins@[p] == pre.plugins@[p]);
                assert(self.plugins@[q] == pre.plugins@[q]);
            } else {
                assert(self.plugins@[p] == pre.plugins@[p]);
                if self.plugins@[p].0 as int == h {
                    assert(seq_has_handle(pre.plugins@, h));
                    assert(false);
                }
            }
        }
        assert forall|i: int| 0 <= i < self.plugins@.len() implies 0 <= (
        #[trigger] self.plugins@[i]).0 < self.next_id && self.plugins@[i].1.wf() by {
            if i < n {
                assert(self.plugins@[i] == pre.plugins@[i]);
            }
        }
        self.lemma_entry_at(n);
        assert forall|h2: int| #[trigger]
            self.plugins_map().dom().contains(h2) && h2 != h implies pre.plugins_map().dom().contains(
            h2,
        ) && self.plugins_map()[h2] == pre.plugins_map()[h2] by {
            let p = self.lemma_handle_entry(h2);
            assert(p < n);
            assert(pre.plugins@[p].0 as int == h2);
            pre.lemma_entry_at(p);
        }
        assert forall|h2: int| #[trigger]
            pre.plugins_map().dom().contains(h2) implies self.plugins_map().dom().contains(h2)
            && self.plugins_map()[h2] == pre.plugins_map()[h2] by {
            let p = pre.lemma_handle_entry(h2);
            assert(self.plugins@[p].0 as int == h2);
            self.lemma_entry_at(p);
            if h2 == h {
                assert(false);
            }
        }
        assert(self.plugins_map().dom() =~= pre.plugins_map().dom().insert(h));
    }

    /// Take the plugin at `h` out of the registry for exclusive use. While
    /// it is out, the handle is absent: a re-entrant call on it is rejected
    /// like any invalid handle.
    fn take_plugin(&mut self, h: i32) -> (r: Option<Plugin>)
        requires
            old(self).wf(),
        ensures
            final(self).wf(),
            final(self).next_handle() == old(self).next_handle(),
            final(self).active() == old(self).active(),
            final(self).error_bytes() == old(self).error_bytes(),
            match r {
                Some(p) => old(self).plugins_map().dom().contains(h as int) && p == old(self).plugins_map()[h as int] && p.wf() && final(self).plugins_map() == old(self).plugins_map().remove(h as int),
                None => !old(self).plugins_map().dom().contains(h as int) && *final(self) == *old(self),
            },
    {
        let n = self.plugins.len();
        let mut i: usize = 0;
        while i < n
            invariant
                *self == *old(self),
                old(self).wf(),
                n == self.plugins@.len(),
                i <= n,
                forall|k: int| 0 <= k < i ==> (#[trigger] self.plugins@[k]).0 != h,
            decreases n - i,
        {
            if self.plugins[i].0 == h {
                proof {
                    old(self).lemma_entry_at(i as int);
                }
                let (_, p) = self.plugins.swap_remove(i);
                proof {
                    self.lemma_after_take(*old(self), i as int);
                }
                return Some(p);
            }
            i += 1;
        }
        proof {
            if old(self).plugins_map().dom().contains(h as int) {
                let j = old(self).lemma_handle_entry(h as int);
            }
        }
        None
    }

    proof fn lemma_after_take(self, pre: Self, i: int)
        requires
            pre.wf(),
            0 <= i < pre.plugins@.len(),
            self.plugins@ == pre.plugins@.update(i, pre.plugins@.last()).drop_last(),
            self.next_id == pre.next_id,
        ensures
            self.wf(),
            self.plugins_map() == pre.plugins_map().remove(pre.plugins@[i].0 as int),
    {
        let n = pre.plugins@.len() as int;
        let h0 = pre.plugins@[i].0 as int;
        assert forall|p: int, q: int|
            #![trigger self.plugins@[p], self.plugins@[q]]
            0 <= p < q < self.plugins@.len() implies self.plugins@[p].0 != self.plugins@[q].0 by {
            let p2: int = if p == i {
                n - 1
            } else {
                p
            };
            let q2: int = if q == i {
                n - 1
            } else {
                q
            };
            assert(self.plugins@[p] == pre.plugins@[p2]);
            assert(self.plugins@[q] == pre.plugins@[q2]);
            if pre.plugins@[p2].0 == pre.plugins@[q2].0 {
                pre.lemma_handle_unique(p2, q2);
                assert(false);
            }
        }
        assert forall|k: int| 0 <= k < self.plugins@.len() implies 0 <= (
        #[trigger] self.plugins@[k]).0 < self.next_id && self.plugins@[k].1.wf() by {
            let k2: int = if k == i {
                n - 1
            } else {
                k
            };
            assert(self.plugins@[k] == pre.plugins@[k2]);
        }
        let m1 = self.plugins_map();
        let m2 = pre.plugins_map().remove(h0);
        assert forall|h: int| #[trigger] m1.dom().contains(h) implies m2.dom().contains(h) && m1[h]
            == m2[h] by {
            let p = self.lemma_handle_entry(h);
            let p2: int = if p == i {
                n - 1
            } else {
                p
            };
            assert(self.plugins@[p] == pre.plugins@[p2]);
            pre.lemma_entry_at(p2);
            if h == h0 {
                pre.lemma_handle_unique(p2, i);
                assert(false);
            }
        }
        assert forall|h: int| #[trigger] m2.dom().contains(h) implies m1.dom().contains(h) by {
            let q = pre.lemma_handle_entry(h);
            if q == i {
                assert(false);
            }
            if q == n - 1 {
                if i < n - 1 {
                    assert(self.plugins@[i] == pre.plugins@[n - 1]);
                    self.lemma_entry_at(i);
                } else {
                    assert(false);
                }
            } else {
                assert(self.plugins@[q] == pre.plugins@[q]);
                self.lemma_entry_at(q);
            }
        }
        assert(m1 =~= m2);
    }

    /// Put a plugin back under the handle it was taken from.
    fn put_plugin(&mut self, h: i32, p: Plugin)
        requires
            old(self).wf(),
            p.wf(),
            !old(self).plugins_map().dom().contains(h as int),
            0 <= h < old(self).next_handle(),
        ensures
            final(self).wf(),
            final(self).next_handle() == old(self).next_handle(),
            final(self).active() == old(self).active(),
            final(self).error_bytes() == old(self).error_bytes(),
            final(self).plugins_map() == old(self).plugins_map().insert(h as int, p),
    {
        proof {
            if old(self).contains_handle(h as int) {
                let j = old(self).lemma_handle_entry(h as int);
            }
        }
        self.plugins.push((h, p));
        proof {
            self.lemma_after_put(*old(self), h as int);
            assert(self.plugins_map() =~= old(self).plugins_map().insert(h as int, p));
        }
    }

    proof fn lemma_after_put(self, pre: Self, h: int)
        requires
            pre.wf(),
            !pre.contains_handle(h),
            self.plugins@.len() == pre.plugins@.len() + 1,
            self.plugins@ == pre.plugins@.push(self.plugins@.last()),
            self.plugins@.last().0 as int == h,
            self.plugins@.last().1.wf(),
            self.next_id == pre.next_id,
            0 <= h < self.next_id as int,
        ensures
            self.wf(),
            self.plugins_map().dom() == pre.plugins_map().dom().insert(h),
            self.plugins_map()[h] == self.plugins@.last().1,
            forall|h2: int|
                (#[trigger] pre.plugins_map().dom().contains(h2)) ==> self.plugins_map()[h2]
                    == pre.plugins_map()[h2],
    {
        let n = pre.plugins@.len() as int;
        assert forall|p: int, q: int|
            #![trigger self.plugins@[p], self.plugins@[q]]
            0 <= p < q < self.plugins@.len() implies self.plugins@[p].0 != self.plugins@[q].0 by {
            if q < n {
                assert(self.plugins@[p] == pre.plugins@[p]);
                assert(self.plugins@[q] == pre.plugins@[q]);
            } else {
                assert(self.plugins@[p] == pre.plugins@[p]);
                if self.plugins@[p].0 as int == h {
                    assert(seq_has_handle(pre.plugins@, h));
                    assert(false);
                }
            }
        }
        assert forall|i: int| 0 <= i < self.plugins@.len() implies 0 <= (
        #[trigger] self.plugins@[i]).0 < self.next_id && self.plugins@[i].1.wf() by {
            if i < n {
                assert(self.plugins@[i] == pre.plugins@[i]);
            }
        }
        self.lemma_entry_at(n);
        assert forall|h2: int| #[trigger]
            self.plugins_map().dom().contains(h2) && h2 != h implies pre.plugins_map().dom().contains(
            h2,
        ) && self.plugins_map()[h2] == pre.plugins_map()[h2] by {
            let p = self.lemma_handle_entry(h2);
            assert(p < n);
            assert(pre.plugins@[p].0 as int == h2);
            pre.lemma_entry_at(p);
        }
        assert forall|h2: int| #[trigger]
            pre.plugins_map().dom().contains(h2) implies self.plugins_map().dom().contains(h2)
            && self.plugins_map()[h2] == pre.plugins_map()[h2] by {
            let p = pre.lemma_handle_entry(h2);
            assert(self.plugins@[p].0 as int == h2);
            self.lemma_entry_at(p);
            if h2 == h {
                assert(false);
            }
        }
        assert(self.plugins_map().dom() =~= pre.plugins_map().dom().insert(h));
    }

    /// Replace the plugin at `h` with a fresh one, keeping the handle. The
    /// old plugin's state is dropped; the new plugin takes over the timer
    /// identity. Fails, recording the error, when `h` names no plugin.
    pub fn replace_plugin(&mut self, h: i32, p: Plugin) -> (r: bool)
        requires
            old(self).wf(),
            p.wf(),
        ensures
            final(self).wf(),
            final(self).next_handle() == old(self).next_handle(),
            final(self).active() == old(self).active(),
            r <==> old(self).plugins_map().dom().contains(h as int),
            r ==> {
                &&& final(self).plugins_map().dom() == old(self).plugins_map().dom()
                &&& forall|h2: int|
                    (#[trigger] old(self).plugins_map().dom().contains(h2)) && h2 != h as int
                        ==> final(self).plugins_map()[h2] == old(self).plugins_map()[h2]
                &&& final(self).plugins_map()[h as int].mem() == p.mem()
                &&& final(self).plugins_map()[h as int].vars() == p.vars()
                &&& final(self).plugins_map()[h as int].config() == p.config()
                &&& final(self).plugins_map()[h as int].has_wasi() == p.has_wasi()
                &&& final(self).plugins_map()[h as int].timer_id() == h as u64
                &&& final(self).error_bytes() == old(self).error_bytes()
            },
            !r ==> final(self).plugins_map() == old(self).plugins_map()
                && final(self).error_bytes() == Some(error_text(RuntimeError::InvalidHandle)),
    {
        let q = match self.take_plugin(h) {
            Some(_old_plugin) => {
                let mut q = p;
                q.set_timer_id(h as u64);
                q
            },
            None => {
                self.error = Some(error_message(RuntimeError::InvalidHandle));
                return false;
            },
        };
        proof {
            old(self).lemma_handle_in_range(h as int);
        }
        self.put_plugin(h, q);
        proof {
            assert(self.plugins_map() =~= old(self).plugins_map().insert(
                h as int,
                self.plugins_map()[h as int],
            ));
            assert(self.plugins_map().dom() =~= old(self).plugins_map().dom());
        }
        true
    }

    /// Whether `h` names a live plugin.
    pub fn plugin_exists(&self, h: i32) -> (r: bool)
        requires
            self.wf(),
        ensures
            r <==> self.plugins_map().dom().contains(h as int),
    {
        let n = self.plugins.len();
        let mut i: usize = 0;
        while i < n
            invariant
                self.wf(),
                n == self.plugins@.len(),
                i <= n,
                forall|k: int| 0 <= k < i ==> (#[trigger] self.plugins@[k]).0 != h,
            decreases n - i,
        {
            if self.plugins[i].0 == h {
                proof {
                    self.lemma_entry_at(i as int);
                }
                return true;
            }
            i += 1;
        }
        proof {
            if self.plugins_map().dom().contains(h as int) {
                let j = self.lemma_handle_entry(h as int);
            }
        }
        false
    }

    /// Acquire exclusive access to the plugin at `h` for one call, marking
    /// it active. An absent handle is the distinct "invalid handle" error,
    /// recorded on the context, and touches no other entry.
    pub fn begin_call(&mut self, h: i32) -> (r: Option<Plugin>)
        requires
            old(self).wf(),
        ensures
            final(self).wf(),
            final(self).next_handle() == old(self).next_handle(),
            match r {
                Some(p) => {
                    &&& old(self).plugins_map().dom().contains(h as int)
                    &&& p == old(self).plugins_map()[h as int]
                    &&& p.wf()
                    &&& 0 <= h < old(self).next_handle()
                    &&& final(self).plugins_map() == old(self).plugins_map().remove(h as int)
                    &&& final(self).active() == Some(h)
                    &&& final(self).error_bytes() == old(self).error_bytes()
                },
                None => {
                    &&& !old(self).plugins_map().dom().contains(h as int)
                    &&& final(self).plugins_map() == old(self).plugins_map()
                    &&& final(self).active() == old(self).active()
                    &&& final(self).error_bytes() == Some(error_text(RuntimeError::InvalidHandle))
                },
            },
    {
        match self.take_plugin(h) {
            Some(p) => {
                proof {
                    old(self).lemma_handle_in_range(h as int);
                }
                self.active_plugin = Some(h);
                Some(p)
            },
            None => {
                self.error = Some(error_message(RuntimeError::InvalidHandle));
                None
            },
        }
    }

    /// Return a plugin to the registry after its call.
    pub fn end_call(&mut self, h: i32, p: Plugin)
        requires
            old(self).wf(),
            p.wf(),
            !old(self).plugins_map().dom().contains(h as int),
            0 <= h < old(self).next_handle(),
        ensures
            final(self).wf(),
            final(self).next_handle() == old(self).next_handle(),
            final(self).active() == old(self).active(),
            final(self).error_bytes() == old(self).error_bytes(),
            final(self).plugins_map() == old(self).plugins_map().insert(h as int, p),
    {
        self.put_plugin(h, p);
    }

    /// Remove the plugin at `h` and clear the active marker. Every other
    /// entry is untouched; an absent handle changes nothing else.
    pub fn remove_plugin(&mut self, h: i32)
        requires
            old(self).wf(),
        ensures
            final(self).wf(),
            final(self).next_handle() == old(self).next_handle(),
            final(self).active() is None,
            final(self).error_bytes() == old(self).error_bytes(),
            final(self).plugins_map() == old(self).plugins_map().remove(h as int),
    {
        self.active_plugin = None;
        let taken = self.take_plugin(h);
        proof {
            if taken is None {
                assert(self.plugins_map() =~= old(self).plugins_map().remove(h as int));
            }
        }
    }

    /// Drop every plugin and clear the active marker.
    pub fn reset(&mut self)
        requires
            old(self).wf(),
        ensures
            final(self).wf(),
            final(self).plugins_map() == Map::<int, Plugin>::empty(),
            final(self).active() is None,
            final(self).next_handle() == old(self).next_handle(),
            final(self).error_bytes() == old(self).error_bytes(),
    {
        self.active_plugin = None;
        self.plugins.clear();
        proof {
            assert(self.plugins_map() =~= Map::<int, Plugin>::empty());
        }
    }

    /// The last error for the plugin at `h`, or the context's own error
    /// when `h` names no plugin.
    pub fn last_error_of(&self, h: i32) -> (r: Option<Vec<u8>>)
        requires
            self.wf(),
        ensures
            self.plugins_map().dom().contains(h as int) ==> match r {
                Some(v) => self.plugins_map()[h as int].error_bytes() == Some(v@),
                None => self.plugins_map()[h as int].error_bytes() is None,
            },
            !self.plugins_map().dom().contains(h as int) ==> match r {
                Some(v) => self.error_bytes() == Some(v@),
                None => self.error_bytes() is None,
            },
    {
        let n = self.plugins.len();
        let mut i: usize = 0;
        while i < n
            invariant
                self.wf(),
                n == self.plugins@.len(),
                i <= n,
                forall|k: int| 0 <= k < i ==> (#[trigger] self.plugins@[k]).0 != h,
            decreases n - i,
        {
            if self.plugins[i].0 == h {
                proof {
                    self.lemma_entry_at(i as int);
                }
                return self.plugins[i].1.get_error();
            }
            i += 1;
        }
        proof {
            if self.plugins_map().dom().contains(h as int) {
                let j = self.lemma_handle_entry(h as int);
            }
        }
        match &self.error {
            Some(v) => Some(vstd::slice::slice_to_vec(v.as_slice())),
            None => None,
        }
    }

    /// A copy of the context's own error text.
    pub fn context_error(&self) -> (r: Option<Vec<u8>>)
        ensures
            match r {
                Some(v) => self.error_bytes() == Some(v@),
                None => self.error_bytes() is None,
            },
    {
        match &self.error {
            Some(v) => Some(vstd::slice::slice_to_vec(v.as_slice())),
            None => None,
        }
    }

    /// Record an error against the context itself.
    pub fn set_error_text(&mut self, msg: Vec<u8>)
        requires
            old(self).wf(),
        ensures
            final(self).wf(),
            final(self).error_bytes() == Some(msg@),
            final(self).plugins_map() == old(self).plugins_map(),
            final(self).next_handle() == old(self).next_handle(),
            final(self).active() == old(self).active(),
    {
        self.error = Some(msg);
        proof {
            assert(self.plugins_map() =~= old(self).plugins_map());
        }
    }

    /// The advisory active-plugin marker: the handle of the most recently
    /// invoked plugin, if any.
    pub fn active_handle(&self) -> (r: Option<i32>)
        ensures
            r == self.active(),
    {
        self.active_plugin
    }

    /// The live length of a block of the active plugin, or 0 when there is
    /// no active plugin, its handle is stale, or the offset names no block.
    pub fn active_plugin_length(&self, offset: i64) -> (r: u64)
        requires
            self.wf(),
        ensures
            match self.active() {
                Some(h) => {
                    &&& (self.plugins_map().dom().contains(h as int)
                        && self.plugins_map()[h as int].valid_block(offset as int) ==> r as int
                        == self.plugins_map()[h as int].mem().live_map()[offset as int])
                    &&& (!(self.plugins_map().dom().contains(h as int)
                        && self.plugins_map()[h as int].valid_block(offset as int)) ==> r == 0)
                },
                None => r == 0,
            },
    {
        let h = match self.active_plugin {
            Some(h) => h,
            None => {
                return 0;
            },
        };
        let n = self.plugins.len();
        let mut i: usize = 0;
        while i < n
            invariant
                self.wf(),
                self.active() == Some(h),
                n == self.plugins@.len(),
                i <= n,
                forall|k: int| 0 <= k < i ==> (#[trigger] self.plugins@[k]).0 != h,
            decreases n - i,
        {
            if self.plugins[i].0 == h {
                proof {
                    self.lemma_entry_at(i as int);
                    assert(self.plugins_map()[h as int] == self.plugins@[i as int].1);
                }
                let res = self.plugins[i].1.length(offset);
                match res {
                    Ok(l) => {
                        proof {
                            assert(self.plugins@[i as int].1.valid_block(offset as int));
                        }
                        return l as u64;
                    },
                    Err(_) => {
                        proof {
                            assert(!self.plugins@[i as int].1.valid_block(offset as int));
                        }
                        return 0;
                    },
                }
            }
            i += 1;
        }
        proof {
            if self.plugins_map().dom().contains(h as int) {
                let j = self.lemma_handle_entry(h as int);
            }
        }
        0
    }

    /// Reserve a block in the active plugin's memory, reporting its offset,
    /// or 0 when there is no active plugin, its handle is stale, or the
    /// allocation fails — in which case the failure is recorded on the
    /// plugin's error slot.
    pub fn active_plugin_alloc(&mut self, size: i64) -> (r: u64)
        requires
            old(self).wf(),
        ensures
            final(self).wf(),
            final(self).next_handle() == old(self).next_handle(),
            final(self).active() == old(self).active(),
            final(self).error_bytes() == old(self).error_bytes(),
            final(self).plugins_map().dom() == old(self).plugins_map().dom(),
            match old(self).active() {
                Some(h) => {
                    &&& (forall|h2: int|
                        (#[trigger] old(self).plugins_map().dom().contains(h2)) && h2 != h as int
                            ==> final(self).plugins_map()[h2] == old(self).plugins_map()[h2])
                    &&& (!old(self).plugins_map().dom().contains(h as int) ==> r == 0 && *final(self) == *old(self))
                    &&& (old(self).plugins_map().dom().contains(h as int) ==> (r != 0 <==> 0
                        <= size <= crate::memory::MEMORY_LIMIT as i64 && old(self).plugins_map()[
                        h as int
                    ].mem().can_alloc(size as int)))
                    &&& (old(self).plugins_map().dom().contains(h as int) && r != 0 ==> final(self).plugins_map()[h as int].mem().live_map() == old(self).plugins_map()[h as int].mem().live_map().insert(r as int, size as int)
                        && final(self).plugins_map()[h as int].error_bytes()
                        == old(self).plugins_map()[h as int].error_bytes())
                    &&& (old(self).plugins_map().dom().contains(h as int) && r == 0 ==> final(self).plugins_map()[h as int].mem() == old(self).plugins_map()[h as int].mem()
                        && final(self).plugins_map()[h as int].error_bytes() == Some(
                        error_text(RuntimeError::AllocationFailed),
                    ))
                },
                None => r == 0 && *final(self) == *old(self),
            },
    {
        let h = match self.active_plugin {
            Some(h) => h,
            None => {
                return 0;
            },
        };
        let mut p = match self.take_plugin(h) {
            Some(p) => p,
            None => {
                return 0;
            },
        };
        proof {
            old(self).lemma_handle_in_range(h as int);
        }
        let r: u64 = match p.allocate(size) {
            Ok(o) => o as u64,
            Err(e) => {
                p.record_failure(e);
                0
            },
        };
        self.put_plugin(h, p);
        proof {
            assert(self.plugins_map() =~= old(self).plugins_map().insert(
                h as int,
                self.plugins_map()[h as int],
            ));
            assert(self.plugins_map().dom() =~= old(self).plugins_map().dom());
        }
        r
    }

    /// Release a block of the active plugin's memory. A stale marker, the
    /// sentinel offset, and an unknown offset are all no-ops.
    pub fn active_plugin_free(&mut self, offset: i64)
        requires
            old(self).wf(),
        ensures
            final(self).wf(),
            final(self).next_handle() == old(self).next_handle(),
            final(self).active() == old(self).active(),
            final(self).error_bytes() == old(self).error_bytes(),
            final(self).plugins_map().dom() == old(self).plugins_map().dom(),
            match old(self).active() {
                Some(h) => {
                    &&& (forall|h2: int|
                        (#[trigger] old(self).plugins_map().dom().contains(h2)) && h2 != h as int
                            ==> final(self).plugins_map()[h2] == old(self).plugins_map()[h2])
                    &&& (!old(self).plugins_map().dom().contains(h as int) ==> *final(self) == *old(self))
                    &&& (old(self).plugins_map().dom().contains(h as int) && 0 <= offset
                        <= crate::memory::MEMORY_LIMIT as i64 ==> final(self).plugins_map()[h as int].mem().live_map() == old(self).plugins_map()[h as int].mem().live_map().remove(offset as int))
                },
                None => *final(self) == *old(self),
            },
    {
        let h = match self.active_plugin {
            Some(h) => h,
            None => {
                return ;
            },
        };
        let mut p = match self.take_plugin(h) {
            Some(p) => p,
            None => {
                return ;
            },
        };
        proof {
            old(self).lemma_handle_in_range(h as int);
        }
        p.free(offset);
        self.put_plugin(h, p);
        proof {
            assert(self.plugins_map() =~= old(self).plugins_map().insert(
                h as int,
                self.plugins_map()[h as int],
            ));
            assert(self.plugins_map().dom() =~= old(self).plugins_map().dom());
        }
    }
}

} // verus!
