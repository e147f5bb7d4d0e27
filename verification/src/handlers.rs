//! The handler dispatch table: a mapping from descriptor to the action bound
//! to it. Handlers carry no code of their own here; each one names the role
//! the driver plays when the descriptor becomes ready.

use vstd::prelude::*;

verus! {

/// The action bound to a watched descriptor.
///
/// `Acceptor` is bound once, to the listening descriptor: on readiness one
/// pending connection is accepted and queued for registration. `Client` is
/// bound to each accepted connection: on readiness one newline-terminated
/// record is read from it.
#[derive(Clone, Copy, PartialEq, Eq, Structural, Debug)]
pub enum Handler {
    Acceptor,
    Client,
}

struct HandlerEntry {
    fd: i32,
    handler: Handler,
}

/// The table of registered handlers. Invariant: at most one entry per
/// descriptor.
pub struct HandlerTable {
    entries: Vec<HandlerEntry>,
}

impl HandlerTable {
    spec fn entries_seq(self) -> Seq<HandlerEntry> {
        self.entries@
    }

    /// At most one entry exists per descriptor.
    pub closed spec fn wf(self) -> bool {
        forall|i: int, j: int|
            0 <= i < j < self.entries@.len() ==> (#[trigger] self.entries@[i]).fd != (
            #[trigger] self.entries@[j]).fd
    }

    /// A handler is registered for `fd`.
    pub closed spec fn contains_fd(self, fd: i32) -> bool {
        exists|i: int| 0 <= i < self.entries@.len() && (#[trigger] self.entries@[i]).fd == fd
    }

    /// The handler registered for `fd` (meaningful only when one is).
    pub closed spec fn handler_of(self, fd: i32) -> Handler {
        let i = choose|i: int|
            0 <= i < self.entries@.len() && (#[trigger] self.entries@[i]).fd == fd;
        self.entries@[i].handler
    }

    /// The number of registered handlers.
    pub closed spec fn spec_len(self) -> nat {
        self.entries@.len()
    }

    pub fn new() -> (t: HandlerTable)
        ensures
            t.wf(),
            forall|fd: i32| !(#[trigger] t.contains_fd(fd)),
            t.spec_len() == 0,
    {
        HandlerTable { entries: Vec::new() }
    }

    fn index_of(&self, fd: i32) -> (r: Option<usize>)
        ensures
            match r {
                Some(i) => i < self.entries@.len() && self.entries@[i as int].fd == fd
                    && self.contains_fd(fd),
                None => !self.contains_fd(fd),
            },
    {
        let mut i: usize = 0;
        while i < self.entries.len()
            invariant
                i <= self.entries@.len(),
                forall|k: int| 0 <= k < i ==> (#[trigger] self.entries@[k]).fd != fd,
            decreases self.entries@.len() - i,
        {
            if self.entries[i].fd == fd {
                return Some(i);
            }
            i += 1;
        }
        None
    }

    /// Looks the handler for `fd` up; `None` when none is registered.
    pub fn lookup(&self, fd: i32) -> (r: Option<Handler>)
        requires
            self.wf(),
        ensures
            r == if self.contains_fd(fd) {
                Some(self.handler_of(fd))
            } else {
                Option::<Handler>::None
            },
    {
        match self.index_of(fd) {
            Some(i) => {
                let h = self.entries[i].handler;
                proof {
                    let j = choose|j: int|
                        0 <= j < self.entries@.len() && (#[trigger] self.entries@[j]).fd == fd;
                    if j != i {
                        assert(self.entries@[j].fd != self.entries@[i as int].fd);
                    }
                }
                Some(h)
            },
            None => None,
        }
    }

    /// Inserts the handler for `fd`, or overwrites the one registered.
    pub fn register(&mut self, fd: i32, handler: Handler)
        requires
            old(self).wf(),
        ensures
            final(self).wf(),
            final(self).contains_fd(fd),
            final(self).handler_of(fd) == handler,
            forall|g: i32|
                g != fd ==> #[trigger] final(self).contains_fd(g) == old(self).contains_fd(g),
            forall|g: i32|
                g != fd && old(self).contains_fd(g) ==> #[trigger] final(self).handler_of(g) == old(
                    self,
                ).handler_of(g),
            final(self).spec_len() == if old(self).contains_fd(fd) {
                old(self).spec_len()
            } else {
                old(self).spec_len() + 1
            },
    {
        let ghost orig = self.entries@;
        match self.index_of(fd) {
            Some(i) => {
                self.entries[i] = HandlerEntry { fd, handler };
                proof {
                    assert(self.entries@ == orig.update(i as int, self.entries@[i as int]));
                    assert(self.entries@[i as int].fd == fd);
                    assert forall|g: i32| g != fd implies #[trigger] self.contains_fd(g) == (
                    exists|k: int| 0 <= k < orig.len() && (#[trigger] orig[k]).fd == g) by {
                        if self.contains_fd(g) {
                            let k = choose|k: int|
                                0 <= k < self.entries@.len() && (#[trigger] self.entries@[k]).fd
                                    == g;
                            assert(orig[k].fd == g);
                        }
                        if exists|k: int| 0 <= k < orig.len() && (#[trigger] orig[k]).fd == g {
                            let k = choose|k: int|
                                0 <= k < orig.len() && (#[trigger] orig[k]).fd == g;
                            assert(self.entries@[k].fd == g);
                        }
                    }
                    assert forall|g: i32|
                        g != fd && (exists|k: int|
                            0 <= k < orig.len() && (#[trigger] orig[k]).fd
                                == g) implies #[trigger] self.handler_of(g) == {
                        let k = choose|k: int| 0 <= k < orig.len() && (#[trigger] orig[k]).fd == g;
                        orig[k].handler
                    } by {
                        let k2 = choose|k: int| 0 <= k < orig.len() && (#[trigger] orig[k]).fd == g;
                        assert(orig[i as int].fd == fd);
                        assert(k2 != i);
                        assert(self.entries@[k2].fd == g);
                        let k1 = choose|k: int|
                            0 <= k < self.entries@.len() && (#[trigger] self.entries@[k]).fd == g;
                        assert(0 <= k1 < self.entries@.len() && self.entries@[k1].fd == g);
                        assert(k1 != i);
                        assert(self.entries@[k1] == orig[k1]);
                        if k1 != k2 {
                            assert(orig[k1].fd != orig[k2].fd);
                        }
                        assert(k1 == k2);
                    }
                    let j = choose|j: int|
                        0 <= j < self.entries@.len() && (#[trigger] self.entries@[j]).fd == fd;
                    if j != i {
                        assert(self.entries@[j].fd != self.entries@[i as int].fd);
                    }
                }
            },
            None => {
                self.entries.push(HandlerEntry { fd, handler });
                proof {
                    assert(self.entries@ == orig.push(self.entries@.last()));
                    let n = orig.len() as int;
                    assert(self.entries@[n].fd == fd);
                    assert forall|g: i32| g != fd implies #[trigger] self.contains_fd(g) == (
                    exists|k: int| 0 <= k < orig.len() && (#[trigger] orig[k]).fd == g) by {
                        if self.contains_fd(g) {
                            let k = choose|k: int|
                                0 <= k < self.entries@.len() && (#[trigger] self.entries@[k]).fd
                                    == g;
                            assert(k < n);
                            assert(orig[k].fd == g);
                        }
                        if exists|k: int| 0 <= k < orig.len() && (#[trigger] orig[k]).fd == g {
                            let k = choose|k: int|
                                0 <= k < orig.len() && (#[trigger] orig[k]).fd == g;
                            assert(self.entries@[k].fd == g);
                        }
                    }
                    assert forall|g: i32|
                        g != fd && (exists|k: int|
                            0 <= k < orig.len() && (#[trigger] orig[k]).fd
                                == g) implies #[trigger] self.handler_of(g) == {
                        let k = choose|k: int| 0 <= k < orig.len() && (#[trigger] orig[k]).fd == g;
                        orig[k].handler
                    } by {
                        let k2 = choose|k: int| 0 <= k < orig.len() && (#[trigger] orig[k]).fd == g;
                        assert(self.entries@[k2].fd == g);
                        let k1 = choose|k: int|
                            0 <= k < self.entries@.len() && (#[trigger] self.entries@[k]).fd == g;
                        assert(0 <= k1 < self.entries@.len() && self.entries@[k1].fd == g);
                        assert(k1 != n);
                        assert(self.entries@[k1] == orig[k1]);
                        if k1 != k2 {
                            assert(orig[k1].fd != orig[k2].fd);
                        }
                        assert(k1 == k2);
                    }
                    let j = choose|j: int|
                        0 <= j < self.entries@.len() && (#[trigger] self.entries@[j]).fd == fd;
                    if j != n {
                        assert(j < n);
                        assert(orig[j].fd == fd);
                    }
                }
            },
        }
    }

    /// Deletes the entry for `fd`; a missing entry is left as a no-op.
    pub fn unregister(&mut self, fd: i32)
        requires
            old(self).wf(),
        ensures
            final(self).wf(),
            !final(self).contains_fd(fd),
            forall|g: i32|
                g != fd ==> #[trigger] final(self).contains_fd(g) == old(self).contains_fd(g),
            forall|g: i32|
                g != fd && old(self).contains_fd(g) ==> #[trigger] final(self).handler_of(g) == old(
                    self,
                ).handler_of(g),
    {
        let ghost orig = self.entries@;
        match self.index_of(fd) {
            Some(i) => {
                proof {
                    assert(orig[i as int].fd == fd);
                }
                self.entries.remove(i);
                proof {
                    assert(self.entries@ == orig.remove(i as int));
                    orig.remove_ensures(i as int);
                    assert forall|p: int, q: int| 0 <= p < q < self.entries@.len() implies (
                    #[trigger] self.entries@[p]).fd != (#[trigger] self.entries@[q]).fd by {
                        let p0: int = if p < i { p } else { p + 1 };
                        let q0: int = if q < i { q } else { q + 1 };
                        assert(self.entries@[p] == orig[p0]);
                        assert(self.entries@[q] == orig[q0]);
                        assert(orig[p0].fd != orig[q0].fd);
                    }
                    assert forall|k: int| 0 <= k < self.entries@.len() implies (
                    #[trigger] self.entries@[k]).fd != fd by {
                        let k0: int = if k < i { k } else { k + 1 };
                        assert(self.entries@[k] == orig[k0]);
                        if k0 != i {
                            assert(orig[k0].fd != orig[i as int].fd);
                        }
                    }
                    assert forall|g: i32| g != fd implies #[trigger] self.contains_fd(g) == (
                    exists|k: int| 0 <= k < orig.len() && (#[trigger] orig[k]).fd == g) by {
                        if self.contains_fd(g) {
                            let k = choose|k: int|
                                0 <= k < self.entries@.len() && (#[trigger] self.entries@[k]).fd
                                    == g;
                            if k < i {
                                assert(orig[k].fd == g);
                            } else {
                                assert(orig[k + 1].fd == g);
                            }
                        }
                        if exists|k: int| 0 <= k < orig.len() && (#[trigger] orig[k]).fd == g {
                            let k = choose|k: int|
                                0 <= k < orig.len() && (#[trigger] orig[k]).fd == g;
                            if k < i {
                                assert(self.entries@[k].fd == g);
                            } else {
                                assert(k != i);
                                assert(self.entries@[k - 1].fd == g);
                            }
                        }
                    }
                    assert forall|g: i32|
                        g != fd && (exists|k: int|
                            0 <= k < orig.len() && (#[trigger] orig[k]).fd
                                == g) implies #[trigger] self.handler_of(g) == {
                        let k = choose|k: int| 0 <= k < orig.len() && (#[trigger] orig[k]).fd == g;
                        orig[k].handler
                    } by {
                        let k2 = choose|k: int| 0 <= k < orig.len() && (#[trigger] orig[k]).fd == g;
                        assert(orig[i as int].fd == fd);
                        assert(k2 != i);
                        if k2 < i {
                            assert(self.entries@[k2].fd == g);
                        } else {
                            assert(self.entries@[k2 - 1].fd == g);
                        }
                        let k1 = choose|k: int|
                            0 <= k < self.entries@.len() && (#[trigger] self.entries@[k]).fd == g;
                        assert(0 <= k1 < self.entries@.len() && self.entries@[k1].fd == g);
                        let k0: int = if k1 < i { k1 } else { k1 + 1 };
                        assert(self.entries@[k1] == orig[k0]);
                        assert(orig[k0].fd == g);
                        assert(k0 != i);
                        if k0 != k2 {
                            assert(orig[k0].fd != orig[k2].fd);
                        }
                        assert(k0 == k2);
                    }
                }
            },
            None => {
                proof {
                    assert(self.entries@ == orig);
                }
            },
        }
    }
}

} // verus!
