//! The watch set: the ordered collection of descriptors handed to the
//! blocking wait primitive, each with its interest mask and the events last
//! observed on it.

use vstd::prelude::*;

verus! {

/// Interest mask of a watched descriptor. The design watches exactly one
/// readiness condition: data available to read.
#[derive(Clone, Copy, PartialEq, Eq, Structural, Debug)]
pub enum Interest {
    ReadReady,
}

/// Events last observed on a descriptor by the wait primitive.
#[derive(Clone, Copy, PartialEq, Eq, Structural, Debug)]
pub struct EventFlags {
    pub read_ready: bool,
}

/// One record of the watch set.
#[derive(Clone, Copy, PartialEq, Eq, Structural, Debug)]
pub struct WatchEntry {
    pub fd: i32,
    pub interest: Interest,
    pub observed: EventFlags,
}

/// The descriptors of `s` whose observed events show read-readiness, in the
/// order of `s`.
pub open spec fn ready_seq(s: Seq<WatchEntry>) -> Seq<i32>
    decreases s.len(),
{
    if s.len() == 0 {
        Seq::empty()
    } else {
        let rest = ready_seq(s.drop_last());
        if s.last().observed.read_ready {
            rest.push(s.last().fd)
        } else {
            rest
        }
    }
}

/// Every descriptor that `ready_seq` reports belongs to some entry of `s`
/// whose observed events show read-readiness.
pub proof fn lemma_ready_seq_sub(s: Seq<WatchEntry>, fd: i32)
    requires
        ready_seq(s).contains(fd),
    ensures
        exists|i: int|
            0 <= i < s.len() && s[i].fd == fd && s[i].observed.read_ready,
    decreases s.len(),
{
    if s.len() > 0 {
        let rest = ready_seq(s.drop_last());
        if s.last().observed.read_ready && s.last().fd == fd {
            assert(s[s.len() - 1].fd == fd && s[s.len() - 1].observed.read_ready);
        } else {
            assert(rest.contains(fd));
            lemma_ready_seq_sub(s.drop_last(), fd);
            let i = choose|i: int|
                0 <= i < s.drop_last().len() && s.drop_last()[i].fd == fd
                    && s.drop_last()[i].observed.read_ready;
            assert(s[i].fd == fd && s[i].observed.read_ready);
        }
    }
}

/// The ordered set of watched descriptors. Invariant: at most one entry per
/// descriptor; order is insertion order.
pub struct WatchSet {
    entries: Vec<WatchEntry>,
}

impl View for WatchSet {
    type V = Seq<WatchEntry>;

    closed spec fn view(&self) -> Seq<WatchEntry> {
        self.entries@
    }
}

impl WatchSet {
    /// At most one entry exists per descriptor.
    pub open spec fn wf(self) -> bool {
        forall|i: int, j: int|
            0 <= i < j < self@.len() ==> (#[trigger] self@[i]).fd != (#[trigger] self@[j]).fd
    }

    /// Some entry watches `fd`.
    pub open spec fn contains_fd(self, fd: i32) -> bool {
        exists|i: int| 0 <= i < self@.len() && (#[trigger] self@[i]).fd == fd
    }

    pub fn new() -> (s: WatchSet)
        ensures
            s@ == Seq::<WatchEntry>::empty(),
            s.wf(),
    {
        WatchSet { entries: Vec::new() }
    }

    pub fn len(&self) -> (n: usize)
        ensures
            n == self@.len(),
    {
        self.entries.len()
    }

    pub fn entry_at(&self, i: usize) -> (e: WatchEntry)
        requires
            i < self@.len(),
        ensures
            e == self@[i as int],
    {
        self.entries[i]
    }

    pub fn contains(&self, fd: i32) -> (b: bool)
        ensures
            b == self.contains_fd(fd),
    {
        let mut i: usize = 0;
        while i < self.entries.len()
            invariant
                i <= self@.len(),
                forall|k: int| 0 <= k < i ==> (#[trigger] self@[k]).fd != fd,
            decreases self@.len() - i,
        {
            if self.entries[i].fd == fd {
                return true;
            }
            i += 1;
        }
        false
    }

    /// Appends a fresh entry for `fd` with the given interest and no observed
    /// events.
    pub fn add(&mut self, fd: i32, interest: Interest)
        requires
            old(self).wf(),
            !old(self).contains_fd(fd),
        ensures
            final(self)@ == old(self)@.push(
                WatchEntry { fd, interest, observed: EventFlags { read_ready: false } },
            ),
            final(self).wf(),
            forall|g: i32|
                #[trigger] final(self).contains_fd(g) == (old(self).contains_fd(g) || g == fd),
    {
        let ghost orig = self.entries@;
        self.entries.push(WatchEntry { fd, interest, observed: EventFlags { read_ready: false } });
        proof {
            let n = orig.len() as int;
            assert forall|g: i32| #[trigger] self.contains_fd(g) == ((
            exists|k: int| 0 <= k < orig.len() && (#[trigger] orig[k]).fd == g) || g == fd) by {
                if self.contains_fd(g) {
                    let k = choose|k: int|
                        0 <= k < self@.len() && (#[trigger] self@[k]).fd == g;
                    if k < n {
                        assert(orig[k].fd == g);
                    }
                }
                if exists|k: int| 0 <= k < orig.len() && (#[trigger] orig[k]).fd == g {
                    let k = choose|k: int| 0 <= k < orig.len() && (#[trigger] orig[k]).fd == g;
                    assert(self@[k].fd == g);
                }
                if g == fd {
                    assert(self@[n].fd == g);
                }
            }
        }
    }

    /// Deletes the entry watching `fd`; the remaining entries keep their
    /// relative order.
    pub fn remove(&mut self, fd: i32)
        requires
            old(self).wf(),
            old(self).contains_fd(fd),
        ensures
            final(self).wf(),
            !final(self).contains_fd(fd),
            exists|i: int|
                0 <= i < old(self)@.len() && old(self)@[i].fd == fd && final(self)@ == old(
                    self,
                )@.remove(i),
            forall|g: i32|
                g != fd ==> #[trigger] final(self).contains_fd(g) == old(self).contains_fd(g),
            final(self)@.len() == old(self)@.len() - 1,
    {
        let ghost orig = self.entries@;
        let mut i: usize = 0;
        while i < self.entries.len()
            invariant
                self.entries@ == orig,
                orig == old(self)@,
                i <= orig.len(),
                forall|p: int, q: int|
                    0 <= p < q < orig.len() ==> (#[trigger] orig[p]).fd != (#[trigger] orig[q]).fd,
                forall|k: int| 0 <= k < i ==> (#[trigger] orig[k]).fd != fd,
                exists|k: int| 0 <= k < orig.len() && (#[trigger] orig[k]).fd == fd,
            decreases orig.len() - i,
        {
            if self.entries[i].fd == fd {
                proof {
                    assert(orig[i as int].fd == fd);
                }
                self.entries.remove(i);
                proof {
                    assert(self@ == orig.remove(i as int));
                    orig.remove_ensures(i as int);
                    assert forall|p: int, q: int| 0 <= p < q < self@.len() implies (
                    #[trigger] self@[p]).fd != (#[trigger] self@[q]).fd by {
                        let p0: int = if p < i { p } else { p + 1 };
                        let q0: int = if q < i { q } else { q + 1 };
                        assert(self@[p] == orig[p0]);
                        assert(self@[q] == orig[q0]);
                        assert(orig[p0].fd != orig[q0].fd);
                    }
                    assert forall|k: int| 0 <= k < self@.len() implies (#[trigger] self@[k]).fd
                        != fd by {
                        let k0: int = if k < i { k } else { k + 1 };
                        assert(self@[k] == orig[k0]);
                        if k0 != i {
                            assert(orig[k0].fd != orig[i as int].fd);
                        }
                    }
                    assert forall|g: i32| g != fd implies #[trigger] self.contains_fd(g) == (
                    exists|k: int| 0 <= k < orig.len() && (#[trigger] orig[k]).fd == g) by {
                        if self.contains_fd(g) {
                            let k = choose|k: int|
                                0 <= k < self@.len() && (#[trigger] self@[k]).fd == g;
                            if k < i {
                                assert(orig[k].fd == g);
                            } else {
                                assert(orig[k + 1].fd == g);
                            }
                        }
                        if exists|k: int| 0 <= k < orig.len() && (#[trigger] orig[k]).fd == g {
                            let k = choose|k: int|
                                0 <= k < orig.len() && (#[trigger] orig[k]).fd == g;
                            if k < i {
                                assert(self@[k].fd == g);
                            } else {
                                assert(k != i);
                                assert(self@[k - 1].fd == g);
                            }
                        }
                    }
                    assert(0 <= i < orig.len() && orig[i as int].fd == fd && self@ == orig.remove(
                        i as int,
                    ));
                }
                return ;
            }
            i += 1;
        }
        proof {
            assert(false);
        }
    }

    /// Records the events the wait primitive reported for the entry at `i`.
    pub fn set_observed(&mut self, i: usize, read_ready: bool)
        requires
            i < old(self)@.len(),
        ensures
            final(self)@ == old(self)@.update(
                i as int,
                WatchEntry {
                    fd: old(self)@[i as int].fd,
                    interest: old(self)@[i as int].interest,
                    observed: EventFlags { read_ready },
                },
            ),
    {
        let e = self.entries[i];
        let entry = WatchEntry { fd: e.fd, interest: e.interest, observed: EventFlags { read_ready } };
        self.entries[i] = entry;
    }

    /// The descriptors whose last observed events show read-readiness, in
    /// watch order.
    pub fn ready_fds(&self) -> (r: Vec<i32>)
        ensures
            r@ == ready_seq(self@),
    {
        let mut r: Vec<i32> = Vec::new();
        let mut i: usize = 0;
        while i < self.entries.len()
            invariant
                i <= self@.len(),
                r@ == ready_seq(self@.take(i as int)),
            decreases self@.len() - i,
        {
            let e = self.entries[i];
            proof {
                assert(self@.take(i + 1).drop_last() == self@.take(i as int));
                assert(self@.take(i + 1).last() == self@[i as int]);
            }
            if e.observed.read_ready {
                r.push(e.fd);
            }
            i += 1;
        }
        proof {
            assert(self@.take(self@.len() as int) == self@);
        }
        r
    }
}

} // verus!
