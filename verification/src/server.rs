//! The event-loop core: one state machine holding the watch set, the handler
//! table, the connection records and the two pending queues, together with
//! the per-round decisions the driver acts on.
//!
//! The driver (outside this crate) runs the round: it blocks in the wait
//! primitive, feeds the outcome to `wait_step`, records the observed events,
//! dispatches every ready descriptor through `role_of` / `on_accepted` /
//! `on_read`, and finally calls `reconcile`, which registers the newly
//! accepted connections and tears the dead ones down. The watch set and the
//! handler table are mutated only inside `reconcile`, never while a round is
//! being dispatched.

use vstd::prelude::*;

use crate::conn::Connection;
use crate::conn::DispatchOutcome;
use crate::conn::ReadEvent;
use crate::conn::SinkEvent;
use crate::conn::strip_newline;
use crate::conn::strip_newline_spec;
use crate::handlers::Handler;
use crate::handlers::HandlerTable;
use crate::watch::EventFlags;
use crate::watch::Interest;
use crate::watch::WatchEntry;
use crate::watch::WatchSet;
use crate::watch::lemma_ready_seq_sub;
use crate::watch::ready_seq;

verus! {

/// What the blocking wait call came back with.
#[derive(Clone, Copy, PartialEq, Eq, Structural, Debug)]
pub enum WaitOutcome {
    /// At least one watched descriptor is ready; the value is the count the
    /// wait primitive reported.
    Ready(usize),
    /// The call was interrupted by a recoverable signal.
    Interrupted,
    /// The call failed; the value is the OS error code.
    Failed(i32),
}

/// What the driver must do with a wait outcome.
#[derive(Clone, Copy, PartialEq, Eq, Structural, Debug)]
pub enum WaitDecision {
    /// Dispatch the round: this many descriptors are ready.
    Dispatch(usize),
    /// Repeat the wait call; nothing is dispatched and nothing changes.
    Retry,
    /// The error is fatal: leave the loop and surface the code.
    Terminate(i32),
}

/// The watch entry under which a freshly registered connection is monitored.
pub open spec fn entry_for(c: Connection) -> WatchEntry {
    WatchEntry { fd: c.fd, interest: Interest::ReadReady, observed: EventFlags { read_ready: false } }
}

/// The watch entries under which the connections of `s` are registered, in
/// order.
pub open spec fn entries_for(s: Seq<Connection>) -> Seq<WatchEntry> {
    s.map_values(|c: Connection| entry_for(c))
}

/// Some record of `s` carries descriptor `fd`.
pub open spec fn conns_have_fd(s: Seq<Connection>, fd: i32) -> bool {
    exists|i: int| 0 <= i < s.len() && (#[trigger] s[i]).fd == fd
}

/// The record of `s` carrying descriptor `fd` (meaningful only when one
/// does).
pub open spec fn conn_in(s: Seq<Connection>, fd: i32) -> Connection {
    s[choose|i: int| 0 <= i < s.len() && (#[trigger] s[i]).fd == fd]
}

/// How dispatching a close on `fd` takes the core from `pre` to `post`: the
/// connection is only marked dead and queued for removal; the watch set, the
/// handler table and every other connection stay exactly as they were.
pub open spec fn closes_connection(
    pre: EventLoop,
    post: EventLoop,
    fd: i32,
    out: DispatchOutcome,
) -> bool {
    &&& out == DispatchOutcome::Closed
    &&& post.pending_remove_seq() == pre.pending_remove_seq().push(fd)
    &&& forall|g: i32| #[trigger] post.pending_removed(g) == (pre.pending_removed(g) || g == fd)
    &&& post.watch_seq() == pre.watch_seq()
    &&& post.handler_tbl() == pre.handler_tbl()
    &&& post.pending_add_seq() == pre.pending_add_seq()
    &&& post.listener() == pre.listener()
    &&& !post.conn_of(fd).alive
    &&& forall|g: i32| #[trigger] post.conn_contains(g) == pre.conn_contains(g)
    &&& forall|g: i32|
        pre.conn_contains(g) && g != fd ==> #[trigger] post.conn_of(g) == pre.conn_of(g)
}

/// The multiplexing core. One instance owns every registration; the driver
/// holds the sockets themselves and feeds events in as plain values.
pub struct EventLoop {
    listen_fd: i32,
    watch: WatchSet,
    handlers: HandlerTable,
    conns: Vec<Connection>,
    pending_add: Vec<Connection>,
    pending_remove: Vec<i32>,
}

impl EventLoop {
    /// The listening descriptor the core was set up with.
    pub closed spec fn listener(self) -> i32 {
        self.listen_fd
    }

    /// The watch set, in its insertion order.
    pub closed spec fn watch_seq(self) -> Seq<WatchEntry> {
        self.watch@
    }

    /// The handler table.
    pub closed spec fn handler_tbl(self) -> HandlerTable {
        self.handlers
    }

    /// The connection records, in registration order.
    pub closed spec fn conns_seq(self) -> Seq<Connection> {
        self.conns@
    }

    /// The connections accepted this round and awaiting registration.
    pub closed spec fn pending_add_seq(self) -> Seq<Connection> {
        self.pending_add@
    }

    /// The descriptors marked dead this round and awaiting removal.
    pub closed spec fn pending_remove_seq(self) -> Seq<i32> {
        self.pending_remove@
    }

    /// Some watch entry monitors `fd`.
    pub closed spec fn watch_contains(self, fd: i32) -> bool {
        self.watch.contains_fd(fd)
    }

    /// A handler is registered for `fd`.
    pub closed spec fn handler_contains(self, fd: i32) -> bool {
        self.handlers.contains_fd(fd)
    }

    /// The handler registered for `fd`.
    pub closed spec fn handler_of(self, fd: i32) -> Handler {
        self.handlers.handler_of(fd)
    }

    /// A connection record exists for `fd`.
    pub closed spec fn conn_contains(self, fd: i32) -> bool {
        conns_have_fd(self.conns@, fd)
    }

    /// The connection record for `fd` (meaningful only when one exists).
    pub closed spec fn conn_of(self, fd: i32) -> Connection {
        conn_in(self.conns@, fd)
    }

    /// A connection with descriptor `fd` awaits registration.
    pub closed spec fn pending_add_contains(self, fd: i32) -> bool {
        conns_have_fd(self.pending_add@, fd)
    }

    /// `fd` awaits removal at the end of the round.
    pub closed spec fn pending_removed(self, fd: i32) -> bool {
        self.pending_remove@.contains(fd)
    }

    /// Well-formedness: what holds of the core in every reachable state.
    ///
    /// - the watch set and the handler table are keyed uniquely and hold
    ///   exactly the same descriptors;
    /// - the listening descriptor is registered, bound to the acceptor, and
    ///   every other registered descriptor is bound to the client handler and
    ///   owns exactly one connection record;
    /// - a connection is alive exactly as long as its descriptor is not
    ///   queued for removal;
    /// - the registration queue holds unique, still-unwatched descriptors
    ///   whose records are alive.
    pub closed spec fn wf(self) -> bool {
        &&& self.watch.wf()
        &&& self.handlers.wf()
        &&& forall|fd: i32| #[trigger] self.watch.contains_fd(fd) <==> self.handlers.contains_fd(fd)
        &&& self.handlers.contains_fd(self.listen_fd)
        &&& self.handlers.handler_of(self.listen_fd) == Handler::Acceptor
        &&& forall|fd: i32|
            #[trigger] conns_have_fd(self.conns@, fd) <==> (self.handlers.contains_fd(fd) && fd
                != self.listen_fd)
        &&& forall|fd: i32|
            self.handlers.contains_fd(fd) && fd != self.listen_fd
                ==> #[trigger] self.handlers.handler_of(fd) == Handler::Client
        &&& forall|i: int, j: int|
            0 <= i < j < self.conns@.len() ==> (#[trigger] self.conns@[i]).fd != (
            #[trigger] self.conns@[j]).fd
        &&& forall|i: int, j: int|
            0 <= i < j < self.pending_remove@.len() ==> self.pending_remove@[i]
                != self.pending_remove@[j]
        &&& forall|fd: i32|
            #[trigger] self.pending_remove@.contains(fd) ==> conns_have_fd(self.conns@, fd)
        &&& forall|fd: i32|
            conns_have_fd(self.conns@, fd) ==> ((#[trigger] conn_in(self.conns@, fd)).alive
                <==> !self.pending_remove@.contains(fd))
        &&& forall|i: int, j: int|
            0 <= i < j < self.pending_add@.len() ==> (#[trigger] self.pending_add@[i]).fd != (
            #[trigger] self.pending_add@[j]).fd
        &&& forall|i: int|
            0 <= i < self.pending_add@.len() ==> !self.watch.contains_fd(
                (#[trigger] self.pending_add@[i]).fd,
            ) && self.pending_add@[i].alive
    }

    /// Sets the core up around the listening descriptor: one watch entry
    /// with read interest, and the acceptor bound to it.
    pub fn new(listen_fd: i32) -> (s: EventLoop)
        ensures
            s.wf(),
            s.listener() == listen_fd,
            s.watch_seq() == seq![
                WatchEntry {
                    fd: listen_fd,
                    interest: Interest::ReadReady,
                    observed: EventFlags { read_ready: false },
                },
            ],
            forall|fd: i32| #[trigger] s.handler_contains(fd) <==> fd == listen_fd,
            forall|fd: i32| #[trigger] s.watch_contains(fd) <==> fd == listen_fd,
            s.handler_of(listen_fd) == Handler::Acceptor,
            s.conns_seq() == Seq::<Connection>::empty(),
            s.pending_add_seq() == Seq::<Connection>::empty(),
            s.pending_remove_seq() == Seq::<i32>::empty(),
            forall|fd: i32| !(#[trigger] s.conn_contains(fd)),
            forall|fd: i32| !(#[trigger] s.pending_add_contains(fd)),
            forall|fd: i32| !(#[trigger] s.pending_removed(fd)),
    {
        let mut watch = WatchSet::new();
        watch.add(listen_fd, Interest::ReadReady);
        let mut handlers = HandlerTable::new();
        handlers.register(listen_fd, Handler::Acceptor);
        let s = EventLoop {
            listen_fd,
            watch,
            handlers,
            conns: Vec::new(),
            pending_add: Vec::new(),
            pending_remove: Vec::new(),
        };
        proof {
            assert(s.watch@ == Seq::<WatchEntry>::empty().push(
                WatchEntry {
                    fd: listen_fd,
                    interest: Interest::ReadReady,
                    observed: EventFlags { read_ready: false },
                },
            ));
            assert(s.watch@ =~= seq![
                WatchEntry {
                    fd: listen_fd,
                    interest: Interest::ReadReady,
                    observed: EventFlags { read_ready: false },
                },
            ]);
            assert forall|fd: i32| #[trigger] s.watch.contains_fd(fd) <==> s.handlers.contains_fd(
                fd,
            ) by {
                if s.watch.contains_fd(fd) {
                    assert(s.watch@[0].fd == fd);
                }
                if s.handlers.contains_fd(fd) {
                    assert(s.watch@[0].fd == listen_fd);
                }
            }
        }
        s
    }

    /// Decides what the driver does with the outcome of one blocking wait
    /// call. A recoverable interruption is retried; only an unrecoverable
    /// error ends the loop. Whatever the outcome, the state — in particular
    /// every registered descriptor — is left exactly as it was.
    pub fn wait_step(&mut self, outcome: WaitOutcome) -> (d: WaitDecision)
        ensures
            *final(self) == *old(self),
            d == match outcome {
                WaitOutcome::Ready(n) => WaitDecision::Dispatch(n),
                WaitOutcome::Interrupted => WaitDecision::Retry,
                WaitOutcome::Failed(e) => WaitDecision::Terminate(e),
            },
    {
        match outcome {
            WaitOutcome::Ready(n) => WaitDecision::Dispatch(n),
            WaitOutcome::Interrupted => WaitDecision::Retry,
            WaitOutcome::Failed(e) => WaitDecision::Terminate(e),
        }
    }

    /// The number of watch entries.
    pub fn watch_len(&self) -> (n: usize)
        ensures
            n == self.watch_seq().len(),
    {
        self.watch.len()
    }

    /// The watch entry at position `i`, in insertion order.
    pub fn watch_entry(&self, i: usize) -> (e: WatchEntry)
        requires
            i < self.watch_seq().len(),
        ensures
            e == self.watch_seq()[i as int],
    {
        self.watch.entry_at(i)
    }

    /// The listening descriptor.
    pub fn listener_fd(&self) -> (fd: i32)
        ensures
            fd == self.listener(),
    {
        self.listen_fd
    }

    /// Whether `fd` is currently watched.
    pub fn is_watched(&self, fd: i32) -> (b: bool)
        ensures
            b == self.watch_contains(fd),
    {
        self.watch.contains(fd)
    }

    /// Whether the core already accounts for `fd`: watched now, or accepted
    /// this round and awaiting registration. The driver checks this before
    /// reporting an accepted descriptor, since an open descriptor is unique
    /// in the process.
    pub fn is_tracked(&self, fd: i32) -> (b: bool)
        ensures
            b == (self.watch_contains(fd) || self.pending_add_contains(fd)),
    {
        if self.watch.contains(fd) {
            return true;
        }
        let mut i: usize = 0;
        while i < self.pending_add.len()
            invariant
                i <= self.pending_add@.len(),
                forall|k: int| 0 <= k < i ==> (#[trigger] self.pending_add@[k]).fd != fd,
            decreases self.pending_add@.len() - i,
        {
            if self.pending_add[i].fd == fd {
                return true;
            }
            i += 1;
        }
        false
    }

    /// Whether a live connection record exists for `fd`. The driver checks
    /// this before dispatching a read outcome; within one round it holds of
    /// every client descriptor that was ready at the round's start.
    pub fn conn_alive(&self, fd: i32) -> (b: bool)
        requires
            self.wf(),
        ensures
            b == (self.conn_contains(fd) && self.conn_of(fd).alive),
    {
        let mut i: usize = 0;
        while i < self.conns.len()
            invariant
                i <= self.conns@.len(),
                forall|k: int| 0 <= k < i ==> (#[trigger] self.conns@[k]).fd != fd,
                forall|p: int, q: int|
                    0 <= p < q < self.conns@.len() ==> (#[trigger] self.conns@[p]).fd != (
                    #[trigger] self.conns@[q]).fd,
            decreases self.conns@.len() - i,
        {
            if self.conns[i].fd == fd {
                proof {
                    assert(conns_have_fd(self.conns@, fd));
                    let k = choose|k: int|
                        0 <= k < self.conns@.len() && (#[trigger] self.conns@[k]).fd == fd;
                    if k != i {
                        assert(self.conns@[k].fd != self.conns@[i as int].fd);
                    }
                    assert(conn_in(self.conns@, fd) == self.conns@[i as int]);
                }
                return self.conns[i].alive;
            }
            i += 1;
        }
        false
    }

    /// Records the events the wait primitive reported for the watch entry at
    /// `i`. Nothing but that entry's observed flags changes.
    pub fn record_observed(&mut self, i: usize, read_ready: bool)
        requires
            old(self).wf(),
            i < old(self).watch_seq().len(),
        ensures
            final(self).wf(),
            final(self).watch_seq() == old(self).watch_seq().update(
                i as int,
                WatchEntry {
                    fd: old(self).watch_seq()[i as int].fd,
                    interest: old(self).watch_seq()[i as int].interest,
                    observed: EventFlags { read_ready },
                },
            ),
            final(self).handler_tbl() == old(self).handler_tbl(),
            final(self).conns_seq() == old(self).conns_seq(),
            final(self).pending_add_seq() == old(self).pending_add_seq(),
            final(self).pending_remove_seq() == old(self).pending_remove_seq(),
            final(self).listener() == old(self).listener(),
    {
        let ghost orig = *self;
        self.watch.set_observed(i, read_ready);
        proof {
            assert forall|g: i32| #[trigger] self.watch.contains_fd(g) == orig.watch.contains_fd(
                g,
            ) by {
                if self.watch.contains_fd(g) {
                    let k = choose|k: int|
                        0 <= k < self.watch@.len() && (#[trigger] self.watch@[k]).fd == g;
                    assert(orig.watch@[k].fd == g);
                }
                if orig.watch.contains_fd(g) {
                    let k = choose|k: int|
                        0 <= k < orig.watch@.len() && (#[trigger] orig.watch@[k]).fd == g;
                    assert(self.watch@[k].fd == g);
                }
            }
            assert forall|p: int, q: int| 0 <= p < q < self.watch@.len() implies (
            #[trigger] self.watch@[p]).fd != (#[trigger] self.watch@[q]).fd by {
                assert(orig.watch@[p].fd != orig.watch@[q].fd);
                assert(self.watch@[p].fd == orig.watch@[p].fd);
                assert(self.watch@[q].fd == orig.watch@[q].fd);
            }
        }
    }

    /// The descriptors to dispatch this round: those whose last observed
    /// events show read-readiness, in watch order.
    pub fn ready_descriptors(&self) -> (r: Vec<i32>)
        ensures
            r@ == ready_seq(self.watch_seq()),
    {
        self.watch.ready_fds()
    }

    /// The handler bound to `fd`, if any. The driver skips a ready
    /// descriptor without one: such an event is silently dropped.
    pub fn role_of(&self, fd: i32) -> (r: Option<Handler>)
        requires
            self.wf(),
        ensures
            r == if self.handler_contains(fd) {
                Some(self.handler_of(fd))
            } else {
                Option::<Handler>::None
            },
            self.handler_contains(fd) && fd == self.listener() ==> r == Some(Handler::Acceptor),
            self.handler_contains(fd) && fd != self.listener() ==> r == Some(Handler::Client),
    {
        self.handlers.lookup(fd)
    }

    /// Queues a connection just accepted from the listening descriptor; it
    /// is registered when the round is reconciled. The descriptor must be
    /// new to the core, which the OS guarantees of an accepted descriptor
    /// and the driver checks with `is_tracked`.
    pub fn on_accepted(&mut self, fd: i32, peer: String)
        requires
            old(self).wf(),
            !old(self).watch_contains(fd),
            !old(self).pending_add_contains(fd),
        ensures
            final(self).wf(),
            final(self).pending_add_seq() == old(self).pending_add_seq().push(
                Connection { fd, peer, alive: true },
            ),
            forall|g: i32|
                #[trigger] final(self).pending_add_contains(g) == (old(
                    self,
                ).pending_add_contains(g) || g == fd),
            final(self).watch_seq() == old(self).watch_seq(),
            final(self).handler_tbl() == old(self).handler_tbl(),
            final(self).conns_seq() == old(self).conns_seq(),
            final(self).pending_remove_seq() == old(self).pending_remove_seq(),
            final(self).listener() == old(self).listener(),
            forall|g: i32| #[trigger] final(self).watch_contains(g) == old(self).watch_contains(g),
            forall|g: i32|
                #[trigger] final(self).handler_contains(g) == old(self).handler_contains(g),
            forall|g: i32| #[trigger] final(self).conn_contains(g) == old(self).conn_contains(g),
            forall|g: i32| #[trigger] final(self).pending_removed(g) == old(self).pending_removed(g),
    {
        let ghost orig = *self;
        self.pending_add.push(Connection { fd, peer, alive: true });
        proof {
            let n = orig.pending_add@.len() as int;
            assert(self.pending_add@ == orig.pending_add@.push(self.pending_add@[n]));
            assert forall|g: i32| #[trigger] conns_have_fd(self.pending_add@, g) == (conns_have_fd(
                orig.pending_add@,
                g,
            ) || g == fd) by {
                if conns_have_fd(self.pending_add@, g) {
                    let j = choose|j: int|
                        0 <= j < self.pending_add@.len() && (#[trigger] self.pending_add@[j]).fd
                            == g;
                    if j < n {
                        assert(orig.pending_add@[j].fd == g);
                    }
                }
                if conns_have_fd(orig.pending_add@, g) {
                    let j = choose|j: int|
                        0 <= j < orig.pending_add@.len() && (#[trigger] orig.pending_add@[j]).fd
                            == g;
                    assert(self.pending_add@[j].fd == g);
                }
                if g == fd {
                    assert(self.pending_add@[n].fd == g);
                }
            }
            assert forall|i: int, j: int| 0 <= i < j < self.pending_add@.len() implies (
            #[trigger] self.pending_add@[i]).fd != (#[trigger] self.pending_add@[j]).fd by {
                if j < n {
                    assert(orig.pending_add@[i].fd != orig.pending_add@[j].fd);
                } else {
                    assert(self.pending_add@[j].fd == fd);
                    if i < n {
                        assert(self.pending_add@[i] == orig.pending_add@[i]);
                        assert(orig.pending_add@[i].fd != fd) by {
                            if orig.pending_add@[i].fd == fd {
                                assert(conns_have_fd(orig.pending_add@, fd));
                            }
                        }
                    }
                }
            }
            assert forall|i: int|
                0 <= i < self.pending_add@.len() implies !self.watch.contains_fd(
                (#[trigger] self.pending_add@[i]).fd,
            ) && self.pending_add@[i].alive by {
                if i < n {
                    assert(orig.pending_add@[i] == self.pending_add@[i]);
                    assert(!orig.watch.contains_fd(orig.pending_add@[i].fd));
                }
            }
        }
    }

    /// The position of the connection record for `fd`.
    fn conn_index(&self, fd: i32) -> (r: usize)
        requires
            self.conn_contains(fd),
        ensures
            r < self.conns@.len(),
            self.conns@[r as int].fd == fd,
    {
        let mut i: usize = 0;
        while i < self.conns.len()
            invariant
                i <= self.conns@.len(),
                forall|k: int| 0 <= k < i ==> (#[trigger] self.conns@[k]).fd != fd,
                conns_have_fd(self.conns@, fd),
            decreases self.conns@.len() - i,
        {
            if self.conns[i].fd == fd {
                return i;
            }
            i += 1;
        }
        proof {
            assert(false);
        }
        0
    }

    /// Marks the connection on `fd` dead and queues the descriptor for
    /// removal at the end of the round.
    fn close_conn(&mut self, fd: i32)
        requires
            old(self).wf(),
            old(self).conn_contains(fd),
            old(self).conn_of(fd).alive,
        ensures
            final(self).wf(),
            final(self).pending_remove_seq() == old(self).pending_remove_seq().push(fd),
            forall|g: i32|
                #[trigger] final(self).pending_removed(g) == (old(self).pending_removed(g) || g
                    == fd),
            final(self).watch_seq() == old(self).watch_seq(),
            final(self).handler_tbl() == old(self).handler_tbl(),
            final(self).pending_add_seq() == old(self).pending_add_seq(),
            final(self).listener() == old(self).listener(),
            final(self).conns_seq().len() == old(self).conns_seq().len(),
            forall|i: int|
                0 <= i < old(self).conns_seq().len() ==> {
                    let c0 = old(self).conns_seq()[i];
                    let c1 = #[trigger] final(self).conns_seq()[i];
                    c1.fd == c0.fd && c1.peer == c0.peer && c1.alive == (c0.alive && c0.fd != fd)
                },
            forall|g: i32| #[trigger] final(self).conn_contains(g) == old(self).conn_contains(g),
            forall|g: i32|
                old(self).conn_contains(g) && g != fd ==> #[trigger] final(self).conn_of(g) == old(
                    self,
                ).conn_of(g),
            !final(self).conn_of(fd).alive,
            final(self).conn_of(fd).fd == fd,
            final(self).conn_of(fd).peer == old(self).conn_of(fd).peer,
    {
        let ghost orig = *self;
        let i = self.conn_index(fd);
        self.conns[i].alive = false;
        self.pending_remove.push(fd);
        proof {
            let iw: int = i as int;
            assert(self.conns@ == orig.conns@.update(iw, self.conns@[iw]));
            assert(self.conns@[iw].fd == fd && !self.conns@[iw].alive);
            assert(self.conns@[iw].peer == orig.conns@[iw].peer);
            let n = orig.pending_remove@.len() as int;
            assert(self.pending_remove@ == orig.pending_remove@.push(fd));
            assert(!orig.pending_remove@.contains(fd)) by {
                assert(conn_in(orig.conns@, fd).alive);
                if orig.pending_remove@.contains(fd) {
                    assert(conns_have_fd(orig.conns@, fd));
                }
            }
            assert forall|g: i32| #[trigger]
                self.pending_remove@.contains(g) == (orig.pending_remove@.contains(g) || g
                    == fd) by {
                if self.pending_remove@.contains(g) {
                    let k = choose|k: int|
                        0 <= k < self.pending_remove@.len() && self.pending_remove@[k] == g;
                    if k < n {
                        assert(orig.pending_remove@[k] == g);
                    }
                }
                if orig.pending_remove@.contains(g) {
                    let k = choose|k: int|
                        0 <= k < orig.pending_remove@.len() && orig.pending_remove@[k] == g;
                    assert(self.pending_remove@[k] == g);
                }
                if g == fd {
                    assert(self.pending_remove@[n] == g);
                }
            }
            assert forall|g: i32| #[trigger] conns_have_fd(self.conns@, g) == conns_have_fd(
                orig.conns@,
                g,
            ) by {
                if conns_have_fd(self.conns@, g) {
                    let k = choose|k: int|
                        0 <= k < self.conns@.len() && (#[trigger] self.conns@[k]).fd == g;
                    assert(orig.conns@[k].fd == g);
                }
                if conns_have_fd(orig.conns@, g) {
                    let k = choose|k: int|
                        0 <= k < orig.conns@.len() && (#[trigger] orig.conns@[k]).fd == g;
                    assert(self.conns@[k].fd == g);
                }
            }
            assert forall|g: i32|
                conns_have_fd(self.conns@, g) && g != fd implies #[trigger] conn_in(self.conns@, g)
                    == conn_in(orig.conns@, g) by {
                let k1 = choose|k: int|
                    0 <= k < self.conns@.len() && (#[trigger] self.conns@[k]).fd == g;
                let k2 = choose|k: int|
                    0 <= k < orig.conns@.len() && (#[trigger] orig.conns@[k]).fd == g;
                assert(k1 != iw);
                assert(self.conns@[k1] == orig.conns@[k1]);
                if k1 != k2 {
                    assert(orig.conns@[k1].fd != orig.conns@[k2].fd);
                }
            }
            assert(conn_in(self.conns@, fd) == self.conns@[iw]) by {
                let k = choose|k: int|
                    0 <= k < self.conns@.len() && (#[trigger] self.conns@[k]).fd == fd;
                if k != iw {
                    assert(orig.conns@[k].fd != orig.conns@[iw].fd);
                }
            }
            assert(conn_in(orig.conns@, fd) == orig.conns@[iw]) by {
                let k = choose|k: int|
                    0 <= k < orig.conns@.len() && (#[trigger] orig.conns@[k]).fd == fd;
                if k != iw {
                    assert(orig.conns@[k].fd != orig.conns@[iw].fd);
                }
            }
            assert forall|p: int, q: int| 0 <= p < q < self.conns@.len() implies (
            #[trigger] self.conns@[p]).fd != (#[trigger] self.conns@[q]).fd by {
                assert(orig.conns@[p].fd != orig.conns@[q].fd);
                assert(self.conns@[p].fd == orig.conns@[p].fd);
                assert(self.conns@[q].fd == orig.conns@[q].fd);
            }
            assert forall|p: int, q: int| 0 <= p < q < self.pending_remove@.len() implies
                self.pending_remove@[p] != self.pending_remove@[q] by {
                if q < n {
                    assert(orig.pending_remove@[p] != orig.pending_remove@[q]);
                } else {
                    assert(self.pending_remove@[q] == fd);
                    if p < n {
                        assert(self.pending_remove@[p] == orig.pending_remove@[p]);
                        if self.pending_remove@[p] == fd {
                            assert(orig.pending_remove@.contains(fd));
                        }
                    }
                }
            }
        }
    }

    /// Dispatches the outcome of one read attempt on the client connection
    /// bound to `fd`. A non-empty record is delivered to the line sink with
    /// its newline stripped and the connection stays; an empty read (the
    /// peer closed) or a failed read marks the connection dead and queues it
    /// for removal — nothing is unregistered while the round still runs.
    pub fn on_read(&mut self, fd: i32, event: ReadEvent) -> (out: DispatchOutcome)
        requires
            old(self).wf(),
            old(self).conn_contains(fd),
            old(self).conn_of(fd).alive,
        ensures
            final(self).wf(),
            event matches ReadEvent::Line(bytes) ==> (bytes@.len() > 0 ==> (out matches
                DispatchOutcome::Delivered(s)
                && s.fd == fd
                && s.peer == old(self).conn_of(fd).peer
                && s.record@ == strip_newline_spec(bytes@)
                && *final(self) == *old(self))),
            event matches ReadEvent::Line(bytes) ==> (bytes@.len() == 0 ==> closes_connection(
                *old(self),
                *final(self),
                fd,
                out,
            )),
            event matches ReadEvent::Failed ==> closes_connection(
                *old(self),
                *final(self),
                fd,
                out,
            ),
    {
        match event {
            ReadEvent::Line(bytes) => {
                if bytes.len() > 0 {
                    let record = strip_newline(bytes);
                    let i = self.conn_index(fd);
                    let peer = self.conns[i].peer.clone();
                    proof {
                        let iw: int = i as int;
                        assert(conn_in(self.conns@, fd) == self.conns@[iw]) by {
                            let k = choose|k: int|
                                0 <= k < self.conns@.len() && (#[trigger] self.conns@[k]).fd == fd;
                            if k != iw {
                                assert(self.conns@[k].fd != self.conns@[iw].fd);
                            }
                        }
                    }
                    DispatchOutcome::Delivered(SinkEvent { fd, peer, record })
                } else {
                    self.close_conn(fd);
                    DispatchOutcome::Closed
                }
            },
            ReadEvent::Failed => {
                self.close_conn(fd);
                DispatchOutcome::Closed
            },
        }
    }

    /// Registers every connection accepted this round: a watch entry with
    /// read interest, the client handler, and the connection record, in
    /// acceptance order. Afterwards the registration queue is empty.
    fn apply_adds(&mut self)
        requires
            old(self).wf(),
        ensures
            final(self).wf(),
            final(self).pending_add_seq().len() == 0,
            final(self).pending_remove_seq() == old(self).pending_remove_seq(),
            final(self).listener() == old(self).listener(),
            final(self).conns_seq() == old(self).conns_seq() + old(self).pending_add_seq(),
            final(self).watch_seq() == old(self).watch_seq() + entries_for(
                old(self).pending_add_seq(),
            ),
            forall|g: i32|
                #[trigger] final(self).handler_contains(g) == (old(self).handler_contains(g) || old(
                    self,
                ).pending_add_contains(g)),
            forall|g: i32|
                old(self).handler_contains(g) ==> #[trigger] final(self).handler_of(g) == old(
                    self,
                ).handler_of(g),
            forall|g: i32|
                old(self).pending_add_contains(g) && !old(self).handler_contains(g)
                    ==> #[trigger] final(self).handler_of(g) == Handler::Client,
    {
        let ghost orig = *self;
        let ghost mut k: int = 0;
        proof {
            assert(orig.pending_add@.skip(0) == orig.pending_add@);
            assert(self.conns@ =~= orig.conns@ + orig.pending_add@.take(0));
            assert(entries_for(orig.pending_add@.take(0)) =~= Seq::<WatchEntry>::empty());
            assert(self.watch@ =~= orig.watch@ + entries_for(orig.pending_add@.take(0)));
        }
        while self.pending_add.len() > 0
            invariant
                self.wf(),
                orig.wf(),
                0 <= k <= orig.pending_add@.len(),
                self.listen_fd == orig.listen_fd,
                self.pending_remove@ == orig.pending_remove@,
                self.pending_add@ == orig.pending_add@.skip(k),
                self.conns@ == orig.conns@ + orig.pending_add@.take(k),
                self.watch@ == orig.watch@ + entries_for(orig.pending_add@.take(k)),
                forall|g: i32|
                    #[trigger] self.handlers.contains_fd(g) == (orig.handlers.contains_fd(g)
                        || conns_have_fd(orig.pending_add@.take(k), g)),
                forall|g: i32|
                    orig.handlers.contains_fd(g) ==> #[trigger] self.handlers.handler_of(g)
                        == orig.handlers.handler_of(g),
                forall|g: i32|
                    conns_have_fd(orig.pending_add@.take(k), g) && !orig.handlers.contains_fd(g)
                        ==> #[trigger] self.handlers.handler_of(g) == Handler::Client,
            decreases self.pending_add@.len(),
        {
            let ghost pre = *self;
            let ghost pa = orig.pending_add@;
            let c = self.pending_add.remove(0);
            let ghost gc = c;
            proof {
                assert(pre.pending_add@[0] == pa[k]);
                assert(gc == pa[k]);
                assert(self.pending_add@ =~= pa.skip(k + 1));
                assert(!pre.watch.contains_fd(gc.fd)) by {
                    assert(!pre.watch.contains_fd(pre.pending_add@[0].fd));
                }
                assert(gc.alive) by {
                    assert(pre.pending_add@[0].alive);
                }
            }
            let fd = c.fd;
            self.watch.add(fd, Interest::ReadReady);
            self.handlers.register(fd, Handler::Client);
            self.conns.push(c);
            proof {
                assert(pa.take(k + 1) =~= pa.take(k).push(pa[k]));
                assert(self.conns@ =~= orig.conns@ + pa.take(k + 1));
                assert(entries_for(pa.take(k + 1)) =~= entries_for(pa.take(k)).push(
                    entry_for(pa[k]),
                ));
                assert(self.watch@ =~= orig.watch@ + entries_for(pa.take(k + 1)));
                assert forall|g: i32| #[trigger] conns_have_fd(pa.take(k + 1), g) == (
                conns_have_fd(pa.take(k), g) || g == gc.fd) by {
                    if conns_have_fd(pa.take(k + 1), g) {
                        let j = choose|j: int|
                            0 <= j < pa.take(k + 1).len() && (#[trigger] pa.take(k + 1)[j]).fd
                                == g;
                        if j < k {
                            assert(pa.take(k)[j].fd == g);
                        } else {
                            assert(pa.take(k + 1)[k].fd == gc.fd);
                        }
                    }
                    if conns_have_fd(pa.take(k), g) {
                        let j = choose|j: int|
                            0 <= j < pa.take(k).len() && (#[trigger] pa.take(k)[j]).fd == g;
                        assert(pa.take(k + 1)[j].fd == g);
                    }
                    if g == gc.fd {
                        assert(pa.take(k + 1)[k].fd == g);
                    }
                }
                assert forall|g: i32| #[trigger] conns_have_fd(self.conns@, g) == (conns_have_fd(
                    pre.conns@,
                    g,
                ) || g == gc.fd) by {
                    let n = pre.conns@.len() as int;
                    if conns_have_fd(self.conns@, g) {
                        let j = choose|j: int|
                            0 <= j < self.conns@.len() && (#[trigger] self.conns@[j]).fd == g;
                        if j < n {
                            assert(pre.conns@[j].fd == g);
                        }
                    }
                    if conns_have_fd(pre.conns@, g) {
                        let j = choose|j: int|
                            0 <= j < pre.conns@.len() && (#[trigger] pre.conns@[j]).fd == g;
                        assert(self.conns@[j].fd == g);
                    }
                    if g == gc.fd {
                        assert(self.conns@[n].fd == g);
                    }
                }
                assert(!conns_have_fd(pre.conns@, gc.fd)) by {
                    if conns_have_fd(pre.conns@, gc.fd) {
                        assert(pre.handlers.contains_fd(gc.fd));
                        assert(pre.watch.contains_fd(gc.fd));
                    }
                }
                assert(!pre.handlers.contains_fd(gc.fd)) by {
                    if pre.handlers.contains_fd(gc.fd) {
                        assert(pre.watch.contains_fd(gc.fd));
                    }
                }
                assert(gc.fd != orig.listen_fd) by {
                    assert(pre.handlers.contains_fd(pre.listen_fd));
                    assert(pre.watch.contains_fd(pre.listen_fd));
                }
                assert(!pre.pending_remove@.contains(gc.fd)) by {
                    if pre.pending_remove@.contains(gc.fd) {
                        assert(conns_have_fd(pre.conns@, gc.fd));
                    }
                }
                assert forall|p: int, q: int| 0 <= p < q < self.conns@.len() implies (
                #[trigger] self.conns@[p]).fd != (#[trigger] self.conns@[q]).fd by {
                    let n = pre.conns@.len() as int;
                    if q < n {
                        assert(pre.conns@[p].fd != pre.conns@[q].fd);
                        assert(self.conns@[p] == pre.conns@[p]);
                        assert(self.conns@[q] == pre.conns@[q]);
                    } else {
                        assert(self.conns@[q] == gc);
                        if pre.conns@[p].fd == gc.fd {
                            assert(conns_have_fd(pre.conns@, gc.fd));
                        }
                        assert(self.conns@[p] == pre.conns@[p]);
                    }
                }
                assert forall|g: i32|
                    conns_have_fd(pre.conns@, g) implies #[trigger] conn_in(self.conns@, g)
                        == conn_in(pre.conns@, g) by {
                    let n = pre.conns@.len() as int;
                    let j2 = choose|j: int|
                        0 <= j < pre.conns@.len() && (#[trigger] pre.conns@[j]).fd == g;
                    assert(self.conns@[j2].fd == g);
                    let j1 = choose|j: int|
                        0 <= j < self.conns@.len() && (#[trigger] self.conns@[j]).fd == g;
                    assert(g != gc.fd);
                    assert(j1 != n);
                    assert(self.conns@[j1] == pre.conns@[j1]);
                    if j1 != j2 {
                        assert(pre.conns@[j1].fd != pre.conns@[j2].fd);
                    }
                }
                assert(conn_in(self.conns@, gc.fd) == gc) by {
                    let n = pre.conns@.len() as int;
                    assert(self.conns@[n] == gc);
                    let j = choose|j: int|
                        0 <= j < self.conns@.len() && (#[trigger] self.conns@[j]).fd == gc.fd;
                    if j != n {
                        assert(self.conns@[j] == pre.conns@[j]);
                        assert(conns_have_fd(pre.conns@, gc.fd));
                    }
                }
                // the remaining queue entries are still fresh and unique
                assert forall|i: int, j: int|
                    0 <= i < j < self.pending_add@.len() implies (
                #[trigger] self.pending_add@[i]).fd != (#[trigger] self.pending_add@[j]).fd by {
                    assert(self.pending_add@[i] == pa[k + 1 + i]);
                    assert(self.pending_add@[j] == pa[k + 1 + j]);
                    assert(pa[k + 1 + i].fd != pa[k + 1 + j].fd);
                }
                assert forall|i: int|
                    0 <= i < self.pending_add@.len() implies !self.watch.contains_fd(
                    (#[trigger] self.pending_add@[i]).fd,
                ) && self.pending_add@[i].alive by {
                    assert(self.pending_add@[i] == pa[k + 1 + i]);
                    assert(pre.pending_add@[1 + i] == pa[k + 1 + i]);
                    assert(!pre.watch.contains_fd(pre.pending_add@[1 + i].fd));
                    assert(pre.pending_add@[1 + i].alive);
                    assert(pa[k + 1 + i].fd != gc.fd) by {
                        assert(pre.pending_add@[0] == pa[k]);
                        assert(pre.pending_add@[0].fd != pre.pending_add@[1 + i].fd);
                    }
                }
                assert(self.wf());
            }
            proof {
                k = k + 1;
            }
        }
        proof {
            assert(self.pending_add@.len() == 0);
            assert(k == orig.pending_add@.len());
            assert(orig.pending_add@.take(k) == orig.pending_add@);
        }
    }

    /// Tears down every connection marked dead this round: its watch entry,
    /// its handler and its record leave together, and every other
    /// registration stays untouched. Returns the drained descriptors so the
    /// driver can close the sockets.
    fn apply_removes(&mut self) -> (removed: Vec<i32>)
        requires
            old(self).wf(),
        ensures
            final(self).wf(),
            removed@ == old(self).pending_remove_seq(),
            final(self).pending_remove_seq().len() == 0,
            final(self).pending_add_seq() == old(self).pending_add_seq(),
            final(self).listener() == old(self).listener(),
            forall|g: i32|
                #[trigger] final(self).watch_contains(g) == (old(self).watch_contains(g) && !old(
                    self,
                ).pending_removed(g)),
            forall|g: i32|
                #[trigger] final(self).handler_contains(g) == (old(self).handler_contains(g)
                    && !old(self).pending_removed(g)),
            forall|g: i32|
                #[trigger] final(self).conn_contains(g) == (old(self).conn_contains(g) && !old(
                    self,
                ).pending_removed(g)),
            forall|g: i32|
                old(self).handler_contains(g) && !old(self).pending_removed(g)
                    ==> #[trigger] final(self).handler_of(g) == old(self).handler_of(g),
            forall|g: i32|
                old(self).conn_contains(g) && !old(self).pending_removed(g)
                    ==> #[trigger] final(self).conn_of(g) == old(self).conn_of(g),
    {
        let ghost orig = *self;
        let ghost mut k: int = 0;
        let ghost pr = orig.pending_remove@;
        let mut removed: Vec<i32> = Vec::new();
        proof {
            assert(pr.skip(0) == pr);
            assert(removed@ =~= pr.take(0));
        }
        while self.pending_remove.len() > 0
            invariant
                self.wf(),
                orig.wf(),
                pr == orig.pending_remove@,
                0 <= k <= pr.len(),
                self.listen_fd == orig.listen_fd,
                self.pending_add@ == orig.pending_add@,
                self.pending_remove@ == pr.skip(k),
                removed@ == pr.take(k),
                forall|g: i32|
                    #[trigger] self.watch.contains_fd(g) == (orig.watch.contains_fd(g) && !pr.take(
                        k,
                    ).contains(g)),
                forall|g: i32|
                    #[trigger] self.handlers.contains_fd(g) == (orig.handlers.contains_fd(g)
                        && !pr.take(k).contains(g)),
                forall|g: i32|
                    #[trigger] conns_have_fd(self.conns@, g) == (conns_have_fd(orig.conns@, g)
                        && !pr.take(k).contains(g)),
                forall|g: i32|
                    self.handlers.contains_fd(g) ==> #[trigger] self.handlers.handler_of(g)
                        == orig.handlers.handler_of(g),
                forall|g: i32|
                    conns_have_fd(self.conns@, g) ==> #[trigger] conn_in(self.conns@, g) == conn_in(
                        orig.conns@,
                        g,
                    ),
            decreases self.pending_remove@.len(),
        {
            let ghost pre = *self;
            let fd = self.pending_remove.remove(0);
            proof {
                assert(pre.pending_remove@[0] == pr[k]);
                assert(fd == pr[k]);
                assert(self.pending_remove@ =~= pr.skip(k + 1));
                assert(pre.pending_remove@.contains(fd)) by {
                    assert(pre.pending_remove@[0] == fd);
                }
                assert(conns_have_fd(pre.conns@, fd));
                assert(pre.handlers.contains_fd(fd));
                assert(pre.watch.contains_fd(fd));
                assert(fd != pre.listen_fd) by {
                    if fd == pre.listen_fd {
                        assert(conns_have_fd(pre.conns@, pre.listen_fd));
                    }
                }
                assert(pr.take(k + 1) =~= pr.take(k).push(pr[k]));
                assert forall|g: i32| (#[trigger] pr.take(k + 1).contains(g)) == (pr.take(
                    k,
                ).contains(g) || g == fd) by {
                    let t0 = pr.take(k);
                    let t1 = pr.take(k + 1);
                    if t1.contains(g) {
                        let j = choose|j: int| 0 <= j < t1.len() && (#[trigger] t1[j]) == g;
                        if j < k {
                            assert(t0[j] == g);
                        } else {
                            assert(t1[k] == fd);
                        }
                    }
                    if t0.contains(g) {
                        let j = choose|j: int| 0 <= j < t0.len() && (#[trigger] t0[j]) == g;
                        assert(t1[j] == g);
                    }
                    if g == fd {
                        assert(t1[k] == g);
                    }
                }
                assert forall|g: i32| (#[trigger] pre.pending_remove@.contains(g)) == (
                self.pending_remove@.contains(g) || g == fd) by {
                    if pre.pending_remove@.contains(g) {
                        let j = choose|j: int|
                            0 <= j < pre.pending_remove@.len() && pre.pending_remove@[j] == g;
                        if j > 0 {
                            assert(self.pending_remove@[j - 1] == g);
                        }
                    }
                    if self.pending_remove@.contains(g) {
                        let j = choose|j: int|
                            0 <= j < self.pending_remove@.len() && self.pending_remove@[j] == g;
                        assert(pre.pending_remove@[j + 1] == g);
                    }
                }
                assert(!self.pending_remove@.contains(fd)) by {
                    if self.pending_remove@.contains(fd) {
                        let j = choose|j: int|
                            0 <= j < self.pending_remove@.len() && self.pending_remove@[j] == fd;
                        assert(pre.pending_remove@[j + 1] == fd);
                        assert(pre.pending_remove@[0] != pre.pending_remove@[j + 1]);
                    }
                }
            }
            self.watch.remove(fd);
            self.handlers.unregister(fd);
            let ci = self.conn_index(fd);
            let ghost mid = *self;
            self.conns.remove(ci);
            removed.push(fd);
            proof {
                let n: int = ci as int;
                assert(mid.conns@[n].fd == fd);
                assert(self.conns@ == mid.conns@.remove(n));
                mid.conns@.remove_ensures(n);
                assert(removed@ =~= pr.take(k + 1));
                assert forall|g: i32| #[trigger] conns_have_fd(self.conns@, g) == (conns_have_fd(
                    mid.conns@,
                    g,
                ) && g != fd) by {
                    if conns_have_fd(self.conns@, g) {
                        let j = choose|j: int|
                            0 <= j < self.conns@.len() && (#[trigger] self.conns@[j]).fd == g;
                        let j0: int = if j < n {
                            j
                        } else {
                            j + 1
                        };
                        assert(self.conns@[j] == mid.conns@[j0]);
                        assert(mid.conns@[j0].fd == g);
                        if g == fd {
                            assert(j0 != n);
                            assert(mid.conns@[j0].fd != mid.conns@[n].fd);
                        }
                    }
                    if conns_have_fd(mid.conns@, g) && g != fd {
                        let j = choose|j: int|
                            0 <= j < mid.conns@.len() && (#[trigger] mid.conns@[j]).fd == g;
                        assert(j != n);
                        if j < n {
                            assert(self.conns@[j].fd == g);
                        } else {
                            assert(self.conns@[j - 1] == mid.conns@[j]);
                            assert(self.conns@[j - 1].fd == g);
                        }
                    }
                }
                assert forall|p: int, q: int| 0 <= p < q < self.conns@.len() implies (
                #[trigger] self.conns@[p]).fd != (#[trigger] self.conns@[q]).fd by {
                    let p0: int = if p < n {
                        p
                    } else {
                        p + 1
                    };
                    let q0: int = if q < n {
                        q
                    } else {
                        q + 1
                    };
                    assert(self.conns@[p] == mid.conns@[p0]);
                    assert(self.conns@[q] == mid.conns@[q0]);
                    assert(mid.conns@[p0].fd != mid.conns@[q0].fd);
                }
                assert forall|g: i32|
                    conns_have_fd(self.conns@, g) implies #[trigger] conn_in(self.conns@, g)
                        == conn_in(mid.conns@, g) by {
                    let j1 = choose|j: int|
                        0 <= j < self.conns@.len() && (#[trigger] self.conns@[j]).fd == g;
                    let j0: int = if j1 < n {
                        j1
                    } else {
                        j1 + 1
                    };
                    assert(self.conns@[j1] == mid.conns@[j0]);
                    assert(mid.conns@[j0].fd == g);
                    let j2 = choose|j: int|
                        0 <= j < mid.conns@.len() && (#[trigger] mid.conns@[j]).fd == g;
                    if j0 != j2 {
                        assert(mid.conns@[j0].fd != mid.conns@[j2].fd);
                    }
                }
                assert(self.wf()) by {
                    assert forall|g: i32|
                        #[trigger] self.pending_remove@.contains(g) implies conns_have_fd(
                        self.conns@,
                        g,
                    ) by {
                        assert(pre.pending_remove@.contains(g));
                        assert(g != fd);
                        assert(conns_have_fd(pre.conns@, g));
                    }
                    assert forall|g: i32|
                        conns_have_fd(self.conns@, g) implies ((#[trigger] conn_in(
                        self.conns@,
                        g,
                    )).alive <==> !self.pending_remove@.contains(g)) by {
                        assert(g != fd);
                        assert(conns_have_fd(pre.conns@, g));
                        assert(conn_in(self.conns@, g) == conn_in(pre.conns@, g));
                        assert(conn_in(pre.conns@, g).alive <==> !pre.pending_remove@.contains(g));
                    }
                    assert forall|i: int|
                        0 <= i < self.pending_add@.len() implies !self.watch.contains_fd(
                        (#[trigger] self.pending_add@[i]).fd,
                    ) && self.pending_add@[i].alive by {
                        assert(!pre.watch.contains_fd(pre.pending_add@[i].fd));
                        assert(pre.pending_add@[i].alive);
                    }
                }
            }
            proof {
                k = k + 1;
            }
        }
        proof {
            assert(self.pending_remove@.len() == 0);
            assert(k == pr.len());
            assert(pr.take(k) == pr);
        }
        removed
    }

    /// Applies the round's deferred mutations at the round boundary: first
    /// every connection accepted this round is registered, then every
    /// descriptor marked dead is removed from the watch set, the handler
    /// table and the connection store. Nothing else changes; the drained
    /// descriptors come back so the driver can close their sockets. A
    /// descriptor that was queued for removal is afterwards in neither
    /// table, so no later round can select or invoke its handler.
    pub fn reconcile(&mut self) -> (removed: Vec<i32>)
        requires
            old(self).wf(),
        ensures
            final(self).wf(),
            removed@ == old(self).pending_remove_seq(),
            final(self).pending_add_seq().len() == 0,
            final(self).pending_remove_seq().len() == 0,
            forall|g: i32| !(#[trigger] final(self).pending_add_contains(g)),
            forall|g: i32| !(#[trigger] final(self).pending_removed(g)),
            final(self).listener() == old(self).listener(),
            forall|g: i32|
                #[trigger] final(self).watch_contains(g) == ((old(self).watch_contains(g) || old(
                    self,
                ).pending_add_contains(g)) && !old(self).pending_removed(g)),
            forall|g: i32|
                #[trigger] final(self).conn_contains(g) == ((old(self).conn_contains(g) || old(
                    self,
                ).pending_add_contains(g)) && !old(self).pending_removed(g)),
            forall|g: i32|
                #[trigger] final(self).handler_contains(g) == ((old(self).handler_contains(g)
                    || old(self).pending_add_contains(g)) && !old(self).pending_removed(g)),
            forall|g: i32|
                old(self).pending_removed(g) ==> !final(self).watch_contains(g) && !(
                #[trigger] final(self).handler_contains(g)),
            forall|g: i32|
                old(self).handler_contains(g) && !old(self).pending_removed(g)
                    ==> #[trigger] final(self).handler_of(g) == old(self).handler_of(g),
            forall|g: i32|
                old(self).conn_contains(g) && !old(self).pending_removed(g)
                    ==> #[trigger] final(self).conn_of(g) == old(self).conn_of(g)
                    && final(self).conn_contains(g),
            forall|i: int|
                0 <= i < old(self).pending_add_seq().len() ==> {
                    let c = #[trigger] old(self).pending_add_seq()[i];
                    final(self).handler_of(c.fd) == Handler::Client && final(self).conn_contains(
                        c.fd,
                    ) && final(self).conn_of(c.fd) == c
                },
    {
        let ghost orig = *self;
        self.apply_adds();
        let ghost mid = *self;
        let removed = self.apply_removes();
        proof {
            assert(mid.wf());
            assert(orig.wf());
            assert forall|g: i32| (#[trigger] mid.watch.contains_fd(g)) == (orig.watch.contains_fd(
                g,
            ) || conns_have_fd(orig.pending_add@, g)) by {
                assert(mid.handler_contains(g) == (orig.handler_contains(g)
                    || orig.pending_add_contains(g)));
                assert(mid.watch.contains_fd(g) == mid.handlers.contains_fd(g));
                assert(orig.watch.contains_fd(g) == orig.handlers.contains_fd(g));
            }
            assert forall|i: int|
                0 <= i < orig.pending_add@.len() implies conn_in(
                mid.conns@,
                (#[trigger] orig.pending_add@[i]).fd,
            ) == orig.pending_add@[i] && conns_have_fd(mid.conns@, orig.pending_add@[i].fd) by {
                let c = orig.pending_add@[i];
                let n = orig.conns@.len() as int;
                assert(mid.conns@ == orig.conns@ + orig.pending_add@);
                assert(mid.conns@[n + i] == c);
                assert(conns_have_fd(mid.conns@, c.fd));
                let j = choose|j: int|
                    0 <= j < mid.conns@.len() && (#[trigger] mid.conns@[j]).fd == c.fd;
                if j != n + i {
                    assert(mid.conns@[j].fd != mid.conns@[n + i].fd);
                }
            }
            assert forall|g: i32|
                conns_have_fd(orig.conns@, g) implies #[trigger] conn_in(mid.conns@, g) == conn_in(
                orig.conns@,
                g,
            ) && conns_have_fd(mid.conns@, g) by {
                let j2 = choose|j: int|
                    0 <= j < orig.conns@.len() && (#[trigger] orig.conns@[j]).fd == g;
                assert(mid.conns@ == orig.conns@ + orig.pending_add@);
                assert(mid.conns@[j2] == orig.conns@[j2]);
                assert(conns_have_fd(mid.conns@, g));
                let j1 = choose|j: int|
                    0 <= j < mid.conns@.len() && (#[trigger] mid.conns@[j]).fd == g;
                if j1 != j2 {
                    assert(mid.conns@[j1].fd != mid.conns@[j2].fd);
                }
            }
            assert forall|g: i32| #[trigger] conns_have_fd(mid.conns@, g) == (conns_have_fd(
                orig.conns@,
                g,
            ) || conns_have_fd(orig.pending_add@, g)) by {
                let n = orig.conns@.len() as int;
                assert(mid.conns@ == orig.conns@ + orig.pending_add@);
                if conns_have_fd(mid.conns@, g) {
                    let j = choose|j: int|
                        0 <= j < mid.conns@.len() && (#[trigger] mid.conns@[j]).fd == g;
                    if j < n {
                        assert(orig.conns@[j].fd == g);
                    } else {
                        assert(orig.pending_add@[j - n].fd == g);
                    }
                }
                if conns_have_fd(orig.conns@, g) {
                    let j = choose|j: int|
                        0 <= j < orig.conns@.len() && (#[trigger] orig.conns@[j]).fd == g;
                    assert(mid.conns@[j].fd == g);
                }
                if conns_have_fd(orig.pending_add@, g) {
                    let j = choose|j: int|
                        0 <= j < orig.pending_add@.len() && (#[trigger] orig.pending_add@[j]).fd
                            == g;
                    assert(mid.conns@[n + j].fd == g);
                }
            }
            assert forall|i: int|
                0 <= i < orig.pending_add@.len() implies !orig.pending_remove@.contains(
                (#[trigger] orig.pending_add@[i]).fd,
            ) by {
                if orig.pending_remove@.contains(orig.pending_add@[i].fd) {
                    assert(conns_have_fd(orig.conns@, orig.pending_add@[i].fd));
                    assert(orig.handlers.contains_fd(orig.pending_add@[i].fd));
                    assert(orig.watch.contains_fd(orig.pending_add@[i].fd));
                    assert(!orig.watch.contains_fd(orig.pending_add@[i].fd));
                }
            }
        }
        removed
    }
}

/// Registration invariant: in every well-formed state — in particular at the
/// start of every waiting phase, since every operation of the core preserves
/// well-formedness — the set of watched descriptors equals the set of
/// descriptors with a registered handler.
pub proof fn lemma_registration_invariant(s: EventLoop, fd: i32)
    requires
        s.wf(),
    ensures
        s.watch_contains(fd) <==> s.handler_contains(fd),
{
}

/// No use after remove: a descriptor gone from the watch set — as every
/// descriptor queued for removal is once the round is reconciled — is never
/// again reported ready, and the handler lookup for it finds nothing, so its
/// handler cannot be invoked in any later round.
pub proof fn lemma_removed_not_dispatchable(s: EventLoop, fd: i32)
    requires
        s.wf(),
        !s.watch_contains(fd),
    ensures
        !ready_seq(s.watch_seq()).contains(fd),
        !s.handler_contains(fd),
{
    if ready_seq(s.watch_seq()).contains(fd) {
        lemma_ready_seq_sub(s.watch_seq(), fd);
    }
}

/// At the start of a waiting phase — both pending queues drained, as
/// `reconcile` leaves them — every registered connection is alive.
pub proof fn lemma_quiescent_connections_alive(s: EventLoop, fd: i32)
    requires
        s.wf(),
        s.pending_remove_seq().len() == 0,
        s.conn_contains(fd),
    ensures
        s.conn_of(fd).alive,
{
    assert(!s.pending_remove@.contains(fd));
}

} // verus!
