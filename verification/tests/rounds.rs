use non_blocking_poll_server::DispatchOutcome;
use non_blocking_poll_server::EventLoop;
use non_blocking_poll_server::Handler;
use non_blocking_poll_server::ReadEvent;
use non_blocking_poll_server::WaitDecision;
use non_blocking_poll_server::WaitOutcome;

fn accept_client(core: &mut EventLoop, fd: i32, peer: &str) {
    core.record_observed(0, true);
    let ready = core.ready_descriptors();
    assert!(ready.contains(&core.listener_fd()));
    assert_eq!(core.role_of(core.listener_fd()), Some(Handler::Acceptor));
    assert!(!core.is_tracked(fd));
    core.on_accepted(fd, String::from(peer));
    core.record_observed(0, false);
}

#[test]
fn new_core_watches_only_the_listener() {
    let core = EventLoop::new(3);
    assert_eq!(core.listener_fd(), 3);
    assert_eq!(core.watch_len(), 1);
    assert_eq!(core.watch_entry(0).fd, 3);
    assert!(core.is_watched(3));
    assert!(!core.is_watched(4));
    assert_eq!(core.role_of(3), Some(Handler::Acceptor));
    assert_eq!(core.role_of(4), None);
}

#[test]
fn accept_then_serve_delivers_hello_once() {
    let mut core = EventLoop::new(3);
    accept_client(&mut core, 7, "10.0.0.1:5000");
    assert!(!core.is_watched(7));
    let removed = core.reconcile();
    assert!(removed.is_empty());
    assert!(core.is_watched(7));
    assert_eq!(core.role_of(7), Some(Handler::Client));

    core.record_observed(1, true);
    let ready = core.ready_descriptors();
    assert_eq!(ready, vec![7]);
    match core.on_read(7, ReadEvent::Line(b"hello\n".to_vec())) {
        DispatchOutcome::Delivered(ev) => {
            assert_eq!(ev.fd, 7);
            assert_eq!(ev.peer, "10.0.0.1:5000");
            assert_eq!(ev.record, b"hello".to_vec());
        }
        DispatchOutcome::Closed => panic!("a record must be delivered, not closed"),
    }
    let removed = core.reconcile();
    assert!(removed.is_empty());
    assert!(core.is_watched(7));
}

#[test]
fn clean_close_removes_within_one_round_without_delivery() {
    let mut core = EventLoop::new(3);
    accept_client(&mut core, 8, "10.0.0.2:6000");
    core.reconcile();
    assert!(core.is_watched(8));

    core.record_observed(1, true);
    let out = core.on_read(8, ReadEvent::Line(Vec::new()));
    assert_eq!(out, DispatchOutcome::Closed);
    let removed = core.reconcile();
    assert_eq!(removed, vec![8]);
    assert!(!core.is_watched(8));
    assert_eq!(core.role_of(8), None);
    assert!(core.is_watched(3));
}

#[test]
fn failed_read_closes_the_connection() {
    let mut core = EventLoop::new(3);
    accept_client(&mut core, 9, "10.0.0.3:7000");
    core.reconcile();
    let out = core.on_read(9, ReadEvent::Failed);
    assert_eq!(out, DispatchOutcome::Closed);
    let removed = core.reconcile();
    assert_eq!(removed, vec![9]);
    assert!(!core.is_watched(9));
}

#[test]
fn two_clients_are_served_independently() {
    let mut core = EventLoop::new(3);
    accept_client(&mut core, 10, "192.168.1.5:4242");
    core.reconcile();
    accept_client(&mut core, 11, "192.168.1.5:4242");
    core.reconcile();
    assert!(core.is_watched(10) && core.is_watched(11));

    core.record_observed(1, true);
    core.record_observed(2, true);
    let ready = core.ready_descriptors();
    assert_eq!(ready, vec![10, 11]);

    match core.on_read(10, ReadEvent::Line(b"from ten\n".to_vec())) {
        DispatchOutcome::Delivered(ev) => {
            assert_eq!(ev.fd, 10);
            assert_eq!(ev.record, b"from ten".to_vec());
        }
        DispatchOutcome::Closed => panic!("client ten must stay open"),
    }
    match core.on_read(11, ReadEvent::Line(b"from eleven\n".to_vec())) {
        DispatchOutcome::Delivered(ev) => {
            assert_eq!(ev.fd, 11);
            assert_eq!(ev.record, b"from eleven".to_vec());
        }
        DispatchOutcome::Closed => panic!("client eleven must stay open"),
    }

    // closing one client leaves the other serviced: even with equal peer
    // strings, correlation goes by descriptor
    let out = core.on_read(10, ReadEvent::Line(Vec::new()));
    assert_eq!(out, DispatchOutcome::Closed);
    let removed = core.reconcile();
    assert_eq!(removed, vec![10]);
    assert!(!core.is_watched(10));
    assert!(core.is_watched(11));
    match core.on_read(11, ReadEvent::Line(b"still here\n".to_vec())) {
        DispatchOutcome::Delivered(ev) => {
            assert_eq!(ev.fd, 11);
            assert_eq!(ev.peer, "192.168.1.5:4242");
            assert_eq!(ev.record, b"still here".to_vec());
        }
        DispatchOutcome::Closed => panic!("client eleven must survive the removal of ten"),
    }
}

#[test]
fn interrupted_wait_retries_and_loses_nothing() {
    let mut core = EventLoop::new(3);
    accept_client(&mut core, 12, "10.1.1.1:1000");
    core.reconcile();
    let before: Vec<i32> = (0..core.watch_len()).map(|i| core.watch_entry(i).fd).collect();

    let d = core.wait_step(WaitOutcome::Interrupted);
    assert_eq!(d, WaitDecision::Retry);

    let after: Vec<i32> = (0..core.watch_len()).map(|i| core.watch_entry(i).fd).collect();
    assert_eq!(before, after);
    assert!(core.is_watched(3) && core.is_watched(12));
}

#[test]
fn wait_outcomes_map_to_their_decisions() {
    let mut core = EventLoop::new(3);
    assert_eq!(core.wait_step(WaitOutcome::Ready(2)), WaitDecision::Dispatch(2));
    assert_eq!(core.wait_step(WaitOutcome::Failed(5)), WaitDecision::Terminate(5));
}

#[test]
fn ready_events_for_unregistered_descriptors_are_dropped() {
    let core = EventLoop::new(3);
    assert_eq!(core.role_of(99), None);
}

#[test]
fn reconcile_registers_accepts_before_next_wait() {
    let mut core = EventLoop::new(3);
    accept_client(&mut core, 5, "10.2.2.2:2000");
    // queued but not yet watched while the round still runs
    assert!(core.is_tracked(5));
    assert!(!core.is_watched(5));
    core.reconcile();
    // registered before the next waiting phase begins
    assert!(core.is_watched(5));
    assert_eq!(core.role_of(5), Some(Handler::Client));
}
