use non_blocking_poll_server::Handler;
use non_blocking_poll_server::HandlerTable;
use non_blocking_poll_server::Interest;
use non_blocking_poll_server::WatchSet;
use non_blocking_poll_server::conn::strip_newline;

#[test]
fn strip_newline_removes_one_terminator() {
    assert_eq!(strip_newline(b"hello\n".to_vec()), b"hello".to_vec());
    assert_eq!(strip_newline(b"hello".to_vec()), b"hello".to_vec());
    assert_eq!(strip_newline(b"\n".to_vec()), b"".to_vec());
    assert_eq!(strip_newline(Vec::new()), Vec::<u8>::new());
    assert_eq!(strip_newline(b"a\nb\n".to_vec()), b"a\nb".to_vec());
}

#[test]
fn watch_set_add_remove_keeps_the_rest() {
    let mut w = WatchSet::new();
    w.add(3, Interest::ReadReady);
    w.add(7, Interest::ReadReady);
    w.add(9, Interest::ReadReady);
    assert_eq!(w.len(), 3);
    assert!(w.contains(7));
    w.remove(7);
    assert_eq!(w.len(), 2);
    assert!(!w.contains(7));
    assert!(w.contains(3) && w.contains(9));
    assert_eq!(w.entry_at(0).fd, 3);
    assert_eq!(w.entry_at(1).fd, 9);
}

#[test]
fn ready_fds_follow_observed_flags_in_order() {
    let mut w = WatchSet::new();
    w.add(3, Interest::ReadReady);
    w.add(7, Interest::ReadReady);
    w.add(9, Interest::ReadReady);
    assert_eq!(w.ready_fds(), Vec::<i32>::new());
    w.set_observed(0, true);
    w.set_observed(2, true);
    assert_eq!(w.ready_fds(), vec![3, 9]);
    w.set_observed(0, false);
    assert_eq!(w.ready_fds(), vec![9]);
}

#[test]
fn handler_table_registers_overwrites_and_unregisters() {
    let mut t = HandlerTable::new();
    assert_eq!(t.lookup(3), None);
    t.register(3, Handler::Acceptor);
    t.register(7, Handler::Client);
    assert_eq!(t.lookup(3), Some(Handler::Acceptor));
    assert_eq!(t.lookup(7), Some(Handler::Client));
    t.register(3, Handler::Client);
    assert_eq!(t.lookup(3), Some(Handler::Client));
    t.unregister(7);
    assert_eq!(t.lookup(7), None);
    assert_eq!(t.lookup(3), Some(Handler::Client));
    // deleting a missing entry is a no-op
    t.unregister(99);
    assert_eq!(t.lookup(3), Some(Handler::Client));
}
