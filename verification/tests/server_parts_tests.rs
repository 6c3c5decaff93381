use net_test3::fs::{read_len, ResultTable};
use net_test3::http::{parse_header, StatusCode};
use net_test3::reactor::{Direction, PollStep, ReactorTable, Readiness, Wake, READABLE, WRITABLE};
use net_test3::router::{dir_page, static_response, DirEntry, Lookup};
use net_test3::runner::{TaskSet, WakerImpl};
use std::cell::RefCell;
use std::collections::HashSet;
use std::rc::Rc;

#[test]
fn dir_page_lists_entries() {
    let entries = vec![
        DirEntry { path: "/tmp/a".to_owned(), name: "a".to_owned() },
        DirEntry { path: "/tmp/b".to_owned(), name: "b".to_owned() },
    ];
    let r = dir_page("/tmp", &entries);
    assert_eq!(r.status_code(), StatusCode::OK);
    assert_eq!(
        String::from_utf8(r.body().to_vec()).unwrap(),
        "<html><head><title>/tmp</title></head><body><h1>/tmp</h1><ul>\
         <li><a href=\"/tmp/a\">a</a><li><a href=\"/tmp/b\">b</a></ol></body></html>"
    );
    assert_eq!(r.headers().len(), 0);
}

#[test]
fn static_response_for_each_lookup() {
    let req = parse_header(b"GET /srv HTTP/1.1\r\n").unwrap();
    assert_eq!(static_response(&req, Lookup::Missing).body_len(), 0);
    assert_eq!(static_response(&req, Lookup::File(None)).body_len(), 0);
    assert_eq!(static_response(&req, Lookup::Directory(None)).body_len(), 0);
    let r = static_response(&req, Lookup::File(Some(vec![1, 2, 3])));
    assert_eq!(r.body(), &[1, 2, 3]);
    let r = static_response(&req, Lookup::Directory(Some(vec![])));
    assert_eq!(
        String::from_utf8(r.body().to_vec()).unwrap(),
        "<html><head><title>/srv</title></head><body><h1>/srv</h1><ul></ol></body></html>"
    );
}

#[test]
fn readiness_bits() {
    let r = Readiness::readable().union(Readiness::writable());
    assert_eq!(r.bits, READABLE | WRITABLE);
    assert!(r.is_readable() && r.is_writable());
    let w = r.without(Readiness::readable());
    assert!(!w.is_readable() && w.is_writable());
    assert!(Readiness::empty().contains(Readiness::empty()));
    assert!(!Readiness::from_bits(8).is_readable());
}

#[test]
fn reactor_table_tracks_registrations_and_events() {
    let mut t = ReactorTable::new();
    let a = t.register();
    let b = t.register();
    assert_ne!(a, b);
    assert_eq!(t.readiness(a).unwrap().bits, 0);
    assert!(!t.is_ready(a, Direction::Read));
    let w = t.apply_event(a, Readiness::readable());
    assert_eq!(w, Wake { read: true, write: false });
    assert!(t.is_ready(a, Direction::Read));
    assert!(!t.is_ready(a, Direction::Write));
    let w = t.apply_event(a, Readiness::from_bits(WRITABLE | 8));
    assert_eq!(w, Wake { read: false, write: true });
    assert_eq!(t.readiness(a).unwrap().bits, READABLE | WRITABLE | 8);
    t.would_block(a, Direction::Read);
    assert!(!t.is_ready(a, Direction::Read));
    assert!(t.is_ready(a, Direction::Write));
    t.remove_readiness(a, Readiness::writable());
    assert_eq!(t.readiness(a).unwrap().bits, 8);
    t.deregister(a);
    assert!(!t.contains(a));
    assert!(t.readiness(a).is_none());
    assert_eq!(t.apply_event(a, Readiness::readable()), Wake { read: false, write: false });
    assert!(t.contains(b));
    let c = t.register();
    assert!(t.contains(c) && c != b);
}

#[test]
fn task_set_files_under_fresh_keys() {
    let mut s: TaskSet<&str> = TaskSet::new();
    let keys = s.file_spawned(vec!["a", "b"]);
    assert_eq!(keys, vec![0, 1]);
    assert_eq!(s.take(0), Some("a"));
    assert!(!s.contains(0));
    assert_eq!(s.take(0), None);
    let keys = s.file_spawned(vec!["c"]);
    assert_eq!(keys, vec![2]);
    s.put_back(0, "a");
    assert_eq!(s.len(), 3);
    assert!(s.contains(0) && s.contains(1) && s.contains(2));
    s.keys_below_next();
}

#[test]
fn waker_state_names_its_task() {
    let woke = Rc::new(RefCell::new(HashSet::new()));
    let w = WakerImpl::new(7, Rc::clone(&woke));
    assert_eq!(w.key(), 7);
    w.woke().borrow_mut().insert(w.key());
    assert!(woke.borrow().contains(&7));
}

#[test]
fn read_len_is_the_smaller() {
    assert_eq!(read_len(1024, 10), 10);
    assert_eq!(read_len(4, 10), 4);
    assert_eq!(read_len(0, 0), 0);
}

#[test]
fn result_table_take_after_store() {
    let mut t: ResultTable<&str> = ResultTable::new();
    t.store(vec![(1, "x"), (2, "y"), (1, "z")]);
    assert_eq!(t.take(1), Some("z"));
    assert_eq!(t.take(1), None);
    assert_eq!(t.take(2), Some("y"));
    assert_eq!(t.take(3), None);
}

#[test]
fn poll_round_keeps_pending_and_drops_finished() {
    let mut s: TaskSet<u32> = TaskSet::new();
    let keys = s.file_spawned(vec![0, 5, 1]);
    assert_eq!(keys, vec![0, 1, 2]);
    // a task counts down; it finishes when it reaches zero
    let still = s.poll_round(vec![2, 0, 1, 9], |_key, n| if n == 0 { None } else { Some(n - 1) });
    assert_eq!(still, vec![2, 1]);
    assert!(!s.contains(0));
    assert_eq!(s.take(1), Some(4));
    assert_eq!(s.take(2), Some(0));
    let still = s.poll_round(vec![], |_key, n: u32| Some(n));
    assert!(still.is_empty());
}

#[test]
fn poll_steps_attempt_park_and_complete() {
    let mut t = ReactorTable::new();
    let a = t.register();
    assert_eq!(t.begin_poll(a, Direction::Read), PollStep::Park);
    t.apply_event(a, Readiness::readable());
    assert_eq!(t.begin_poll(a, Direction::Read), PollStep::Attempt);
    assert_eq!(t.begin_poll(a, Direction::Write), PollStep::Park);
    assert_eq!(t.end_poll(a, Direction::Read, false), PollStep::Complete);
    assert_eq!(t.begin_poll(a, Direction::Read), PollStep::Attempt);
    assert_eq!(t.end_poll(a, Direction::Read, true), PollStep::Park);
    assert_eq!(t.begin_poll(a, Direction::Read), PollStep::Park);
    assert_eq!(t.readiness(a).map(|r| r.bits), Some(0));
}

#[test]
fn finished_key_is_never_polled_or_filed_again() {
    let mut s: TaskSet<u32> = TaskSet::new();
    assert_eq!(s.file_spawned(vec![0, 3]), vec![0, 1]);
    let still = s.poll_round(vec![0, 1], |_key, n| if n == 0 { None } else { Some(n - 1) });
    assert_eq!(still, vec![1]);
    assert!(!s.contains(0));
    let polled = RefCell::new(Vec::new());
    let still = s.poll_round(vec![0, 1], |key, n| {
        polled.borrow_mut().push(key);
        Some(n)
    });
    assert_eq!(still, vec![1]);
    assert_eq!(polled.into_inner(), vec![1]);
    assert_eq!(s.file_spawned(vec![9]), vec![2]);
    assert!(!s.contains(0));
}
