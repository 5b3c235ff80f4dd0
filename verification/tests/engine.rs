use mutex_server::messages::Command;
use mutex_server::messages::Response;
use mutex_server::server::Server;
use mutex_server::session::LockProgress;
use mutex_server::session::Outcome;
use mutex_server::session::Session;

fn new_session(server: &mut Server) -> Session {
    let id = server.generate_id();
    server.subscribe(id);
    Session::new(id)
}

#[test]
fn exclusivity_one_winner() {
    let mut srv = Server::default();
    let mut s1 = new_session(&mut srv);
    let mut s2 = new_session(&mut srv);
    let mut s3 = new_session(&mut srv);
    let key = String::from("k");

    assert!(s1.lock_attempt(&mut srv, &key));
    assert!(!s2.lock_attempt(&mut srv, &key));
    assert!(!s3.lock_attempt(&mut srv, &key));

    assert!(s1.release(&mut srv, &key));
    let w2 = s2.lock_attempt(&mut srv, &key);
    let w3 = s3.lock_attempt(&mut srv, &key);
    assert!(w2 ^ w3 == true && w2);
    assert!(!w3);
}

#[test]
fn reentrant_lock_is_noop() {
    let mut srv = Server::default();
    let mut s1 = new_session(&mut srv);
    let key = String::from("k");

    assert!(s1.lock_attempt(&mut srv, &key));
    assert!(s1.lock_attempt(&mut srv, &key));
    assert!(s1.lock_attempt(&mut srv, &key));

    // One release frees the key entirely: holding twice never created a
    // second registry entry.
    assert!(s1.release(&mut srv, &key));
    assert!(!srv.is_locked(&key));
    assert!(!s1.release(&mut srv, &key));
}

#[test]
fn release_only_by_holder() {
    let mut srv = Server::default();
    let mut s1 = new_session(&mut srv);
    let mut s2 = new_session(&mut srv);
    let key = String::from("k");

    // A session that never held the key cannot release it.
    assert!(!s2.release(&mut srv, &key));

    // And its attempt leaves another session's entry untouched.
    assert!(s1.lock_attempt(&mut srv, &key));
    assert!(!s2.release(&mut srv, &key));
    assert!(srv.is_locked(&key));
    assert!(!s2.lock_attempt(&mut srv, &key));
}

#[test]
fn leak_free_disconnect() {
    let mut srv = Server::default();
    let mut s1 = new_session(&mut srv);
    let mut s2 = new_session(&mut srv);
    let a = String::from("a");
    let b = String::from("b");

    assert!(s1.lock_attempt(&mut srv, &a));
    assert!(s1.lock_attempt(&mut srv, &b));
    assert!(!s2.lock_attempt(&mut srv, &a));
    assert!(!s2.lock_attempt(&mut srv, &b));

    // Abrupt disconnect: teardown releases everything still held.
    s1.release_all(&mut srv);
    srv.unsubscribe(s1.id());

    assert!(!srv.is_locked(&a));
    assert!(!srv.is_locked(&b));
    assert!(s2.lock_attempt(&mut srv, &a));
    assert!(s2.lock_attempt(&mut srv, &b));
}

#[test]
fn disconnect_notifies_waiters() {
    let mut srv = Server::default();
    let mut s1 = new_session(&mut srv);
    let s2 = new_session(&mut srv);
    let a = String::from("a");
    let b = String::from("b");

    assert!(s1.lock_attempt(&mut srv, &a));
    assert!(s1.lock_attempt(&mut srv, &b));

    // Teardown emits one release event per held key, newest holding first.
    s1.release_all(&mut srv);
    assert_eq!(srv.poll_event(s2.id()), Some(String::from("b")));
    assert_eq!(srv.poll_event(s2.id()), Some(String::from("a")));
    assert_eq!(srv.poll_event(s2.id()), None);
}

#[test]
fn idempotent_release() {
    let mut srv = Server::default();
    let mut s1 = new_session(&mut srv);
    let key = String::from("k");

    assert!(s1.lock_attempt(&mut srv, &key));
    assert!(s1.release(&mut srv, &key));
    assert!(!s1.release(&mut srv, &key));
}

#[test]
fn timeout_steps() {
    let mut srv = Server::default();
    let mut s1 = new_session(&mut srv);
    let mut s2 = new_session(&mut srv);
    let key = String::from("k");

    assert!(s1.lock_attempt(&mut srv, &key));

    // With a 50 ms timeout the wait keeps going until 50 ms have elapsed.
    assert_eq!(s2.lock_wait_step(&mut srv, &key, Some(50), 0), LockProgress::Waiting);
    assert_eq!(s2.lock_wait_step(&mut srv, &key, Some(50), 49), LockProgress::Waiting);
    assert_eq!(s2.lock_wait_step(&mut srv, &key, Some(50), 50), LockProgress::TimedOut);
    assert_eq!(s2.lock_wait_step(&mut srv, &key, Some(50), 51), LockProgress::TimedOut);

    // Without a timeout the wait is unbounded.
    assert_eq!(s2.lock_wait_step(&mut srv, &key, None, 1_000_000), LockProgress::Waiting);
}

#[test]
fn wake_after_release() {
    let mut srv = Server::default();
    let mut s1 = new_session(&mut srv);
    let mut s2 = new_session(&mut srv);
    let key = String::from("k");

    assert!(s1.lock_attempt(&mut srv, &key));
    assert_eq!(s2.lock_wait_step(&mut srv, &key, None, 0), LockProgress::Waiting);

    // A releases; B's subscription carries the event and B's retry wins.
    assert!(s1.release(&mut srv, &key));
    assert_eq!(srv.poll_event(s2.id()), Some(String::from("k")));
    assert_eq!(s2.lock_wait_step(&mut srv, &key, None, 10), LockProgress::Acquired);
    assert!(s2.holds(&key));
}

#[test]
fn lock_contention_scenario() {
    let mut srv = Server::default();
    let mut s1 = new_session(&mut srv);
    let mut s2 = new_session(&mut srv);

    // Session 1: Lock{id:"db", timeout_ms: null} -> success.
    let r = s1.handle_command(
        &mut srv,
        Command::Lock { id: String::from("db"), timeout_ms: None },
    );
    assert_eq!(
        r,
        Outcome::Reply(Response::LockResponse { id: String::from("db"), success: true })
    );

    // Session 2: Lock{id:"db", timeout_ms: 50} -> must wait.
    let r = s2.handle_command(
        &mut srv,
        Command::Lock { id: String::from("db"), timeout_ms: Some(50) },
    );
    assert_eq!(r, Outcome::Wait { key: String::from("db"), timeout_ms: Some(50) });

    // ~50 ms later the wait expires: the transport replies success=false.
    let key = String::from("db");
    assert_eq!(s2.lock_wait_step(&mut srv, &key, Some(50), 52), LockProgress::TimedOut);

    // Session 1 releases -> success.
    let r = s1.handle_command(&mut srv, Command::Release { id: String::from("db") });
    assert_eq!(
        r,
        Outcome::Reply(Response::ReleaseResponse { id: String::from("db"), success: true })
    );

    // Session 2 retries without a timeout -> granted at once.
    let r = s2.handle_command(
        &mut srv,
        Command::Lock { id: String::from("db"), timeout_ms: None },
    );
    assert_eq!(
        r,
        Outcome::Reply(Response::LockResponse { id: String::from("db"), success: true })
    );
}

#[test]
fn check_reports_own_holding() {
    let mut srv = Server::default();
    let mut s1 = new_session(&mut srv);
    let mut s2 = new_session(&mut srv);
    let key = String::from("k");

    assert!(s1.lock_attempt(&mut srv, &key));

    let r = s1.handle_command(&mut srv, Command::Check { id: String::from("k") });
    assert_eq!(
        r,
        Outcome::Reply(Response::CheckResponse { id: String::from("k"), is_locked: true })
    );

    // Check is scoped to the asking session's own held-set.
    let r = s2.handle_command(&mut srv, Command::Check { id: String::from("k") });
    assert_eq!(
        r,
        Outcome::Reply(Response::CheckResponse { id: String::from("k"), is_locked: false })
    );
}
