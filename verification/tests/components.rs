use mutex_server::notifier::Notifier;
use mutex_server::registry::Registry;
use mutex_server::server::Server;

#[test]
fn registry_acquire_and_release() {
    let mut reg = Registry::new();
    let k = String::from("res");

    assert!(!reg.is_locked(&k));
    assert!(reg.try_acquire(7, &k));
    assert!(reg.is_locked(&k));
    assert_eq!(reg.holder(&k), Some(7));

    // Held by anyone (the same session included) means acquisition fails.
    assert!(!reg.try_acquire(7, &k));
    assert!(!reg.try_acquire(8, &k));

    assert!(reg.release(&k));
    assert!(!reg.is_locked(&k));
    assert_eq!(reg.holder(&k), None);

    // Releasing a free key is a no-op returning false.
    assert!(!reg.release(&k));
}

#[test]
fn registry_keys_are_independent() {
    let mut reg = Registry::new();
    let a = String::from("a");
    let b = String::from("b");

    assert!(reg.try_acquire(1, &a));
    assert!(reg.try_acquire(2, &b));
    assert_eq!(reg.holder(&a), Some(1));
    assert_eq!(reg.holder(&b), Some(2));

    assert!(reg.release(&a));
    assert!(!reg.is_locked(&a));
    assert!(reg.is_locked(&b));
}

#[test]
fn notifier_delivers_in_order() {
    let mut n = Notifier::new(8);
    n.subscribe(1);
    n.subscribe(2);

    n.emit(&String::from("a"));
    n.emit(&String::from("b"));

    assert_eq!(n.poll(1), Some(String::from("a")));
    assert_eq!(n.poll(1), Some(String::from("b")));
    assert_eq!(n.poll(1), None);

    // Each subscriber has an independent queue.
    assert_eq!(n.poll(2), Some(String::from("a")));
    assert_eq!(n.poll(2), Some(String::from("b")));
    assert_eq!(n.poll(2), None);
}

#[test]
fn notifier_drops_oldest_on_overflow() {
    let mut n = Notifier::new(2);
    n.subscribe(1);

    n.emit(&String::from("x"));
    n.emit(&String::from("y"));
    n.emit(&String::from("z"));

    // Capacity 2: the oldest event was dropped, the newest kept.
    assert_eq!(n.poll(1), Some(String::from("y")));
    assert_eq!(n.poll(1), Some(String::from("z")));
    assert_eq!(n.poll(1), None);
}

#[test]
fn notifier_subscription_lifecycle() {
    let mut n = Notifier::new(4);

    // Polling without a subscription yields nothing.
    assert_eq!(n.poll(5), None);

    n.subscribe(5);
    n.subscribe(5);  // second subscribe is a no-op
    n.emit(&String::from("k"));
    assert_eq!(n.poll(5), Some(String::from("k")));
    assert_eq!(n.poll(5), None);

    n.unsubscribe(5);
    n.emit(&String::from("k"));
    assert_eq!(n.poll(5), None);
}

#[test]
fn id_allocator_counts_up_from_one() {
    let mut srv = Server::default();
    assert_eq!(srv.generate_id(), 1);
    assert_eq!(srv.generate_id(), 2);
    assert_eq!(srv.generate_id(), 3);
}

#[test]
fn server_lock_and_release() {
    let mut srv = Server::default();
    let k = String::from("res");

    assert!(srv.lock(1, &k).is_ok());
    // Lock contention is an Err, for anyone, the holder included.
    assert!(srv.lock(1, &k).is_err());
    assert!(srv.lock(2, &k).is_err());
    assert!(srv.is_locked(&k));

    assert!(srv.release(&k));
    assert!(!srv.is_locked(&k));
    assert!(!srv.release(&k));
    assert!(srv.lock(2, &k).is_ok());
}

#[test]
fn server_release_notifies_subscribers() {
    let mut srv = Server::default();
    srv.subscribe(9);

    assert!(srv.lock(1, &String::from("k")).is_ok());
    // No event on acquisition, only on release.
    assert_eq!(srv.poll_event(9), None);

    assert!(srv.release(&String::from("k")));
    assert_eq!(srv.poll_event(9), Some(String::from("k")));
    assert_eq!(srv.poll_event(9), None);

    // A release that removed nothing emits nothing.
    assert!(!srv.release(&String::from("k")));
    assert_eq!(srv.poll_event(9), None);
}
