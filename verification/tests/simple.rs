use pulse::{Hub, Pulse, Signal, Signals, WaitError};

#[test]
fn wait() {
    let mut hub = Hub::new();
    let (p, t) = Signal::new(&mut hub);
    assert!(p.is_pending(&hub));
    t.pulse(&mut hub);
    assert!(!p.is_pending(&hub));
}

#[test]
fn wake_post() {
    let mut hub = Hub::new();
    let (mut p, t) = Signal::new(&mut hub);
    assert!(p.is_pending(&hub));
    t.pulse(&mut hub);
    assert!(!p.is_pending(&hub));
    p.wait(&mut hub).unwrap();
}

#[test]
#[should_panic]
fn dropped() {
    let mut hub = Hub::new();
    let (mut p, t) = Signal::new(&mut hub);
    t.close(&mut hub);
    p.wait(&mut hub).unwrap();
}

#[test]
fn closed_wait_returns_err() {
    let mut hub = Hub::new();
    let (mut p, t) = Signal::new(&mut hub);
    t.close(&mut hub);
    assert!(!p.is_pending(&hub));
    assert_eq!(p.wait(&mut hub), Err(WaitError));
}

#[test]
fn recycle() {
    let mut hub = Hub::new();
    let (p, t) = Signal::new(&mut hub);
    assert!(p.is_pending(&hub));
    t.pulse(&mut hub);
    assert!(!p.is_pending(&hub));
    let t = p.recycle(&mut hub).unwrap();
    assert!(p.is_pending(&hub));
    t.pulse(&mut hub);
    assert!(!p.is_pending(&hub));
}

#[test]
#[should_panic]
fn recycle_panic() {
    let mut hub = Hub::new();
    let (p, t) = Signal::new(&mut hub);
    let _ = p.recycle(&mut hub).unwrap();
    drop(t);
}

#[test]
fn recycle_while_pending_is_none() {
    let mut hub = Hub::new();
    let (p, _t) = Signal::new(&mut hub);
    assert!(p.recycle(&mut hub).is_none());
}

#[test]
fn clone() {
    let mut hub = Hub::new();
    let (p0, t) = Signal::new(&mut hub);
    let p1 = p0.clone(&mut hub);

    assert!(p0.is_pending(&hub));
    assert!(p1.is_pending(&hub));
    assert_eq!(p0.id(), p1.id());

    t.pulse(&mut hub);

    assert!(!p0.is_pending(&hub));
    assert!(!p1.is_pending(&hub));

    p0.release(&mut hub);
    assert!(!p1.is_pending(&hub));
    p1.release(&mut hub);
}

#[test]
fn clone_recyle() {
    let mut hub = Hub::new();
    let (p0, t) = Signal::new(&mut hub);
    let p1 = p0.clone(&mut hub);

    assert!(p0.is_pending(&hub));
    assert!(p1.is_pending(&hub));
    assert_eq!(p0.id(), p1.id());

    t.pulse(&mut hub);

    assert!(!p0.is_pending(&hub));
    assert!(!p1.is_pending(&hub));
    assert!(p0.recycle(&mut hub).is_none());
    assert!(!p1.is_pending(&hub));
    p0.release(&mut hub);
    assert!(p1.recycle(&mut hub).is_some());
}

#[test]
fn barrier_reuse() {
    let mut hub = Hub::new();
    let (p, t) = Signal::new(&mut hub);
    let first = p.clone(&mut hub);
    let mut barrier = pulse::Barrier::new(vec![first], &mut hub);
    let mut barriers = Vec::new();
    for _ in 0..20 {
        let c = p.clone(&mut hub);
        barriers.push(pulse::Barrier::new(vec![c], &mut hub));
    }

    let mut triggers = Vec::new();
    for mut b in barriers {
        let gate = b.signal(&mut hub);
        assert!(gate.is_pending(&hub));
        b.take(&mut hub);
        triggers.push(gate);
    }

    assert!(p.is_pending(&hub));
    assert!(barrier.signal(&mut hub).is_pending(&hub));
    t.pulse(&mut hub);
    assert!(!p.is_pending(&hub));
    assert!(!barrier.signal(&mut hub).is_pending(&hub));
    for mut gate in triggers {
        // these all error out since their pending-wake trigger was
        // destroyed when the barrier was dismantled
        assert!(gate.wait(&mut hub).is_err());
    }
}

#[test]
fn cast_to_usize() {
    let mut hub = Hub::new();
    let (p, t) = Signal::new(&mut hub);

    assert!(p.is_pending(&hub));
    let us = t.cast_to_usize();
    Pulse::cast_from_usize(us).pulse(&mut hub);
    assert!(!p.is_pending(&hub));
}

#[test]
fn on_complete_after_fire() {
    let mut hub = Hub::new();
    let (p, t) = Signal::new(&mut hub);
    p.on_complete(&mut hub, 7);
    assert!(hub.take_callbacks().is_empty());
    t.pulse(&mut hub);
    assert_eq!(hub.take_callbacks(), vec![7]);
    assert!(hub.take_callbacks().is_empty());
}

#[test]
fn on_complete_already_terminal() {
    let mut hub = Hub::new();
    let (p, t) = Signal::new(&mut hub);
    t.pulse(&mut hub);
    p.on_complete(&mut hub, 9);
    assert_eq!(hub.take_callbacks(), vec![9]);
}

#[test]
fn thread_waiter_token_reported() {
    let mut hub = Hub::new();
    let (p, t) = Signal::new(&mut hub);
    let _nid = p.arm_thread(&mut hub, 42);
    assert!(hub.take_woken().is_empty());
    t.pulse(&mut hub);
    assert_eq!(hub.take_woken(), vec![42]);
}

#[test]
fn disarm_removes_thread_waiter() {
    let mut hub = Hub::new();
    let (p, t) = Signal::new(&mut hub);
    let nid = p.arm_thread(&mut hub, 42);
    p.disarm(&mut hub, nid);
    t.pulse(&mut hub);
    assert!(hub.take_woken().is_empty());
}

#[test]
fn disarm_after_fire_is_noop() {
    let mut hub = Hub::new();
    let (p, t) = Signal::new(&mut hub);
    let nid = p.arm_thread(&mut hub, 42);
    t.pulse(&mut hub);
    p.disarm(&mut hub, nid);
    assert_eq!(hub.take_woken(), vec![42]);
}

#[test]
fn wake_order_most_recent_first() {
    let mut hub = Hub::new();
    let (p, t) = Signal::new(&mut hub);
    let p1 = p.clone(&mut hub);
    let p2 = p.clone(&mut hub);
    p1.on_complete(&mut hub, 1);
    p2.on_complete(&mut hub, 2);
    t.pulse(&mut hub);
    assert_eq!(hub.take_callbacks(), vec![2, 1]);
    p.release(&mut hub);
}
