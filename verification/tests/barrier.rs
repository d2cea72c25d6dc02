use pulse::{Barrier, Hub, Signal, Signals};

#[test]
fn using_vec() {
    let mut hub = Hub::new();
    let mut pulses = Vec::new();
    let mut triggers = Vec::new();
    for _ in 0..8 {
        let (p, t) = Signal::new(&mut hub);
        pulses.push(p);
        triggers.push(t);
    }

    let mut barrier = Barrier::new(pulses, &mut hub);
    let pulse = barrier.signal(&mut hub);

    let last_trigger = triggers.pop().unwrap();
    for t in triggers {
        t.pulse(&mut hub);
        assert!(pulse.is_pending(&hub));
    }

    last_trigger.pulse(&mut hub);
    assert!(!pulse.is_pending(&hub));
}

#[test]
fn empty() {
    let mut hub = Hub::new();
    let mut barrier = Barrier::new(Vec::new(), &mut hub);
    let pulse = barrier.signal(&mut hub);
    assert!(!pulse.is_pending(&hub));
}

#[test]
fn dropped_barrier() {
    let mut hub = Hub::new();
    let mut pulses = Vec::new();
    let mut triggers = Vec::new();
    for _ in 0..8 {
        let (p, t) = Signal::new(&mut hub);
        pulses.push(p);
        triggers.push(t);
    }

    let pulse = {
        let mut barrier = Barrier::new(pulses, &mut hub);
        barrier.signal(&mut hub)
    };

    let last_trigger = triggers.pop().unwrap();
    for t in triggers {
        t.pulse(&mut hub);
        assert!(pulse.is_pending(&hub));
    }

    last_trigger.pulse(&mut hub);
    assert!(!pulse.is_pending(&hub));
}

#[test]
fn barrier_over_already_fired_inputs() {
    let mut hub = Hub::new();
    let (p0, t0) = Signal::new(&mut hub);
    let (p1, t1) = Signal::new(&mut hub);
    t0.pulse(&mut hub);
    t1.pulse(&mut hub);
    let mut barrier = Barrier::new(vec![p0, p1], &mut hub);
    let gate = barrier.signal(&mut hub);
    assert!(!gate.is_pending(&hub));
}

#[test]
fn barrier_take_returns_inputs() {
    let mut hub = Hub::new();
    let (p0, t0) = Signal::new(&mut hub);
    let (p1, _t1) = Signal::new(&mut hub);
    let id0 = p0.id();
    let id1 = p1.id();
    let barrier = Barrier::new(vec![p0, p1], &mut hub);
    let back = barrier.take(&mut hub);
    assert_eq!(back.len(), 2);
    assert_eq!(back[0].id(), id0);
    assert_eq!(back[1].id(), id1);
    t0.pulse(&mut hub);
    assert!(!back[0].is_pending(&hub));
    assert!(back[1].is_pending(&hub));
}

#[test]
fn barrier_counts_closes_as_terminal() {
    let mut hub = Hub::new();
    let (p0, t0) = Signal::new(&mut hub);
    let (p1, t1) = Signal::new(&mut hub);
    let mut barrier = Barrier::new(vec![p0, p1], &mut hub);
    let gate = barrier.signal(&mut hub);
    t0.close(&mut hub);
    assert!(gate.is_pending(&hub));
    t1.pulse(&mut hub);
    assert!(!gate.is_pending(&hub));
}

#[test]
fn barrier_signal_twice_independent_gates() {
    let mut hub = Hub::new();
    let (p, t) = Signal::new(&mut hub);
    let mut barrier = Barrier::new(vec![p], &mut hub);
    let mut first = barrier.signal(&mut hub);
    let mut second = barrier.signal(&mut hub);
    // each call yields an independent gate with the same eventual outcome
    assert!(first.is_pending(&hub));
    assert!(second.is_pending(&hub));
    t.pulse(&mut hub);
    assert!(!first.is_pending(&hub));
    assert!(!second.is_pending(&hub));
    assert!(first.wait(&mut hub).is_ok());
    assert!(second.wait(&mut hub).is_ok());
}

#[test]
fn barrier_take_closes_all_gates() {
    let mut hub = Hub::new();
    let (p, t) = Signal::new(&mut hub);
    let mut barrier = Barrier::new(vec![p], &mut hub);
    let mut first = barrier.signal(&mut hub);
    let mut second = barrier.signal(&mut hub);
    let back = barrier.take(&mut hub);
    // dismantling drops every stored gate trigger unfired
    assert!(first.wait(&mut hub).is_err());
    assert!(second.wait(&mut hub).is_err());
    t.pulse(&mut hub);
    assert!(!back[0].is_pending(&hub));
}
