use pulse::{Hub, Select, SelectMap, Signal, Signals};

#[test]
fn select_one() {
    let mut hub = Hub::new();
    let (p, t) = Signal::new(&mut hub);
    let mut select = Select::new(&mut hub);
    let id = select.add(p, &mut hub);
    t.pulse(&mut hub);
    let p = select.next(&mut hub).unwrap();
    assert_eq!(id, p.id());
}

#[test]
fn select_three() {
    let mut hub = Hub::new();
    let (p0, t0) = Signal::new(&mut hub);
    let (p1, t1) = Signal::new(&mut hub);
    let (p2, t2) = Signal::new(&mut hub);

    let mut select = Select::new(&mut hub);
    let id0 = select.add(p0, &mut hub);
    let id1 = select.add(p1, &mut hub);
    let id2 = select.add(p2, &mut hub);

    t0.pulse(&mut hub);
    let p = select.next(&mut hub).unwrap();
    assert_eq!(id0, p.id());

    t1.pulse(&mut hub);
    let p = select.next(&mut hub).unwrap();
    assert_eq!(id1, p.id());

    t2.pulse(&mut hub);
    let p = select.next(&mut hub).unwrap();
    assert_eq!(id2, p.id());

    let p = select.next(&mut hub);
    assert!(p.is_none());
}

#[test]
fn select_already_pulsed() {
    let mut hub = Hub::new();
    let (p0, t0) = Signal::new(&mut hub);
    t0.pulse(&mut hub);

    let mut select = Select::new(&mut hub);
    let id0 = select.add(p0, &mut hub);

    let p = select.next(&mut hub).unwrap();
    assert_eq!(id0, p.id());
    let p = select.next(&mut hub);
    assert!(p.is_none());
}

#[test]
fn select_fire_order() {
    let mut hub = Hub::new();
    let (pa, ta) = Signal::new(&mut hub);
    let (pb, tb) = Signal::new(&mut hub);
    let (pc, tc) = Signal::new(&mut hub);

    let mut select = Select::new(&mut hub);
    let ida = select.add(pa, &mut hub);
    let idb = select.add(pb, &mut hub);
    let idc = select.add(pc, &mut hub);

    tb.pulse(&mut hub);
    ta.pulse(&mut hub);
    tc.pulse(&mut hub);

    assert_eq!(idb, select.next(&mut hub).unwrap().id());
    assert_eq!(ida, select.next(&mut hub).unwrap().id());
    assert_eq!(idc, select.next(&mut hub).unwrap().id());
    assert!(select.next(&mut hub).is_none());
}

#[test]
fn select_try_next_nonblocking() {
    let mut hub = Hub::new();
    let (p, t) = Signal::new(&mut hub);
    let mut select = Select::new(&mut hub);
    let id = select.add(p, &mut hub);
    assert!(select.try_next(&mut hub).is_none());
    assert_eq!(select.len(), 1);
    t.pulse(&mut hub);
    assert_eq!(id, select.try_next(&mut hub).unwrap().id());
    assert!(select.try_next(&mut hub).is_none());
    assert_eq!(select.len(), 0);
}

#[test]
fn select_remove() {
    let mut hub = Hub::new();
    let (p, t) = Signal::new(&mut hub);
    let mut select = Select::new(&mut hub);
    let id = select.add(p, &mut hub);
    assert!(select.remove(id + 1, &mut hub).is_none());
    let back = select.remove(id, &mut hub).unwrap();
    assert_eq!(back.id(), id);
    assert_eq!(select.len(), 0);
    t.pulse(&mut hub);
    assert!(!back.is_pending(&hub));
}

#[test]
fn select_into_barrier() {
    let mut hub = Hub::new();
    let (p0, t0) = Signal::new(&mut hub);
    let (p1, t1) = Signal::new(&mut hub);
    let (p2, t2) = Signal::new(&mut hub);

    let mut select = Select::new(&mut hub);
    select.add(p0, &mut hub);
    select.add(p1, &mut hub);
    select.add(p2, &mut hub);

    let mut barrier = select.into_barrier(&mut hub);
    let gate = barrier.signal(&mut hub);
    t0.pulse(&mut hub);
    assert!(gate.is_pending(&hub));
    t1.pulse(&mut hub);
    assert!(gate.is_pending(&hub));
    t2.pulse(&mut hub);
    assert!(!gate.is_pending(&hub));
}

#[test]
fn barrier_gate_into_select() {
    let mut hub = Hub::new();
    let (p, t) = Signal::new(&mut hub);
    let mut barrier = pulse::Barrier::new(vec![p], &mut hub);
    let gate = barrier.signal(&mut hub);
    let gate_id = gate.id();

    let mut select = Select::new(&mut hub);
    select.add(gate, &mut hub);
    assert!(select.try_next(&mut hub).is_none());

    t.pulse(&mut hub);
    let ready = select.try_next(&mut hub).unwrap();
    assert_eq!(gate_id, ready.id());
    assert!(!ready.is_pending(&hub));
}

#[test]
fn select_map_values() {
    let mut hub = Hub::new();
    let (p0, t0) = Signal::new(&mut hub);
    let (p1, t1) = Signal::new(&mut hub);

    let mut map: SelectMap<&str> = SelectMap::new(&mut hub);
    map.add(p0, "first", &mut hub);
    map.add(p1, "second", &mut hub);
    assert_eq!(map.len(), 2);

    assert!(map.try_next(&mut hub).is_none());
    t1.pulse(&mut hub);
    let (s, v) = map.try_next(&mut hub).unwrap();
    assert_eq!(v, "second");
    assert!(!s.is_pending(&hub));
    assert_eq!(map.len(), 1);

    t0.pulse(&mut hub);
    let (_, v) = map.next(&mut hub).unwrap();
    assert_eq!(v, "first");
    assert!(map.next(&mut hub).is_none());
}

#[test]
fn select_signal_fires_when_ready() {
    let mut hub = Hub::new();
    let (p, t) = Signal::new(&mut hub);
    let mut select = Select::new(&mut hub);
    select.add(p, &mut hub);
    t.pulse(&mut hub);
    let mut gate = select.signal(&mut hub);
    assert!(!gate.is_pending(&hub));
    assert!(gate.wait(&mut hub).is_ok());
}

#[test]
fn select_signal_pends_until_ready() {
    let mut hub = Hub::new();
    let (p, t) = Signal::new(&mut hub);
    let mut select = Select::new(&mut hub);
    select.add(p, &mut hub);
    let gate = select.signal(&mut hub);
    assert!(gate.is_pending(&hub));
    t.pulse(&mut hub);
    assert!(!gate.is_pending(&hub));
}
