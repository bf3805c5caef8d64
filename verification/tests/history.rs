use btemp::history::{History, RingBuffer};

#[test]
fn ring_drops_oldest() {
    let mut r = RingBuffer::new(3);
    r.push(1.0);
    r.push(2.0);
    r.push(3.0);
    r.push(4.0);
    assert_eq!(r.as_slice(), vec![2.0, 3.0, 4.0]);
}

#[test]
fn history_per_id() {
    let mut h = History::new(10);
    h.record("a", 40.0);
    h.record("a", 41.0);
    h.record("b", 30.0);
    assert_eq!(h.buffer("a").unwrap().as_slice(), vec![40.0, 41.0]);
}

#[test]
fn ring_capacity_zero_keeps_one() {
    let mut r = RingBuffer::new(0);
    assert_eq!(r.last(), None);
    r.push(5);
    r.push(6);
    assert_eq!(r.as_slice(), vec![6]);
    assert_eq!(r.last(), Some(6));
}

#[test]
fn ring_keeps_newest_window() {
    let mut r = RingBuffer::new(4);
    for v in 0..10 {
        r.push(v);
    }
    assert_eq!(r.as_slice(), vec![6, 7, 8, 9]);
    assert_eq!(r.last(), Some(9));
}

#[test]
fn history_read_after_write_and_isolation() {
    let mut h: History<f64> = History::new(2);
    assert!(h.buffer("x").is_none());
    h.ensure_series("x");
    assert_eq!(h.buffer("x").unwrap().as_slice(), Vec::<f64>::new());
    h.record("x", 1.5);
    h.record("y", 7.0);
    h.record("x", 2.5);
    h.record("x", 3.5);
    assert_eq!(h.buffer("x").unwrap().last(), Some(3.5));
    assert_eq!(h.buffer("x").unwrap().as_slice(), vec![2.5, 3.5]);
    assert_eq!(h.buffer("y").unwrap().as_slice(), vec![7.0]);
    h.ensure_series("y");
    assert_eq!(h.buffer("y").unwrap().as_slice(), vec![7.0]);
}
