use droplet_rs::progress::Progress;

#[test]
fn progress_rises_to_complete() {
    let mut p = Progress::new(3);
    assert!(!p.is_complete());
    let mut last = 0u64;
    for _ in 0..3 {
        p.record();
        let pct = p.received * 100 / p.total;
        assert!(pct >= last);
        last = pct;
    }
    assert_eq!(last, 100);
    assert!(p.is_complete());
}

#[test]
fn progress_with_nothing_to_do_is_complete() {
    assert!(Progress::new(0).is_complete());
}
