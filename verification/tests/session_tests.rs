use quiz_engine::session::Session;

#[test]
fn clean_pass_finishes() {
    let mut s = Session::new(vec![1, 2, 3]);
    assert_eq!(s.pass_len(), 3);
    for _ in 0..3 {
        assert!(s.current().is_some());
        s.record_answer(true);
    }
    assert!(s.current().is_none());
    assert!(s.advance_pass());
}

#[test]
fn misses_are_requeued_until_clean() {
    let mut s = Session::new(vec![10, 20, 30, 40]);
    // first pass: miss exactly two items
    let mut missed = Vec::new();
    for _ in 0..4 {
        let id = s.current().unwrap();
        let correct = id != 20 && id != 40;
        if !correct {
            missed.push(id);
        }
        s.record_answer(correct);
    }
    assert_eq!(s.miss_count(), 2);
    assert!(!s.advance_pass());
    // second pass holds exactly the missed items, reshuffled
    assert_eq!(s.pass_len(), 2);
    let mut second: Vec<i64> = Vec::new();
    while let Some(id) = s.current() {
        second.push(id);
        s.record_answer(true);
    }
    second.sort();
    missed.sort();
    assert_eq!(second, missed);
    assert!(s.advance_pass());
}

#[test]
fn a_pass_presents_every_item_once() {
    let items = vec![5, 6, 7, 8, 9];
    let mut s = Session::new(items.clone());
    let mut seen = Vec::new();
    while let Some(id) = s.current() {
        seen.push(id);
        s.record_answer(true);
    }
    seen.sort();
    assert_eq!(seen, items);
}

#[test]
fn progress_counters_track_the_pass() {
    let mut s = Session::new(vec![1, 2]);
    assert_eq!(s.answered(), 0);
    s.record_answer(false);
    assert_eq!(s.answered(), 1);
    assert_eq!(s.miss_count(), 1);
    s.record_answer(true);
    assert_eq!(s.answered(), 2);
    assert_eq!(s.miss_count(), 1);
}

#[test]
fn empty_session_finishes_immediately() {
    let mut s = Session::new(Vec::new());
    assert!(s.current().is_none());
    assert!(s.advance_pass());
}
