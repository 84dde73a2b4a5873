use cheats::reader::Reader;
use cheats::reader::ReaderEvent;

fn lines(n: usize) -> Vec<ReaderEvent> {
    (0..n).map(|i| ReaderEvent::Line(format!("line {}", i))).collect()
}

#[test]
fn full_batch_flushes_once_with_all_records() {
    let mut r = Reader::new();
    let flushes = r.run(lines(100));
    assert_eq!(flushes.len(), 1);
    assert_eq!(flushes[0].len(), 100);
    assert_eq!(flushes[0][0], "line 0");
    assert_eq!(flushes[0][99], "line 99");
}

#[test]
fn debounce_flushes_a_partial_batch_once() {
    let mut r = Reader::new();
    let mut evs = lines(3);
    evs.push(ReaderEvent::TimedOut);
    let flushes = r.run(evs);
    assert_eq!(flushes.len(), 1);
    assert_eq!(flushes[0], vec!["line 0", "line 1", "line 2"]);
}

#[test]
fn timeout_with_nothing_pending_flushes_nothing() {
    let mut r = Reader::new();
    let flushes = r.run(vec![ReaderEvent::TimedOut, ReaderEvent::TimedOut]);
    assert!(flushes.is_empty());
}

#[test]
fn closure_flushes_the_rest_and_stops() {
    let mut r = Reader::new();
    let mut evs = lines(2);
    evs.push(ReaderEvent::Closed);
    evs.push(ReaderEvent::Line("after".to_string()));
    let flushes = r.run(evs);
    assert_eq!(flushes.len(), 1);
    assert_eq!(flushes[0], vec!["line 0", "line 1"]);
}

#[test]
fn snapshots_accumulate_rather_than_reset() {
    let mut r = Reader::new();
    let evs = vec![
        ReaderEvent::Line("a".to_string()),
        ReaderEvent::TimedOut,
        ReaderEvent::Line("b".to_string()),
        ReaderEvent::TimedOut,
    ];
    let flushes = r.run(evs);
    assert_eq!(flushes.len(), 2);
    assert_eq!(flushes[0], vec!["a"]);
    assert_eq!(flushes[1], vec!["a", "b"]);
}

#[test]
fn handle_reports_the_stop_signal() {
    let mut r = Reader::new();
    let (flush, done) = r.handle(ReaderEvent::Line("x".to_string()));
    assert!(flush.is_none());
    assert!(!done);
    let (flush, done) = r.handle(ReaderEvent::Closed);
    assert_eq!(flush.unwrap(), vec!["x"]);
    assert!(done);
}
