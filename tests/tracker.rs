use wordcover::tracker::{report_due, BestTracker, UNBOUNDED};

fn candidate(len: usize) -> Vec<(Vec<u8>, usize)> {
    (0..len).map(|i| (vec![b'a' + (i % 26) as u8], 1)).collect()
}

#[test]
fn tracker_accepts_only_strict_improvements() {
    let mut t = BestTracker::new();
    assert_eq!(t.bound, UNBOUNDED);
    assert_eq!(t.best_len(), None);
    let mut accepted = Vec::new();
    let mut bounds = vec![t.bound];
    for len in [10, 8, 9, 7, 7, 6] {
        let ok = t.offer(candidate(len));
        accepted.push(ok);
        if ok {
            bounds.push(t.bound);
        }
        assert_eq!(t.best_len(), Some(t.bound));
    }
    assert_eq!(accepted, vec![true, true, false, true, false, true]);
    assert_eq!(bounds, vec![UNBOUNDED, 10, 8, 7, 6]);
    assert_eq!(t.best, Some(candidate(6)));
}

#[test]
fn tracker_keeps_the_first_of_equal_lengths() {
    let mut t = BestTracker::new();
    let first = vec![(b"aa".to_vec(), 2), (b"bb".to_vec(), 2)];
    let second = vec![(b"ab".to_vec(), 2), (b"ba".to_vec(), 2)];
    assert!(t.offer(first.clone()));
    assert!(!t.offer(second));
    assert_eq!(t.best, Some(first));
    assert_eq!(t.bound, 2);
}

#[test]
fn progress_is_reported_every_65536_attempts() {
    assert!(report_due(65536));
    assert!(report_due(0));
    assert!(report_due(3 * 65536));
    assert!(!report_due(1));
    assert!(!report_due(65535));
    assert!(!report_due(65537));
}
