use wordcover::coverage::Coverage;

#[test]
fn score_counts_open_positions() {
    let mut c = Coverage::new(5, 26);
    let w = b"crane".to_vec();
    assert_eq!(c.score(&w), 5);
    c.mark(&w);
    assert_eq!(c.score(&w), 0);
    assert_eq!(c.score(&b"crate".to_vec()), 1);
    assert_eq!(c.score(&b"slate".to_vec()), 3);
    assert_eq!(c.score(&b"slate".to_vec()), c.score(&b"slate".to_vec()));
    assert!(c.is_covered(0, b'c'));
    assert!(!c.is_covered(1, b'c'));
    assert!(!c.is_full());
}

#[test]
fn repeated_letters_count_once_per_position() {
    let mut c = Coverage::new(3, 26);
    c.mark(&b"aaa".to_vec());
    assert_eq!(c.score(&b"aba".to_vec()), 1);
    assert_eq!(c.score(&b"bbb".to_vec()), 3);
}

#[test]
fn full_grid_is_detected() {
    let mut c = Coverage::new(2, 2);
    assert!(!c.is_full());
    c.mark(&b"ab".to_vec());
    assert!(!c.is_full());
    c.mark(&b"ba".to_vec());
    assert!(c.is_full());
    assert!(Coverage::new(0, 26).is_full());
}
