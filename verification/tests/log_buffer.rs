use print_typeset::log_buffer::LogBuffer;

#[test]
fn keeps_only_the_most_recent_entries() {
    let mut b = LogBuffer::new(3);
    assert_eq!(b.latest(), None);
    for i in 1..=5 {
        b.push(i);
    }
    assert_eq!(b.entries(), &vec![3, 4, 5]);
    assert_eq!(b.latest(), Some(&5));
}

#[test]
fn below_the_limit_nothing_is_dropped() {
    let mut b = LogBuffer::new(10);
    b.push("first".to_string());
    b.push("second".to_string());
    assert_eq!(b.entries(), &vec!["first".to_string(), "second".to_string()]);
    assert_eq!(b.latest().map(|s| s.as_str()), Some("second"));
}

#[test]
fn a_zero_limit_keeps_nothing() {
    let mut b = LogBuffer::new(0);
    b.push(1);
    assert!(b.entries().is_empty());
    assert_eq!(b.latest(), None);
}

#[test]
fn clear_forgets_everything_but_keeps_the_limit() {
    let mut b = LogBuffer::new(2);
    b.push(1);
    b.push(2);
    b.clear();
    assert!(b.entries().is_empty());
    b.push(3);
    b.push(4);
    b.push(5);
    assert_eq!(b.entries(), &vec![4, 5]);
}
