use package_parser::backlog::Backlog;

#[test]
fn a_new_backlog_holds_nothing() {
    let mut backlog = Backlog::new();
    assert_eq!(backlog.pop_front(), None);
    assert_eq!(backlog.pop_front(), None);
}

#[test]
fn delivered_bytes_are_handed_out_oldest_first() {
    let mut backlog = Backlog::new();
    assert!(backlog.refill(&[7, 8, 9]));
    assert_eq!(backlog.pop_front(), Some(7));
    assert_eq!(backlog.pop_front(), Some(8));
    assert_eq!(backlog.pop_front(), Some(9));
    assert_eq!(backlog.pop_front(), None);
}

#[test]
fn a_read_that_delivered_nothing_changes_nothing() {
    let mut backlog = Backlog::new();
    assert!(!backlog.refill(&[]));
    assert_eq!(backlog.pop_front(), None);
    assert!(backlog.refill(&[1, 2]));
    assert!(!backlog.refill(&[]));
    assert_eq!(backlog.pop_front(), Some(1));
    assert_eq!(backlog.pop_front(), Some(2));
    assert_eq!(backlog.pop_front(), None);
}

#[test]
fn delivered_bytes_take_the_place_of_those_that_waited() {
    let mut backlog = Backlog::new();
    assert!(backlog.refill(&[1, 2, 3]));
    assert_eq!(backlog.pop_front(), Some(1));
    assert!(backlog.refill(&[4]));
    assert_eq!(backlog.pop_front(), Some(4));
    assert_eq!(backlog.pop_front(), None);
}
