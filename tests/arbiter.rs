use multi_status::arbiter::{stream_header, Arbiter, Outcome};
use multi_status::error::Fault;

const SECOND: u64 = 1_000_000_000;

#[test]
fn header_opens_the_array() {
    assert_eq!(stream_header(), b"{\"version\":1}\n[\n".to_vec());
}

#[test]
fn first_update_is_accepted_whatever_its_priority() {
    let mut a = Arbiter::new(2 * SECOND, 0);
    assert_eq!(a.offer(-7, b"x", 0), Some(b"x".to_vec()));
    assert_eq!(a.last_priority, Some(-7));
}

#[test]
fn lower_priority_within_window_is_rejected() {
    let mut a = Arbiter::new(2 * SECOND, 0);
    assert_eq!(a.offer(5, b"five", 0), Some(b"five".to_vec()));
    assert_eq!(a.offer(2, b"two", SECOND / 10), None);
    assert_eq!(a.last_priority, Some(5));
    assert_eq!(a.last_at, 0);
}

#[test]
fn lower_priority_after_silence_is_accepted() {
    let mut a = Arbiter::new(2 * SECOND, 0);
    assert_eq!(a.offer(5, b"five", 0), Some(b"five".to_vec()));
    assert_eq!(a.offer(2, b"two", 5 * SECOND / 2), Some(b",two".to_vec()));
    assert_eq!(a.last_priority, Some(2));
    assert_eq!(a.last_at, 5 * SECOND / 2);
}

#[test]
fn highest_priority_wins_until_window_elapses() {
    let mut a = Arbiter::new(2 * SECOND, 0);
    assert!(a.offer(1, b"one", 0).is_some());
    assert!(a.offer(3, b"three", SECOND / 10).is_some());
    assert_eq!(a.offer(2, b"two", SECOND / 5), None);
    assert_eq!(a.last_priority, Some(3));
    let t = SECOND / 10 + 5 * SECOND / 2;
    assert_eq!(a.offer(2, b"two", t), Some(b",two".to_vec()));
    assert_eq!(a.last_priority, Some(2));
    assert_eq!(a.offer(1, b"one", t + SECOND), None);
    assert_eq!(a.offer(2, b"again", t + SECOND), Some(b",again".to_vec()));
}

#[test]
fn equal_priority_always_wins() {
    let mut a = Arbiter::new(2 * SECOND, 0);
    assert!(a.offer(4, b"a", 0).is_some());
    assert_eq!(a.offer(4, b"b", 1), Some(b",b".to_vec()));
}

#[test]
fn exact_timeout_is_not_stale() {
    let mut a = Arbiter::new(2 * SECOND, 0);
    assert!(a.offer(5, b"a", 0).is_some());
    assert_eq!(a.offer(1, b"b", 2 * SECOND), None);
    assert!(a.offer(1, b"b", 2 * SECOND + 1).is_some());
}

#[test]
fn malformed_tag_is_dropped_without_harm() {
    let mut a = Arbiter::new(2 * SECOND, 0);
    match a.handle_line(b"abc:dGVzdA==\n", 0) {
        Ok(Outcome::Dropped { tag }) => assert_eq!(tag, b"abc".to_vec()),
        _ => panic!("expected the line to be dropped"),
    }
    assert_eq!(a.last_priority, None);
    assert!(!a.printed);
    match a.handle_line(b"1:dGVzdA==\n", 1) {
        Ok(Outcome::Emit(out)) => assert_eq!(out, b"test".to_vec()),
        _ => panic!("expected the update to be accepted"),
    }
    match a.handle_line(b"1:dGVzdDI=\n", 2) {
        Ok(Outcome::Emit(out)) => assert_eq!(out, b",test2".to_vec()),
        _ => panic!("expected the update to be accepted"),
    }
}

#[test]
fn handle_line_rejects_by_priority() {
    let mut a = Arbiter::new(2 * SECOND, 0);
    assert!(matches!(a.handle_line(b"5:YQ==\n", 0), Ok(Outcome::Emit(_))));
    assert!(matches!(a.handle_line(b"2:Yg==\n", SECOND / 10), Ok(Outcome::Rejected)));
    assert_eq!(a.last_priority, Some(5));
}

#[test]
fn line_without_separator_is_a_fault() {
    let mut a = Arbiter::new(2 * SECOND, 0);
    assert!(matches!(a.handle_line(b"5dGVzdA==\n", 0), Err(Fault::MissingSeparator)));
    assert!(matches!(a.handle_line(b"\n", 0), Err(Fault::MissingSeparator)));
}

#[test]
fn bad_payload_is_a_fault() {
    let mut a = Arbiter::new(2 * SECOND, 0);
    assert!(matches!(a.handle_line(b"5:dGVzdA=\n", 0), Err(Fault::InvalidPayload)));
    assert!(matches!(a.handle_line(b"5:!!!!\n", 0), Err(Fault::InvalidPayload)));
    assert_eq!(a.last_priority, None);
}
