use multi_status::error::Fault;
use multi_status::wire::{format_priority, frame_message, parse_line, parse_priority, Parsed};

fn round_trip(priority: i32, payload: &[u8]) {
    let line = frame_message(priority, payload);
    assert_eq!(line.last(), Some(&b'\n'));
    assert!(!line[..line.len() - 1].contains(&b'\n'));
    match parse_line(&line) {
        Ok(Parsed::Update { priority: p, payload: b }) => {
            assert_eq!(p, priority);
            assert_eq!(b, payload.to_vec());
        }
        _ => panic!("framed line did not read back"),
    }
}

#[test]
fn frame_is_decimal_colon_base64() {
    assert_eq!(frame_message(3, b"test"), b"3:dGVzdA==\n".to_vec());
    assert_eq!(frame_message(-12, b"[1]\n"), b"-12:WzFdCg==\n".to_vec());
    assert_eq!(frame_message(0, b""), b"0:\n".to_vec());
}

#[test]
fn round_trip_of_payloads() {
    round_trip(0, b"");
    round_trip(5, b"[{\"full_text\":\"a\"}]\n");
    round_trip(-1, b"\n\n\r\n");
    let all: Vec<u8> = (0..=255u8).collect();
    round_trip(i32::MAX, &all);
    round_trip(i32::MIN, &all);
}

#[test]
fn priorities_in_decimal() {
    assert_eq!(format_priority(0), b"0".to_vec());
    assert_eq!(format_priority(42), b"42".to_vec());
    assert_eq!(format_priority(-42), b"-42".to_vec());
    assert_eq!(format_priority(i32::MIN), b"-2147483648".to_vec());
    assert_eq!(format_priority(i32::MAX), b"2147483647".to_vec());
}

#[test]
fn priority_tags_read_like_from_str() {
    assert_eq!(parse_priority(b"7"), Some(7));
    assert_eq!(parse_priority(b"+7"), Some(7));
    assert_eq!(parse_priority(b"-0"), Some(0));
    assert_eq!(parse_priority(b"007"), Some(7));
    assert_eq!(parse_priority(b"-2147483648"), Some(i32::MIN));
    assert_eq!(parse_priority(b"2147483647"), Some(i32::MAX));
    assert_eq!(parse_priority(b"2147483648"), None);
    assert_eq!(parse_priority(b"-2147483649"), None);
    assert_eq!(parse_priority(b"99999999999999999999"), None);
    assert_eq!(parse_priority(b""), None);
    assert_eq!(parse_priority(b"-"), None);
    assert_eq!(parse_priority(b"+"), None);
    assert_eq!(parse_priority(b"abc"), None);
    assert_eq!(parse_priority(b"1 "), None);
    for p in [-1000, -1, 0, 1, 1000, 123456789] {
        assert_eq!(parse_priority(&format_priority(p)), Some(p));
    }
}

#[test]
fn line_splits_at_first_colon() {
    match parse_line(b"4:YTpi") {
        Ok(Parsed::Update { priority, payload }) => {
            assert_eq!(priority, 4);
            assert_eq!(payload, b"a:b".to_vec());
        }
        _ => panic!("expected an update"),
    }
    match parse_line(b"x:y:z\n") {
        Ok(Parsed::BadPriority { tag }) => assert_eq!(tag, b"x".to_vec()),
        _ => panic!("expected a bad tag"),
    }
    assert!(matches!(parse_line(b"4:a:b\n"), Err(Fault::InvalidPayload)));
    assert!(matches!(parse_line(b""), Err(Fault::MissingSeparator)));
}

#[test]
fn fault_messages() {
    assert_eq!(Fault::MissingSeparator.message(), "There is no `:`");
    assert_eq!(Fault::MissingSeparator.to_error().message, "There is no `:`");
}
