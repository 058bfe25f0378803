use multi_status::error::Fault;
use multi_status::producer::Producer;

#[test]
fn producer_frames_each_element() {
    let mut p = Producer::new(3);
    let mut lines = Vec::new();
    for &c in b"{\"version\":1}\n[[{\"full_text\":\"a\"}],[]" {
        if let Some(line) = p.feed(c).unwrap() {
            lines.push(line);
        }
    }
    assert_eq!(
        lines,
        vec![b"3:W3siZnVsbF90ZXh0IjoiYSJ9XQo=\n".to_vec(), b"3:W10K\n".to_vec()]
    );
}

#[test]
fn producer_reports_structural_faults() {
    let mut p = Producer::new(0);
    assert_eq!(p.feed(b']'), Err(Fault::UnmatchedBracket));
    assert_eq!(p.feed(b'['), Ok(None));
    assert_eq!(p.feed(b'}'), Err(Fault::UnmatchedBrace));
}
