use multi_status::error::Fault;
use multi_status::extractor::Extractor;

fn run(input: &[u8]) -> (Vec<Vec<u8>>, Option<Fault>) {
    let mut ex = Extractor::new();
    let mut out = Vec::new();
    for &c in input {
        match ex.feed(c) {
            Ok(Some(p)) => out.push(p),
            Ok(None) => {}
            Err(f) => return (out, Some(f)),
        }
    }
    (out, None)
}

#[test]
fn one_payload_per_element() {
    let input = b"{\"version\":1}\n[[{\"full_text\":\"a\"}],[{\"full_text\":\"b\"}]";
    let (out, fault) = run(input);
    assert_eq!(fault, None);
    assert_eq!(
        out,
        vec![b"[{\"full_text\":\"a\"}]\n".to_vec(), b"[{\"full_text\":\"b\"}]\n".to_vec()]
    );
}

#[test]
fn header_and_outer_bracket_are_dropped() {
    let (out, _) = run(b"{\"version\":1}\n[[]");
    assert_eq!(out, vec![b"[]\n".to_vec()]);
}

#[test]
fn whitespace_after_separator_stays() {
    let (out, _) = run(b"{\"version\":1}\n[\n[1]\n,\n[2]");
    assert_eq!(out, vec![b"\n[1]\n".to_vec(), b"\n[2]\n".to_vec()]);
}

#[test]
fn structure_inside_strings_is_ignored() {
    let input = b"[[{\"full_text\":\"],[{\\\"x\\\\\"}]";
    let (out, fault) = run(input);
    assert_eq!(fault, None);
    assert_eq!(out, vec![b"[{\"full_text\":\"],[{\\\"x\\\\\"}]\n".to_vec()]);
}

#[test]
fn inner_commas_are_kept() {
    let (out, _) = run(b"[[1,2],[3,{\"a\":[4,5]}]");
    assert_eq!(out, vec![b"[1,2]\n".to_vec(), b"[3,{\"a\":[4,5]}]\n".to_vec()]);
}

#[test]
fn unmatched_closers_are_faults() {
    assert_eq!(run(b"}").1, Some(Fault::UnmatchedBrace));
    assert_eq!(run(b"[}").1, Some(Fault::UnmatchedBrace));
    assert_eq!(run(b"]").1, Some(Fault::UnmatchedBracket));
    assert_eq!(run(b"{]").1, Some(Fault::UnmatchedBracket));
}

#[test]
fn backslash_outside_string_is_plain() {
    let (out, fault) = run(b"[[\\]");
    assert_eq!(fault, None);
    assert_eq!(out, vec![b"[\\]\n".to_vec()]);
}

#[test]
fn fault_leaves_state_unchanged() {
    let mut ex = Extractor::new();
    assert!(ex.feed(b'[').is_ok());
    assert_eq!(ex.feed(b'}'), Err(Fault::UnmatchedBrace));
    assert_eq!(ex.feed(b'['), Ok(None));
    assert_eq!(ex.feed(b']'), Ok(Some(b"[]\n".to_vec())));
}

#[test]
fn payloads_carry_no_artifacts() {
    let input = b"{\"version\":1}\n[[{\"t\":\"a,\\\"]\"}] , [{\"t\":\"}{\"}],[[[]]],[\"\\\\\"]";
    let (out, fault) = run(input);
    assert_eq!(fault, None);
    assert_eq!(out.len(), 4);
    for p in &out {
        assert_ne!(p[0], b',');
        assert!(p.ends_with(b"]\n"));
    }
    assert_eq!(out[1], b" [{\"t\":\"}{\"}]\n".to_vec());
    assert_eq!(out[3], b"[\"\\\\\"]\n".to_vec());
}
