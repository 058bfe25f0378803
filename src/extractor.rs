use crate::error::Fault;
use vstd::prelude::*;

verus! {

/// A structural token that is open in the input stream.
#[derive(Debug, Clone, Copy, PartialEq, Eq, Structural)]
pub enum Token {
    Object,
    Array,
}

/// What an extractor holds: the open tokens, whether the input is inside a
/// string, whether the previous byte was a backslash inside one, and the bytes
/// buffered for the current payload.
pub struct ExtractorView {
    pub stack: Seq<Token>,
    pub in_string: bool,
    pub escaped: bool,
    pub buffer: Seq<u8>,
}

/// The escape flag is only ever set inside a string.
pub open spec fn valid(s: ExtractorView) -> bool {
    s.escaped ==> s.in_string
}

/// The state before any byte has been read.
pub open spec fn initial_view() -> ExtractorView {
    ExtractorView { stack: seq![], in_string: false, escaped: false, buffer: seq![] }
}

/// The state in which one element of the outermost array has been completed
/// and the next has not begun.
pub open spec fn between_elements() -> ExtractorView {
    ExtractorView { stack: seq![Token::Array], in_string: false, escaped: false, buffer: seq![] }
}

/// One byte of input: the next state and the payload it completes, or `None`
/// where the byte closes a token that is not open.
pub open spec fn step(s: ExtractorView, c: u8) -> Option<(ExtractorView, Option<Seq<u8>>)> {
    let kept = s.buffer.push(c);
    if s.in_string {
        if s.escaped {
            Some((ExtractorView { stack: s.stack, in_string: true, escaped: false, buffer: kept }, None))
        } else if c == 0x5c {
            Some((ExtractorView { stack: s.stack, in_string: true, escaped: true, buffer: kept }, None))
        } else if c == 0x22 {
            Some((ExtractorView { stack: s.stack, in_string: false, escaped: false, buffer: kept }, None))
        } else {
            Some((ExtractorView { stack: s.stack, in_string: true, escaped: false, buffer: kept }, None))
        }
    } else if c == 0x22 {
        Some((ExtractorView { stack: s.stack, in_string: true, escaped: false, buffer: kept }, None))
    } else if c == 0x2c {
        let buffer = if s.stack == seq![Token::Array] { seq![] } else { kept };
        Some((ExtractorView { stack: s.stack, in_string: false, escaped: false, buffer }, None))
    } else if c == 0x7b {
        let stack = s.stack.push(Token::Object);
        Some((ExtractorView { stack, in_string: false, escaped: false, buffer: kept }, None))
    } else if c == 0x7d {
        if s.stack.len() > 0 && s.stack.last() == Token::Object {
            let stack = s.stack.drop_last();
            let buffer = if stack.len() == 0 { seq![] } else { kept };
            Some((ExtractorView { stack, in_string: false, escaped: false, buffer }, None))
        } else {
            None
        }
    } else if c == 0x5b {
        let stack = s.stack.push(Token::Array);
        let buffer = if s.stack.len() == 0 { seq![] } else { kept };
        Some((ExtractorView { stack, in_string: false, escaped: false, buffer }, None))
    } else if c == 0x5d {
        if s.stack.len() > 0 && s.stack.last() == Token::Array {
            let stack = s.stack.drop_last();
            if stack == seq![Token::Array] {
                Some(
                    (
                        ExtractorView { stack, in_string: false, escaped: false, buffer: seq![] },
                        Some(kept.push(0x0a)),
                    ),
                )
            } else {
                Some((ExtractorView { stack, in_string: false, escaped: false, buffer: kept }, None))
            }
        } else {
            None
        }
    } else {
        Some((ExtractorView { stack: s.stack, in_string: false, escaped: false, buffer: kept }, None))
    }
}

/// The state after a sequence of bytes and the payloads they complete, in
/// order; `None` where one of them is refused.
pub open spec fn run(s: ExtractorView, input: Seq<u8>) -> Option<(ExtractorView, Seq<Seq<u8>>)>
    decreases input.len(),
{
    if input.len() == 0 {
        Some((s, seq![]))
    } else {
        match run(s, input.drop_last()) {
            None => None,
            Some((mid, outs)) => match step(mid, input.last()) {
                None => None,
                Some((next, out)) => Some(
                    (
                        next,
                        match out {
                            Some(p) => outs.push(p),
                            None => outs,
                        },
                    ),
                ),
            },
        }
    }
}

/// `e` is one complete array as the stream's structure reads it: it opens
/// with `[`, that bracket stays open until the last byte closes it, nothing in
/// between closes a token that is not open, and no string is left open.
pub open spec fn is_element(e: Seq<u8>) -> bool {
    &&& e.len() > 0
    &&& e[0] == 0x5b
    &&& forall|k: int|
        0 < k < e.len() ==> (#[trigger] run(between_elements(), e.subrange(0, k)) matches Some(
            (mid, _),
        ) && mid.stack.len() >= 2)
    &&& run(between_elements(), e) matches Some((last, _)) && last.stack == seq![Token::Array]
        && !last.in_string && !last.escaped
}

/// The elements of an array in input form, separated by commas.
pub open spec fn joined(elements: Seq<Seq<u8>>) -> Seq<u8>
    decreases elements.len(),
{
    if elements.len() == 0 {
        seq![]
    } else if elements.len() == 1 {
        elements[0]
    } else {
        joined(elements.drop_last()) + seq![0x2cu8] + elements.last()
    }
}

/// The start of a stream: the version object, a newline and the opening of
/// the outermost array.
pub open spec fn stream_start() -> Seq<u8> {
    seq![0x7bu8, 0x22, 0x76, 0x65, 0x72, 0x73, 0x69, 0x6f, 0x6e, 0x22, 0x3a, 0x31, 0x7d, 0x0a, 0x5b]
}

/// Each element followed by a newline.
pub open spec fn terminated(elements: Seq<Seq<u8>>) -> Seq<Seq<u8>> {
    elements.map_values(|e: Seq<u8>| e.push(0x0a))
}

proof fn lemma_run_push(s: ExtractorView, a: Seq<u8>, c: u8)
    ensures
        run(s, a.push(c)) == match run(s, a) {
            None => None,
            Some((mid, outs)) => match step(mid, c) {
                None => None,
                Some((next, out)) => Some(
                    (
                        next,
                        match out {
                            Some(p) => outs.push(p),
                            None => outs,
                        },
                    ),
                ),
            },
        },
{
    assert(a.push(c).drop_last() =~= a);
}

proof fn lemma_run_append(s: ExtractorView, a: Seq<u8>, b: Seq<u8>)
    ensures
        run(s, a + b) == match run(s, a) {
            None => None,
            Some((mid, outs)) => match run(mid, b) {
                None => None,
                Some((fin, more)) => Some((fin, outs + more)),
            },
        },
    decreases b.len(),
{
    if b.len() == 0 {
        assert(a + b =~= a);
        if let Some((mid, outs)) = run(s, a) {
            assert(outs + seq![] =~= outs);
        }
    } else {
        lemma_run_append(s, a, b.drop_last());
        assert((a + b).drop_last() =~= a + b.drop_last());
        if let Some((mid, outs)) = run(s, a) {
            if let Some((m2, more)) = run(mid, b.drop_last()) {
                if let Some((next, out)) = step(m2, b.last()) {
                    if let Some(p) = out {
                        assert((outs + more).push(p) =~= outs + more.push(p));
                    }
                }
            }
        }
    }
}

proof fn lemma_element_prefix(e: Seq<u8>, k: int)
    requires
        is_element(e),
        0 < k < e.len(),
    ensures
        run(between_elements(), e.subrange(0, k)) matches Some((mid, outs)) && mid.buffer
            == e.subrange(0, k) && outs.len() == 0 && mid.stack.len() >= 2 && mid.stack[1]
            == Token::Array && valid(mid),
    decreases k,
{
    let b = between_elements();
    assert(e.subrange(0, k) =~= e.subrange(0, k - 1).push(e[k - 1]));
    lemma_run_push(b, e.subrange(0, k - 1), e[k - 1]);
    if k == 1 {
        assert(e.subrange(0, 0) =~= Seq::<u8>::empty());
        assert(b.buffer.push(e[0]) =~= e.subrange(0, 1));
    } else {
        lemma_element_prefix(e, k - 1);
        assert(run(b, e.subrange(0, k)) matches Some((mid, _)) && mid.stack.len() >= 2);
        let (prev, _) = run(b, e.subrange(0, k - 1)).unwrap();
        assert(prev.buffer.push(e[k - 1]) =~= e.subrange(0, k));
        let (next, _) = step(prev, e[k - 1]).unwrap();
        if next.stack.len() < prev.stack.len() {
            assert(next.stack =~= prev.stack.drop_last());
        }
    }
}

/// Feeding one complete element to an extractor that stands between
/// elements gives exactly one payload, the element followed by a newline,
/// and leaves it between elements again.
pub proof fn lemma_one_element(e: Seq<u8>)
    requires
        is_element(e),
    ensures
        run(between_elements(), e) == Some((between_elements(), seq![e.push(0x0a)])),
{
    let b = between_elements();
    let n = e.len() as int;
    assert(e =~= e.subrange(0, n - 1).push(e[n - 1]));
    lemma_run_push(b, e.subrange(0, n - 1), e[n - 1]);
    if n == 1 {
        assert(e.subrange(0, 0) =~= Seq::<u8>::empty());
    } else {
        lemma_element_prefix(e, n - 1);
        let (prev, _) = run(b, e.subrange(0, n - 1)).unwrap();
        assert(prev.buffer.push(e[n - 1]) =~= e);
        let (next, _) = step(prev, e[n - 1]).unwrap();
        assert(next.stack.len() == 1);
        assert(next.stack =~= prev.stack.drop_last());
        assert(prev.stack.len() == 2);
        assert(next.buffer =~= Seq::<u8>::empty());
        assert(Seq::<Seq<u8>>::empty().push(e.push(0x0a)) =~= seq![e.push(0x0a)]);
    }
}

proof fn lemma_stream_start()
    ensures
        run(initial_view(), stream_start()) == Some((between_elements(), Seq::<Seq<u8>>::empty())),
{
    let h = stream_start();
    let s0 = initial_view();
    assert(h.subrange(0, 0) =~= Seq::<u8>::empty());
    assert forall|k: int| 0 <= k < h.len() implies h.subrange(0, k + 1) =~= #[trigger] h.subrange(
        0,
        k,
    ).push(h[k]) by {}
    lemma_run_push(s0, h.subrange(0, 0), h[0]);
    lemma_run_push(s0, h.subrange(0, 1), h[1]);
    lemma_run_push(s0, h.subrange(0, 2), h[2]);
    lemma_run_push(s0, h.subrange(0, 3), h[3]);
    lemma_run_push(s0, h.subrange(0, 4), h[4]);
    lemma_run_push(s0, h.subrange(0, 5), h[5]);
    lemma_run_push(s0, h.subrange(0, 6), h[6]);
    lemma_run_push(s0, h.subrange(0, 7), h[7]);
    lemma_run_push(s0, h.subrange(0, 8), h[8]);
    lemma_run_push(s0, h.subrange(0, 9), h[9]);
    lemma_run_push(s0, h.subrange(0, 10), h[10]);
    lemma_run_push(s0, h.subrange(0, 11), h[11]);
    lemma_run_push(s0, h.subrange(0, 12), h[12]);
    lemma_run_push(s0, h.subrange(0, 13), h[13]);
    lemma_run_push(s0, h.subrange(0, 14), h[14]);
    assert(h.subrange(0, 15) =~= h);
    let (st, _) = run(s0, h).unwrap();
    assert(st.stack =~= seq![Token::Array]);
    assert(st.buffer =~= Seq::<u8>::empty());
}

/// A stream made of the version object, a newline, `[` and complete elements
/// separated by commas gives exactly one payload per element: the element's
/// bytes followed by a newline, in order.
pub proof fn lemma_stream_payloads(elements: Seq<Seq<u8>>)
    requires
        forall|i: int| 0 <= i < elements.len() ==> is_element(#[trigger] elements[i]),
    ensures
        run(initial_view(), stream_start() + joined(elements)) == Some(
            (between_elements(), terminated(elements)),
        ),
    decreases elements.len(),
{
    let h = stream_start();
    let b = between_elements();
    lemma_stream_start();
    if elements.len() == 0 {
        assert(h + joined(elements) =~= h);
        assert(terminated(elements) =~= Seq::<Seq<u8>>::empty());
    } else if elements.len() == 1 {
        lemma_run_append(initial_view(), h, elements[0]);
        lemma_one_element(elements[0]);
        assert(terminated(elements) =~= seq![elements[0].push(0x0a)]);
        assert(Seq::<Seq<u8>>::empty() + seq![elements[0].push(0x0a)] =~= terminated(elements));
    } else {
        let front = elements.drop_last();
        let e = elements.last();
        lemma_stream_payloads(front);
        let prefix = h + joined(front);
        assert(h + joined(elements) =~= prefix.push(0x2c) + e);
        lemma_run_push(initial_view(), prefix, 0x2c);
        assert(b.stack =~= seq![Token::Array]);
        lemma_run_append(initial_view(), prefix.push(0x2c), e);
        lemma_one_element(e);
        assert(terminated(front) + seq![e.push(0x0a)] =~= terminated(elements));
    }
}

/// Where a byte sequence read from outside any string ends: inside a string
/// or not, and right after a backslash there or not.
pub open spec fn string_state(bytes: Seq<u8>) -> (bool, bool)
    decreases bytes.len(),
{
    if bytes.len() == 0 {
        (false, false)
    } else {
        let (inside, escaped) = string_state(bytes.drop_last());
        let c = bytes.last();
        if inside {
            if escaped {
                (true, false)
            } else if c == 0x5c {
                (true, true)
            } else if c == 0x22 {
                (false, false)
            } else {
                (true, false)
            }
        } else if c == 0x22 {
            (true, false)
        } else {
            (false, false)
        }
    }
}

/// What holds of every state that an extractor reaches: the string flags
/// are those of the buffered bytes, an empty buffer stands outside any token
/// but the outermost array, and a buffer that starts with a comma lies outside
/// every array.
pub open spec fn reachable_shape(s: ExtractorView) -> bool {
    &&& valid(s)
    &&& string_state(s.buffer) == (s.in_string, s.escaped)
    &&& s.buffer.len() == 0 ==> (s.stack.len() == 0 || s.stack == seq![Token::Array])
    &&& (s.buffer.len() > 0 && s.buffer[0] == 0x2c) ==> (s.stack.len() == 0 || s.stack[0]
        == Token::Object)
}

/// A payload without artifacts: every string in it is closed, it does not
/// start with the separator of the outer array, and it ends with the bracket
/// that closes the element and a newline.
pub open spec fn clean_payload(p: Seq<u8>) -> bool {
    &&& string_state(p) == (false, false)
    &&& p.len() >= 2
    &&& p[0] != 0x2c
    &&& p[p.len() - 2] == 0x5d
    &&& p.last() == 0x0a
}

proof fn lemma_step_keeps_shape(s: ExtractorView, c: u8)
    requires
        reachable_shape(s),
        step(s, c) is Some,
    ensures
        reachable_shape(step(s, c).unwrap().0),
        step(s, c).unwrap().1 matches Some(p) ==> clean_payload(p),
{
    let kept = s.buffer.push(c);
    assert(kept.drop_last() =~= s.buffer);
    let (next, out) = step(s, c).unwrap();
    if s.buffer.len() > 0 {
        assert(kept[0] == s.buffer[0]);
    }
    if next.stack.len() < s.stack.len() && next.stack.len() > 0 {
        assert(next.stack[0] == s.stack[0]);
    }
    if next.stack.len() > s.stack.len() && s.stack.len() > 0 {
        assert(next.stack[0] == s.stack[0]);
    }
    if next.stack.len() > s.stack.len() && s.stack.len() == 0 {
        assert(next.stack =~= seq![next.stack[0]]);
    }
    assert(string_state(Seq::<u8>::empty()) == (false, false));
    if let Some(p) = out {
        assert(p.drop_last() =~= kept);
        assert(string_state(kept) == (false, false));
        assert(string_state(p) == (false, false));
        assert(p[p.len() - 2] == c);
        let popped = s.stack.drop_last();
        assert(popped =~= seq![Token::Array]);
        assert(s.stack[0] == Token::Array);
        if s.buffer.len() == 0 {
            assert(p[0] == c);
        } else {
            assert(p[0] == s.buffer[0]);
        }
    }
}

proof fn lemma_run_keeps_shape(input: Seq<u8>)
    ensures
        run(initial_view(), input) matches Some((s, outs)) ==> reachable_shape(s) && forall|i: int|
            0 <= i < outs.len() ==> clean_payload(#[trigger] outs[i]),
    decreases input.len(),
{
    if input.len() == 0 {
        assert(initial_view().stack.len() == 0);
    } else {
        lemma_run_keeps_shape(input.drop_last());
        if let Some((mid, outs)) = run(initial_view(), input.drop_last()) {
            if step(mid, input.last()) is Some {
                lemma_step_keeps_shape(mid, input.last());
            }
        }
    }
}

/// Whatever the input, every payload that the extractor gives has its strings
/// closed, does not begin with the outer separator, and ends with the closing
/// bracket and a newline.
pub proof fn lemma_payloads_clean(input: Seq<u8>)
    ensures
        run(initial_view(), input) matches Some((_, outs)) ==> forall|i: int|
            0 <= i < outs.len() ==> clean_payload(#[trigger] outs[i]),
{
    lemma_run_keeps_shape(input);
}

/// The fault of a byte that `step` refuses.
pub open spec fn fault_of(c: u8) -> Fault {
    if c == 0x7d {
        Fault::UnmatchedBrace
    } else {
        Fault::UnmatchedBracket
    }
}

/// Cuts the elements of the outermost array out of a byte stream, one byte at
/// a time.
pub struct Extractor {
    stack: Vec<Token>,
    in_string: bool,
    escaped: bool,
    buffer: Vec<u8>,
}

impl View for Extractor {
    type V = ExtractorView;

    closed spec fn view(&self) -> ExtractorView {
        ExtractorView {
            stack: self.stack@,
            in_string: self.in_string,
            escaped: self.escaped,
            buffer: self.buffer@,
        }
    }
}

impl Extractor {
    pub fn new() -> (r: Extractor)
        ensures
            r@ == initial_view(),
            valid(r@),
    {
        let r = Extractor { stack: Vec::new(), in_string: false, escaped: false, buffer: Vec::new() };
        assert(r@.stack =~= seq![]);
        assert(r@.buffer =~= seq![]);
        r
    }

    fn stack_is_outermost_array(&self) -> (r: bool)
        ensures
            r == (self.stack@ == seq![Token::Array]),
    {
        if self.stack.len() == 1 && self.stack[0] == Token::Array {
            assert(self.stack@ =~= seq![Token::Array]);
            true
        } else {
            false
        }
    }

    fn take_buffer(&mut self) -> (r: Vec<u8>)
        ensures
            r@ == old(self).buffer@,
            final(self).buffer@ == Seq::<u8>::empty(),
            final(self).stack@ == old(self).stack@,
            final(self).in_string == old(self).in_string,
            final(self).escaped == old(self).escaped,
    {
        let mut out: Vec<u8> = Vec::new();
        std::mem::swap(&mut out, &mut self.buffer);
        assert(self.buffer@ =~= Seq::<u8>::empty());
        out
    }

    /// Reads one byte. Returns the payload that the byte completes, if any: the
    /// bytes of one element of the outermost array, followed by a newline.
    pub fn feed(&mut self, c: u8) -> (r: Result<Option<Vec<u8>>, Fault>)
        requires
            valid(old(self)@),
        ensures
            valid(final(self)@),
            match step(old(self)@, c) {
                None => r == Err::<Option<Vec<u8>>, Fault>(fault_of(c)) && final(self)@ == old(self)@,
                Some((next, out)) => final(self)@ == next && match r {
                    Ok(Some(p)) => out == Some(p@),
                    Ok(None) => out is None,
                    Err(_) => false,
                },
            },
    {
        if self.in_string {
            self.buffer.push(c);
            if self.escaped {
                self.escaped = false;
            } else if c == 0x5c {
                self.escaped = true;
            } else if c == 0x22 {
                self.in_string = false;
            }
            return Ok(None);
        }
        if c == 0x22 {
            self.buffer.push(c);
            self.in_string = true;
            Ok(None)
        } else if c == 0x2c {
            if self.stack_is_outermost_array() {
                self.buffer = Vec::new();
                assert(self.buffer@ =~= seq![]);
            } else {
                self.buffer.push(c);
            }
            Ok(None)
        } else if c == 0x7b {
            self.buffer.push(c);
            self.stack.push(Token::Object);
            assert(self.stack@ =~= old(self).stack@.push(Token::Object));
            Ok(None)
        } else if c == 0x7d {
            let n = self.stack.len();
            if n == 0 || self.stack[n - 1] != Token::Object {
                return Err(Fault::UnmatchedBrace);
            }
            self.stack.pop();
            assert(self.stack@ =~= old(self).stack@.drop_last());
            if self.stack.len() == 0 {
                self.buffer = Vec::new();
                assert(self.buffer@ =~= seq![]);
            } else {
                self.buffer.push(c);
            }
            Ok(None)
        } else if c == 0x5b {
            if self.stack.len() == 0 {
                self.buffer = Vec::new();
                assert(self.buffer@ =~= seq![]);
            } else {
                self.buffer.push(c);
            }
            self.stack.push(Token::Array);
            assert(self.stack@ =~= old(self).stack@.push(Token::Array));
            Ok(None)
        } else if c == 0x5d {
            let n = self.stack.len();
            if n == 0 || self.stack[n - 1] != Token::Array {
                return Err(Fault::UnmatchedBracket);
            }
            self.stack.pop();
            assert(self.stack@ =~= old(self).stack@.drop_last());
            self.buffer.push(c);
            if self.stack_is_outermost_array() {
                self.buffer.push(0x0a);
                let out = self.take_buffer();
                Ok(Some(out))
            } else {
                Ok(None)
            }
        } else {
            self.buffer.push(c);
            Ok(None)
        }
    }
}

} // verus!
