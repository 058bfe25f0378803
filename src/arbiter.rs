use crate::error::Fault;
use crate::wire::{parse_line, reading, Parsed, Reading};
use vstd::prelude::*;

verus! {

/// The first bytes of the merged output: the protocol header and the opening
/// of the array that never closes.
pub fn stream_header() -> (r: Vec<u8>)
    ensures
        r@ == seq![
            0x7bu8, 0x22, 0x76, 0x65, 0x72, 0x73, 0x69, 0x6f, 0x6e, 0x22, 0x3a, 0x31, 0x7d, 0x0a,
            0x5b, 0x0a,
        ],
{
    let r: Vec<u8> = vec![
        0x7bu8, 0x22, 0x76, 0x65, 0x72, 0x73, 0x69, 0x6f, 0x6e, 0x22, 0x3a, 0x31, 0x7d, 0x0a, 0x5b,
        0x0a,
    ];
    assert(r@ =~= seq![
        0x7bu8, 0x22, 0x76, 0x65, 0x72, 0x73, 0x69, 0x6f, 0x6e, 0x22, 0x3a, 0x31, 0x7d, 0x0a, 0x5b,
        0x0a,
    ]);
    r
}

/// Decides which update owns the merged output. Times are in nanoseconds on
/// one monotonic clock.
pub struct Arbiter {
    /// The priority of the last accepted update; `None` before the first,
    /// which stands below every priority.
    pub last_priority: Option<i32>,
    /// When the last update was accepted, or when the arbiter started.
    pub last_at: u64,
    /// How long the owner may stay silent before a lower priority may take over.
    pub timeout: u64,
    /// Whether an element has been written to the output.
    pub printed: bool,
}

/// What became of one channel line.
pub enum Outcome {
    /// The update was accepted: these bytes go to the output.
    Emit(Vec<u8>),
    /// The update was refused by the acceptance rule.
    Rejected,
    /// The line's tag is not a priority; the line is dropped.
    Dropped { tag: Vec<u8> },
}

impl Arbiter {
    /// An update of `priority` at `now` is accepted: its priority is at least
    /// the last accepted one, or the last acceptance is older than the timeout.
    pub open spec fn accepts(&self, priority: int, now: int) -> bool {
        match self.last_priority {
            None => true,
            Some(last) => priority >= last || now - self.last_at > self.timeout,
        }
    }

    /// The arbiter after accepting an update of `priority` at `now`.
    pub open spec fn accepted(&self, priority: i32, now: u64) -> Arbiter {
        Arbiter { last_priority: Some(priority), last_at: now, timeout: self.timeout, printed: true }
    }

    /// The output bytes for an accepted payload: a comma before every element
    /// but the first.
    pub open spec fn element(&self, payload: Seq<u8>) -> Seq<u8> {
        if self.printed {
            seq![0x2cu8] + payload
        } else {
            payload
        }
    }

    /// An arbiter that starts at `start` and has accepted nothing.
    pub fn new(timeout: u64, start: u64) -> (r: Arbiter)
        ensures
            r.last_priority is None,
            r.last_at == start,
            r.timeout == timeout,
            !r.printed,
    {
        Arbiter { last_priority: None, last_at: start, timeout, printed: false }
    }

    /// Offers an update of `priority` with `payload` at `now`. Returns the
    /// bytes to write where it is accepted.
    pub fn offer(&mut self, priority: i32, payload: &[u8], now: u64) -> (r: Option<Vec<u8>>)
        ensures
            old(self).accepts(priority as int, now as int) ==> (*final(self) == old(self).accepted(
                priority,
                now,
            ) && (r matches Some(out) && out@ == old(self).element(payload@))),
            !old(self).accepts(priority as int, now as int) ==> *final(self) == *old(self)
                && r is None,
    {
        let fresh = match self.last_priority {
            None => true,
            Some(last) => priority >= last || (now > self.last_at && now - self.last_at
                > self.timeout),
        };
        if !fresh {
            return None;
        }
        let mut out: Vec<u8> = Vec::new();
        if self.printed {
            out.push(0x2c);
        }
        let mut i: usize = 0;
        while i < payload.len()
            invariant
                i <= payload@.len(),
                out@ == self.element(payload@.subrange(0, i as int)),
            decreases payload@.len() - i,
        {
            out.push(payload[i]);
            i = i + 1;
            assert(out@ =~= self.element(payload@.subrange(0, i as int)));
        }
        assert(payload@.subrange(0, i as int) =~= payload@);
        self.last_priority = Some(priority);
        self.last_at = now;
        self.printed = true;
        Some(out)
    }

    /// Handles one channel line received at `now`.
    pub fn handle_line(&mut self, line: &[u8], now: u64) -> (r: Result<Outcome, Fault>)
        ensures
            match reading(line@) {
                Reading::NoSeparator => r == Err::<Outcome, Fault>(Fault::MissingSeparator)
                    && *final(self) == *old(self),
                Reading::BadText => r == Err::<Outcome, Fault>(Fault::InvalidPayload)
                    && *final(self) == *old(self),
                Reading::BadTag(t) => (r matches Ok(Outcome::Dropped { tag }) && tag@ == t)
                    && *final(self) == *old(self),
                Reading::Update(p, b) => if old(self).accepts(p, now as int) {
                    (r matches Ok(Outcome::Emit(out)) && out@ == old(self).element(b))
                        && *final(self) == old(self).accepted(p as i32, now)
                } else {
                    r matches Ok(Outcome::Rejected) && *final(self) == *old(self)
                },
            },
    {
        match parse_line(line) {
            Err(fault) => Err(fault),
            Ok(Parsed::BadPriority { tag }) => Ok(Outcome::Dropped { tag }),
            Ok(Parsed::Update { priority, payload }) => match self.offer(
                priority,
                payload.as_slice(),
                now,
            ) {
                Some(out) => Ok(Outcome::Emit(out)),
                None => Ok(Outcome::Rejected),
            },
        }
    }
}

/// The arbiter after a sequence of offers, each a priority and a time.
pub open spec fn after_offers(a: Arbiter, offers: Seq<(i32, u64)>) -> Arbiter
    decreases offers.len(),
{
    if offers.len() == 0 {
        a
    } else {
        let prev = after_offers(a, offers.drop_last());
        let (p, t) = offers.last();
        if prev.accepts(p as int, t as int) {
            prev.accepted(p, t)
        } else {
            prev
        }
    }
}

/// Offer `i` of the sequence is accepted.
pub open spec fn accepted_at(a: Arbiter, offers: Seq<(i32, u64)>, i: int) -> bool {
    after_offers(a, offers.subrange(0, i)).accepts(offers[i].0 as int, offers[i].1 as int)
}

proof fn lemma_timeout_kept(a: Arbiter, offers: Seq<(i32, u64)>)
    ensures
        after_offers(a, offers).timeout == a.timeout,
    decreases offers.len(),
{
    if offers.len() > 0 {
        lemma_timeout_kept(a, offers.drop_last());
    }
}

proof fn lemma_state_after_accept(a: Arbiter, offers: Seq<(i32, u64)>, i: int, m: int)
    requires
        0 <= i < m <= offers.len(),
        accepted_at(a, offers, i),
        forall|k: int| i < k < m ==> !accepted_at(a, offers, k),
    ensures
        after_offers(a, offers.subrange(0, m)) == after_offers(a, offers.subrange(0, i)).accepted(
            offers[i].0,
            offers[i].1,
        ),
    decreases m - i,
{
    assert(offers.subrange(0, m).drop_last() =~= offers.subrange(0, m - 1));
    if m > i + 1 {
        lemma_state_after_accept(a, offers, i, m - 1);
        assert(!accepted_at(a, offers, m - 1));
    }
}

/// Between two consecutive accepted offers the accepted priority falls only
/// where the later offer comes more than the timeout after the earlier one:
/// within the staleness window the accepted priorities never decrease.
pub proof fn lemma_priority_floor(a: Arbiter, offers: Seq<(i32, u64)>, i: int, j: int)
    requires
        0 <= i < j < offers.len(),
        accepted_at(a, offers, i),
        accepted_at(a, offers, j),
        forall|k: int| i < k < j ==> !accepted_at(a, offers, k),
        offers[j].0 < offers[i].0,
    ensures
        offers[j].1 - offers[i].1 > a.timeout,
{
    lemma_state_after_accept(a, offers, i, j);
    lemma_timeout_kept(a, offers.subrange(0, i));
}

} // verus!
