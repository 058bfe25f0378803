use crate::codec::MAX_ENCODED_INPUT;
use crate::error::Fault;
use crate::extractor::{fault_of, initial_view, step, valid, Extractor, ExtractorView};
use crate::wire::{frame, frame_message};
use vstd::prelude::*;

verus! {

/// The producer role: cuts payloads out of its input and frames each with
/// its priority as one channel line.
pub struct Producer {
    pub priority: i32,
    pub extractor: Extractor,
}

impl Producer {
    /// The state of the producer's extractor.
    pub open spec fn state(&self) -> ExtractorView {
        self.extractor@
    }

    pub fn new(priority: i32) -> (r: Producer)
        ensures
            r.priority == priority,
            r.state() == initial_view(),
            valid(r.state()),
    {
        Producer { priority, extractor: Extractor::new() }
    }

    /// Reads one input byte. Returns the channel line for the payload that the
    /// byte completes, if any.
    pub fn feed(&mut self, c: u8) -> (r: Result<Option<Vec<u8>>, Fault>)
        requires
            valid(old(self).state()),
        ensures
            valid(final(self).state()),
            final(self).priority == old(self).priority,
            match step(old(self).state(), c) {
                None => r == Err::<Option<Vec<u8>>, Fault>(fault_of(c)) && final(self).state()
                    == old(self).state(),
                Some((next, None)) => final(self).state() == next && r matches Ok(None),
                Some((next, Some(p))) => final(self).state() == next && if p.len()
                    <= MAX_ENCODED_INPUT {
                    r matches Ok(Some(line)) && line@ == frame(old(self).priority as int, p)
                } else {
                    r == Err::<Option<Vec<u8>>, Fault>(Fault::PayloadTooLarge)
                },
            },
    {
        match self.extractor.feed(c) {
            Err(fault) => Err(fault),
            Ok(None) => Ok(None),
            Ok(Some(payload)) => {
                if payload.len() > MAX_ENCODED_INPUT {
                    Err(Fault::PayloadTooLarge)
                } else {
                    Ok(Some(frame_message(self.priority, payload.as_slice())))
                }
            },
        }
    }
}

} // verus!
