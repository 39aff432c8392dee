//! A frame the card is still drawing, as a descriptor the loop can park on.
//!
//! A driver that exports no fence leaves this program to wait for its own drawing, and a loop that
//! waits for it answers no key, fires no timer and reads no page flip while it does. The buffer
//! answers a descriptor that becomes readable when the frame is drawn, so the frame goes into the
//! loop's own poll set beside the card, the wake channel and the input devices.

use vstd::prelude::*;

verus! {

/// Whether the card has finished drawing a frame, by what a poll of no length over its descriptor
/// answered: how many descriptors are ready, or that the kernel refused.
///
/// Answers `true` where the kernel refuses the question. A frame nothing can report on would
/// otherwise be held forever, and showing it a refresh early is the lesser fault.
pub fn drawn(polled: Result<usize, i32>) -> (r: bool)
    ensures
        r == (polled matches Ok(ready) ==> ready > 0),
{
    match polled {
        Ok(ready) => ready > 0,
        Err(_) => true,
    }
}

} // verus!
