//! The one thing a copier does, stated so that any device can do it.

use vstd::prelude::*;

use crate::scanout::buffer::Rect;
use crate::scanout::error::Error;

verus! {

/// Who waits for a copy.
#[derive(Clone, Copy, Debug, PartialEq, Eq, Structural)]
pub enum Signalled {
    /// The kernel may: this descriptor signals when the copy is done. It is the caller's own.
    Descriptor(i32),
    /// Nobody has to any more: it was waited for here.
    Waited,
}

/// What a copier holds and was asked, as contracts speak of it.
#[verifier::ext_equal]
pub struct Ledger {
    /// How many buffers it holds.
    pub held: nat,
    /// Every copy the device took on, in order: from which buffer, to which, and what of it.
    pub asked: Seq<(usize, usize, Seq<Rect>)>,
    /// How many of those have been waited for, the earliest first.
    pub waited: nat,
}

impl Ledger {
    /// With one more copy taken on, once every one before it was waited for.
    pub open spec fn begun(self, from: usize, to: usize, rects: Seq<Rect>) -> Ledger {
        Ledger {
            held: self.held,
            asked: self.asked.push((from, to, rects)),
            waited: self.asked.len(),
        }
    }

    /// With every copy waited for.
    pub open spec fn finished(self) -> Ledger {
        Ledger { waited: self.asked.len(), ..self }
    }
}

/// A device that can copy rectangles between the buffers it has been given.
///
/// # Why it is two halves
///
/// Because most of a copy is not the caller's to spend: most of it is the device working while the
/// processor has nothing to do. [`Copier::begin`] issues the work and answers; [`Copier::finish`]
/// waits for it. Whatever the caller does in between is free.
///
/// Both halves stay on one thread, and deliberately: the overlap has to come from the device rather
/// than from a second thread.
pub trait Copier {
    /// What it holds and was asked.
    ///
    /// Only contracts speak of it, and it is never run: a verified copier says what it is, and one
    /// that is not verified has it in name alone.
    spec fn ledger(&self) -> Ledger;

    /// Starts copying each of `rects` from the buffer at `from` to the buffer at `to`.
    ///
    /// The rectangles are in buffer coordinates and mean the same region in both, because that is
    /// what a repair is: the same pixels, at the same place, in a buffer that is behind. An empty
    /// rectangle is skipped, and an empty list is a copy of nothing that still answers.
    ///
    /// **Nothing waits here**, and nothing may read or write the buffer at `to` until
    /// [`Copier::finish`] has answered. A copy already running is waited for first, so a caller that
    /// misses a `finish` loses the overlap rather than the ordering.
    ///
    /// # Errors
    ///
    /// Returns [`Error::Driver`] where the device refused, and [`Error::NoCopy`] where it offers no
    /// way to copy at all. A slot number outside the set it was given is [`Error::Driver`] as well,
    /// because it is the caller's arithmetic that was wrong and the message has to say so.
    fn begin(&mut self, from: usize, to: usize, rects: &[Rect]) -> (r: Result<(), Error>)
        ensures
            from >= old(self).ledger().held || to >= old(self).ledger().held ==> (r matches Err(why)
                && why is Driver),
            r is Ok ==> final(self).ledger() == old(self).ledger().begun(from, to, rects@),
            r matches Err(why) ==> {
                &&& why is Driver || why is NoCopy
                &&& final(self).ledger().held == old(self).ledger().held
                &&& final(self).ledger().asked == old(self).ledger().asked
            },
    ;

    /// Waits for the copy [`Copier::begin`] started.
    ///
    /// Answers at once where nothing was started, because nothing started is nothing to wait for.
    ///
    /// # Errors
    ///
    /// Returns [`Error::Driver`] where the wait itself failed. A copy that was refused reported
    /// that from [`Copier::begin`], so there is nothing left here to refuse.
    fn finish(&mut self) -> (r: Result<(), Error>)
        ensures
            r is Ok ==> final(self).ledger() == old(self).ledger().finished(),
            r matches Err(why) ==> {
                &&& why is Driver
                &&& final(self).ledger().held == old(self).ledger().held
                &&& final(self).ledger().asked == old(self).ledger().asked
            },
    ;

    /// Starts a copy and waits for it, for a caller with nothing to do in between.
    ///
    /// # Errors
    ///
    /// Whatever [`Copier::begin`] and [`Copier::finish`] return.
    fn copy(&mut self, from: usize, to: usize, rects: &[Rect]) -> (r: Result<(), Error>)
        ensures
            from >= old(self).ledger().held || to >= old(self).ledger().held ==> (r matches Err(why)
                && why is Driver),
            r is Ok ==> final(self).ledger() == old(self).ledger().begun(
                from,
                to,
                rects@,
            ).finished(),
            r matches Err(why) ==> {
                &&& why is Driver || why is NoCopy
                &&& final(self).ledger().held == old(self).ledger().held
                &&& final(self).ledger().asked == old(self).ledger().asked
                    || final(self).ledger().asked == old(self).ledger().begun(
                    from,
                    to,
                    rects@,
                ).asked
            },
    {
        match self.begin(from, to, rects) {
            Ok(_) => self.finish(),
            Err(why) => Err(why),
        }
    }

    /// How many buffers this copier holds.
    fn len(&self) -> (r: usize)
        ensures
            r == self.ledger().held,
    ;

    /// Returns `true` where it holds none.
    fn is_empty(&self) -> (r: bool)
        ensures
            r == (self.ledger().held == 0),
    {
        self.len() == 0
    }
}

} // verus!
