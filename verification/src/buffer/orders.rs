//! The draw-order entries every instanced batch of a frame is drawn from.

use vstd::prelude::*;

verus! {

/// Where one instance's record is.
#[derive(Clone, Copy, Debug, PartialEq, Eq, Structural)]
pub struct OrderEntry {
    /// Its slot in the arena.
    pub slot: u32,
    /// The shift it is drawn under.
    pub shift: u32,
}

/// The entry of a slot nothing occupies.
pub open spec fn vacant() -> OrderEntry {
    OrderEntry { slot: 0, shift: 0 }
}

/// One frame's draw-order entries, staged while the frame is planned and uploaded once.
///
/// A damage rectangle is one replay of the batch stream under its own scissor, so a rectangle stages
/// the entries that can reach it and its draw names that run, rather than every draw naming the
/// whole of the list the scene resolved.
///
/// Entries are staged as the *position* in a lane's draw order that survived, not as the arena slot
/// it resolves to, because the resolution is rebuilt while this frame's uploads are recorded — after
/// it is planned. Resolving at upload is what keeps the two in step.
#[derive(Clone, Debug)]
pub struct DrawOrders {
    /// This frame's entries as (lane, position), in the order they were planned.
    pub staged: Vec<(u8, u32)>,
    /// The entries those positions resolve to, rebuilt at upload.
    pub resolved: Vec<OrderEntry>,
    /// How many bytes they are uploaded into.
    pub allocated: u64,
}

/// The entry a staged position resolves to: the zero entry where no lane resolves it.
pub open spec fn resolution(lanes: Seq<Vec<OrderEntry>>, entry: (u8, u32)) -> OrderEntry {
    if entry.0 < lanes.len() && entry.1 < lanes[entry.0 as int]@.len() {
        lanes[entry.0 as int]@[entry.1 as int]
    } else {
        vacant()
    }
}

impl DrawOrders {
    /// An empty list, uploaded into a buffer of `allocated` bytes.
    pub fn new(allocated: u64) -> (r: DrawOrders)
        ensures
            r.staged@.len() == 0,
            r.resolved@.len() == 0,
            r.allocated == allocated,
    {
        DrawOrders { staged: Vec::new(), resolved: Vec::new(), allocated }
    }

    /// Releases everything staged for the previous frame.
    pub fn begin_frame(&mut self)
        ensures
            final(self).staged@.len() == 0,
            final(self).resolved@.len() == 0,
            final(self).allocated == old(self).allocated,
    {
        self.staged.clear();
        self.resolved.clear();
    }

    /// Stages `positions` of `lane` and returns where they start and how many there are.
    pub fn stage(&mut self, lane: usize, positions: &Vec<usize>) -> (r: (u32, u32))
        requires
            old(self).staged@.len() + positions@.len() <= u32::MAX,
        ensures
            r.0 == old(self).staged@.len(),
            r.1 == positions@.len(),
            final(self).staged@ == old(self).staged@ + Seq::new(
                positions@.len(),
                |i: int| (lane as u8, positions@[i] as u32),
            ),
            final(self).resolved@ == old(self).resolved@,
            final(self).allocated == old(self).allocated,
    {
        let first: u32 = self.staged.len() as u32;
        let ghost before = self.staged@;
        let ghost added = Seq::new(
            positions@.len(),
            |i: int| (lane as u8, positions@[i] as u32),
        );
        let lane: u8 = lane as u8;
        let mut i: usize = 0;
        while i < positions.len()
            invariant
                i <= positions@.len(),
                before.len() + positions@.len() <= u32::MAX,
                added.len() == positions@.len(),
                forall|j: int|
                    0 <= j < added.len() ==> #[trigger] added[j] == (lane, positions@[j] as u32),
                self.staged@ == before + added.take(i as int),
                self.resolved@ == old(self).resolved@,
                self.allocated == old(self).allocated,
            decreases positions@.len() - i,
        {
            self.staged.push((lane, positions[i] as u32));
            i += 1;
            assert(self.staged@ =~= before + added.take(i as int));
        }
        assert(added.take(added.len() as int) =~= added);
        (first, self.staged.len() as u32 - first)
    }

    /// Resolves this frame's positions through each lane's entries, to be uploaded into `allocated`
    /// bytes.
    ///
    /// A position no lane resolves is staged as the zero entry rather than dropped: the runs a
    /// plan already named have to keep the offsets they were given, and a slot nothing occupies
    /// draws a record of zeroes rather than another primitive's.
    pub fn upload_with(&mut self, lanes: &Vec<Vec<OrderEntry>>, allocated: u64)
        ensures
            final(self).staged@ == old(self).staged@,
            final(self).resolved@ == Seq::new(
                old(self).staged@.len(),
                |i: int| resolution(lanes@, old(self).staged@[i]),
            ),
            final(self).allocated == allocated,
    {
        self.resolved.clear();
        self.allocated = allocated;
        let mut i: usize = 0;
        while i < self.staged.len()
            invariant
                i <= self.staged@.len(),
                self.staged@ == old(self).staged@,
                self.allocated == allocated,
                self.resolved@ == Seq::new(
                    i as nat,
                    |j: int| resolution(lanes@, old(self).staged@[j]),
                ),
            decreases self.staged@.len() - i,
        {
            let lane: usize = self.staged[i].0 as usize;
            let at: usize = self.staged[i].1 as usize;
            let entry = if lane < lanes.len() && at < lanes[lane].len() {
                lanes[lane][at]
            } else {
                OrderEntry { slot: 0, shift: 0 }
            };
            self.resolved.push(entry);
            i += 1;
            assert(self.resolved@ =~= Seq::new(
                i as nat,
                |j: int| resolution(lanes@, old(self).staged@[j]),
            ));
        }
    }

    /// How many bytes are allocated on the device.
    pub fn bytes(&self) -> (r: u64)
        ensures
            r == self.allocated,
    {
        self.allocated
    }

    /// How many entries this frame has staged.
    pub fn staged(&self) -> (r: usize)
        ensures
            r == self.staged@.len(),
    {
        self.staged.len()
    }
}

/// A run a plan named keeps its place: whatever is staged after it, the entries it names resolve to
/// the positions it was staged with.
pub proof fn a_staged_run_keeps_its_place(
    before: Seq<(u8, u32)>,
    added: Seq<(u8, u32)>,
    later: Seq<(u8, u32)>,
    lanes: Seq<Vec<OrderEntry>>,
    i: int,
)
    requires
        0 <= i < added.len(),
    ensures
        ({
            let staged = before + added + later;
            let resolved = Seq::new(staged.len(), |j: int| resolution(lanes, staged[j]));
            resolved[before.len() + i] == resolution(lanes, added[i])
        }),
{
}

} // verus!
