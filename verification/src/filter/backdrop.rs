//! Planning a backdrop filter.

use vstd::prelude::*;

use crate::frame::planning::{Op, PlanBuilder, Planning};
use crate::frame::segment::EncoderOp;
use crate::frame::target::TargetRef;
use crate::geom::Rect;

verus! {

/// Copies `region` of `beneath` into `into`.
///
/// The capture is a copy rather than a read, because a fragment shader cannot read the attachment
/// it is writing.
pub fn capture(builder: &mut PlanBuilder, beneath: TargetRef, into: TargetRef, region: Rect)
    ensures
        region.void() ==> final(builder)@ == old(builder)@,
        !region.void() ==> final(builder)@ == (Planning {
            ops: old(builder)@.ops.push(
                Op::Encoder(EncoderOp::Capture { source: beneath, destination: into, region }),
            ),
            ..old(builder)@
        }),
{
    if region.is_empty() {
        return;
    }
    builder.encoder(EncoderOp::Capture { source: beneath, destination: into, region });
}

/// Lends a target to copy what lies beneath into, matching what it is copied from.
///
/// Returns `None` when the pool could not lend one, in which case the region is left as it is: an
/// unfiltered backdrop is the content it was meant to frost, which is a visible degradation and
/// not a wrong picture.
pub fn scratch(builder: &mut PlanBuilder, beneath: TargetRef) -> (r: Option<TargetRef>)
    ensures
        ({
            let format = match beneath {
                TargetRef::Composed => old(builder).composed_format,
                TargetRef::Pool(slot) => slot.format,
            };
            match old(builder)@.lends(beneath.scaled_as(), format) {
                Some((slot, after)) => r == Some(TargetRef::Pool(slot)) && final(builder)@ == after,
                None => r is None && final(builder)@ == old(builder)@,
            }
        }),
{
    match builder.acquire_like(beneath) {
        Some(slot) => Some(TargetRef::Pool(slot)),
        None => None,
    }
}

/// Whether the copy for a backdrop over `beneath` can be the kept one.
///
/// The kept copy is allocated like the composed target and holds what it holds, and a copy between
/// two textures requires them to agree — so a backdrop *inside* a group, whose composite so far is
/// that group's own half-float target, takes a scratch copy of that instead. The damage was grown
/// on the understanding that the kept copy would be used, so a frame that finds otherwise here
/// says so and the one after it redraws everything.
pub fn keepable(beneath: TargetRef) -> (r: bool)
    ensures
        r == (beneath == TargetRef::Composed),
{
    beneath == TargetRef::Composed
}

} // verus!
