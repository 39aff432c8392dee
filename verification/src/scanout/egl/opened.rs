//! What has to have gone well before a copier is open.

use vstd::prelude::*;

use crate::scanout::egl::{
    first_missing, fits, picked, Api, Heard, Next, Opening, Stage, Ways,
};
use crate::text::{has_word, Parted};

verus! {

/// Whether some stages followed on one another, each with what came of it, from the start on.
pub open spec fn follows_on(trace: Seq<(Opening, Heard)>) -> bool {
    &&& trace.len() > 0
    &&& trace[0].0.stage == Stage::LoadGbm
    &&& forall|i: int|
        0 <= i < trace.len() ==> (#[trigger] trace[i]).0.wf() && fits(trace[i].0.stage, trace[i].1)
    &&& forall|i: int, j: int|
        #![trigger trace[i], trace[j]]
        0 <= i && j == i + 1 && j < trace.len() ==> trace[i].0.leads_to(
            trace[i].1,
            Next::Stage(trace[j].0),
        )
}

/// Whether a config can be rendered with by an API.
pub open spec fn renders(bits: Option<i32>, api: Api) -> bool {
    bits matches Some(held) && match api {
        Api::OpenGl => held & 8 != 0,
        Api::OpenGlEs => held & 4 != 0,
    }
}

/// Whether a stage came to what opening a copier needs of it.
pub open spec fn went_well(stage: Stage, heard: Heard) -> bool {
    match stage {
        Stage::LoadGbm | Stage::OpenAllocator | Stage::LoadEgl | Stage::AskDisplay
        | Stage::Initialise | Stage::ListConfigs | Stage::MakeCurrent => heard matches
            Heard::Outcome(outcome) && outcome is Ok,
        Stage::ReadOffers => heard matches Heard::Offers(offered) && has_word(
            offered@,
            Parted::White,
            "EGL_EXT_image_dma_buf_import"@,
        ) && has_word(offered@, Parted::White, "EGL_KHR_surfaceless_context"@),
        Stage::BindApi(api) => heard matches Heard::Bits(Some(bits)) && exists|at: int|
            0 <= at < bits@.len() && renders(#[trigger] bits@[at], api),
        Stage::MakeContext(_, _) | Stage::ImportImage(_) => heard == Heard::Made(true),
        Stage::FindEntries => heard matches Heard::Found(found) && forall|i: int|
            0 <= i < 12 ==> #[trigger] found@[i],
        Stage::FindBindImage | Stage::FindCreateImage | Stage::FindDestroyImage => heard matches
            Heard::Found(found) && found@[0],
        Stage::FindWays => heard matches Heard::Found(found) && (found@[0] || found@[1]),
        Stage::FindFencing => heard is Found,
        Stage::BindTexture(_) => heard == Heard::Code(0),
        Stage::MakeFramebuffer(_) => heard == Heard::Code(0x8CD5),
    }
}

/// Whether two stages do the same, whichever API they do it for.
pub open spec fn does_the_same(a: Stage, b: Stage) -> bool {
    match (a, b) {
        (Stage::BindApi(_), Stage::BindApi(_)) => true,
        (Stage::MakeContext(_, _), Stage::MakeContext(_, _)) => true,
        _ => a == b,
    }
}

/// Whether a stage went well among the first `n`.
pub open spec fn was_done(trace: Seq<(Opening, Heard)>, n: int, stage: Stage) -> bool {
    exists|i: int|
        0 <= i < n && does_the_same((#[trigger] trace[i]).0.stage, stage) && went_well(
            trace[i].0.stage,
            trace[i].1,
        )
}

/// Whether the ways to move a rectangle are those that were found among the first `n`.
pub open spec fn were_found(trace: Seq<(Opening, Heard)>, n: int, ways: Ways) -> bool {
    exists|i: int|
        0 <= i < n && (#[trigger] trace[i]).0.stage == Stage::FindWays && (trace[i].1 matches
            Heard::Found(found) && ways.direct == found@[0] && ways.blit == found@[1]
            && ways.trust_direct == found@[0])
}

/// Whether a buffer was imported, bound, and drawn into where rectangles are blitted.
pub open spec fn was_taken_in(
    trace: Seq<(Opening, Heard)>,
    n: int,
    buffer: usize,
    blit: bool,
) -> bool {
    &&& was_done(trace, n, Stage::ImportImage(buffer))
    &&& was_done(trace, n, Stage::BindTexture(buffer))
    &&& blit ==> was_done(trace, n, Stage::MakeFramebuffer(buffer))
}

/// The stages that are gone through once, in order.
spec fn once(k: int) -> Stage {
    if k == 0 {
        Stage::LoadGbm
    } else if k == 1 {
        Stage::OpenAllocator
    } else if k == 2 {
        Stage::LoadEgl
    } else if k == 3 {
        Stage::AskDisplay
    } else if k == 4 {
        Stage::Initialise
    } else if k == 5 {
        Stage::ReadOffers
    } else if k == 6 {
        Stage::ListConfigs
    } else if k == 7 {
        Stage::BindApi(Api::OpenGl)
    } else if k == 8 {
        Stage::MakeContext(Api::OpenGl, 0)
    } else if k == 9 {
        Stage::MakeCurrent
    } else if k == 10 {
        Stage::FindEntries
    } else if k == 11 {
        Stage::FindBindImage
    } else if k == 12 {
        Stage::FindCreateImage
    } else if k == 13 {
        Stage::FindDestroyImage
    } else if k == 14 {
        Stage::FindWays
    } else {
        Stage::FindFencing
    }
}

/// Which of them a stage is, or sixteen past the last.
spec fn number(stage: Stage) -> int {
    match stage {
        Stage::LoadGbm => 0,
        Stage::OpenAllocator => 1,
        Stage::LoadEgl => 2,
        Stage::AskDisplay => 3,
        Stage::Initialise => 4,
        Stage::ReadOffers => 5,
        Stage::ListConfigs => 6,
        Stage::BindApi(_) => 7,
        Stage::MakeContext(_, _) => 8,
        Stage::MakeCurrent => 9,
        Stage::FindEntries => 10,
        Stage::FindBindImage => 11,
        Stage::FindCreateImage => 12,
        Stage::FindDestroyImage => 13,
        Stage::FindWays => 14,
        Stage::FindFencing => 15,
        _ => 16,
    }
}

/// How many buffers were taken in whole before a stage.
spec fn whole_before(stage: Stage) -> int {
    match stage {
        Stage::ImportImage(at) => at as int,
        Stage::BindTexture(at) => at as int,
        Stage::MakeFramebuffer(at) => at as int,
        _ => 0,
    }
}

#[verifier::opaque]
spec fn done_before(trace: Seq<(Opening, Heard)>, n: int, k: int) -> bool {
    forall|m: int| 0 <= m < k ==> was_done(trace, n, #[trigger] once(m))
}

#[verifier::opaque]
spec fn taken_before(trace: Seq<(Opening, Heard)>, n: int, count: int, blit: bool) -> bool {
    forall|b: usize| b < count ==> #[trigger] was_taken_in(trace, n, b, blit)
}

proof fn lemma_done_stays(trace: Seq<(Opening, Heard)>, n: int, m: int, stage: Stage)
    requires
        n <= m,
        was_done(trace, n, stage),
    ensures
        was_done(trace, m, stage),
{
    let i = choose|i: int|
        0 <= i < n && does_the_same((#[trigger] trace[i]).0.stage, stage) && went_well(
            trace[i].0.stage,
            trace[i].1,
        );
    assert(does_the_same(trace[i].0.stage, stage));
}

proof fn lemma_done_now(trace: Seq<(Opening, Heard)>, n: int, stage: Stage)
    requires
        0 <= n,
        does_the_same(trace[n].0.stage, stage),
        went_well(trace[n].0.stage, trace[n].1),
    ensures
        was_done(trace, n + 1, stage),
{
    assert(does_the_same(trace[n].0.stage, stage));
}

proof fn lemma_done_before_stays(trace: Seq<(Opening, Heard)>, n: int, k: int, m: int)
    requires
        0 <= n,
        done_before(trace, n, k),
        m <= k || (m == k + 1 && was_done(trace, n + 1, once(k))),
    ensures
        done_before(trace, n + 1, m),
{
    reveal(done_before);
    assert forall|j: int| 0 <= j < m implies was_done(trace, n + 1, #[trigger] once(j)) by {
        if j < k {
            lemma_done_stays(trace, n, n + 1, once(j));
        }
    }
}

proof fn lemma_taken_stays(trace: Seq<(Opening, Heard)>, n: int, count: int, more: int, blit: bool)
    requires
        0 <= n,
        0 <= count,
        taken_before(trace, n, count, blit),
        more == count || (more == count + 1 && count <= usize::MAX && was_taken_in(
            trace,
            n + 1,
            count as usize,
            blit,
        )),
    ensures
        taken_before(trace, n + 1, more, blit),
{
    reveal(taken_before);
    assert forall|b: usize| b < more implies #[trigger] was_taken_in(trace, n + 1, b, blit) by {
        if b < count {
            assert(was_taken_in(trace, n, b, blit));
            lemma_done_stays(trace, n, n + 1, Stage::ImportImage(b));
            lemma_done_stays(trace, n, n + 1, Stage::BindTexture(b));
            if blit {
                lemma_done_stays(trace, n, n + 1, Stage::MakeFramebuffer(b));
            }
        }
    }
}

/// What went well of what comes before a stage.
spec fn so_far(trace: Seq<(Opening, Heard)>, n: int, now: Opening) -> bool {
    &&& now.buffers == trace[0].0.buffers
    &&& done_before(trace, n, number(now.stage))
    &&& number(now.stage) > 14 ==> were_found(trace, n, now.ways)
    &&& taken_before(trace, n, whole_before(now.stage), now.ways.blit)
    &&& now.stage matches Stage::BindTexture(at) ==> was_done(trace, n, Stage::ImportImage(at))
    &&& now.stage matches Stage::MakeFramebuffer(at) ==> was_done(trace, n, Stage::ImportImage(at))
        && was_done(trace, n, Stage::BindTexture(at))
}

proof fn lemma_found_stays(trace: Seq<(Opening, Heard)>, n: int, ways: Ways)
    requires
        were_found(trace, n, ways),
    ensures
        were_found(trace, n + 1, ways),
{
    let i = choose|i: int|
        0 <= i < n && (#[trigger] trace[i]).0.stage == Stage::FindWays && (trace[i].1 matches
            Heard::Found(found) && ways.direct == found@[0] && ways.blit == found@[1]
            && ways.trust_direct == found@[0]);
    assert(trace[i].0.stage == Stage::FindWays);
}

proof fn lemma_goes_well(now: Opening, heard: Heard, then: Opening)
    requires
        now.wf(),
        fits(now.stage, heard),
        now.leads_to(heard, Next::Stage(then)),
        number(then.stage) > number(now.stage) || number(now.stage) == 16,
    ensures
        went_well(now.stage, heard),
        number(now.stage) < 16 ==> number(then.stage) == number(now.stage) + 1,
{
    lemma_entries(now, heard);
    lemma_renderable(now, heard);
}

proof fn lemma_entries(now: Opening, heard: Heard)
    ensures
        now.stage == Stage::FindEntries ==> (heard matches Heard::Found(found)
            ==> first_missing(found@, 12) is None ==> forall|i: int|
            0 <= i < 12 ==> #[trigger] found@[i]),
{
    if let Heard::Found(found) = heard {
        lemma_none_missing(found@, 12);
    }
}

proof fn lemma_none_missing(found: Seq<bool>, n: nat)
    ensures
        first_missing(found, n) is None <==> forall|i: int|
            0 <= i < n ==> #[trigger] found[i],
    decreases n,
{
    if n > 0 {
        lemma_none_missing(found, (n - 1) as nat);
    }
}

proof fn lemma_renderable(now: Opening, heard: Heard)
    ensures
        now.stage matches Stage::BindApi(api) ==> (heard matches Heard::Bits(Some(bits)) ==> (
        picked(bits@, api, bits@.len()) is Some ==> exists|at: int|
            0 <= at < bits@.len() && renders(#[trigger] bits@[at], api))),
{
    if let Stage::BindApi(api) = now.stage {
        if let Heard::Bits(Some(bits)) = heard {
            lemma_picked(bits@, api, bits@.len());
        }
    }
}

proof fn lemma_picked(bits: Seq<Option<i32>>, api: Api, n: nat)
    ensures
        picked(bits, api, n) matches Some(at) ==> 0 <= at < n && renders(
            bits[at],
            api,
        ),
        picked(bits, api, n) is None ==> forall|k: int|
            0 <= k < n ==> !renders(#[trigger] bits[k], api),
    decreases n,
{
    if n > 0 {
        lemma_picked(bits, api, (n - 1) as nat);
    }
}

proof fn lemma_one_stage_further(trace: Seq<(Opening, Heard)>, n: int, then: Opening)
    requires
        0 <= n,
        trace[n].0.wf(),
        fits(trace[n].0.stage, trace[n].1),
        so_far(trace, n, trace[n].0),
        trace[n].0.leads_to(trace[n].1, Next::Stage(then)),
    ensures
        so_far(trace, n + 1, then),
{
    let now = trace[n].0;
    let heard = trace[n].1;
    let k = number(now.stage);
    let m = number(then.stage);
    if m > k || k == 16 {
        lemma_goes_well(now, heard, then);
        lemma_done_now(trace, n, now.stage);
    }
    if k < 16 && m > k {
        lemma_done_now(trace, n, once(k));
    }
    lemma_done_before_stays(trace, n, k, m);
    if k > 14 {
        lemma_found_stays(trace, n, now.ways);
    }
    if now.stage == Stage::FindWays {
        assert(trace[n].0.stage == Stage::FindWays);
    }
    if k == 16 {
        let whole = whole_before(now.stage);
        if whole_before(then.stage) > whole {
            match now.stage {
                Stage::BindTexture(at) => {
                    lemma_done_stays(trace, n, n + 1, Stage::ImportImage(at));
                },
                Stage::MakeFramebuffer(at) => {
                    lemma_done_stays(trace, n, n + 1, Stage::ImportImage(at));
                    lemma_done_stays(trace, n, n + 1, Stage::BindTexture(at));
                },
                _ => {},
            }
        } else {
            match now.stage {
                Stage::BindTexture(at) => {
                    lemma_done_stays(trace, n, n + 1, Stage::ImportImage(at));
                },
                _ => {},
            }
        }
        lemma_taken_stays(trace, n, whole, whole_before(then.stage), now.ways.blit);
    } else {
        reveal(taken_before);
    }
}

proof fn lemma_so_far(trace: Seq<(Opening, Heard)>, n: int)
    requires
        follows_on(trace),
        0 <= n < trace.len(),
    ensures
        so_far(trace, n, trace[n].0),
    decreases n,
{
    if n == 0 {
        reveal(done_before);
        reveal(taken_before);
    } else {
        lemma_so_far(trace, n - 1);
        assert(trace[n - 1].0.wf());
        lemma_one_stage_further(trace, n - 1, trace[n].0);
    }
}

/// A copier is open only where everything it rests on was there: each library, the allocator, the
/// display and what it offers, a config and a context for it, every name that was looked up, and for
/// each buffer an image, a texture, and a framebuffer where rectangles are blitted. And it moves
/// rectangles in the ways that were found.
pub proof fn nothing_is_opened_over_a_failure(trace: Seq<(Opening, Heard)>, next: Next)
    requires
        follows_on(trace),
        trace.last().0.leads_to(trace.last().1, next),
        next is Open,
    ensures
        ({
            let n = trace.len() as int;
            &&& was_done(trace, n, Stage::LoadGbm)
            &&& was_done(trace, n, Stage::OpenAllocator)
            &&& was_done(trace, n, Stage::LoadEgl)
            &&& was_done(trace, n, Stage::AskDisplay)
            &&& was_done(trace, n, Stage::Initialise)
            &&& was_done(trace, n, Stage::ReadOffers)
            &&& was_done(trace, n, Stage::ListConfigs)
            &&& was_done(trace, n, Stage::BindApi(Api::OpenGl))
            &&& was_done(trace, n, Stage::MakeContext(Api::OpenGl, 0))
            &&& was_done(trace, n, Stage::MakeCurrent)
            &&& was_done(trace, n, Stage::FindEntries)
            &&& was_done(trace, n, Stage::FindBindImage)
            &&& was_done(trace, n, Stage::FindCreateImage)
            &&& was_done(trace, n, Stage::FindDestroyImage)
            &&& was_done(trace, n, Stage::FindWays)
            &&& was_done(trace, n, Stage::FindFencing)
            &&& next matches Next::Open(ways, _) && were_found(trace, n, ways) && forall|b: usize|
                b < trace[0].0.buffers ==> #[trigger] was_taken_in(trace, n, b, ways.blit)
        }),
{
    let n = trace.len() - 1;
    let now = trace[n].0;
    let heard = trace[n].1;
    lemma_so_far(trace, n);
    assert(trace[n].0.wf());
    let k = number(now.stage);
    lemma_found_stays(trace, n, now.ways);
    match now.stage {
        Stage::BindTexture(at) => {
            lemma_done_stays(trace, n, n + 1, Stage::ImportImage(at));
            lemma_done_now(trace, n, now.stage);
            lemma_done_before_stays(trace, n, k, 16);
            lemma_taken_stays(trace, n, at as int, at + 1, now.ways.blit);
        },
        Stage::MakeFramebuffer(at) => {
            lemma_done_stays(trace, n, n + 1, Stage::ImportImage(at));
            lemma_done_stays(trace, n, n + 1, Stage::BindTexture(at));
            lemma_done_now(trace, n, now.stage);
            lemma_done_before_stays(trace, n, k, 16);
            lemma_taken_stays(trace, n, at as int, at + 1, now.ways.blit);
        },
        _ => {
            lemma_done_now(trace, n, once(15));
            lemma_done_before_stays(trace, n, k, 16);
            lemma_taken_stays(trace, n, 0, 0, now.ways.blit);
        },
    }
    reveal(done_before);
    reveal(taken_before);
    assert(once(0) == Stage::LoadGbm && once(1) == Stage::OpenAllocator && once(2)
        == Stage::LoadEgl && once(3) == Stage::AskDisplay && once(4) == Stage::Initialise && once(5)
        == Stage::ReadOffers && once(6) == Stage::ListConfigs && once(7) == Stage::BindApi(
        Api::OpenGl,
    ) && once(8) == Stage::MakeContext(Api::OpenGl, 0) && once(9) == Stage::MakeCurrent && once(10)
        == Stage::FindEntries && once(11) == Stage::FindBindImage && once(12)
        == Stage::FindCreateImage && once(13) == Stage::FindDestroyImage && once(14)
        == Stage::FindWays && once(15) == Stage::FindFencing);
}


/// A stage that came to what opening a copier needs of it is never refused: it goes on, or the copier
/// is open.
pub proof fn a_stage_that_went_well_is_not_refused(now: Opening, heard: Heard, next: Next)
    requires
        now.wf(),
        fits(now.stage, heard),
        now.leads_to(heard, next),
        went_well(now.stage, heard),
    ensures
        !(next is Refused),
{
    if let Heard::Found(found) = heard {
        lemma_none_missing(found@, 12);
    }
    if let Stage::BindApi(api) = now.stage {
        if let Heard::Bits(Some(bits)) = heard {
            lemma_picked(bits@, api, bits@.len());
        }
    }
}

} // verus!
