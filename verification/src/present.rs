//! Where a composed frame is copied to, when that is one of several textures.
//!
//! A display controller scans out of buffers that belong to whatever drives the display, and there
//! are several of them so that the hardware reads one while the next is drawn. A frame lands in one
//! of them, and what it changed is owed to every one it missed.

use vstd::prelude::*;

use crate::damage_set::{absorbed, covered, modest, pixels_of, DamageSet};
use crate::frame::damage::area;
use crate::frame::target::TextureFormat;
use crate::geom::{greater, least, lesser, most, Point, Rect, Size};

verus! {

/// How many pieces a rectangle is cut into before it is carried whole.
pub const PIECES: usize = 8;

/// Some rectangles and one more, unless that is empty.
pub open spec fn with_some(rects: Seq<Rect>, rect: Rect) -> Seq<Rect> {
    if rect.void() {
        rects
    } else {
        rects.push(rect)
    }
}

/// Some rectangles, and what is left of one more where another lies over it: all of it where the two
/// share nothing, and otherwise the part above, the one below, and the one on each side.
pub open spec fn with_pieces(rects: Seq<Rect>, piece: Rect, cut: Rect) -> Seq<Rect> {
    if !piece.meets(cut) {
        rects.push(piece)
    } else {
        let left = most(piece.x0(), cut.x0());
        let right = least(piece.x1(), cut.x1());
        let top = most(piece.y0(), cut.y0());
        let bottom = least(piece.y1(), cut.y1());
        let above = Rect::cornered(piece.x0(), piece.y0(), piece.x1(), top);
        let below = Rect::cornered(piece.x0(), bottom, piece.x1(), piece.y1());
        let beside = Rect::cornered(piece.x0(), top, left, bottom);
        let past = Rect::cornered(right, top, piece.x1(), bottom);
        with_some(with_some(with_some(with_some(rects, above), below), beside), past)
    }
}

/// What is left of the first `n` pieces where one rectangle lies over them.
pub open spec fn pieces_after(pieces: Seq<Rect>, cut: Rect, n: nat) -> Seq<Rect>
    decreases n,
{
    if n == 0 {
        Seq::empty()
    } else {
        with_pieces(pieces_after(pieces, cut, (n - 1) as nat), pieces[n - 1], cut)
    }
}

/// The pieces left of a rectangle once each of the first `n` rectangles was cut out of it in turn, or
/// nothing once they were more than it is cut into.
pub open spec fn pieces_left(rect: Rect, cut: Seq<Rect>, n: nat) -> Option<Seq<Rect>>
    decreases n,
{
    if n == 0 {
        Some(seq![rect])
    } else {
        match pieces_left(rect, cut, (n - 1) as nat) {
            Some(pieces) => {
                let next = pieces_after(pieces, cut[n - 1], pieces.len());
                if next.len() > PIECES {
                    None
                } else {
                    Some(next)
                }
            },
            None => None,
        }
    }
}

/// The pieces left of a rectangle, or all of it where there would be too many.
pub open spec fn left_of(rect: Rect, cut: Seq<Rect>) -> Seq<Rect> {
    match pieces_left(rect, cut, cut.len()) {
        Some(pieces) => pieces,
        None => seq![rect],
    }
}

/// What is left of each of the first `n` rectangles, one after the other.
pub open spec fn left_beyond(rects: Seq<Rect>, cut: Seq<Rect>, n: nat) -> Seq<Rect>
    decreases n,
{
    if n == 0 {
        Seq::empty()
    } else {
        left_beyond(rects, cut, (n - 1) as nat) + left_of(rects[n - 1], cut)
    }
}

/// What is left of a rectangle where another lies over it: a part above, one below, and one on each
/// side.
fn pieces_of(piece: Rect, cut: Rect, into: &mut Vec<Rect>)
    requires
        piece.near(),
        !piece.void(),
        cut.near(),
        modest(old(into)@),
    ensures
        final(into)@ == with_pieces(old(into)@, piece, cut),
        modest(final(into)@),
        forall|x: int, y: int| #[trigger]
            covered(final(into)@, x, y) <==> covered(old(into)@, x, y) || (piece.has(x, y)
                && !cut.has(x, y)),
{
    let ghost before = into@;
    if !piece.intersects(cut) {
        into.push(piece);
        proof {
            assert forall|x: int, y: int| #[trigger]
                covered(into@, x, y) <==> covered(before, x, y) || (piece.has(x, y) && !cut.has(
                x,
                y,
            )) by {
                lemma_covered_by_one_more(before, piece, x, y);
            }
            lemma_modest_by_one_more(before, piece);
        }
        return;
    }
    let left: i32 = greater(piece.left(), cut.left());
    let right: i32 = lesser(piece.right(), cut.right());
    let top: i32 = greater(piece.top(), cut.top());
    let bottom: i32 = lesser(piece.bottom(), cut.bottom());
    let above = Rect::from_corners(
        Point::new(piece.left(), piece.top()),
        Point::new(piece.right(), top),
    );
    let below = Rect::from_corners(
        Point::new(piece.left(), bottom),
        Point::new(piece.right(), piece.bottom()),
    );
    let beside = Rect::from_corners(Point::new(piece.left(), top), Point::new(left, bottom));
    let past = Rect::from_corners(Point::new(right, top), Point::new(piece.right(), bottom));
    keep_some(into, above);
    keep_some(into, below);
    keep_some(into, beside);
    keep_some(into, past);
}

/// Adds a rectangle that is not empty.
fn keep_some(into: &mut Vec<Rect>, rect: Rect)
    requires
        modest(old(into)@),
        rect.near(),
    ensures
        final(into)@ == with_some(old(into)@, rect),
        modest(final(into)@),
        forall|x: int, y: int| #[trigger]
            covered(final(into)@, x, y) <==> covered(old(into)@, x, y) || rect.has(x, y),
{
    let ghost before = into@;
    if !rect.is_empty() {
        into.push(rect);
        proof {
            assert forall|x: int, y: int| #[trigger]
                covered(into@, x, y) <==> covered(before, x, y) || rect.has(x, y) by {
                lemma_covered_by_one_more(before, rect, x, y);
            }
            lemma_modest_by_one_more(before, rect);
        }
    }
}

proof fn lemma_covered_by_one_more(rects: Seq<Rect>, rect: Rect, x: int, y: int)
    ensures
        covered(rects.push(rect), x, y) <==> covered(rects, x, y) || rect.has(x, y),
{
    let more = rects.push(rect);
    if covered(rects, x, y) {
        let i = choose|i: int| 0 <= i < rects.len() && (#[trigger] rects[i]).has(x, y);
        assert(more[i].has(x, y));
    }
    if rect.has(x, y) {
        assert(more[rects.len() as int].has(x, y));
    }
    if covered(more, x, y) {
        let i = choose|i: int| 0 <= i < more.len() && (#[trigger] more[i]).has(x, y);
        if i < rects.len() {
            assert(rects[i].has(x, y));
        }
    }
}

proof fn lemma_modest_by_one_more(rects: Seq<Rect>, rect: Rect)
    requires
        modest(rects),
        rect.near(),
        !rect.void(),
    ensures
        modest(rects.push(rect)),
{
    let more = rects.push(rect);
    assert forall|i: int| 0 <= i < more.len() implies (#[trigger] more[i]).near()
        && !more[i].void() by {
        if i < rects.len() {
            assert(more[i] == rects[i]);
        }
    }
}

/// Whether the first `n` of some rectangles hold a pixel.
pub open spec fn covered_by_first(rects: Seq<Rect>, n: int, x: int, y: int) -> bool {
    exists|i: int| 0 <= i < n && (#[trigger] rects[i]).has(x, y)
}

/// One rectangle cut out of another never leaves too many pieces.
proof fn lemma_one_cut_is_few_pieces(rect: Rect, cut: Seq<Rect>)
    ensures
        cut.len() <= 1 ==> pieces_left(rect, cut, cut.len()) is Some,
{
    if cut.len() == 1 {
        reveal_with_fuel(pieces_left, 2);
        reveal_with_fuel(pieces_after, 2);
        let first = seq![rect];
        assert(pieces_left(rect, cut, 0) == Some(first));
        assert(pieces_after(first, cut[0], 0) == Seq::<Rect>::empty());
        assert(pieces_after(first, cut[0], 1) == with_pieces(Seq::empty(), first[0], cut[0]));
        assert(with_pieces(Seq::empty(), rect, cut[0]).len() <= 4);
    }
}

/// What is left of one rectangle where none of `cut` lies over it, or all of it where that would be
/// too many pieces.
fn cut_out(rect: Rect, cut: &Vec<Rect>) -> (r: Vec<Rect>)
    requires
        rect.near(),
        !rect.void(),
        modest(cut@),
    ensures
        r@ == left_of(rect, cut@),
        modest(r@),
        forall|x: int, y: int| #[trigger] covered(r@, x, y) ==> rect.has(x, y),
        forall|x: int, y: int|
            rect.has(x, y) && !covered(cut@, x, y) ==> #[trigger] covered(r@, x, y),
        pieces_left(rect, cut@, cut@.len()) is Some ==> forall|x: int, y: int| #[trigger]
            covered(r@, x, y) <==> rect.has(x, y) && !covered(cut@, x, y),
        cut@.len() <= 1 ==> forall|x: int, y: int| #[trigger]
            covered(r@, x, y) <==> rect.has(x, y) && !covered(cut@, x, y),
{
    let mut pieces: Vec<Rect> = Vec::new();
    pieces.push(rect);
    proof {
        assert(pieces@ =~= Seq::<Rect>::empty().push(rect));
        assert(pieces@ =~= seq![rect]);
        assert forall|x: int, y: int| #[trigger] covered(pieces@, x, y) <==> rect.has(x, y)
            && !covered_by_first(cut@, 0, x, y) by {
            lemma_covered_by_one_more(Seq::empty(), rect, x, y);
        }
    }
    let mut i: usize = 0;
    while i < cut.len()
        invariant
            i <= cut@.len(),
            modest(cut@),
            pieces_left(rect, cut@, i as nat) == Some(pieces@),
            modest(pieces@),
            rect.near(),
            !rect.void(),
            forall|x: int, y: int| #[trigger]
                covered(pieces@, x, y) <==> rect.has(x, y) && !covered_by_first(
                    cut@,
                    i as int,
                    x,
                    y,
                ),
        decreases cut@.len() - i,
    {
        let mut next: Vec<Rect> = Vec::new();
        let mut j: usize = 0;
        assert(cut@[i as int].near());
        while j < pieces.len()
            invariant
                i < cut@.len(),
                j <= pieces@.len(),
                next@ == pieces_after(pieces@, cut@[i as int], j as nat),
                modest(pieces@),
                modest(next@),
                cut@[i as int].near(),
                forall|x: int, y: int| #[trigger]
                    covered(next@, x, y) <==> covered_by_first(pieces@, j as int, x, y)
                        && !cut@[i as int].has(x, y),
            decreases pieces@.len() - j,
        {
            assert(pieces@[j as int].near() && !pieces@[j as int].void());
            let ghost before = next@;
            pieces_of(pieces[j], cut[i], &mut next);
            proof {
                assert forall|x: int, y: int| #[trigger]
                    covered(next@, x, y) <==> covered_by_first(pieces@, j + 1, x, y)
                        && !cut@[i as int].has(x, y) by {
                    assert(covered(before, x, y) <==> covered_by_first(pieces@, j as int, x, y)
                        && !cut@[i as int].has(x, y));
                    lemma_first_of_one_more(pieces@, j as int, x, y);
                }
            }
            j += 1;
        }
        if next.len() > PIECES {
            let mut whole: Vec<Rect> = Vec::new();
            whole.push(rect);
            proof {
                assert(whole@ =~= Seq::<Rect>::empty().push(rect));
                assert(whole@ =~= seq![rect]);
                lemma_splintered_stays(rect, cut@, (i + 1) as nat, cut@.len());
                lemma_one_cut_is_few_pieces(rect, cut@);
                lemma_modest_by_one_more(Seq::empty(), rect);
                assert forall|x: int, y: int| #[trigger] covered(whole@, x, y) <==> rect.has(
                    x,
                    y,
                ) by {
                    lemma_covered_by_one_more(Seq::empty(), rect, x, y);
                }
            }
            return whole;
        }
        proof {
            assert forall|x: int, y: int| #[trigger] covered(next@, x, y) <==> rect.has(x, y)
                && !covered_by_first(cut@, i + 1, x, y) by {
                assert(covered(pieces@, x, y) <==> covered_by_first(
                    pieces@,
                    pieces@.len() as int,
                    x,
                    y,
                ));
                lemma_first_of_one_more(cut@, i as int, x, y);
            }
        }
        pieces = next;
        i += 1;
    }
    proof {
        assert forall|x: int, y: int| #[trigger] covered(pieces@, x, y) <==> rect.has(x, y)
            && !covered(cut@, x, y) by {
            assert(covered(cut@, x, y) <==> covered_by_first(cut@, cut@.len() as int, x, y));
        }
    }
    pieces
}

proof fn lemma_splintered_stays(rect: Rect, cut: Seq<Rect>, n: nat, all: nat)
    requires
        n <= all,
        pieces_left(rect, cut, n) is None,
    ensures
        pieces_left(rect, cut, all) is None,
    decreases all,
{
    if n < all {
        lemma_splintered_stays(rect, cut, n, (all - 1) as nat);
    }
}

proof fn lemma_first_of_one_more(rects: Seq<Rect>, n: int, x: int, y: int)
    requires
        0 <= n < rects.len(),
    ensures
        covered_by_first(rects, n + 1, x, y) <==> covered_by_first(rects, n, x, y) || rects[n].has(
            x,
            y,
        ),
{
    if rects[n].has(x, y) {
        assert(covered_by_first(rects, n + 1, x, y));
    }
}

/// What of some rectangles nothing of `cut` covers, or a little more.
///
/// Cut out rectangle by rectangle, and one that comes to too many pieces on the way is kept whole:
/// bigger, and still correct. Every pixel that is covered by `rects` and not by `cut` is in the answer, and
/// nothing is in it that `rects` does not cover.
pub fn beyond(rects: &Vec<Rect>, cut: &Vec<Rect>) -> (r: Vec<Rect>)
    requires
        modest(rects@),
        modest(cut@),
    ensures
        r@ == left_beyond(rects@, cut@, rects@.len()),
        modest(r@),
        forall|x: int, y: int| #[trigger] covered(r@, x, y) ==> covered(rects@, x, y),
        forall|x: int, y: int|
            covered(rects@, x, y) && !covered(cut@, x, y) ==> #[trigger] covered(r@, x, y),
        cut@.len() <= 1 ==> forall|x: int, y: int| #[trigger]
            covered(r@, x, y) <==> covered(rects@, x, y) && !covered(cut@, x, y),
{
    let mut all: Vec<Rect> = Vec::new();
    let mut i: usize = 0;
    while i < rects.len()
        invariant
            i <= rects@.len(),
            modest(rects@),
            modest(cut@),
            all@ == left_beyond(rects@, cut@, i as nat),
            modest(all@),
            forall|x: int, y: int| #[trigger]
                covered(all@, x, y) ==> covered_by_first(rects@, i as int, x, y),
            forall|x: int, y: int|
                covered_by_first(rects@, i as int, x, y) && !covered(cut@, x, y)
                    ==> #[trigger] covered(all@, x, y),
            cut@.len() <= 1 ==> forall|x: int, y: int| #[trigger]
                covered(all@, x, y) ==> !covered(cut@, x, y),
        decreases rects@.len() - i,
    {
        assert(rects@[i as int].near() && !rects@[i as int].void());
        let left = cut_out(rects[i], cut);
        let ghost before = all@;
        let mut j: usize = 0;
        assert(before + left@.take(0) =~= before);
        while j < left.len()
            invariant
                j <= left@.len(),
                all@ == before + left@.take(j as int),
                modest(left@),
                modest(all@),
                forall|x: int, y: int| #[trigger]
                    covered(all@, x, y) <==> covered(before, x, y) || covered_by_first(
                        left@,
                        j as int,
                        x,
                        y,
                    ),
            decreases left@.len() - j,
        {
            assert(left@[j as int].near() && !left@[j as int].void());
            let ghost held = all@;
            all.push(left[j]);
            proof {
                assert(all@ =~= before + left@.take(j + 1));
                lemma_modest_by_one_more(held, left@[j as int]);
                assert forall|x: int, y: int| #[trigger]
                    covered(all@, x, y) <==> covered(before, x, y) || covered_by_first(
                        left@,
                        j + 1,
                        x,
                        y,
                    ) by {
                    lemma_covered_by_one_more(held, left@[j as int], x, y);
                    lemma_first_of_one_more(left@, j as int, x, y);
                    assert(covered(held, x, y) <==> covered(before, x, y) || covered_by_first(
                        left@,
                        j as int,
                        x,
                        y,
                    ));
                }
            }
            j += 1;
        }
        proof {
            assert(left@.take(left@.len() as int) =~= left@);
            assert forall|x: int, y: int| #[trigger] covered(all@, x, y) implies covered_by_first(
                rects@,
                i + 1,
                x,
                y,
            ) by {
                lemma_first_of_one_more(rects@, i as int, x, y);
                assert(covered_by_first(left@, left@.len() as int, x, y) <==> covered(left@, x, y));
            }
            if cut@.len() <= 1 {
                assert forall|x: int, y: int| #[trigger] covered(all@, x, y) implies !covered(
                    cut@,
                    x,
                    y,
                ) by {
                    assert(covered_by_first(left@, left@.len() as int, x, y) <==> covered(
                        left@,
                        x,
                        y,
                    ));
                    if !covered(before, x, y) {
                        assert(covered(left@, x, y));
                    }
                }
            }
            assert forall|x: int, y: int|
                covered_by_first(rects@, i + 1, x, y) && !covered(
                    cut@,
                    x,
                    y,
                ) implies #[trigger] covered(all@, x, y) by {
                lemma_first_of_one_more(rects@, i as int, x, y);
                assert(covered_by_first(left@, left@.len() as int, x, y) <==> covered(left@, x, y));
                if rects@[i as int].has(x, y) {
                    assert(covered(left@, x, y));
                } else {
                    assert(covered(before, x, y));
                }
            }
        }
        i += 1;
    }
    proof {
        assert forall|x: int, y: int| #[trigger] covered(all@, x, y) implies covered(
            rects@,
            x,
            y,
        ) by {
            assert(covered_by_first(rects@, rects@.len() as int, x, y));
        }
        assert forall|x: int, y: int|
            covered(rects@, x, y) && !covered(cut@, x, y) implies #[trigger] covered(
            all@,
            x,
            y,
        ) by {
            assert(covered_by_first(rects@, rects@.len() as int, x, y));
        }
    }
    all
}

/// How many pixels some rectangles hold, one by one.
fn pixels(rects: &Vec<Rect>) -> (r: u128)
    ensures
        r == pixels_of(rects@, rects@.len()),
{
    let mut all: u128 = 0;
    let mut i: usize = 0;
    while i < rects.len()
        invariant
            i <= rects@.len(),
            all == pixels_of(rects@, i as nat),
            all <= i * 0xffff_ffff_ffff_ffff,
        decreases rects@.len() - i,
    {
        assert(i * 0xffff_ffff_ffff_ffff <= 0xffff_ffff_ffff_ffff * 0xffff_ffff_ffff_ffff)
            by (nonlinear_arith)
            requires
                i <= 0xffff_ffff_ffff_ffff,
        ;
        all = all + area(rects[i]) as u128;
        i += 1;
    }
    all
}

/// What a texture handed over for presenting says of itself.
#[derive(Clone, Copy, Debug, PartialEq, Eq, Structural)]
pub struct TextureFacts {
    /// Whether it can be a colour attachment.
    pub attachment: bool,
    /// Whether it is two-dimensional.
    pub flat: bool,
    /// How many levels it has.
    pub mips: u32,
    /// How many samples it takes.
    pub samples: u32,
    /// How many layers it has.
    pub layers: u32,
    /// How its texels are laid out.
    pub format: TextureFormat,
    /// How wide it is.
    pub width: u32,
    /// How tall it is.
    pub height: u32,
}

/// Why some textures cannot be presented to as one set, by the number of the first that cannot.
#[derive(Clone, Copy, Debug, PartialEq, Eq, Structural)]
pub enum Unusable {
    /// The set is empty, so it states no format and no extent.
    Empty,
    /// A frame is copied into it, which needs a colour attachment.
    NotAnAttachment(usize),
    /// A frame is copied into a two-dimensional attachment.
    NotFlat(usize),
    /// It has so many levels; a frame is copied into one.
    Mips(usize, u32),
    /// It takes so many samples; the copy that ends a frame resolves nothing.
    Samples(usize, u32),
    /// It has so many layers; a frame is copied into one.
    Layers(usize, u32),
    /// One set is presented in one format.
    Format(usize),
    /// One set is presented at one extent.
    Extent(usize),
}

/// Why one texture cannot be presented to, in a set that starts with `first`.
pub open spec fn fault(texture: TextureFacts, first: TextureFacts, slot: usize) -> Option<Unusable> {
    if !texture.attachment {
        Some(Unusable::NotAnAttachment(slot))
    } else if !texture.flat {
        Some(Unusable::NotFlat(slot))
    } else if texture.mips != 1 {
        Some(Unusable::Mips(slot, texture.mips))
    } else if texture.samples != 1 {
        Some(Unusable::Samples(slot, texture.samples))
    } else if texture.layers != 1 {
        Some(Unusable::Layers(slot, texture.layers))
    } else if texture.format != first.format {
        Some(Unusable::Format(slot))
    } else if texture.width != first.width || texture.height != first.height || texture.layers
        != first.layers {
        Some(Unusable::Extent(slot))
    } else {
        None
    }
}

/// Why the first of the first `n` textures that cannot be presented to cannot.
pub open spec fn first_fault(textures: Seq<TextureFacts>, n: nat) -> Option<Unusable>
    decreases n,
{
    if n == 0 {
        None
    } else {
        match first_fault(textures, (n - 1) as nat) {
            Some(why) => Some(why),
            None => fault(textures[n - 1], textures[0], (n - 1) as usize),
        }
    }
}

proof fn lemma_fault_stays(textures: Seq<TextureFacts>, m: nat, n: nat)
    requires
        m <= n,
        first_fault(textures, m) is Some,
    ensures
        first_fault(textures, n) == first_fault(textures, m),
    decreases n,
{
    if m < n {
        lemma_fault_stays(textures, m, (n - 1) as nat);
    }
}

/// Whether a texture is one flat attachment of one level, one sample and one layer, of the format and
/// the extent of the first.
pub open spec fn presentable(textures: Seq<TextureFacts>, at: int) -> bool {
    let texture = textures[at];
    &&& texture.attachment
    &&& texture.flat
    &&& texture.mips == 1
    &&& texture.samples == 1
    &&& texture.layers == 1
    &&& texture.format == textures[0].format
    &&& texture.width == textures[0].width
    &&& texture.height == textures[0].height
}

/// Whether the first texture that is not presentable is the one at `at`, and `why` says what of it
/// is not as it must be.
pub open spec fn named_first(textures: Seq<TextureFacts>, at: int, why: Unusable) -> bool {
    let texture = textures[at];
    &&& 0 <= at < textures.len()
    &&& forall|k: int| 0 <= k < at ==> #[trigger] presentable(textures, k)
    &&& match why {
        Unusable::Empty => false,
        Unusable::NotAnAttachment(slot) => slot == at && !texture.attachment,
        Unusable::NotFlat(slot) => slot == at && !texture.flat,
        Unusable::Mips(slot, mips) => slot == at && mips == texture.mips && mips != 1,
        Unusable::Samples(slot, samples) => slot == at && samples == texture.samples && samples
            != 1,
        Unusable::Layers(slot, layers) => slot == at && layers == texture.layers && layers != 1,
        Unusable::Format(slot) => slot == at && texture.format != textures[0].format,
        Unusable::Extent(slot) => slot == at && (texture.width != textures[0].width
            || texture.height != textures[0].height),
    }
}

/// Returns why `textures` cannot be presented to as one set, or `None` when they can.
///
/// Every question here is answered by the handle itself, and every answer is otherwise fatal inside
/// the first frame's pass. So the questions are asked while the caller can still act on the answer.
///
/// The set also has to agree with itself, because one format and one extent are derived for all of
/// it. A set that disagreed would present the frames landing on one texture correctly and corrupt
/// the frames landing on another.
pub fn unusable(textures: &Vec<TextureFacts>) -> (r: Option<Unusable>)
    ensures
        r == (if textures@.len() == 0 {
            Some(Unusable::Empty)
        } else {
            first_fault(textures@, textures@.len())
        }),
        r is None <==> textures@.len() > 0 && forall|k: int|
            0 <= k < textures@.len() ==> #[trigger] presentable(textures@, k),
        r matches Some(why) ==> (textures@.len() == 0 && why == Unusable::Empty) || exists|at: int|
            #[trigger] named_first(textures@, at, why),
{
    if textures.len() == 0 {
        return Some(Unusable::Empty);
    }
    let first = textures[0];
    let mut slot: usize = 0;
    while slot < textures.len()
        invariant
            slot <= textures@.len(),
            textures@.len() > 0,
            first == textures@[0],
            first_fault(textures@, slot as nat) is None,
            forall|k: int| 0 <= k < slot ==> #[trigger] presentable(textures@, k),
        decreases textures@.len() - slot,
    {
        let texture = textures[slot];
        let why = if !texture.attachment {
            Some(Unusable::NotAnAttachment(slot))
        } else if !texture.flat {
            Some(Unusable::NotFlat(slot))
        } else if texture.mips != 1 {
            Some(Unusable::Mips(slot, texture.mips))
        } else if texture.samples != 1 {
            Some(Unusable::Samples(slot, texture.samples))
        } else if texture.layers != 1 {
            Some(Unusable::Layers(slot, texture.layers))
        } else if texture.format != first.format {
            Some(Unusable::Format(slot))
        } else if texture.width != first.width || texture.height != first.height || texture.layers
            != first.layers {
            Some(Unusable::Extent(slot))
        } else {
            None
        };
        if why.is_some() {
            proof {
                assert(first_fault(textures@, (slot + 1) as nat) == why);
                lemma_fault_stays(textures@, (slot + 1) as nat, textures@.len());
                assert(named_first(textures@, slot as int, why->0));
                assert(!presentable(textures@, slot as int));
            }
            return why;
        }
        slot += 1;
    }
    None
}

/// Textures a caller supplies and rotates between.
#[derive(Debug)]
pub struct Supplied<const N: usize> {
    /// How many textures there are.
    pub count: usize,
    /// Which one the next frame is copied into.
    pub selected: usize,
    /// The extent every one of them has.
    pub size: Size,
    /// Per texture: what was written into some *other* texture since this one was last written.
    ///
    /// A supplied set is rotated through, so a frame lands in one of them and what it changed is
    /// owed to every one it missed. Without this a copy limited to what changed would show, on
    /// alternate frames, whatever that texture held two frames ago.
    pub stale: Vec<DamageSet<N>>,
    /// Whether the caller reads each texture out and throws it away rather than rotating them.
    ///
    /// There is nothing for such a texture to owe, and a debt would be pixels sent for nobody.
    pub consumed: bool,
    /// Which texture was written in full last, where one was.
    ///
    /// The donor a repair reads from: it was written more recently than the one being written now.
    pub donor: Option<usize>,
    /// Whether the renderer was configured for an extent these textures do not have.
    ///
    /// The renderer cannot reallocate a supplied set, so this is a state a frame has to stop in
    /// rather than one it can draw through.
    pub diverged: bool,
}

/// What a peer copies from one texture to another, and what is then left to send.
#[derive(Debug)]
pub struct Repair {
    /// The texture it is copied from.
    pub donor: usize,
    /// What is copied.
    pub carried: Vec<Rect>,
    /// What has to come from the composed target after it.
    pub left: Vec<Rect>,
}

/// What the copy at the end of a frame owes a texture, before a peer was asked.
#[derive(Debug)]
pub struct Owing {
    /// What has to come from the composed target where no peer services any of it.
    pub debt: Vec<Rect>,
    /// What a peer is asked for first, where one is worth asking.
    pub repair: Option<Repair>,
}

/// What the copy at the end of a frame owes, and what a peer serviced instead.
#[derive(Debug)]
pub struct Owed {
    /// The rectangles that have to come from the composed target, which is the renderer's device.
    pub from_composed: Vec<Rect>,
    /// How many pixels a peer copy filled, and therefore did not cross a link.
    pub repaired: u128,
}

/// The rectangles of a damage set once the first `n` of some more are damaged too.
pub open spec fn gathered(rects: Seq<Rect>, more: Seq<Rect>, room: nat, n: nat) -> Seq<Rect>
    decreases n,
{
    if n == 0 {
        rects
    } else {
        absorbed(gathered(rects, more, room, (n - 1) as nat), more[n - 1], room)
    }
}

/// Whether every rectangle of a list is within reach.
pub open spec fn all_near(rects: Seq<Rect>) -> bool {
    forall|i: int| 0 <= i < rects.len() ==> (#[trigger] rects[i]).near()
}

/// Damages every rectangle of a list.
fn gather<const N: usize>(held: &mut DamageSet<N>, rects: &Vec<Rect>)
    requires
        old(held).wf(),
        N > 0,
        all_near(rects@),
    ensures
        final(held).wf(),
        final(held).full == old(held).full,
        !old(held).full ==> final(held).rects@ == gathered(
            old(held).rects@,
            rects@,
            N as nat,
            rects@.len(),
        ),
        forall|x: int, y: int|
            old(held).has(x, y) || covered(rects@, x, y) ==> #[trigger] final(held).has(x, y),
{
    let mut i: usize = 0;
    while i < rects.len()
        invariant
            i <= rects@.len(),
            N > 0,
            all_near(rects@),
            held.wf(),
            held.full == old(held).full,
            !held.full ==> held.rects@ == gathered(old(held).rects@, rects@, N as nat, i as nat),
            forall|x: int, y: int|
                old(held).has(x, y) || covered_by_first(rects@, i as int, x, y)
                    ==> #[trigger] held.has(x, y),
        decreases rects@.len() - i,
    {
        assert(rects@[i as int].near());
        let ghost before = *held;
        held.absorb(rects[i]);
        proof {
            assert forall|x: int, y: int|
                old(held).has(x, y) || covered_by_first(rects@, i + 1, x, y) implies #[trigger]
            held.has(x, y) by {
                lemma_first_of_one_more(rects@, i as int, x, y);
                assert(before.has(x, y) ==> held.has(x, y));
                assert(rects@[i as int].has(x, y) ==> held.has(x, y));
            }
        }
        i += 1;
    }
    proof {
        assert forall|x: int, y: int|
            old(held).has(x, y) || covered(rects@, x, y) implies #[trigger] held.has(x, y) by {
            assert(covered(rects@, x, y) ==> covered_by_first(
                rects@,
                rects@.len() as int,
                x,
                y,
            ));
        }
    }
}

impl<const N: usize> Supplied<N> {
    /// All of a texture.
    pub open spec fn whole(self) -> Rect {
        Rect { origin: Point { x: 0, y: 0 }, size: self.size }
    }

    /// Whether there is a texture, one of them is selected, and every debt is a set of rectangles.
    pub open spec fn wf(self) -> bool {
        &&& 0 < self.count == self.stale@.len()
        &&& 0 < N
        &&& self.selected < self.count
        &&& self.whole().near()
        &&& !self.whole().void()
        &&& forall|k: int| 0 <= k < self.stale@.len() ==> (#[trigger] self.stale@[k]).wf()
    }

    /// Creates a presentation over textures that say this of themselves, of which the first is
    /// written next.
    ///
    /// The extent is the textures' own. Answers `None` when they cannot be presented to as one set;
    /// [`unusable`] says why.
    pub fn new(textures: &Vec<TextureFacts>) -> (r: Option<Self>)
        requires
            0 < N,
            textures@.len() > 0 ==> 0 < textures@[0].width <= 0x0fff_ffff && 0
                < textures@[0].height <= 0x0fff_ffff,
        ensures
            r is Some <==> textures@.len() > 0 && first_fault(textures@, textures@.len()) is None,
            r matches Some(supplied) ==> {
                &&& supplied.wf()
                &&& supplied.count == textures@.len()
                &&& supplied.selected == 0
                &&& supplied.size.width == textures@[0].width
                &&& supplied.size.height == textures@[0].height
                &&& !supplied.consumed
                &&& supplied.donor is None
                &&& !supplied.diverged
                &&& forall|k: int|
                    0 <= k < supplied.stale@.len() ==> (#[trigger] supplied.stale@[k]).full
            },
    {
        if unusable(textures).is_some() {
            return None;
        }
        let size = Size::new(textures[0].width as i32, textures[0].height as i32);
        // Every texture holds nothing, so every one of them owes all of it.
        let mut stale: Vec<DamageSet<N>> = Vec::new();
        let mut i: usize = 0;
        while i < textures.len()
            invariant
                i <= textures@.len(),
                stale@.len() == i,
                forall|k: int|
                    0 <= k < i ==> (#[trigger] stale@[k]).full && stale@[k].wf(),
            decreases textures@.len() - i,
        {
            stale.push(DamageSet::full());
            i += 1;
        }
        Some(
            Supplied {
                count: textures.len(),
                selected: 0,
                size,
                stale,
                // Rotated until whoever supplied them says otherwise, which is the safe direction:
                // a set wrongly called consumed shows a stale rectangle, and one wrongly called
                // rotated sends pixels nobody needed.
                consumed: false,
                donor: None,
                diverged: false,
            },
        )
    }

    /// Points at the texture the next frame is copied into.
    ///
    /// Answers whether the slot exists. A slot outside the set leaves the selection where it was
    /// and never wraps, because a wrapped slot is a buffer the caller did not choose — and the
    /// caller is the only party that knows which buffers the display controller has finished with.
    #[must_use]
    pub fn select(&mut self, slot: usize) -> (r: bool)
        requires
            old(self).wf(),
        ensures
            r == (slot < old(self).count),
            *final(self) == (if r {
                Supplied { selected: slot, ..*old(self) }
            } else {
                *old(self)
            }),
            final(self).wf(),
    {
        if slot >= self.count {
            return false;
        }
        self.selected = slot;
        true
    }

    /// Records the extent the renderer was configured for.
    ///
    /// A supplied set cannot be reallocated, so a target of another extent puts the two out of step
    /// rather than resizing anything. That is recorded rather than performed.
    pub fn retarget(&mut self, size: Size)
        requires
            old(self).wf(),
        ensures
            *final(self) == (Supplied {
                diverged: most(size.width as int, 1) != old(self).size.width || most(
                    size.height as int,
                    1,
                ) != old(self).size.height,
                ..*old(self)
            }),
            final(self).wf(),
    {
        let width: i32 = greater(size.width, 1);
        let height: i32 = greater(size.height, 1);
        self.diverged = width != self.size.width || height != self.size.height;
    }

    /// Returns `true` while a frame may be copied into this set.
    ///
    /// `false` once the renderer has been configured for an extent these textures do not have. The
    /// caller ends that by supplying a set at the new extent, or by configuring the target back.
    pub fn is_configured(&self) -> (r: bool)
        ensures
            r == !self.diverged,
    {
        !self.diverged
    }

    /// Records that the caller reads each texture out and throws it away.
    ///
    /// A caller that composites what it is handed onto a buffer of its own says so here, and every
    /// frame then carries its own rectangles and no debt.
    pub fn is_consumed(&mut self, consumed: bool)
        ensures
            *final(self) == (Supplied { consumed, ..*old(self) }),
    {
        self.consumed = consumed;
    }

    /// Records what a frame wrote against every texture.
    fn record(&mut self, rects: &Vec<Rect>)
        requires
            old(self).wf(),
            all_near(rects@),
        ensures
            final(self).wf(),
            final(self).count == old(self).count,
            final(self).selected == old(self).selected,
            final(self).size == old(self).size,
            final(self).consumed == old(self).consumed,
            final(self).donor == old(self).donor,
            final(self).diverged == old(self).diverged,
            forall|k: int|
                0 <= k < old(self).count ==> noted(
                    old(self).stale@[k],
                    rects@,
                    #[trigger] final(self).stale@[k],
                ),
    {
        let ghost begun = self.stale@;
        let mut all: Vec<DamageSet<N>> = Vec::new();
        let mut i: usize = 0;
        while i < self.count
            invariant
                i <= self.count,
                N > 0,
                self.count == old(self).count,
                self.selected == old(self).selected,
                self.size == old(self).size,
                self.consumed == old(self).consumed,
                self.donor == old(self).donor,
                self.diverged == old(self).diverged,
                begun == old(self).stale@,
                begun.len() == self.count,
                self.stale@.len() == self.count - i,
                all_near(rects@),
                forall|k: int|
                    0 <= k < self.stale@.len() ==> #[trigger] self.stale@[k] == begun[k],
                forall|k: int| 0 <= k < begun.len() ==> (#[trigger] begun[k]).wf(),
                all@.len() == i,
                forall|k: int|
                    0 <= k < i ==> noted(begun[self.count - 1 - k], rects@, #[trigger] all@[k]),
                forall|k: int| 0 <= k < i ==> (#[trigger] all@[k]).wf(),
            decreases self.count - i,
        {
            let last = self.stale.pop();
            if let Some(held) = last {
                let mut held = held;
                assert(held == begun[self.count - 1 - i]);
                gather(&mut held, rects);
                all.push(held);
            }
            i += 1;
        }
        let mut j: usize = 0;
        let ghost reversed = all@;
        while j < self.count
            invariant
                j <= self.count,
                N > 0,
                self.count == old(self).count,
                self.selected == old(self).selected,
                self.size == old(self).size,
                self.consumed == old(self).consumed,
                self.donor == old(self).donor,
                self.diverged == old(self).diverged,
                begun == old(self).stale@,
                begun.len() == self.count,
                reversed.len() == self.count,
                all@.len() == self.count - j,
                self.stale@.len() == j,
                forall|k: int| 0 <= k < all@.len() ==> #[trigger] all@[k] == reversed[k],
                forall|k: int|
                    0 <= k < self.count ==> noted(
                        begun[self.count - 1 - k],
                        rects@,
                        #[trigger] reversed[k],
                    ),
                forall|k: int| 0 <= k < self.count ==> (#[trigger] reversed[k]).wf(),
                forall|k: int|
                    0 <= k < j ==> #[trigger] self.stale@[k] == reversed[self.count - 1 - k],
            decreases self.count - j,
        {
            let last = all.pop();
            if let Some(held) = last {
                assert(held == reversed[self.count - 1 - j]);
                self.stale.push(held);
            }
            j += 1;
        }
        proof {
            assert forall|k: int| 0 <= k < self.count implies noted(
                begun[k],
                rects@,
                #[trigger] self.stale@[k],
            ) && self.stale@[k].wf() by {
                let back = reversed[self.count - 1 - k];
                assert(self.stale@[k] == back);
                assert(noted(begun[self.count - 1 - (self.count - 1 - k)], rects@, back));
            }
        }
    }
}

/// Whether `after` is what a texture is owed once a frame that wrote `rects` went elsewhere.
pub open spec fn noted<const N: usize>(
    before: DamageSet<N>,
    rects: Seq<Rect>,
    after: DamageSet<N>,
) -> bool {
    &&& after.full == before.full
    &&& !before.full ==> after.rects@ == gathered(before.rects@, rects, N as nat, rects.len())
    &&& forall|x: int, y: int|
        before.has(x, y) || covered(rects, x, y) ==> #[trigger] after.has(x, y)
}

/// The same rectangles again.
fn copy_of(rects: &Vec<Rect>) -> (r: Vec<Rect>)
    ensures
        r@ == rects@,
{
    let mut all: Vec<Rect> = Vec::new();
    let mut i: usize = 0;
    while i < rects.len()
        invariant
            i <= rects@.len(),
            all@ == rects@.take(i as int),
        decreases rects@.len() - i,
    {
        all.push(rects[i]);
        assert(rects@.take(i + 1) == rects@.take(i as int).push(rects@[i as int]));
        i += 1;
    }
    assert(rects@.take(rects@.len() as int) == rects@);
    all
}

impl<const N: usize> Supplied<N> {
    /// What a texture is owed at the end of a frame that wrote `rects`.
    pub open spec fn debt(self, slot: int, rects: Seq<Rect>) -> Seq<Rect> {
        if self.stale@[slot].full {
            seq![self.whole()]
        } else {
            gathered(self.stale@[slot].rects@, rects, N as nat, rects.len())
        }
    }

    /// The texture part of the debt is copied from, where copying it saves anything: the one written
    /// in full last, that lacks less.
    ///
    /// A repair replaces what the slot lacks with what the donor lacks, so a donor that lacks as
    /// much buys nothing and the copy is pure addition.
    pub open spec fn worth_asking(self, slot: int, rects: Seq<Rect>, peer: bool) -> Option<usize> {
        match self.donor {
            Some(donor) => {
                let lacks = self.debt(donor as int, rects);
                let owes = self.debt(slot, rects);
                if peer && donor != slot && donor < self.count && !self.stale@[donor as int].full
                    && pixels_of(lacks, lacks.len()) < pixels_of(owes, owes.len()) {
                    Some(donor)
                } else {
                    None
                }
            },
            None => None,
        }
    }

    /// Records what this frame wrote against every texture, and takes what `slot` is owed.
    ///
    /// The debt is what the copy at the end of the frame has to cover: the rectangles this frame
    /// drew **and** the ones drawn while this texture was not the one being written. Taking it
    /// leaves the texture owing nothing, because what follows writes exactly those.
    ///
    /// # Where a peer services part of it
    ///
    /// With a peer attached the debt is split. Everything the slot lacks, the donor already has,
    /// **except what the donor itself lacks**. So the peer copies the slot's debt out of the donor,
    /// and the copy that follows writes the donor's debt over the top of it. What the copy that
    /// follows will write anyway is not worth copying, so the peer carries the difference.
    pub fn owed(&mut self, slot: usize, rects: &Vec<Rect>, peer: bool) -> (r: Owing)
        requires
            old(self).wf(),
            all_near(rects@),
        ensures
            final(self).wf(),
            old(self).consumed ==> {
                &&& r.debt@ == rects@
                &&& r.repair is None
                &&& *final(self) == *old(self)
            },
            !old(self).consumed ==> {
                &&& final(self).count == old(self).count
                &&& final(self).selected == old(self).selected
                &&& final(self).size == old(self).size
                &&& !final(self).consumed
                &&& final(self).diverged == old(self).diverged
                &&& forall|k: int|
                    0 <= k < old(self).count && k != slot ==> noted(
                        old(self).stale@[k],
                        rects@,
                        #[trigger] final(self).stale@[k],
                    )
            },
            !old(self).consumed && slot >= old(self).count ==> {
                &&& r.debt@ == seq![old(self).whole()]
                &&& r.repair is None
                &&& final(self).donor == old(self).donor
            },
            !old(self).consumed && slot < old(self).count ==> {
                &&& r.debt@ == old(self).debt(slot as int, rects@)
                &&& forall|x: int, y: int|
                    old(self).stale@[slot as int].has(x, y) || covered(rects@, x, y)
                        ==> #[trigger] covered(r.debt@, x, y) || !old(self).whole().has(x, y)
                &&& final(self).donor == Some(slot)
                &&& !final(self).stale@[slot as int].full
                &&& final(self).stale@[slot as int].rects@.len() == 0
                &&& match old(self).worth_asking(slot as int, rects@, peer) {
                    None => r.repair is None,
                    Some(donor) => r.repair matches Some(repair) && repair.donor == donor
                        && repair.left@ == final(self).stale@[donor as int].rects@
                        && repair.carried@ == left_beyond(
                        r.debt@,
                        repair.left@,
                        r.debt@.len(),
                    ) && (forall|
                        x: int,
                        y: int,
                    | #[trigger]
                        covered(repair.carried@, x, y) ==> covered(r.debt@, x, y)) && (forall|
                        x: int,
                        y: int,
                    |
                        covered(r.debt@, x, y) && !covered(repair.left@, x, y)
                            ==> #[trigger] covered(repair.carried@, x, y)),
                }
                &&& r.repair is Some ==> peer
                &&& r.repair matches Some(repair) ==> {
                    &&& old(self).donor == Some(repair.donor)
                    &&& repair.donor != slot
                    &&& !final(self).stale@[repair.donor as int].full
                    &&& pixels_of(repair.left@, repair.left@.len()) < pixels_of(
                        r.debt@,
                        r.debt@.len(),
                    )
                }
                &&& r.repair is None && peer ==> (old(self).donor matches Some(donor)
                    ==> donor == slot || donor >= old(self).count || final(self).stale@[donor as int].full || pixels_of(
                    final(self).stale@[donor as int].rects@,
                    final(self).stale@[donor as int].rects@.len(),
                ) >= pixels_of(r.debt@, r.debt@.len()))
            },
    {
        // A set that is read out and thrown away every frame owes nothing. Where the caller
        // composites what it was handed onto a buffer of its own, this frame's rectangles are the
        // whole of what it needs and a debt would be pixels sent across a link for nobody.
        if self.consumed {
            return Owing { debt: copy_of(rects), repair: None };
        }
        let whole = Rect::new(Point::new(0, 0), self.size);
        let ghost begun = *self;
        self.record(rects);
        if slot >= self.count {
            let mut debt: Vec<Rect> = Vec::new();
            debt.push(whole);
            assert(debt@ =~= seq![whole]);
            return Owing { debt, repair: None };
        }
        assert(noted(begun.stale@[slot as int], rects@, self.stale@[slot as int]));
        assert(self.stale@[slot as int].wf());
        let ghost recorded = self.stale@;
        let debt = if self.stale[slot].is_full() {
            let mut debt: Vec<Rect> = Vec::new();
            debt.push(whole);
            assert(debt@ =~= seq![whole]);
            debt
        } else {
            copy_of(self.stale[slot].rects())
        };
        proof {
            assert forall|x: int, y: int|
                begun.stale@[slot as int].has(x, y) || covered(rects@, x, y) implies #[trigger]
            covered(debt@, x, y) || !begun.whole().has(x, y) by {
                assert(recorded[slot as int].has(x, y));
                if recorded[slot as int].full {
                    if whole.has(x, y) {
                        assert(debt@[0].has(x, y));
                    }
                }
            }
            assert(modest(debt@)) by {
                if recorded[slot as int].full {
                    assert forall|i: int| 0 <= i < debt@.len() implies (#[trigger] debt@[i]).near()
                        && !debt@[i].void() by {
                        assert(debt@[i] == whole);
                    }
                }
            }
        }
        self.stale.set(slot, DamageSet::new());
        let donor = self.donor;
        self.donor = Some(slot);
        let repair = match donor {
            Some(donor) => self.repair(slot, donor, &debt, peer),
            None => None,
        };
        Owing { debt, repair }
    }

    /// What a peer is asked for, of what a texture is owed, where asking saves anything.
    fn repair(&self, slot: usize, donor: usize, debt: &Vec<Rect>, peer: bool) -> (r: Option<Repair>)
        requires
            self.wf(),
            slot < self.count,
            modest(debt@),
        ensures
            r is Some <==> peer && donor != slot && donor < self.count
                && !self.stale@[donor as int].full && pixels_of(
                self.stale@[donor as int].rects@,
                self.stale@[donor as int].rects@.len(),
            ) < pixels_of(debt@, debt@.len()),
            r matches Some(repair) ==> {
                &&& repair.donor == donor
                &&& repair.left@ == self.stale@[donor as int].rects@
                &&& repair.carried@ == left_beyond(debt@, repair.left@, debt@.len())
                &&& forall|x: int, y: int| #[trigger]
                    covered(repair.carried@, x, y) ==> covered(debt@, x, y)
                &&& forall|x: int, y: int|
                    covered(debt@, x, y) && !covered(repair.left@, x, y) ==> #[trigger] covered(
                        repair.carried@,
                        x,
                        y,
                    )
            },
    {
        if donor == slot || donor >= self.count {
            return None;
        }
        assert(self.stale@[donor as int].wf());
        if self.stale[donor].is_full() {
            return None;
        }
        let left = copy_of(self.stale[donor].rects());
        if pixels(&left) >= pixels(debt) || !peer {
            return None;
        }
        let carried = beyond(debt, &left);
        Some(Repair { donor, carried, left })
    }
}

impl Owing {
    /// What the copy at the end of a frame owes, once the peer answered whether it copied what it
    /// was asked for.
    ///
    /// A peer that refuses leaves the whole debt to be sent, which is what happens with none
    /// attached.
    pub fn settle(self, copied: bool) -> (r: Owed)
        ensures
            match self.repair {
                Some(repair) => if copied {
                    r.from_composed@ == repair.left@ && r.repaired == pixels_of(
                        repair.carried@,
                        repair.carried@.len(),
                    )
                } else {
                    r.from_composed@ == self.debt@ && r.repaired == 0
                },
                None => r.from_composed@ == self.debt@ && r.repaired == 0,
            },
    {
        match self.repair {
            Some(repair) => if copied {
                let repaired: u128 = pixels(&repair.carried);
                Owed { from_composed: repair.left, repaired }
            } else {
                Owed { from_composed: self.debt, repaired: 0 }
            },
            None => Owed { from_composed: self.debt, repaired: 0 },
        }
    }
}

/// Whether every pixel a texture holds out of date is one its debt names.
pub open spec fn told<const N: usize>(
    supplied: Supplied<N>,
    lacks: spec_fn(int, int, int) -> bool,
) -> bool {
    forall|k: int, x: int, y: int|
        0 <= k < supplied.count && #[trigger] lacks(k, x, y) && supplied.whole().has(x, y)
            ==> supplied.stale@[k].has(x, y)
}

/// What every texture holds out of date after a frame that wrote `rects`, was copied into `slot` as
/// far as `sent` says, and repaired there out of `donor` as far as `carried` says.
pub open spec fn after_frame(
    lacks: spec_fn(int, int, int) -> bool,
    rects: Seq<Rect>,
    slot: int,
    sent: Seq<Rect>,
    donor: int,
    carried: Seq<Rect>,
) -> spec_fn(int, int, int) -> bool {
    |k: int, x: int, y: int|
        {
            let missed = lacks(k, x, y) || covered(rects, x, y);
            if k != slot {
                missed
            } else {
                missed && !covered(sent, x, y) && !(covered(carried, x, y) && !(lacks(donor, x, y)
                    || covered(rects, x, y)))
            }
        }
}

/// A debt names every pixel its texture holds out of date, frame after frame, and the texture a
/// frame was copied into holds none: whether or not a peer filled part of it.
pub proof fn a_presented_texture_is_current<const N: usize>(
    before: Supplied<N>,
    after: Supplied<N>,
    lacks: spec_fn(int, int, int) -> bool,
    rects: Seq<Rect>,
    slot: int,
    debt: Seq<Rect>,
    repair: Option<(int, Seq<Rect>, Seq<Rect>)>,
)
    requires
        before.wf(),
        0 <= slot < before.count,
        after.count == before.count,
        after.size == before.size,
        told(before, lacks),
        forall|k: int|
            0 <= k < before.count && k != slot ==> noted(
                before.stale@[k],
                rects,
                #[trigger] after.stale@[k],
            ),
        forall|x: int, y: int|
            before.stale@[slot].has(x, y) || covered(rects, x, y) ==> #[trigger] covered(debt, x, y)
                || !before.whole().has(x, y),
        repair matches Some(repair) ==> {
            &&& 0 <= repair.0 < before.count
            &&& repair.0 != slot
            &&& !after.stale@[repair.0].full
            &&& repair.2 == after.stale@[repair.0].rects@
            &&& forall|x: int, y: int|
                covered(debt, x, y) && !covered(repair.2, x, y) ==> #[trigger] covered(
                    repair.1,
                    x,
                    y,
                )
        },
    ensures
        ({
            let (donor, carried, sent) = match repair {
                Some(repair) => repair,
                None => (slot, Seq::empty(), debt),
            };
            let then = after_frame(lacks, rects, slot, sent, donor, carried);
            &&& told(after, then)
            &&& forall|x: int, y: int|
                before.whole().has(x, y) ==> !(#[trigger] then(slot, x, y))
        }),
{
    let (donor, carried, sent) = match repair {
        Some(repair) => repair,
        None => (slot, Seq::empty(), debt),
    };
    let then = after_frame(lacks, rects, slot, sent, donor, carried);
    assert forall|x: int, y: int| before.whole().has(x, y) implies !(#[trigger] then(
        slot,
        x,
        y,
    )) by {
        if lacks(slot, x, y) || covered(rects, x, y) {
            assert(lacks(slot, x, y) ==> before.stale@[slot].has(x, y));
            assert(covered(debt, x, y));
            if let Some(repair) = repair {
                if !covered(sent, x, y) {
                    assert(covered(carried, x, y));
                    assert(noted(before.stale@[donor], rects, after.stale@[donor]));
                    assert(!after.stale@[donor].has(x, y));
                    assert(lacks(donor, x, y) ==> before.stale@[donor].has(x, y));
                }
            }
        }
    }
    assert forall|k: int, x: int, y: int|
        0 <= k < after.count && #[trigger] then(k, x, y) && after.whole().has(
            x,
            y,
        ) implies after.stale@[k].has(x, y) by {
        if k == slot {
            assert(!then(slot, x, y));
        } else {
            assert(noted(before.stale@[k], rects, after.stale@[k]));
            assert(lacks(k, x, y) ==> before.stale@[k].has(x, y));
        }
    }
}

} // verus!
