//! Placing rectangles on pages through `rectangle_pack`.

use vstd::prelude::*;

use rectangle_pack::{
    contains_smallest_box, pack_rects, volume_heuristic, GroupedRectsToPlace, RectToInsert,
    RectanglePackError, TargetBin,
};

verus! {

/// The packer's failure, `rectangle_pack::RectanglePackError`, carried through to
/// the caller as it is.
#[verifier::external_type_specification]
#[verifier::external_body]
pub struct ExRectanglePackError(RectanglePackError);

/// The placement `(page, x, y)` that `rectangle_pack::pack_rects` gives each of the
/// rectangles of the given sizes, in order, with `pages` bins of `bin`×`bin`, bin `p`
/// being page `p` (volume heuristic, smallest-box containers); `None` where they do
/// not all fit.
pub uninterp spec fn packing(sizes: Seq<(u32, u32)>, bin: u32, pages: u32) -> Option<
    Seq<(u32, u32, u32)>,
>;

/// Whether two rectangles, each given by its corner and size, share no pixel.
pub open spec fn disjoint(ax: int, ay: int, aw: int, ah: int, bx: int, by: int, bw: int, bh: int) -> bool {
    ax + aw <= bx || bx + bw <= ax || ay + ah <= by || by + bh <= ay
}

/// Every rectangle has a placement and lies inside the `bin`×`bin` page.
pub open spec fn placements_inside(sizes: Seq<(u32, u32)>, places: Seq<(u32, u32, u32)>, bin: u32) -> bool {
    &&& places.len() == sizes.len()
    &&& forall|i: int|
        0 <= i < places.len() ==> {
            &&& (#[trigger] places[i]).1 + sizes[i].0 <= bin
            &&& places[i].2 + sizes[i].1 <= bin
        }
}

/// Every rectangle has a placement on a page below `pages`, lies inside the
/// `bin`×`bin` page, and shares no pixel with another rectangle on its page.
pub open spec fn placements_fit(
    sizes: Seq<(u32, u32)>,
    places: Seq<(u32, u32, u32)>,
    bin: u32,
    pages: u32,
) -> bool {
    &&& places.len() == sizes.len()
    &&& forall|i: int|
        0 <= i < places.len() ==> {
            &&& (#[trigger] places[i]).0 < pages
            &&& places[i].1 + sizes[i].0 <= bin
            &&& places[i].2 + sizes[i].1 <= bin
        }
    &&& forall|i: int, j: int|
        0 <= i < places.len() && 0 <= j < places.len() && i != j && (#[trigger] places[i]).0 == (
        #[trigger] places[j]).0 ==> disjoint(
            places[i].1 as int,
            places[i].2 as int,
            sizes[i].0 as int,
            sizes[i].1 as int,
            places[j].1 as int,
            places[j].2 as int,
            sizes[j].0 as int,
            sizes[j].1 as int,
        )
}

/// Relies on `rectangle_pack::pack_rects` (one group per rectangle, `pages` bins
/// of `bin`×`bin`×1 keyed by page, rectangles one deep): it is deterministic; on
/// success every rectangle is placed unrotated, inside its bin, with no two in one
/// bin overlapping; it fails with `NotEnoughBinSpace` otherwise.
#[verifier::external_body]
pub(crate) fn pack(sizes: &Vec<(u32, u32)>, bin: u32, pages: u32) -> (r: Result<
    Vec<(u32, u32, u32)>,
    RectanglePackError,
>)
    ensures
        r is Ok ==> packing(sizes@, bin, pages) == Some(r->Ok_0@),
        r is Ok ==> placements_fit(sizes@, r->Ok_0@, bin, pages),
        r is Err ==> packing(sizes@, bin, pages) is None,
{
    let mut rects = GroupedRectsToPlace::<usize, ()>::new();
    for (i, &(w, h)) in sizes.iter().enumerate() {
        rects.push_rect(i, None, RectToInsert::new(w, h, 1));
    }
    let mut bins = std::collections::BTreeMap::new();
    for page in 0..pages {
        bins.insert(page, TargetBin::new(bin, bin, 1));
    }
    let packed = pack_rects(&rects, &mut bins, &volume_heuristic, &contains_smallest_box)?;
    let locations = packed.packed_locations();
    Ok((0..sizes.len()).map(|i| &locations[&i]).map(|(p, l)| (*p, l.x(), l.y())).collect())
}

} // verus!
