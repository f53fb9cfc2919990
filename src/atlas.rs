//! Building an atlas: validation, packing, compositing, mip levels and texcoords.

use vstd::prelude::*;

use rectangle_pack::RectanglePackError;

use crate::buffer::RgbImage;
use crate::dilate::{dilated, resample};
use crate::layout::{composed, write_layer, Layer};
use crate::math::{
    exp2, ilog2, is_pow2, is_power_of_two, lemma_exp2_positive, lemma_halve_level,
    lemma_level_positive, lemma_level_scale, log2,
};
use crate::options::{AtlasEntryMipOption, AtlasMipFilter, AtlasMipOption, Texcoord};
use crate::pack::{pack, packing, placements_fit, placements_inside};
use crate::resize::{resampled, resize};

verus! {

/// An image to place in the atlas, and how its edges extend into its padding.
#[derive(Clone, Debug, Default)]
pub struct AtlasEntry {
    pub texture: RgbImage,
    pub mip: AtlasEntryMipOption,
}

/// What to build: at most `max_page_count` pages of `size`×`size` pixels holding
/// `entries`, laid out as `mip` says.
#[derive(Clone, Debug)]
pub struct AtlasDescriptor<'a> {
    pub max_page_count: u32,
    pub size: u32,
    pub mip: AtlasMipOption,
    pub entries: &'a [AtlasEntry],
}

/// One page: its mip levels, level `l` being `size >> l` pixels on a side.
#[derive(Clone, Debug, Default)]
pub struct Texture {
    pub size: u32,
    pub mip_level_count: u32,
    pub mip_maps: Vec<RgbImage>,
}

/// The pages built and, for each entry in order, where it lies.
#[derive(Clone, Debug, Default)]
pub struct Atlas {
    pub page_count: u32,
    pub size: u32,
    pub mip_level_count: u32,
    pub textures: Vec<Texture>,
    pub texcoords: Vec<Texcoord>,
}

/// Why an atlas could not be built.
#[derive(Debug)]
pub enum AtlasError {
    ZeroMaxPageCount,
    InvalidSize(u32),
    InvalidBlockSize(u32),
    ZeroEntry,
    Packing(RectanglePackError),
}

/// The edge length of mip level `level` of a page of edge `size`.
pub open spec fn level_size(size: u32, level: nat) -> u32 {
    (size as nat / exp2(level)) as u32
}

/// `t` has `levels` mip levels of a page of edge `size`.
pub open spec fn texture_shaped(t: Texture, size: u32, levels: nat) -> bool {
    &&& t.size == size
    &&& t.mip_level_count == levels
    &&& t.mip_maps@.len() == levels
    &&& forall|l: int|
        0 <= l < levels ==> {
            &&& (#[trigger] t.mip_maps@[l]).wf()
            &&& t.mip_maps@[l].width == level_size(size, l as nat)
            &&& t.mip_maps@[l].height == level_size(size, l as nat)
        }
}

impl Texture {
    /// A black page of edge `size` with `mip_level_count` levels, level `l` being
    /// `size / 2^l` pixels on a side.
    pub fn new(size: u32, mip_level_count: u32) -> (r: Texture)
        requires
            size * size <= usize::MAX,
        ensures
            texture_shaped(r, size, mip_level_count as nat),
            forall|l: int|
                0 <= l < mip_level_count ==> (#[trigger] r.mip_maps@[l]).pixels@ == composed(
                    Seq::empty(),
                    0,
                    level_size(size, l as nat) as int,
                ),
    {
        let mut mip_maps: Vec<RgbImage> = Vec::new();
        let mut s: u32 = size;
        let mut l: u32 = 0;
        assert(exp2(0) == 1);
        assert(size as nat / 1 == size);
        while l < mip_level_count
            invariant
                l <= mip_level_count,
                size * size <= usize::MAX,
                s == level_size(size, l as nat),
                mip_maps@.len() == l,
                forall|j: int|
                    0 <= j < l ==> {
                        &&& (#[trigger] mip_maps@[j]).wf()
                        &&& mip_maps@[j].width == level_size(size, j as nat)
                        &&& mip_maps@[j].height == level_size(size, j as nat)
                        &&& mip_maps@[j].pixels@ == composed(
                            Seq::empty(),
                            0,
                            level_size(size, j as nat) as int,
                        )
                    },
            decreases mip_level_count - l,
        {
            proof {
                lemma_exp2_positive(l as nat);
                vstd::arithmetic::div_mod::lemma_div_is_ordered_by_denominator(
                    size as int,
                    1,
                    exp2(l as nat) as int,
                );
                assert(s * s <= size * size) by (nonlinear_arith)
                    requires
                        s <= size,
                ;
                lemma_halve_level(size as nat, l as nat);
            }
            let level = RgbImage::new(s, s);
            assert(level.pixels@ =~= composed(Seq::empty(), 0, s as int));
            mip_maps.push(level);
            s = s / 2;
            l = l + 1;
        }
        Texture { size, mip_level_count, mip_maps }
    }
}

/// Each entry's image holds its pixels and is not empty.
pub open spec fn entries_ok(entries: Seq<AtlasEntry>) -> bool {
    forall|i: int|
        0 <= i < entries.len() ==> {
            &&& (#[trigger] entries[i]).texture.wf()
            &&& entries[i].texture.width > 0
            &&& entries[i].texture.height > 0
        }
}

/// Each entry, grown by `margin` pixels on every side, still has a size that fits in a `u32`.
pub open spec fn entries_fit(entries: Seq<AtlasEntry>, margin: nat) -> bool {
    forall|i: int|
        0 <= i < entries.len() ==> {
            &&& (#[trigger] entries[i]).texture.width + 2 * margin <= u32::MAX
            &&& entries[i].texture.height + 2 * margin <= u32::MAX
        }
}

/// The number of pages offered to the packer: `max_page_count`, but never more than
/// there are entries. Pages are filled in order and an entry opens a new page only
/// when it fits on none before, so no more than one page per entry is ever used.
pub open spec fn page_budget(max_page_count: u32, entry_count: nat) -> u32 {
    if max_page_count > entry_count {
        entry_count as u32
    } else {
        max_page_count
    }
}

/// The number of pages offered to the packer.
fn pages_to_offer(max_page_count: u32, entry_count: usize) -> (r: u32)
    ensures
        r == page_budget(max_page_count, entry_count as nat),
        r <= max_page_count,
{
    if max_page_count as usize > entry_count {
        entry_count as u32
    } else {
        max_page_count
    }
}

/// The number of pages that the placements use: one more than the highest page.
pub open spec fn page_count_of(places: Seq<(u32, u32, u32)>) -> nat
    decreases places.len(),
{
    if places.len() == 0 {
        0
    } else {
        let rest = page_count_of(places.drop_last());
        if places.last().0 + 1 > rest {
            (places.last().0 + 1) as nat
        } else {
            rest
        }
    }
}

/// Every placement's page is below the page count, which is at most `depth` when
/// every page is below `depth`.
pub proof fn lemma_page_count_bound(places: Seq<(u32, u32, u32)>, depth: nat)
    requires
        forall|i: int| 0 <= i < places.len() ==> (#[trigger] places[i]).0 < depth,
    ensures
        page_count_of(places) <= depth,
        forall|i: int| 0 <= i < places.len() ==> (#[trigger] places[i]).0 < page_count_of(places),
    decreases places.len(),
{
    if places.len() > 0 {
        let rest = places.drop_last();
        assert forall|i: int| 0 <= i < rest.len() implies (#[trigger] rest[i]).0 < depth by {
            assert(rest[i] == places[i]);
        }
        lemma_page_count_bound(rest, depth);
        assert forall|i: int| 0 <= i < places.len() implies (#[trigger] places[i]).0
            < page_count_of(places) by {
            if i < places.len() - 1 {
                assert(rest[i] == places[i]);
            }
        }
    }
}

/// The number of pages that the placements use: one more than the highest page.
pub fn page_count(places: &Vec<(u32, u32, u32)>) -> (r: u32)
    requires
        forall|i: int| 0 <= i < places@.len() ==> (#[trigger] places@[i]).0 < u32::MAX,
    ensures
        r == page_count_of(places@),
{
    let mut r: u32 = 0;
    let mut i: usize = 0;
    while i < places.len()
        invariant
            i <= places@.len(),
            forall|j: int| 0 <= j < places@.len() ==> (#[trigger] places@[j]).0 < u32::MAX,
            r == page_count_of(places@.take(i as int)),
        decreases places@.len() - i,
    {
        proof {
            assert(places@.take(i + 1).drop_last() =~= places@.take(i as int));
        }
        let page = places[i].0;
        if page + 1 > r {
            r = page + 1;
        }
        i = i + 1;
    }
    proof {
        assert(places@.take(i as int) =~= places@);
    }
    r
}

/// `page_count` black pages, each with `levels` levels.
fn new_textures(page_count: u32, size: u32, levels: u32) -> (r: Vec<Texture>)
    requires
        size * size <= usize::MAX,
    ensures
        r@.len() == page_count,
        forall|p: int|
            0 <= p < page_count ==> texture_shaped(#[trigger] r@[p], size, levels as nat),
        forall|p: int, l: int|
            0 <= p < page_count && 0 <= l < levels ==> (#[trigger] r@[p].mip_maps@[l]).pixels@
                == composed(Seq::empty(), p, level_size(size, l as nat) as int),
{
    let mut r: Vec<Texture> = Vec::new();
    let mut p: u32 = 0;
    while p < page_count
        invariant
            p <= page_count,
            size * size <= usize::MAX,
            r@.len() == p,
            forall|q: int| 0 <= q < p ==> texture_shaped(#[trigger] r@[q], size, levels as nat),
            forall|q: int, l: int|
                0 <= q < p && 0 <= l < levels ==> (#[trigger] r@[q].mip_maps@[l]).pixels@
                    == composed(Seq::empty(), q, level_size(size, l as nat) as int),
        decreases page_count - p,
    {
        let t = Texture::new(size, levels);
        proof {
            assert forall|l: int| 0 <= l < levels implies (#[trigger] t.mip_maps@[l]).pixels@
                == composed(Seq::empty(), p as int, level_size(size, l as nat) as int) by {
                assert(composed(Seq::empty(), 0, level_size(size, l as nat) as int) =~= composed(
                    Seq::empty(),
                    p as int,
                    level_size(size, l as nat) as int,
                ));
            }
        }
        r.push(t);
        p = p + 1;
    }
    r
}

/// The rectangle asked of the packer for an entry grown by `padding` on every side.
pub open spec fn padded_size(e: AtlasEntry, padding: u32) -> (u32, u32) {
    ((e.texture.width + 2 * padding) as u32, (e.texture.height + 2 * padding) as u32)
}

/// The rectangles asked of the packer, in the order of the entries.
pub open spec fn padded_sizes(entries: Seq<AtlasEntry>, padding: u32) -> Seq<(u32, u32)> {
    Seq::new(entries.len(), |i: int| padded_size(entries[i], padding))
}

/// Where an entry lies once its padded rectangle is placed at `place`: the padding trimmed.
pub open spec fn padded_texcoord(
    e: AtlasEntry,
    padding: u32,
    size: u32,
    place: (u32, u32, u32),
) -> Texcoord {
    Texcoord {
        page: place.0,
        min_x: (place.1 + padding) as u32,
        min_y: (place.2 + padding) as u32,
        max_x: (place.1 + padding + e.texture.width) as u32,
        max_y: (place.2 + padding + e.texture.height) as u32,
        size,
    }
}

/// What each entry writes on level 0 of its page: its image dilated to fill its
/// padded rectangle.
pub open spec fn padded_layers(
    entries: Seq<AtlasEntry>,
    padding: u32,
    places: Seq<(u32, u32, u32)>,
) -> Seq<Layer> {
    Seq::new(
        entries.len(),
        |i: int|
            Layer {
                page: places[i].0 as int,
                x: places[i].1 as int,
                y: places[i].2 as int,
                width: padded_size(entries[i], padding).0 as int,
                height: padded_size(entries[i], padding).1 as int,
                pixels: dilated(
                    entries[i].texture,
                    entries[i].mip,
                    padding as int,
                    padding as int,
                    padded_size(entries[i], padding).0 as nat,
                    padded_size(entries[i], padding).1 as nat,
                ),
            },
    )
}

/// Level `l` of page `p` when the chain is built from whole pages: level 0 holds
/// the entries, every other level is level 0 resampled with `filter`.
pub open spec fn padded_level(
    entries: Seq<AtlasEntry>,
    padding: u32,
    places: Seq<(u32, u32, u32)>,
    size: u32,
    filter: Option<AtlasMipFilter>,
    p: int,
    l: nat,
) -> Seq<[u8; 3]> {
    let base = composed(padded_layers(entries, padding, places), p, size as int);
    if l == 0 || filter is None {
        base
    } else {
        resampled(base, size, size, level_size(size, l), level_size(size, l), filter->Some_0)
    }
}

/// `a` is the atlas of the entries padded by `padding` and placed at `places`, with a
/// chain of whole-page mip levels built with the filter, if one is given.
pub open spec fn padded_atlas(
    size: u32,
    padding: u32,
    filter: Option<AtlasMipFilter>,
    entries: Seq<AtlasEntry>,
    places: Seq<(u32, u32, u32)>,
    a: Atlas,
) -> bool {
    let levels: nat = if filter is Some {
        log2(size as nat) + 1
    } else {
        1
    };
    &&& a.page_count == page_count_of(places)
    &&& a.size == size
    &&& a.mip_level_count == levels
    &&& a.texcoords@ == Seq::new(
        entries.len(),
        |i: int| padded_texcoord(entries[i], padding, size, places[i]),
    )
    &&& a.textures@.len() == a.page_count
    &&& forall|p: int|
        0 <= p < a.page_count ==> texture_shaped(#[trigger] a.textures@[p], size, levels)
    &&& forall|p: int, l: int|
        0 <= p < a.page_count && 0 <= l < levels ==> (#[trigger] a.textures@[p].mip_maps@[l]).pixels@
            == padded_level(entries, padding, places, size, filter, p, l as nat)
}

/// The outcome of building an atlas of padded entries: the first failed check, in
/// order, or the packer's failure, or the atlas of the packer's placements.
pub open spec fn padded_result(
    max_page_count: u32,
    size: u32,
    padding: u32,
    filter: Option<AtlasMipFilter>,
    entries: Seq<AtlasEntry>,
    r: Result<Atlas, AtlasError>,
) -> bool {
    if max_page_count == 0 {
        r == Err::<Atlas, AtlasError>(AtlasError::ZeroMaxPageCount)
    } else if filter is Some && !is_pow2(size as nat) {
        r == Err::<Atlas, AtlasError>(AtlasError::InvalidSize(size))
    } else if entries.len() == 0 {
        r == Err::<Atlas, AtlasError>(AtlasError::ZeroEntry)
    } else {
        let sizes = padded_sizes(entries, padding);
        let pages = page_budget(max_page_count, entries.len());
        match packing(sizes, size, pages) {
            None => r is Err && r->Err_0 is Packing,
            Some(places) => {
                &&& placements_fit(sizes, places, size, pages)
                &&& r is Ok
                &&& padded_atlas(size, padding, filter, entries, places, r->Ok_0)
            },
        }
    }
}

proof fn lemma_square_bound(w: nat, h: nat, size: nat)
    requires
        w <= size,
        h <= size,
    ensures
        w * h <= size * size,
{
    assert(w * h <= size * size) by (nonlinear_arith)
        requires
            w <= size,
            h <= size,
    ;
}

/// The padded rectangle of each entry.
fn padded_request_sizes(entries: &[AtlasEntry], padding: u32) -> (r: Vec<(u32, u32)>)
    requires
        entries_fit(entries@, padding as nat),
    ensures
        r@ == padded_sizes(entries@, padding),
{
    let mut r: Vec<(u32, u32)> = Vec::new();
    let mut i: usize = 0;
    while i < entries.len()
        invariant
            i <= entries@.len(),
            entries_fit(entries@, padding as nat),
            r@ =~= padded_sizes(entries@, padding).take(i as int),
        decreases entries@.len() - i,
    {
        let e = &entries[i];
        r.push((e.texture.width + 2 * padding, e.texture.height + 2 * padding));
        i = i + 1;
    }
    r
}

/// The texcoord of each entry, from the placement of its padded rectangle on a
/// page of edge `size`: the placement with the padding trimmed.
pub fn padded_texcoords(
    entries: &[AtlasEntry],
    places: &Vec<(u32, u32, u32)>,
    padding: u32,
    size: u32,
) -> (r: Vec<Texcoord>)
    requires
        entries_fit(entries@, padding as nat),
        placements_inside(padded_sizes(entries@, padding), places@, size),
    ensures
        r@ == Seq::new(
            entries@.len(),
            |i: int| padded_texcoord(entries@[i], padding, size, places@[i]),
        ),
{
    let ghost sizes = padded_sizes(entries@, padding);
    let mut r: Vec<Texcoord> = Vec::new();
    let mut i: usize = 0;
    while i < entries.len()
        invariant
            i <= entries@.len(),
            sizes == padded_sizes(entries@, padding),
            entries_fit(entries@, padding as nat),
            placements_inside(sizes, places@, size),
            r@ =~= Seq::new(
                entries@.len(),
                |i: int| padded_texcoord(entries@[i], padding, size, places@[i]),
            ).take(i as int),
        decreases entries@.len() - i,
    {
        let (page, x, y) = places[i];
        let e = &entries[i];
        assert(places@[i as int].1 + sizes[i as int].0 <= size);
        assert(places@[i as int].2 + sizes[i as int].1 <= size);
        r.push(
            Texcoord {
                page,
                min_x: x + padding,
                min_y: y + padding,
                max_x: x + padding + e.texture.width,
                max_y: y + padding + e.texture.height,
                size,
            },
        );
        i = i + 1;
    }
    r
}

/// Writes every entry, dilated into its padded rectangle, onto level 0 of its page.
fn compose_padded(
    textures: &mut Vec<Texture>,
    entries: &[AtlasEntry],
    places: &Vec<(u32, u32, u32)>,
    sizes: &Vec<(u32, u32)>,
    padding: u32,
    size: u32,
    levels: u32,
    Ghost(depth): Ghost<u32>,
)
    requires
        entries_ok(entries@),
        sizes@ == padded_sizes(entries@, padding),
        placements_fit(sizes@, places@, size, depth),
        size * size <= usize::MAX,
        levels >= 1,
        old(textures)@.len() == page_count_of(places@),
        forall|p: int|
            0 <= p < old(textures)@.len() ==> texture_shaped(
                #[trigger] old(textures)@[p],
                size,
                levels as nat,
            ),
        forall|p: int|
            0 <= p < old(textures)@.len() ==> (#[trigger] old(textures)@[p]).mip_maps@[0].pixels@
                == composed(Seq::empty(), p, size as int),
    ensures
        final(textures)@.len() == old(textures)@.len(),
        forall|p: int|
            0 <= p < final(textures)@.len() ==> texture_shaped(
                #[trigger] final(textures)@[p],
                size,
                levels as nat,
            ),
        forall|p: int|
            0 <= p < final(textures)@.len() ==> (#[trigger] final(textures)@[p]).mip_maps@[0].pixels@
                == composed(padded_layers(entries@, padding, places@), p, size as int),
{
    let ghost layers = padded_layers(entries@, padding, places@);
    proof {
        lemma_page_count_bound(places@, depth as nat);
        assert(layers.take(0) =~= Seq::<Layer>::empty());
        assert(level_size(size, 0) == size) by {
            assert(exp2(0) == 1);
        }
    }
    let mut i: usize = 0;
    while i < entries.len()
        invariant
            i <= entries@.len(),
            entries_ok(entries@),
            sizes@ == padded_sizes(entries@, padding),
            placements_fit(sizes@, places@, size, depth),
            size * size <= usize::MAX,
            levels >= 1,
            level_size(size, 0) == size,
            layers == padded_layers(entries@, padding, places@),
            textures@.len() == page_count_of(places@),
            forall|j: int| 0 <= j < places@.len() ==> (#[trigger] places@[j]).0 < page_count_of(places@),
            forall|p: int|
                0 <= p < textures@.len() ==> texture_shaped(#[trigger] textures@[p], size, levels as nat),
            forall|p: int|
                0 <= p < textures@.len() ==> (#[trigger] textures@[p]).mip_maps@[0].pixels@
                    == composed(layers.take(i as int), p, size as int),
        decreases entries@.len() - i,
    {
        let (page, x, y) = places[i];
        let (w, h) = sizes[i];
        proof {
            assert(places@[i as int].0 < page_count_of(places@));
            lemma_square_bound(w as nat, h as nat, size as nat);
        }
        let src = resample(&entries[i].texture, entries[i].mip, padding, padding, w, h);
        let ghost before = textures@;
        assert(texture_shaped(textures@[page as int], size, levels as nat));
        assert(textures@[page as int].mip_maps@[0].wf());
        write_layer(
            &mut textures[page as usize].mip_maps[0],
            &src,
            x,
            y,
            Ghost(layers),
            Ghost(i as int),
        );
        proof {
            assert forall|p: int| 0 <= p < textures@.len() implies (#[trigger] textures@[p]).mip_maps@[0].pixels@
                == composed(layers.take(i + 1), p, size as int) by {
                if p != page {
                    assert(textures@[p] == before[p]);
                    crate::layout::lemma_compose_other_page(layers, i as int, p, size as int);
                }
            }
            assert forall|p: int| 0 <= p < textures@.len() implies texture_shaped(
                #[trigger] textures@[p],
                size,
                levels as nat,
            ) by {
                if p != page {
                    assert(textures@[p] == before[p]);
                } else {
                    assert forall|l: int| 0 <= l < levels implies {
                        &&& (#[trigger] textures@[p].mip_maps@[l]).wf()
                        &&& textures@[p].mip_maps@[l].width == level_size(size, l as nat)
                        &&& textures@[p].mip_maps@[l].height == level_size(size, l as nat)
                    } by {
                        if l != 0 {
                            assert(textures@[p].mip_maps@[l] == before[p].mip_maps@[l]);
                        }
                    }
                }
            }
        }
        i = i + 1;
    }
    proof {
        assert(layers.take(i as int) =~= layers);
    }
}

/// Fills levels 1.. of every page with its level 0 resampled by `filter`.
fn build_page_mips(textures: &mut Vec<Texture>, size: u32, levels: u32, filter: AtlasMipFilter)
    requires
        is_pow2(size as nat),
        levels == log2(size as nat) + 1,
        4 * size * size <= usize::MAX,
        forall|p: int|
            0 <= p < old(textures)@.len() ==> texture_shaped(
                #[trigger] old(textures)@[p],
                size,
                levels as nat,
            ),
    ensures
        final(textures)@.len() == old(textures)@.len(),
        forall|p: int|
            0 <= p < final(textures)@.len() ==> texture_shaped(
                #[trigger] final(textures)@[p],
                size,
                levels as nat,
            ),
        forall|p: int|
            0 <= p < final(textures)@.len() ==> (#[trigger] final(textures)@[p]).mip_maps@[0]
                == old(textures)@[p].mip_maps@[0],
        forall|p: int, l: int|
            0 <= p < final(textures)@.len() && 1 <= l < levels ==> (#[trigger] final(textures)@[p].mip_maps@[l]).pixels@ == resampled(
                old(textures)@[p].mip_maps@[0].pixels@,
                size,
                size,
                level_size(size, l as nat),
                level_size(size, l as nat),
                filter,
            ),
{
    let ghost start = textures@;
    let pages = textures.len();
    proof {
        assert(level_size(size, 0) == size) by {
            assert(exp2(0) == 1);
        }
        assert(exp2(1) == 2) by {
            assert(exp2(0) == 1);
        }
    }
    let mut l: u32 = 1;
    let mut s: u32 = size / 2;
    while l < levels
        invariant
            1 <= l <= levels,
            is_pow2(size as nat),
            levels == log2(size as nat) + 1,
            4 * size * size <= usize::MAX,
            level_size(size, 0) == size,
            s == level_size(size, l as nat),
            pages == start.len(),
            textures@.len() == start.len(),
            forall|p: int|
                0 <= p < textures@.len() ==> texture_shaped(#[trigger] textures@[p], size, levels as nat),
            forall|p: int|
                0 <= p < textures@.len() ==> (#[trigger] textures@[p]).mip_maps@[0]
                    == start[p].mip_maps@[0],
            forall|p: int, j: int|
                0 <= p < textures@.len() && 1 <= j < l ==> (#[trigger] textures@[p].mip_maps@[j]).pixels@
                    == resampled(
                    start[p].mip_maps@[0].pixels@,
                    size,
                    size,
                    level_size(size, j as nat),
                    level_size(size, j as nat),
                    filter,
                ),
        decreases levels - l,
    {
        proof {
            lemma_level_positive(size as nat, l as nat);
        }
        let mut p: usize = 0;
        while p < pages
            invariant
                1 <= l < levels,
                is_pow2(size as nat),
                levels == log2(size as nat) + 1,
                4 * size * size <= usize::MAX,
                level_size(size, 0) == size,
                s == level_size(size, l as nat),
                1 <= s <= size,
                p <= pages,
                pages == start.len(),
                textures@.len() == start.len(),
                forall|q: int|
                    0 <= q < textures@.len() ==> texture_shaped(#[trigger] textures@[q], size, levels as nat),
                forall|q: int|
                    0 <= q < textures@.len() ==> (#[trigger] textures@[q]).mip_maps@[0]
                        == start[q].mip_maps@[0],
                forall|q: int, j: int|
                    0 <= q < textures@.len() && 1 <= j < l ==> (#[trigger] textures@[q].mip_maps@[j]).pixels@
                        == resampled(
                        start[q].mip_maps@[0].pixels@,
                        size,
                        size,
                        level_size(size, j as nat),
                        level_size(size, j as nat),
                        filter,
                    ),
                forall|q: int|
                    0 <= q < p ==> (#[trigger] textures@[q].mip_maps@[l as int]).pixels@ == resampled(
                        start[q].mip_maps@[0].pixels@,
                        size,
                        size,
                        s,
                        s,
                        filter,
                    ),
            decreases pages - p,
        {
            proof {
                assert(texture_shaped(textures@[p as int], size, levels as nat));
                assert(textures@[p as int].mip_maps@[0].wf());
                assert(4 * size * s <= 4 * size * size) by (nonlinear_arith)
                    requires
                        s <= size,
                ;
                assert(3 * s * s <= 4 * size * size) by (nonlinear_arith)
                    requires
                        s <= size,
                ;
                assert(3 * size * size <= 4 * size * size) by (nonlinear_arith);
            }
            let m = resize(&textures[p].mip_maps[0], s, s, filter);
            let ghost before = textures@;
            textures[p].mip_maps[l as usize] = m;
            proof {
                assert forall|q: int| 0 <= q < textures@.len() implies texture_shaped(
                    #[trigger] textures@[q],
                    size,
                    levels as nat,
                ) by {
                    if q != p {
                        assert(textures@[q] == before[q]);
                    } else {
                        assert forall|j: int| 0 <= j < levels implies {
                            &&& (#[trigger] textures@[q].mip_maps@[j]).wf()
                            &&& textures@[q].mip_maps@[j].width == level_size(size, j as nat)
                            &&& textures@[q].mip_maps@[j].height == level_size(size, j as nat)
                        } by {
                            if j != l {
                                assert(textures@[q].mip_maps@[j] == before[q].mip_maps@[j]);
                            }
                        }
                    }
                }
                assert forall|q: int| 0 <= q < textures@.len() implies (#[trigger] textures@[q]).mip_maps@[0]
                    == start[q].mip_maps@[0] by {
                    if q != p {
                        assert(textures@[q] == before[q]);
                    }
                }
                assert forall|q: int, j: int| 0 <= q < textures@.len() && 1 <= j < l implies (
                #[trigger] textures@[q].mip_maps@[j]).pixels@ == resampled(
                    start[q].mip_maps@[0].pixels@,
                    size,
                    size,
                    level_size(size, j as nat),
                    level_size(size, j as nat),
                    filter,
                ) by {
                    if q != p {
                        assert(textures@[q] == before[q]);
                    } else {
                        assert(textures@[q].mip_maps@[j] == before[q].mip_maps@[j]);
                    }
                }
                assert forall|q: int| 0 <= q < p + 1 implies (#[trigger] textures@[q].mip_maps@[l as int]).pixels@
                    == resampled(start[q].mip_maps@[0].pixels@, size, size, s, s, filter) by {
                    if q != p {
                        assert(textures@[q] == before[q]);
                    }
                }
            }
            p = p + 1;
        }
        proof {
            lemma_halve_level(size as nat, l as nat);
        }
        s = s / 2;
        l = l + 1;
    }
}

/// Builds the atlas of entries padded by `padding`, with one level.
fn create_atlas_with_padding(
    max_page_count: u32,
    size: u32,
    padding: u32,
    entries: &[AtlasEntry],
) -> (r: Result<Atlas, AtlasError>)
    requires
        entries_ok(entries@),
        entries_fit(entries@, padding as nat),
        4 * size * size <= usize::MAX,
    ensures
        padded_result(max_page_count, size, padding, None, entries@, r),
{
    if max_page_count == 0 {
        return Err(AtlasError::ZeroMaxPageCount);
    }
    if entries.len() == 0 {
        return Err(AtlasError::ZeroEntry);
    }
    assert(size * size <= 4 * size * size) by (nonlinear_arith);
    let sizes = padded_request_sizes(entries, padding);
    let pages = pages_to_offer(max_page_count, entries.len());
    let places = match pack(&sizes, size, pages) {
        Ok(places) => places,
        Err(e) => return Err(AtlasError::Packing(e)),
    };
    proof {
        lemma_page_count_bound(places@, pages as nat);
    }
    let page_count = page_count(&places);
    let texcoords = padded_texcoords(entries, &places, padding, size);
    let mip_level_count: u32 = 1;
    let mut textures = new_textures(page_count, size, mip_level_count);
    proof {
        assert(level_size(size, 0) == size) by {
            assert(exp2(0) == 1);
        }
        assert forall|p: int| 0 <= p < textures@.len() implies (#[trigger] textures@[p]).mip_maps@[0].pixels@
            == composed(Seq::empty(), p, size as int) by {
            assert(textures@[p].mip_maps@[0].pixels@ == composed(Seq::empty(), p, level_size(size, 0) as int));
        }
    }
    compose_padded(
        &mut textures,
        entries,
        &places,
        &sizes,
        padding,
        size,
        mip_level_count,
        Ghost(pages),
    );
    let atlas = Atlas { page_count, size, mip_level_count, textures, texcoords };
    proof {
        assert forall|p: int, l: int| 0 <= p < page_count && 0 <= l < 1 implies (
        #[trigger] atlas.textures@[p].mip_maps@[l]).pixels@ == padded_level(
            entries@,
            padding,
            places@,
            size,
            None,
            p,
            l as nat,
        ) by {
            assert(l == 0);
        }
    }
    Ok(atlas)
}

/// Builds the atlas of entries padded by `padding`, with a mip chain resampled
/// from each whole page.
fn create_atlas_mip_with_padding(
    max_page_count: u32,
    size: u32,
    filter: AtlasMipFilter,
    padding: u32,
    entries: &[AtlasEntry],
) -> (r: Result<Atlas, AtlasError>)
    requires
        entries_ok(entries@),
        entries_fit(entries@, padding as nat),
        4 * size * size <= usize::MAX,
    ensures
        padded_result(max_page_count, size, padding, Some(filter), entries@, r),
{
    if max_page_count == 0 {
        return Err(AtlasError::ZeroMaxPageCount);
    }
    if !is_power_of_two(size) {
        return Err(AtlasError::InvalidSize(size));
    }
    if entries.len() == 0 {
        return Err(AtlasError::ZeroEntry);
    }
    assert(size * size <= 4 * size * size) by (nonlinear_arith);
    let sizes = padded_request_sizes(entries, padding);
    let pages = pages_to_offer(max_page_count, entries.len());
    let places = match pack(&sizes, size, pages) {
        Ok(places) => places,
        Err(e) => return Err(AtlasError::Packing(e)),
    };
    proof {
        lemma_page_count_bound(places@, pages as nat);
    }
    let page_count = page_count(&places);
    let texcoords = padded_texcoords(entries, &places, padding, size);
    let mip_level_count: u32 = ilog2(size) + 1;
    let mut textures = new_textures(page_count, size, mip_level_count);
    proof {
        assert(level_size(size, 0) == size) by {
            assert(exp2(0) == 1);
        }
        assert forall|p: int| 0 <= p < textures@.len() implies (#[trigger] textures@[p]).mip_maps@[0].pixels@
            == composed(Seq::empty(), p, size as int) by {
            assert(textures@[p].mip_maps@[0].pixels@ == composed(Seq::empty(), p, level_size(size, 0) as int));
        }
    }
    compose_padded(
        &mut textures,
        entries,
        &places,
        &sizes,
        padding,
        size,
        mip_level_count,
        Ghost(pages),
    );
    let ghost composed_pages = textures@;
    build_page_mips(&mut textures, size, mip_level_count, filter);
    let atlas = Atlas { page_count, size, mip_level_count, textures, texcoords };
    proof {
        assert forall|p: int, l: int| 0 <= p < page_count && 0 <= l < mip_level_count implies (
        #[trigger] atlas.textures@[p].mip_maps@[l]).pixels@ == padded_level(
            entries@,
            padding,
            places@,
            size,
            Some(filter),
            p,
            l as nat,
        ) by {
            assert(composed_pages[p].mip_maps@[0].pixels@ == composed(
                padded_layers(entries@, padding, places@),
                p,
                size as int,
            ));
        }
    }
    Ok(atlas)
}

/// The rectangle asked of the packer for an entry, in cells of `block_size`: the
/// entry with half a cell on each side, rounded up to whole cells.
pub open spec fn block_cells(e: AtlasEntry, block_size: u32) -> (u32, u32) {
    (
        ((e.texture.width + 2 * block_size - 1) / (block_size as int)) as u32,
        ((e.texture.height + 2 * block_size - 1) / (block_size as int)) as u32,
    )
}

/// The rectangles asked of the packer, in cells, in the order of the entries.
pub open spec fn block_sizes(entries: Seq<AtlasEntry>, block_size: u32) -> Seq<(u32, u32)> {
    Seq::new(entries.len(), |i: int| block_cells(entries[i], block_size))
}

/// Where an entry lies once its cells are placed at `place`: half a cell in from
/// the corner, as wide and tall as the entry's own image.
pub open spec fn block_texcoord(
    e: AtlasEntry,
    block_size: u32,
    size: u32,
    place: (u32, u32, u32),
) -> Texcoord {
    Texcoord {
        page: place.0,
        min_x: (place.1 * block_size + block_size / 2) as u32,
        min_y: (place.2 * block_size + block_size / 2) as u32,
        max_x: (place.1 * block_size + block_size / 2 + e.texture.width) as u32,
        max_y: (place.2 * block_size + block_size / 2 + e.texture.height) as u32,
        size,
    }
}

/// What each entry writes on level `level` of its page: its image dilated by half
/// a cell to fill its cells, resampled to the cell size of that level.
pub open spec fn block_layers(
    entries: Seq<AtlasEntry>,
    block_size: u32,
    filter: AtlasMipFilter,
    places: Seq<(u32, u32, u32)>,
    level: nat,
) -> Seq<Layer> {
    Seq::new(
        entries.len(),
        |i: int|
            {
                let cells = block_cells(entries[i], block_size);
                let full_w = (cells.0 * block_size) as u32;
                let full_h = (cells.1 * block_size) as u32;
                let cell = level_size(block_size, level);
                let w = (cells.0 * cell) as u32;
                let h = (cells.1 * cell) as u32;
                Layer {
                    page: places[i].0 as int,
                    x: places[i].1 * cell,
                    y: places[i].2 * cell,
                    width: w as int,
                    height: h as int,
                    pixels: resampled(
                        dilated(
                            entries[i].texture,
                            entries[i].mip,
                            (block_size / 2) as int,
                            (block_size / 2) as int,
                            full_w as nat,
                            full_h as nat,
                        ),
                        full_w,
                        full_h,
                        w,
                        h,
                        filter,
                    ),
                }
            },
    )
}

/// `a` is the atlas of the entries placed, in cells of `block_size`, at `places`,
/// each level of each page holding every entry's own chain.
pub open spec fn block_atlas(
    size: u32,
    block_size: u32,
    filter: AtlasMipFilter,
    entries: Seq<AtlasEntry>,
    places: Seq<(u32, u32, u32)>,
    a: Atlas,
) -> bool {
    let levels = log2(block_size as nat) + 1;
    &&& a.page_count == page_count_of(places)
    &&& a.size == size
    &&& a.mip_level_count == levels
    &&& a.texcoords@ == Seq::new(
        entries.len(),
        |i: int| block_texcoord(entries[i], block_size, size, places[i]),
    )
    &&& a.textures@.len() == a.page_count
    &&& forall|p: int|
        0 <= p < a.page_count ==> texture_shaped(#[trigger] a.textures@[p], size, levels)
    &&& forall|p: int, l: int|
        0 <= p < a.page_count && 0 <= l < levels ==> (#[trigger] a.textures@[p].mip_maps@[l]).pixels@
            == composed(
            block_layers(entries, block_size, filter, places, l as nat),
            p,
            level_size(size, l as nat) as int,
        )
}

/// The outcome of building an atlas on a grid of `block_size` cells: the first
/// failed check, in order, or the packer's failure, or the atlas of its placements.
pub open spec fn block_result(
    max_page_count: u32,
    size: u32,
    filter: AtlasMipFilter,
    block_size: u32,
    entries: Seq<AtlasEntry>,
    r: Result<Atlas, AtlasError>,
) -> bool {
    if max_page_count == 0 {
        r == Err::<Atlas, AtlasError>(AtlasError::ZeroMaxPageCount)
    } else if !is_pow2(size as nat) {
        r == Err::<Atlas, AtlasError>(AtlasError::InvalidSize(size))
    } else if !is_pow2(block_size as nat) {
        r == Err::<Atlas, AtlasError>(AtlasError::InvalidBlockSize(block_size))
    } else if entries.len() == 0 {
        r == Err::<Atlas, AtlasError>(AtlasError::ZeroEntry)
    } else {
        let sizes = block_sizes(entries, block_size);
        let pages = page_budget(max_page_count, entries.len());
        match packing(sizes, (size / block_size) as u32, pages) {
            None => r is Err && r->Err_0 is Packing,
            Some(places) => {
                &&& placements_fit(sizes, places, (size / block_size) as u32, pages)
                &&& r is Ok
                &&& block_atlas(size, block_size, filter, entries, places, r->Ok_0)
            },
        }
    }
}

/// An entry's cells span at least the entry and a whole cell, and at most one cell less
/// than the entry and two whole cells.
proof fn lemma_block_cells(w: nat, b: nat)
    requires
        b >= 1,
        w >= 1,
    ensures
        ((w + 2 * b - 1) / (b as int)) * b >= w + b,
        ((w + 2 * b - 1) / (b as int)) * b <= w + 2 * b - 1,
        (w + 2 * b - 1) / (b as int) >= 1,
{
    let n = w + 2 * b - 1;
    vstd::arithmetic::div_mod::lemma_fundamental_div_mod(n as int, b as int);
    let q = n / (b as int);
    let r = n % (b as int);
    assert(q * b >= w + b && q * b <= n && q >= 1) by (nonlinear_arith)
        requires
            n == b * q + r,
            0 <= r < b,
            n == w + 2 * b - 1,
            b >= 1,
            w >= 1,
    ;
}

/// The cells of each entry.
fn block_request_sizes(entries: &[AtlasEntry], block_size: u32) -> (r: Vec<(u32, u32)>)
    requires
        entries_ok(entries@),
        entries_fit(entries@, block_size as nat),
        block_size >= 1,
    ensures
        r@ == block_sizes(entries@, block_size),
{
    let mut r: Vec<(u32, u32)> = Vec::new();
    let mut i: usize = 0;
    while i < entries.len()
        invariant
            i <= entries@.len(),
            entries_ok(entries@),
            entries_fit(entries@, block_size as nat),
            block_size >= 1,
            r@ =~= block_sizes(entries@, block_size).take(i as int),
        decreases entries@.len() - i,
    {
        let e = &entries[i];
        let w = (e.texture.width + 2 * block_size - 1) / block_size;
        let h = (e.texture.height + 2 * block_size - 1) / block_size;
        r.push((w, h));
        i = i + 1;
    }
    r
}

/// The texcoord of each entry, from the placement of its cells on a page of edge
/// `size`: half a cell in from the cells' corner, the size of the entry's image.
pub fn block_texcoords(
    entries: &[AtlasEntry],
    places: &Vec<(u32, u32, u32)>,
    block_size: u32,
    size: u32,
) -> (r: Vec<Texcoord>)
    requires
        entries_ok(entries@),
        entries_fit(entries@, block_size as nat),
        block_size >= 1,
        placements_inside(block_sizes(entries@, block_size), places@, (size / block_size) as u32),
    ensures
        r@ == Seq::new(
            entries@.len(),
            |i: int| block_texcoord(entries@[i], block_size, size, places@[i]),
        ),
{
    let ghost sizes = block_sizes(entries@, block_size);
    let mut r: Vec<Texcoord> = Vec::new();
    let mut i: usize = 0;
    while i < entries.len()
        invariant
            i <= entries@.len(),
            entries_ok(entries@),
            entries_fit(entries@, block_size as nat),
            block_size >= 1,
            sizes == block_sizes(entries@, block_size),
            placements_inside(sizes, places@, (size / block_size) as u32),
            r@ =~= Seq::new(
                entries@.len(),
                |i: int| block_texcoord(entries@[i], block_size, size, places@[i]),
            ).take(i as int),
        decreases entries@.len() - i,
    {
        let (page, x, y) = places[i];
        let e = &entries[i];
        proof {
            let wb = sizes[i as int].0;
            let hb = sizes[i as int].1;
            let bin = size / block_size;
            lemma_block_cells(e.texture.width as nat, block_size as nat);
            lemma_block_cells(e.texture.height as nat, block_size as nat);
            vstd::arithmetic::div_mod::lemma_fundamental_div_mod(size as int, block_size as int);
            assert(x * block_size + e.texture.width + block_size <= size) by (nonlinear_arith)
                requires
                    x + wb <= bin,
                    wb * block_size >= e.texture.width + block_size,
                    bin * block_size <= size,
                    block_size >= 1,
            {
                assert((x + wb) * block_size <= bin * block_size) by (nonlinear_arith)
                    requires
                        x + wb <= bin,
                        block_size >= 1,
                ;
            }
            assert(y * block_size + e.texture.height + block_size <= size) by (nonlinear_arith)
                requires
                    y + hb <= bin,
                    hb * block_size >= e.texture.height + block_size,
                    bin * block_size <= size,
                    block_size >= 1,
            {
                assert((y + hb) * block_size <= bin * block_size) by (nonlinear_arith)
                    requires
                        y + hb <= bin,
                        block_size >= 1,
                ;
            }
        }
        let min_x = x * block_size + block_size / 2;
        let min_y = y * block_size + block_size / 2;
        r.push(
            Texcoord {
                page,
                min_x,
                min_y,
                max_x: min_x + e.texture.width,
                max_y: min_y + e.texture.height,
                size,
            },
        );
        i = i + 1;
    }
    r
}

proof fn lemma_mul_le(a: nat, b: nat, c: nat, d: nat)
    requires
        a <= c,
        b <= d,
    ensures
        a * b <= c * d,
{
    assert(a * b <= c * d) by (nonlinear_arith)
        requires
            a <= c,
            b <= d,
    ;
}

/// Writes every entry's own chain, level by level, onto its page.
#[verifier::rlimit(50)]
fn compose_blocks(
    textures: &mut Vec<Texture>,
    entries: &[AtlasEntry],
    places: &Vec<(u32, u32, u32)>,
    sizes: &Vec<(u32, u32)>,
    block_size: u32,
    size: u32,
    filter: AtlasMipFilter,
    levels: u32,
    Ghost(depth): Ghost<u32>,
)
    requires
        entries_ok(entries@),
        entries_fit(entries@, block_size as nat),
        is_pow2(size as nat),
        is_pow2(block_size as nat),
        levels == log2(block_size as nat) + 1,
        4 * size * size <= usize::MAX,
        sizes@ == block_sizes(entries@, block_size),
        placements_fit(sizes@, places@, (size / block_size) as u32, depth),
        old(textures)@.len() == page_count_of(places@),
        forall|p: int|
            0 <= p < old(textures)@.len() ==> texture_shaped(
                #[trigger] old(textures)@[p],
                size,
                levels as nat,
            ),
        forall|p: int, l: int|
            0 <= p < old(textures)@.len() && 0 <= l < levels ==> (#[trigger] old(textures)@[p].mip_maps@[l]).pixels@ == composed(
                Seq::empty(),
                p,
                level_size(size, l as nat) as int,
            ),
    ensures
        final(textures)@.len() == old(textures)@.len(),
        forall|p: int|
            0 <= p < final(textures)@.len() ==> texture_shaped(
                #[trigger] final(textures)@[p],
                size,
                levels as nat,
            ),
        forall|p: int, l: int|
            0 <= p < final(textures)@.len() && 0 <= l < levels ==> (#[trigger] final(textures)@[p].mip_maps@[l]).pixels@ == composed(
                block_layers(entries@, block_size, filter, places@, l as nat),
                p,
                level_size(size, l as nat) as int,
            ),
{
    proof {
        lemma_page_count_bound(places@, depth as nat);
        assert forall|p: int, l: int| 0 <= p < textures@.len() && 0 <= l < levels implies (
        #[trigger] textures@[p].mip_maps@[l]).pixels@ == composed(
            block_layers(entries@, block_size, filter, places@, l as nat).take(0),
            p,
            level_size(size, l as nat) as int,
        ) by {
            assert(block_layers(entries@, block_size, filter, places@, l as nat).take(0)
                =~= Seq::<Layer>::empty());
        }
    }
    let half = block_size / 2;
    assert(level_size(block_size, 0) == block_size) by {
        assert(exp2(0) == 1);
    }
    let mut i: usize = 0;
    while i < entries.len()
        invariant
            i <= entries@.len(),
            half == block_size / 2,
            level_size(block_size, 0) == block_size,
            entries_ok(entries@),
            entries_fit(entries@, block_size as nat),
            is_pow2(size as nat),
            is_pow2(block_size as nat),
            levels == log2(block_size as nat) + 1,
            4 * size * size <= usize::MAX,
            sizes@ == block_sizes(entries@, block_size),
            placements_fit(sizes@, places@, (size / block_size) as u32, depth),
            textures@.len() == page_count_of(places@),
            forall|j: int| 0 <= j < places@.len() ==> (#[trigger] places@[j]).0 < page_count_of(places@),
            forall|p: int|
                0 <= p < textures@.len() ==> texture_shaped(#[trigger] textures@[p], size, levels as nat),
            forall|p: int, l: int|
                0 <= p < textures@.len() && 0 <= l < levels ==> (#[trigger] textures@[p].mip_maps@[l]).pixels@
                    == composed(
                    block_layers(entries@, block_size, filter, places@, l as nat).take(i as int),
                    p,
                    level_size(size, l as nat) as int,
                ),
        decreases entries@.len() - i,
    {
        let (page, x, y) = places[i];
        let (wb, hb) = sizes[i];
        let ghost bin = size / block_size;
        proof {
            assert(places@[i as int].0 < page_count_of(places@));
            assert(entries@[i as int].texture.width > 0);
            lemma_block_cells(entries@[i as int].texture.width as nat, block_size as nat);
            lemma_block_cells(entries@[i as int].texture.height as nat, block_size as nat);
            assert(x + wb <= bin);
            assert(y + hb <= bin);
            if size < block_size {
                assert(size / block_size == 0) by {
                    vstd::arithmetic::div_mod::lemma_basic_div(size as int, block_size as int);
                }
            }
            assert(block_size <= size);
            lemma_level_scale(size as nat, block_size as nat, 0);
            lemma_mul_le(wb as nat, block_size as nat, bin as nat, block_size as nat);
            lemma_mul_le(hb as nat, block_size as nat, bin as nat, block_size as nat);
            lemma_square_bound((wb * block_size) as nat, (hb * block_size) as nat, size as nat);
            assert(size * size <= 4 * size * size) by (nonlinear_arith);
        }
        let full_w = wb * block_size;
        let full_h = hb * block_size;
        let src = resample(&entries[i].texture, entries[i].mip, half, half, full_w, full_h);
        let ghost at_start = textures@;
        let mut l: u32 = 0;
        let mut cell: u32 = block_size;
        while l < levels
            invariant
                i < entries@.len(),
                0 <= l <= levels,
                entries_ok(entries@),
                is_pow2(size as nat),
                is_pow2(block_size as nat),
                block_size <= size,
                levels == log2(block_size as nat) + 1,
                4 * size * size <= usize::MAX,
                sizes@ == block_sizes(entries@, block_size),
                places@[i as int] == (page, x, y),
                sizes@[i as int] == (wb, hb),
                bin == size / block_size,
                x + wb <= bin,
                y + hb <= bin,
                wb >= 1,
                hb >= 1,
                full_w == wb * block_size,
                full_h == hb * block_size,
                full_w <= size,
                full_h <= size,
                cell == level_size(block_size, l as nat),
                src.wf(),
                src.width == full_w,
                src.height == full_h,
                src.pixels@ == dilated(
                    entries@[i as int].texture,
                    entries@[i as int].mip,
                    half as int,
                    half as int,
                    full_w as nat,
                    full_h as nat,
                ),
                half == block_size / 2,
                page < textures@.len(),
                textures@.len() == at_start.len(),
                forall|p: int|
                    0 <= p < textures@.len() ==> texture_shaped(#[trigger] textures@[p], size, levels as nat),
                forall|p: int, j: int|
                    0 <= p < textures@.len() && 0 <= j < levels ==> (#[trigger] textures@[p].mip_maps@[j]).pixels@
                        == composed(
                        block_layers(entries@, block_size, filter, places@, j as nat).take(
                            if p == page && j < l {
                                i + 1
                            } else {
                                i as int
                            },
                        ),
                        p,
                        level_size(size, j as nat) as int,
                    ),
            decreases levels - l,
        {
            let ghost layers = block_layers(entries@, block_size, filter, places@, l as nat);
            proof {
                lemma_level_scale(size as nat, block_size as nat, l as nat);
                lemma_level_positive(block_size as nat, l as nat);
                lemma_mul_le((x + wb) as nat, cell as nat, bin as nat, cell as nat);
                lemma_mul_le((y + hb) as nat, cell as nat, bin as nat, cell as nat);
                lemma_mul_le(wb as nat, cell as nat, wb as nat, block_size as nat);
                lemma_mul_le(hb as nat, cell as nat, hb as nat, block_size as nat);
                lemma_mul_le(1, 1, wb as nat, cell as nat);
                lemma_mul_le(1, 1, hb as nat, cell as nat);
                lemma_mul_le(full_w as nat, full_h as nat, size as nat, size as nat);
                lemma_mul_le(full_w as nat, (hb * cell) as nat, size as nat, size as nat);
                lemma_mul_le((wb * cell) as nat, (hb * cell) as nat, size as nat, size as nat);
                lemma_exp2_positive(l as nat);
                vstd::arithmetic::div_mod::lemma_div_is_ordered_by_denominator(
                    size as int,
                    1,
                    exp2(l as nat) as int,
                );
                assert(3 * full_w * full_h == 3 * (full_w * full_h)) by (nonlinear_arith);
                assert(4 * full_w * (hb * cell) == 4 * (full_w * (hb * cell))) by (nonlinear_arith);
                assert(3 * (wb * cell) * (hb * cell) == 3 * ((wb * cell) * (hb * cell))) by (nonlinear_arith);
                assert(4 * size * size == 4 * (size * size)) by (nonlinear_arith);
                assert((x + wb) * cell == x * cell + wb * cell) by (nonlinear_arith);
                assert((y + hb) * cell == y * cell + hb * cell) by (nonlinear_arith);
                assert(texture_shaped(textures@[page as int], size, levels as nat));
                assert(textures@[page as int].mip_maps@[l as int].wf());
                assert(layers[i as int].page == page);
                assert(textures@[page as int].mip_maps@[l as int].pixels@ == composed(
                    layers.take(i as int),
                    page as int,
                    level_size(size, l as nat) as int,
                ));
            }
            let m = resize(&src, wb * cell, hb * cell, filter);
            let ghost before = textures@;
            write_layer(
                &mut textures[page as usize].mip_maps[l as usize],
                &m,
                x * cell,
                y * cell,
                Ghost(layers),
                Ghost(i as int),
            );
            proof {
                assert forall|p: int| 0 <= p < textures@.len() implies texture_shaped(
                    #[trigger] textures@[p],
                    size,
                    levels as nat,
                ) by {
                    if p != page {
                        assert(textures@[p] == before[p]);
                    } else {
                        assert forall|j: int| 0 <= j < levels implies {
                            &&& (#[trigger] textures@[p].mip_maps@[j]).wf()
                            &&& textures@[p].mip_maps@[j].width == level_size(size, j as nat)
                            &&& textures@[p].mip_maps@[j].height == level_size(size, j as nat)
                        } by {
                            if j != l {
                                assert(textures@[p].mip_maps@[j] == before[p].mip_maps@[j]);
                            }
                        }
                    }
                }
                assert forall|p: int, j: int| 0 <= p < textures@.len() && 0 <= j < levels implies (
                #[trigger] textures@[p].mip_maps@[j]).pixels@ == composed(
                    block_layers(entries@, block_size, filter, places@, j as nat).take(
                        if p == page && j < l + 1 {
                            i + 1
                        } else {
                            i as int
                        },
                    ),
                    p,
                    level_size(size, j as nat) as int,
                ) by {
                    if p != page {
                        assert(textures@[p] == before[p]);
                    } else if j != l {
                        assert(textures@[p].mip_maps@[j] == before[p].mip_maps@[j]);
                    }
                }
                lemma_halve_level(block_size as nat, l as nat);
            }
            cell = cell / 2;
            l = l + 1;
        }
        proof {
            assert forall|p: int, j: int| 0 <= p < textures@.len() && 0 <= j < levels implies (
            #[trigger] textures@[p].mip_maps@[j]).pixels@ == composed(
                block_layers(entries@, block_size, filter, places@, j as nat).take(i + 1),
                p,
                level_size(size, j as nat) as int,
            ) by {
                if p != page {
                    let layers = block_layers(entries@, block_size, filter, places@, j as nat);
                    assert(layers[i as int].page == page);
                    crate::layout::lemma_compose_other_page(
                        layers,
                        i as int,
                        p,
                        level_size(size, j as nat) as int,
                    );
                }
            }
        }
        i = i + 1;
    }
    proof {
        assert forall|p: int, l: int| 0 <= p < textures@.len() && 0 <= l < levels implies (
        #[trigger] textures@[p].mip_maps@[l]).pixels@ == composed(
            block_layers(entries@, block_size, filter, places@, l as nat),
            p,
            level_size(size, l as nat) as int,
        ) by {
            assert(block_layers(entries@, block_size, filter, places@, l as nat).take(i as int)
                =~= block_layers(entries@, block_size, filter, places@, l as nat));
        }
    }
}

/// Builds the atlas on a grid of `block_size` cells, each entry's chain built from
/// the entry alone.
fn create_atlas_mip_with_block(
    max_page_count: u32,
    size: u32,
    filter: AtlasMipFilter,
    block_size: u32,
    entries: &[AtlasEntry],
) -> (r: Result<Atlas, AtlasError>)
    requires
        entries_ok(entries@),
        entries_fit(entries@, block_size as nat),
        4 * size * size <= usize::MAX,
    ensures
        block_result(max_page_count, size, filter, block_size, entries@, r),
{
    if max_page_count == 0 {
        return Err(AtlasError::ZeroMaxPageCount);
    }
    if !is_power_of_two(size) {
        return Err(AtlasError::InvalidSize(size));
    }
    if !is_power_of_two(block_size) {
        return Err(AtlasError::InvalidBlockSize(block_size));
    }
    if entries.len() == 0 {
        return Err(AtlasError::ZeroEntry);
    }
    assert(size * size <= 4 * size * size) by (nonlinear_arith);
    let sizes = block_request_sizes(entries, block_size);
    let bin_size = size / block_size;
    let pages = pages_to_offer(max_page_count, entries.len());
    let places = match pack(&sizes, bin_size, pages) {
        Ok(places) => places,
        Err(e) => return Err(AtlasError::Packing(e)),
    };
    proof {
        lemma_page_count_bound(places@, pages as nat);
    }
    let page_count = page_count(&places);
    let texcoords = block_texcoords(entries, &places, block_size, size);
    let mip_level_count: u32 = ilog2(block_size) + 1;
    let mut textures = new_textures(page_count, size, mip_level_count);
    compose_blocks(
        &mut textures,
        entries,
        &places,
        &sizes,
        block_size,
        size,
        filter,
        mip_level_count,
        Ghost(pages),
    );
    Ok(Atlas { page_count, size, mip_level_count, textures, texcoords })
}

/// How far, at most, each entry's size grows on every side once laid out: its
/// padding, or a whole cell on a grid of cells.
pub open spec fn margin_of(mip: AtlasMipOption) -> nat {
    match mip {
        AtlasMipOption::NoMip => 0,
        AtlasMipOption::NoMipWithPadding(padding) => padding as nat,
        AtlasMipOption::Mip(_) => 0,
        AtlasMipOption::MipWithPadding(_, padding) => padding as nat,
        AtlasMipOption::MipWithBlock(_, block_size) => block_size as nat,
    }
}

/// The number of mip levels of each page:
/// one without mips, `log2(size) + 1` for whole-page chains, `log2(block_size) + 1` for block chains.
pub open spec fn mip_level_count_of(mip: AtlasMipOption, size: u32) -> nat {
    match mip {
        AtlasMipOption::NoMip => 1,
        AtlasMipOption::NoMipWithPadding(_) => 1,
        AtlasMipOption::Mip(_) => log2(size as nat) + 1,
        AtlasMipOption::MipWithPadding(_, _) => log2(size as nat) + 1,
        AtlasMipOption::MipWithBlock(_, block_size) => log2(block_size as nat) + 1,
    }
}

/// The outcome of `create_atlas` for the given request.
pub open spec fn atlas_result(
    max_page_count: u32,
    size: u32,
    mip: AtlasMipOption,
    entries: Seq<AtlasEntry>,
    r: Result<Atlas, AtlasError>,
) -> bool {
    match mip {
        AtlasMipOption::NoMip => padded_result(max_page_count, size, 0, None, entries, r),
        AtlasMipOption::NoMipWithPadding(padding) => padded_result(
            max_page_count,
            size,
            padding,
            None,
            entries,
            r,
        ),
        AtlasMipOption::Mip(filter) => padded_result(
            max_page_count,
            size,
            0,
            Some(filter),
            entries,
            r,
        ),
        AtlasMipOption::MipWithPadding(filter, padding) => padded_result(
            max_page_count,
            size,
            padding,
            Some(filter),
            entries,
            r,
        ),
        AtlasMipOption::MipWithBlock(filter, block_size) => block_result(
            max_page_count,
            size,
            filter,
            block_size,
            entries,
            r,
        ),
    }
}

/// Builds the atlas that `desc` describes.
///
/// Fails, checking in this order, with `ZeroMaxPageCount`, with `InvalidSize` when a
/// mip chain is asked for and `size` is not a power of two, with `InvalidBlockSize`
/// when the block size is not a power of two, with `ZeroEntry`, and with `Packing`
/// when the entries do not fit on `max_page_count` pages.
///
/// Each entry's image must be non-empty and hold one pixel per position, and stay
/// within `u32` once grown by its margin; a page's buffers must fit in memory.
pub fn create_atlas(desc: &AtlasDescriptor) -> (r: Result<Atlas, AtlasError>)
    requires
        entries_ok(desc.entries@),
        entries_fit(desc.entries@, margin_of(desc.mip)),
        4 * desc.size * desc.size <= usize::MAX,
    ensures
        atlas_result(desc.max_page_count, desc.size, desc.mip, desc.entries@, r),
        r is Ok ==> 1 <= r->Ok_0.page_count <= desc.max_page_count,
        r is Ok ==> r->Ok_0.mip_level_count == mip_level_count_of(desc.mip, desc.size),
        r is Ok ==> r->Ok_0.texcoords@.len() == desc.entries@.len(),
{
    let r = match desc.mip {
        AtlasMipOption::NoMip => {
            create_atlas_with_padding(desc.max_page_count, desc.size, 0, desc.entries)
        },
        AtlasMipOption::NoMipWithPadding(padding) => {
            create_atlas_with_padding(desc.max_page_count, desc.size, padding, desc.entries)
        },
        AtlasMipOption::Mip(filter) => {
            create_atlas_mip_with_padding(desc.max_page_count, desc.size, filter, 0, desc.entries)
        },
        AtlasMipOption::MipWithPadding(filter, padding) => {
            create_atlas_mip_with_padding(
                desc.max_page_count,
                desc.size,
                filter,
                padding,
                desc.entries,
            )
        },
        AtlasMipOption::MipWithBlock(filter, block_size) => {
            create_atlas_mip_with_block(
                desc.max_page_count,
                desc.size,
                filter,
                block_size,
                desc.entries,
            )
        },
    };
    proof {
        crate::laws::lemma_page_count_bounded(desc.max_page_count, desc.size, desc.mip, desc.entries@, r);
        crate::laws::lemma_mip_level_count(desc.max_page_count, desc.size, desc.mip, desc.entries@, r);
        crate::laws::lemma_texcoords_in_page(desc.max_page_count, desc.size, desc.mip, desc.entries@, r);
    }
    r
}

} // verus!
