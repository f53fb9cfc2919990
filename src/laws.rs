//! What holds of every atlas that `create_atlas` builds.

use vstd::prelude::*;

use crate::atlas::{
    atlas_result, block_cells, block_layers, block_sizes, block_texcoord, padded_layers,
    padded_level, entries_fit, entries_ok,
    lemma_page_count_bound, level_size, margin_of, mip_level_count_of, padded_size, padded_sizes,
    padded_texcoord, page_budget, page_count_of, texture_shaped, Atlas, AtlasEntry, AtlasError,
};
use crate::buffer::{in_rect, RgbImage};
use crate::dilate::{dilated, dilated_pixel};
use crate::layout::{composed, lemma_page_shows_layer};
use crate::math::exp2;
use crate::options::{AtlasEntryMipOption, AtlasMipFilter, AtlasMipOption, Texcoord};
use crate::pack::packing;

verus! {

/// The placements behind a successful atlas: the packer's answer for the request.
pub open spec fn placements_of(
    max_page_count: u32,
    size: u32,
    mip: AtlasMipOption,
    entries: Seq<AtlasEntry>,
) -> Seq<(u32, u32, u32)> {
    let pages = page_budget(max_page_count, entries.len());
    match mip {
        AtlasMipOption::MipWithBlock(_, block_size) => packing(
            block_sizes(entries, block_size),
            (size / block_size) as u32,
            pages,
        )->Some_0,
        AtlasMipOption::NoMip => packing(padded_sizes(entries, 0), size, pages)->Some_0,
        AtlasMipOption::Mip(_) => packing(padded_sizes(entries, 0), size, pages)->Some_0,
        AtlasMipOption::NoMipWithPadding(padding) => packing(
            padded_sizes(entries, padding),
            size,
            pages,
        )->Some_0,
        AtlasMipOption::MipWithPadding(_, padding) => packing(
            padded_sizes(entries, padding),
            size,
            pages,
        )->Some_0,
    }
}

/// An atlas has at least one page and never more than `max_page_count`; when the
/// entries cannot be placed on that many pages the error is `Packing`.
pub proof fn lemma_page_count_bounded(
    max_page_count: u32,
    size: u32,
    mip: AtlasMipOption,
    entries: Seq<AtlasEntry>,
    r: Result<Atlas, AtlasError>,
)
    requires
        atlas_result(max_page_count, size, mip, entries, r),
    ensures
        r is Ok ==> 1 <= r->Ok_0.page_count <= max_page_count,
        r is Ok ==> r->Ok_0.page_count == page_count_of(
            placements_of(max_page_count, size, mip, entries),
        ),
{
    if r is Ok {
        let places = placements_of(max_page_count, size, mip, entries);
        let pages = page_budget(max_page_count, entries.len());
        assert(places.len() == entries.len() && entries.len() > 0);
        assert(forall|i: int| 0 <= i < places.len() ==> (#[trigger] places[i]).0 < pages);
        lemma_page_count_bound(places, pages as nat);
        assert(places[0].0 < page_count_of(places));
    }
}

/// An atlas has exactly as many mip levels as its layout asks for: one without
/// mips, `log2(size) + 1` for whole-page chains, `log2(block_size) + 1` for block
/// chains; every page holds that many levels, level `l` of edge `size / 2^l`.
pub proof fn lemma_mip_level_count(
    max_page_count: u32,
    size: u32,
    mip: AtlasMipOption,
    entries: Seq<AtlasEntry>,
    r: Result<Atlas, AtlasError>,
)
    requires
        atlas_result(max_page_count, size, mip, entries, r),
    ensures
        r is Ok ==> r->Ok_0.mip_level_count == mip_level_count_of(mip, size),
        r is Ok ==> r->Ok_0.size == size,
        r is Ok ==> forall|p: int|
            0 <= p < r->Ok_0.page_count ==> texture_shaped(
                #[trigger] r->Ok_0.textures@[p],
                size,
                mip_level_count_of(mip, size),
            ),
{
}

/// `t` lies inside the `size`×`size` page `t.page`, below `page_count`, and is as
/// wide and tall as the entry's image.
pub open spec fn texcoord_in_page(t: Texcoord, e: AtlasEntry, size: u32, page_count: u32) -> bool {
    &&& t.page < page_count
    &&& t.size == size
    &&& t.min_x < t.max_x <= size
    &&& t.min_y < t.max_y <= size
    &&& t.max_x - t.min_x == e.texture.width
    &&& t.max_y - t.min_y == e.texture.height
}

/// An entry's cells, placed inside the grid, keep the entry and half a cell on
/// each side inside the page.
proof fn lemma_block_cell_fits(w: nat, b: nat, x: nat, cells: nat, bin: nat, size: nat)
    requires
        w >= 1,
        b >= 1,
        cells == (w + 2 * b - 1) / (b as int),
        x + cells <= bin,
        bin == size / b,
    ensures
        x * b + b / 2 + w + b / 2 <= size,
        x * b + b / 2 + w <= size,
        cells * b >= w + b,
        x * b + cells * b <= size,
{
    let n = w + 2 * b - 1;
    vstd::arithmetic::div_mod::lemma_fundamental_div_mod(n as int, b as int);
    vstd::arithmetic::div_mod::lemma_fundamental_div_mod(size as int, b as int);
    assert(cells * b >= w + b) by (nonlinear_arith)
        requires
            n == b * cells + (n as int) % (b as int),
            0 <= (n as int) % (b as int) < b,
            n == w + 2 * b - 1,
    ;
    assert((x + cells) * b <= bin * b) by (nonlinear_arith)
        requires
            x + cells <= bin,
    ;
    assert(bin * b <= size) by (nonlinear_arith)
        requires
            size as int == b * bin + (size as int) % (b as int),
            0 <= (size as int) % (b as int),
    ;
    assert((x + cells) * b == x * b + cells * b) by (nonlinear_arith);
}

/// Every entry has exactly one texcoord, at its own position, and it lies inside
/// its page, as wide and tall as the entry.
pub proof fn lemma_texcoords_in_page(
    max_page_count: u32,
    size: u32,
    mip: AtlasMipOption,
    entries: Seq<AtlasEntry>,
    r: Result<Atlas, AtlasError>,
)
    requires
        entries_ok(entries),
        entries_fit(entries, margin_of(mip)),
        atlas_result(max_page_count, size, mip, entries, r),
    ensures
        r is Ok ==> r->Ok_0.texcoords@.len() == entries.len(),
        r is Ok ==> forall|i: int|
            0 <= i < entries.len() ==> texcoord_in_page(
                #[trigger] r->Ok_0.texcoords@[i],
                entries[i],
                size,
                r->Ok_0.page_count,
            ),
{
    if r is Ok {
        let a = r->Ok_0;
        let places = placements_of(max_page_count, size, mip, entries);
        lemma_page_count_bounded(max_page_count, size, mip, entries, r);
        let pages = page_budget(max_page_count, entries.len());
        assert(forall|i: int| 0 <= i < places.len() ==> (#[trigger] places[i]).0 < pages);
        lemma_page_count_bound(places, pages as nat);
        match mip {
            AtlasMipOption::MipWithBlock(_, b) => {
                let bin = (size / b) as u32;
                assert forall|i: int| 0 <= i < entries.len() implies texcoord_in_page(
                    #[trigger] a.texcoords@[i],
                    entries[i],
                    size,
                    a.page_count,
                ) by {
                    let e = entries[i];
                    assert(e.texture.width > 0 && e.texture.height > 0);
                    assert(a.texcoords@[i] == block_texcoord(e, b, size, places[i]));
                    assert(block_sizes(entries, b)[i] == block_cells(e, b));
                    assert(places[i].1 + block_cells(e, b).0 <= bin);
                    assert(places[i].2 + block_cells(e, b).1 <= bin);
                    lemma_block_cell_fits(
                        e.texture.width as nat,
                        b as nat,
                        places[i].1 as nat,
                        block_cells(e, b).0 as nat,
                        bin as nat,
                        size as nat,
                    );
                    lemma_block_cell_fits(
                        e.texture.height as nat,
                        b as nat,
                        places[i].2 as nat,
                        block_cells(e, b).1 as nat,
                        bin as nat,
                        size as nat,
                    );
                }
            },
            _ => {
                let padding: u32 = margin_of(mip) as u32;
                assert forall|i: int| 0 <= i < entries.len() implies texcoord_in_page(
                    #[trigger] a.texcoords@[i],
                    entries[i],
                    size,
                    a.page_count,
                ) by {
                    let e = entries[i];
                    assert(e.texture.width > 0 && e.texture.height > 0);
                    assert(a.texcoords@[i] == padded_texcoord(e, padding, size, places[i]));
                    assert(padded_sizes(entries, padding)[i] == padded_size(e, padding));
                }
            },
        }
    }
}

/// The pixel an entry shows at offset (dx, dy) inside its texcoord: its image at
/// that offset under its wrap mode (as it is for `Clamp` and `Repeat`; reflected
/// for `Mirror`, whose tile 0 is a reflected one).
pub open spec fn live_pixel(e: AtlasEntry, dx: int, dy: int) -> [u8; 3] {
    dilated_pixel(e.texture, e.mip, 0, 0, dx, dy)
}

/// The level-0 pixel of `a` at (x, y) of page `page`.
pub open spec fn level0_pixel(a: Atlas, page: int, x: int, y: int) -> [u8; 3] {
    a.textures@[page].mip_maps@[0].pixel(x, y)
}

/// The dilated window, with the source's origin at (m, m), shows the source's
/// offset (dx, dy) at (m + dx, m + dy).
proof fn lemma_dilated_at(src: RgbImage, mode: AtlasEntryMipOption, m: int, w: nat, h: nat, dx: int, dy: int)
    requires
        0 <= m,
        0 <= dx,
        0 <= dy,
        m + dx < w,
        m + dy < h,
    ensures
        dilated(src, mode, m, m, w, h)[(m + dy) * w + (m + dx)] == dilated_pixel(src, mode, 0, 0, dx, dy),
{
    crate::buffer::lemma_grid_bound(m + dx, m + dy, w as int, h as int);
    crate::buffer::lemma_grid_index(m + dx, m + dy, w as int);
}

/// Rectangles apart along an axis stay apart once scaled by `b`.
proof fn lemma_scaled_apart(a: nat, aw: nat, c: nat, b: nat)
    requires
        a + aw <= c,
    ensures
        a * b + aw * b <= c * b,
{
    assert(a * b + aw * b <= c * b) by (nonlinear_arith)
        requires
            a + aw <= c,
    ;
}

proof fn lemma_block_level0_shows_entry(
    max_page_count: u32,
    size: u32,
    mip: AtlasMipOption,
    entries: Seq<AtlasEntry>,
    r: Result<Atlas, AtlasError>,
    i: int,
    dx: int,
    dy: int,
)
    requires
        entries_ok(entries),
        entries_fit(entries, margin_of(mip)),
        atlas_result(max_page_count, size, mip, entries, r),
        r is Ok,
        mip is MipWithBlock,
        0 <= i < entries.len(),
        0 <= dx < entries[i].texture.width,
        0 <= dy < entries[i].texture.height,
    ensures
        level0_pixel(
            r->Ok_0,
            r->Ok_0.texcoords@[i].page as int,
            r->Ok_0.texcoords@[i].min_x + dx,
            r->Ok_0.texcoords@[i].min_y + dy,
        ) == live_pixel(entries[i], dx, dy),
{
    let a = r->Ok_0;
    let places = placements_of(max_page_count, size, mip, entries);
    let pages = page_budget(max_page_count, entries.len());
    let e = entries[i];
    lemma_texcoords_in_page(max_page_count, size, mip, entries, r);
    lemma_mip_level_count(max_page_count, size, mip, entries, r);
    let t = a.texcoords@[i];
    assert(texcoord_in_page(t, e, size, a.page_count));
    let page = t.page as int;
    assert(texture_shaped(a.textures@[page], size, mip_level_count_of(mip, size)));
    let img = a.textures@[page].mip_maps@[0];
    assert(level_size(size, 0) == size) by {
        assert(exp2(0) == 1);
    }
    assert(img.wf() && img.width == size && img.height == size);
    let filter = mip->MipWithBlock_0;
    let b = mip->MipWithBlock_1;
    let layers = block_layers(entries, b, filter, places, 0);
    let sizes = block_sizes(entries, b);
    assert(level_size(b, 0) == b) by {
        assert(exp2(0) == 1);
    }
    assert(t == block_texcoord(e, b, size, places[i]));
    assert(img.pixels@ == composed(layers, page, size as int));
    let cells = block_cells(e, b);
    assert(sizes[i] == cells);
    let bin = (size / b) as u32;
    lemma_block_cell_fits(
        e.texture.width as nat,
        b as nat,
        places[i].1 as nat,
        cells.0 as nat,
        bin as nat,
        size as nat,
    );
    lemma_block_cell_fits(
        e.texture.height as nat,
        b as nat,
        places[i].2 as nat,
        cells.1 as nat,
        bin as nat,
        size as nat,
    );
    let x = t.min_x + dx;
    let y = t.min_y + dy;
    assert forall|j: int|
        0 <= j < layers.len() && j != i && (#[trigger] layers[j]).page == page implies !in_rect(
        x,
        y,
        layers[j].x,
        layers[j].y,
        layers[j].width,
        layers[j].height,
    ) by {
        let cj = block_cells(entries[j], b);
        assert(sizes[j] == cj);
        assert(places[j].0 == places[i].0);
        assert(entries[j].texture.width > 0 && entries[j].texture.height > 0);
        lemma_block_cell_fits(
            entries[j].texture.width as nat,
            b as nat,
            places[j].1 as nat,
            cj.0 as nat,
            bin as nat,
            size as nat,
        );
        lemma_block_cell_fits(
            entries[j].texture.height as nat,
            b as nat,
            places[j].2 as nat,
            cj.1 as nat,
            bin as nat,
            size as nat,
        );
        if places[i].1 + cells.0 <= places[j].1 {
            lemma_scaled_apart(places[i].1 as nat, cells.0 as nat, places[j].1 as nat, b as nat);
        } else if places[j].1 + cj.0 <= places[i].1 {
            lemma_scaled_apart(places[j].1 as nat, cj.0 as nat, places[i].1 as nat, b as nat);
        } else if places[i].2 + cells.1 <= places[j].2 {
            lemma_scaled_apart(places[i].2 as nat, cells.1 as nat, places[j].2 as nat, b as nat);
        } else {
            lemma_scaled_apart(places[j].2 as nat, cj.1 as nat, places[i].2 as nat, b as nat);
        }
    }
    assert(in_rect(x, y, layers[i].x, layers[i].y, layers[i].width, layers[i].height));
    lemma_page_shows_layer(layers, i, page, img, x, y);
    let fw = (cells.0 * b) as u32;
    let fh = (cells.1 * b) as u32;
    assert(layers[i].pixels == dilated(e.texture, e.mip, (b / 2) as int, (b / 2) as int, fw as nat, fh as nat));
    lemma_dilated_at(e.texture, e.mip, (b / 2) as int, fw as nat, fh as nat, dx, dy);
}

proof fn lemma_padded_level0_shows_entry(
    max_page_count: u32,
    size: u32,
    mip: AtlasMipOption,
    entries: Seq<AtlasEntry>,
    r: Result<Atlas, AtlasError>,
    i: int,
    dx: int,
    dy: int,
)
    requires
        entries_ok(entries),
        entries_fit(entries, margin_of(mip)),
        atlas_result(max_page_count, size, mip, entries, r),
        r is Ok,
        !(mip is MipWithBlock),
        0 <= i < entries.len(),
        0 <= dx < entries[i].texture.width,
        0 <= dy < entries[i].texture.height,
    ensures
        level0_pixel(
            r->Ok_0,
            r->Ok_0.texcoords@[i].page as int,
            r->Ok_0.texcoords@[i].min_x + dx,
            r->Ok_0.texcoords@[i].min_y + dy,
        ) == live_pixel(entries[i], dx, dy),
{
    let a = r->Ok_0;
    let places = placements_of(max_page_count, size, mip, entries);
    let pages = page_budget(max_page_count, entries.len());
    let e = entries[i];
    lemma_texcoords_in_page(max_page_count, size, mip, entries, r);
    lemma_mip_level_count(max_page_count, size, mip, entries, r);
    let t = a.texcoords@[i];
    assert(texcoord_in_page(t, e, size, a.page_count));
    let page = t.page as int;
    assert(texture_shaped(a.textures@[page], size, mip_level_count_of(mip, size)));
    let img = a.textures@[page].mip_maps@[0];
    assert(level_size(size, 0) == size) by {
        assert(exp2(0) == 1);
    }
    assert(img.wf() && img.width == size && img.height == size);
    let padding: u32 = margin_of(mip) as u32;
    let filter: Option<AtlasMipFilter> = match mip {
        AtlasMipOption::Mip(f) => Some(f),
        AtlasMipOption::MipWithPadding(f, _) => Some(f),
        _ => None,
    };
    let layers = padded_layers(entries, padding, places);
    let sizes = padded_sizes(entries, padding);
    assert(t == padded_texcoord(e, padding, size, places[i]));
    assert(img.pixels@ == padded_level(entries, padding, places, size, filter, page, 0));
    assert(img.pixels@ == composed(layers, page, size as int));
    assert(sizes[i] == padded_size(e, padding));
    let x = t.min_x + dx;
    let y = t.min_y + dy;
    assert forall|j: int|
        0 <= j < layers.len() && j != i && (#[trigger] layers[j]).page == page implies !in_rect(
        x,
        y,
        layers[j].x,
        layers[j].y,
        layers[j].width,
        layers[j].height,
    ) by {
        assert(sizes[j] == padded_size(entries[j], padding));
        assert(places[j].0 == places[i].0);
    }
    lemma_page_shows_layer(layers, i, page, img, x, y);
    let ps = padded_size(e, padding);
    lemma_dilated_at(e.texture, e.mip, padding as int, ps.0 as nat, ps.1 as nat, dx, dy);
}

/// Level 0 of an atlas shows each entry inside its texcoord, whatever the layout:
/// at offset (dx, dy) from the texcoord's corner it holds the entry's pixel at that
/// offset under its wrap mode. Padding and mip chains never reach that region.
pub proof fn lemma_level0_shows_entry(
    max_page_count: u32,
    size: u32,
    mip: AtlasMipOption,
    entries: Seq<AtlasEntry>,
    r: Result<Atlas, AtlasError>,
    i: int,
    dx: int,
    dy: int,
)
    requires
        entries_ok(entries),
        entries_fit(entries, margin_of(mip)),
        atlas_result(max_page_count, size, mip, entries, r),
        r is Ok,
        0 <= i < entries.len(),
        0 <= dx < entries[i].texture.width,
        0 <= dy < entries[i].texture.height,
    ensures
        level0_pixel(
            r->Ok_0,
            r->Ok_0.texcoords@[i].page as int,
            r->Ok_0.texcoords@[i].min_x + dx,
            r->Ok_0.texcoords@[i].min_y + dy,
        ) == live_pixel(entries[i], dx, dy),
{
    if mip is MipWithBlock {
        lemma_block_level0_shows_entry(max_page_count, size, mip, entries, r, i, dx, dy);
    } else {
        lemma_padded_level0_shows_entry(max_page_count, size, mip, entries, r, i, dx, dy);
    }
}

/// Level 0 inside an entry's texcoord is the same whichever two layouts build the
/// atlas from the same entries.
pub proof fn lemma_level0_same_across_layouts(
    max_page_count: u32,
    size: u32,
    mip1: AtlasMipOption,
    mip2: AtlasMipOption,
    entries: Seq<AtlasEntry>,
    r1: Result<Atlas, AtlasError>,
    r2: Result<Atlas, AtlasError>,
    i: int,
    dx: int,
    dy: int,
)
    requires
        entries_ok(entries),
        entries_fit(entries, margin_of(mip1)),
        entries_fit(entries, margin_of(mip2)),
        atlas_result(max_page_count, size, mip1, entries, r1),
        atlas_result(max_page_count, size, mip2, entries, r2),
        r1 is Ok,
        r2 is Ok,
        0 <= i < entries.len(),
        0 <= dx < entries[i].texture.width,
        0 <= dy < entries[i].texture.height,
    ensures
        level0_pixel(
            r1->Ok_0,
            r1->Ok_0.texcoords@[i].page as int,
            r1->Ok_0.texcoords@[i].min_x + dx,
            r1->Ok_0.texcoords@[i].min_y + dy,
        ) == level0_pixel(
            r2->Ok_0,
            r2->Ok_0.texcoords@[i].page as int,
            r2->Ok_0.texcoords@[i].min_x + dx,
            r2->Ok_0.texcoords@[i].min_y + dy,
        ),
{
    lemma_level0_shows_entry(max_page_count, size, mip1, entries, r1, i, dx, dy);
    lemma_level0_shows_entry(max_page_count, size, mip2, entries, r2, i, dx, dy);
}

/// Two atlases are equal in every count, texcoord and pixel.
pub open spec fn same_atlas(a: Atlas, b: Atlas) -> bool {
    &&& a.page_count == b.page_count
    &&& a.size == b.size
    &&& a.mip_level_count == b.mip_level_count
    &&& a.texcoords@ == b.texcoords@
    &&& a.textures@.len() == b.textures@.len()
    &&& forall|p: int|
        0 <= p < a.textures@.len() ==> {
            &&& (#[trigger] a.textures@[p]).size == b.textures@[p].size
            &&& a.textures@[p].mip_level_count == b.textures@[p].mip_level_count
            &&& a.textures@[p].mip_maps@.len() == b.textures@[p].mip_maps@.len()
        }
    &&& forall|p: int, l: int|
        0 <= p < a.textures@.len() && 0 <= l < a.textures@[p].mip_maps@.len() ==> {
            &&& (#[trigger] a.textures@[p].mip_maps@[l]).width == b.textures@[p].mip_maps@[l].width
            &&& a.textures@[p].mip_maps@[l].height == b.textures@[p].mip_maps@[l].height
            &&& a.textures@[p].mip_maps@[l].pixels@ == b.textures@[p].mip_maps@[l].pixels@
        }
}

/// Two errors are the same failure: equal, or both the packer's.
pub open spec fn same_error(a: AtlasError, b: AtlasError) -> bool {
    a == b || (a is Packing && b is Packing)
}

/// Building an atlas twice from the same request gives the same outcome: the same
/// failure, or atlases equal in every count, texcoord and pixel.
pub proof fn lemma_create_atlas_deterministic(
    max_page_count: u32,
    size: u32,
    mip: AtlasMipOption,
    entries: Seq<AtlasEntry>,
    r1: Result<Atlas, AtlasError>,
    r2: Result<Atlas, AtlasError>,
)
    requires
        atlas_result(max_page_count, size, mip, entries, r1),
        atlas_result(max_page_count, size, mip, entries, r2),
    ensures
        r1 is Ok <==> r2 is Ok,
        r1 is Ok ==> same_atlas(r1->Ok_0, r2->Ok_0),
        r1 is Err ==> same_error(r1->Err_0, r2->Err_0),
{
    if r1 is Ok {
        let a = r1->Ok_0;
        let b = r2->Ok_0;
        lemma_mip_level_count(max_page_count, size, mip, entries, r1);
        lemma_mip_level_count(max_page_count, size, mip, entries, r2);
        assert forall|p: int, l: int|
            0 <= p < a.textures@.len() && 0 <= l < a.textures@[p].mip_maps@.len() implies {
            &&& (#[trigger] a.textures@[p].mip_maps@[l]).width == b.textures@[p].mip_maps@[l].width
            &&& a.textures@[p].mip_maps@[l].height == b.textures@[p].mip_maps@[l].height
            &&& a.textures@[p].mip_maps@[l].pixels@ == b.textures@[p].mip_maps@[l].pixels@
        } by {
            assert(texture_shaped(a.textures@[p], size, mip_level_count_of(mip, size)));
            assert(texture_shaped(b.textures@[p], size, mip_level_count_of(mip, size)));
        }
    }
}

} // verus!
