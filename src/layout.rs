//! Compositing rectangles of pixels onto pages, and the pages they describe.

use vstd::prelude::*;

use crate::buffer::{blit, blit_pixel, in_rect, lemma_grid_index, lemma_grid_split, RgbImage};

verus! {

/// A rectangle of pixels written onto one page of one mip level.
pub struct Layer {
    pub page: int,
    pub x: int,
    pub y: int,
    pub width: int,
    pub height: int,
    pub pixels: Seq<[u8; 3]>,
}

/// The pixel at (x, y) of `page` once every layer has been written in order over a
/// black page: the last layer on that page covering (x, y) wins.
pub open spec fn layer_pixel(layers: Seq<Layer>, page: int, x: int, y: int) -> [u8; 3]
    decreases layers.len(),
{
    if layers.len() == 0 {
        [0u8, 0u8, 0u8]
    } else {
        let l = layers.last();
        if l.page == page && in_rect(x, y, l.x, l.y, l.width, l.height) {
            l.pixels[(y - l.y) * l.width + (x - l.x)]
        } else {
            layer_pixel(layers.drop_last(), page, x, y)
        }
    }
}

/// The pixels, row by row, of the `size`×`size` page `page` once `layers` are written.
pub open spec fn composed(layers: Seq<Layer>, page: int, size: int) -> Seq<[u8; 3]> {
    Seq::new(
        (size * size) as nat,
        |k: int| layer_pixel(layers, page, k % size, k / size),
    )
}

/// Writing a layer that lies on another page leaves a page as it was.
pub proof fn lemma_compose_other_page(layers: Seq<Layer>, i: int, page: int, size: int)
    requires
        0 <= i < layers.len(),
        layers[i].page != page,
    ensures
        composed(layers.take(i + 1), page, size) == composed(layers.take(i), page, size),
{
    assert(layers.take(i + 1).drop_last() =~= layers.take(i));
    assert(composed(layers.take(i + 1), page, size) =~= composed(layers.take(i), page, size));
}

/// Copying the pixels of layer `i` onto its page, at its corner, gives the page
/// with that layer written.
pub proof fn lemma_compose_blit(
    layers: Seq<Layer>,
    i: int,
    before: RgbImage,
    src: RgbImage,
    after: RgbImage,
)
    requires
        0 <= i < layers.len(),
        before.wf(),
        src.wf(),
        before.width == before.height,
        before.pixels@ == composed(layers.take(i), layers[i].page, before.width as int),
        src.pixels@ == layers[i].pixels,
        src.width == layers[i].width,
        src.height == layers[i].height,
        layers[i].x + src.width <= before.width,
        layers[i].y + src.height <= before.height,
        after.pixels@.len() == before.pixels@.len(),
        forall|k: int|
            0 <= k < after.pixels@.len() ==> #[trigger] after.pixels@[k] == blit_pixel(
                before,
                src,
                layers[i].x,
                layers[i].y,
                k,
            ),
    ensures
        after.pixels@ == composed(layers.take(i + 1), layers[i].page, before.width as int),
{
    let s = before.width as int;
    let l = layers[i];
    assert(layers.take(i + 1).drop_last() =~= layers.take(i));
    assert(layers.take(i + 1).last() == l);
    assert forall|k: int| 0 <= k < after.pixels@.len() implies #[trigger] after.pixels@[k]
        == composed(layers.take(i + 1), l.page, s)[k] by {
        lemma_grid_split(k, s, s);
        let px = k % s;
        let py = k / s;
        if in_rect(px, py, l.x, l.y, l.width, l.height) {
            assert(src.pixel(px - l.x, py - l.y) == l.pixels[(py - l.y) * l.width + (px - l.x)]);
        }
    }
    assert(after.pixels@ =~= composed(layers.take(i + 1), l.page, s));
}

/// Writes `src` as layer `i` onto `target`, which holds the page of that layer with
/// the layers before it written.
pub(crate) fn write_layer(
    target: &mut RgbImage,
    src: &RgbImage,
    x: u32,
    y: u32,
    Ghost(layers): Ghost<Seq<Layer>>,
    Ghost(i): Ghost<int>,
)
    requires
        0 <= i < layers.len(),
        old(target).wf(),
        src.wf(),
        old(target).width == old(target).height,
        old(target).pixels@ == composed(
            layers.take(i),
            layers[i].page,
            old(target).width as int,
        ),
        src.pixels@ == layers[i].pixels,
        src.width == layers[i].width,
        src.height == layers[i].height,
        x == layers[i].x,
        y == layers[i].y,
        x + src.width <= old(target).width,
        y + src.height <= old(target).height,
    ensures
        final(target).wf(),
        final(target).width == old(target).width,
        final(target).height == old(target).height,
        final(target).pixels@ == composed(
            layers.take(i + 1),
            layers[i].page,
            old(target).width as int,
        ),
{
    let ghost before = *target;
    blit(target, src, x, y);
    proof {
        lemma_compose_blit(layers, i, before, *src, *target);
    }
}

/// Where only layer `i` of those on `page` covers (x, y), that page shows layer `i` there.
pub proof fn lemma_layer_pixel_topmost(layers: Seq<Layer>, i: int, page: int, x: int, y: int)
    requires
        0 <= i < layers.len(),
        layers[i].page == page,
        in_rect(x, y, layers[i].x, layers[i].y, layers[i].width, layers[i].height),
        forall|j: int|
            0 <= j < layers.len() && j != i && (#[trigger] layers[j]).page == page ==> !in_rect(
                x,
                y,
                layers[j].x,
                layers[j].y,
                layers[j].width,
                layers[j].height,
            ),
    ensures
        layer_pixel(layers, page, x, y) == layers[i].pixels[(y - layers[i].y) * layers[i].width + (x
            - layers[i].x)],
    decreases layers.len(),
{
    if i < layers.len() - 1 {
        let rest = layers.drop_last();
        assert(layers[layers.len() - 1] == layers.last());
        assert forall|j: int|
            0 <= j < rest.len() && j != i && (#[trigger] rest[j]).page == page implies !in_rect(
            x,
            y,
            rest[j].x,
            rest[j].y,
            rest[j].width,
            rest[j].height,
        ) by {
            assert(rest[j] == layers[j]);
        }
        lemma_layer_pixel_topmost(rest, i, page, x, y);
    }
}

/// A page image holding the composed layers shows, at (x, y), the one layer that covers it.
pub proof fn lemma_page_shows_layer(
    layers: Seq<Layer>,
    i: int,
    page: int,
    img: RgbImage,
    x: int,
    y: int,
)
    requires
        img.wf(),
        img.pixels@ == composed(layers, page, img.width as int),
        0 <= x < img.width,
        0 <= y < img.height,
        0 <= i < layers.len(),
        layers[i].page == page,
        in_rect(x, y, layers[i].x, layers[i].y, layers[i].width, layers[i].height),
        forall|j: int|
            0 <= j < layers.len() && j != i && (#[trigger] layers[j]).page == page ==> !in_rect(
                x,
                y,
                layers[j].x,
                layers[j].y,
                layers[j].width,
                layers[j].height,
            ),
    ensures
        img.pixel(x, y) == layers[i].pixels[(y - layers[i].y) * layers[i].width + (x - layers[i].x)],
{
    let s = img.width as int;
    crate::buffer::lemma_grid_bound(x, y, s, img.height as int);
    lemma_grid_index(x, y, s);
    lemma_layer_pixel_topmost(layers, i, page, x, y);
}

} // verus!
