//! Wrap-mode dilation: extending an image beyond its edges.

use vstd::prelude::*;
use vstd::arithmetic::div_mod::{lemma_fundamental_div_mod, lemma_fundamental_div_mod_converse};

use crate::buffer::{lemma_grid_bound, lemma_grid_index, RgbImage};
use crate::options::AtlasEntryMipOption;

verus! {

/// The source coordinate, along an axis of length `dim`, that is sampled at offset
/// `t` from the source's origin (`t` may fall outside `[0, dim)`).
///
/// Mirror: with `tile = t / dim` and `base = t % dim` (Euclidean), an even tile is
/// reflected (`dim - 1 - base`) and an odd one is not.
pub open spec fn wrap_coord(mode: AtlasEntryMipOption, t: int, dim: int) -> int {
    match mode {
        AtlasEntryMipOption::Clamp => if t < 0 {
            0
        } else if t >= dim {
            dim - 1
        } else {
            t
        },
        AtlasEntryMipOption::Repeat => t % dim,
        AtlasEntryMipOption::Mirror => if (t / dim) % 2 == 0 {
            dim - 1 - t % dim
        } else {
            t % dim
        },
    }
}

/// The pixel at (x, y) of `src` extended by `mode`, with the source's origin at (mx, my).
pub open spec fn dilated_pixel(
    src: RgbImage,
    mode: AtlasEntryMipOption,
    mx: int,
    my: int,
    x: int,
    y: int,
) -> [u8; 3] {
    src.pixel(wrap_coord(mode, x - mx, src.width as int), wrap_coord(mode, y - my, src.height as int))
}

/// The pixels, row by row, of the `w`×`h` window of `src` extended by `mode`,
/// with the source's origin at (mx, my) of the window.
pub open spec fn dilated(
    src: RgbImage,
    mode: AtlasEntryMipOption,
    mx: int,
    my: int,
    w: nat,
    h: nat,
) -> Seq<[u8; 3]> {
    Seq::new(w * h, |k: int| dilated_pixel(src, mode, mx, my, k % (w as int), k / (w as int)))
}

/// The source coordinate sampled at output coordinate `c` when the source starts at `margin`.
pub fn source_coord(mode: AtlasEntryMipOption, c: u32, margin: u32, dim: u32) -> (r: u32)
    requires
        dim > 0,
    ensures
        r == wrap_coord(mode, c - margin, dim as int),
        r < dim,
{
    proof {
        lemma_fundamental_div_mod(c - margin, dim as int);
    }
    if c >= margin {
        let t = c - margin;
        match mode {
            AtlasEntryMipOption::Clamp => if t >= dim {
                dim - 1
            } else {
                t
            },
            AtlasEntryMipOption::Repeat => t % dim,
            AtlasEntryMipOption::Mirror => {
                let base = t % dim;
                if (t / dim) % 2 == 0 {
                    dim - 1 - base
                } else {
                    base
                }
            },
        }
    } else {
        let n = margin - c;
        let q = n / dim;
        let m = n % dim;
        proof {
            lemma_fundamental_div_mod(n as int, dim as int);
            assert((-q) * dim == -(q * dim)) by (nonlinear_arith);
            assert((-q - 1) * dim == -(q * dim) - dim) by (nonlinear_arith);
            let t = c - margin;
            assert(n == dim * q + m);
            if m == 0 {
                assert(t == (-q) * dim + 0) by (nonlinear_arith)
                    requires
                        t == -(n as int),
                        n == dim * q + m,
                        m == 0,
                ;
                lemma_fundamental_div_mod_converse(t, dim as int, -q, 0);
            } else {
                assert(t == (-q - 1) * dim + (dim - m)) by (nonlinear_arith)
                    requires
                        t == -(n as int),
                        n == dim * q + m,
                ;
                lemma_fundamental_div_mod_converse(t, dim as int, -q - 1, dim - m);
            }
        }
        match mode {
            AtlasEntryMipOption::Clamp => 0,
            AtlasEntryMipOption::Repeat => if m == 0 {
                0
            } else {
                dim - m
            },
            AtlasEntryMipOption::Mirror => if m == 0 {
                if q % 2 == 0 {
                    dim - 1
                } else {
                    0
                }
            } else if q % 2 == 1 {
                m - 1
            } else {
                dim - m
            },
        }
    }
}

/// The source coordinate for each output coordinate `0..len` along one axis.
fn axis_coords(mode: AtlasEntryMipOption, margin: u32, len: u32, dim: u32) -> (r: Vec<u32>)
    requires
        dim > 0,
    ensures
        r@.len() == len,
        forall|i: int|
            0 <= i < len ==> #[trigger] r@[i] == wrap_coord(mode, i - margin, dim as int) && r@[i]
                < dim,
{
    let mut r: Vec<u32> = Vec::new();
    let mut i: u32 = 0;
    while i < len
        invariant
            dim > 0,
            i <= len,
            r@.len() == i,
            forall|j: int|
                0 <= j < i ==> #[trigger] r@[j] == wrap_coord(mode, j - margin, dim as int) && r@[j]
                    < dim,
        decreases len - i,
    {
        r.push(source_coord(mode, i, margin, dim));
        i = i + 1;
    }
    r
}

/// A `width`×`height` image holding `src` with its origin at (shift_x, shift_y),
/// every other pixel filled according to `mode`.
pub fn resample(
    src: &RgbImage,
    mode: AtlasEntryMipOption,
    shift_x: u32,
    shift_y: u32,
    width: u32,
    height: u32,
) -> (r: RgbImage)
    requires
        src.wf(),
        src.width > 0,
        src.height > 0,
        width * height <= usize::MAX,
    ensures
        r.wf(),
        r.width == width,
        r.height == height,
        r.pixels@ == dilated(*src, mode, shift_x as int, shift_y as int, width as nat, height as nat),
{
    let sw = src.width;
    let sh = src.height;
    // the source's length bounds the index arithmetic in the loops
    let src_total = src.pixels.len();
    let xs = axis_coords(mode, shift_x, width, sw);
    let ys = axis_coords(mode, shift_y, height, sh);
    let ghost w = width as int;
    let mut pixels: Vec<[u8; 3]> = Vec::with_capacity(width as usize * height as usize);
    let mut y: u32 = 0;
    while y < height
        invariant
            src.wf(),
            src.width == sw,
            src.height == sh,
            src_total == sw * sh,
            y <= height,
            w == width,
            xs@.len() == width,
            ys@.len() == height,
            forall|i: int| 0 <= i < width ==> #[trigger] xs@[i] == wrap_coord(mode, i - shift_x, sw as int) && xs@[i] < sw,
            forall|i: int| 0 <= i < height ==> #[trigger] ys@[i] == wrap_coord(mode, i - shift_y, sh as int) && ys@[i] < sh,
            pixels@.len() == y * w,
            forall|k: int|
                0 <= k < pixels@.len() ==> #[trigger] pixels@[k] == dilated_pixel(
                    *src,
                    mode,
                    shift_x as int,
                    shift_y as int,
                    k % w,
                    k / w,
                ),
        decreases height - y,
    {
        let mut x: u32 = 0;
        while x < width
            invariant
                src.wf(),
                src.width == sw,
                src.height == sh,
                src_total == sw * sh,
                y < height,
                x <= width,
                w == width,
                xs@.len() == width,
                ys@.len() == height,
                forall|i: int| 0 <= i < width ==> #[trigger] xs@[i] == wrap_coord(mode, i - shift_x, sw as int) && xs@[i] < sw,
                forall|i: int| 0 <= i < height ==> #[trigger] ys@[i] == wrap_coord(mode, i - shift_y, sh as int) && ys@[i] < sh,
                pixels@.len() == y * w + x,
                forall|k: int|
                    0 <= k < pixels@.len() ==> #[trigger] pixels@[k] == dilated_pixel(
                        *src,
                        mode,
                        shift_x as int,
                        shift_y as int,
                        k % w,
                        k / w,
                    ),
            decreases width - x,
        {
            let sx = xs[x as usize];
            let sy = ys[y as usize];
            proof {
                lemma_grid_bound(sx as int, sy as int, sw as int, sh as int);
                lemma_grid_index(x as int, y as int, w);
            }
            let si: usize = sy as usize * sw as usize + sx as usize;
            pixels.push(src.pixels[si]);
            x = x + 1;
        }
        proof {
            assert((y + 1) * w == y * w + w) by (nonlinear_arith);
        }
        y = y + 1;
    }
    assert(height * w == width * height) by (nonlinear_arith)
        requires
            w == width,
    ;
    let r = RgbImage { width, height, pixels };
    assert(r.pixels@ =~= dilated(*src, mode, shift_x as int, shift_y as int, width as nat, height as nat));
    r
}

/// Pixel (x, y) of a dilated window is the source extended by the wrap mode there.
pub proof fn lemma_dilated_pixel_at(
    src: RgbImage,
    mode: AtlasEntryMipOption,
    mx: int,
    my: int,
    w: nat,
    h: nat,
    x: int,
    y: int,
)
    requires
        0 <= x < w,
        0 <= y < h,
    ensures
        dilated(src, mode, mx, my, w, h)[y * w + x] == dilated_pixel(src, mode, mx, my, x, y),
{
    lemma_grid_bound(x, y, w as int, h as int);
    lemma_grid_index(x, y, w as int);
}

/// With `Repeat`, the window's pixel at (x, y) is the source's pixel at
/// ((x - mx) mod width, (y - my) mod height), the modulo never negative.
pub proof fn lemma_repeat_wrap(src: RgbImage, mx: int, my: int, w: nat, h: nat, x: int, y: int)
    requires
        0 <= x < w,
        0 <= y < h,
        src.width > 0,
        src.height > 0,
    ensures
        dilated(src, AtlasEntryMipOption::Repeat, mx, my, w, h)[y * w + x] == src.pixel(
            (x - mx) % (src.width as int),
            (y - my) % (src.height as int),
        ),
        0 <= (x - mx) % (src.width as int) < src.width,
        0 <= (y - my) % (src.height as int) < src.height,
{
    lemma_dilated_pixel_at(src, AtlasEntryMipOption::Repeat, mx, my, w, h, x, y);
    lemma_fundamental_div_mod(x - mx, src.width as int);
    lemma_fundamental_div_mod(y - my, src.height as int);
}

/// With `Mirror`, offset `t` from the source's origin reads, in the tile before the
/// source (tile -1), `t + dim`; in the source's own tile (tile 0), the reflection
/// `dim - 1 - t`; in the tile after it (tile 1), `t - dim`.
pub proof fn lemma_mirror_tiles(t: int, dim: int)
    requires
        dim > 0,
    ensures
        -dim <= t < 0 ==> wrap_coord(AtlasEntryMipOption::Mirror, t, dim) == t + dim,
        0 <= t < dim ==> wrap_coord(AtlasEntryMipOption::Mirror, t, dim) == dim - 1 - t,
        dim <= t < 2 * dim ==> wrap_coord(AtlasEntryMipOption::Mirror, t, dim) == t - dim,
{
    if -dim <= t < 0 {
        lemma_fundamental_div_mod_converse(t, dim, -1, t + dim);
    } else if 0 <= t < dim {
        lemma_fundamental_div_mod_converse(t, dim, 0, t);
    } else if dim <= t < 2 * dim {
        lemma_fundamental_div_mod_converse(t, dim, 1, t - dim);
    }
}

/// With `Mirror`, the window's pixel at (x, y) is the source's pixel at the mirrored
/// coordinates: tiles of even index reflected, odd ones as they are.
pub proof fn lemma_mirror_wrap(src: RgbImage, mx: int, my: int, w: nat, h: nat, x: int, y: int)
    requires
        0 <= x < w,
        0 <= y < h,
        src.width > 0,
        src.height > 0,
    ensures
        dilated(src, AtlasEntryMipOption::Mirror, mx, my, w, h)[y * w + x] == src.pixel(
            wrap_coord(AtlasEntryMipOption::Mirror, x - mx, src.width as int),
            wrap_coord(AtlasEntryMipOption::Mirror, y - my, src.height as int),
        ),
        0 <= wrap_coord(AtlasEntryMipOption::Mirror, x - mx, src.width as int) < src.width,
        0 <= wrap_coord(AtlasEntryMipOption::Mirror, y - my, src.height as int) < src.height,
{
    lemma_dilated_pixel_at(src, AtlasEntryMipOption::Mirror, mx, my, w, h, x, y);
    lemma_fundamental_div_mod(x - mx, src.width as int);
    lemma_fundamental_div_mod(y - my, src.height as int);
}

} // verus!
