//! RGB pixel buffers.

use vstd::prelude::*;
use vstd::arithmetic::div_mod::{lemma_fundamental_div_mod, lemma_fundamental_div_mod_converse};

verus! {

/// An RGB image with 8 bits per channel, stored row by row.
#[derive(Clone, Debug, Default, PartialEq, Eq)]
pub struct RgbImage {
    pub width: u32,
    pub height: u32,
    pub pixels: Vec<[u8; 3]>,
}

impl RgbImage {
    /// The buffer holds exactly one pixel per position.
    pub open spec fn wf(&self) -> bool {
        self.pixels@.len() == self.width * self.height
    }

    /// The pixel at column `x`, row `y`.
    pub open spec fn pixel(&self, x: int, y: int) -> [u8; 3] {
        self.pixels@[y * self.width + x]
    }

    /// An image of the given size over `pixels`, row by row; `None` unless there is
    /// exactly one pixel per position.
    pub fn from_raw(width: u32, height: u32, pixels: Vec<[u8; 3]>) -> (r: Option<RgbImage>)
        ensures
            r is Some <==> pixels@.len() == width * height,
            r is Some ==> r->Some_0 == (RgbImage { width, height, pixels }),
    {
        assert(width * height <= 0xffff_ffff * 0xffff_ffffint) by (nonlinear_arith)
            requires
                width <= 0xffff_ffff,
                height <= 0xffff_ffff,
        ;
        if width as u64 * height as u64 == pixels.len() as u64 {
            Some(RgbImage { width, height, pixels })
        } else {
            None
        }
    }

    /// The pixel at column `x`, row `y`.
    pub fn get_pixel(&self, x: u32, y: u32) -> (r: [u8; 3])
        requires
            self.wf(),
            x < self.width,
            y < self.height,
        ensures
            r == self.pixel(x as int, y as int),
    {
        proof {
            lemma_grid_bound(x as int, y as int, self.width as int, self.height as int);
        }
        // the buffer's length bounds the index arithmetic below
        let total = self.pixels.len();
        assert(y * self.width + x < total);
        self.pixels[y as usize * self.width as usize + x as usize]
    }

    /// A black image of the given size.
    pub fn new(width: u32, height: u32) -> (r: RgbImage)
        requires
            width * height <= usize::MAX,
        ensures
            r.wf(),
            r.width == width,
            r.height == height,
            forall|k: int| 0 <= k < r.pixels@.len() ==> r.pixels@[k] == [0u8, 0u8, 0u8],
    {
        Self::from_pixel(width, height, [0u8, 0u8, 0u8])
    }

    /// An image of the given size with every pixel set to `pixel`.
    pub fn from_pixel(width: u32, height: u32, pixel: [u8; 3]) -> (r: RgbImage)
        requires
            width * height <= usize::MAX,
        ensures
            r.wf(),
            r.width == width,
            r.height == height,
            forall|k: int| 0 <= k < r.pixels@.len() ==> r.pixels@[k] == pixel,
    {
        let n: usize = width as usize * height as usize;
        let mut pixels: Vec<[u8; 3]> = Vec::with_capacity(n);
        while pixels.len() < n
            invariant
                pixels@.len() <= n,
                forall|k: int| 0 <= k < pixels@.len() ==> pixels@[k] == pixel,
            decreases n - pixels@.len(),
        {
            pixels.push(pixel);
        }
        RgbImage { width, height, pixels }
    }
}

/// The position in a row-major buffer of width `w` that holds column `x`, row `y`.
pub proof fn lemma_grid_index(x: int, y: int, w: int)
    requires
        0 <= x < w,
        0 <= y,
    ensures
        (y * w + x) % w == x,
        (y * w + x) / w == y,
{
    lemma_fundamental_div_mod_converse(y * w + x, w, y, x);
}

/// A position inside a `w`×`h` grid has its index inside the buffer.
pub proof fn lemma_grid_bound(x: int, y: int, w: int, h: int)
    requires
        0 <= x < w,
        0 <= y < h,
    ensures
        0 <= y * w + x < w * h,
{
    assert(0 <= y * w + x < w * h) by (nonlinear_arith)
        requires
            0 <= x < w,
            0 <= y < h,
    ;
}

/// Every index of a buffer of width `w` is its row times `w` plus its column.
pub proof fn lemma_grid_split(k: int, w: int, h: int)
    requires
        0 <= k < w * h,
        0 < w,
    ensures
        k == (k / w) * w + k % w,
        0 <= k % w < w,
        0 <= k / w < h,
{
    lemma_fundamental_div_mod(k, w);
    assert((k / w) * w == w * (k / w)) by (nonlinear_arith);
    assert(0 <= k / w < h) by (nonlinear_arith)
        requires
            0 <= k < w * h,
            0 < w,
            k == w * (k / w) + k % w,
            0 <= k % w < w,
    ;
}

/// Whether (x, y) lies in the `w`×`h` rectangle whose top-left corner is (rx, ry).
pub open spec fn in_rect(x: int, y: int, rx: int, ry: int, w: int, h: int) -> bool {
    rx <= x < rx + w && ry <= y < ry + h
}

/// The pixel at index `k` of `target` once `src` has been copied over it at (x, y).
pub open spec fn blit_pixel(target: RgbImage, src: RgbImage, x: int, y: int, k: int) -> [u8; 3] {
    let px = k % (target.width as int);
    let py = k / (target.width as int);
    if in_rect(px, py, x, y, src.width as int, src.height as int) {
        src.pixel(px - x, py - y)
    } else {
        target.pixels@[k]
    }
}

/// Copies `src` over `target` with its top-left corner at (x, y): no blending,
/// every other pixel of `target` is left as it was.
pub fn blit(target: &mut RgbImage, src: &RgbImage, x: u32, y: u32)
    requires
        old(target).wf(),
        src.wf(),
        x + src.width <= old(target).width,
        y + src.height <= old(target).height,
    ensures
        final(target).width == old(target).width,
        final(target).height == old(target).height,
        final(target).wf(),
        forall|k: int|
            0 <= k < final(target).pixels@.len() ==> #[trigger] final(target).pixels@[k]
                == blit_pixel(*old(target), *src, x as int, y as int, k),
{
    let ghost before = *target;
    let tw = target.width;
    let th = target.height;
    let sw = src.width;
    let sh = src.height;
    // the buffers' lengths bound the index arithmetic in the loops
    let total = target.pixels.len();
    let src_total = src.pixels.len();
    let mut r: u32 = 0;
    while r < sh
        invariant
            target.width == tw,
            target.height == th,
            before.width == tw,
            before.height == th,
            before.wf(),
            target.wf(),
            total == tw * th,
            src_total == sw * sh,
            src.wf(),
            src.width == sw,
            src.height == sh,
            x + sw <= tw,
            y + sh <= th,
            r <= sh,
            forall|k: int|
                0 <= k < target.pixels@.len() ==> #[trigger] target.pixels@[k] == if in_rect(
                    k % (tw as int),
                    k / (tw as int),
                    x as int,
                    y as int,
                    sw as int,
                    r as int,
                ) {
                    src.pixel(k % (tw as int) - x, k / (tw as int) - y)
                } else {
                    before.pixels@[k]
                },
        decreases sh - r,
    {
        let mut c: u32 = 0;
        while c < sw
            invariant
                target.width == tw,
                target.height == th,
                before.width == tw,
                before.height == th,
                before.wf(),
                target.wf(),
                total == tw * th,
            src_total == sw * sh,
                src.wf(),
                src.width == sw,
                src.height == sh,
                x + sw <= tw,
                y + sh <= th,
                r < sh,
                c <= sw,
                forall|k: int|
                    0 <= k < target.pixels@.len() ==> #[trigger] target.pixels@[k] == if in_rect(
                        k % (tw as int),
                        k / (tw as int),
                        x as int,
                        y as int,
                        sw as int,
                        r as int,
                    ) || in_rect(
                        k % (tw as int),
                        k / (tw as int),
                        x as int,
                        y + r,
                        c as int,
                        1,
                    ) {
                        src.pixel(k % (tw as int) - x, k / (tw as int) - y)
                    } else {
                        before.pixels@[k]
                    },
            decreases sw - c,
        {
            proof {
                lemma_grid_bound((x + c) as int, (y + r) as int, tw as int, th as int);
                lemma_grid_bound(c as int, r as int, sw as int, sh as int);
                lemma_grid_index((x + c) as int, (y + r) as int, tw as int);
            }
            let ti: usize = (y + r) as usize * tw as usize + (x + c) as usize;
            let si: usize = r as usize * sw as usize + c as usize;
            let p = src.pixels[si];
            let ghost prev = target.pixels@;
            target.pixels[ti] = p;
            proof {
                assert forall|k: int| 0 <= k < target.pixels@.len() implies #[trigger] target.pixels@[k]
                    == if in_rect(
                    k % (tw as int),
                    k / (tw as int),
                    x as int,
                    y as int,
                    sw as int,
                    r as int,
                ) || in_rect(k % (tw as int), k / (tw as int), x as int, y + r, c + 1, 1) {
                    src.pixel(k % (tw as int) - x, k / (tw as int) - y)
                } else {
                    before.pixels@[k]
                } by {
                    lemma_grid_split(k, tw as int, th as int);
                    if k != ti {
                        assert(prev[k] == target.pixels@[k]);
                        if k % (tw as int) == x + c && k / (tw as int) == y + r {
                            assert(k == ti);
                        }
                    }
                }
            }
            c = c + 1;
        }
        proof {
            assert forall|k: int| 0 <= k < target.pixels@.len() implies #[trigger] target.pixels@[k]
                == if in_rect(
                k % (tw as int),
                k / (tw as int),
                x as int,
                y as int,
                sw as int,
                r + 1,
            ) {
                src.pixel(k % (tw as int) - x, k / (tw as int) - y)
            } else {
                before.pixels@[k]
            } by {
                lemma_grid_split(k, tw as int, th as int);
            }
        }
        r = r + 1;
    }
}

} // verus!
