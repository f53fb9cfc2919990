//! The options that shape an atlas: mip filter, layout policy and wrap mode.

use vstd::prelude::*;

verus! {

/// The resampling filter used to build mip levels.
#[derive(Clone, Copy, PartialEq, Eq, Structural, Hash, Default, Debug)]
pub enum AtlasMipFilter {
    #[default]
    Nearest,
    Linear,
    Cubic,
    Gaussian,
    Lanczos3,
}

/// How entries are laid out on the pages, and whether mip levels are built.
///
/// - `NoMip`: no padding, one level.
/// - `NoMipWithPadding(padding)`: `padding` pixels around each entry, one level.
/// - `Mip(filter)`: no padding, a full mip chain built from each whole page.
/// - `MipWithPadding(filter, padding)`: padding, and a full chain built from each whole page.
/// - `MipWithBlock(filter, block_size)`: entries placed on a grid of `block_size` cells
///   with half a block of padding; each entry's chain is built from the entry alone.
#[derive(Clone, Copy, PartialEq, Eq, Structural, Hash, Default, Debug)]
pub enum AtlasMipOption {
    #[default]
    NoMip,
    NoMipWithPadding(u32),
    Mip(AtlasMipFilter),
    MipWithPadding(AtlasMipFilter, u32),
    MipWithBlock(AtlasMipFilter, u32),
}

/// How an entry's edge pixels extend into its padding.
///
/// - `Clamp`: the nearest edge pixel is repeated.
/// - `Repeat`: the entry tiles.
/// - `Mirror`: the entry tiles, every other tile reflected.
#[derive(Clone, Copy, PartialEq, Eq, Structural, Hash, Default, Debug)]
pub enum AtlasEntryMipOption {
    #[default]
    Clamp,
    Repeat,
    Mirror,
}

/// Where an entry lives in the atlas: a page and a rectangle on it, in pixels of
/// level 0, with `size` the edge length of the page.
#[derive(Clone, Copy, PartialEq, Eq, Structural, Default, Debug)]
pub struct Texcoord {
    pub page: u32,
    pub min_x: u32,
    pub min_y: u32,
    pub max_x: u32,
    pub max_y: u32,
    pub size: u32,
}

} // verus!
