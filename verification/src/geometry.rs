//! Geometry primitives: pixel dimensions, page orientation, the scaling
//! helpers of the two-image fast path, and the orientation-transform table.

use vstd::prelude::*;

verus! {

/// A width/height pair in pixels, used for both the canvas and node rectangles.
#[derive(Debug, Copy, Clone, PartialEq, Eq, Structural)]
pub struct Dimensions {
    pub width: u32,
    pub height: u32,
}

impl Dimensions {
    pub fn from_tuple(tuple: (u32, u32)) -> (r: Dimensions)
        ensures
            r.width == tuple.0,
            r.height == tuple.1,
    {
        Dimensions { width: tuple.0, height: tuple.1 }
    }

    pub fn to_tuple(self) -> (r: (u32, u32))
        ensures
            r.0 == self.width,
            r.1 == self.height,
    {
        (self.width, self.height)
    }

    /// The rectangle's area in pixels.
    pub fn size(&self) -> (r: u32)
        requires
            self.width * self.height <= u32::MAX,
        ensures
            r == self.width * self.height,
    {
        self.width * self.height
    }
}

} // verus!

verus! {

/// Whether a rectangle is wider than tall, taller than wide, or square.
#[derive(Debug, PartialEq, Eq, Structural, Clone, Copy)]
pub enum PageOrientation {
    Landscape,
    Portrait,
    Square,
}

/// Anything that can report the orientation of its pixel rectangle.
pub trait ImageForProcessing {
    fn page_orientation(&self) -> PageOrientation;
}

/// The orientation of a width/height pair.
pub fn page_orientation_of(width: u32, height: u32) -> (r: PageOrientation)
    ensures
        r == PageOrientation::Landscape <==> width > height,
        r == PageOrientation::Portrait <==> width < height,
        r == PageOrientation::Square <==> width == height,
{
    if width > height {
        PageOrientation::Landscape
    } else if width < height {
        PageOrientation::Portrait
    } else {
        PageOrientation::Square
    }
}

impl ImageForProcessing for Dimensions {
    fn page_orientation(&self) -> PageOrientation {
        page_orientation_of(self.width, self.height)
    }
}

impl Dimensions {
    /// The width a taller image must be scaled to so that it matches a
    /// shorter image's height while keeping its own aspect ratio.
    pub fn fit_height_width(&self, target_height: u32) -> (r: Option<u32>)
        ensures
            self.height >= 1 ==> (r matches Some(u) && ({
                let exact = (self.width as int) * (target_height as int) / (self.height as int);
                u as int == if exact > u32::MAX as int {
                    u32::MAX as int
                } else {
                    exact
                }
            })),
            self.height == 0 ==> r is None,
    {
        if self.height == 0 {
            return None;
        }
        proof {
            assert(self.width as int * target_height as int <= 0xFFFF_FFFFi64 * 0xFFFF_FFFFi64)
                by (nonlinear_arith)
                requires
                    self.width <= 0xFFFF_FFFFu32,
                    target_height <= 0xFFFF_FFFFu32,
            ;
        }
        let v = (self.width as u64 * target_height as u64) / self.height as u64;
        Some(clamp_u32(v))
    }

    /// The height a wider image must be scaled to so that it matches a
    /// narrower image's width while keeping its own aspect ratio.
    pub fn fit_width_height(&self, target_width: u32) -> (r: Option<u32>)
        ensures
            self.width >= 1 ==> (r matches Some(u) && ({
                let exact = (self.height as int) * (target_width as int) / (self.width as int);
                u as int == if exact > u32::MAX as int {
                    u32::MAX as int
                } else {
                    exact
                }
            })),
            self.width == 0 ==> r is None,
    {
        if self.width == 0 {
            return None;
        }
        proof {
            assert(self.height as int * target_width as int <= 0xFFFF_FFFFi64 * 0xFFFF_FFFFi64)
                by (nonlinear_arith)
                requires
                    self.height <= 0xFFFF_FFFFu32,
                    target_width <= 0xFFFF_FFFFu32,
            ;
        }
        let v = (self.height as u64 * target_width as u64) / self.width as u64;
        Some(clamp_u32(v))
    }
}

fn clamp_u32(v: u64) -> (r: u32)
    ensures
        v <= u32::MAX ==> r == v,
        v > u32::MAX ==> r == u32::MAX,
{
    if v > u32::MAX as u64 {
        u32::MAX
    } else {
        v as u32
    }
}

/// A quarter-turn rotation, measured clockwise.
#[derive(Debug, PartialEq, Eq, Structural, Clone, Copy)]
pub enum Rotation {
    R0,
    R90,
    R180,
    R270,
}

/// The transform that normalizes an image with the given orientation value
/// to the upright orientation: rotate clockwise first, then mirror
/// horizontally if the flag is set.
#[derive(Debug, PartialEq, Eq, Structural, Clone, Copy)]
pub struct OrientationTransform {
    pub rotation: Rotation,
    pub flip_horizontal: bool,
}

/// The canonical per-value transform table for the eight orientation
/// values; None for anything outside 1 through 8.
pub fn orientation_transform(value: u32) -> (r: Option<OrientationTransform>)
    ensures
        r == Some(OrientationTransform { rotation: Rotation::R0, flip_horizontal: false })
            <==> value == 1,
        r == Some(OrientationTransform { rotation: Rotation::R0, flip_horizontal: true })
            <==> value == 2,
        r == Some(OrientationTransform { rotation: Rotation::R180, flip_horizontal: false })
            <==> value == 3,
        r == Some(OrientationTransform { rotation: Rotation::R180, flip_horizontal: true })
            <==> value == 4,
        r == Some(OrientationTransform { rotation: Rotation::R90, flip_horizontal: true })
            <==> value == 5,
        r == Some(OrientationTransform { rotation: Rotation::R90, flip_horizontal: false })
            <==> value == 6,
        r == Some(OrientationTransform { rotation: Rotation::R270, flip_horizontal: true })
            <==> value == 7,
        r == Some(OrientationTransform { rotation: Rotation::R270, flip_horizontal: false })
            <==> value == 8,
        r is None <==> !(1 <= value <= 8),
{
    match value {
        1 => Some(OrientationTransform { rotation: Rotation::R0, flip_horizontal: false }),
        2 => Some(OrientationTransform { rotation: Rotation::R0, flip_horizontal: true }),
        3 => Some(OrientationTransform { rotation: Rotation::R180, flip_horizontal: false }),
        4 => Some(OrientationTransform { rotation: Rotation::R180, flip_horizontal: true }),
        5 => Some(OrientationTransform { rotation: Rotation::R90, flip_horizontal: true }),
        6 => Some(OrientationTransform { rotation: Rotation::R90, flip_horizontal: false }),
        7 => Some(OrientationTransform { rotation: Rotation::R270, flip_horizontal: true }),
        8 => Some(OrientationTransform { rotation: Rotation::R270, flip_horizontal: false }),
        _ => None,
    }
}

} // verus!
