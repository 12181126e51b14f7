//! Read-only shading model consumed by an external renderer: surface normals
//! in fixed-point milli-units, depth-compared pixels, and sprites.
//!
//! A `Normal` stores the plane components of a unit normal scaled by
//! `NORM_ONE`; the implied out-of-plane component follows from the unit
//! length, so pixels can be depth-ordered by comparing what remains of the
//! squared length budget.

use vstd::prelude::*;

use crate::geom::is_sqrt_floor;
use crate::geom::isqrt;
use crate::geom::sqrt_floor;

verus! {

/// Fixed-point scale of normal components: `NORM_ONE` stands for 1.0.
pub const NORM_ONE: i64 = 1000;

/// `NORM_ONE` squared: the squared length of a unit normal.
pub const NORM_ONE_SQ: i64 = 1_000_000;

/// The plane components of a unit surface normal, scaled by `NORM_ONE`.
#[derive(Clone, Copy, Debug, PartialEq, Eq, Structural)]
pub struct Normal {
    pub x: i64,
    pub y: i64,
}

/// A three-component integer vector, in the same milli-unit scale.
#[derive(Clone, Copy, Debug, PartialEq, Eq, Structural)]
pub struct Vec3 {
    pub x: i64,
    pub y: i64,
    pub z: i64,
}

impl Normal {
    pub open spec fn len_sq(self) -> int {
        self.x * self.x + self.y * self.y
    }

    /// The plane components fit inside the unit disc.
    pub open spec fn wf(self) -> bool {
        self.len_sq() <= NORM_ONE_SQ as int
    }

    /// What remains of the squared length budget: the square of the implied
    /// out-of-plane component, in squared milli-units.
    pub open spec fn spec_implied_z_sqr(self) -> int {
        NORM_ONE_SQ as int - self.len_sq()
    }

    pub fn implied_z_sqr(&self) -> (r: u64)
        requires
            self.wf(),
        ensures
            r as int == self.spec_implied_z_sqr(),
    {
        proof {
            assert(0 <= self.x * self.x && 0 <= self.y * self.y) by (nonlinear_arith);
        }
        let s: i64 = NORM_ONE_SQ - (self.x * self.x + self.y * self.y);
        s as u64
    }

    /// The implied out-of-plane component, rounded down, in milli-units.
    pub fn implied_z(&self) -> (r: u64)
        requires
            self.wf(),
        ensures
            r as int == sqrt_floor(self.spec_implied_z_sqr()),
            is_sqrt_floor(self.spec_implied_z_sqr(), r as int),
    {
        let zs: u64 = self.implied_z_sqr();
        isqrt(zs as u128)
    }

    /// The full normal, with the out-of-plane component made explicit.
    pub fn to_vec3(&self) -> (r: Vec3)
        requires
            self.wf(),
        ensures
            r.x == self.x,
            r.y == self.y,
            r.z as int == sqrt_floor(self.spec_implied_z_sqr()),
    {
        let z: u64 = self.implied_z();
        proof {
            assert(0 <= self.x * self.x && 0 <= self.y * self.y) by (nonlinear_arith);
            assert(self.spec_implied_z_sqr() <= NORM_ONE_SQ as int);
            crate::geom::lemma_sqrt_floor_unique(self.spec_implied_z_sqr(), z as int);
            assert(z * z <= NORM_ONE_SQ) by (nonlinear_arith)
                requires
                    is_sqrt_floor(self.spec_implied_z_sqr(), z as int),
                    self.spec_implied_z_sqr() <= NORM_ONE_SQ as int,
            ;
            assert(z as int <= NORM_ONE as int) by (nonlinear_arith)
                requires
                    0 <= z,
                    z * z <= NORM_ONE_SQ,
                    NORM_ONE_SQ == NORM_ONE as int * NORM_ONE as int,
                    NORM_ONE == 1000i64,
            ;
        }
        Vec3 { x: self.x, y: self.y, z: z as i64 }
    }
}

/// An RGBA color with 8-bit channels.
#[derive(Clone, Copy, Debug, PartialEq, Eq, Structural)]
pub struct Rgba {
    pub r: u8,
    pub g: u8,
    pub b: u8,
    pub a: u8,
}

/// One drawn pixel: its unlit color, and the normal of the geometry that
/// produced it.
#[derive(Clone, Copy, Debug, PartialEq, Eq, Structural)]
pub struct Pixel {
    pub color: Rgba,
    pub normal: Normal,
}

/// Whether a pixel with normal `a` is drawn in front of one with normal `b`:
/// the one whose geometry faces the viewer more (larger implied out-of-plane
/// component) wins.
pub open spec fn covers_spec(a: Pixel, b: Pixel) -> bool {
    a.normal.spec_implied_z_sqr() > b.normal.spec_implied_z_sqr()
}

impl Pixel {
    pub open spec fn wf(self) -> bool {
        self.normal.wf()
    }

    /// Whether this pixel should be drawn in front of the other pixel.
    pub fn covers(&self, other: &Pixel) -> (r: bool)
        requires
            self.wf(),
            other.wf(),
        ensures
            r == covers_spec(*self, *other),
    {
        self.normal.implied_z_sqr() > other.normal.implied_z_sqr()
    }
}

impl Default for Pixel {
    /// The background pixel: transparent, with a normal lying fully in the
    /// plane, so that any drawn pixel covers it.
    fn default() -> (r: Pixel)
        ensures
            r == (Pixel {
                color: Rgba { r: 0, g: 0, b: 0, a: 0 },
                normal: Normal { x: 0, y: NORM_ONE },
            }),
            r.wf(),
    {
        let p = Pixel {
            color: Rgba { r: 0, g: 0, b: 0, a: 0 },
            normal: Normal { x: 0, y: NORM_ONE },
        };
        proof {
            assert(p.normal.len_sq() == 1000int * 1000int);
        }
        p
    }
}

/// The background pixel never covers anything: everything drawn over it wins
/// ties or better.
pub proof fn lemma_default_pixel_overdrawn(p: Pixel)
    requires
        p.wf(),
    ensures
        !covers_spec(
            Pixel { color: Rgba { r: 0, g: 0, b: 0, a: 0 }, normal: Normal { x: 0, y: NORM_ONE } },
            p,
        ),
{
    assert(NORM_ONE as int * NORM_ONE as int == NORM_ONE_SQ as int);
    assert(p.normal.len_sq() <= NORM_ONE_SQ as int);
}

/// A pre-rendered cluster of pixels with their offsets.
pub struct Sprite {
    pub pixels: Vec<(usize, usize, Pixel)>,
}

} // verus!
