//! Voxel data model and the coordinate codec.
//!
//! A scan session covers a cube of side `width` (odd, at least 3). Every
//! cell is addressed either by a coordinate triple, each component in
//! `[0, width)`, or by a flat scan index in `[0, width³)`. The canonical
//! mapping is `index = x + y·width + z·width²` (x fastest-varying); the
//! decoder, the mesh builder and the picker all rely on this one mapping.

use vstd::prelude::*;
use vstd::arithmetic::div_mod::{lemma_fundamental_div_mod, lemma_fundamental_div_mod_converse};

verus! {

/// One position inside the scanned cube.
#[derive(Clone, Copy, PartialEq, Eq, Structural, Debug)]
pub struct Coord {
    pub x: u16,
    pub y: u16,
    pub z: u16,
}

/// An RGB display colour; alpha is always opaque.
#[derive(Clone, Copy, PartialEq, Eq, Structural, Debug)]
pub struct Rgb {
    pub r: u8,
    pub g: u8,
    pub b: u8,
}

/// A block identity: `Air` marks an empty cell; `Named` carries the
/// block-type name exactly as the wire dictionary spelt it.
#[derive(Clone, PartialEq, Eq, Debug)]
pub enum Identity {
    Air,
    Named(Vec<u8>),
}

/// One cell of the voxel grid.
#[derive(Clone, PartialEq, Eq, Debug)]
pub struct Block {
    pub name: Identity,
    pub coord: Coord,
    pub color: Rgb,
}

/// A cube side length is valid when it is odd, at least 3, and small
/// enough that every scan index fits in a `u16` (the index type of the
/// wire protocol and of the grid).
pub open spec fn valid_width(w: u16) -> bool {
    &&& 3 <= w
    &&& w % 2 == 1
    &&& (w as int) * (w as int) * (w as int) <= 0xFFFF
}

/// Number of cells in the cube: `width³`.
pub open spec fn volume(w: u16) -> int {
    (w as int) * (w as int) * (w as int)
}

/// Every component of `c` lies in `[0, w)`.
pub open spec fn in_cube(w: u16, c: Coord) -> bool {
    c.x < w && c.y < w && c.z < w
}

/// The canonical linearization: `x + y·w + z·w²`.
pub open spec fn lin(w: u16, c: Coord) -> int {
    c.x + c.y * (w as int) + c.z * (w as int) * (w as int)
}

/// The inverse mapping from a scan index to a coordinate.
pub open spec fn delin(w: u16, i: int) -> Coord {
    Coord {
        x: ((i % ((w as int) * (w as int))) % (w as int)) as u16,
        y: ((i % ((w as int) * (w as int))) / (w as int)) as u16,
        z: (i / ((w as int) * (w as int))) as u16,
    }
}

impl Identity {
    /// Whether this identity is the empty-cell sentinel.
    pub open spec fn spec_is_air(&self) -> bool {
        self matches Identity::Air
    }

    #[verifier::when_used_as_spec(spec_is_air)]
    pub fn is_air(&self) -> (b: bool)
        ensures
            b == self.spec_is_air(),
    {
        matches!(self, Identity::Air)
    }
}

impl Block {
    /// Whether this cell is empty.
    pub open spec fn spec_is_air(&self) -> bool {
        self.name.spec_is_air()
    }

    #[verifier::when_used_as_spec(spec_is_air)]
    pub fn is_air(&self) -> (b: bool)
        ensures
            b == self.spec_is_air(),
    {
        self.name.is_air()
    }

    /// Map a coordinate to its scan index.
    pub fn linearize(width: u16, coord: Coord) -> (index: u16)
        requires
            valid_width(width),
            in_cube(width, coord),
        ensures
            index as int == lin(width, coord),
            (index as int) < volume(width),
    {
        proof {
            lemma_lin_bounds(width, coord);
        }
        coord.x + coord.y * width + coord.z * width * width
    }

    /// Map a scan index back to its coordinate.
    pub fn delinearize(width: u16, index: u16) -> (coord: Coord)
        requires
            valid_width(width),
            (index as int) < volume(width),
        ensures
            coord == delin(width, index as int),
            in_cube(width, coord),
            lin(width, coord) == index as int,
    {
        proof {
            lemma_square_fits(width);
            lemma_lin_delin(width, index as int);
        }
        let w2: u16 = width * width;
        let r: u16 = index % w2;
        Coord { x: r % width, y: r / width, z: index / w2 }
    }
}

impl Default for Block {
    /// A fresh cell: empty, at the cube origin, in the placeholder
    /// colour a cell shows before any scan arrives.
    fn default() -> (b: Block)
        ensures
            b.spec_is_air(),
            b.coord == (Coord { x: 0, y: 0, z: 0 }),
    {
        Block {
            name: Identity::Air,
            coord: Coord { x: 0, y: 0, z: 0 },
            color: Rgb { r: 0, g: 228, b: 48 },
        }
    }
}

/// For a valid width, `w²` stays within `u16`.
proof fn lemma_square_fits(w: u16)
    requires
        valid_width(w),
    ensures
        (w as int) * (w as int) < 0x10000,
{
    assert((w as int) * (w as int) * 3 <= (w as int) * (w as int) * (w as int))
        by (nonlinear_arith)
        requires 3 <= w;
}

/// The linearization of an in-cube coordinate lies in `[0, w³)`.
pub proof fn lemma_lin_bounds(w: u16, c: Coord)
    requires
        valid_width(w),
        in_cube(w, c),
    ensures
        0 <= lin(w, c) < volume(w),
        c.x + c.y * (w as int) < (w as int) * (w as int),
        c.y * (w as int) <= lin(w, c),
        c.z * (w as int) <= c.z * (w as int) * (w as int),
        c.z * (w as int) * (w as int) <= lin(w, c),
{
    assert(c.x + c.y * (w as int) + c.z * (w as int) * (w as int)
        <= (w as int) * (w as int) * (w as int) - 1
        && c.x + c.y * (w as int) < (w as int) * (w as int)
        && c.y * (w as int) <= c.x + c.y * (w as int) + c.z * (w as int) * (w as int)
        && c.z * (w as int) <= c.z * (w as int) * (w as int)
        && c.z * (w as int) * (w as int) <= c.x + c.y * (w as int) + c.z * (w as int) * (w as int))
        by (nonlinear_arith)
        requires c.x < w, c.y < w, c.z < w, 3 <= w;
}

/// Delinearizing a scan index and linearizing the result gives the index
/// back, and the coordinate lies inside the cube. Together with
/// [`lemma_delin_lin`] this makes the codec a bijection between the cube
/// and `[0, w³)`.
pub proof fn lemma_lin_delin(w: u16, i: int)
    requires
        valid_width(w),
        0 <= i < volume(w),
    ensures
        in_cube(w, delin(w, i)),
        lin(w, delin(w, i)) == i,
{
    let wi = w as int;
    let w2 = wi * wi;
    let r = i % w2;
    let z = i / w2;
    let y = r / wi;
    let x = r % wi;
    lemma_fundamental_div_mod(i, w2);
    lemma_fundamental_div_mod(r, wi);
    assert(0 <= r < w2 && 0 <= x < wi);
    assert(0 <= y < wi) by (nonlinear_arith)
        requires r == wi * y + x, 0 <= r < wi * wi, 0 <= x < wi;
    assert(0 <= z < wi) by (nonlinear_arith)
        requires i == w2 * z + r, 0 <= i < w2 * wi, 0 <= r < w2, w2 == wi * wi, 0 < wi;
    let c = delin(w, i);
    assert(c.x == x && c.y == y && c.z == z);
    assert(y * wi == wi * y) by (nonlinear_arith);
    assert(z * wi * wi == w2 * z) by (nonlinear_arith)
        requires w2 == wi * wi;
    assert(lin(w, c) == x + y * wi + z * wi * wi);
}

/// Linearizing an in-cube coordinate and delinearizing the result gives
/// the coordinate back.
pub proof fn lemma_delin_lin(w: u16, c: Coord)
    requires
        valid_width(w),
        in_cube(w, c),
    ensures
        0 <= lin(w, c) < volume(w),
        delin(w, lin(w, c)) == c,
{
    let wi = w as int;
    let w2 = wi * wi;
    let i = lin(w, c);
    lemma_lin_bounds(w, c);
    let r = c.x + c.y * wi;
    assert(i == w2 * (c.z as int) + r) by (nonlinear_arith)
        requires i == c.x + c.y * wi + c.z * wi * wi, w2 == wi * wi, r == c.x + c.y * wi;
    lemma_fundamental_div_mod_converse(i, w2, c.z as int, r);
    assert(r == wi * (c.y as int) + c.x) by (nonlinear_arith)
        requires r == c.x + c.y * wi;
    lemma_fundamental_div_mod_converse(r, wi, c.y as int, c.x as int);
}

/// The cube volume as a `usize`, for sizing the grid.
pub fn cube_volume(width: u16) -> (n: usize)
    requires
        valid_width(width),
    ensures
        n == volume(width),
{
    proof {
        lemma_square_fits(width);
    }
    (width as usize) * (width as usize) * (width as usize)
}

} // verus!
