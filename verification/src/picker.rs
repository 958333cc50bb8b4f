//! Approximate ray-marching picker.
//!
//! Given a ray from the viewer, the picker finds the identity of the
//! first occupied block the ray touches, by conservative sphere
//! marching: at the marched point it takes the smallest axis-aligned-box
//! distance bound over all occupied blocks, reports a hit when that
//! bound falls below a small surface threshold, and otherwise advances
//! the ray by the bound, giving up beyond a maximum range or step
//! budget.
//!
//! All geometry here is fixed-point: a coordinate or distance counts
//! thousandths of one block edge, so `1000` is one block, `500` half a
//! block, `10` the surface threshold of 0.01 and `100_000` the maximum
//! pick range of 100 block edges.

use vstd::prelude::*;
use vstd::math::{abs, max, max3};
use crate::objects::{Block, Coord, Identity};
use crate::renderer::Renderer;

verus! {

/// A point or direction in fixed-point units: each component counts
/// thousandths of one block edge.
#[derive(Clone, Copy, PartialEq, Eq, Structural, Debug)]
pub struct Vec3Fixed {
    pub x: i64,
    pub y: i64,
    pub z: i64,
}

/// One block edge in fixed-point units.
pub const FIXED_ONE: i64 = 1000;

/// The march gives up after this many steps.
pub const MAX_MARCH_STEPS: usize = 10000;

/// The march reports no hit beyond this distance (100 block edges).
pub const MAX_PICK_DISTANCE: i64 = 100_000;

/// A distance bound below this threshold (0.01 block edge) is a hit.
pub const SURFACE_THRESHOLD: i64 = 10;

/// The fixed-point centre of the cell with coordinate component `c`.
pub open spec fn axis_center(c: u16) -> int {
    1000 * c + 500
}

/// Distance from `p` to the slab of the cell `c` along one axis.
pub open spec fn axis_delta(p: int, c: u16) -> int {
    abs(p - axis_center(c)) - 500
}

/// Conservative distance bound from the point to the block at `c`: the
/// largest per-axis slab distance, clamped at zero. It never
/// overestimates the true distance to the block's box.
pub open spec fn box_distance(px: int, py: int, pz: int, c: Coord) -> int {
    max(max3(axis_delta(px, c.x), axis_delta(py, c.y), axis_delta(pz, c.z)), 0)
}

/// The smallest box distance over the occupied blocks below index `n`,
/// with the owning index; ties keep the earlier block. `None` when no
/// occupied block exists there.
pub open spec fn closest_block_upto(
    blocks: Seq<Block>,
    px: int,
    py: int,
    pz: int,
    n: int,
) -> Option<(int, int)>
    decreases n,
{
    if n <= 0 {
        None
    } else {
        let prev = closest_block_upto(blocks, px, py, pz, n - 1);
        if blocks[n - 1].spec_is_air() {
            prev
        } else {
            let d = box_distance(px, py, pz, blocks[n - 1].coord);
            match prev {
                None => Some((d, n - 1)),
                Some((pd, pi)) => if d < pd {
                    Some((d, n - 1))
                } else {
                    Some((pd, pi))
                },
            }
        }
    }
}

/// One marched axis position: the origin plus the direction scaled by
/// the travelled distance, in fixed-point units (truncated division).
pub open spec fn march_pos_axis(o: i64, d: i64, dist: int) -> int {
    if d >= 0 {
        o + (d * dist) / 1000
    } else {
        o - (((-d) * dist) / 1000)
    }
}

/// The whole march, as a recurrence: at the travelled distance `dist`,
/// find the closest occupied block; a bound under the surface threshold
/// is a hit, a travelled distance beyond the maximum range is a miss,
/// and otherwise the march advances by the bound. When the step budget
/// runs out, the most recently measured block (if any) is reported.
pub open spec fn march_spec(
    blocks: Seq<Block>,
    o: Vec3Fixed,
    d: Vec3Fixed,
    dist: int,
    last: Option<int>,
    fuel: nat,
) -> Option<int>
    decreases fuel,
{
    if fuel == 0 {
        last
    } else {
        let px = march_pos_axis(o.x, d.x, dist);
        let py = march_pos_axis(o.y, d.y, dist);
        let pz = march_pos_axis(o.z, d.z, dist);
        match closest_block_upto(blocks, px, py, pz, blocks.len() as int) {
            None => None,
            Some((cd, ci)) => if cd < SURFACE_THRESHOLD {
                Some(ci)
            } else if dist + cd > MAX_PICK_DISTANCE {
                None
            } else {
                march_spec(blocks, o, d, dist + cd, Some(ci), (fuel - 1) as nat)
            },
        }
    }
}

/// A ray origin the picker accepts: within a million block edges of the
/// cube, so that every intermediate fixed-point value fits an `i64`.
pub open spec fn origin_in_range(v: Vec3Fixed) -> bool {
    &&& -1_000_000_000 <= v.x <= 1_000_000_000
    &&& -1_000_000_000 <= v.y <= 1_000_000_000
    &&& -1_000_000_000 <= v.z <= 1_000_000_000
}

/// A ray direction the picker accepts: a unit vector in fixed-point
/// units, so each component is at most one block edge in magnitude.
pub open spec fn direction_in_range(v: Vec3Fixed) -> bool {
    &&& -1000 <= v.x <= 1000
    &&& -1000 <= v.y <= 1000
    &&& -1000 <= v.z <= 1000
}

/// A marched point stays within these component bounds.
pub open spec fn point_in_range(px: int, py: int, pz: int) -> bool {
    &&& -1_100_000_000 <= px <= 1_100_000_000
    &&& -1_100_000_000 <= py <= 1_100_000_000
    &&& -1_100_000_000 <= pz <= 1_100_000_000
}

/// What the closest-block search guarantees: a `Some` result names an
/// occupied block with its true (non-negative) box distance, and a
/// `None` result means every block below `n` is empty.
pub proof fn lemma_closest_block_props(blocks: Seq<Block>, px: int, py: int, pz: int, n: int)
    requires
        0 <= n <= blocks.len(),
    ensures
        match closest_block_upto(blocks, px, py, pz, n) {
            None => forall|i: int| 0 <= i < n ==> (#[trigger] blocks[i]).spec_is_air(),
            Some((d, i)) => 0 <= i < n && !blocks[i].spec_is_air() && d == box_distance(
                px,
                py,
                pz,
                blocks[i].coord,
            ) && d >= 0,
        },
    decreases n,
{
    if n > 0 {
        lemma_closest_block_props(blocks, px, py, pz, n - 1);
    }
}

/// On a grid with no occupied block, the march never reports a hit,
/// whatever the ray.
pub proof fn lemma_pick_empty_grid(blocks: Seq<Block>, o: Vec3Fixed, d: Vec3Fixed)
    requires
        forall|i: int| 0 <= i < blocks.len() ==> (#[trigger] blocks[i]).spec_is_air(),
    ensures
        march_spec(blocks, o, d, 0, None, MAX_MARCH_STEPS as nat) is None,
{
    let px = march_pos_axis(o.x, d.x, 0);
    let py = march_pos_axis(o.y, d.y, 0);
    let pz = march_pos_axis(o.z, d.z, 0);
    lemma_closest_block_props(blocks, px, py, pz, blocks.len() as int);
    match closest_block_upto(blocks, px, py, pz, blocks.len() as int) {
        Some((cd, ci)) => {
            assert(!blocks[ci].spec_is_air());
        },
        None => {},
    }
}

/// Distance from `p` to the centre slab of component `c`, clamped below
/// at `-500`.
fn axis_delta_exec(p: i64, c: u16) -> (d: i64)
    requires
        -1_100_000_000 <= p <= 1_100_000_000,
    ensures
        d as int == axis_delta(p as int, c),
        -500 <= d <= 1_200_000_000,
{
    let center: i64 = 1000 * (c as i64) + 500;
    let diff: i64 = if p >= center {
        p - center
    } else {
        center - p
    };
    diff - 500
}

/// The conservative box distance bound, in fixed-point units.
fn box_distance_exec(px: i64, py: i64, pz: i64, c: Coord) -> (d: i64)
    requires
        point_in_range(px as int, py as int, pz as int),
    ensures
        d as int == box_distance(px as int, py as int, pz as int, c),
        0 <= d <= 1_200_000_000,
{
    let dx = axis_delta_exec(px, c.x);
    let dy = axis_delta_exec(py, c.y);
    let dz = axis_delta_exec(pz, c.z);
    let m = if dx >= dy {
        dx
    } else {
        dy
    };
    let m = if m >= dz {
        m
    } else {
        dz
    };
    if m >= 0 {
        m
    } else {
        0
    }
}

/// One marched axis position.
fn march_axis(o: i64, d: i64, dist: i64) -> (p: i64)
    requires
        -1_000_000_000 <= o <= 1_000_000_000,
        -1000 <= d <= 1000,
        0 <= dist <= 100_000,
    ensures
        p as int == march_pos_axis(o, d, dist as int),
        -1_100_000_000 <= p <= 1_100_000_000,
{
    if d >= 0 {
        proof {
            assert((d as int) * (dist as int) <= 100_000_000) by (nonlinear_arith)
                requires 0 <= d <= 1000, 0 <= dist <= 100_000;
        }
        let prod: u64 = (d as u64) * (dist as u64);
        let step: u64 = prod / 1000;
        o + (step as i64)
    } else {
        proof {
            assert(0 <= (-d as int) * (dist as int) <= 100_000_000) by (nonlinear_arith)
                requires 0 < -d <= 1000, 0 <= dist <= 100_000;
        }
        let prod: u64 = ((-d) as u64) * (dist as u64);
        let step: u64 = prod / 1000;
        o - (step as i64)
    }
}

impl Renderer {
    /// Over all occupied blocks, the smallest box distance bound from
    /// the given point, with the block's scan index; ties keep the
    /// earlier block. `None` on a grid with no occupied block.
    pub fn get_closest_block(&self, point: Vec3Fixed) -> (r: Option<(i64, usize)>)
        requires
            self.wf(),
            point_in_range(point.x as int, point.y as int, point.z as int),
        ensures
            ({
                let c = closest_block_upto(
                    self.blocks@,
                    point.x as int,
                    point.y as int,
                    point.z as int,
                    self.blocks@.len() as int,
                );
                match c {
                    None => r is None,
                    Some((d, i)) => r matches Some((rd, ri)) && rd as int == d && ri as int == i
                        && 0 <= rd <= 1_200_000_000,
                }
            }),
    {
        let mut best: Option<(i64, usize)> = None;
        let mut i: usize = 0;
        let n = self.blocks.len();
        while i < n
            invariant
                self.wf(),
                n == self.blocks@.len(),
                i <= n,
                point_in_range(point.x as int, point.y as int, point.z as int),
                ({
                    let c = closest_block_upto(
                        self.blocks@,
                        point.x as int,
                        point.y as int,
                        point.z as int,
                        i as int,
                    );
                    match c {
                        None => best is None,
                        Some((d, bi)) => best matches Some((rd, ri)) && rd as int == d && ri as int
                            == bi && 0 <= rd <= 1_200_000_000,
                    }
                }),
            decreases n - i,
        {
            let block = &self.blocks[i];
            if !block.is_air() {
                let d = box_distance_exec(point.x, point.y, point.z, block.coord);
                match best {
                    None => {
                        best = Some((d, i));
                    },
                    Some((bd, _)) => {
                        if d < bd {
                            best = Some((d, i));
                        }
                    },
                }
            }
            i = i + 1;
        }
        best
    }

    /// March the given ray through the grid and report the identity of
    /// the block it touches, or `None` when it touches none within the
    /// maximum range. On a grid with no occupied block the answer is
    /// always `None`.
    pub fn ray_march(&self, origin: Vec3Fixed, direction: Vec3Fixed) -> (hit: Option<Vec<u8>>)
        requires
            self.wf(),
            origin_in_range(origin),
            direction_in_range(direction),
        ensures
            ({
                let m = march_spec(
                    self.blocks@,
                    origin,
                    direction,
                    0,
                    None,
                    MAX_MARCH_STEPS as nat,
                );
                match m {
                    None => hit is None,
                    Some(ci) => self.blocks@[ci].name matches Identity::Named(nm) && hit matches Some(h)
                        && h@ == nm@,
                }
            }),
            (forall|i: int|
                0 <= i < self.blocks@.len() ==> (#[trigger] self.blocks@[i]).spec_is_air())
                ==> hit is None,
    {
        proof {
            if forall|i: int|
                0 <= i < self.blocks@.len() ==> (#[trigger] self.blocks@[i]).spec_is_air() {
                lemma_pick_empty_grid(self.blocks@, origin, direction);
            }
        }
        let mut distance: i64 = 0;
        let mut last: Option<usize> = None;
        let mut step: usize = 0;
        let ghost m0 = march_spec(
            self.blocks@,
            origin,
            direction,
            0,
            None,
            MAX_MARCH_STEPS as nat,
        );
        let mut glast_track: Ghost<Option<int>> = Ghost(None);
        while step < MAX_MARCH_STEPS
            invariant
                self.wf(),
                origin_in_range(origin),
                direction_in_range(direction),
                step <= MAX_MARCH_STEPS,
                0 <= distance <= 100_000,
                m0 == march_spec(
                    self.blocks@,
                    origin,
                    direction,
                    0,
                    None,
                    MAX_MARCH_STEPS as nat,
                ),
                m0 == march_spec(
                    self.blocks@,
                    origin,
                    direction,
                    distance as int,
                    glast_track@,
                    (MAX_MARCH_STEPS - step) as nat,
                ),
                match glast_track@ {
                    None => last is None,
                    Some(gi) => last matches Some(li) && li as int == gi && 0 <= gi
                        < self.blocks@.len() && !self.blocks@[gi].spec_is_air(),
                },
            decreases MAX_MARCH_STEPS - step,
        {
            let px = march_axis(origin.x, direction.x, distance);
            let py = march_axis(origin.y, direction.y, distance);
            let pz = march_axis(origin.z, direction.z, distance);
            let closest = self.get_closest_block(Vec3Fixed { x: px, y: py, z: pz });
            match closest {
                None => {
                    return None;
                },
                Some((cd, ci)) => {
                    proof {
                        lemma_closest_block_props(
                            self.blocks@,
                            px as int,
                            py as int,
                            pz as int,
                            self.blocks@.len() as int,
                        );
                    }
                    distance = distance + cd;
                    if cd < SURFACE_THRESHOLD {
                        return Some(self.block_name_bytes(ci));
                    }
                    if distance > MAX_PICK_DISTANCE {
                        return None;
                    }
                    last = Some(ci);
                    glast_track = Ghost(Some(ci as int));
                },
            }
            step = step + 1;
        }
        match last {
            None => None,
            Some(ci) => Some(self.block_name_bytes(ci)),
        }
    }

    /// The name bytes of the occupied block at scan index `i`.
    fn block_name_bytes(&self, i: usize) -> (nm: Vec<u8>)
        requires
            i < self.blocks@.len(),
            !self.blocks@[i as int].spec_is_air(),
        ensures
            self.blocks@[i as int].name matches Identity::Named(n) && nm@ == n@,
    {
        match &self.blocks[i].name {
            Identity::Named(n) => vstd::slice::slice_to_vec(n.as_slice()),
            Identity::Air => {
                proof {
                    assert(false);
                }
                Vec::new()
            },
        }
    }
}

} // verus!
