//! The voxel grid and the face-culling mesh builder.
//!
//! `Renderer` owns one block per cube cell, addressed by scan index. The
//! mesh builder walks the grid in scan-index order and, for every
//! occupied block, emits a quad for each face whose neighbouring cell is
//! either outside the cube or empty; interior faces between two occupied
//! blocks are culled. Quads accumulate into batches so that no single
//! draw call exceeds the downstream vertex and index ceilings.

use vstd::prelude::*;
use vstd::seq_lib::lemma_concat_associative;
use crate::objects::{
    Block, Coord, Identity, Rgb, cube_volume, delin, in_cube, lin, valid_width, volume,
    lemma_lin_delin,
};

verus! {

/// Grid owner: one block per cube cell, in scan-index order.
pub struct Renderer {
    pub width: u16,
    pub blocks: Vec<Block>,
}

/// Whether the cell one step from `c` in face direction `q` still lies
/// inside the cube. Directions: 0 = +z, 1 = -z, 2 = +y, 3 = -y,
/// 4 = +x, 5 = -x.
pub open spec fn neighbor_exists(w: u16, c: Coord, q: int) -> bool {
    if q == 0 {
        c.z + 1 < w
    } else if q == 1 {
        c.z >= 1
    } else if q == 2 {
        c.y + 1 < w
    } else if q == 3 {
        c.y >= 1
    } else if q == 4 {
        c.x + 1 < w
    } else if q == 5 {
        c.x >= 1
    } else {
        false
    }
}

/// The neighbouring coordinate one step from `c` in face direction `q`;
/// meaningful only when [`neighbor_exists`] holds.
pub open spec fn neighbor_coord(c: Coord, q: int) -> Coord {
    if q == 0 {
        Coord { x: c.x, y: c.y, z: (c.z + 1) as u16 }
    } else if q == 1 {
        Coord { x: c.x, y: c.y, z: (c.z - 1) as u16 }
    } else if q == 2 {
        Coord { x: c.x, y: (c.y + 1) as u16, z: c.z }
    } else if q == 3 {
        Coord { x: c.x, y: (c.y - 1) as u16, z: c.z }
    } else if q == 4 {
        Coord { x: (c.x + 1) as u16, y: c.y, z: c.z }
    } else {
        Coord { x: (c.x - 1) as u16, y: c.y, z: c.z }
    }
}

/// The face direction opposite to `q`.
pub open spec fn opposite(q: int) -> int {
    if q % 2 == 0 { q + 1 } else { q - 1 }
}

/// A face of the block at `c` is visible exactly when the neighbouring
/// cell in that direction is outside the cube, or is empty.
pub open spec fn face_visible(w: u16, blocks: Seq<Block>, c: Coord, q: int) -> bool {
    !neighbor_exists(w, c, q) || blocks[lin(w, neighbor_coord(c, q))].spec_is_air()
}

impl Renderer {
    /// Structural invariant: a valid width, exactly `width³` blocks, and
    /// every block stores the coordinate of its own scan index.
    pub open spec fn wf(&self) -> bool {
        &&& valid_width(self.width)
        &&& self.blocks@.len() == volume(self.width)
        &&& forall|i: int|
            0 <= i < self.blocks@.len() ==> (#[trigger] self.blocks@[i]).coord == delin(
                self.width,
                i,
            )
    }

    /// A fresh grid: every cell is air.
    pub fn new(width: u16) -> (r: Renderer)
        requires
            valid_width(width),
        ensures
            r.wf(),
            r.width == width,
            forall|i: int| 0 <= i < volume(width) ==> (#[trigger] r.blocks@[i]).spec_is_air(),
    {
        let n = cube_volume(width);
        let mut blocks: Vec<Block> = Vec::new();
        let mut i: usize = 0;
        while i < n
            invariant
                n == volume(width),
                valid_width(width),
                i <= n,
                blocks@.len() == i,
                forall|j: int|
                    0 <= j < i ==> (#[trigger] blocks@[j]).coord == delin(width, j)
                        && blocks@[j].spec_is_air(),
            decreases n - i,
        {
            blocks.push(
                Block {
                    name: Identity::Air,
                    coord: Block::delinearize(width, i as u16),
                    color: Rgb { r: 0, g: 228, b: 48 },
                },
            );
            i = i + 1;
        }
        Renderer { width, blocks }
    }

    /// The block at `c`'s neighbour in direction `q`, read through the
    /// scan-index mapping, is empty — or there is no such cell.
    ///
    /// `quad` names the face direction as in [`neighbor_exists`].
    pub fn quad_is_visible(&self, quad: usize, block: &Block) -> (vis: bool)
        requires
            self.wf(),
            quad < 6,
            in_cube(self.width, block.coord),
        ensures
            vis == face_visible(self.width, self.blocks@, block.coord, quad as int),
    {
        let c = block.coord;
        let w = self.width;
        if quad == 0 {
            if c.z + 1 >= w {
                true
            } else {
                let i = Block::linearize(w, Coord { x: c.x, y: c.y, z: c.z + 1 });
                self.blocks[i as usize].is_air()
            }
        } else if quad == 1 {
            if c.z == 0 {
                true
            } else {
                let i = Block::linearize(w, Coord { x: c.x, y: c.y, z: c.z - 1 });
                self.blocks[i as usize].is_air()
            }
        } else if quad == 2 {
            if c.y + 1 >= w {
                true
            } else {
                let i = Block::linearize(w, Coord { x: c.x, y: c.y + 1, z: c.z });
                self.blocks[i as usize].is_air()
            }
        } else if quad == 3 {
            if c.y == 0 {
                true
            } else {
                let i = Block::linearize(w, Coord { x: c.x, y: c.y - 1, z: c.z });
                self.blocks[i as usize].is_air()
            }
        } else if quad == 4 {
            if c.x + 1 >= w {
                true
            } else {
                let i = Block::linearize(w, Coord { x: c.x + 1, y: c.y, z: c.z });
                self.blocks[i as usize].is_air()
            }
        } else {
            if c.x == 0 {
                true
            } else {
                let i = Block::linearize(w, Coord { x: c.x - 1, y: c.y, z: c.z });
                self.blocks[i as usize].is_air()
            }
        }
    }
}

/// A face of a block at the cube boundary — one whose neighbouring cell
/// in that direction falls outside the cube — is always visible.
pub proof fn lemma_boundary_face_visible(w: u16, blocks: Seq<Block>, c: Coord, q: int)
    requires
        0 <= q < 6,
        !neighbor_exists(w, c, q),
    ensures
        face_visible(w, blocks, c, q),
{
}

/// Two adjacent occupied blocks never both show the face they share:
/// visibility is governed by emptiness and absence alone, and an
/// occupied neighbour suppresses the face on both sides.
pub proof fn lemma_shared_face_culled(g: Renderer, i: int, q: int)
    requires
        g.wf(),
        0 <= i < volume(g.width),
        0 <= q < 6,
        neighbor_exists(g.width, g.blocks@[i].coord, q),
        !g.blocks@[i].spec_is_air(),
        !g.blocks@[lin(g.width, neighbor_coord(g.blocks@[i].coord, q))].spec_is_air(),
    ensures
        !face_visible(g.width, g.blocks@, g.blocks@[i].coord, q),
        !face_visible(
            g.width,
            g.blocks@,
            neighbor_coord(g.blocks@[i].coord, q),
            opposite(q),
        ),
{
    let w = g.width;
    let c = g.blocks@[i].coord;
    let d = neighbor_coord(c, q);
    lemma_lin_delin(w, i);
    crate::objects::lemma_delin_lin(w, d);
    assert(neighbor_exists(w, d, opposite(q)));
    assert(neighbor_coord(d, opposite(q)) == c);
    let j = lin(w, d);
    assert(g.blocks@[j].coord == delin(w, j));
    assert(lin(w, neighbor_coord(d, opposite(q))) == i) by {
        crate::objects::lemma_delin_lin(w, c);
    }
}

/// One mesh vertex: an integer corner position in cube units, the
/// face-local texture coordinate (each component 0 or 1), and the
/// block's derived colour.
#[derive(Clone, Copy, PartialEq, Eq, Structural, Debug)]
pub struct Vertex {
    pub x: u16,
    pub y: u16,
    pub z: u16,
    pub u: u8,
    pub v: u8,
    pub color: Rgb,
}

/// One draw batch: a vertex buffer and an index buffer into it.
#[derive(Clone, PartialEq, Eq, Debug)]
pub struct MeshBatch {
    pub vertices: Vec<Vertex>,
    pub indices: Vec<u16>,
}

/// The four corners of face `q` of block `b`, in emission order, with
/// the face's texture layout.
pub open spec fn quad_vertices(q: int, b: Block) -> Seq<Vertex> {
    let x0 = b.coord.x;
    let y0 = b.coord.y;
    let z0 = b.coord.z;
    let x1 = (b.coord.x + 1) as u16;
    let y1 = (b.coord.y + 1) as u16;
    let z1 = (b.coord.z + 1) as u16;
    let col = b.color;
    if q == 0 {
        seq![
            Vertex { x: x0, y: y0, z: z1, u: 0, v: 0, color: col },
            Vertex { x: x1, y: y0, z: z1, u: 1, v: 0, color: col },
            Vertex { x: x1, y: y1, z: z1, u: 1, v: 1, color: col },
            Vertex { x: x0, y: y1, z: z1, u: 0, v: 1, color: col },
        ]
    } else if q == 1 {
        seq![
            Vertex { x: x0, y: y0, z: z0, u: 1, v: 0, color: col },
            Vertex { x: x1, y: y0, z: z0, u: 0, v: 0, color: col },
            Vertex { x: x1, y: y1, z: z0, u: 0, v: 1, color: col },
            Vertex { x: x0, y: y1, z: z0, u: 1, v: 1, color: col },
        ]
    } else if q == 2 {
        seq![
            Vertex { x: x0, y: y1, z: z0, u: 1, v: 0, color: col },
            Vertex { x: x0, y: y1, z: z1, u: 0, v: 0, color: col },
            Vertex { x: x1, y: y1, z: z1, u: 0, v: 1, color: col },
            Vertex { x: x1, y: y1, z: z0, u: 1, v: 1, color: col },
        ]
    } else if q == 3 {
        seq![
            Vertex { x: x0, y: y0, z: z0, u: 0, v: 0, color: col },
            Vertex { x: x0, y: y0, z: z1, u: 1, v: 0, color: col },
            Vertex { x: x1, y: y0, z: z1, u: 1, v: 1, color: col },
            Vertex { x: x1, y: y0, z: z0, u: 0, v: 1, color: col },
        ]
    } else if q == 4 {
        seq![
            Vertex { x: x1, y: y0, z: z0, u: 0, v: 0, color: col },
            Vertex { x: x1, y: y1, z: z0, u: 1, v: 0, color: col },
            Vertex { x: x1, y: y1, z: z1, u: 1, v: 1, color: col },
            Vertex { x: x1, y: y0, z: z1, u: 0, v: 1, color: col },
        ]
    } else {
        seq![
            Vertex { x: x0, y: y0, z: z0, u: 1, v: 0, color: col },
            Vertex { x: x0, y: y1, z: z0, u: 0, v: 0, color: col },
            Vertex { x: x0, y: y1, z: z1, u: 0, v: 1, color: col },
            Vertex { x: x0, y: y0, z: z1, u: 1, v: 1, color: col },
        ]
    }
}

/// The vertices that block `i` contributes for its face directions below
/// `q`: the quads of its visible faces, in direction order.
pub open spec fn block_quads_upto(w: u16, blocks: Seq<Block>, i: int, q: int) -> Seq<Vertex>
    decreases q,
{
    if q <= 0 {
        Seq::empty()
    } else {
        block_quads_upto(w, blocks, i, q - 1) + (if !blocks[i].spec_is_air() && face_visible(
            w,
            blocks,
            blocks[i].coord,
            q - 1,
        ) {
            quad_vertices(q - 1, blocks[i])
        } else {
            Seq::empty()
        })
    }
}

/// The reference, unbatched vertex stream: every visible face of every
/// occupied block below index `n`, blocks in scan-index order and faces
/// in direction order.
pub open spec fn mesh_vertices_upto(w: u16, blocks: Seq<Block>, n: int) -> Seq<Vertex>
    decreases n,
{
    if n <= 0 {
        Seq::empty()
    } else {
        mesh_vertices_upto(w, blocks, n - 1) + block_quads_upto(w, blocks, n - 1, 6)
    }
}

/// The six indices of face number `f` within a batch: two triangles over
/// its four vertices, in the fixed winding 0-1-2, 0-2-3.
pub open spec fn face_indices(f: int) -> Seq<u16> {
    seq![
        (4 * f) as u16,
        (4 * f + 1) as u16,
        (4 * f + 2) as u16,
        (4 * f) as u16,
        (4 * f + 2) as u16,
        (4 * f + 3) as u16,
    ]
}

/// The index buffer of a batch holding `faces` quads.
pub open spec fn quad_index_pattern(faces: int) -> Seq<u16>
    decreases faces,
{
    if faces <= 0 {
        Seq::empty()
    } else {
        quad_index_pattern(faces - 1) + face_indices(faces - 1)
    }
}

/// The vertices of all batches, concatenated in emission order.
pub open spec fn concat_batch_vertices(bs: Seq<MeshBatch>) -> Seq<Vertex>
    decreases bs.len(),
{
    if bs.len() == 0 {
        Seq::empty()
    } else {
        concat_batch_vertices(bs.drop_last()) + bs.last().vertices@
    }
}

impl MeshBatch {
    /// A batch respects the draw ceilings and indexes its own vertices
    /// as whole quads in the fixed winding.
    pub open spec fn wf(&self) -> bool {
        &&& self.vertices@.len() % 4 == 0
        &&& self.vertices@.len() <= 9824
        &&& self.indices@.len() <= 4836
        &&& self.indices@ == quad_index_pattern(self.vertices@.len() as int / 4)
    }
}

impl Renderer {
    /// The four vertices of face `quad` of `block`, in emission order.
    pub fn get_quad_data(quad: usize, block: &Block) -> (verts: Vec<Vertex>)
        requires
            quad < 6,
            block.coord.x < 0xFFFF,
            block.coord.y < 0xFFFF,
            block.coord.z < 0xFFFF,
        ensures
            verts@ == quad_vertices(quad as int, *block),
    {
        let x0 = block.coord.x;
        let y0 = block.coord.y;
        let z0 = block.coord.z;
        let x1 = block.coord.x + 1;
        let y1 = block.coord.y + 1;
        let z1 = block.coord.z + 1;
        let col = block.color;
        let verts: Vec<Vertex> = if quad == 0 {
            vec![
                Vertex { x: x0, y: y0, z: z1, u: 0, v: 0, color: col },
                Vertex { x: x1, y: y0, z: z1, u: 1, v: 0, color: col },
                Vertex { x: x1, y: y1, z: z1, u: 1, v: 1, color: col },
                Vertex { x: x0, y: y1, z: z1, u: 0, v: 1, color: col },
            ]
        } else if quad == 1 {
            vec![
                Vertex { x: x0, y: y0, z: z0, u: 1, v: 0, color: col },
                Vertex { x: x1, y: y0, z: z0, u: 0, v: 0, color: col },
                Vertex { x: x1, y: y1, z: z0, u: 0, v: 1, color: col },
                Vertex { x: x0, y: y1, z: z0, u: 1, v: 1, color: col },
            ]
        } else if quad == 2 {
            vec![
                Vertex { x: x0, y: y1, z: z0, u: 1, v: 0, color: col },
                Vertex { x: x0, y: y1, z: z1, u: 0, v: 0, color: col },
                Vertex { x: x1, y: y1, z: z1, u: 0, v: 1, color: col },
                Vertex { x: x1, y: y1, z: z0, u: 1, v: 1, color: col },
            ]
        } else if quad == 3 {
            vec![
                Vertex { x: x0, y: y0, z: z0, u: 0, v: 0, color: col },
                Vertex { x: x0, y: y0, z: z1, u: 1, v: 0, color: col },
                Vertex { x: x1, y: y0, z: z1, u: 1, v: 1, color: col },
                Vertex { x: x1, y: y0, z: z0, u: 0, v: 1, color: col },
            ]
        } else if quad == 4 {
            vec![
                Vertex { x: x1, y: y0, z: z0, u: 0, v: 0, color: col },
                Vertex { x: x1, y: y1, z: z0, u: 1, v: 0, color: col },
                Vertex { x: x1, y: y1, z: z1, u: 1, v: 1, color: col },
                Vertex { x: x1, y: y0, z: z1, u: 0, v: 1, color: col },
            ]
        } else {
            vec![
                Vertex { x: x0, y: y0, z: z0, u: 1, v: 0, color: col },
                Vertex { x: x0, y: y1, z: z0, u: 0, v: 0, color: col },
                Vertex { x: x0, y: y1, z: z1, u: 0, v: 1, color: col },
                Vertex { x: x0, y: y0, z: z1, u: 1, v: 1, color: col },
            ]
        };
        proof {
            assert(verts@ =~= quad_vertices(quad as int, *block));
        }
        verts
    }

    /// Build the full mesh as a sequence of draw batches.
    ///
    /// Walks the blocks in scan-index order, emits a quad for every
    /// visible face of every occupied block, and flushes the pending
    /// buffers into a batch whenever they exceed the soft ceilings of
    /// 9800 vertices or 4800 indices; the remainder is flushed at the
    /// end. Concatenating all batches' vertices reproduces the
    /// reference, unbatched stream, and every batch respects the
    /// ceilings.
    pub fn mesh(&self) -> (batches: Vec<MeshBatch>)
        requires
            self.wf(),
        ensures
            concat_batch_vertices(batches@) == mesh_vertices_upto(
                self.width,
                self.blocks@,
                volume(self.width),
            ),
            forall|k: int| 0 <= k < batches@.len() ==> (#[trigger] batches@[k]).wf(),
            batches@.len() >= 1,
            forall|k: int|
                0 <= k < batches@.len() - 1 ==> (#[trigger] batches@[k]).vertices@.len() > 9800
                    || batches@[k].indices@.len() > 4800,
    {
        let w = self.width;
        let n = cube_volume(w);
        let mut batches: Vec<MeshBatch> = Vec::new();
        let mut vertices: Vec<Vertex> = Vec::new();
        let mut indices: Vec<u16> = Vec::new();
        let mut bi: usize = 0;
        while bi < n
            invariant
                self.wf(),
                w == self.width,
                n == volume(w),
                bi <= n,
                vertices@.len() % 4 == 0,
                indices@.len() <= 4800,
                indices@ == quad_index_pattern(vertices@.len() as int / 4),
                indices@.len() == 6 * (vertices@.len() as int / 4),
                concat_batch_vertices(batches@) + vertices@ == mesh_vertices_upto(
                    w,
                    self.blocks@,
                    bi as int,
                ),
                forall|k: int| 0 <= k < batches@.len() ==> (#[trigger] batches@[k]).wf(),
                forall|k: int|
                    0 <= k < batches@.len() ==> (#[trigger] batches@[k]).vertices@.len() > 9800
                        || batches@[k].indices@.len() > 4800,
            decreases n - bi,
        {
            let block = &self.blocks[bi];
            proof {
                lemma_lin_delin(w, bi as int);
            }
            if !block.is_air() {
                let mut q: usize = 0;
                while q < 6
                    invariant
                        self.wf(),
                        w == self.width,
                        n == volume(w),
                        bi < n,
                        q <= 6,
                        in_cube(w, self.blocks@[bi as int].coord),
                        !self.blocks@[bi as int].spec_is_air(),
                        vertices@.len() % 4 == 0,
                        vertices@.len() <= 9800 + 4 * q,
                        indices@.len() <= 4800 + 6 * q,
                        indices@ == quad_index_pattern(vertices@.len() as int / 4),
                        indices@.len() == 6 * (vertices@.len() as int / 4),
                        concat_batch_vertices(batches@) + vertices@ == mesh_vertices_upto(
                            w,
                            self.blocks@,
                            bi as int,
                        ) + block_quads_upto(w, self.blocks@, bi as int, q as int),
                        forall|k: int| 0 <= k < batches@.len() ==> (#[trigger] batches@[k]).wf(),
                    decreases 6 - q,
                {
                    let block = &self.blocks[bi];
                    if self.quad_is_visible(q, block) {
                        let ghost faces_before = vertices@.len() as int / 4;
                        let ghost v1 = vertices@;
                        let ghost c1 = concat_batch_vertices(batches@);
                        let base = vertices.len() as u16;
                        let mut quad_verts = Self::get_quad_data(q, block);
                        let ghost qv = quad_verts@;
                        vertices.append(&mut quad_verts);
                        indices.push(base);
                        indices.push(base + 1);
                        indices.push(base + 2);
                        indices.push(base);
                        indices.push(base + 2);
                        indices.push(base + 3);
                        proof {
                            assert(vertices@.len() as int / 4 == faces_before + 1);
                            assert(indices@ =~= quad_index_pattern(faces_before + 1));
                            lemma_concat_associative(c1, v1, qv);
                            lemma_concat_associative(
                                mesh_vertices_upto(w, self.blocks@, bi as int),
                                block_quads_upto(w, self.blocks@, bi as int, q as int),
                                qv,
                            );
                        }
                    }
                    proof {
                        let blocksg = self.blocks@;
                        let ii = bi as int;
                        let qi = q as int;
                        assert(block_quads_upto(w, blocksg, ii, qi + 1) == block_quads_upto(
                            w,
                            blocksg,
                            ii,
                            qi,
                        ) + (if !blocksg[ii].spec_is_air() && face_visible(
                            w,
                            blocksg,
                            blocksg[ii].coord,
                            qi,
                        ) {
                            quad_vertices(qi, blocksg[ii])
                        } else {
                            Seq::empty()
                        }));
                        assert(concat_batch_vertices(batches@) + vertices@ =~= mesh_vertices_upto(
                            w,
                            blocksg,
                            ii,
                        ) + block_quads_upto(w, blocksg, ii, qi + 1));
                    }
                    q = q + 1;
                }
            } else {
                proof {
                    lemma_air_block_quads_empty(w, self.blocks@, bi as int);
                    assert(concat_batch_vertices(batches@) + vertices@ =~= mesh_vertices_upto(
                        w,
                        self.blocks@,
                        bi as int,
                    ) + block_quads_upto(w, self.blocks@, bi as int, 6));
                }
            }
            if vertices.len() > 9800 || indices.len() > 4800 {
                let full = MeshBatch { vertices, indices };
                proof {
                    lemma_concat_batch_vertices_push(batches@, full);
                }
                batches.push(full);
                vertices = Vec::new();
                indices = Vec::new();
            }
            bi = bi + 1;
        }
        let rest = MeshBatch { vertices, indices };
        proof {
            lemma_concat_batch_vertices_push(batches@, rest);
        }
        batches.push(rest);
        batches
    }
}

/// An empty block contributes no quads.
proof fn lemma_air_block_quads_empty(w: u16, blocks: Seq<Block>, i: int)
    requires
        blocks[i].spec_is_air(),
    ensures
        block_quads_upto(w, blocks, i, 6).len() == 0,
{
    assert forall|q: int| 0 <= q <= 6 implies block_quads_upto(w, blocks, i, q).len() == 0 by {
        lemma_air_block_quads_empty_upto(w, blocks, i, q);
    }
}

proof fn lemma_air_block_quads_empty_upto(w: u16, blocks: Seq<Block>, i: int, q: int)
    requires
        blocks[i].spec_is_air(),
    ensures
        block_quads_upto(w, blocks, i, q).len() == 0,
    decreases q,
{
    if q > 0 {
        lemma_air_block_quads_empty_upto(w, blocks, i, q - 1);
    }
}

proof fn lemma_concat_batch_vertices_push(bs: Seq<MeshBatch>, b: MeshBatch)
    ensures
        concat_batch_vertices(bs.push(b)) == concat_batch_vertices(bs) + b.vertices@,
{
    assert(bs.push(b).drop_last() =~= bs);
    assert(bs.push(b).last() == b);
}

} // verus!
