//! Index arithmetic over BSP lumps: the container header, face edge
//! spans, displacement grids, triangle fans and node links.
use vstd::prelude::*;

use super::data::BspError;
use std::collections::BTreeSet;

verus! {

/// The BSP container magic, `VBSP`.
pub open spec fn spec_bsp_magic() -> Seq<u8> {
    seq![0x56u8, 0x42u8, 0x53u8, 0x50u8]
}

/// Little-endian `u32` at `s[p..p + 4]`.
pub open spec fn spec_le_u32(s: Seq<u8>, p: int) -> u32 {
    (s[p] as int + s[p + 1] as int * 0x100 + s[p + 2] as int * 0x10000 + s[p + 3] as int * 0x1000000) as u32
}

/// Why the container header was refused, when it was.
pub open spec fn spec_bsp_version(bytes: Seq<u8>) -> Result<u32, Seq<char>> {
    if bytes.len() < 8 {
        Err("header too short"@)
    } else if bytes.take(4) != spec_bsp_magic() {
        Err("missing VBSP magic"@)
    } else {
        Ok(spec_le_u32(bytes, 4))
    }
}

/// The container version from the first eight bytes (read before a full
/// parse, so that a short file of an unknown version is reported as
/// such).
pub fn bsp_version(bytes: &[u8]) -> (r: Result<u32, BspError>)
    ensures
        match spec_bsp_version(bytes@) {
            Ok(v) => r == Ok::<u32, BspError>(v),
            Err(m) => r matches Err(BspError::Decode { message }) && message@ == m,
        },
{
    if bytes.len() < 8 {
        return Err(BspError::Decode { message: "header too short".to_owned() });
    }
    if !(bytes[0] == 0x56 && bytes[1] == 0x42 && bytes[2] == 0x53 && bytes[3] == 0x50) {
        proof {
            if bytes@.take(4) == spec_bsp_magic() {
                assert(bytes@.take(4)[0] == bytes@[0]);
                assert(bytes@.take(4)[1] == bytes@[1]);
                assert(bytes@.take(4)[2] == bytes@[2]);
                assert(bytes@.take(4)[3] == bytes@[3]);
            }
        }
        return Err(BspError::Decode { message: "missing VBSP magic".to_owned() });
    }
    assert(bytes@.take(4) =~= spec_bsp_magic());
    let v = bytes[4] as u32 + bytes[5] as u32 * 0x100 + bytes[6] as u32 * 0x10000 + bytes[7] as u32 * 0x1000000;
    Ok(v)
}

/// The container versions the map loader reads: 19 and 20.
pub open spec fn spec_supported_bsp_version(version: u32) -> bool {
    version == 19 || version == 20
}

/// The container version when the loader reads it: a refused header is
/// reported as by `bsp_version`, any other version than 19 or 20 as
/// unsupported, before anything else is decoded.
pub fn supported_bsp_version(bytes: &[u8]) -> (r: Result<u32, BspError>)
    ensures
        match spec_bsp_version(bytes@) {
            Ok(v) => if spec_supported_bsp_version(v) {
                r == Ok::<u32, BspError>(v)
            } else {
                r == Err::<u32, BspError>(BspError::UnsupportedVersion { version: v })
            },
            Err(m) => r matches Err(BspError::Decode { message }) && message@ == m,
        },
{
    let version = bsp_version(bytes)?;
    if version == 19 || version == 20 {
        Ok(version)
    } else {
        Err(BspError::UnsupportedVersion { version })
    }
}

/// `2^n`.
pub open spec fn spec_pow2(n: nat) -> nat
    decreases n,
{
    if n == 0 {
        1
    } else {
        2 * spec_pow2((n - 1) as nat)
    }
}

/// `(2^power + 1)^2` with `power` clamped to `0..=32`, saturating at
/// `i64::MAX`: the vertex count of a displacement grid.
pub open spec fn spec_displacement_vertex_count(power: i32) -> int {
    let p: nat = if power < 0 {
        0
    } else if power > 32 {
        32
    } else {
        power as nat
    };
    let side = spec_pow2(p) + 1;
    if side * side > i64::MAX {
        i64::MAX as int
    } else {
        (side * side) as int
    }
}

pub fn displacement_vertex_count(power: i32) -> (r: i64)
    ensures
        r == spec_displacement_vertex_count(power),
{
    let p: u32 = if power < 0 {
        0
    } else if power > 32 {
        32
    } else {
        power as u32
    };
    let mut pow: i64 = 1;
    let mut k: u32 = 0;
    while k < p
        invariant
            k <= p <= 32,
            pow == spec_pow2(k as nat),
            pow <= 0x1_0000_0000,
        decreases p - k,
    {
        proof {
            lemma_pow2_bound(k as nat + 1);
        }
        pow = pow * 2;
        k = k + 1;
    }
    let side = pow + 1;
    match side.checked_mul(side) {
        Some(v) => v,
        None => i64::MAX,
    }
}

pub proof fn lemma_pow2_bound(n: nat)
    requires
        n <= 32,
    ensures
        spec_pow2(n) <= 0x1_0000_0000,
        spec_pow2(n) >= 1,
    decreases n,
{
    if n > 0 {
        lemma_pow2_bound((n - 1) as nat);
    }
    lemma_pow2_monotone(n, 32);
    assert(spec_pow2(32) == 0x1_0000_0000) by {
        reveal_with_fuel(spec_pow2, 33);
    }
}

pub proof fn lemma_pow2_monotone(a: nat, b: nat)
    requires
        a <= b,
    ensures
        spec_pow2(a) <= spec_pow2(b),
    decreases b,
{
    if a < b {
        lemma_pow2_monotone(a, (b - 1) as nat);
    }
}

/// A fan of `n - 2` triangles over a convex polygon of `n` vertices:
/// `(0, k, k + 1)` for each `k` in `1..n - 1`.
pub open spec fn spec_fan_indices(n: nat) -> Seq<u32> {
    if n < 3 {
        Seq::empty()
    } else {
        Seq::new(
            (3 * (n - 2)) as nat,
            |i: int| if i % 3 == 0 { 0u32 } else if i % 3 == 1 { (i / 3 + 1) as u32 } else { (i / 3 + 2) as u32 },
        )
    }
}

/// Triangle-fan indices for a convex face; too many vertices for `u32`
/// indices is an error.
pub fn fan_indices(vertex_count: usize) -> (r: Result<Vec<u32>, BspError>)
    ensures
        vertex_count > 0x1_0000_0000 ==> (r matches Err(BspError::TooLarge { item }) && item@ == "indices"@),
        vertex_count <= 0x1_0000_0000 ==> r is Ok && r->Ok_0@ == spec_fan_indices(vertex_count as nat),
{
    if vertex_count < 3 {
        let v: Vec<u32> = Vec::new();
        assert(v@ =~= spec_fan_indices(vertex_count as nat));
        return Ok(v);
    }
    if vertex_count - 1 > 0xffff_ffff {
        return Err(BspError::TooLarge { item: "indices" });
    }
    let mut indices: Vec<u32> = Vec::new();
    let mut index: usize = 1;
    while index < vertex_count - 1
        invariant
            3 <= vertex_count <= 0x1_0000_0000,
            1 <= index <= vertex_count - 1,
            indices@.len() == 3 * (index - 1),
            forall|i: int| 0 <= i < indices@.len() ==> #[trigger] indices@[i] == spec_fan_indices(vertex_count as nat)[i],
        decreases vertex_count - index,
    {
        let ghost before = indices@;
        indices.push(0);
        indices.push(index as u32);
        indices.push((index + 1) as u32);
        proof {
            let f = spec_fan_indices(vertex_count as nat);
            let b = 3 * (index - 1);
            assert forall|i: int| 0 <= i < indices@.len() implies #[trigger] indices@[i] == f[i] by {
                if i < b {
                    assert(indices@[i] == before[i]);
                } else {
                    assert((b + 0) % 3 == 0 && (b + 0) / 3 == index - 1) by (nonlinear_arith)
                        requires b == 3 * (index - 1);
                    assert((b + 1) % 3 == 1 && (b + 1) / 3 == index - 1) by (nonlinear_arith)
                        requires b == 3 * (index - 1);
                    assert((b + 2) % 3 == 2 && (b + 2) / 3 == index - 1) by (nonlinear_arith)
                        requires b == 3 * (index - 1);
                }
            }
        }
        index = index + 1;
    }
    assert(indices@ =~= spec_fan_indices(vertex_count as nat));
    Ok(indices)
}

/// Whether grid point `p` (column, row) of a displacement with `steps`
/// cells per side is one of the `grid_len` grid vertices (stored
/// column-major, `steps + 1` per column).
pub open spec fn spec_in_grid(steps: usize, grid_len: usize, p: (usize, usize)) -> bool {
    p.0 * (steps + 1) + p.1 < grid_len
}

/// A triangle's corners when all three are grid vertices, else nothing.
pub open spec fn spec_kept_triangle(
    steps: usize,
    grid_len: usize,
    a: (usize, usize),
    b: (usize, usize),
    c: (usize, usize),
) -> Seq<(usize, usize)> {
    if spec_in_grid(steps, grid_len, a) && spec_in_grid(steps, grid_len, b) && spec_in_grid(steps, grid_len, c) {
        seq![a, b, c]
    } else {
        Seq::empty()
    }
}

/// The two triangles of cell `(col, row)`, each kept when whole.
pub open spec fn spec_cell_triangles(steps: usize, grid_len: usize, col: usize, row: usize) -> Seq<(usize, usize)> {
    let c1 = (col + 1) as usize;
    let r1 = (row + 1) as usize;
    spec_kept_triangle(steps, grid_len, (col, row), (c1, row), (col, r1)) + spec_kept_triangle(
        steps,
        grid_len,
        (c1, row),
        (c1, r1),
        (col, r1),
    )
}

/// The triangles of the first `n` cells of column `col`.
pub open spec fn spec_column_triangles(steps: usize, grid_len: usize, col: usize, n: nat) -> Seq<(usize, usize)>
    decreases n,
{
    if n == 0 {
        Seq::empty()
    } else {
        spec_column_triangles(steps, grid_len, col, (n - 1) as nat) + spec_cell_triangles(
            steps,
            grid_len,
            col,
            (n - 1) as usize,
        )
    }
}

/// The triangles of the first `n` columns of cells.
pub open spec fn spec_grid_triangles(steps: usize, grid_len: usize, n: nat) -> Seq<(usize, usize)>
    decreases n,
{
    if n == 0 {
        Seq::empty()
    } else {
        spec_grid_triangles(steps, grid_len, (n - 1) as nat) + spec_column_triangles(
            steps,
            grid_len,
            (n - 1) as usize,
            steps as nat,
        )
    }
}

/// Whether grid point `(c, r)` is a grid vertex.
fn in_grid(steps: usize, grid_len: usize, c: usize, r: usize) -> (b: bool)
    requires
        c <= steps,
        r <= steps,
        (steps + 1) * (steps + 1) <= usize::MAX,
    ensures
        b == spec_in_grid(steps, grid_len, (c, r)),
{
    assert(steps + 1 <= (steps + 1) * (steps + 1)) by (nonlinear_arith);
    let side = steps + 1;
    assert(c * side + r <= side * side) by (nonlinear_arith)
        requires
            c <= steps,
            r <= steps,
            side == steps + 1,
    ;
    c * side + r < grid_len
}

/// Appends a triangle's corners when it is whole.
fn push_kept_triangle(
    out: &mut Vec<(usize, usize)>,
    steps: usize,
    grid_len: usize,
    a: (usize, usize),
    b: (usize, usize),
    c: (usize, usize),
)
    requires
        a.0 <= steps && a.1 <= steps && b.0 <= steps && b.1 <= steps && c.0 <= steps && c.1 <= steps,
        (steps + 1) * (steps + 1) <= usize::MAX,
    ensures
        final(out)@ == old(out)@ + spec_kept_triangle(steps, grid_len, a, b, c),
{
    if in_grid(steps, grid_len, a.0, a.1) && in_grid(steps, grid_len, b.0, b.1) && in_grid(steps, grid_len, c.0, c.1) {
        let ghost before = out@;
        out.push(a);
        out.push(b);
        out.push(c);
        assert(out@ =~= before + seq![a, b, c]);
    } else {
        assert(out@ =~= out@ + Seq::<(usize, usize)>::empty());
    }
}

/// The corners, as `(column, row)` grid points, of a displacement's
/// triangles: two per cell, cells column by column, each triangle kept
/// only when all three corners are among the `grid_len` grid vertices.
pub fn displacement_triangle_corners(steps: usize, grid_len: usize) -> (r: Vec<(usize, usize)>)
    requires
        (steps + 1) * (steps + 1) <= usize::MAX,
    ensures
        r@ == spec_grid_triangles(steps, grid_len, steps as nat),
{
    let mut out: Vec<(usize, usize)> = Vec::new();
    let mut col: usize = 0;
    while col < steps
        invariant
            col <= steps,
            (steps + 1) * (steps + 1) <= usize::MAX,
            out@ == spec_grid_triangles(steps, grid_len, col as nat),
        decreases steps - col,
    {
        let ghost done = out@;
        let mut row: usize = 0;
        while row < steps
            invariant
                col < steps,
                row <= steps,
                (steps + 1) * (steps + 1) <= usize::MAX,
                out@ == done + spec_column_triangles(steps, grid_len, col, row as nat),
            decreases steps - row,
        {
            let ghost before = out@;
            push_kept_triangle(&mut out, steps, grid_len, (col, row), (col + 1, row), (col, row + 1));
            push_kept_triangle(&mut out, steps, grid_len, (col + 1, row), (col + 1, row + 1), (col, row + 1));
            assert(out@ =~= done + spec_column_triangles(steps, grid_len, col, (row + 1) as nat));
            row = row + 1;
        }
        assert(out@ =~= spec_grid_triangles(steps, grid_len, (col + 1) as nat));
        col = col + 1;
    }
    out
}

/// Brush contents that block walking: solid and player clip.
pub const CONTENTS_WALK_SOLID: i32 = 0x0001_0001;

/// Brush contents that are liquid: slime and water.
pub const CONTENTS_LIQUID: i32 = 0x0000_0030;

/// What a brush is to walk collision.
#[derive(Debug, Clone, Copy, PartialEq, Eq)]
pub enum BrushCollision {
    Solid,
    Water,
}

/// A brush's part in walk collision: water when its contents are liquid,
/// else solid when they block walking, else none.
pub fn brush_collision(contents: i32) -> (r: Option<BrushCollision>)
    ensures
        contents & CONTENTS_LIQUID != 0 ==> r == Some(BrushCollision::Water),
        contents & CONTENTS_LIQUID == 0 && contents & CONTENTS_WALK_SOLID != 0 ==> r == Some(BrushCollision::Solid),
        contents & CONTENTS_LIQUID == 0 && contents & CONTENTS_WALK_SOLID == 0 ==> r is None,
{
    if contents & CONTENTS_LIQUID != 0 {
        Some(BrushCollision::Water)
    } else if contents & CONTENTS_WALK_SOLID != 0 {
        Some(BrushCollision::Solid)
    } else {
        None
    }
}

/// Sky and 2D-sky surface flags.
pub const SURFACE_SKY_FLAGS: i32 = 0x0006;

/// Whether a brush side is sky: not a bevel, and its texinfo (when there
/// is one) is sky or 2D sky.
pub fn brush_side_is_sky(bevel: i16, texinfo_flags: Option<i32>) -> (r: bool)
    ensures
        r == (bevel == 0 && (texinfo_flags matches Some(f) && f & SURFACE_SKY_FLAGS != 0)),
{
    bevel == 0 && match texinfo_flags {
        Some(f) => f & SURFACE_SKY_FLAGS != 0,
        None => false,
    }
}

/// A count as `u32`, saturating.
pub fn count_to_u32(count: usize) -> (r: u32)
    ensures
        r == (if count > u32::MAX { u32::MAX as int } else { count as int }),
{
    if count > 0xffff_ffff {
        0xffff_ffff
    } else {
        count as u32
    }
}

/// Index into the map's brush models ("bmodels"), the geometry a brush
/// entity such as a door refers to as `*3`.
#[derive(Clone, Copy, Debug, PartialEq, Eq, Hash, PartialOrd, Ord)]
pub struct ModelIndex(pub usize);

impl ModelIndex {
    pub fn new(index: usize) -> (r: Self)
        ensures
            r.0 == index,
    {
        ModelIndex(index)
    }

    pub fn get(self) -> (r: usize)
        ensures
            r == self.0,
    {
        self.0
    }
}

/// Index into the map's brush lump.
#[derive(Clone, Copy, Debug, PartialEq, Eq, Hash, PartialOrd, Ord)]
pub struct BrushIndex(pub usize);

impl BrushIndex {
    pub fn new(index: usize) -> (r: Self)
        ensures
            r.0 == index,
    {
        BrushIndex(index)
    }

    pub fn get(self) -> (r: usize)
        ensures
            r == self.0,
    {
        self.0
    }
}

/// A BSP node's child link: a node index, or (stored as its bitwise
/// complement, a negative number) a leaf index.
#[derive(Clone, Copy, Debug, PartialEq, Eq)]
pub enum NodeChild {
    Node(usize),
    Leaf(usize),
}

impl NodeChild {
    pub fn decode(raw: i32) -> (r: Option<Self>)
        ensures
            raw < 0 ==> r == Some(NodeChild::Leaf((-raw - 1) as usize)),
            raw >= 0 ==> r == Some(NodeChild::Node(raw as usize)),
    {
        if raw < 0 {
            Some(NodeChild::Leaf((-(raw + 1)) as usize))
        } else {
            Some(NodeChild::Node(raw as usize))
        }
    }
}

/// The surfedge span of one face, and its displacement link.
#[derive(Clone, Copy, Debug, PartialEq, Eq)]
pub struct FaceEdges {
    pub first_edge: i32,
    pub edge_count: i16,
    pub displacement: i16,
}

/// Whether surfedge `index` leads to a vertex outside `0..vertex_count`,
/// or nowhere.
pub open spec fn spec_bad_surfedge(surfedges: Seq<i32>, edges: Seq<[u16; 2]>, vertex_count: int, index: int) -> bool {
    if index < 0 || index >= surfedges.len() {
        true
    } else {
        let s = surfedges[index];
        let e = if s < 0 { -s } else { s as int };
        e >= edges.len() || edges[e][0] >= vertex_count || edges[e][1] >= vertex_count
    }
}

/// Whether any surfedge of the face's span is bad.
pub open spec fn spec_face_references_invalid_vertex(
    face: FaceEdges,
    surfedges: Seq<i32>,
    edges: Seq<[u16; 2]>,
    vertex_count: int,
) -> bool {
    exists|k: int|
        0 <= k < face.edge_count && #[trigger] spec_bad_surfedge(surfedges, edges, vertex_count, face.first_edge + k)
}

fn face_references_invalid_vertex(face: FaceEdges, surfedges: &[i32], edges: &[[u16; 2]], vertex_count: usize) -> (r: bool)
    ensures
        r == spec_face_references_invalid_vertex(face, surfedges@, edges@, vertex_count as int),
{
    let count: i64 = if face.edge_count < 0 {
        0
    } else {
        face.edge_count as i64
    };
    let start = face.first_edge as i64;
    let mut k: i64 = 0;
    while k < count
        invariant
            0 <= k <= count,
            count <= 0x7fff,
            count == (if face.edge_count < 0 { 0 } else { face.edge_count as int }),
            start == face.first_edge,
            forall|j: int| 0 <= j < k ==> !#[trigger] spec_bad_surfedge(surfedges@, edges@, vertex_count as int, face.first_edge + j),
        decreases count - k,
    {
        let index = start + k;
        let bad = if index < 0 || (index as u64) >= (surfedges.len() as u64) {
            true
        } else {
            let s = surfedges[index as usize];
            let e: u64 = if s < 0 {
                (-(s as i64)) as u64
            } else {
                s as u64
            };
            if e >= edges.len() as u64 {
                true
            } else {
                let edge = edges[e as usize];
                (edge[0] as usize) >= vertex_count || (edge[1] as usize) >= vertex_count
            }
        };
        if bad {
            assert(spec_bad_surfedge(surfedges@, edges@, vertex_count as int, face.first_edge + k));
            return true;
        }
        k = k + 1;
    }
    false
}

/// Faces whose surfedges reach a missing edge or an out-of-range vertex
/// get no edges and no displacement, so that every later pass skips them.
pub fn discard_faces_with_invalid_vertices(faces: &mut Vec<FaceEdges>, surfedges: &[i32], edges: &[[u16; 2]], vertex_count: usize)
    ensures
        final(faces)@.len() == old(faces)@.len(),
        forall|i: int| 0 <= i < old(faces)@.len() ==> #[trigger] final(faces)@[i] == (if spec_face_references_invalid_vertex(
            old(faces)@[i],
            surfedges@,
            edges@,
            vertex_count as int,
        ) {
            FaceEdges { edge_count: 0i16, displacement: -1i16, ..old(faces)@[i] }
        } else {
            old(faces)@[i]
        }),
        forall|i: int, k: int|
            0 <= i < final(faces)@.len() && 0 <= k < final(faces)@[i].edge_count ==> !#[trigger] spec_bad_surfedge(
                surfedges@,
                edges@,
                vertex_count as int,
                final(faces)@[i].first_edge + k,
            ),
{
    let mut i: usize = 0;
    while i < faces.len()
        invariant
            i <= faces.len(),
            faces@.len() == old(faces)@.len(),
            forall|j: int| i <= j < faces@.len() ==> faces@[j] == old(faces)@[j],
            forall|j: int| 0 <= j < i ==> #[trigger] faces@[j] == (if spec_face_references_invalid_vertex(
                old(faces)@[j],
                surfedges@,
                edges@,
                vertex_count as int,
            ) {
                FaceEdges { edge_count: 0i16, displacement: -1i16, ..old(faces)@[j] }
            } else {
                old(faces)@[j]
            }),
        decreases faces.len() - i,
    {
        let face = faces[i];
        if face_references_invalid_vertex(face, surfedges, edges, vertex_count) {
            faces.set(i, FaceEdges { edge_count: 0, displacement: -1, ..face });
        }
        i = i + 1;
    }
    proof {
        assert forall|j: int, k: int|
            0 <= j < faces@.len() && 0 <= k < faces@[j].edge_count implies !#[trigger] spec_bad_surfedge(
                surfedges@,
                edges@,
                vertex_count as int,
                faces@[j].first_edge + k,
            ) by {
            let _ = faces@[j];
            if spec_bad_surfedge(surfedges@, edges@, vertex_count as int, faces@[j].first_edge + k) {
                assert(faces@[j] == old(faces)@[j]);
                assert(spec_face_references_invalid_vertex(old(faces)@[j], surfedges@, edges@, vertex_count as int));
            }
        }
    }
}


/// The vertex surfedge `index` starts at (its edge's first vertex, or
/// second for a reversed surfedge), when the surfedge and edge exist.
pub open spec fn spec_surfedge_vertex(surfedges: Seq<i32>, edges: Seq<[u16; 2]>, index: int) -> Option<u16> {
    if index < 0 || index >= surfedges.len() {
        None
    } else {
        let s = surfedges[index];
        let e = if s < 0 { -s } else { s as int };
        if e >= edges.len() {
            None
        } else if s >= 0 {
            Some(edges[e][0])
        } else {
            Some(edges[e][1])
        }
    }
}

/// The vertex indices of the first `k` surfedges of a face, in winding
/// order, missing ones dropped.
pub open spec fn spec_face_vertex_indices(first_edge: i32, k: nat, surfedges: Seq<i32>, edges: Seq<[u16; 2]>) -> Seq<u16>
    decreases k,
{
    if k == 0 {
        Seq::empty()
    } else {
        let rest = spec_face_vertex_indices(first_edge, (k - 1) as nat, surfedges, edges);
        match spec_surfedge_vertex(surfedges, edges, first_edge + k - 1) {
            Some(v) => rest.push(v),
            None => rest,
        }
    }
}

/// A face's vertex indices in winding order, following its surfedges
/// through their edges; missing surfedges or edges are skipped.
pub fn face_vertex_indices(face: FaceEdges, surfedges: &[i32], edges: &[[u16; 2]]) -> (r: Vec<u16>)
    ensures
        r@ == spec_face_vertex_indices(
            face.first_edge,
            (if face.edge_count < 0 { 0 } else { face.edge_count as nat }),
            surfedges@,
            edges@,
        ),
{
    let count: i64 = if face.edge_count < 0 {
        0
    } else {
        face.edge_count as i64
    };
    let start = face.first_edge as i64;
    let mut out: Vec<u16> = Vec::new();
    let mut k: i64 = 0;
    while k < count
        invariant
            0 <= k <= count <= 0x7fff,
            count == (if face.edge_count < 0 { 0 } else { face.edge_count as int }),
            start == face.first_edge,
            out@ == spec_face_vertex_indices(face.first_edge, k as nat, surfedges@, edges@),
        decreases count - k,
    {
        let index = start + k;
        if index >= 0 && (index as u64) < (surfedges.len() as u64) {
            let s = surfedges[index as usize];
            let e: u64 = if s < 0 {
                (-(s as i64)) as u64
            } else {
                s as u64
            };
            if e < edges.len() as u64 {
                let edge = edges[e as usize];
                out.push(if s >= 0 { edge[0] } else { edge[1] });
            }
        }
        k = k + 1;
    }
    out
}

/// `SURF_SKY2D | SURF_SKY | SURF_TRIGGER | SURF_NODRAW | SURF_HINT |
/// SURF_SKIP`: the texture flags of surfaces a preview never draws.
pub const HIDDEN_SURFACE_FLAGS: i32 = 0x3c6;

/// A face is drawn unless its texinfo is missing or carries a sky,
/// trigger, hint, skip or nodraw flag.
pub fn face_is_visible(texinfo: i16, texinfo_flags: &[i32]) -> (r: bool)
    ensures
        r == (0 <= texinfo < texinfo_flags@.len() && texinfo_flags@[texinfo as int] & HIDDEN_SURFACE_FLAGS == 0),
{
    if texinfo < 0 || (texinfo as usize) >= texinfo_flags.len() {
        return false;
    }
    texinfo_flags[texinfo as usize] & HIDDEN_SURFACE_FLAGS == 0
}

// --- visibility flood fill ------------------------------------------------------

/// A map's potentially-visible sets, one row per cluster (`None` where the
/// visibility lump has no readable row), each row one flag per cluster.
pub struct PvsRows {
    pub cluster_count: usize,
    pub rows: Vec<Option<Vec<bool>>>,
}

/// The views of PVS rows.
pub open spec fn rows_view(rows: Seq<Option<Vec<bool>>>) -> Seq<Option<Seq<bool>>> {
    Seq::new(
        rows.len(),
        |i: int|
            match rows[i] {
                Some(r) => Some(r@),
                None => None,
            },
    )
}

impl PvsRows {
    /// One row slot per cluster, and every row one flag per cluster.
    pub open spec fn wf(&self) -> bool {
        &&& self.rows@.len() == self.cluster_count
        &&& forall|i: int|
            0 <= i < self.rows@.len() ==> (#[trigger] self.rows@[i] matches Some(r) ==> r@.len()
                == self.cluster_count)
    }
}

/// Cluster `y` is in the potentially visible set of cluster `x`.
pub open spec fn spec_pvs_edge(rows: Seq<Option<Seq<bool>>>, x: int, y: int) -> bool {
    &&& 0 <= x < rows.len()
    &&& rows[x] is Some
    &&& 0 <= y < rows[x]->0.len()
    &&& rows[x]->0[y]
}

/// Clusters `x` and `y` are joined by a PVS edge, whichever row holds it:
/// the flood treats the PVS as an undirected graph.
pub open spec fn spec_pvs_link(rows: Seq<Option<Seq<bool>>>, x: int, y: int) -> bool {
    spec_pvs_edge(rows, x, y) || spec_pvs_edge(rows, y, x)
}

/// A set of clusters (as flags) that no PVS link leaves.
pub open spec fn spec_pvs_closed(rows: Seq<Option<Seq<bool>>>, s: Seq<bool>) -> bool {
    forall|x: int, y: int| 0 <= x < s.len() && s[x] && #[trigger] spec_pvs_link(rows, x, y) ==> 0 <= y < s.len() && s[y]
}

/// Number of unset flags.
pub open spec fn spec_count_false(s: Seq<bool>) -> nat
    decreases s.len(),
{
    if s.len() == 0 {
        0
    } else {
        spec_count_false(s.drop_last()) + if s.last() { 0nat } else { 1nat }
    }
}

pub proof fn lemma_count_false_set(s: Seq<bool>, i: int)
    requires
        0 <= i < s.len(),
        !s[i],
    ensures
        spec_count_false(s.update(i, true)) + 1 == spec_count_false(s),
    decreases s.len(),
{
    if i < s.len() - 1 {
        assert(s.update(i, true).drop_last() =~= s.drop_last().update(i, true));
        lemma_count_false_set(s.drop_last(), i);
    } else {
        assert(s.update(i, true).drop_last() =~= s.drop_last());
    }
}

pub proof fn lemma_count_false_all(n: nat)
    ensures
        spec_count_false(Seq::new(n, |i: int| false)) == n,
    decreases n,
{
    if n > 0 {
        assert(Seq::new(n, |i: int| false).drop_last() =~= Seq::new((n - 1) as nat, |i: int| false));
        lemma_count_false_all((n - 1) as nat);
    }
}

/// `n` unset flags.
fn all_false(n: usize) -> (r: Vec<bool>)
    ensures
        r@ == Seq::new(n as nat, |i: int| false),
{
    let mut v: Vec<bool> = Vec::new();
    let mut i: usize = 0;
    while i < n
        invariant
            i <= n,
            v@ =~= Seq::new(i as nat, |j: int| false),
        decreases n - i,
    {
        v.push(false);
        i = i + 1;
        assert(v@ =~= Seq::new(i as nat, |j: int| false));
    }
    v
}

/// Whether clusters `x` and `y` are joined by a PVS edge in either row.
fn pvs_linked(p: &PvsRows, x: usize, y: usize) -> (r: bool)
    requires
        p.wf(),
        x < p.cluster_count,
        y < p.cluster_count,
    ensures
        r == spec_pvs_link(rows_view(p.rows@), x as int, y as int),
{
    let ghost rows = rows_view(p.rows@);
    assert(rows[x as int] == match p.rows@[x as int] {
        Some(r) => Some(r@),
        None => None::<Seq<bool>>,
    });
    assert(rows[y as int] == match p.rows@[y as int] {
        Some(r) => Some(r@),
        None => None::<Seq<bool>>,
    });
    let forward = match &p.rows[x] {
        Some(row) => row[y],
        None => false,
    };
    let backward = match &p.rows[y] {
        Some(row) => row[x],
        None => false,
    };
    forward || backward
}

/// Every cluster reachable from `from` by following PVS edges, treated as
/// an undirected graph (an edge in either cluster's row joins the two):
/// the smallest link-closed set of clusters that holds `from`. A map
/// without visibility gives no flags; a start outside the clusters gives
/// none set.
pub fn reachable_clusters(pvs: Option<&PvsRows>, from: i16) -> (r: Vec<bool>)
    requires
        pvs matches Some(p) ==> p.wf(),
    ensures
        pvs is None ==> r@.len() == 0,
        pvs matches Some(p) ==> {
            let rows = rows_view(p.rows@);
            let n = p.cluster_count as int;
            &&& r@.len() == n
            &&& (from < 0 || from >= n) ==> forall|i: int| 0 <= i < n ==> !r@[i]
            &&& (0 <= from < n) ==> {
                &&& r@[from as int]
                &&& spec_pvs_closed(rows, r@)
                &&& forall|s: Seq<bool>|
                    s.len() == n && s[from as int] && #[trigger] spec_pvs_closed(rows, s) ==> forall|i: int|
                        0 <= i < n && r@[i] ==> s[i]
            }
        },
{
    let p = match pvs {
        Some(p) => p,
        None => return Vec::new(),
    };
    let n = p.cluster_count;
    let ghost rows = rows_view(p.rows@);
    let mut reached = all_false(n);
    if from < 0 || (from as usize) >= n {
        return reached;
    }
    let start = from as usize;
    proof {
        lemma_count_false_all(n as nat);
        lemma_count_false_set(reached@, start as int);
    }
    reached.set(start, true);
    let mut remaining: usize = n - 1;
    let mut stack: Vec<usize> = Vec::new();
    stack.push(start);
    proof {
        assert(stack@[0] == start);
        assert(stack@.contains(start));
        assert forall|i: int| 0 <= i < n && i != start ==> !reached@[i] by {}
    }
    while stack.len() > 0
        invariant
            p.wf(),
            n == p.cluster_count,
            rows == rows_view(p.rows@),
            start < n,
            reached@.len() == n,
            reached@[start as int],
            remaining == spec_count_false(reached@),
            forall|k: int| 0 <= k < stack@.len() ==> #[trigger] stack@[k] < n && reached@[stack@[k] as int],
            forall|x: int, y: int|
                0 <= x < n && reached@[x] && !stack@.contains(x as usize) && #[trigger] spec_pvs_link(rows, x, y) ==> 0 <= y
                    < n && reached@[y],
            forall|s: Seq<bool>|
                s.len() == n && s[start as int] && #[trigger] spec_pvs_closed(rows, s) ==> forall|i: int|
                    0 <= i < n && reached@[i] ==> s[i],
        decreases remaining, stack@.len(),
    {
        let ghost old_stack = stack@;
        let x = stack.pop().unwrap();
        let ghost popped = stack@;
        proof {
            assert(old_stack =~= popped.push(x));
            assert forall|z: usize| z != x && !popped.contains(z) implies !old_stack.contains(z) by {
                if old_stack.contains(z) {
                    let k = choose|k: int| 0 <= k < old_stack.len() && old_stack[k] == z;
                    if k < popped.len() {
                        assert(popped[k] == z);
                    }
                }
            }
        }
        let ghost before_stack = stack@;
        let ghost before_reached = reached@;
        let mut y: usize = 0;
        while y < n
            invariant
                p.wf(),
                n == p.cluster_count,
                rows == rows_view(p.rows@),
                x < n,
                start < n,
                y <= n,
                reached@.len() == n,
                reached@[start as int],
                reached@[x as int],
                remaining == spec_count_false(reached@),
                remaining <= spec_count_false(before_reached),
                forall|i: int| 0 <= i < n && before_reached[i] ==> reached@[i],
                stack@.len() >= before_stack.len(),
                stack@.subrange(0, before_stack.len() as int) == before_stack,
                stack@.len() > before_stack.len() ==> remaining < spec_count_false(before_reached),
                forall|k: int| 0 <= k < stack@.len() ==> #[trigger] stack@[k] < n && reached@[stack@[k] as int],
                forall|k: int| before_stack.len() <= k < stack@.len() ==> !before_reached[#[trigger] stack@[k] as int],
                forall|i: int| 0 <= i < n && reached@[i] && !before_reached[i] ==> stack@.contains(i as usize),
                forall|j: int| 0 <= j < y && #[trigger] spec_pvs_link(rows, x as int, j) ==> reached@[j],
                forall|s: Seq<bool>|
                    s.len() == n && s[start as int] && #[trigger] spec_pvs_closed(rows, s) ==> forall|i: int|
                        0 <= i < n && reached@[i] ==> s[i],
            decreases n - y,
        {
            if pvs_linked(p, x, y) && !reached[y] {
                proof {
                    lemma_count_false_set(reached@, y as int);
                    assert forall|s: Seq<bool>|
                        s.len() == n && s[start as int] && #[trigger] spec_pvs_closed(rows, s) implies forall|i: int|
                            0 <= i < n && reached@.update(y as int, true)[i] ==> s[i] by {
                        assert(spec_pvs_link(rows, x as int, y as int));
                        assert(s[x as int]);
                    }
                }
                reached.set(y, true);
                remaining = remaining - 1;
                let ghost st = stack@;
                stack.push(y);
                proof {
                    assert(stack@.subrange(0, before_stack.len() as int) =~= st.subrange(0, before_stack.len() as int));
                    assert forall|i: int| 0 <= i < n && reached@[i] && !before_reached[i] implies stack@.contains(i as usize) by {
                        if i == y as int {
                            assert(stack@[stack@.len() - 1] == y);
                        } else {
                            let k = choose|k: int| 0 <= k < st.len() && st[k] == i as usize;
                            assert(stack@[k] == i as usize);
                        }
                    }
                }
            }
            y = y + 1;
        }
        proof {
            assert forall|z: int, w: int|
                0 <= z < n && reached@[z] && !stack@.contains(z as usize) && #[trigger] spec_pvs_link(rows, z, w) implies 0 <= w
                    < n && reached@[w] by {
                if z == x as int {
                    assert(0 <= w < n) by {
                        if spec_pvs_edge(rows, z, w) {
                            assert(rows[z] == match p.rows@[z] {
                                Some(r) => Some(r@),
                                None => None::<Seq<bool>>,
                            });
                        }
                    }
                } else {
                    assert(before_reached[z]) by {
                        if !before_reached[z] {
                            assert(stack@.contains(z as usize));
                        }
                    }
                    assert(!before_stack.contains(z as usize)) by {
                        if before_stack.contains(z as usize) {
                            let k = choose|k: int| 0 <= k < before_stack.len() && before_stack[k] == z as usize;
                            assert(stack@.subrange(0, before_stack.len() as int)[k] == z as usize);
                            assert(stack@[k] == z as usize);
                        }
                    }
                    assert(!old_stack.contains(z as usize));
                }
            }
        }
    }
    proof {
        assert forall|a: int, b: int| 0 <= a < reached@.len() && reached@[a] && #[trigger] spec_pvs_link(rows, a, b) implies 0 <= b
            < reached@.len() && reached@[b] by {
            assert(!stack@.contains(a as usize));
        }
    }
    reached
}


// --- brushes of a brush model ----------------------------------------------------

/// The parts of the BSP tree that lead from a brush model to its brushes.
pub struct BrushTree {
    /// Each brush model's root node link.
    pub head_nodes: Vec<i32>,
    /// Each node's two child links.
    pub node_children: Vec<[i32; 2]>,
    /// Each leaf's `(first_leaf_brush, leaf_brush_count)`.
    pub leaf_brush_spans: Vec<(u16, u16)>,
    /// The leaf-brush lump: brush indices.
    pub leaf_brushes: Vec<u16>,
}

/// A set of child links that contains both children of every node link
/// in it.
pub open spec fn spec_links_closed(nodes: Seq<[i32; 2]>, s: Set<i32>) -> bool {
    forall|v: i32|
        #[trigger] s.contains(v) && 0 <= v < nodes.len() ==> s.contains(nodes[v as int][0]) && s.contains(
            nodes[v as int][1],
        )
}

/// Brush `b` is listed by the leaf that link `l` names.
pub open spec fn spec_leaf_brush(leaves: Seq<(u16, u16)>, lb: Seq<u16>, l: i32, b: usize) -> bool {
    &&& l < 0
    &&& -l - 1 < leaves.len()
    &&& leaves[-l - 1].0 + leaves[-l - 1].1 <= lb.len()
    &&& exists|k: int| leaves[-l - 1].0 <= k < leaves[-l - 1].0 + leaves[-l - 1].1 && lb[k] as usize == b
}

/// The brushes the leaves among `links` list.
pub open spec fn spec_brushes_of(leaves: Seq<(u16, u16)>, lb: Seq<u16>, links: Set<i32>) -> Set<usize> {
    Set::new(|b: usize| exists|l: i32| links.contains(l) && #[trigger] spec_leaf_brush(leaves, lb, l, b))
}

/// The brushes of brush model `model_index`: those listed by the leaves
/// reachable from its root through node links. The tree may hold cycles;
/// each node is expanded once.
pub fn brush_indices_for_model(tree: &BrushTree, model_index: ModelIndex) -> (r: BTreeSet<usize>)
    ensures
        model_index.0 >= tree.head_nodes@.len() ==> r@ == Set::<usize>::empty(),
        model_index.0 < tree.head_nodes@.len() ==> {
            let head = tree.head_nodes@[model_index.0 as int];
            let nodes = tree.node_children@;
            let leaves = tree.leaf_brush_spans@;
            let lb = tree.leaf_brushes@;
            &&& forall|s: Set<i32>|
                s.contains(head) && #[trigger] spec_links_closed(nodes, s) ==> r@.subset_of(
                    spec_brushes_of(leaves, lb, s),
                )
            &&& exists|s: Set<i32>|
                s.contains(head) && #[trigger] spec_links_closed(nodes, s) && spec_brushes_of(
                    leaves,
                    lb,
                    s,
                ).subset_of(r@)
        },
{
    let mut brushes: BTreeSet<usize> = BTreeSet::new();
    if model_index.0 >= tree.head_nodes.len() {
        return brushes;
    }
    let head = tree.head_nodes[model_index.0];
    let ghost nodes = tree.node_children@;
    let ghost leaves = tree.leaf_brush_spans@;
    let ghost lb = tree.leaf_brushes@;
    let n = tree.node_children.len();
    let mut visited = all_false(n);
    proof {
        lemma_count_false_all(n as nat);
    }
    let mut unvisited: usize = n;
    let mut stack: Vec<i32> = Vec::new();
    stack.push(head);
    let ghost mut done: Set<i32> = Set::empty();
    proof {
        assert(stack@[0] == head);
    }
    while stack.len() > 0
        invariant
            nodes == tree.node_children@,
            leaves == tree.leaf_brush_spans@,
            lb == tree.leaf_brushes@,
            n == nodes.len(),
            visited@.len() == n,
            unvisited == spec_count_false(visited@),
            done.contains(head) || stack@.contains(head),
            forall|v: i32| 0 <= v < n && visited@[v as int] ==> done.contains(v),
            forall|v: i32| #[trigger] done.contains(v) && 0 <= v < n ==> visited@[v as int],
            forall|v: i32|
                #[trigger] done.contains(v) && 0 <= v < n ==> (done.contains(nodes[v as int][0]) || stack@.contains(
                    nodes[v as int][0],
                )) && (done.contains(nodes[v as int][1]) || stack@.contains(nodes[v as int][1])),
            forall|s: Set<i32>|
                s.contains(head) && #[trigger] spec_links_closed(nodes, s) ==> done.subset_of(s) && (forall|k: int|
                    0 <= k < stack@.len() ==> s.contains(#[trigger] stack@[k])),
            brushes@ == spec_brushes_of(leaves, lb, done),
        decreases unvisited, stack@.len(),
    {
        let ghost old_stack = stack@;
        let ghost old_done = done;
        let ghost old_visited = visited@;
        let link = stack.pop().unwrap();
        proof {
            assert(old_stack =~= stack@.push(link));
            assert(old_stack[old_stack.len() - 1] == link);
        }
        let ghost popped = stack@;
        if link < 0 {
            let leaf = (-(link + 1)) as usize;
            if leaf < tree.leaf_brush_spans.len() {
                let (first, count) = tree.leaf_brush_spans[leaf];
                let start = first as usize;
                let end = start + count as usize;
                if end <= tree.leaf_brushes.len() {
                    let ghost before = brushes@;
                    let mut k = start;
                    while k < end
                        invariant
                            lb == tree.leaf_brushes@,
                            start <= k <= end <= lb.len(),
                            brushes@ == before + Set::new(|b: usize| exists|j: int| start <= j < k && lb[j] as usize == b),
                        decreases end - k,
                    {
                        let ghost pre = brushes@;
                        brushes.insert(tree.leaf_brushes[k] as usize);
                        proof {
                            assert(brushes@ =~= before + Set::new(|b: usize| exists|j: int| start <= j < k + 1 && lb[j] as usize == b)) by {
                                assert forall|b: usize| brushes@.contains(b) implies (before + Set::new(|b: usize| exists|j: int| start <= j < k + 1 && lb[j] as usize == b)).contains(b) by {
                                    if b == lb[k as int] as usize {
                                        assert(start <= k < k + 1);
                                    } else {
                                        assert(pre.contains(b));
                                    }
                                }
                                assert forall|b: usize| (before + Set::new(|b: usize| exists|j: int| start <= j < k + 1 && lb[j] as usize == b)).contains(b) implies brushes@.contains(b) by {
                                    if !before.contains(b) {
                                        let j = choose|j: int| start <= j < k + 1 && lb[j] as usize == b;
                                        if j < k {
                                            assert(pre.contains(b));
                                        }
                                    }
                                }
                            }
                        }
                        k = k + 1;
                    }
                    proof {
                        let l = link;
                        assert(-l - 1 == leaf as int);
                        assert forall|b: usize| brushes@.contains(b) <==> spec_brushes_of(leaves, lb, done.insert(l)).contains(b) by {
                            if brushes@.contains(b) && !before.contains(b) {
                                let j = choose|j: int| start <= j < end && lb[j] as usize == b;
                                assert(spec_leaf_brush(leaves, lb, l, b));
                            }
                            if spec_brushes_of(leaves, lb, done.insert(l)).contains(b) {
                                let l2 = choose|l2: i32| done.insert(l).contains(l2) && #[trigger] spec_leaf_brush(leaves, lb, l2, b);
                                if l2 != l {
                                    assert(before.contains(b));
                                } else {
                                    let j = choose|j: int| leaves[-l - 1].0 <= j < leaves[-l - 1].0 + leaves[-l - 1].1 && lb[j] as usize == b;
                                    assert(start <= j < end);
                                }
                            }
                        }
                        assert(brushes@ =~= spec_brushes_of(leaves, lb, done.insert(l)));
                    }
                } else {
                    proof {
                        assert forall|b: usize| #![auto] spec_brushes_of(leaves, lb, done.insert(link)).contains(b) implies brushes@.contains(b) by {
                            let l2 = choose|l2: i32| done.insert(link).contains(l2) && #[trigger] spec_leaf_brush(leaves, lb, l2, b);
                        }
                        assert(brushes@ =~= spec_brushes_of(leaves, lb, done.insert(link)));
                    }
                }
            } else {
                proof {
                    assert forall|b: usize| #![auto] spec_brushes_of(leaves, lb, done.insert(link)).contains(b) implies brushes@.contains(b) by {
                        let l2 = choose|l2: i32| done.insert(link).contains(l2) && #[trigger] spec_leaf_brush(leaves, lb, l2, b);
                    }
                    assert(brushes@ =~= spec_brushes_of(leaves, lb, done.insert(link)));
                }
            }
            proof {
                done = done.insert(link);
            }
        } else {
            let node = link as usize;
            if node < n && !visited[node] {
                proof {
                    lemma_count_false_set(visited@, node as int);
                }
                visited.set(node, true);
                unvisited = unvisited - 1;
                let children = tree.node_children[node];
                stack.push(children[0]);
                stack.push(children[1]);
                proof {
                    assert(stack@[stack@.len() - 2] == children[0]);
                    assert(stack@[stack@.len() - 1] == children[1]);
                    assert(stack@.contains(children[0]));
                    assert(stack@.contains(children[1]));
                    assert(children == nodes[link as int]);
                }
            }
            proof {
                assert forall|b: usize| #![auto] spec_brushes_of(leaves, lb, done.insert(link)).contains(b) implies brushes@.contains(b) by {
                    let l2 = choose|l2: i32| done.insert(link).contains(l2) && #[trigger] spec_leaf_brush(leaves, lb, l2, b);
                }
                assert(brushes@ =~= spec_brushes_of(leaves, lb, done.insert(link)));
                done = done.insert(link);
            }
        }
        proof {
            assert forall|z: i32| #[trigger] old_stack.contains(z) implies done.contains(z) || stack@.contains(z) by {
                let k = choose|k: int| 0 <= k < old_stack.len() && old_stack[k] == z;
                if k < popped.len() {
                    assert(popped[k] == z);
                    let k2 = k;
                    assert(stack@[k2] == z);
                }
            }
            assert(done.contains(head) || stack@.contains(head));
            assert forall|v: i32| #[trigger] done.contains(v) && 0 <= v < n implies (done.contains(nodes[v as int][0]) || stack@.contains(
                nodes[v as int][0],
            )) && (done.contains(nodes[v as int][1]) || stack@.contains(nodes[v as int][1])) by {
                let c0 = nodes[v as int][0];
                let c1 = nodes[v as int][1];
                if v != link || old_visited[v as int] {
                    assert(old_done.contains(v));
                    assert(old_done.contains(c0) || old_stack.contains(c0));
                    assert(old_done.contains(c1) || old_stack.contains(c1));
                } else {
                    assert(stack@.contains(c0));
                    assert(stack@.contains(c1));
                }
            }
            assert forall|s: Set<i32>| s.contains(head) && #[trigger] spec_links_closed(nodes, s) implies done.subset_of(s) && (forall|k: int|
                0 <= k < stack@.len() ==> s.contains(#[trigger] stack@[k])) by {
                assert(s.contains(link));
                assert forall|k: int| 0 <= k < stack@.len() implies s.contains(#[trigger] stack@[k]) by {
                    if k < popped.len() {
                        assert(stack@[k] == popped[k]);
                        assert(old_stack[k] == popped[k]);
                    }
                }
            }
        }
    }
    proof {
        assert(spec_links_closed(nodes, done));
        assert(spec_brushes_of(leaves, lb, done).subset_of(brushes@));
    }
    brushes
}

} // verus!
