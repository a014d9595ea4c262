//! The octree of all levels of detail, chunk by chunk.
use crate::geometry::RangeZYX;
use crate::svo::{lemma_every_node_weaken, SvoReturn};
use crate::voxelizer::{are_lods, chunk_task, lod_nodes, quotient, ChunkTask, Lods};
use std::sync::Arc;
use vstd::prelude::*;

verus! {

/// `q` is the coordinate `v` of a chunk of `n` finest chunks along a side, in cells of which 32
/// make such a chunk, without a fraction and never further from zero.
pub open spec fn is_cell_of(v: int, n: int, q: int) -> bool {
    &&& v >= 0 ==> 0 <= q && q * n <= 32 * v && 32 * v < (q + 1) * n
    &&& v <= 0 ==> q <= 0 && 32 * v <= q * n && (q - 1) * n < 32 * v
}

proof fn lemma_cell(v: int, n: int)
    requires
        n >= 1,
    ensures
        is_cell_of(v, n, quotient(v * 32, n)),
{
    let a = if v >= 0 {
        v * 32
    } else {
        -(v * 32)
    };
    let q = a / n;
    vstd::arithmetic::div_mod::lemma_fundamental_div_mod(a, n);
    vstd::arithmetic::div_mod::lemma_mod_bound(a, n);
    assert(n * q <= a && a < n * q + n);
    assert(q >= 0) by (nonlinear_arith)
        requires
            a >= 0,
            n >= 1,
            a < n * q + n,
    ;
    assert(q * n == n * q && (q + 1) * n == n * q + n && (-q) * n == -(n * q) && (-q - 1) * n == -(n
        * q) - n) by (nonlinear_arith);
}

/// The task of a chunk names the chunk, its lowest cell in cells of its own level, and whether it
/// stands for finer chunks, which all but single ones do.
pub proof fn tasks_name_their_chunks(b: RangeZYX, material: u64, smooth: u32)
    requires
        b.size.x >= 1,
        i32::MIN <= 32 * b.origin.x <= i32::MAX,
        i32::MIN <= 32 * b.origin.y <= i32::MAX,
        i32::MIN <= 32 * b.origin.z <= i32::MAX,
    ensures
        ({
            let t = chunk_task(b, material, smooth);
            &&& t.range == b
            &&& is_cell_of(b.origin.x as int, b.size.x as int, t.voxel_origin.x as int)
            &&& is_cell_of(b.origin.y as int, b.size.x as int, t.voxel_origin.y as int)
            &&& is_cell_of(b.origin.z as int, b.size.x as int, t.voxel_origin.z as int)
            &&& t.is_lod <==> b.size.x != 1
            &&& t.material == material
            &&& t.smooth == smooth
        }),
{
    let n = b.size.x as int;
    lemma_cell(b.origin.x as int, n);
    lemma_cell(b.origin.y as int, n);
    lemma_cell(b.origin.z as int, n);
    lemma_within(b.origin.x as int, n);
    lemma_within(b.origin.y as int, n);
    lemma_within(b.origin.z as int, n);
}

proof fn lemma_within(v: int, n: int)
    requires
        n >= 1,
        i32::MIN <= 32 * v <= i32::MAX,
    ensures
        i32::MIN <= quotient(v * 32, n) <= i32::MAX,
{
    lemma_cell(v, n);
    let q = quotient(v * 32, n);
    if v >= 0 {
        assert(q <= q * n) by (nonlinear_arith)
            requires
                q >= 0,
                n >= 1,
        ;
    } else {
        assert(q * n <= q) by (nonlinear_arith)
            requires
                q <= 0,
                n >= 1,
        ;
    }
}

/// A chunk that the mesh does not meet is a leaf without data. One that it meets is split into
/// finer ones unless it is a single one, and holds what came of the task that was spawned for it.
pub proof fn lods_follow_the_mesh<
    I,
    M,
    T,
    D,
    H: Fn(&I, &M, RangeZYX) -> bool,
    S: Fn(&Arc<I>, &Arc<M>, ChunkTask) -> T,
    J: Fn(T) -> Option<D>,
>(l: Lods<D, H, S, J>, isometry: Arc<I>, mesh: Arc<M>, hit: spec_fn(RangeZYX) -> bool)
    requires
        are_lods(l, isometry, mesh, hit),
    ensures
        l.tree.every_node(
            |b: RangeZYX, v: SvoReturn<Option<D>>|
                follows(isometry, mesh, hit, l.spawn, l.join, l.material, l.smooth, b, v),
        ),
{
    lemma_every_node_weaken(
        l.tree,
        lod_nodes(l, isometry, mesh),
        |b: RangeZYX, v: SvoReturn<Option<D>>|
            follows(isometry, mesh, hit, l.spawn, l.join, l.material, l.smooth, b, v),
    );
}

/// The node of a chunk is what the mesh and the task of the chunk make of it.
pub open spec fn follows<
    I,
    M,
    T,
    D,
    S: Fn(&Arc<I>, &Arc<M>, ChunkTask) -> T,
    J: Fn(T) -> Option<D>,
>(
    isometry: Arc<I>,
    mesh: Arc<M>,
    hit: spec_fn(RangeZYX) -> bool,
    spawn: S,
    join: J,
    material: u64,
    smooth: u32,
    b: RangeZYX,
    v: SvoReturn<Option<D>>,
) -> bool {
    let data = match v {
        SvoReturn::Leaf(d) => d,
        SvoReturn::Internal(d) => d,
    };
    &&& !hit(b) ==> v is Leaf && data is None
    &&& hit(b) ==> (v is Leaf <==> b.size.x == 1)
    &&& hit(b) ==> exists|t: T|
        #[trigger] call_ensures(spawn, (&isometry, &mesh, chunk_task(b, material, smooth)), t)
            && call_ensures(join, (t,), data)
}

} // verus!
