//! Voxelizing a mesh at all levels of detail.
use crate::chunk::{is_chunk_data, CHUNK_SIZE, MATERIAL_INDEX};
use crate::geometry::{corner_offset, lemma_octant_offset, on_axis, Point, RangeZYX};
use crate::grid::VoxelCellData;
use crate::surface::Answers;
use crate::svo::{
    cube, lemma_alike, lemma_can_map, lemma_every_node_mapped, lemma_every_node_weaken,
    lemma_leaves_of_every_node, lemma_octant_is_node, may_be_node, power_of_two, Svo, SvoReturn,
};
use std::sync::Arc;
use vstd::arithmetic::power2::{lemma2_to64, lemma_pow2_strictly_increases, lemma_pow2_unfold, pow2};
use vstd::bits::lemma_usize_shl_is_mul;
use vstd::prelude::*;

verus! {

/// A chunk that is to be voxelized.
#[derive(Clone, Copy, Debug, PartialEq, Eq, Structural)]
pub struct ChunkTask {
    /// The chunk, in chunks of the finest level.
    pub range: RangeZYX,
    /// The lowest cell of the chunk, in cells of its own level.
    pub voxel_origin: Point,
    pub material: u64,
    /// Whether the chunk stands for finer ones.
    pub is_lod: bool,
    pub smooth: u32,
}

/// A mesh of type `M`, placed by an isometry of type `I`.
pub struct Voxelizer<I, M> {
    isometry: Arc<I>,
    mesh: Arc<M>,
}

/// The quotient of `a` by `b`, rounded towards zero.
pub open spec fn quotient(a: int, b: int) -> int {
    if a >= 0 {
        a / b
    } else {
        -((-a) / b)
    }
}

/// The lowest cell of a chunk, in cells of the level of the chunk.
pub open spec fn voxel_origin(b: RangeZYX) -> Point {
    let n = b.size.x as int;
    Point {
        x: quotient(b.origin.x * CHUNK_SIZE, n) as i32,
        y: quotient(b.origin.y * CHUNK_SIZE, n) as i32,
        z: quotient(b.origin.z * CHUNK_SIZE, n) as i32,
    }
}

/// The task for the chunk `b`.
pub open spec fn chunk_task(b: RangeZYX, material: u64, smooth: u32) -> ChunkTask {
    ChunkTask {
        range: b,
        voxel_origin: voxel_origin(b),
        material,
        is_lod: b.size.x > 1,
        smooth,
    }
}

/// The lowest corner of `b` has grid coordinates in cells of the finest level.
pub open spec fn cells_on_grid(b: RangeZYX) -> bool {
    &&& on_axis(b.origin.x * CHUNK_SIZE)
    &&& on_axis(b.origin.y * CHUNK_SIZE)
    &&& on_axis(b.origin.z * CHUNK_SIZE)
}

/// What has to be done for the chunk `b` can be: it may be asked whether the surface meets it and,
/// where it does, its cells have grid coordinates, its task may be spawned, and what comes of
/// that joined. How many cells around the chunk a task needs is for `spawn` to say.
pub open spec fn can_do_chunk<
    I,
    M,
    T,
    D,
    H: Fn(&I, &M, RangeZYX) -> bool,
    S: Fn(&Arc<I>, &Arc<M>, ChunkTask) -> T,
    J: Fn(T) -> Option<D>,
>(
    isometry: Arc<I>,
    mesh: Arc<M>,
    intersects: H,
    spawn: S,
    join: J,
    material: u64,
    smooth: u32,
    b: RangeZYX,
) -> bool {
    &&& call_requires(intersects, (&*isometry, &*mesh, b))
    &&& forall|met: bool|
        #[trigger] call_ensures(intersects, (&*isometry, &*mesh, b), met) && met ==> {
            &&& cells_on_grid(b)
            &&& call_requires(spawn, (&isometry, &mesh, chunk_task(b, material, smooth)))
            &&& forall|t: T| #[trigger]
                call_ensures(spawn, (&isometry, &mesh, chunk_task(b, material, smooth)), t)
                    ==> call_requires(join, (t,))
        }
}

/// The task for the chunk `b`.
pub fn plan_chunk(b: &RangeZYX, material: u64, smooth: u32) -> (t: ChunkTask)
    requires
        cells_on_grid(*b),
        b.size.x >= 1,
    ensures
        t == chunk_task(*b, material, smooth),
{
    let n: i32 = b.size.x;
    proof {
        lemma_quotient_bounds(b.origin.x * CHUNK_SIZE, n as int);
        lemma_quotient_bounds(b.origin.y * CHUNK_SIZE, n as int);
        lemma_quotient_bounds(b.origin.z * CHUNK_SIZE, n as int);
    }
    ChunkTask {
        range: *b,
        voxel_origin: Point {
            x: b.origin.x * CHUNK_SIZE / n,
            y: b.origin.y * CHUNK_SIZE / n,
            z: b.origin.z * CHUNK_SIZE / n,
        },
        material,
        is_lod: n > 1,
        smooth,
    }
}

proof fn lemma_quotient_bounds(a: int, b: int)
    requires
        b >= 1,
    ensures
        a >= 0 ==> 0 <= quotient(a, b) <= a,
        a <= 0 ==> a <= quotient(a, b) <= 0,
{
    let m = if a >= 0 {
        a
    } else {
        -a
    };
    assert(0 <= m / b <= m) by (nonlinear_arith)
        requires
            m >= 0,
            b >= 1,
    ;
}

/// What a node of the tree of levels says of its chunk: where the surface does not meet the
/// chunk, there is nothing, and no finer level. Where it does, a task was spawned for the chunk
/// and joined, and all but the finest chunks are split.
pub open spec fn lod_node<
    I,
    M,
    T,
    D,
    H: Fn(&I, &M, RangeZYX) -> bool,
    S: Fn(&Arc<I>, &Arc<M>, ChunkTask) -> T,
    J: Fn(T) -> Option<D>,
>(
    isometry: Arc<I>,
    mesh: Arc<M>,
    intersects: H,
    spawn: S,
    join: J,
    material: u64,
    smooth: u32,
    b: RangeZYX,
    v: SvoReturn<Option<D>>,
) -> bool {
    ||| call_ensures(intersects, (&*isometry, &*mesh, b), false) && v == SvoReturn::<
        Option<D>,
    >::Leaf(None)
    ||| call_ensures(intersects, (&*isometry, &*mesh, b), true) && exists|t: T, d: Option<D>|
        {
            &&& #[trigger] call_ensures(
                spawn,
                (&isometry, &mesh, chunk_task(b, material, smooth)),
                t,
            )
            &&& #[trigger] call_ensures(join, (t,), d)
            &&& v == if b.size.x == 1 {
                SvoReturn::Leaf(d)
            } else {
                SvoReturn::Internal(d)
            }
        }
}

/// A tree of levels, and what it was made with.
#[verifier::reject_recursive_types(D)]
pub struct Lods<D, H, S, J> {
    pub tree: Svo<Option<D>>,
    pub intersects: H,
    pub spawn: S,
    pub join: J,
    pub material: u64,
    pub smooth: u32,
}

/// What the nodes of a tree of levels say of their chunks.
pub open spec fn lod_nodes<
    I,
    M,
    T,
    D,
    H: Fn(&I, &M, RangeZYX) -> bool,
    S: Fn(&Arc<I>, &Arc<M>, ChunkTask) -> T,
    J: Fn(T) -> Option<D>,
>(l: Lods<D, H, S, J>, isometry: Arc<I>, mesh: Arc<M>) -> spec_fn(
    RangeZYX,
    SvoReturn<Option<D>>,
) -> bool {
    |b: RangeZYX, v: SvoReturn<Option<D>>|
        lod_node(isometry, mesh, l.intersects, l.spawn, l.join, l.material, l.smooth, b, v)
}

/// `l` is a tree of levels of the mesh, which meets the boxes that `hit` says.
pub open spec fn are_lods<
    I,
    M,
    T,
    D,
    H: Fn(&I, &M, RangeZYX) -> bool,
    S: Fn(&Arc<I>, &Arc<M>, ChunkTask) -> T,
    J: Fn(T) -> Option<D>,
>(
    l: Lods<D, H, S, J>,
    isometry: Arc<I>,
    mesh: Arc<M>,
    hit: spec_fn(RangeZYX) -> bool,
) -> bool {
    &&& l.tree.wf()
    &&& l.tree.every_node(lod_nodes(l, isometry, mesh))
    &&& forall|b: RangeZYX, met: bool| #[trigger]
        call_ensures(l.intersects, (&*isometry, &*mesh, b), met) ==> met == hit(b)
}

/// Every task that is spawned and joined gives the data of its chunk, for a surface that answers
/// as `answers` says for the chunk.
pub open spec fn gives_chunk_data<
    I,
    M,
    T,
    N,
    P,
    A,
    S: Fn(&Arc<I>, &Arc<M>, ChunkTask) -> T,
    J: Fn(T) -> Option<VoxelCellData>,
>(
    spawn: S,
    join: J,
    isometry: Arc<I>,
    mesh: Arc<M>,
    answers: spec_fn(RangeZYX) -> Answers<N, P, A>,
) -> bool {
    forall|c: ChunkTask, t: T, d: Option<VoxelCellData>|
        #[trigger] call_ensures(spawn, (&isometry, &mesh, c), t) && #[trigger] call_ensures(
            join,
            (t,),
            d,
        ) ==> is_chunk_data(
            c.voxel_origin,
            c.material,
            c.is_lod,
            c.smooth,
            answers(c.range),
            d,
        )
}

/// The same vertices, and the same materials but for the id of that of the chunk.
pub open spec fn differ_by_material(a: Option<VoxelCellData>, b: Option<VoxelCellData>) -> bool {
    match (a, b) {
        (None, None) => true,
        (Some(x), Some(y)) => {
            &&& x.grid.bounds() == y.grid.bounds()
            &&& x.grid.inner_bounds() == y.grid.inner_bounds()
            &&& x.grid.materials() == y.grid.materials()
            &&& x.grid.voxels() == y.grid.voxels()
            &&& x.mapping@.dom() == y.mapping@.dom()
            &&& forall|k: u8| #[trigger]
                x.mapping@.contains_key(k) ==> x.mapping@[k].short_name@
                    == y.mapping@[k].short_name@ && (k != MATERIAL_INDEX ==> x.mapping@[k].id
                    == y.mapping@[k].id)
        },
        _ => false,
    }
}

/// What a node of the tree of tasks says of its chunk, before the tasks are joined.
spec fn task_node<
    I,
    M,
    T,
    H: Fn(&I, &M, RangeZYX) -> bool,
    S: Fn(&Arc<I>, &Arc<M>, ChunkTask) -> T,
>(
    isometry: Arc<I>,
    mesh: Arc<M>,
    intersects: H,
    spawn: S,
    material: u64,
    smooth: u32,
    b: RangeZYX,
    v: SvoReturn<Option<T>>,
) -> bool {
    ||| call_ensures(intersects, (&*isometry, &*mesh, b), false) && v == SvoReturn::<
        Option<T>,
    >::Leaf(None)
    ||| call_ensures(intersects, (&*isometry, &*mesh, b), true) && exists|t: T|
        {
            &&& #[trigger] call_ensures(
                spawn,
                (&isometry, &mesh, chunk_task(b, material, smooth)),
                t,
            )
            &&& v == if b.size.x == 1 {
                SvoReturn::Leaf(Some(t))
            } else {
                SvoReturn::Internal(Some(t))
            }
        }
}

impl<I, M> Voxelizer<I, M> {
    /// The placement of the mesh.
    pub closed spec fn placement(self) -> Arc<I> {
        self.isometry
    }

    /// The mesh.
    pub closed spec fn surface(self) -> Arc<M> {
        self.mesh
    }

    pub fn new(isometry: I, mesh: M) -> (v: Voxelizer<I, M>)
        ensures
            *v.placement() == isometry,
            *v.surface() == mesh,
    {
        Voxelizer { isometry: Arc::new(isometry), mesh: Arc::new(mesh) }
    }

    /// Voxelizes the cube of two to the power of `height` chunks along each side at `origin`, at
    /// all levels of detail. `intersects` says whether the surface meets a box of chunks, `spawn`
    /// starts to voxelize a chunk, and `join` waits for it; all chunks are started before the
    /// first one is waited for.
    pub fn create_lods<
        T,
        D,
        H: Fn(&I, &M, RangeZYX) -> bool,
        S: Fn(&Arc<I>, &Arc<M>, ChunkTask) -> T,
        J: Fn(T) -> Option<D>,
    >(
        &self,
        origin: Point,
        height: usize,
        material: u64,
        smooth: u32,
        intersects: &H,
        spawn: &S,
        join: &J,
    ) -> (r: Svo<Option<D>>)
        requires
            height <= 30,
            cube(origin, pow2(height as nat) as int).fits(),
            forall|b: RangeZYX|
                may_be_node(cube(origin, pow2(height as nat) as int), b)
                    ==> #[trigger] can_do_chunk(
                    self.placement(),
                    self.surface(),
                    *intersects,
                    *spawn,
                    *join,
                    material,
                    smooth,
                    b,
                ),
        ensures
            r.wf(),
            r.range == cube(origin, pow2(height as nat) as int),
            r.every_node(
                |b: RangeZYX, v: SvoReturn<Option<D>>|
                    lod_node(
                        self.placement(),
                        self.surface(),
                        *intersects,
                        *spawn,
                        *join,
                        material,
                        smooth,
                        b,
                        v,
                    ),
            ),
    {
        let extent: usize = 1usize << height;
        proof {
            lemma2_to64();
            lemma_usize_shl_is_mul(1, height);
            if height < 30 {
                lemma_pow2_strictly_increases(height as nat, 30);
            }
            lemma_power_of_two(height as nat);
        }
        assert(extent == pow2(height as nat));
        let ghost root = cube(origin, pow2(height as nat) as int);
        let ghost can_do = |b: RangeZYX|
            can_do_chunk(
                self.placement(),
                self.surface(),
                *intersects,
                *spawn,
                *join,
                material,
                smooth,
                b,
            );
        let ghost can_join = |t: T| call_requires(*join, (t,));
        let f = |b: RangeZYX| -> (v: SvoReturn<Option<T>>)
            requires
                may_be_node(root, b),
                can_do(b),
            ensures
                b.size.x > 1 || v is Leaf,
                match v {
                    SvoReturn::Leaf(t) => t is None || can_join(t->Some_0),
                    SvoReturn::Internal(t) => t is None || can_join(t->Some_0),
                },
                task_node(
                    self.placement(),
                    self.surface(),
                    *intersects,
                    *spawn,
                    material,
                    smooth,
                    b,
                    v,
                ),
            {
                if intersects(&self.isometry, &self.mesh, b) {
                    let task: T = spawn(
                        &self.isometry,
                        &self.mesh,
                        plan_chunk(&b, material, smooth),
                    );
                    if b.size.x == 1 {
                        SvoReturn::Leaf(Some(task))
                    } else {
                        SvoReturn::Internal(Some(task))
                    }
                } else {
                    SvoReturn::Leaf(None)
                }
            };
        let tasks: Svo<Option<T>> = Svo::from_fn(origin, extent, &f);
        let g = |t: Option<T>| -> (d: Option<D>)
            requires
                t is None || can_join(t->Some_0),
            ensures
                match t {
                    Some(t) => call_ensures(*join, (t,), d),
                    None => d is None,
                },
            {
                match t {
                    Some(t) => join(t),
                    None => None,
                }
            };
        proof {
            lemma_can_map(
                tasks,
                |b: RangeZYX, v: SvoReturn<Option<T>>| call_ensures(f, (b,), v),
                g,
            );
        }
        let r: Svo<Option<D>> = tasks.into_map(&g);
        proof {
            lemma_every_node_mapped(
                tasks,
                g,
                r,
                |b: RangeZYX, v: SvoReturn<Option<T>>| call_ensures(f, (b,), v),
                |b: RangeZYX, v: SvoReturn<Option<D>>|
                    lod_node(
                        self.placement(),
                        self.surface(),
                        *intersects,
                        *spawn,
                        *join,
                        material,
                        smooth,
                        b,
                        v,
                    ),
            );
        }
        r
    }
}

proof fn lemma_power_of_two(n: nat)
    ensures
        power_of_two(pow2(n) as int),
    decreases n,
{
    lemma2_to64();
    if n > 0 {
        lemma_power_of_two((n - 1) as nat);
        lemma_pow2_unfold(n);
    }
}

/// The cells of a chunk are halved from level to level: the lowest cell of octant `k` of a chunk
/// is twice the lowest cell of the chunk, and a chunk further along the axes where the octant is
/// the upper one. This needs a chunk whose lowest corner is a cell of its own level.
pub proof fn cells_are_halved(b: RangeZYX, k: int)
    requires
        may_be_node(b, b),
        b.size.x > 1,
        0 <= k < 8,
        b.origin.x * CHUNK_SIZE % b.size.x as int == 0,
        b.origin.y * CHUNK_SIZE % b.size.x as int == 0,
        b.origin.z * CHUNK_SIZE % b.size.x as int == 0,
    ensures
        ({
            let n = b.size.x as int;
            let c = b.octant(k);
            let o = corner_offset(k);
            &&& c.size.x == n / 2
            &&& quotient(c.origin.x * CHUNK_SIZE, n / 2) == 2 * quotient(
                b.origin.x * CHUNK_SIZE,
                n,
            ) + CHUNK_SIZE * o.x
            &&& quotient(c.origin.y * CHUNK_SIZE, n / 2) == 2 * quotient(
                b.origin.y * CHUNK_SIZE,
                n,
            ) + CHUNK_SIZE * o.y
            &&& quotient(c.origin.z * CHUNK_SIZE, n / 2) == 2 * quotient(
                b.origin.z * CHUNK_SIZE,
                n,
            ) + CHUNK_SIZE * o.z
        }),
{
    let h = b.size.x as int / 2;
    let o = corner_offset(k);
    lemma_octant_offset(h, k);
    lemma_octant_is_node(b, b, k);
    lemma_halved(b.origin.x as int, h, o.x as int);
    lemma_halved(b.origin.y as int, h, o.y as int);
    lemma_halved(b.origin.z as int, h, o.z as int);
}

proof fn lemma_halved(v: int, h: int, k: int)
    requires
        h >= 1,
        v * CHUNK_SIZE % (2 * h) == 0,
    ensures
        quotient((v + h * k) * CHUNK_SIZE, h) == 2 * quotient(v * CHUNK_SIZE, 2 * h) + CHUNK_SIZE
            * k,
{
    let n = 2 * h;
    let q = v * CHUNK_SIZE / n;
    vstd::arithmetic::div_mod::lemma_fundamental_div_mod(v * CHUNK_SIZE, n);
    assert(v * CHUNK_SIZE == q * n) by (nonlinear_arith)
        requires
            v * CHUNK_SIZE == n * q,
    ;
    lemma_exact_quotient(q, n);
    assert((v + h * k) * CHUNK_SIZE == (2 * q + CHUNK_SIZE * k) * h) by (nonlinear_arith)
        requires
            v * CHUNK_SIZE == q * n,
            n == 2 * h,
    ;
    lemma_exact_quotient(2 * q + CHUNK_SIZE * k, h);
}

proof fn lemma_exact_quotient(q: int, d: int)
    requires
        d >= 1,
    ensures
        quotient(q * d, d) == q,
{
    if q >= 0 {
        assert(q * d >= 0) by (nonlinear_arith)
            requires
                q >= 0,
                d >= 1,
        ;
        vstd::arithmetic::div_mod::lemma_div_by_multiple(q, d);
    } else {
        assert(q * d < 0 && -(q * d) == (-q) * d) by (nonlinear_arith)
            requires
                q < 0,
                d >= 1,
        ;
        vstd::arithmetic::div_mod::lemma_div_by_multiple(-q, d);
    }
}

/// Only the finest chunks are leaves with data: a coarser leaf is one that the surface does not
/// meet.
pub proof fn coarse_leaves_are_empty<
    I,
    M,
    T,
    D,
    H: Fn(&I, &M, RangeZYX) -> bool,
    S: Fn(&Arc<I>, &Arc<M>, ChunkTask) -> T,
    J: Fn(T) -> Option<D>,
>(
    t: Svo<Option<D>>,
    isometry: Arc<I>,
    mesh: Arc<M>,
    intersects: H,
    spawn: S,
    join: J,
    material: u64,
    smooth: u32,
    i: int,
)
    requires
        t.every_node(
            |b: RangeZYX, v: SvoReturn<Option<D>>|
                lod_node(isometry, mesh, intersects, spawn, join, material, smooth, b, v),
        ),
        0 <= i < t.leaf_seq().len(),
        t.leaf_seq()[i].range.size.x != 1,
    ensures
        t.leaf_seq()[i].value is None,
        call_ensures(intersects, (&*isometry, &*mesh, t.leaf_seq()[i].range), false),
{
    let rel = |b: RangeZYX, v: SvoReturn<Option<D>>|
        lod_node(isometry, mesh, intersects, spawn, join, material, smooth, b, v);
    lemma_leaves_of_every_node(t, rel);
    let l = t.leaf_seq()[i];
    assert(rel(l.range, SvoReturn::Leaf(l.value)));
}

/// What holds of all data that the tasks give holds of the data in the tree: where the surface
/// meets a chunk, the tree holds what the task of that chunk gave.
pub proof fn lods_hold_what_their_tasks_give<
    I,
    M,
    T,
    D,
    H: Fn(&I, &M, RangeZYX) -> bool,
    S: Fn(&Arc<I>, &Arc<M>, ChunkTask) -> T,
    J: Fn(T) -> Option<D>,
>(
    t: Svo<Option<D>>,
    isometry: Arc<I>,
    mesh: Arc<M>,
    intersects: H,
    spawn: S,
    join: J,
    material: u64,
    smooth: u32,
    gives: spec_fn(ChunkTask, Option<D>) -> bool,
)
    requires
        t.every_node(
            |b: RangeZYX, v: SvoReturn<Option<D>>|
                lod_node(isometry, mesh, intersects, spawn, join, material, smooth, b, v),
        ),
        forall|c: ChunkTask, task: T, d: Option<D>|
            #[trigger] call_ensures(spawn, (&isometry, &mesh, c), task) && #[trigger] call_ensures(
                join,
                (task,),
                d,
            ) ==> gives(c, d),
    ensures
        t.every_node(
            |b: RangeZYX, v: SvoReturn<Option<D>>|
                match v {
                    SvoReturn::Leaf(d) => {
                        ||| d is None && call_ensures(intersects, (&*isometry, &*mesh, b), false)
                        ||| b.size.x == 1 && gives(chunk_task(b, material, smooth), d)
                    },
                    SvoReturn::Internal(d) => b.size.x != 1 && gives(
                        chunk_task(b, material, smooth),
                        d,
                    ),
                },
        ),
{
    lemma_every_node_weaken(
        t,
        |b: RangeZYX, v: SvoReturn<Option<D>>|
            lod_node(isometry, mesh, intersects, spawn, join, material, smooth, b, v),
        |b: RangeZYX, v: SvoReturn<Option<D>>|
            match v {
                SvoReturn::Leaf(d) => {
                    ||| d is None && call_ensures(intersects, (&*isometry, &*mesh, b), false)
                    ||| b.size.x == 1 && gives(chunk_task(b, material, smooth), d)
                },
                SvoReturn::Internal(d) => b.size.x != 1 && gives(
                    chunk_task(b, material, smooth),
                    d,
                ),
            },
    );
}

/// Neither the material nor the smoothing changes which chunks a tree of levels has: that rests on
/// where the surface meets them alone.
pub proof fn lods_have_one_shape<
    I,
    M,
    T,
    D,
    H: Fn(&I, &M, RangeZYX) -> bool,
    S: Fn(&Arc<I>, &Arc<M>, ChunkTask) -> T,
    J: Fn(T) -> Option<D>,
>(
    isometry: Arc<I>,
    mesh: Arc<M>,
    hit: spec_fn(RangeZYX) -> bool,
    first: Lods<D, H, S, J>,
    second: Lods<D, H, S, J>,
)
    requires
        first.tree.range == second.tree.range,
        are_lods(first, isometry, mesh, hit),
        are_lods(second, isometry, mesh, hit),
    ensures
        first.tree.alike(second.tree, |a: Option<D>, b: Option<D>| true),
{
    lemma_alike(
        first.tree,
        second.tree,
        lod_nodes(first, isometry, mesh),
        lod_nodes(second, isometry, mesh),
        |a: Option<D>, b: Option<D>| true,
    );
}

/// Of two trees of levels over the same chunks, where every chunk is given the data that
/// voxelizing it gives, the same chunks are without data. With the same smoothing the data differ
/// in nothing but the id of the material of the chunks.
pub proof fn lods_differ_by_material<
    I,
    M,
    T,
    N,
    P,
    A,
    H: Fn(&I, &M, RangeZYX) -> bool,
    S: Fn(&Arc<I>, &Arc<M>, ChunkTask) -> T,
    J: Fn(T) -> Option<VoxelCellData>,
>(
    isometry: Arc<I>,
    mesh: Arc<M>,
    hit: spec_fn(RangeZYX) -> bool,
    answers: spec_fn(RangeZYX) -> Answers<N, P, A>,
    first: Lods<VoxelCellData, H, S, J>,
    second: Lods<VoxelCellData, H, S, J>,
)
    requires
        first.tree.range == second.tree.range,
        are_lods(first, isometry, mesh, hit),
        are_lods(second, isometry, mesh, hit),
        gives_chunk_data(first.spawn, first.join, isometry, mesh, answers),
        gives_chunk_data(second.spawn, second.join, isometry, mesh, answers),
    ensures
        first.tree.alike(
            second.tree,
            |a: Option<VoxelCellData>, b: Option<VoxelCellData>|
                {
                    &&& a is None <==> b is None
                    &&& first.smooth == second.smooth ==> differ_by_material(a, b)
                },
        ),
{
    let pair = |a: Option<VoxelCellData>, b: Option<VoxelCellData>|
        {
            &&& a is None <==> b is None
            &&& first.smooth == second.smooth ==> differ_by_material(a, b)
        };
    lemma_alike(
        first.tree,
        second.tree,
        lod_nodes(first, isometry, mesh),
        lod_nodes(second, isometry, mesh),
        pair,
    );
}

} // verus!
