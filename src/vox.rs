use vstd::prelude::*;

use crate::brick::{empty_brick, Brick, BrickView};
use crate::error::{ModelLoadError, VoxelError};
use crate::model::{all_wf, bricks_ok, bricks_view, model_with, VoxModel};
use crate::voxel::{pack_spec, Voxel};

verus! {

/// One model of a decoded voxel file: its size in voxels and its voxels as
/// `(x, y, z, palette index)`.
pub struct DecodedModel {
    pub size: (u32, u32, u32),
    pub voxels: Vec<(u8, u8, u8, u8)>,
}

/// The abstract content of decoded models.
pub open spec fn decoded_view(ms: Seq<DecodedModel>) -> Seq<((u32, u32, u32), Seq<(u8, u8, u8, u8)>)> {
    ms.map_values(|m: DecodedModel| (m.size, m.voxels@))
}

/// What the voxel file decoder reads from `bytes`: its models and its palette
/// of `(r, g, b, a)` colours, or nothing where the bytes are no voxel file.
pub uninterp spec fn vox_file(bytes: Seq<u8>) -> Option<
    (Seq<((u32, u32, u32), Seq<(u8, u8, u8, u8)>)>, Seq<(u8, u8, u8, u8)>),
>;

/// The little-endian 32-bit word at `b[i..i + 4]`.
pub open spec fn le_word(b: Seq<u8>, i: int) -> int {
    b[i] + b[i + 1] * 256 + b[i + 2] * 65536 + b[i + 3] * 16777216
}

/// Whether the chunks laid end to end in `b[p..end]` carry no children of
/// their own. A chunk is a 4-byte id, its content size and its children
/// size (little-endian words), then its content and its children. The walk
/// stops where a header or a content does not fit, as a reader would.
pub open spec fn flat_from(b: Seq<u8>, p: int, end: int) -> bool
    decreases end - p,
{
    if p < 0 || p + 12 > end || end > b.len() {
        true
    } else if le_word(b, p + 8) != 0 {
        false
    } else if le_word(b, p + 4) > end - p - 12 {
        true
    } else {
        flat_from(b, p + 12 + le_word(b, p + 4), end)
    }
}

/// Whether the chunks of a voxel file nest at most one level deep: after
/// the 8-byte magic and version, the first chunk's children are chunks
/// without children of their own. Deeper nesting is refused before the
/// decoder, which reads nested chunks by recursion, ever sees it.
pub open spec fn chunks_flat(b: Seq<u8>) -> bool {
    if b.len() < 20 {
        true
    } else {
        let start = 20 + le_word(b, 12);
        let stop = start + le_word(b, 16);
        let end = if stop < b.len() {
            stop
        } else {
            b.len() as int
        };
        flat_from(b, start, end)
    }
}

/// The little-endian 32-bit word at `b[i..i + 4]`.
fn read_le_word(b: &[u8], i: usize) -> (r: u64)
    requires
        i + 4 <= b@.len(),
    ensures
        r == le_word(b@, i as int),
{
    b[i] as u64 + (b[i + 1] as u64) * 256 + (b[i + 2] as u64) * 65536 + (b[i + 3] as u64) * 16777216
}

/// Whether the chunks of `bytes` nest at most one level deep.
pub fn check_chunks_flat(bytes: &[u8]) -> (r: bool)
    ensures
        r == chunks_flat(bytes@),
{
    let len = bytes.len();
    if len < 20 {
        return true;
    }
    let start = 20 + read_le_word(bytes, 12);
    let stop = start + read_le_word(bytes, 16);
    let end: usize = if stop < len as u64 {
        stop as usize
    } else {
        len
    };
    if start >= end as u64 {
        return true;
    }
    let mut p: usize = start as usize;
    while p <= end && end - p >= 12
        invariant
            end <= bytes@.len(),
            p <= end,
            chunks_flat(bytes@) == flat_from(bytes@, p as int, end as int),
        decreases end - p,
    {
        let children = read_le_word(bytes, p + 8);
        if children != 0 {
            return false;
        }
        let content = read_le_word(bytes, p + 4);
        if content > (end - p - 12) as u64 {
            return true;
        }
        p = p + 12 + content as usize;
    }
    true
}

/// Relies on dot_vox::load_bytes, which parses a MagicaVoxel file; its
/// result depends on the bytes alone. The models and palette are copied out
/// field by field. The decoder reads a chunk's children by recursion, one
/// level per nesting; the requirement bounds that depth to two.
#[verifier::external_body]
fn parse_vox(bytes: &[u8]) -> (r: Option<(Vec<DecodedModel>, Vec<(u8, u8, u8, u8)>)>)
    requires
        chunks_flat(bytes@),
    ensures
        r is None ==> vox_file(bytes@) is None,
        r matches Some((ms, pal)) ==> vox_file(bytes@) == Some((decoded_view(ms@), pal@)),
{
    match dot_vox::load_bytes(bytes) {
        Ok(d) => {
            let ms = d.models.iter().map(|m| DecodedModel {
                size: (m.size.x, m.size.y, m.size.z),
                voxels: m.voxels.iter().map(|v| (v.x, v.y, v.z, v.i)).collect(),
            }).collect();
            Some((ms, d.palette.iter().map(|c| (c.r, c.g, c.b, c.a)).collect()))
        },
        Err(_) => None,
    }
}

/// A decoded model fits the brick grid: at most 256 voxels along each axis,
/// every voxel inside its size and naming a palette entry.
pub open spec fn model_valid(m: ((u32, u32, u32), Seq<(u8, u8, u8, u8)>), pal_len: nat) -> bool {
    &&& m.0.0 <= 256 && m.0.1 <= 256 && m.0.2 <= 256
    &&& forall|j: int|
        0 <= j < m.1.len() ==> (#[trigger] m.1[j]).0 < m.0.0 && m.1[j].1 < m.0.1 && m.1[j].2 < m.0.2
            && m.1[j].3 < pal_len
}

/// Every decoded model is valid.
pub open spec fn decoded_valid(ms: Seq<((u32, u32, u32), Seq<(u8, u8, u8, u8)>)>, pal_len: nat) -> bool {
    forall|i: int| 0 <= i < ms.len() ==> model_valid(#[trigger] ms[i], pal_len)
}

/// The size along `axis` (0, 1 or 2).
pub open spec fn size_on(s: (u32, u32, u32), axis: int) -> u32 {
    if axis == 0 {
        s.0
    } else if axis == 1 {
        s.1
    } else {
        s.2
    }
}

/// The largest size along `axis` of the first `k` models.
pub open spec fn extent(ms: Seq<((u32, u32, u32), Seq<(u8, u8, u8, u8)>)>, k: int, axis: int) -> u32
    decreases k,
{
    if k <= 0 {
        0
    } else {
        let e = extent(ms, k - 1, axis);
        let v = size_on(ms[k - 1].0, axis);
        if v > e {
            v
        } else {
            e
        }
    }
}

/// Bricks needed to cover `e` voxels.
pub open spec fn bricks_along(e: u32) -> int {
    (e as int + 63) / 64
}

/// Position of brick `k` of a grid `ny` bricks deep along y and `nz` along z.
pub open spec fn grid_pos(k: int, ny: int, nz: int) -> (u16, u16, u16) {
    ((k / (ny * nz)) as u16, ((k / nz) % ny) as u16, (k % nz) as u16)
}

/// An `nx` by `ny` by `nz` grid of empty bricks, z varying fastest.
pub open spec fn grid(nx: int, ny: int, nz: int) -> Seq<BrickView> {
    Seq::new((nx * ny * nz) as nat, |k: int| empty_brick(grid_pos(k, ny, nz)))
}

/// The voxel that a decoded voxel becomes: its palette colour, smooth and
/// not metallic, so that it never equals the empty voxel.
pub open spec fn decoded_voxel(pal: Seq<(u8, u8, u8, u8)>, e: (u8, u8, u8, u8)) -> Voxel {
    let c = pal[e.3 as int];
    Voxel(pack_spec(c.0, c.1, c.2, 0, 0))
}

/// `bs` after writing the first `j` voxels of `vs`, in order.
pub open spec fn apply_voxels(
    bs: Seq<BrickView>,
    vs: Seq<(u8, u8, u8, u8)>,
    pal: Seq<(u8, u8, u8, u8)>,
    j: int,
) -> Seq<BrickView>
    decreases j,
{
    if j <= 0 {
        bs
    } else {
        let e = vs[j - 1];
        model_with(
            apply_voxels(bs, vs, pal, j - 1),
            e.0 as u64,
            e.1 as u64,
            e.2 as u64,
            decoded_voxel(pal, e),
        )
    }
}

/// `bs` after writing every voxel of the first `k` models, in order.
pub open spec fn apply_models(
    bs: Seq<BrickView>,
    ms: Seq<((u32, u32, u32), Seq<(u8, u8, u8, u8)>)>,
    pal: Seq<(u8, u8, u8, u8)>,
    k: int,
) -> Seq<BrickView>
    decreases k,
{
    if k <= 0 {
        bs
    } else {
        apply_voxels(apply_models(bs, ms, pal, k - 1), ms[k - 1].1, pal, ms[k - 1].1.len() as int)
    }
}

/// The bricks of a model loaded from decoded models `ms` with palette `pal`:
/// a grid of empty bricks covering the largest size along each axis, then
/// every voxel written in order.
pub open spec fn loaded_bricks(
    ms: Seq<((u32, u32, u32), Seq<(u8, u8, u8, u8)>)>,
    pal: Seq<(u8, u8, u8, u8)>,
) -> Seq<BrickView> {
    let n = ms.len() as int;
    apply_models(
        grid(
            bricks_along(extent(ms, n, 0)),
            bricks_along(extent(ms, n, 1)),
            bricks_along(extent(ms, n, 2)),
        ),
        ms,
        pal,
        n,
    )
}

/// What loading decoded models `ms` with palette `pal` gives.
pub open spec fn load_result(
    ms: Seq<((u32, u32, u32), Seq<(u8, u8, u8, u8)>)>,
    pal: Seq<(u8, u8, u8, u8)>,
    r: Result<VoxModel, VoxelError>,
) -> bool {
    &&& !decoded_valid(ms, pal.len()) ==> r == Err::<VoxModel, VoxelError>(
        VoxelError::ModelLoad(ModelLoadError::ParseError),
    )
    &&& decoded_valid(ms, pal.len()) ==> (r matches Ok(m) && m.wf() && m@ == loaded_bricks(ms, pal))
}

/// Whether every decoded model is valid.
fn check_decoded(models: &Vec<DecodedModel>, pal_len: usize) -> (r: bool)
    ensures
        r == decoded_valid(decoded_view(models@), pal_len as nat),
{
    let ghost dv = decoded_view(models@);
    let mut i: usize = 0;
    while i < models.len()
        invariant
            i <= models@.len(),
            dv == decoded_view(models@),
            forall|k: int| 0 <= k < i ==> model_valid(#[trigger] dv[k], pal_len as nat),
        decreases models@.len() - i,
    {
        let m = &models[i];
        assert(dv[i as int] == (m.size, m.voxels@));
        if m.size.0 > 256 || m.size.1 > 256 || m.size.2 > 256 {
            assert(!model_valid(dv[i as int], pal_len as nat));
            return false;
        }
        let mut j: usize = 0;
        while j < m.voxels.len()
            invariant
                j <= m.voxels@.len(),
                i < models@.len(),
                dv == decoded_view(models@),
                dv[i as int] == (m.size, m.voxels@),
                forall|t: int|
                    0 <= t < j ==> (#[trigger] m.voxels@[t]).0 < m.size.0 && m.voxels@[t].1 < m.size.1
                        && m.voxels@[t].2 < m.size.2 && m.voxels@[t].3 < pal_len,
            decreases m.voxels@.len() - j,
        {
            let v = m.voxels[j];
            if !((v.0 as u32) < m.size.0 && (v.1 as u32) < m.size.1 && (v.2 as u32) < m.size.2
                && (v.3 as usize) < pal_len) {
                assert(dv[i as int].1[j as int] == v);
                assert(!model_valid(dv[i as int], pal_len as nat));
                return false;
            }
            j = j + 1;
        }
        i = i + 1;
    }
    true
}

/// The largest size along `axis` over all models.
fn max_extent(models: &Vec<DecodedModel>, axis: usize) -> (r: u32)
    requires
        axis < 3,
    ensures
        r == extent(decoded_view(models@), models@.len() as int, axis as int),
{
    let ghost dv = decoded_view(models@);
    let mut e: u32 = 0;
    let mut i: usize = 0;
    while i < models.len()
        invariant
            i <= models@.len(),
            dv == decoded_view(models@),
            axis < 3,
            e == extent(dv, i as int, axis as int),
        decreases models@.len() - i,
    {
        let s = models[i].size;
        assert(dv[i as int].0 == s);
        let v = if axis == 0 {
            s.0
        } else if axis == 1 {
            s.1
        } else {
            s.2
        };
        if v > e {
            e = v;
        }
        i = i + 1;
    }
    e
}

/// Distinct bricks of a grid sit at distinct positions.
proof fn lemma_grid_distinct(k1: int, k2: int, ny: int, nz: int)
    requires
        0 <= k1 < k2 < 65536,
        1 <= ny,
        1 <= nz,
        ny <= 4,
        nz <= 4,
    ensures
        grid_pos(k1, ny, nz) != grid_pos(k2, ny, nz),
{
    let d = ny * nz;
    assert(d == nz * ny && d >= 1) by (nonlinear_arith)
        requires
            d == ny * nz,
            ny >= 1,
            nz >= 1,
    ;
    lemma_grid_decompose(k1, ny, nz);
    lemma_grid_decompose(k2, ny, nz);
}

proof fn lemma_grid_decompose(k: int, ny: int, nz: int)
    requires
        0 <= k < 65536,
        1 <= ny,
        1 <= nz,
    ensures
        k == (ny * nz) * (k / (ny * nz)) + nz * ((k / nz) % ny) + k % nz,
        0 <= k / (ny * nz) <= k,
        0 <= (k / nz) % ny < ny,
        0 <= k % nz < nz,
{
    let d = ny * nz;
    assert(d == nz * ny && d >= 1) by (nonlinear_arith)
        requires
            d == ny * nz,
            ny >= 1,
            nz >= 1,
    ;
    vstd::arithmetic::div_mod::lemma_fundamental_div_mod(k, d);
    vstd::arithmetic::div_mod::lemma_breakdown(k, nz, ny);
    vstd::arithmetic::div_mod::lemma_div_is_ordered_by_denominator(k, 1, d);
    vstd::arithmetic::div_mod::lemma_mod_pos_bound(k / nz, ny);
    vstd::arithmetic::div_mod::lemma_mod_pos_bound(k, nz);
    vstd::arithmetic::div_mod::lemma_div_pos_is_pos(k, nz);
    vstd::arithmetic::div_mod::lemma_div_pos_is_pos(k, d);
}

/// Under validity no model is wider than 256 voxels along any axis.
proof fn lemma_extent_bound(
    ms: Seq<((u32, u32, u32), Seq<(u8, u8, u8, u8)>)>,
    pal_len: nat,
    k: int,
    axis: int,
)
    requires
        decoded_valid(ms, pal_len),
        0 <= k <= ms.len(),
    ensures
        extent(ms, k, axis) <= 256,
    decreases k,
{
    if k > 0 {
        lemma_extent_bound(ms, pal_len, k - 1, axis);
        assert(model_valid(ms[k - 1], pal_len));
    }
}

impl VoxModel {
    /// Builds a model from decoded voxel-file content: enough empty bricks to
    /// cover the largest model size along each axis, then every voxel of
    /// every model written in order. Fails with `ParseError` where a model is
    /// wider than 256 voxels, or a voxel lies outside its model or names no
    /// palette entry.
    pub fn from_decoded(models: &Vec<DecodedModel>, palette: &Vec<(u8, u8, u8, u8)>) -> (r: Result<
        VoxModel,
        VoxelError,
    >)
        ensures
            load_result(decoded_view(models@), palette@, r),
    {
        let ghost dv = decoded_view(models@);
        let ghost pal = palette@;
        if !check_decoded(models, palette.len()) {
            return Err(VoxelError::ModelLoad(ModelLoadError::ParseError));
        }
        let ex = max_extent(models, 0);
        let ey = max_extent(models, 1);
        let ez = max_extent(models, 2);
        proof {
            lemma_extent_bound(dv, pal.len(), dv.len() as int, 0);
            lemma_extent_bound(dv, pal.len(), dv.len() as int, 1);
            lemma_extent_bound(dv, pal.len(), dv.len() as int, 2);
        }
        let nx = ((ex + 63) / 64) as usize;
        let ny = ((ey + 63) / 64) as usize;
        let nz = ((ez + 63) / 64) as usize;
        assert(nx <= 4 && ny <= 4 && nz <= 4);
        assert(nx * ny <= 16 && nx * ny * nz <= 64) by (nonlinear_arith)
            requires
                nx <= 4 && ny <= 4 && nz <= 4,
        ;
        let n = nx * ny * nz;
        let ghost g = grid(nx as int, ny as int, nz as int);
        let mut bricks: Vec<Brick> = Vec::new();
        let mut k: usize = 0;
        while k < n
            invariant
                n == nx * ny * nz,
                n <= 64,
                nx <= 4 && ny <= 4 && nz <= 4,
                g == grid(nx as int, ny as int, nz as int),
                k <= n,
                bricks@.len() == k,
                all_wf(bricks@),
                forall|t: int| 0 <= t < k ==> (#[trigger] bricks@[t])@ == g[t],
            decreases n - k,
        {
            assert(ny * nz > 0 && nz > 0 && ny * nz <= 16) by (nonlinear_arith)
                requires
                    k < n,
                    n == nx * ny * nz,
                    ny <= 4 && nz <= 4,
            ;
            let x = k / (ny * nz);
            let y = (k / nz) % ny;
            let z = k % nz;
            let b = Brick::empty(x as u16, y as u16, z as u16);
            bricks.push(b);
            k = k + 1;
        }
        proof {
            let bv = bricks_view(bricks@);
            assert(bv =~= g);
            assert forall|i: int, j: int| 0 <= i < j < g.len() implies (#[trigger] g[i]).pos != (
            #[trigger] g[j]).pos by {
                assert(ny >= 1 && nz >= 1) by (nonlinear_arith)
                    requires
                        0 <= j < nx * ny * nz,
                        0 <= nx,
                        0 <= ny,
                        0 <= nz,
                ;
                lemma_grid_distinct(i, j, ny as int, nz as int);
            }
        }
        let mut vm = VoxModel::from_bricks(bricks);
        assert(vm@ =~= g);
        assert(apply_models(g, dv, pal, 0) == g);
        let mut i: usize = 0;
        while i < models.len()
            invariant
                dv == decoded_view(models@),
                pal == palette@,
                decoded_valid(dv, pal.len()),
                i <= models@.len(),
                vm.wf(),
                vm@ == apply_models(g, dv, pal, i as int),
            decreases models@.len() - i,
        {
            let m = &models[i];
            assert(dv[i as int] == (m.size, m.voxels@));
            assert(model_valid(dv[i as int], pal.len()));
            let mut j: usize = 0;
            while j < m.voxels.len()
                invariant
                    dv == decoded_view(models@),
                    pal == palette@,
                    i < models@.len(),
                    dv[i as int] == (m.size, m.voxels@),
                    model_valid(dv[i as int], pal.len()),
                    j <= m.voxels@.len(),
                    vm.wf(),
                    vm@ == apply_voxels(apply_models(g, dv, pal, i as int), m.voxels@, pal, j as int),
                decreases m.voxels@.len() - j,
            {
                let v = m.voxels[j];
                assert(dv[i as int].1[j as int] == v);
                let c = palette[v.3 as usize];
                let _ = vm.set_voxel(v.0 as u64, v.1 as u64, v.2 as u64, Voxel::new(c.0, c.1, c.2, 0, 0));
                j = j + 1;
            }
            i = i + 1;
        }
        Ok(vm)
    }

    /// Loads a model from the bytes of a MagicaVoxel file. Fails with
    /// `ParseError` where chunks nest more than one level deep or the bytes
    /// are no such file, and as `from_decoded` does on what they hold.
    pub fn from_bytes(bytes: &[u8]) -> (r: Result<VoxModel, VoxelError>)
        ensures
            !chunks_flat(bytes@) ==> r == Err::<VoxModel, VoxelError>(
                VoxelError::ModelLoad(ModelLoadError::ParseError),
            ),
            chunks_flat(bytes@) ==> match vox_file(bytes@) {
                None => r == Err::<VoxModel, VoxelError>(
                    VoxelError::ModelLoad(ModelLoadError::ParseError),
                ),
                Some((ms, pal)) => load_result(ms, pal, r),
            },
    {
        if !check_chunks_flat(bytes) {
            return Err(VoxelError::ModelLoad(ModelLoadError::ParseError));
        }
        match parse_vox(bytes) {
            None => Err(VoxelError::ModelLoad(ModelLoadError::ParseError)),
            Some((ms, pal)) => VoxModel::from_decoded(&ms, &pal),
        }
    }
}

} // verus!
