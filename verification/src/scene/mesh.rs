//! One model's or one cell's geometry, as the flat buffers a renderer wants.

use super::bits::{Bits, ONE, ZERO};
use super::nif::GeometryData;
use vstd::prelude::*;

verus! {

/// The bits of 0.5.
pub const HALF: Bits = 0x3F00_0000;

/// The bits of -0.5.
pub const MINUS_HALF: Bits = 0xBF00_0000;

/// One run of a mesh's indices drawn with a single material.
#[derive(Debug, Clone, Copy, PartialEq, Eq, Structural)]
pub struct Submesh {
    pub first_index: u32,
    pub index_count: u32,
    /// Index into the scene's material table.
    pub material: u32,
    /// Whether this run is a *sheet* rather than the skin of something solid.
    ///
    /// Cloth and foliage are single layers of triangles that light goes through, and knowing which
    /// runs are sheets is what lets a renderer light them from either face.
    pub thin: bool,
}

impl Submesh {
    /// Triangles in this run.
    pub fn triangle_count(&self) -> (r: usize)
        ensures
            r == self.index_count / 3,
    {
        self.index_count as usize / 3
    }
}

/// One model's visible geometry.
///
/// A model is one mesh but rarely one surface — a lantern is glass and metal — so the split into
/// runs of one material survives the flattening: runs cover the whole index buffer with no gaps.
#[derive(Debug)]
pub struct Mesh {
    pub positions: Vec<[Bits; 3]>,
    /// Always parallel to `positions`. Zero where the source carried no normal.
    pub normals: Vec<[Bits; 3]>,
    /// Always parallel to `positions`. Zero where the source carried no texture coordinates.
    pub uvs: Vec<[Bits; 2]>,
    pub indices: Vec<u32>,
    pub submeshes: Vec<Submesh>,
}

/// What a [`Mesh`] is.
#[verifier::ext_equal]
pub struct MeshModel {
    pub positions: Seq<[Bits; 3]>,
    pub normals: Seq<[Bits; 3]>,
    pub uvs: Seq<[Bits; 2]>,
    pub indices: Seq<u32>,
    pub submeshes: Seq<Submesh>,
}

impl View for Mesh {
    type V = MeshModel;

    open spec fn view(&self) -> MeshModel {
        MeshModel {
            positions: self.positions@,
            normals: self.normals@,
            uvs: self.uvs@,
            indices: self.indices@,
            submeshes: self.submeshes@,
        }
    }
}

/// Whether runs cover exactly the first `end` indices, one after the other.
pub open spec fn covers(runs: Seq<Submesh>, end: int) -> bool
    decreases runs.len(),
{
    if runs.len() == 0 {
        end == 0
    } else {
        let last = runs.last();
        &&& last.first_index + last.index_count == end
        &&& covers(runs.drop_last(), last.first_index as int)
    }
}

impl MeshModel {
    /// The three vertex arrays are parallel, and the runs cover the whole index buffer.
    pub open spec fn wf(self) -> bool {
        &&& self.normals.len() == self.positions.len()
        &&& self.uvs.len() == self.positions.len()
        &&& covers(self.submeshes, self.indices.len() as int)
    }
}

/// A mesh with nothing in it.
pub open spec fn empty_mesh() -> MeshModel {
    MeshModel {
        positions: Seq::empty(),
        normals: Seq::empty(),
        uvs: Seq::empty(),
        indices: Seq::empty(),
        submeshes: Seq::empty(),
    }
}

/// Runs with one more at the end: it extends the last where that shares its material.
///
/// Adjacent pieces of one material merge and others do not, which keeps the geometry count down
/// without reordering any indices.
pub open spec fn with_run(
    runs: Seq<Submesh>,
    first_index: u32,
    index_count: u32,
    material: u32,
) -> Seq<Submesh> {
    if runs.len() > 0 && runs.last().material == material {
        let last = runs.last();
        runs.update(
            runs.len() - 1,
            Submesh { index_count: (last.index_count + index_count) as u32, ..last },
        )
    } else {
        runs.push(Submesh { first_index, index_count, material, thin: false })
    }
}

/// The indices some triangles name, counted from vertex `base`.
pub open spec fn rebased(triangles: Seq<[u16; 3]>, base: int) -> Seq<u32> {
    Seq::new(triangles.len() * 3, |i: int| (base + triangles[i / 3]@[i % 3]) as u32)
}

/// The normals of a piece: its own where it has one for each vertex, and zeroes otherwise.
///
/// Zero rather than an arbitrary axis: it is detectably invalid, so a shader can fall back to the
/// face normal.
pub open spec fn piece_normals(data: GeometryData) -> Seq<[Bits; 3]> {
    if data.normals@.len() == data.vertices@.len() {
        data.normals@
    } else {
        Seq::new(data.vertices@.len(), |i: int| [ZERO, ZERO, ZERO])
    }
}

/// The texture coordinates of a piece: its first set where that has one for each vertex, and zeroes
/// otherwise.
pub open spec fn piece_uvs(data: GeometryData) -> Seq<[Bits; 2]> {
    if data.uv_sets@.len() > 0 && data.uv_sets@[0]@.len() == data.vertices@.len() {
        data.uv_sets@[0]@
    } else {
        Seq::new(data.vertices@.len(), |i: int| [ZERO, ZERO])
    }
}

/// Whether a piece has anything to draw.
pub open spec fn drawable(data: GeometryData) -> bool {
    data.vertices@.len() > 0 && data.triangles@.len() > 0
}

/// A mesh with one more piece in it.
pub open spec fn appended(mesh: MeshModel, data: GeometryData, material: u32) -> MeshModel {
    if !drawable(data) {
        mesh
    } else {
        MeshModel {
            positions: mesh.positions + data.vertices@,
            normals: mesh.normals + piece_normals(data),
            uvs: mesh.uvs + piece_uvs(data),
            indices: mesh.indices + rebased(data.triangles@, mesh.positions.len() as int),
            submeshes: with_run(
                mesh.submeshes,
                mesh.indices.len() as u32,
                (data.triangles@.len() * 3) as u32,
                material,
            ),
        }
    }
}

/// Whether one more piece leaves every vertex and index within thirty-two bits.
pub open spec fn has_room(mesh: MeshModel, data: GeometryData) -> bool {
    &&& mesh.positions.len() + data.vertices@.len() + u16::MAX <= u32::MAX
    &&& mesh.indices.len() + data.triangles@.len() * 3 <= u32::MAX
}

/// Adding a run at the end of what is covered covers it too.
pub proof fn lemma_run_covers(
    runs: Seq<Submesh>,
    end: int,
    index_count: u32,
    material: u32,
)
    requires
        covers(runs, end),
        0 <= end,
        end + index_count <= u32::MAX,
    ensures
        covers(with_run(runs, end as u32, index_count, material), end + index_count),
{
    let after = with_run(runs, end as u32, index_count, material);
    if runs.len() > 0 && runs.last().material == material {
        assert(after.drop_last() =~= runs.drop_last());
    } else {
        assert(after.drop_last() =~= runs);
    }
}

/// Where runs cover the indices, the last ends within them.
pub proof fn lemma_covers_last(runs: Seq<Submesh>, end: int)
    requires
        covers(runs, end),
        runs.len() > 0,
    ensures
        runs.last().first_index + runs.last().index_count == end,
{
}

/// **Every run begins where the one before it ends**, the first at the start of the buffer and the
/// last ending with it.
pub proof fn law_runs_tile_the_indices(runs: Seq<Submesh>, end: int, i: int)
    requires
        covers(runs, end),
        0 <= i < runs.len(),
    ensures
        i == 0 ==> runs[i].first_index == 0,
        i > 0 ==> runs[i].first_index == runs[i - 1].first_index + runs[i - 1].index_count,
        i == runs.len() - 1 ==> runs[i].first_index + runs[i].index_count == end,
        runs[i].first_index + runs[i].index_count <= end,
    decreases runs.len(),
{
    let last = runs.last();
    let rest = runs.drop_last();
    if i < runs.len() - 1 {
        law_runs_tile_the_indices(rest, last.first_index as int, i);
    } else if i > 0 {
        lemma_covers_last(rest, last.first_index as int);
    } else {
        assert(rest.len() == 0);
        reveal_with_fuel(covers, 2);
    }
}

/// A unit square in the XY plane facing up, drawn with one material.
pub open spec fn plane(material: u32) -> MeshModel {
    MeshModel {
        positions: seq![
            [MINUS_HALF, MINUS_HALF, ZERO],
            [HALF, MINUS_HALF, ZERO],
            [HALF, HALF, ZERO],
            [MINUS_HALF, HALF, ZERO],
        ],
        normals: Seq::new(4, |i: int| [ZERO, ZERO, ONE]),
        uvs: Seq::new(4, |i: int| [ZERO, ZERO]),
        indices: seq![0u32, 1, 2, 0, 2, 3],
        submeshes: seq![Submesh { first_index: 0, index_count: 6, material, thin: false }],
    }
}

impl Mesh {
    /// A mesh with nothing in it.
    pub fn new() -> (r: Mesh)
        ensures
            r@ == empty_mesh(),
            r@.wf(),
    {
        let r: Mesh = Mesh {
            positions: Vec::new(),
            normals: Vec::new(),
            uvs: Vec::new(),
            indices: Vec::new(),
            submeshes: Vec::new(),
        };
        assert(r@ =~= empty_mesh());
        r
    }

    /// Triangles in the mesh.
    pub fn triangle_count(&self) -> (r: usize)
        ensures
            r == self@.indices.len() / 3,
    {
        self.indices.len() / 3
    }

    /// Whether there is nothing to draw.
    pub fn is_empty(&self) -> (r: bool)
        ensures
            r == (self@.indices.len() == 0),
    {
        self.indices.len() == 0
    }

    /// Extends the last run when it shares `material`, or starts a new one.
    pub fn push_run(&mut self, first_index: u32, index_count: u32, material: u32)
        requires
            old(self)@.submeshes.len() > 0 && old(self)@.submeshes.last().material == material
                ==> old(self)@.submeshes.last().index_count + index_count <= u32::MAX,
        ensures
            final(self)@ == (MeshModel {
                submeshes: with_run(old(self)@.submeshes, first_index, index_count, material),
                ..old(self)@
            }),
    {
        let count: usize = self.submeshes.len();
        if count > 0 && self.submeshes[count - 1].material == material {
            let last: Submesh = self.submeshes[count - 1];
            self.submeshes[count - 1] =
            Submesh { index_count: last.index_count + index_count, ..last };
        } else {
            self.submeshes.push(Submesh { first_index, index_count, material, thin: false });
        }
    }

    /// Appends one piece, in its own space and tagged with its material.
    pub fn append(&mut self, data: &GeometryData, material: u32)
        requires
            old(self)@.wf(),
            has_room(old(self)@, *data),
        ensures
            final(self)@ == appended(old(self)@, *data, material),
            final(self)@.wf(),
    {
        if data.vertices.len() == 0 || data.triangles.len() == 0 {
            return;
        }
        let ghost before = self@;
        assert(self.positions@.len() == self.positions.len());
        assert(self.indices@.len() == self.indices.len());
        let base: u32 = self.positions.len() as u32;
        let first_index: u32 = self.indices.len() as u32;
        let count: usize = data.vertices.len();
        push_all(&mut self.positions, &data.vertices);
        if data.normals.len() == count {
            push_all(&mut self.normals, &data.normals);
        } else {
            push_zeroes3(&mut self.normals, count);
        }
        if data.uv_sets.len() > 0 && data.uv_sets[0].len() == count {
            push_all(&mut self.uvs, &data.uv_sets[0]);
        } else {
            push_zeroes2(&mut self.uvs, count);
        }
        push_triangles(&mut self.indices, &data.triangles, base);
        let added: u32 = (data.triangles.len() * 3) as u32;
        proof {
            lemma_run_covers(
                before.submeshes,
                before.indices.len() as int,
                added,
                material,
            );
            if before.submeshes.len() > 0 {
                lemma_covers_last(before.submeshes, before.indices.len() as int);
            }
        }
        self.push_run(first_index, added, material);
        assert(self@ =~= appended(before, *data, material));
    }

    /// A unit quad in the XY plane facing up, which is every water surface in the game.
    ///
    /// Water is flat, so every cell's surface is the same geometry moved and scaled: one mesh with
    /// an instance per cell.
    pub fn water_plane(material: u32) -> (r: Mesh)
        ensures
            r@.wf(),
            r@ == plane(material),
    {
        let up: [Bits; 3] = [ZERO, ZERO, ONE];
        let r: Mesh = Mesh {
            positions: vec![
                [MINUS_HALF, MINUS_HALF, ZERO],
                [HALF, MINUS_HALF, ZERO],
                [HALF, HALF, ZERO],
                [MINUS_HALF, HALF, ZERO],
            ],
            normals: vec![up, up, up, up],
            uvs: vec![[ZERO, ZERO], [ZERO, ZERO], [ZERO, ZERO], [ZERO, ZERO]],
            indices: vec![0, 1, 2, 0, 2, 3],
            submeshes: vec![Submesh { first_index: 0, index_count: 6, material, thin: false }],
        };
        proof {
            assert(r@.submeshes.drop_last() =~= Seq::<Submesh>::empty());
            reveal_with_fuel(covers, 2);
            assert(r@ =~= plane(material));
        }
        r
    }
}

/// Indices that count from vertex `base` on.
pub open spec fn shifted(indices: Seq<u32>, base: int) -> Seq<u32> {
    Seq::new(indices.len(), |i: int| (indices[i] + base) as u32)
}

/// Runs that begin `base` indices further on.
pub open spec fn shifted_runs(runs: Seq<Submesh>, base: int) -> Seq<Submesh> {
    Seq::new(
        runs.len(),
        |i: int| Submesh { first_index: (runs[i].first_index + base) as u32, ..runs[i] },
    )
}

/// A mesh with another stacked onto it.
pub open spec fn stacked(mesh: MeshModel, other: MeshModel) -> MeshModel {
    MeshModel {
        positions: mesh.positions + other.positions,
        normals: mesh.normals + other.normals,
        uvs: mesh.uvs + other.uvs,
        indices: mesh.indices + shifted(other.indices, mesh.positions.len() as int),
        submeshes: mesh.submeshes + shifted_runs(other.submeshes, mesh.indices.len() as int),
    }
}

/// Whether another mesh can be stacked onto one within thirty-two bits.
pub open spec fn stackable(mesh: MeshModel, other: MeshModel) -> bool {
    &&& mesh.positions.len() <= u32::MAX
    &&& mesh.indices.len() + other.indices.len() <= u32::MAX
    &&& forall|i: int|
        0 <= i < other.indices.len() ==> #[trigger] other.indices[i] + mesh.positions.len()
            <= u32::MAX
}

/// Stacked runs cover what the two sets of runs cover, one after the other.
proof fn lemma_stacked_covers(a: Seq<Submesh>, m: int, b: Seq<Submesh>, n: int)
    requires
        covers(a, m),
        covers(b, n),
        0 <= m,
        0 <= n,
        m + n <= u32::MAX,
    ensures
        covers(a + shifted_runs(b, m), m + n),
    decreases b.len(),
{
    let more = shifted_runs(b, m);
    if b.len() == 0 {
        assert(a + more =~= a);
    } else {
        let last = b.last();
        let rest = b.drop_last();
        lemma_stacked_covers(a, m, rest, last.first_index as int);
        assert(more.drop_last() =~= shifted_runs(rest, m));
        assert((a + more).drop_last() =~= a + more.drop_last());
        assert((a + more).last() == more.last());
    }
}

impl Mesh {
    /// Appends `other` whole, rebasing its indices and runs onto what is already here.
    ///
    /// What an assembled body is built by: a person is a dozen files, each flattened on its own and
    /// then stacked into one mesh.
    pub fn absorb(&mut self, other: &Mesh)
        requires
            old(self)@.wf(),
            other@.wf(),
            stackable(old(self)@, other@),
        ensures
            final(self)@ == stacked(old(self)@, other@),
            final(self)@.wf(),
    {
        let ghost before = self@;
        let vertex_base: u32 = self.positions.len() as u32;
        let index_base: u32 = self.indices.len() as u32;
        push_all(&mut self.positions, &other.positions);
        push_all(&mut self.normals, &other.normals);
        push_all(&mut self.uvs, &other.uvs);
        let mut i: usize = 0;
        while i < other.indices.len()
            invariant
                i <= other.indices@.len(),
                vertex_base == before.positions.len(),
                stackable(before, other@),
                before.indices + shifted(other.indices@.take(i as int), vertex_base as int)
                    == self.indices@,
                self.positions@ == before.positions + other.positions@,
                self.normals@ == before.normals + other.normals@,
                self.uvs@ == before.uvs + other.uvs@,
                self.submeshes@ == before.submeshes,
            decreases other.indices@.len() - i,
        {
            assert(other@.indices[i as int] + before.positions.len() <= u32::MAX);
            self.indices.push(other.indices[i] + vertex_base);
            i = i + 1;
            assert(self.indices@ =~= before.indices + shifted(
                other.indices@.take(i as int),
                vertex_base as int,
            ));
        }
        assert(other.indices@.take(i as int) =~= other.indices@);
        let mut k: usize = 0;
        while k < other.submeshes.len()
            invariant
                k <= other.submeshes@.len(),
                index_base == before.indices.len(),
                other@.wf(),
                stackable(before, other@),
                before.submeshes + shifted_runs(other.submeshes@.take(k as int), index_base as int)
                    == self.submeshes@,
                self.positions@ == before.positions + other.positions@,
                self.normals@ == before.normals + other.normals@,
                self.uvs@ == before.uvs + other.uvs@,
                self.indices@ == before.indices + shifted(
                    other.indices@,
                    before.positions.len() as int,
                ),
            decreases other.submeshes@.len() - k,
        {
            let run: Submesh = other.submeshes[k];
            proof {
                law_runs_tile_the_indices(
                    other.submeshes@,
                    other.indices@.len() as int,
                    k as int,
                );
            }
            self.submeshes.push(Submesh { first_index: run.first_index + index_base, ..run });
            k = k + 1;
            assert(self.submeshes@ =~= before.submeshes + shifted_runs(
                other.submeshes@.take(k as int),
                index_base as int,
            ));
        }
        proof {
            assert(other.submeshes@.take(k as int) =~= other.submeshes@);
            lemma_stacked_covers(
                before.submeshes,
                before.indices.len() as int,
                other.submeshes@,
                other.indices@.len() as int,
            );
            assert(self@ =~= stacked(before, other@));
        }
    }
}

/// Appends everything in one list to another.
pub fn push_all<T: Copy>(out: &mut Vec<T>, more: &Vec<T>)
    ensures
        final(out)@ == old(out)@ + more@,
{
    let mut i: usize = 0;
    while i < more.len()
        invariant
            i <= more@.len(),
            out@ == old(out)@ + more@.take(i as int),
        decreases more@.len() - i,
    {
        out.push(more[i]);
        i = i + 1;
        assert(out@ =~= old(out)@ + more@.take(i as int));
    }
    assert(more@.take(i as int) =~= more@);
}

/// Appends `count` zero vectors.
fn push_zeroes3(out: &mut Vec<[Bits; 3]>, count: usize)
    ensures
        final(out)@ == old(out)@ + Seq::new(count as nat, |i: int| [ZERO, ZERO, ZERO]),
{
    let zero: [Bits; 3] = [ZERO, ZERO, ZERO];
    let mut i: usize = 0;
    while i < count
        invariant
            i <= count,
            zero == [ZERO, ZERO, ZERO],
            out@ == old(out)@ + Seq::new(i as nat, |k: int| [ZERO, ZERO, ZERO]),
        decreases count - i,
    {
        out.push(zero);
        i = i + 1;
        assert(out@ =~= old(out)@ + Seq::new(i as nat, |k: int| [ZERO, ZERO, ZERO]));
    }
}

/// Appends `count` zero pairs.
fn push_zeroes2(out: &mut Vec<[Bits; 2]>, count: usize)
    ensures
        final(out)@ == old(out)@ + Seq::new(count as nat, |i: int| [ZERO, ZERO]),
{
    let zero: [Bits; 2] = [ZERO, ZERO];
    let mut i: usize = 0;
    while i < count
        invariant
            i <= count,
            zero == [ZERO, ZERO],
            out@ == old(out)@ + Seq::new(i as nat, |k: int| [ZERO, ZERO]),
        decreases count - i,
    {
        out.push(zero);
        i = i + 1;
        assert(out@ =~= old(out)@ + Seq::new(i as nat, |k: int| [ZERO, ZERO]));
    }
}

/// Appends the indices some triangles name, counted from vertex `base`.
fn push_triangles(out: &mut Vec<u32>, triangles: &Vec<[u16; 3]>, base: u32)
    requires
        base + u16::MAX <= u32::MAX,
    ensures
        final(out)@ == old(out)@ + rebased(triangles@, base as int),
{
    let mut i: usize = 0;
    while i < triangles.len()
        invariant
            base + u16::MAX <= u32::MAX,
            i <= triangles@.len(),
            out@ == old(out)@ + rebased(triangles@.take(i as int), base as int),
        decreases triangles@.len() - i,
    {
        let triangle: [u16; 3] = triangles[i];
        out.push(base + triangle[0] as u32);
        out.push(base + triangle[1] as u32);
        out.push(base + triangle[2] as u32);
        proof {
            let more = rebased(triangles@.take(i + 1), base as int);
            let less = rebased(triangles@.take(i as int), base as int);
            let three = seq![
                (base + triangle@[0]) as u32,
                (base + triangle@[1]) as u32,
                (base + triangle@[2]) as u32,
            ];
            assert forall|k: int| 0 <= k < more.len() implies #[trigger] more[k] == (less
                + three)[k] by {
                if k >= less.len() {
                    assert(k / 3 == i && k % 3 == k - 3 * i);
                }
            }
            assert(more =~= less + three);
            assert(out@ =~= old(out)@ + more);
        }
        i = i + 1;
    }
    assert(triangles@.take(i as int) =~= triangles@);
}

} // verus!
