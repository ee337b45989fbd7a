//! Telling the sheets of an assembled body from its solids, each piece by itself.

use super::actor::{
    all_part_spans, part_spans, rewound, AssembledActor, PartSpan, PartSpanModel,
};
use super::bits::{greater, is_greater, Bits};
use super::flatten::SpanModel;
use super::material::{AlphaMode, Material};
use super::material_table::MaterialTable;
use super::mesh::{covers, shifted, shifted_runs, stacked, Mesh, MeshModel, Submesh};
use super::sheets::{
    bordered, distinct_count, edge_at, edges, find_border, first_places, in_range, is_cut_out,
    is_first, is_lone, lemma_bounded, lone_count, lone_places, places_of, quantised, sheet_run,
    told_apart, THIN_VOLUME,
};
use vstd::prelude::*;
use vstd::relations::injective_on;
use vstd::set_lib::lemma_map_size;

verus! {

/// The first vertex of the piece a vertex is of: the last that a piece begins at and that does not
/// come after it.
pub open spec fn piece_start(spans: Seq<PartSpanModel>, vertex: u32) -> u32
    decreases spans.len(),
{
    if spans.len() == 0 {
        0
    } else {
        let before = piece_start(spans.drop_last(), vertex);
        let base = spans.last().base_vertex;
        if before < base <= vertex {
            base
        } else {
            before
        }
    }
}

/// The first vertex of the piece a run is of.
pub open spec fn run_start(mesh: MeshModel, spans: Seq<PartSpanModel>, run: Submesh) -> u32 {
    if run.first_index < mesh.indices.len() {
        piece_start(spans, mesh.indices[run.first_index as int])
    } else {
        0
    }
}

/// The corners of a run.
pub open spec fn run_indices(mesh: MeshModel, run: Submesh) -> Seq<u32> {
    mesh.indices.subrange(run.first_index as int, run.first_index + run.index_count)
}

/// The corners of those of the first `n` runs that are of the piece beginning at `start`.
pub open spec fn piece_indices(
    mesh: MeshModel,
    spans: Seq<PartSpanModel>,
    start: u32,
    n: nat,
) -> Seq<u32>
    decreases n,
{
    if n == 0 {
        Seq::empty()
    } else {
        let before = piece_indices(mesh, spans, start, (n - 1) as nat);
        if run_start(mesh, spans, mesh.submeshes[n - 1]) == start {
            before + run_indices(mesh, mesh.submeshes[n - 1])
        } else {
            before
        }
    }
}

/// Whether the piece beginning at `start` is open.
pub open spec fn piece_is_open(mesh: MeshModel, spans: Seq<PartSpanModel>, start: u32) -> bool {
    bordered(
        piece_indices(mesh, spans, start, mesh.submeshes.len()),
        places_of(mesh.positions),
    )
}

/// A run of a body with its kind decided by the piece it is of.
pub open spec fn piece_run(
    mesh: MeshModel,
    spans: Seq<PartSpanModel>,
    materials: Seq<Material>,
    volumes: Seq<Bits>,
    i: int,
) -> Submesh {
    sheet_run(
        mesh.submeshes[i],
        is_cut_out(mesh.submeshes[i], materials),
        piece_is_open(mesh, spans, run_start(mesh, spans, mesh.submeshes[i])),
        greater(THIN_VOLUME, volumes[i]),
    )
}

/// A body with the sheets of each of its pieces told from its solids.
pub open spec fn told_by_piece(
    mesh: MeshModel,
    spans: Seq<PartSpanModel>,
    materials: Seq<Material>,
    volumes: Seq<Bits>,
) -> MeshModel {
    MeshModel {
        submeshes: Seq::new(
            mesh.submeshes.len(),
            |i: int| piece_run(mesh, spans, materials, volumes, i),
        ),
        ..mesh
    }
}

/// Whether every run lies within the corners of a mesh.
pub open spec fn runs_fit(mesh: MeshModel) -> bool {
    forall|i: int|
        0 <= i < mesh.submeshes.len() ==> (#[trigger] mesh.submeshes[i]).first_index
            + mesh.submeshes[i].index_count <= mesh.indices.len()
}

/// The corners of a piece name vertices where those of the mesh do.
proof fn lemma_piece_in_range(
    mesh: MeshModel,
    spans: Seq<PartSpanModel>,
    start: u32,
    n: nat,
    vertices: int,
)
    requires
        n <= mesh.submeshes.len(),
        runs_fit(mesh),
        in_range(mesh.indices, vertices),
    ensures
        in_range(piece_indices(mesh, spans, start, n), vertices),
    decreases n,
{
    if n > 0 {
        lemma_piece_in_range(mesh, spans, start, (n - 1) as nat, vertices);
        let run = mesh.submeshes[n - 1];
        let before = piece_indices(mesh, spans, start, (n - 1) as nat);
        let all = before + run_indices(mesh, run);
        assert forall|i: int| 0 <= i < all.len() implies #[trigger] all[i] < vertices by {
            if i >= before.len() {
                assert(all[i] == mesh.indices[run.first_index + (i - before.len())]);
            } else {
                assert(all[i] == before[i]);
            }
        }
    }
}

/// The first vertex of the piece a vertex is of.
fn find_piece(spans: &Vec<PartSpan>, vertex: u32) -> (r: u32)
    ensures
        r == piece_start(all_part_spans(spans@), vertex),
{
    let ghost all = all_part_spans(spans@);
    let mut r: u32 = 0;
    let mut i: usize = 0;
    while i < spans.len()
        invariant
            all == all_part_spans(spans@),
            i <= spans@.len(),
            r == piece_start(all.take(i as int), vertex),
        decreases spans@.len() - i,
    {
        assert(all.take(i + 1).drop_last() =~= all.take(i as int));
        assert(all.take(i + 1).last() == spans@[i as int]@);
        let base: u32 = spans[i].base_vertex;
        if r < base && base <= vertex {
            r = base;
        }
        i = i + 1;
    }
    assert(all.take(i as int) =~= all);
    r
}

/// The first vertex of the piece a run is of.
fn find_run_piece(mesh: &Mesh, spans: &Vec<PartSpan>, run: &Submesh) -> (r: u32)
    ensures
        r == run_start(mesh@, all_part_spans(spans@), *run),
{
    if (run.first_index as usize) < mesh.indices.len() {
        find_piece(spans, mesh.indices[run.first_index as usize])
    } else {
        0
    }
}

/// The corners of the piece beginning at `start`.
fn corners_of(mesh: &Mesh, spans: &Vec<PartSpan>, start: u32) -> (r: Vec<u32>)
    requires
        runs_fit(mesh@),
    ensures
        r@ == piece_indices(mesh@, all_part_spans(spans@), start, mesh@.submeshes.len()),
{
    let mut r: Vec<u32> = Vec::new();
    let mut n: usize = 0;
    assert(mesh.indices@.len() == mesh.indices.len());
    while n < mesh.submeshes.len()
        invariant
            runs_fit(mesh@),
            mesh.indices@.len() == mesh.indices.len(),
            n <= mesh.submeshes@.len(),
            r@ == piece_indices(mesh@, all_part_spans(spans@), start, n as nat),
        decreases mesh.submeshes@.len() - n,
    {
        let run: Submesh = mesh.submeshes[n];
        assert(run == mesh@.submeshes[n as int]);
        if find_run_piece(mesh, spans, &run) == start {
            let ghost before = r@;
            let first: usize = run.first_index as usize;
            let count: usize = run.index_count as usize;
            let mut i: usize = 0;
            while i < count
                invariant
                    i <= count,
                    first == run.first_index,
                    count == run.index_count,
                    first + count <= mesh@.indices.len(),
                    mesh.indices@.len() == mesh.indices.len(),
                    r@ == before + run_indices(mesh@, run).take(i as int),
                decreases count - i,
            {
                r.push(mesh.indices[first + i]);
                i = i + 1;
                assert(r@ =~= before + run_indices(mesh@, run).take(i as int));
            }
            assert(run_indices(mesh@, run).take(i as int) =~= run_indices(mesh@, run));
        }
        n = n + 1;
    }
    r
}

impl AssembledActor {
    /// Marks every run of the body that is a sheet rather than part of something solid.
    ///
    /// Each piece is asked by itself whether it is open: a sleeve is, whatever it is worn with.
    /// `volumes` says of each run what it encloses.
    pub fn classify_sheets(&mut self, materials: &MaterialTable, volumes: &Vec<Bits>)
        requires
            old(self).mesh@.positions.len() <= u32::MAX,
            in_range(old(self).mesh@.indices, old(self).mesh@.positions.len() as int),
            runs_fit(old(self).mesh@),
            volumes@.len() == old(self).mesh@.submeshes.len(),
            forall|i: int|
                0 <= i < old(self).mesh@.submeshes.len() ==> (
                #[trigger] old(self).mesh@.submeshes[i]).material < materials@.materials.len(),
        ensures
            final(self).mesh@ == told_by_piece(
                old(self).mesh@,
                all_part_spans(old(self).spans@),
                materials@.materials,
                volumes@,
            ),
            *final(self) == (AssembledActor { mesh: final(self).mesh, ..*old(self) }),
    {
        let ghost mesh = self.mesh@;
        let ghost spans = all_part_spans(self.spans@);
        let keys: Vec<[i32; 3]> = quantised(&self.mesh.positions);
        let mut runs: Vec<Submesh> = Vec::new();
        let mut known: Option<(u32, bool)> = None;
        let mut i: usize = 0;
        while i < self.mesh.submeshes.len()
            invariant
                *self == *old(self),
                mesh == self.mesh@,
                spans == all_part_spans(self.spans@),
                keys@ == places_of(mesh.positions),
                mesh.positions.len() <= u32::MAX,
                in_range(mesh.indices, mesh.positions.len() as int),
                runs_fit(mesh),
                volumes@.len() == mesh.submeshes.len(),
                forall|k: int|
                    0 <= k < mesh.submeshes.len() ==> (#[trigger] mesh.submeshes[k]).material
                        < materials@.materials.len(),
                known matches Some((start, open)) ==> open == piece_is_open(mesh, spans, start),
                i <= mesh.submeshes.len(),
                runs@.len() == i,
                forall|k: int|
                    0 <= k < i ==> #[trigger] runs@[k] == piece_run(
                        mesh,
                        spans,
                        materials@.materials,
                        volumes@,
                        k,
                    ),
            decreases mesh.submeshes.len() - i,
        {
            let run: Submesh = self.mesh.submeshes[i];
            assert(run == mesh.submeshes[i as int]);
            let start: u32 = find_run_piece(&self.mesh, &self.spans, &run);
            let kept: Option<bool> = match known {
                Some((at, open)) => if at == start {
                    Some(open)
                } else {
                    None
                },
                None => None,
            };
            let open: bool = match kept {
                Some(open) => open,
                None => {
                    proof {
                        lemma_piece_in_range(
                            mesh,
                            spans,
                            start,
                            mesh.submeshes.len(),
                            mesh.positions.len() as int,
                        );
                    }
                    find_border(&corners_of(&self.mesh, &self.spans, start), &keys)
                },
            };
            known = Some((start, open));
            let cut_out: bool = materials.materials()[run.material as usize].alpha
                != AlphaMode::Opaque;
            runs.push(
                Submesh { thin: cut_out || (open && is_greater(THIN_VOLUME, volumes[i])), ..run },
            );
            i = i + 1;
        }
        self.mesh.submeshes = runs;
        assert(self.mesh@ =~= told_by_piece(mesh, spans, materials@.materials, volumes@));
    }
}

/// Whether every run of a mesh has corners.
pub open spec fn runs_hold(mesh: MeshModel) -> bool {
    forall|i: int| 0 <= i < mesh.submeshes.len() ==> (#[trigger] mesh.submeshes[i]).index_count > 0
}

/// Runs that cover some corners lie within them.
proof fn lemma_covering_runs_fit(runs: Seq<Submesh>, end: int, i: int)
    requires
        covers(runs, end),
        0 <= i < runs.len(),
    ensures
        runs[i].first_index + runs[i].index_count <= end,
    decreases runs.len(),
{
    if i < runs.len() - 1 {
        lemma_covering_runs_fit(runs.drop_last(), runs.last().first_index as int, i);
    }
}

/// A piece begins no later than any vertex of it.
proof fn lemma_piece_start(spans: Seq<PartSpanModel>, vertex: u32, limit: int)
    ensures
        piece_start(spans, vertex) <= vertex,
        0 < limit && (forall|i: int| 0 <= i < spans.len() ==> (#[trigger] spans[i]).base_vertex < limit)
            ==> piece_start(spans, vertex) < limit,
    decreases spans.len(),
{
    if spans.len() > 0 {
        lemma_piece_start(spans.drop_last(), vertex, limit);
        if forall|i: int| 0 <= i < spans.len() ==> (#[trigger] spans[i]).base_vertex < limit {
            assert(spans[spans.len() - 1].base_vertex < limit);
            assert(forall|i: int|
                0 <= i < spans.drop_last().len() ==> #[trigger] spans.drop_last()[i] == spans[i]);
        }
    }
}

/// A piece added from vertex `base` on takes every vertex from there on, and no other.
proof fn lemma_piece_added(
    spans: Seq<PartSpanModel>,
    more: Seq<SpanModel>,
    part: u32,
    base: u32,
    vertex: u32,
)
    requires
        forall|i: int| 0 <= i < spans.len() ==> (#[trigger] spans[i]).base_vertex < base,
    ensures
        vertex < base ==> piece_start(spans + part_spans(more, part, base), vertex) == piece_start(
            spans,
            vertex,
        ),
        vertex >= base && more.len() > 0 ==> piece_start(
            spans + part_spans(more, part, base),
            vertex,
        ) == base,
    decreases more.len(),
{
    let all = spans + part_spans(more, part, base);
    if more.len() == 0 {
        assert(all =~= spans);
    } else {
        let fewer = more.drop_last();
        lemma_piece_added(spans, fewer, part, base, vertex);
        assert(all.drop_last() =~= spans + part_spans(fewer, part, base));
        assert(all.last().base_vertex == base);
        if vertex >= base && fewer.len() == 0 {
            assert(spans + part_spans(fewer, part, base) =~= spans);
            if base > 0 {
                lemma_piece_start(spans, vertex, base as int);
            } else if spans.len() > 0 {
                assert(spans[0].base_vertex < base);
            }
        }
    }
}

/// Corners have a border wherever they are kept, where they stand in the same places.
proof fn lemma_border_moves(
    indices: Seq<u32>,
    keys: Seq<[i32; 3]>,
    moved: Seq<u32>,
    other: Seq<[i32; 3]>,
)
    requires
        indices.len() == moved.len(),
        forall|i: int|
            0 <= i < indices.len() ==> keys[#[trigger] indices[i] as int] == other[moved[i] as int],
    ensures
        bordered(indices, keys) == bordered(moved, other),
{
    let (a, b) = (edges(indices, keys), edges(moved, other));
    assert forall|i: int| 0 <= i < a.len() implies a[i] == b[i] by {
        let next = if i % 3 == 2 { i - 2 } else { i + 1 };
        assert(keys[indices[i] as int] == other[moved[i] as int]);
        assert(keys[indices[next] as int] == other[moved[next] as int]);
        assert(edge_at(indices, keys, i) == edge_at(moved, other, i));
    }
    assert(a =~= b);
}

/// A body, and a piece to be stacked onto it.
#[verifier::ext_equal]
pub struct Stacking {
    pub mesh: MeshModel,
    pub spans: Seq<PartSpanModel>,
    pub piece: MeshModel,
    pub more: Seq<SpanModel>,
    pub part: u32,
}

impl Stacking {
    /// The two meshes are whole, no run of either is empty, and every piece of the body begins at a
    /// vertex of it.
    pub open spec fn wf(self) -> bool {
        &&& self.mesh.wf()
        &&& self.piece.wf()
        &&& self.mesh.positions.len() + self.piece.positions.len() <= u32::MAX
        &&& self.mesh.indices.len() + self.piece.indices.len() <= u32::MAX
        &&& in_range(self.mesh.indices, self.mesh.positions.len() as int)
        &&& in_range(self.piece.indices, self.piece.positions.len() as int)
        &&& runs_hold(self.mesh)
        &&& runs_hold(self.piece)
        &&& self.more.len() > 0
        &&& forall|i: int|
            0 <= i < self.spans.len() ==> (#[trigger] self.spans[i]).base_vertex
                < self.mesh.positions.len()
    }

    /// The first vertex of the piece.
    pub open spec fn base(self) -> u32 {
        self.mesh.positions.len() as u32
    }

    /// The body with the piece on it.
    pub open spec fn whole(self) -> MeshModel {
        stacked(self.mesh, self.piece)
    }

    /// The shapes of the body with the piece on it.
    pub open spec fn shapes(self) -> Seq<PartSpanModel> {
        self.spans + part_spans(self.more, self.part, self.base())
    }

    /// A run that was on the body before is of the piece it was of.
    proof fn lemma_old_run(self, i: int)
        requires
            self.wf(),
            0 <= i < self.mesh.submeshes.len(),
        ensures
            self.whole().submeshes[i] == self.mesh.submeshes[i],
            run_start(self.whole(), self.shapes(), self.whole().submeshes[i]) == run_start(
                self.mesh,
                self.spans,
                self.mesh.submeshes[i],
            ),
            run_start(self.mesh, self.spans, self.mesh.submeshes[i]) < self.base(),
            run_indices(self.whole(), self.whole().submeshes[i]) == run_indices(
                self.mesh,
                self.mesh.submeshes[i],
            ),
    {
        let run = self.mesh.submeshes[i];
        lemma_covering_runs_fit(self.mesh.submeshes, self.mesh.indices.len() as int, i);
        let vertex = self.mesh.indices[run.first_index as int];
        assert(self.whole().indices[run.first_index as int] == vertex);
        lemma_piece_added(self.spans, self.more, self.part, self.base(), vertex);
        lemma_piece_start(self.spans, vertex, 0);
        assert(run_indices(self.whole(), run) =~= run_indices(self.mesh, run));
    }

    /// A run of the piece is of the piece.
    proof fn lemma_new_run(self, i: int)
        requires
            self.wf(),
            0 <= i < self.piece.submeshes.len(),
        ensures
            ({
                let k = self.mesh.submeshes.len() + i;
                let run = self.piece.submeshes[i];
                &&& self.whole().submeshes[k] == Submesh {
                    first_index: (run.first_index + self.mesh.indices.len()) as u32,
                    ..run
                }
                &&& run_start(self.whole(), self.shapes(), self.whole().submeshes[k])
                    == self.base()
                &&& run_indices(self.whole(), self.whole().submeshes[k]) == shifted(
                    run_indices(self.piece, run),
                    self.base() as int,
                )
            }),
    {
        let k = self.mesh.submeshes.len() + i;
        let run = self.piece.submeshes[i];
        lemma_covering_runs_fit(self.piece.submeshes, self.piece.indices.len() as int, i);
        assert(self.whole().submeshes[k] == shifted_runs(
            self.piece.submeshes,
            self.mesh.indices.len() as int,
        )[i]);
        let moved = self.whole().submeshes[k];
        let vertex = self.piece.indices[run.first_index as int];
        assert(self.whole().indices[moved.first_index as int] == vertex + self.base());
        lemma_piece_added(
            self.spans,
            self.more,
            self.part,
            self.base(),
            (vertex + self.base()) as u32,
        );
        assert(run_indices(self.whole(), moved) =~= shifted(
            run_indices(self.piece, run),
            self.base() as int,
        ));
    }

    /// The corners of a piece that was on the body before stay what they were, and the piece has none
    /// among the runs of the body.
    proof fn lemma_old_corners(self, start: u32, n: nat)
        requires
            self.wf(),
            n <= self.mesh.submeshes.len(),
        ensures
            start != self.base() ==> piece_indices(self.whole(), self.shapes(), start, n)
                == piece_indices(self.mesh, self.spans, start, n),
            start == self.base() ==> piece_indices(self.whole(), self.shapes(), start, n)
                == Seq::<u32>::empty(),
        decreases n,
    {
        if n > 0 {
            self.lemma_old_corners(start, (n - 1) as nat);
            self.lemma_old_run(n - 1);
        }
    }

    /// The runs of the piece add its corners to it, and none to any other.
    proof fn lemma_new_corners(self, start: u32, n: nat)
        requires
            self.wf(),
            n <= self.piece.submeshes.len(),
        ensures
            ({
                let count = self.mesh.submeshes.len();
                let corners = piece_indices(self.whole(), self.shapes(), start, count + n);
                if start == self.base() {
                    corners == shifted(
                        self.piece.indices.take(
                            if n == 0 {
                                0
                            } else {
                                self.piece.submeshes[n - 1].first_index
                                    + self.piece.submeshes[n - 1].index_count
                            },
                        ),
                        self.base() as int,
                    )
                } else {
                    corners == piece_indices(self.mesh, self.spans, start, count)
                }
            }),
        decreases n,
    {
        let count = self.mesh.submeshes.len();
        let corners = piece_indices(self.whole(), self.shapes(), start, count + n);
        if n == 0 {
            self.lemma_old_corners(start, count);
            if start == self.base() {
                assert(corners =~= shifted(self.piece.indices.take(0), self.base() as int));
            }
        } else {
            self.lemma_new_corners(start, (n - 1) as nat);
            self.lemma_new_run(n - 1);
            assert(((count + n) as nat - 1) as nat == (count + (n - 1)) as nat);
            if start == self.base() {
                let run = self.piece.submeshes[n - 1];
                lemma_covering_runs_fit(
                    self.piece.submeshes,
                    self.piece.indices.len() as int,
                    n - 1,
                );
                lemma_runs_follow(self.piece.submeshes, self.piece.indices.len() as int, n - 1);
                assert(corners =~= shifted(
                    self.piece.indices.take(run.first_index + run.index_count),
                    self.base() as int,
                ));
            }
        }
    }

    /// A run that was on the body before is told as it was.
    proof fn lemma_old_told(
        self,
        materials: Seq<Material>,
        volumes: Seq<Bits>,
        more_volumes: Seq<Bits>,
        i: int,
    )
        requires
            self.wf(),
            volumes.len() == self.mesh.submeshes.len(),
            0 <= i < self.mesh.submeshes.len(),
        ensures
            piece_run(self.whole(), self.shapes(), materials, volumes + more_volumes, i)
                == piece_run(self.mesh, self.spans, materials, volumes, i),
    {
        let (mesh, whole) = (self.mesh, self.whole());
        let count = mesh.submeshes.len();
        let start = run_start(mesh, self.spans, mesh.submeshes[i]);
        let corners = piece_indices(mesh, self.spans, start, count);
        let places = places_of(mesh.positions);
        self.lemma_old_run(i);
        self.lemma_new_corners(start, self.piece.submeshes.len());
        assert forall|k: int| 0 <= k < count implies (#[trigger] mesh.submeshes[k]).first_index
            + mesh.submeshes[k].index_count <= mesh.indices.len() by {
            lemma_covering_runs_fit(mesh.submeshes, mesh.indices.len() as int, k);
        }
        lemma_piece_in_range(mesh, self.spans, start, count, mesh.positions.len() as int);
        assert forall|k: int| 0 <= k < corners.len() implies places_of(
            whole.positions,
        )[#[trigger] corners[k] as int] == places[corners[k] as int] by {
            assert(whole.positions[corners[k] as int] == mesh.positions[corners[k] as int]);
        }
        lemma_border_moves(corners, places_of(whole.positions), corners, places);
        assert(whole.submeshes.len() == count + self.piece.submeshes.len());
        assert((volumes + more_volumes)[i] == volumes[i]);
    }

    /// A run of the piece is told as it would be by itself.
    proof fn lemma_new_told(
        self,
        materials: Seq<Material>,
        volumes: Seq<Bits>,
        more_volumes: Seq<Bits>,
        j: int,
    )
        requires
            self.wf(),
            volumes.len() == self.mesh.submeshes.len(),
            more_volumes.len() == self.piece.submeshes.len(),
            0 <= j < self.piece.submeshes.len(),
        ensures
            ({
                let alone = told_apart(self.piece, materials, more_volumes).submeshes[j];
                piece_run(
                    self.whole(),
                    self.shapes(),
                    materials,
                    volumes + more_volumes,
                    self.mesh.submeshes.len() + j,
                ) == Submesh {
                    first_index: (alone.first_index + self.mesh.indices.len()) as u32,
                    ..alone
                }
            }),
    {
        let (piece, whole, base) = (self.piece, self.whole(), self.base());
        let n = piece.submeshes.len();
        let moved = shifted(piece.indices, base as int);
        let places = places_of(piece.positions);
        self.lemma_new_run(j);
        self.lemma_new_corners(base, n);
        lemma_runs_follow(piece.submeshes, piece.indices.len() as int, n - 1);
        assert(piece.indices.take(piece.indices.len() as int) =~= piece.indices);
        assert forall|k: int| 0 <= k < piece.indices.len() implies places[#[trigger] piece.indices[k] as int]
            == places_of(whole.positions)[moved[k] as int] by {
            assert(moved[k] == piece.indices[k] + base);
            assert(whole.positions[moved[k] as int] == piece.positions[piece.indices[k] as int]);
        }
        lemma_border_moves(piece.indices, places, moved, places_of(whole.positions));
        assert(whole.submeshes.len() == self.mesh.submeshes.len() + n);
        assert((volumes + more_volumes)[self.mesh.submeshes.len() + j] == more_volumes[j]);
    }
}

/// Runs that cover some corners begin where the one before ends, the first at the beginning and the
/// last ending at the end.
proof fn lemma_runs_follow(runs: Seq<Submesh>, end: int, i: int)
    requires
        covers(runs, end),
        0 <= i < runs.len(),
    ensures
        runs[i].first_index == (if i == 0 {
            0
        } else {
            runs[i - 1].first_index + runs[i - 1].index_count
        }),
        i == runs.len() - 1 ==> runs[i].first_index + runs[i].index_count == end,
    decreases runs.len(),
{
    let rest = runs.drop_last();
    assert(covers(rest, runs.last().first_index as int));
    if i < runs.len() - 1 {
        lemma_runs_follow(rest, runs.last().first_index as int, i);
    } else if rest.len() > 0 {
        lemma_runs_follow(rest, runs.last().first_index as int, rest.len() - 1);
    }
}

/// **The sheets of a body are told piece by piece**: putting a piece on a body leaves every run of
/// the body what it was, and tells the sheets of the piece from its solids as it would by itself.
pub proof fn law_a_piece_is_told_by_itself(
    stacking: Stacking,
    materials: Seq<Material>,
    volumes: Seq<Bits>,
    more_volumes: Seq<Bits>,
)
    requires
        stacking.wf(),
        volumes.len() == stacking.mesh.submeshes.len(),
        more_volumes.len() == stacking.piece.submeshes.len(),
    ensures
        told_by_piece(stacking.whole(), stacking.shapes(), materials, volumes + more_volumes)
            == stacked(
            told_by_piece(stacking.mesh, stacking.spans, materials, volumes),
            told_apart(stacking.piece, materials, more_volumes),
        ),
{
    let count = stacking.mesh.submeshes.len();
    let told = told_by_piece(
        stacking.whole(),
        stacking.shapes(),
        materials,
        volumes + more_volumes,
    );
    let apart = stacked(
        told_by_piece(stacking.mesh, stacking.spans, materials, volumes),
        told_apart(stacking.piece, materials, more_volumes),
    );
    assert forall|i: int| 0 <= i < told.submeshes.len() implies told.submeshes[i]
        == apart.submeshes[i] by {
        if i < count {
            stacking.lemma_old_told(materials, volumes, more_volumes, i);
        } else {
            stacking.lemma_new_told(materials, volumes, more_volumes, i - count);
            assert(apart.submeshes[i] == shifted_runs(
                told_apart(stacking.piece, materials, more_volumes).submeshes,
                stacking.mesh.indices.len() as int,
            )[i - count]);
        }
    }
    assert(told.submeshes =~= apart.submeshes);
    assert(told =~= apart);
}

/// Whatever stands in a list stands somewhere for the first time.
proof fn lemma_has_first<E>(s: Seq<E>, i: int) -> (j: int)
    requires
        0 <= i < s.len(),
    ensures
        0 <= j <= i,
        s[j] == s[i],
        is_first(s, j),
    decreases i,
{
    if is_first(s, i) {
        i
    } else {
        let k = choose|k: int| 0 <= k < i && #[trigger] s[k] == s[i];
        lemma_has_first(s, k)
    }
}

/// There are as many different things in a list as there are things.
proof fn lemma_distinct_things<E>(s: Seq<E>)
    ensures
        s.to_set().finite(),
        distinct_count(s) == s.to_set().len(),
{
    let f = |i: int| s[i];
    let firsts = first_places(s);
    lemma_bounded(s);
    assert(injective_on(f, firsts)) by {
        assert forall|i: int, j: int|
            firsts.contains(i) && firsts.contains(j) && #[trigger] f(i) == #[trigger] f(
                j,
            ) implies i == j by {
            if i < j {
                assert(s[i] != s[j]);
            } else if j < i {
                assert(s[j] != s[i]);
            }
        }
    }
    assert forall|e: E| firsts.map(f).contains(e) == s.to_set().contains(e) by {
        if s.contains(e) {
            let i = s.index_of(e);
            let j = lemma_has_first(s, i);
            assert(firsts.contains(j) && f(j) == e);
        }
    }
    assert(firsts.map(f) =~= s.to_set());
    lemma_map_size(firsts, s.to_set(), f);
}

/// Where edge `i` of some triangles stands once they are wound the other way round: the first and
/// the last edge of each triangle change places.
spec fn rewound_edge(i: int) -> int {
    if i % 3 == 0 {
        i + 2
    } else if i % 3 == 2 {
        i - 2
    } else {
        i
    }
}

/// Edges that change places are as many, and as many of them stand alone.
proof fn lemma_edges_change_places<E>(s: Seq<E>, t: Seq<E>)
    requires
        s.len() == t.len(),
        s.len() % 3 == 0,
        forall|i: int| 0 <= i < t.len() ==> #[trigger] t[i] == s[rewound_edge(i)],
    ensures
        lone_count(s) == lone_count(t),
        distinct_count(s) == distinct_count(t),
{
    let f = |i: int| rewound_edge(i);
    let (a, b) = (lone_places(s), lone_places(t));
    lemma_bounded(s);
    assert forall|i: int| 0 <= i < s.len() implies #[trigger] is_lone(t, rewound_edge(i))
        == is_lone(s, i) by {
        let k = rewound_edge(i);
        assert(t[k] == s[i]);
        if is_lone(s, i) {
            assert forall|j: int| 0 <= j < t.len() && j != k implies #[trigger] t[j] != t[k] by {
                assert(s[rewound_edge(j)] != s[i]);
            }
        }
        if is_lone(t, k) {
            assert forall|j: int| 0 <= j < s.len() && j != i implies #[trigger] s[j] != s[i] by {
                assert(t[rewound_edge(j)] != t[k]);
            }
        }
    }
    assert forall|k: int| a.map(f).contains(k) == b.contains(k) by {
        if b.contains(k) {
            let i = rewound_edge(k);
            assert(rewound_edge(i) == k);
            assert(is_lone(t, rewound_edge(i)) == is_lone(s, i));
            assert(a.contains(i) && f(i) == k);
        }
        if a.map(f).contains(k) {
            let i = choose|i: int| a.contains(i) && k == f(i);
            assert(is_lone(t, rewound_edge(i)) == is_lone(s, i));
        }
    }
    assert(a.map(f) =~= b);
    lemma_map_size(a, b, f);
    lemma_distinct_things(s);
    lemma_distinct_things(t);
    assert forall|e: E| s.to_set().contains(e) == t.to_set().contains(e) by {
        if s.contains(e) {
            let i = s.index_of(e);
            assert(t[rewound_edge(i)] == e);
        }
        if t.contains(e) {
            let i = t.index_of(e);
            assert(s[rewound_edge(i)] == e);
        }
    }
    assert(s.to_set() =~= t.to_set());
}

/// **Winding does not make a sheet**: triangles wound the other way round have a border where they
/// had one.
pub proof fn law_winding_keeps_a_border(indices: Seq<u32>, keys: Seq<[i32; 3]>)
    ensures
        bordered(rewound(indices), keys) == bordered(indices, keys),
{
    let (s, t) = (edges(indices, keys), edges(rewound(indices), keys));
    let n = (indices.len() / 3) * 3;
    assert forall|i: int| 0 <= i < n implies #[trigger] t[i] == s[rewound_edge(i)] by {
        let first = i / 3 * 3;
        let turned = rewound(indices);
        assert(first + 3 <= indices.len());
        assert(turned[first] == indices[first]);
        assert(turned[first + 1] == indices[first + 2]) by {
            assert((first + 1) / 3 * 3 == first);
        }
        assert(turned[first + 2] == indices[first + 1]) by {
            assert((first + 2) / 3 * 3 == first);
        }
        assert(edge_at(turned, keys, i) =~= edge_at(indices, keys, rewound_edge(i)));
    }
    lemma_edges_change_places(s, t);
}

} // verus!
