//! What things are called and where they are looked for: textures, ground, numbers, squares of the
//! world, doors and requests.

use super::actor::part_path;
use super::bits::{magnitude, not_a_number, signed, Bits};
use super::cell::{grid_square, CellName, CellRef};
use super::cell_streamer::{served, Action, Event, Request, ServingModel};
use super::decimal::{digits, in_decimal};
use super::door::{door_of, doors_to};
use super::ini::lowered;
use super::material::{slashed, texture_path_of};
use super::model_index::{is_marker, IndexModel};
use super::static_scene::{
    land_source, placed_triangles, unique_triangles, Instance, SceneModel,
};
use super::terrain::Land;
use crate::vfs::load_laws::{lemma_last_is, lemma_last_is_none};
use vstd::arithmetic::power2::pow2;
use vstd::prelude::*;

verus! {

/// **A number is written by its digits, the last of them last**, with a minus sign before one below
/// nought.
pub proof fn law_a_number_is_written_by_its_digits(n: nat, d: nat)
    requires
        d < 10,
    ensures
        digits(d).len() == 1,
        digits(d)[0] as int == '0' as int + d,
        n > 0 ==> digits(10 * n + d) == digits(n) + digits(d),
        in_decimal(n as int) == digits(n),
        n > 0 ==> in_decimal(-n) == seq!['-'] + digits(n),
{
    if n > 0 {
        let m = 10 * n + d;
        assert(m / 10 == n && m % 10 == d);
        assert(digits(n) + digits(d) =~= digits(n).push(digits(d)[0]));
    }
}

/// **Ground is named by the square of the world it is of**, the first number across and the second
/// up.
pub proof fn law_ground_is_named_by_its_square(land: &Land)
    ensures
        land_source(land) == "land:"@ + in_decimal(land.grid_x as int) + ","@ + in_decimal(
            land.grid_y as int,
        ),
{
    reveal_strlit(",");
    assert(","@ =~= seq![',']);
}

/// **A texture is looked for under its own name, whatever extension it is given**: what follows the
/// last dot is dropped, and what precedes it is kept.
pub proof fn law_a_texture_keeps_its_name(stem: Seq<char>, extension: Seq<char>)
    requires
        !stem.contains('\\'),
        !extension.contains('\\'),
        !extension.contains('.'),
        stem.len() < 9 || lowered(stem).take(9) != "textures/"@,
    ensures
        texture_path_of(stem.push('.') + extension) == "textures/"@ + stem + ".dds"@,
        !stem.contains('.') ==> texture_path_of(stem) == "textures/"@ + stem + ".dds"@,
{
    reveal_strlit("textures/");
    let name = stem.push('.') + extension;
    assert(slashed(name) =~= name) by {
        assert forall|i: int| 0 <= i < name.len() implies #[trigger] name[i] != '\\' by {
            if i < stem.len() {
                assert(stem.contains(stem[i]));
            } else if i > stem.len() {
                assert(extension.contains(extension[i - stem.len() - 1]));
            }
        }
    }
    assert(slashed(stem) =~= stem) by {
        assert forall|i: int| 0 <= i < stem.len() implies #[trigger] stem[i] != '\\' by {
            assert(stem.contains(stem[i]));
        }
    }
    lemma_last_is(stem, '.', extension);
    assert(name.take(stem.len() as int) =~= stem);
    if !stem.contains('.') {
        lemma_last_is_none(stem, '.');
    }
}

/// **A texture named with backslashes is the one named with slashes.**
pub proof fn law_separators_of_a_texture_are_one(name: Seq<char>)
    ensures
        texture_path_of(slashed(name)) == texture_path_of(name),
{
    assert(slashed(slashed(name)) =~= slashed(name));
}

/// **A model is an editor's marker where its own file's name says so**, whatever directory it is in.
pub proof fn law_a_marker_is_told_by_its_file(directory: Seq<char>, file: Seq<char>)
    requires
        !file.contains('/'),
        !file.contains('\\'),
    ensures
        is_marker(directory.push('/') + file) == is_marker(file),
        is_marker(file) == (file.len() >= 7 && lowered(file).take(7) == "marker_"@),
{
    reveal_strlit("marker_");
    let path = directory.push('/') + file;
    assert(slashed(file) =~= file) by {
        assert forall|i: int| 0 <= i < file.len() implies #[trigger] file[i] != '\\' by {
            assert(file.contains(file[i]));
        }
    }
    assert(slashed(path) =~= slashed(directory).push('/') + file) by {
        assert forall|i: int| 0 <= i < path.len() implies #[trigger] slashed(path)[i] == (slashed(
            directory,
        ).push('/') + file)[i] by {
            if i > directory.len() {
                assert(slashed(file)[i - directory.len() - 1] == file[i - directory.len() - 1]);
            }
        }
    }
    lemma_last_is(slashed(directory), '/', file);
    lemma_last_is_none(file, '/');
    assert(path.skip(directory.len() + 1int) =~= file);
    assert(file.skip(0) =~= file);
}

/// **Far out, a coordinate is a whole number of squares from the middle of the world**, the same on
/// either side of it.
pub proof fn law_far_squares_are_whole(a: Bits)
    requires
        !signed(a),
        163 <= a / 0x80_0000 < 171,
    ensures
        grid_square(a) == (a % 0x80_0000 + 0x80_0000) * pow2((a / 0x80_0000 - 163) as nat),
        grid_square((a + 0x8000_0000) as u32) == -grid_square(a),
{
    let b = (a + 0x8000_0000) as u32;
    assert(magnitude(a) == a && magnitude(b) == a);
    assert(!not_a_number(a) && !not_a_number(b));
    vstd::arithmetic::power2::lemma2_to64();
    let k = (a / 0x80_0000 - 163) as nat;
    if k < 7 {
        vstd::arithmetic::power2::lemma_pow2_strictly_increases(k, 7);
    }
    let whole = a % 0x80_0000 + 0x80_0000;
    let p = pow2(k) as int;
    assert(whole * p < 0x8000_0000) by (nonlinear_arith)
        requires
            0 < whole < 0x100_0000,
            0 <= p <= 128,
    ;
}

/// **Every door that leads to a cell is found among those that do**, and every one found leads there.
pub proof fn law_every_door_to_a_cell_is_found(
    refs: Seq<CellRef>,
    models: IndexModel,
    destination: CellName,
    n: nat,
    j: int,
    i: int,
)
    requires
        n <= refs.len(),
    ensures
        0 <= j < n && !refs[j].deleted && !models.marks(refs[j].object_id@) && (door_of(
            refs[j],
        ) matches Some(door) && door.destination == destination) ==> doors_to(
            refs,
            models,
            destination,
            n,
        ).contains(door_of(refs[j])->0),
        0 <= i < doors_to(refs, models, destination, n).len() ==> doors_to(
            refs,
            models,
            destination,
            n,
        )[i].destination == destination,
    decreases n,
{
    if n > 0 {
        let before = doors_to(refs, models, destination, (n - 1) as nat);
        let after = doors_to(refs, models, destination, n);
        law_every_door_to_a_cell_is_found(refs, models, destination, (n - 1) as nat, j, i);
        if 0 <= j < n && !refs[j].deleted && !models.marks(refs[j].object_id@) && (door_of(
            refs[j],
        ) matches Some(door) && door.destination == destination) {
            let mine = door_of(refs[j])->0;
            if j == n - 1 {
                assert(after.last() == mine);
            } else {
                let k = before.index_of(mine);
                assert(after[k] == mine);
            }
        }
    }
}

/// **A worker reaches the game when it is first asked, listens when it has answered, and stops when
/// nobody is there to ask, to be answered or to be reached.**
pub proof fn law_a_worker_goes_on_while_it_is_heard(request: Request, serving: ServingModel)
    ensures
        served(ServingModel::Idle, Event::Asked(request)).1 == Action::Reach,
        serving is Loading ==> served(serving, Event::Answered) == (
            ServingModel::Waiting,
            Action::Listen,
        ),
        serving is Loading ==> served(serving, Event::Unheard).1 == Action::Stop,
        serving is Reaching ==> served(serving, Event::Absent).1 == Action::Stop,
        served(serving, Event::Closed).1 == Action::Stop,
{
}

/// **Every placement counts the triangles of its mesh again**, and a mesh counts once however often
/// it is placed.
pub proof fn law_placements_count_again(scene: SceneModel, instance: Instance, n: nat)
    requires
        n <= scene.instances.len(),
    ensures
        ({
            let more = SceneModel { instances: scene.instances.push(instance), ..scene };
            &&& placed_triangles(more, n) == placed_triangles(scene, n)
            &&& n == scene.instances.len() ==> placed_triangles(more, n + 1) == placed_triangles(
                scene,
                n,
            ) + scene.meshes[instance.mesh.0 as int].indices.len() / 3
            &&& unique_triangles(more, scene.meshes.len()) == unique_triangles(
                scene,
                scene.meshes.len(),
            )
        }),
    decreases n,
{
    let more = SceneModel { instances: scene.instances.push(instance), ..scene };
    lemma_unique_is_of_meshes(scene, more, scene.meshes.len());
    if n > 0 {
        law_placements_count_again(scene, instance, (n - 1) as nat);
        assert(more.instances[n - 1] == scene.instances[n - 1]);
    }
    if n == scene.instances.len() {
        assert(more.instances[n as int] == instance);
        assert(placed_triangles(more, n + 1) == placed_triangles(more, n)
            + more.meshes[more.instances[n as int].mesh.0 as int].indices.len() / 3);
    }
}

/// What meshes have does not depend on what is placed.
proof fn lemma_unique_is_of_meshes(a: SceneModel, b: SceneModel, n: nat)
    requires
        a.meshes == b.meshes,
    ensures
        unique_triangles(a, n) == unique_triangles(b, n),
        n > 0 ==> unique_triangles(a, n) == unique_triangles(a, (n - 1) as nat) + a.meshes[n
            - 1].indices.len() / 3,
    decreases n,
{
    if n > 0 {
        lemma_unique_is_of_meshes(a, b, (n - 1) as nat);
    }
}

/// **A body part is looked for under `meshes/`**, by its own name with either separator.
pub proof fn law_a_body_part_is_a_mesh(model: Seq<char>)
    ensures
        part_path(model) == "meshes/"@ + slashed(model),
        part_path(slashed(model)) == part_path(model),
{
    assert(slashed(slashed(model)) =~= slashed(model));
}

/// **A texture that says which directory it is in is looked for there**, under its own name.
pub proof fn law_a_texture_with_a_directory_keeps_it(stem: Seq<char>, extension: Seq<char>)
    requires
        !stem.contains('\\'),
        !extension.contains('\\'),
        !extension.contains('.'),
        stem.len() >= 9,
        lowered(stem).take(9) == "textures/"@,
    ensures
        texture_path_of(stem.push('.') + extension) == stem + ".dds"@,
{
    reveal_strlit("textures/");
    let name = stem.push('.') + extension;
    assert(slashed(name) =~= name) by {
        assert forall|i: int| 0 <= i < name.len() implies #[trigger] name[i] != '\\' by {
            if i < stem.len() {
                assert(stem.contains(stem[i]));
            } else if i > stem.len() {
                assert(extension.contains(extension[i - stem.len() - 1]));
            }
        }
    }
    lemma_last_is(stem, '.', extension);
    assert(name.take(stem.len() as int) =~= stem);
}

} // verus!
