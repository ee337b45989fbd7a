//! What each value is said to be, field by field.

use super::actor::PartSpan;
use super::cell::{CellId, CellName};
use super::cell_streamer::Request;
use super::door::Door;
use super::flatten::GeometrySpan;
use super::loaded_cell::missing;
use super::mesh::Mesh;
use super::particle_emitter::{ParticleEmitter, Ramp};
use super::skeleton::Channel;
use super::static_scene::StaticScene;
use super::walk::Drawn;
use super::weather::Weather;
use crate::texture::texture::Texture;
use vstd::prelude::*;

verus! {

/// **A mesh is its arrays**, each under its own name.
pub proof fn law_a_mesh_is_its_arrays(mesh: Mesh)
    ensures
        mesh@.positions == mesh.positions@,
        mesh@.normals == mesh.normals@,
        mesh@.uvs == mesh.uvs@,
        mesh@.indices == mesh.indices@,
        mesh@.submeshes == mesh.submeshes@,
{
}

/// **A span is where its shape landed**: the block it is of, its skin, its first vertex, how many it
/// has and what places it.
pub proof fn law_a_span_is_its_numbers(span: GeometrySpan, part: PartSpan)
    ensures
        span@.block == span.block,
        span@.skin == span.skin,
        span@.first_vertex == span.first_vertex,
        span@.vertex_count == span.vertex_count,
        span@.chain == span.chain@,
        part@.part == part.part,
        part@.base_vertex == part.base_vertex,
        part@.span == part.span@,
{
}

/// **A drawn shape is its block, what places it and its properties.**
pub proof fn law_a_drawn_shape_is_its_block(shape: Drawn)
    ensures
        shape@.block == shape.block,
        shape@.chain == shape.chain@,
        shape@.properties == shape.properties,
{
}

/// **A channel is its three tracks.**
pub proof fn law_a_channel_is_its_tracks(channel: Channel)
    ensures
        channel@.rotations == channel.rotations@,
        channel@.translations == channel.translations@,
        channel@.scales == channel.scales@,
{
}

/// **A weather is its name, its four families and its sheet.**
pub proof fn law_a_weather_is_its_families(weather: Weather)
    ensures
        weather@.name == weather.name@,
        weather@.fog == weather.fog,
        weather@.sky == weather.sky,
        weather@.ambient == weather.ambient,
        weather@.sun == weather.sun,
        weather@.cloud_texture == weather.cloud_texture@,
{
}

/// **An emitter is its placement, its system and what its modifiers made of it.**
pub proof fn law_an_emitter_is_its_parts(emitter: ParticleEmitter, ramp: Ramp)
    ensures
        emitter@.placement == emitter.placement@,
        emitter@.system == emitter.system,
        emitter@.pull == emitter.pull,
        emitter.ramp == Some(ramp) ==> emitter@.ramp == Some(ramp@),
        emitter.ramp is None ==> emitter@.ramp is None,
        emitter@.additive == emitter.additive,
        ramp@.keys == ramp.keys@,
        ramp@.mid == ramp.mid,
        ramp@.stops == ramp.stops@,
{
}

/// **A door is where it leads**: the cell, the point in it and the way the traveller faces.
pub proof fn law_a_door_is_where_it_leads(door: Door)
    ensures
        door@.destination == door.destination@,
        door@.arrival == door.arrival,
        door@.bearing == door.bearing,
{
}

/// **A cell is known by its name indoors and by its square out of doors**, the first number across.
pub proof fn law_a_cell_is_known_by_its_square(x: i32, y: i32, name: String)
    ensures
        (CellId::Exterior { x, y })@ == CellName::Exterior(x, y),
        CellId::Interior(name)@ == CellName::Interior(name@),
{
}

/// **A request is for a cell at a level of detail.**
pub proof fn law_a_request_is_for_a_cell(request: Request)
    ensures
        request@.id == request.id@,
        request@.detail == request.detail,
{
}

/// **A scene is what it holds**: its meshes, where they came from, what is placed of them, and what
/// lights them.
pub proof fn law_a_scene_is_what_it_holds(scene: StaticScene, i: int)
    ensures
        scene@.meshes.len() == scene.meshes@.len(),
        0 <= i < scene.meshes@.len() ==> scene@.meshes[i] == scene.meshes@[i]@,
        scene@.sources.len() == scene.mesh_sources@.len(),
        0 <= i < scene.mesh_sources@.len() ==> scene@.sources[i] == scene.mesh_sources@[i]@,
        scene@.without_model.len() == scene.without_model@.len(),
        0 <= i < scene.without_model@.len() ==> scene@.without_model[i] == scene.without_model@[i]@,
        scene@.instances == scene.instances@,
        scene@.table == scene.materials@,
        scene@.lights == scene.lights@,
        scene@.ambient == scene.ambient,
        scene@.sunlit == scene.sunlit,
        scene@.water_level == scene.water_level,
{
}

/// **Every texture that is missing is counted, and no other.**
pub proof fn law_missing_textures_are_counted(textures: Seq<Option<Texture>>, n: nat)
    requires
        n <= textures.len(),
    ensures
        missing(textures, n) <= n,
        missing(textures, n) == 0 <==> forall|i: int|
            0 <= i < n ==> (#[trigger] textures[i]) is Some,
        missing(textures, n) == n <==> forall|i: int|
            0 <= i < n ==> (#[trigger] textures[i]) is None,
        n > 0 ==> missing(textures, n) - missing(textures, (n - 1) as nat) == (if textures[n
            - 1] is None {
            1int
        } else {
            0int
        }),
    decreases n,
{
    if n > 0 {
        law_missing_textures_are_counted(textures, (n - 1) as nat);
    }
}

} // verus!
