//! What holds of everything that emits: which system it runs, where its particles are born, and
//! what its modifiers make of them.

use super::bits::{greater, not_a_number, Bits};
use super::flatten::{shape_material, slid};
use super::material::Properties;
use super::nif::{
    Block, ColourKey, Controller, Geometry, Link, Nif, ParticleEffect, ParticleModifier,
    ParticleSystem, UvController,
};
use super::particle_emitter::{
    emitter_of, emitters_of, first_at_or_after, modified, ramp_of, stop_at, system_on, PlacesModel,
    Pull, RampModel,
};
use super::sampling::Sampled;
use super::walk::DrawnModel;
use vstd::prelude::*;

verus! {

/// **The first particle system on a chain of controllers is the one that runs**: other controllers
/// are passed over, and a chain that ends without one runs none.
pub proof fn law_the_first_system_runs(
    nif: &Nif,
    link: Link,
    system: ParticleSystem,
    controller: Controller,
    left: nat,
)
    ensures
        nif.at(link) == Some(Block::ParticleSystem(system)) ==> system_on(nif, link, left + 1)
            == Some(system),
        nif.at(link) == Some(Block::Controller(controller)) ==> system_on(nif, link, left + 1)
            == system_on(nif, controller.next, left),
        nif.at(link) is None ==> system_on(nif, link, left) is None,
{
}

/// **A pull along a direction is the one its modifier gives**, as hard as it says, and it takes the
/// place of one given before it. A pull towards a point is none.
pub proof fn law_a_pull_is_as_its_modifier_says(
    nif: &Nif,
    link: Link,
    direction: [Bits; 3],
    force: Bits,
    towards_point: bool,
    next: Link,
    pull: Option<Pull>,
    ramp: Option<RampModel>,
    left: nat,
)
    requires
        nif.at(link) == Some(
            Block::ParticleModifier(
                ParticleModifier {
                    effect: ParticleEffect::Gravity { towards_point, direction, force },
                    next,
                },
            ),
        ),
    ensures
        modified(nif, link, pull, ramp, left + 1) == modified(
            nif,
            next,
            if towards_point {
                pull
            } else {
                Some(Pull { direction, force })
            },
            ramp,
            left,
        ),
        nif.at(next) is None && !towards_point ==> {
            let (last, _) = modified(nif, link, pull, ramp, left + 1);
            &&& last is Some
            &&& last->0.direction == direction
            &&& last->0.force == force
        },
{
    reveal_with_fuel(modified, 2);
}

/// **A tint over a life is the one its modifier's keys give**, and it leaves the pull alone. A track
/// with no keys gives none.
pub proof fn law_a_tint_is_as_its_keys_say(
    nif: &Nif,
    link: Link,
    keys: Link,
    track: Vec<ColourKey>,
    next: Link,
    pull: Option<Pull>,
    ramp: Option<RampModel>,
    left: nat,
)
    requires
        nif.at(link) == Some(
            Block::ParticleModifier(
                ParticleModifier { effect: ParticleEffect::Colour { keys }, next },
            ),
        ),
        nif.at(keys) == Some(Block::Colour(track)),
    ensures
        modified(nif, link, pull, ramp, left + 1) == modified(
            nif,
            next,
            pull,
            if track@.len() > 0 {
                Some(ramp_of(track@))
            } else {
                ramp
            },
            left,
        ),
        nif.at(next) is None && track@.len() > 0 ==> {
            let (same, tint) = modified(nif, link, pull, ramp, left + 1);
            &&& same == pull
            &&& tint is Some
            &&& tint->0.keys == track@
        },
{
    reveal_with_fuel(modified, 2);
}

/// **Nothing else on a chain of modifiers changes anything.**
pub proof fn law_other_modifiers_change_nothing(
    nif: &Nif,
    link: Link,
    next: Link,
    pull: Option<Pull>,
    ramp: Option<RampModel>,
    left: nat,
)
    ensures
        nif.at(link) == Some(
            Block::ParticleModifier(ParticleModifier { effect: ParticleEffect::Other, next }),
        ) ==> modified(nif, link, pull, ramp, left + 1) == modified(nif, next, pull, ramp, left),
        nif.at(link) is None ==> modified(nif, link, pull, ramp, left) == (pull, ramp),
{
}

/// Where the first key at or after a moment is.
proof fn lemma_first_at_or_after(keys: Seq<ColourKey>, at: Bits, from: int)
    requires
        0 <= from <= keys.len(),
    ensures
        ({
            let first = first_at_or_after(keys, at, from);
            &&& from <= first <= keys.len()
            &&& first < keys.len() ==> !not_a_number(keys[first].time) && !not_a_number(at)
                && !greater(at, keys[first].time)
            &&& forall|k: int|
                from <= k < first && !not_a_number((#[trigger] keys[k]).time) && !not_a_number(at)
                    ==> greater(at, keys[k].time)
        }),
    decreases keys.len() - from,
{
    if from < keys.len() {
        lemma_first_at_or_after(keys, at, from + 1);
    }
}

/// **A tint at a moment is read from the keys round it**: between the last key before the moment
/// and the first one not before it, or from the key at the end of the track that the moment lies
/// beyond.
pub proof fn law_a_tint_is_read_from_the_keys_round_it(keys: Seq<ColourKey>, at: Bits)
    requires
        0 < keys.len() <= usize::MAX,
        forall|k: int| 0 <= k < keys.len() ==> !not_a_number((#[trigger] keys[k]).time),
        !not_a_number(at),
    ensures
        match stop_at(keys, at) {
            Sampled::Held(i) => {
                ||| i == 0 && !greater(at, keys[0].time)
                ||| i == keys.len() - 1 && forall|k: int|
                    0 <= k < keys.len() ==> greater(at, (#[trigger] keys[k]).time)
            },
            Sampled::Between(before, after) => {
                &&& 0 <= before
                &&& after == before + 1
                &&& after < keys.len()
                &&& greater(at, keys[before as int].time)
                &&& !greater(at, keys[after as int].time)
            },
        },
{
    lemma_first_at_or_after(keys, at, 0);
}

/// **A ramp stands at birth, in the middle of its track and at death**: its middle is the time of the
/// middle key, kept within a life, and its three stops are read there.
pub proof fn law_a_ramp_stands_at_birth_middle_and_death(keys: Seq<ColourKey>)
    requires
        keys.len() > 0,
    ensures
        ({
            let ramp = ramp_of(keys);
            let middle = keys[keys.len() as int / 2].time;
            &&& ramp.keys == keys
            &&& !greater(0, middle) && !greater(middle, 0x3F80_0000) ==> ramp.mid == middle
            &&& greater(0, middle) ==> ramp.mid == 0
            &&& greater(middle, 0x3F80_0000) ==> ramp.mid == 0x3F80_0000
            &&& ramp.stops.len() == 3
            &&& ramp.stops[0] == stop_at(keys, 0)
            &&& ramp.stops[1] == stop_at(keys, ramp.mid)
            &&& ramp.stops[2] == stop_at(keys, 0x3F80_0000)
        }),
{
}

/// **An emitter runs the system on its own block, and is born where that says**: at the emitter the
/// system names where that is placed, and at the block itself otherwise. It adds to the frame where
/// the alpha property in effect does.
pub proof fn law_an_emitter_is_its_system(
    nif: &Nif,
    all: PlacesModel,
    block: u32,
    properties: Properties,
    system: ParticleSystem,
)
    requires
        block < nif.blocks@.len(),
        all.places.len() == nif.blocks@.len(),
        nif.blocks@[block as int] matches Block::Particles(object) && system_on(
            nif,
            object.controller,
            8,
        ) == Some(system),
        all.places[block as int] is Some,
    ensures
        ({
            let emitter = emitter_of(nif, all, block, properties);
            let visible = greater(system.lifetime, 0) && greater(system.size, 0) && greater(
                system.colour@[3],
                0,
            );
            &&& emitter is Some <==> visible
            &&& visible ==> {
                &&& emitter->0.system == system
                &&& (system.emitter.0 matches Some(at) && at < all.places.len()
                    && all.places[at as int] is Some) ==> Some(emitter->0.placement)
                    == all.places[system.emitter.0->0 as int]
                &&& (system.emitter.0 is None || system.emitter.0->0 >= all.places.len()
                    || all.places[system.emitter.0->0 as int] is None) ==> Some(
                    emitter->0.placement,
                ) == all.places[block as int]
                &&& emitter->0.pull == modified(nif, system.modifier, None, None, 8).0
                &&& emitter->0.ramp == modified(nif, system.modifier, None, None, 8).1
                &&& emitter->0.additive <==> (nif.at(properties.alpha) matches Some(
                    Block::Alpha(alpha),
                ) && alpha.adds)
            }
        }),
{
}

/// **A block with no system of particles, or with none that is placed, emits nothing.**
pub proof fn law_what_has_no_system_emits_nothing(
    nif: &Nif,
    all: PlacesModel,
    block: u32,
    properties: Properties,
)
    requires
        block < nif.blocks@.len(),
        nif.blocks@[block as int] matches Block::Particles(object) && nif.at(object.controller) is None,
    ensures
        emitter_of(nif, all, block, properties) is None,
{
}

/// **Every block that emits is collected, in the order they were found, and nothing else is.**
pub proof fn law_emitters_are_those_found(nif: &Nif, all: PlacesModel, n: nat, k: int, i: int)
    requires
        n <= all.found.len(),
    ensures
        0 <= k < n && emitter_of(nif, all, all.found[k].0, all.found[k].1) is Some ==> emitters_of(
            nif,
            all,
            n,
        ).contains(emitter_of(nif, all, all.found[k].0, all.found[k].1)->0),
        0 <= i < emitters_of(nif, all, n).len() ==> exists|m: int|
            0 <= m < n && emitter_of(nif, all, (#[trigger] all.found[m]).0, all.found[m].1) == Some(
                emitters_of(nif, all, n)[i],
            ),
        emitters_of(nif, all, n).len() <= n,
    decreases n,
{
    if n > 0 {
        let before = emitters_of(nif, all, (n - 1) as nat);
        let after = emitters_of(nif, all, n);
        law_emitters_are_those_found(nif, all, (n - 1) as nat, k, i);
        let last = emitter_of(nif, all, all.found[n - 1].0, all.found[n - 1].1);
        if 0 <= k < n && emitter_of(nif, all, all.found[k].0, all.found[k].1) is Some {
            let mine = emitter_of(nif, all, all.found[k].0, all.found[k].1)->0;
            if k == n - 1 {
                assert(after.last() == mine);
            } else {
                let j = before.index_of(mine);
                assert(after[j] == mine);
            }
        }
        if 0 <= i < after.len() {
            if i < before.len() {
                let m = choose|m: int|
                    0 <= m < n - 1 && emitter_of(
                        nif,
                        all,
                        (#[trigger] all.found[m]).0,
                        all.found[m].1,
                    ) == Some(before[i]);
                assert(emitter_of(nif, all, all.found[m].0, all.found[m].1) == Some(after[i]));
            } else {
                assert(emitter_of(nif, all, all.found[n - 1].0, all.found[n - 1].1) == Some(
                    after[i],
                ));
            }
        }
    }
}

/// **A texture slides as the first controller that slides one says**, where that has its data; other
/// controllers are passed over, and a chain without one leaves the texture still.
pub proof fn law_a_texture_slides_as_its_controller_says(
    nif: &Nif,
    link: Link,
    uv: UvController,
    other: Controller,
    left: nat,
)
    ensures
        nif.at(link) == Some(Block::UvController(uv)) && nif.at(uv.data) == Some(Block::UvData)
            ==> slid(nif, link, left + 1) == uv.scroll,
        nif.at(link) == Some(Block::UvController(uv)) && nif.at(uv.data) is None ==> slid(
            nif,
            link,
            left + 1,
        )@ == seq![0u32, 0u32],
        nif.at(link) == Some(Block::Controller(other)) ==> slid(nif, link, left + 1) == slid(
            nif,
            other.next,
            left,
        ),
        nif.at(link) is None ==> slid(nif, link, left)@ == seq![0u32, 0u32],
{
    assert(slid(nif, Link(None), 0)@ =~= seq![0u32, 0u32]);
}

/// **A shape's texture slides as its own controllers say**, followed no further than eight of them.
pub proof fn law_a_shape_slides_as_its_controllers_say(
    nif: &Nif,
    shape: DrawnModel,
    textures: Seq<Seq<char>>,
    geometry: Geometry,
)
    requires
        shape.block < nif.blocks@.len(),
        nif.blocks@[shape.block as int] == Block::Geometry(geometry),
    ensures
        shape_material(nif, shape, textures).scroll == slid(nif, geometry.object.controller, 8),
{
}

} // verus!
