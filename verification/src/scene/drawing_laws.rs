//! What holds of everything a model draws: what of it is in sight, where it hangs and what it is
//! drawn with.

use super::flatten::{flattened, SpanModel};
use super::ini::lowered;
use super::material::{overridden, Properties};
use super::material_table::TableModel;
use super::nif::{Block, Link, Nif};
use super::particle_emitter::{placed_among, placed_from, places_in, PlacesModel};
use super::walk::{
    belongs, drawn, drawn_among, drawn_from, effective_slot, skippable, skins, stands_at,
    DrawnModel, MAX_DEPTH,
};
use vstd::prelude::*;
use vstd::utf8::encode_utf8;

verus! {

/// Whether a block hangs at the end of a way down a model: among its roots where the way has not
/// begun, and among the children of the last node of it where it has.
pub open spec fn hangs_below(nif: &Nif, way: Seq<u32>, link: Link) -> bool {
    if way.len() == 0 {
        nif.roots@.contains(link)
    } else {
        nif.at(Link(Some(way.last()))) matches Some(Block::Node(node)) && node.children@.contains(
            link,
        )
    }
}

/// Whether a way down a model goes through nodes alone, each below the one before it, all of them in
/// sight. Where names count, a node with a name that is never drawn is not.
pub open spec fn leads_down(nif: &Nif, way: Seq<u32>, names_count: bool) -> bool
    decreases way.len(),
{
    way.len() == 0 || {
        &&& leads_down(nif, way.drop_last(), names_count)
        &&& hangs_below(nif, way.drop_last(), Link(Some(way.last())))
        &&& nif.at(Link(Some(way.last()))) matches Some(Block::Node(node)) && !node.object.hidden
            && (names_count ==> !skippable(node.object.name@))
    }
}

/// The properties set on the last block of a way.
pub open spec fn set_on(nif: &Nif, block: u32) -> Seq<Link> {
    match nif.blocks@[block as int] {
        Block::Node(node) => node.object.properties@,
        Block::Geometry(geometry) => geometry.object.properties@,
        Block::Particles(object) => object.properties@,
        _ => Seq::empty(),
    }
}

/// The properties in effect at the end of a way: those of each block on it over those before.
pub open spec fn in_effect(nif: &Nif, way: Seq<u32>) -> Properties
    decreases way.len(),
{
    if way.len() == 0 {
        Properties { texturing: Link(None), material: Link(None), alpha: Link(None) }
    } else {
        overridden(nif, in_effect(nif, way.drop_last()), set_on(nif, way.last()))
    }
}

/// Whether a way down a model ends at a shape that is drawn: every node on it in sight, and the shape
/// in sight, with data, and, of a file that skins anything, named for the slot asked for.
pub open spec fn ends_at_a_shape(nif: &Nif, slot: Option<Seq<char>>, way: Seq<u32>) -> bool {
    &&& 0 < way.len() <= 65
    &&& leads_down(nif, way.drop_last(), true)
    &&& hangs_below(nif, way.drop_last(), Link(Some(way.last())))
    &&& nif.at(Link(Some(way.last()))) matches Some(Block::Geometry(geometry)) && {
        &&& !geometry.object.hidden
        &&& !skippable(geometry.object.name@)
        &&& nif.at(geometry.data) matches Some(Block::GeometryData(_))
        &&& skins(nif) ==> (slot matches Some(s) ==> belongs(geometry.object.name@, s))
    }
}

/// Whether a way down a model ends at a block that draws particles, everything on it in sight.
pub open spec fn ends_at_particles(nif: &Nif, way: Seq<u32>) -> bool {
    &&& 0 < way.len() <= 65
    &&& leads_down(nif, way.drop_last(), false)
    &&& hangs_below(nif, way.drop_last(), Link(Some(way.last())))
    &&& nif.at(Link(Some(way.last()))) matches Some(Block::Particles(object)) && !object.hidden
}

/// The shape at the end of a way.
pub open spec fn shape_at_end(nif: &Nif, way: Seq<u32>) -> DrawnModel {
    DrawnModel { block: way.last(), chain: way, properties: in_effect(nif, way) }
}

/// One step further down.
proof fn lemma_step(nif: &Nif, way: Seq<u32>, block: u32)
    ensures
        way.push(block).drop_last() == way,
        way.push(block).last() == block,
        in_effect(nif, way.push(block)) == overridden(
            nif,
            in_effect(nif, way),
            set_on(nif, block),
        ),
{
    assert(way.push(block).drop_last() =~= way);
}

/// Everything found from one block on is in sight.
proof fn lemma_drawn_from_in_sight(
    nif: &Nif,
    slot: Option<Seq<char>>,
    link: Link,
    chain: Seq<u32>,
    i: int,
)
    requires
        leads_down(nif, chain, true),
        hangs_below(nif, chain, link),
        0 <= i < drawn_from(
            nif,
            effective_slot(nif, slot),
            link,
            chain,
            in_effect(nif, chain),
            chain.len(),
        ).len(),
    ensures
        ({
            let shape = drawn_from(
                nif,
                effective_slot(nif, slot),
                link,
                chain,
                in_effect(nif, chain),
                chain.len(),
            )[i];
            &&& ends_at_a_shape(nif, slot, shape.chain)
            &&& shape == shape_at_end(nif, shape.chain)
        }),
    decreases MAX_DEPTH + 1 - chain.len(), 0nat,
{
    let block = link.0->0;
    lemma_step(nif, chain, block);
    match nif.at(link) {
        Some(Block::Node(node)) => {
            assert(link == Link(Some(block)));
            lemma_drawn_among_in_sight(
                nif,
                slot,
                node.children@,
                node.children@.len(),
                chain.push(block),
                i,
            );
        },
        Some(Block::Geometry(geometry)) => {
            assert(link == Link(Some(block)));
        },
        _ => {},
    }
}

/// Everything found from some blocks on is in sight.
proof fn lemma_drawn_among_in_sight(
    nif: &Nif,
    slot: Option<Seq<char>>,
    links: Seq<Link>,
    n: nat,
    chain: Seq<u32>,
    i: int,
)
    requires
        chain.len() <= MAX_DEPTH + 1,
        n <= links.len(),
        leads_down(nif, chain, true),
        forall|k: int| 0 <= k < links.len() ==> hangs_below(nif, chain, #[trigger] links[k]),
        0 <= i < drawn_among(
            nif,
            effective_slot(nif, slot),
            links,
            n,
            chain,
            in_effect(nif, chain),
            chain.len(),
        ).len(),
    ensures
        ({
            let shape = drawn_among(
                nif,
                effective_slot(nif, slot),
                links,
                n,
                chain,
                in_effect(nif, chain),
                chain.len(),
            )[i];
            &&& ends_at_a_shape(nif, slot, shape.chain)
            &&& shape == shape_at_end(nif, shape.chain)
        }),
    decreases MAX_DEPTH + 1 - chain.len(), n + 1,
{
    if n > 0 {
        let before = drawn_among(
            nif,
            effective_slot(nif, slot),
            links,
            (n - 1) as nat,
            chain,
            in_effect(nif, chain),
            chain.len(),
        );
        if i < before.len() {
            lemma_drawn_among_in_sight(nif, slot, links, (n - 1) as nat, chain, i);
        } else {
            lemma_drawn_from_in_sight(nif, slot, links[n - 1], chain, i - before.len());
        }
    }
}

/// **Everything a model draws is in sight**: each shape is at the end of a way down from a root, the
/// blocks that place it are that way, and what it is drawn with is what is in effect there.
pub proof fn law_what_is_drawn_is_in_sight(nif: &Nif, slot: Option<Seq<char>>, i: int)
    requires
        0 <= i < drawn(nif, slot).len(),
    ensures
        ends_at_a_shape(nif, slot, drawn(nif, slot)[i].chain),
        drawn(nif, slot)[i].block == drawn(nif, slot)[i].chain.last(),
        drawn(nif, slot)[i].properties == in_effect(nif, drawn(nif, slot)[i].chain),
{
    lemma_drawn_among_in_sight(
        nif,
        slot,
        nif.roots@,
        nif.roots@.len(),
        Seq::empty(),
        i,
    );
}

/// What leads down leads down part of the way, and goes on through a node in sight.
proof fn lemma_leads_part_way(nif: &Nif, way: Seq<u32>, names_count: bool, d: int)
    requires
        leads_down(nif, way, names_count),
        0 <= d <= way.len(),
    ensures
        leads_down(nif, way.take(d), names_count),
        d < way.len() ==> hangs_below(nif, way.take(d), Link(Some(way[d]))) && (nif.at(
            Link(Some(way[d])),
        ) matches Some(Block::Node(node)) && !node.object.hidden && (names_count ==> !skippable(
            node.object.name@,
        ))),
    decreases way.len(),
{
    if d == way.len() {
        assert(way.take(d) =~= way);
    } else {
        let less = way.drop_last();
        lemma_leads_part_way(nif, less, names_count, d);
        assert(less.take(d) =~= way.take(d));
        if d == less.len() {
            assert(less.take(d) =~= less);
        }
    }
}

/// What is found from one of some blocks on is found from all of them.
proof fn lemma_among_has_each(
    nif: &Nif,
    slot: Option<Seq<char>>,
    links: Seq<Link>,
    n: nat,
    chain: Seq<u32>,
    inherited: Properties,
    depth: nat,
    k: int,
    shape: DrawnModel,
)
    requires
        depth <= MAX_DEPTH + 1,
        0 <= k < n <= links.len(),
        drawn_from(nif, slot, links[k], chain, inherited, depth).contains(shape),
    ensures
        drawn_among(nif, slot, links, n, chain, inherited, depth).contains(shape),
    decreases n,
{
    let before = drawn_among(nif, slot, links, (n - 1) as nat, chain, inherited, depth);
    let more = drawn_from(nif, slot, links[n - 1], chain, inherited, depth);
    let all = drawn_among(nif, slot, links, n, chain, inherited, depth);
    if k < n - 1 {
        lemma_among_has_each(
            nif,
            slot,
            links,
            (n - 1) as nat,
            chain,
            inherited,
            depth,
            k,
            shape,
        );
        let i = before.index_of(shape);
        assert(all[i] == shape);
    } else {
        let i = more.index_of(shape);
        assert(all[before.len() + i] == shape);
    }
}

/// The shape at the end of a way is found from every block on it.
proof fn lemma_way_is_found(nif: &Nif, slot: Option<Seq<char>>, way: Seq<u32>, d: int)
    requires
        ends_at_a_shape(nif, slot, way),
        0 <= d < way.len(),
    ensures
        drawn_from(
            nif,
            effective_slot(nif, slot),
            Link(Some(way[d])),
            way.take(d),
            in_effect(nif, way.take(d)),
            d as nat,
        ).contains(shape_at_end(nif, way)),
    decreases way.len() - d,
{
    let link = Link(Some(way[d]));
    let chain = way.take(d);
    let found = drawn_from(
        nif,
        effective_slot(nif, slot),
        link,
        chain,
        in_effect(nif, chain),
        d as nat,
    );
    lemma_step(nif, chain, way[d]);
    assert(chain.push(way[d]) =~= way.take(d + 1));
    if d == way.len() - 1 {
        assert(way.take(d + 1) =~= way);
        assert(found[0] == shape_at_end(nif, way));
    } else {
        let nodes = way.drop_last();
        lemma_leads_part_way(nif, nodes, true, d);
        assert(nodes[d] == way[d]);
        let node = nif.at(link)->0->Node_0;
        let next = Link(Some(way[d + 1]));
        assert(hangs_below(nif, way.take(d + 1), next)) by {
            if d + 1 < nodes.len() {
                lemma_leads_part_way(nif, nodes, true, d + 1);
                assert(nodes.take(d + 1) =~= way.take(d + 1));
                assert(nodes[d + 1] == way[d + 1]);
            } else {
                assert(nodes =~= way.take(d + 1));
            }
        }
        assert(way.take(d + 1).last() == way[d]);
        let k = node.children@.index_of(next);
        lemma_way_is_found(nif, slot, way, d + 1);
        lemma_among_has_each(
            nif,
            effective_slot(nif, slot),
            node.children@,
            node.children@.len(),
            way.take(d + 1),
            in_effect(nif, way.take(d + 1)),
            (d + 1) as nat,
            k,
            shape_at_end(nif, way),
        );
    }
}

/// **Everything in sight is drawn**: the shape at the end of every way down, no deeper than a model
/// is followed, is one the model draws.
pub proof fn law_everything_in_sight_is_drawn(nif: &Nif, slot: Option<Seq<char>>, way: Seq<u32>)
    requires
        ends_at_a_shape(nif, slot, way),
    ensures
        drawn(nif, slot).contains(
            DrawnModel { block: way.last(), chain: way, properties: in_effect(nif, way) },
        ),
{
    let root = Link(Some(way[0]));
    assert(way.take(0) =~= Seq::empty());
    assert(hangs_below(nif, way.take(0), root)) by {
        if way.len() == 1 {
            assert(way.drop_last() =~= way.take(0));
        } else {
            lemma_leads_part_way(nif, way.drop_last(), true, 0);
            assert(way.drop_last().take(0) =~= way.take(0));
            assert(way.drop_last()[0] == way[0]);
        }
    }
    let k = nif.roots@.index_of(root);
    lemma_way_is_found(nif, slot, way, 0);
    lemma_among_has_each(
        nif,
        effective_slot(nif, slot),
        nif.roots@,
        nif.roots@.len(),
        Seq::empty(),
        in_effect(nif, Seq::empty()),
        0,
        k,
        shape_at_end(nif, way),
    );
}

/// Whether places and particle blocks found are all in sight.
spec fn places_in_sight(nif: &Nif, all: PlacesModel) -> bool {
    &&& all.places.len() == nif.blocks@.len()
    &&& forall|b: int|
        0 <= b < all.places.len() && (#[trigger] all.places[b]) is Some ==> {
            let way = all.places[b]->0;
            &&& way.len() > 0
            &&& way.last() == b
            &&& leads_down(nif, way, false) || ends_at_particles(nif, way)
        }
    &&& forall|i: int|
        0 <= i < all.found.len() ==> is_found_in_sight(nif, #[trigger] all.found[i])
}

/// Whether a block found to draw particles is at the end of a way down, with the properties in
/// effect there.
pub open spec fn is_found_in_sight(nif: &Nif, found: (u32, Properties)) -> bool {
    exists|way: Seq<u32>|
        #[trigger] ends_at_particles(nif, way) && way.last() == found.0 && found.1 == in_effect(
            nif,
            way,
        )
}

/// Everything placed from one block on is in sight.
proof fn lemma_placed_from_in_sight(nif: &Nif, all: PlacesModel, link: Link, chain: Seq<u32>)
    requires
        places_in_sight(nif, all),
        leads_down(nif, chain, false),
        hangs_below(nif, chain, link),
    ensures
        places_in_sight(
            nif,
            placed_from(nif, all, link, chain, in_effect(nif, chain), chain.len()),
        ),
    decreases MAX_DEPTH + 1 - chain.len(), 0nat,
{
    if chain.len() <= MAX_DEPTH {
        let block = link.0->0;
        let here = chain.push(block);
        lemma_step(nif, chain, block);
        match nif.at(link) {
            Some(Block::Node(node)) => {
                assert(link == Link(Some(block)));
                if !node.object.hidden {
                    let next = PlacesModel {
                        places: all.places.update(block as int, Some(here)),
                        ..all
                    };
                    assert(places_in_sight(nif, next)) by {
                        assert forall|b: int|
                            0 <= b < next.places.len() && (#[trigger] next.places[b]) is Some
                            implies ({
                            let way = next.places[b]->0;
                            &&& way.len() > 0
                            &&& way.last() == b
                            &&& leads_down(nif, way, false) || ends_at_particles(nif, way)
                        }) by {
                            if b != block {
                                assert(next.places[b] == all.places[b]);
                            }
                        }
                    }
                    lemma_placed_among_in_sight(
                        nif,
                        next,
                        node.children@,
                        node.children@.len(),
                        here,
                    );
                }
            },
            Some(Block::Particles(object)) => {
                assert(link == Link(Some(block)));
                if !object.hidden {
                    assert(ends_at_particles(nif, here));
                    let next = placed_from(
                        nif,
                        all,
                        link,
                        chain,
                        in_effect(nif, chain),
                        chain.len(),
                    );
                    assert forall|b: int|
                        0 <= b < next.places.len() && (#[trigger] next.places[b]) is Some implies ({
                        let way = next.places[b]->0;
                        &&& way.len() > 0
                        &&& way.last() == b
                        &&& leads_down(nif, way, false) || ends_at_particles(nif, way)
                    }) by {
                        if b != block {
                            assert(next.places[b] == all.places[b]);
                        }
                    }
                    assert forall|i: int| 0 <= i < next.found.len() implies is_found_in_sight(
                        nif,
                        #[trigger] next.found[i],
                    ) by {
                        if i < all.found.len() {
                            assert(next.found[i] == all.found[i]);
                        }
                    }
                }
            },
            _ => {},
        }
    }
}

/// Everything placed from some blocks on is in sight.
proof fn lemma_placed_among_in_sight(
    nif: &Nif,
    all: PlacesModel,
    links: Seq<Link>,
    n: nat,
    chain: Seq<u32>,
)
    requires
        chain.len() <= MAX_DEPTH + 1,
        n <= links.len(),
        places_in_sight(nif, all),
        leads_down(nif, chain, false),
        forall|k: int| 0 <= k < links.len() ==> hangs_below(nif, chain, #[trigger] links[k]),
    ensures
        places_in_sight(
            nif,
            placed_among(nif, all, links, n, chain, in_effect(nif, chain), chain.len()),
        ),
    decreases MAX_DEPTH + 1 - chain.len(), n + 1,
{
    if n > 0 {
        lemma_placed_among_in_sight(nif, all, links, (n - 1) as nat, chain);
        lemma_placed_from_in_sight(
            nif,
            placed_among(
                nif,
                all,
                links,
                (n - 1) as nat,
                chain,
                in_effect(nif, chain),
                chain.len(),
            ),
            links[n - 1],
            chain,
        );
    }
}

/// **What draws particles is in sight**: each block found to is at the end of a way down from a
/// root, with the properties in effect there.
pub proof fn law_particles_are_in_sight(nif: &Nif, i: int)
    requires
        0 <= i < places_in(nif).found.len(),
    ensures
        is_found_in_sight(nif, places_in(nif).found[i]),
{
    lemma_all_places(nif);
}

/// **What places a block is a way down to it**: from a root through nodes in sight.
pub proof fn law_a_place_is_a_way_down(nif: &Nif, block: int)
    requires
        0 <= block < nif.blocks@.len(),
        places_in(nif).places[block] is Some,
    ensures
        ({
            let way = places_in(nif).places[block]->0;
            &&& way.len() > 0
            &&& way.last() == block
            &&& leads_down(nif, way, false) || ends_at_particles(nif, way)
        }),
{
    lemma_all_places(nif);
}

/// Everything placed in a model is in sight.
proof fn lemma_all_places(nif: &Nif)
    ensures
        places_in_sight(nif, places_in(nif)),
{
    lemma_placed_among_in_sight(
        nif,
        PlacesModel {
            places: Seq::new(nif.blocks@.len(), |i: int| None),
            found: Seq::empty(),
        },
        nif.roots@,
        nif.roots@.len(),
        Seq::empty(),
    );
}

/// What is found stays found, from one block on.
proof fn lemma_found_stays_from(
    nif: &Nif,
    all: PlacesModel,
    link: Link,
    chain: Seq<u32>,
    inherited: Properties,
    depth: nat,
    found: (u32, Properties),
)
    requires
        all.found.contains(found),
    ensures
        placed_from(nif, all, link, chain, inherited, depth).found.contains(found),
    decreases MAX_DEPTH + 1 - depth, 0nat,
{
    if depth <= MAX_DEPTH {
        let here = chain.push(link.0->0);
        let places = all.places.update(link.0->0 as int, Some(here));
        match nif.at(link) {
            Some(Block::Node(node)) => {
                lemma_found_stays_among(
                    nif,
                    PlacesModel { places, ..all },
                    node.children@,
                    node.children@.len(),
                    here,
                    overridden(nif, inherited, node.object.properties@),
                    depth + 1,
                    found,
                );
            },
            Some(Block::Particles(object)) => {
                let after = placed_from(nif, all, link, chain, inherited, depth);
                let i = all.found.index_of(found);
                assert(after.found[i] == found);
            },
            _ => {},
        }
    }
}

/// What is found stays found, from some blocks on.
proof fn lemma_found_stays_among(
    nif: &Nif,
    all: PlacesModel,
    links: Seq<Link>,
    n: nat,
    chain: Seq<u32>,
    inherited: Properties,
    depth: nat,
    found: (u32, Properties),
)
    requires
        depth <= MAX_DEPTH + 1,
        all.found.contains(found),
    ensures
        placed_among(nif, all, links, n, chain, inherited, depth).found.contains(found),
    decreases MAX_DEPTH + 1 - depth, n + 1,
{
    if n > 0 {
        lemma_found_stays_among(
            nif,
            all,
            links,
            (n - 1) as nat,
            chain,
            inherited,
            depth,
            found,
        );
        lemma_found_stays_from(
            nif,
            placed_among(nif, all, links, (n - 1) as nat, chain, inherited, depth),
            links[n - 1],
            chain,
            inherited,
            depth,
            found,
        );
    }
}

/// What draws particles at the end of a way is found from every block on it.
proof fn lemma_particles_are_found(nif: &Nif, all: PlacesModel, way: Seq<u32>, d: int)
    requires
        ends_at_particles(nif, way),
        0 <= d < way.len(),
    ensures
        placed_from(
            nif,
            all,
            Link(Some(way[d])),
            way.take(d),
            in_effect(nif, way.take(d)),
            d as nat,
        ).found.contains((way.last(), in_effect(nif, way))),
    decreases way.len() - d, 0nat,
{
    let link = Link(Some(way[d]));
    let chain = way.take(d);
    lemma_step(nif, chain, way[d]);
    assert(chain.push(way[d]) =~= way.take(d + 1));
    if d == way.len() - 1 {
        assert(way.take(d + 1) =~= way);
        let after = placed_from(nif, all, link, chain, in_effect(nif, chain), d as nat);
        assert(after.found.last() == (way.last(), in_effect(nif, way)));
    } else {
        let nodes = way.drop_last();
        lemma_leads_part_way(nif, nodes, false, d);
        assert(nodes[d] == way[d]);
        let node = nif.at(link)->0->Node_0;
        let next = Link(Some(way[d + 1]));
        assert(hangs_below(nif, way.take(d + 1), next)) by {
            if d + 1 < nodes.len() {
                lemma_leads_part_way(nif, nodes, false, d + 1);
                assert(nodes.take(d + 1) =~= way.take(d + 1));
                assert(nodes[d + 1] == way[d + 1]);
            } else {
                assert(nodes =~= way.take(d + 1));
            }
        }
        assert(way.take(d + 1).last() == way[d]);
        let k = node.children@.index_of(next);
        lemma_particles_among(
            nif,
            PlacesModel {
                places: all.places.update(way[d] as int, Some(way.take(d + 1))),
                ..all
            },
            node.children@,
            node.children@.len(),
            way,
            d + 1,
            k,
        );
    }
}

/// What draws particles at the end of a way is found from some blocks on, where one of them is on
/// the way.
proof fn lemma_particles_among(
    nif: &Nif,
    all: PlacesModel,
    links: Seq<Link>,
    n: nat,
    way: Seq<u32>,
    d: int,
    k: int,
)
    requires
        ends_at_particles(nif, way),
        0 <= d < way.len(),
        0 <= k < n <= links.len(),
        links[k] == Link(Some(way[d])),
    ensures
        placed_among(
            nif,
            all,
            links,
            n,
            way.take(d),
            in_effect(nif, way.take(d)),
            d as nat,
        ).found.contains((way.last(), in_effect(nif, way))),
    decreases way.len() - d, n + 1,
{
    let chain = way.take(d);
    let before = placed_among(
        nif,
        all,
        links,
        (n - 1) as nat,
        chain,
        in_effect(nif, chain),
        d as nat,
    );
    if k < n - 1 {
        lemma_particles_among(nif, all, links, (n - 1) as nat, way, d, k);
        lemma_found_stays_from(
            nif,
            before,
            links[n - 1],
            chain,
            in_effect(nif, chain),
            d as nat,
            (way.last(), in_effect(nif, way)),
        );
    } else {
        lemma_particles_are_found(nif, before, way, d);
    }
}

/// **Everything in sight that draws particles is found**, with the properties in effect on it.
pub proof fn law_particles_in_sight_are_found(nif: &Nif, way: Seq<u32>)
    requires
        ends_at_particles(nif, way),
    ensures
        places_in(nif).found.contains((way.last(), in_effect(nif, way))),
{
    let root = Link(Some(way[0]));
    assert(way.take(0) =~= Seq::empty());
    assert(hangs_below(nif, way.take(0), root)) by {
        if way.len() == 1 {
            assert(way.drop_last() =~= way.take(0));
        } else {
            lemma_leads_part_way(nif, way.drop_last(), false, 0);
            assert(way.drop_last().take(0) =~= way.take(0));
            assert(way.drop_last()[0] == way[0]);
        }
    }
    let k = nif.roots@.index_of(root);
    lemma_particles_among(
        nif,
        PlacesModel {
            places: Seq::new(nif.blocks@.len(), |i: int| None),
            found: Seq::empty(),
        },
        nif.roots@,
        nif.roots@.len(),
        way,
        0,
        k,
    );
}

/// **A span says where a shape landed**: which shape it is, the skin that shape has, the blocks that
/// place it, how many vertices it has, and that they begin after those of the spans before it.
pub proof fn law_a_span_is_of_its_shape(
    nif: &Nif,
    table: TableModel,
    shapes: Seq<DrawnModel>,
    n: nat,
    s: int,
)
    requires
        n <= shapes.len(),
        flattened(nif, table, shapes, n).mesh.positions.len() <= u32::MAX,
        0 <= s < flattened(nif, table, shapes, n).spans.len(),
    ensures
        ({
            let flat = flattened(nif, table, shapes, n);
            let span = flat.spans[s];
            &&& exists|i: int|
                #![trigger shapes[i]]
                0 <= i < n && span_is_of(nif, span, shapes[i])
            &&& span.first_vertex == (if s == 0 {
                0
            } else {
                flat.spans[s - 1].first_vertex + flat.spans[s - 1].vertex_count
            })
            &&& s == flat.spans.len() - 1 ==> span.first_vertex + span.vertex_count
                == flat.mesh.positions.len()
        }),
    decreases n,
{
    if n > 0 {
        let before = flattened(nif, table, shapes, (n - 1) as nat);
        let flat = flattened(nif, table, shapes, n);
        let shape = shapes[n - 1];
        let data = super::flatten::data_at(nif, shape.block);
        assert(before.mesh.positions.len() <= flat.mesh.positions.len());
        if s < before.spans.len() {
            law_a_span_is_of_its_shape(nif, table, shapes, (n - 1) as nat, s);
            assert(flat.spans[s] == before.spans[s]);
            if s > 0 {
                assert(flat.spans[s - 1] == before.spans[s - 1]);
            }
            let i = choose|i: int|
                #![trigger shapes[i]]
                0 <= i < n - 1 && span_is_of(nif, before.spans[s], shapes[i]);
            assert(span_is_of(nif, flat.spans[s], shapes[i]));
        } else {
            if s > 0 {
                law_a_span_is_of_its_shape(nif, table, shapes, (n - 1) as nat, s - 1);
                assert(flat.spans[s - 1] == before.spans[s - 1]);
            } else {
                lemma_no_spans(nif, table, shapes, (n - 1) as nat);
            }
            assert(span_is_of(nif, flat.spans[s], shapes[n - 1]));
        }
    }
}

/// Whether a span is of a drawn shape.
pub open spec fn span_is_of(nif: &Nif, span: SpanModel, shape: DrawnModel) -> bool {
    &&& span.block == shape.block
    &&& span.chain == shape.chain
    &&& nif.blocks@[shape.block as int] matches Block::Geometry(geometry) ==> {
        &&& span.skin == geometry.skin
        &&& nif.at(geometry.data) matches Some(Block::GeometryData(data)) ==> span.vertex_count
            == data.vertices@.len()
    }
}

/// A flattening with no spans has no vertices.
proof fn lemma_no_spans(nif: &Nif, table: TableModel, shapes: Seq<DrawnModel>, n: nat)
    requires
        flattened(nif, table, shapes, n).spans.len() == 0,
    ensures
        flattened(nif, table, shapes, n).mesh.positions.len() == 0,
    decreases n,
{
    if n > 0 {
        lemma_no_spans(nif, table, shapes, (n - 1) as nat);
    }
}

/// **A name that is never drawn is a collision hull's, what is steered around, or an editor's marker
/// in any case**, whatever follows the marker's own name.
pub proof fn law_some_names_are_never_drawn(name: Seq<char>)
    ensures
        skippable("RootCollisionNode"@),
        skippable("AvoidNode"@),
        name.len() >= 12 && lowered(name).take(12) == "editormarker"@ ==> skippable(name),
        name.len() >= 16 && lowered(name).take(16) == "tri editormarker"@ ==> skippable(name),
        skippable(name) ==> name == "RootCollisionNode"@ || name == "AvoidNode"@ || (name.len() >= 12
            && lowered(name).take(12) == "editormarker"@) || (name.len() >= 16 && lowered(
            name,
        ).take(16) == "tri editormarker"@),
{
    reveal_strlit("editormarker");
    reveal_strlit("tri editormarker");
}

/// Whether two bytes are the same letter, or the same anything.
pub open spec fn same_letter(a: u8, b: u8) -> bool {
    ||| a == b
    ||| 0x41 <= a <= 0x5A && b == a + 32
    ||| 0x41 <= b <= 0x5A && a == b + 32
}

/// **A shape belongs to a slot where the slot's name stands anywhere in its own, in any ASCII case.**
pub proof fn law_a_slot_stands_in_the_names_of_its_shapes(
    name: Seq<char>,
    slot: Seq<char>,
    at: int,
)
    ensures
        ({
            let (whole, part) = (encode_utf8(name), encode_utf8(slot));
            &&& (0 <= at && at + part.len() <= whole.len() && forall|i: int|
                0 <= i < part.len() ==> same_letter(#[trigger] part[i], whole[at + i])) ==> belongs(
                name,
                slot,
            )
            &&& belongs(name, slot) ==> exists|from: int|
                #![trigger stands_at(whole, part, from)]
                0 <= from && from + part.len() <= whole.len() && forall|i: int|
                    0 <= i < part.len() ==> same_letter(#[trigger] part[i], whole[from + i])
        }),
{
    let (whole, part) = (encode_utf8(name), encode_utf8(slot));
    if 0 <= at && at + part.len() <= whole.len() && forall|i: int|
        0 <= i < part.len() ==> same_letter(#[trigger] part[i], whole[at + i]) {
        assert(stands_at(whole, part, at));
    }
    if belongs(name, slot) {
        let from = choose|from: int| #[trigger] stands_at(whole, part, from);
        assert forall|i: int| 0 <= i < part.len() implies same_letter(
            #[trigger] part[i],
            whole[from + i],
        ) by {}
    }
}

/// **A file is cut down to a slot where any block of it is a skin**, wherever that block stands, and
/// is otherwise drawn whole.
pub proof fn law_one_skin_cuts_a_file_down(nif: &Nif, slot: Option<Seq<char>>)
    ensures
        forall|i: int|
            0 <= i < nif.blocks@.len() && (#[trigger] nif.blocks@[i] is Skin) ==> effective_slot(
                nif,
                slot,
            ) == slot,
        (forall|i: int| 0 <= i < nif.blocks@.len() ==> !(#[trigger] nif.blocks@[i] is Skin))
            ==> effective_slot(nif, slot) is None,
{
}

} // verus!
