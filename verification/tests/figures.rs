use rtxmw::scene::actor::{actor_fits, ActorBind, ActorPart, AssembledActor};
use rtxmw::scene::influence::{influence_of, Share};
use rtxmw::scene::nif::{
    AlphaProperty, Block, ColourKey, Controller, FloatKey, Geometry, GeometryData, Keyframes, Link,
    Nif, Node, Object, ParticleEffect, ParticleModifier, ParticleSystem, SkinBone, SkinData,
    SkinInstance, SkinWeight, Transform,
};
use rtxmw::scene::particle_emitter::{find_stop, ParticleEmitter};
use rtxmw::scene::rig::{Bind, Rig};
use rtxmw::scene::sampling::{bracket, Sampled};
use rtxmw::scene::skeleton::{Channel, Skeleton, NO_PARENT};
use rtxmw::scene::static_scene::MeshId;
use rtxmw::scene::{MaterialTable, Mesh};

fn link(to: u32) -> Link {
    Link(Some(to))
}

fn f(v: f32) -> u32 {
    v.to_bits()
}

fn still() -> Transform {
    Transform {
        rotation: [
            [f(1.0), 0, 0],
            [0, f(1.0), 0],
            [0, 0, f(1.0)],
        ],
        translation: [0; 3],
        scale: f(1.0),
    }
}

fn object(name: &str) -> Object {
    Object {
        name: name.to_owned(),
        hidden: false,
        transform: still(),
        properties: Vec::new(),
        controller: Link::nowhere(),
    }
}

fn moving(name: &str, controller: u32) -> Object {
    Object {
        controller: link(controller),
        ..object(name)
    }
}

fn triangle() -> GeometryData {
    GeometryData {
        vertices: vec![[0; 3], [1; 3], [2; 3]],
        normals: Vec::new(),
        uv_sets: Vec::new(),
        triangles: vec![[0, 1, 2]],
    }
}

/// A moment's value in a channel.
fn sample(keys: &[FloatKey], time: f32) -> Option<f32> {
    let times: Vec<u32> = keys.iter().map(|key| key.time).collect();
    let value = |i: usize| f32::from_bits(keys[i].value);
    let when = |i: usize| f32::from_bits(keys[i].time);
    match bracket(&times, f(time))? {
        Sampled::Held(i) => Some(value(i)),
        Sampled::Between(a, b) => {
            let t = (time - when(a)) / (when(b) - when(a));
            Some(value(a) + (value(b) - value(a)) * t)
        }
    }
}

#[test]
fn a_channel_is_clamped_at_both_ends_and_read_between_its_keys() {
    let keys = [
        FloatKey {
            time: f(1.0),
            value: f(10.0),
        },
        FloatKey {
            time: f(3.0),
            value: f(30.0),
        },
    ];
    // Clamped rather than extrapolated.
    assert_eq!(sample(&keys, 0.0), Some(10.0));
    assert_eq!(sample(&keys, 1.0), Some(10.0));
    assert_eq!(sample(&keys, 9.0), Some(30.0));
    // A quarter of the way from 1 to 3 is 1.5, and a quarter of the way from 10 to 30 is 15.
    assert_eq!(sample(&keys, 1.5), Some(15.0));
    assert_eq!(sample(&keys, 2.0), Some(20.0));
    // And a channel with nothing in it says nothing, rather than saying zero.
    assert_eq!(sample(&[], 1.0), None);
}

#[test]
fn a_moment_falls_between_one_pair_of_keys() {
    let times: Vec<u32> = [0.0f32, 1.0, 2.0, 4.0, 8.0].map(f).to_vec();
    assert_eq!(bracket(&times, f(3.0)), Some(Sampled::Between(2, 3)));
    assert_eq!(bracket(&times, f(4.0)), Some(Sampled::Between(2, 3)));
    assert_eq!(bracket(&times, f(4.5)), Some(Sampled::Between(3, 4)));
    assert_eq!(bracket(&times, f(8.0)), Some(Sampled::Held(4)));
}

fn share(bone: u32, weight: f32) -> Share {
    Share {
        bone,
        weight: f(weight),
    }
}

#[test]
fn a_vertex_keeps_its_strongest_claims() {
    let kept = influence_of(&vec![
        share(1, 0.1),
        share(2, 0.3),
        share(3, 0.2),
        share(4, 0.05),
        share(5, 0.35),
    ]);
    let mut held: Vec<(u8, f32)> = (0..4)
        .map(|i| (kept.bones[i], f32::from_bits(kept.weights[i])))
        .collect();
    held.sort_by_key(|(bone, _)| *bone);
    assert_eq!(held, vec![(1, 0.1), (2, 0.3), (3, 0.2), (5, 0.35)]);
    // An unclaimed vertex is held by nothing.
    assert_eq!(influence_of(&Vec::new()).weights, [0; 4]);
}

/// A root with one moving bone, and a shape hung from it or skinned to it.
fn creature(skinned: bool) -> Nif {
    Nif {
        blocks: vec![
            Block::Node(Node {
                object: object("Bip01"),
                children: vec![link(1)],
            }),
            Block::Node(Node {
                object: moving("Bip01 Spine", 4),
                children: vec![link(2)],
            }),
            Block::Geometry(Geometry {
                object: object("Tri Chest"),
                data: link(3),
                skin: if skinned { link(6) } else { Link::nowhere() },
            }),
            Block::GeometryData(triangle()),
            Block::Controller(Controller {
                keyframe: true,
                data: link(5),
                next: Link::nowhere(),
            }),
            Block::Keyframes(Keyframes {
                rotations: Vec::new(),
                translations: Vec::new(),
                scales: vec![
                    FloatKey {
                        time: f(0.0),
                        value: f(1.0),
                    },
                    FloatKey {
                        time: f(2.5),
                        value: f(2.0),
                    },
                ],
            }),
            Block::Skin(SkinInstance {
                data: link(7),
                bones: vec![link(1), link(0)],
            }),
            Block::SkinData(SkinData {
                bones: vec![
                    SkinBone {
                        inverse_bind: still(),
                        first_weight: 0,
                        weight_count: 2,
                    },
                    SkinBone {
                        inverse_bind: still(),
                        first_weight: 2,
                        weight_count: 1,
                    },
                ],
                weights: vec![
                    SkinWeight {
                        vertex: 0,
                        weight: f(1.0),
                    },
                    SkinWeight {
                        vertex: 1,
                        weight: f(0.25),
                    },
                    SkinWeight {
                        vertex: 1,
                        weight: f(0.75),
                    },
                ],
            }),
        ],
        roots: vec![link(0)],
    }
}

#[test]
fn a_skeleton_is_numbered_parents_first() {
    let skeleton = Skeleton::of(&creature(false)).expect("two joints");
    assert_eq!(skeleton.parents, vec![NO_PARENT, 0]);
    assert_eq!(skeleton.blocks, vec![0, 1]);
    assert!(!skeleton.is_still());
    assert_eq!(f32::from_bits(skeleton.duration()), 2.5);
    assert_eq!(skeleton.joint_of(link(1)), Some(1));
    // A shape is no joint and hangs from one.
    assert_eq!(skeleton.joint_of(link(2)), Some(1));
    assert_eq!(skeleton.joint_of(link(9)), None);
    assert!(Channel::new().is_empty());
    let channel = Channel::of(&creature(false), link(4));
    assert_eq!(f32::from_bits(channel.duration()), 2.5);
    assert!(!channel.is_empty());
}

#[test]
fn a_graph_that_goes_round_has_no_skeleton() {
    let mut looped = creature(false);
    if let Block::Node(node) = &mut looped.blocks[1] {
        node.children.push(link(0));
    }
    assert!(Skeleton::of(&looped).is_none());
}

#[test]
fn a_rig_binds_every_vertex_of_its_mesh() {
    let mut table = MaterialTable::new();
    let nif = creature(true);
    let (mesh, spans) = Mesh::from_nif(&nif, &mut table);
    let rig = Rig::from_nif(&nif, MeshId(7), mesh.positions.len(), &spans).expect("it moves");
    assert_eq!(rig.mesh, MeshId(7));
    assert_eq!(rig.bones.len(), 2);
    assert_eq!((rig.bones[0].joint, rig.bones[1].joint), (1, 0));
    assert!(matches!(rig.bones[0].bind, Bind::Skinned { span: 0, .. }));
    assert_eq!(rig.influences.len(), 3);
    assert_eq!(f32::from_bits(rig.influences[0].weights[0]), 1.0);
    let total: f32 = rig.influences[1].weights.iter().map(|w| f32::from_bits(*w)).sum();
    assert_eq!(total, 1.0);
    assert_eq!(rig.influences[2].weights, [0; 4]);
    assert_eq!(f32::from_bits(rig.duration), 2.5);

    // A shape with no skin follows the node it hangs from.
    let nif = creature(false);
    let (mesh, spans) = Mesh::from_nif(&nif, &mut table);
    let rig = Rig::from_nif(&nif, MeshId(0), mesh.positions.len(), &spans).expect("it moves");
    assert_eq!(rig.bones.len(), 1);
    assert_eq!(rig.bones[0].joint, 1);
    assert!(matches!(rig.bones[0].bind, Bind::Hung));
    assert!(rig.influences.iter().all(|i| f32::from_bits(i.weights[0]) == 1.0));
}

#[test]
fn a_model_that_never_moves_has_no_rig() {
    let mut nif = creature(false);
    if let Block::Node(node) = &mut nif.blocks[1] {
        node.object.controller = Link::nowhere();
    }
    let mut table = MaterialTable::new();
    let (mesh, spans) = Mesh::from_nif(&nif, &mut table);
    assert!(Rig::from_nif(&nif, MeshId(0), mesh.positions.len(), &spans).is_none());
}

/// One shape of a part's file, under a root.
fn part_file(name: &str, skin: bool) -> Nif {
    let mut nif = creature(skin);
    if let Block::Geometry(geometry) = &mut nif.blocks[2] {
        geometry.object.name = name.to_owned();
    }
    nif
}

#[test]
fn a_part_hangs_from_the_bone_it_names_in_any_case() {
    let base = creature(false);
    let part = ActorPart::of("b\\head.nif", Some("BIP01 SPINE"), Some("head"), false)
        .expect("a slot with a bone");
    assert_eq!(part.model, "meshes/b/head.nif");
    let mirrored = ActorPart::of("b\\hand.nif", Some("bip01 spine"), Some("hand"), true)
        .expect("a slot with a bone");
    let parts = vec![part, mirrored];
    let files = vec![
        Some(part_file("Tri Head", false)),
        Some(part_file("Tri Hand", false)),
    ];
    let mut table = MaterialTable::new();
    assert!(actor_fits(&parts, &files, &table));
    let actor = AssembledActor::assemble(&base, &parts, &files, &mut table).expect("a body");
    assert_eq!(actor.mesh.positions.len(), 6);
    assert_eq!(actor.influences.len(), 6);
    assert_eq!(actor.bones.len(), 2);
    assert!(actor.bones.iter().all(|bone| bone.joint == 1));
    assert!(matches!(
        actor.bones[1].bind,
        ActorBind::Attached { mirrored: true }
    ));
    assert_eq!(actor.influences[4].bones[0], 1);
    // A reflection turns a triangle inside out, so its winding is turned back.
    assert_eq!(actor.mesh.indices, vec![0, 1, 2, 3, 5, 4]);
    assert_eq!(actor.spans.len(), 2);
    assert_eq!(actor.spans[1].base_vertex, 3);
    assert_eq!(f32::from_bits(actor.duration), 2.5);
}

#[test]
fn a_skinned_slot_is_taken_out_of_its_file_once() {
    let base = creature(false);
    let slot = |reflected| {
        ActorPart::of("skins.nif", Some("Bip01"), Some("hand"), reflected).expect("a slot")
    };
    let parts = vec![slot(false), slot(true)];
    let files = vec![
        Some(part_file("Tri Left Hand 0", true)),
        Some(part_file("Tri Left Hand 0", true)),
    ];
    let mut table = MaterialTable::new();
    let actor = AssembledActor::assemble(&base, &parts, &files, &mut table).expect("a body");
    assert_eq!(actor.mesh.positions.len(), 3);
    assert!(matches!(
        actor.bones[0].bind,
        ActorBind::Skinned { part: 0, span: 0, .. }
    ));
    // Bound by name to the joints of the skeleton being posed.
    assert_eq!((actor.bones[0].joint, actor.bones[1].joint), (1, 0));
}

#[test]
fn a_part_with_no_bone_or_no_model_is_no_part() {
    assert!(ActorPart::of("a.nif", None, Some("head"), false).is_none());
    assert!(ActorPart::of("a.nif", Some("head"), None, false).is_none());
    assert!(ActorPart::of("", Some("head"), Some("head"), false).is_none());
    // And a body none of whose parts were read is no body.
    let parts = vec![ActorPart::of("a.nif", Some("Bip01"), Some("head"), false).unwrap()];
    let mut table = MaterialTable::new();
    assert!(AssembledActor::assemble(&creature(false), &parts, &vec![None], &mut table).is_none());
}

fn colour_key(time: f32, red: f32) -> ColourKey {
    ColourKey {
        time: f(time),
        value: [f(red), 0, 0, f(1.0)],
    }
}

/// A candle: one emitter under a node of its own, with gravity and a tint.
fn candle(lifetime: f32) -> Nif {
    let mut root = object("candle");
    root.properties = vec![link(7)];
    Nif {
        blocks: vec![
            Block::Node(Node {
                object: root,
                children: vec![link(1), link(2)],
            }),
            Block::Node(Node {
                object: object("wick"),
                children: Vec::new(),
            }),
            Block::Particles(moving("flame", 3)),
            Block::ParticleSystem(ParticleSystem {
                emitter: link(1),
                modifier: link(4),
                spread: [0; 3],
                speed: f(5.0),
                speed_variation: 0,
                declination: 0,
                declination_variation: 0,
                azimuth: 0,
                colour: [f(1.0); 4],
                size: f(2.0),
                lifetime: f(lifetime),
                lifetime_variation: 0,
            }),
            Block::ParticleModifier(ParticleModifier {
                effect: ParticleEffect::Gravity {
                    towards_point: false,
                    direction: [0, 0, f(1.0)],
                    force: f(9.0),
                },
                next: link(5),
            }),
            Block::ParticleModifier(ParticleModifier {
                effect: ParticleEffect::Colour { keys: link(6) },
                next: Link::nowhere(),
            }),
            Block::Colour(vec![
                colour_key(0.0, 1.0),
                colour_key(0.4, 0.5),
                colour_key(1.0, 0.0),
            ]),
            Block::Alpha(AlphaProperty {
                tests: false,
                blends: true,
                adds: true,
                threshold: 0,
            }),
        ],
        roots: vec![link(0)],
    }
}

#[test]
fn a_candle_emits_one_flame_at_its_wick() {
    let emitters = ParticleEmitter::collect(&candle(0.8));
    assert_eq!(emitters.len(), 1);
    let flame = &emitters[0];
    assert_eq!(flame.placement, vec![0, 1]);
    assert!(flame.additive);
    let pull = flame.pull.expect("a modifier pulls it");
    assert_eq!(f32::from_bits(pull.force), 9.0);
    let ramp = flame.ramp.as_ref().expect("a modifier tints it");
    // Three keys are the ramp itself.
    assert_eq!(f32::from_bits(ramp.mid), 0.4);
    assert_eq!(
        ramp.stops,
        [
            Sampled::Held(0),
            Sampled::Between(0, 1),
            Sampled::Between(1, 2)
        ]
    );
    // One that would draw nothing is no emitter.
    assert!(ParticleEmitter::collect(&candle(0.0)).is_empty());
}

#[test]
fn a_tint_is_read_from_the_keys_about_a_moment() {
    let keys = vec![colour_key(0.25, 1.0), colour_key(0.5, 0.5)];
    assert_eq!(find_stop(&keys, f(0.0)), Sampled::Held(0));
    assert_eq!(find_stop(&keys, f(0.4)), Sampled::Between(0, 1));
    assert_eq!(find_stop(&keys, f(0.75)), Sampled::Held(1));
}

/// A file of one chest and two hands of three shapes each, all skinned.
fn skins() -> Nif {
    let mut nif = creature(true);
    nif.blocks.truncate(2);
    let mut children = Vec::new();
    let shapes = [
        ("Tri Chest", 284),
        ("Tri Left Hand 0", 132),
        ("Tri Left Hand 1", 28),
        ("Tri Left Hand 2", 57),
        ("Tri Right Hand 0", 132),
        ("Tri Right Hand 1", 28),
        ("Tri Right Hand 2", 57),
    ];
    for (name, vertices) in shapes {
        let at = nif.blocks.len() as u32;
        children.push(link(at));
        nif.blocks.push(Block::Geometry(Geometry {
            object: object(name),
            data: link(at + 1),
            skin: link(at + 2),
        }));
        nif.blocks.push(Block::GeometryData(GeometryData {
            vertices: vec![[0; 3]; vertices],
            ..triangle()
        }));
        nif.blocks.push(Block::Skin(SkinInstance {
            data: link(at + 3),
            bones: vec![link(1)],
        }));
        nif.blocks.push(Block::SkinData(SkinData {
            bones: vec![SkinBone {
                inverse_bind: still(),
                first_weight: 0,
                weight_count: vertices as u32,
            }],
            weights: (0..vertices as u16)
                .map(|vertex| SkinWeight {
                    vertex,
                    weight: f(1.0),
                })
                .collect(),
        }));
    }
    if let Block::Node(node) = &mut nif.blocks[1] {
        node.children = children;
    }
    nif
}

#[test]
fn a_skin_file_gives_up_one_slot_at_a_time() {
    const CHEST_VERTICES: usize = 284;
    const HAND_VERTICES: usize = 2 * (132 + 28 + 57);
    let part = |bone: &str, shape: &str, reflected: bool| {
        ActorPart::of("b\\skins.nif", Some(bone), Some(shape), reflected).expect("a slot")
    };
    // The file is one mesh and three slots point at it, so what a slot gets has to be cut out by
    // name.
    let vertices = |parts: Vec<ActorPart>| {
        let files: Vec<Option<Nif>> = parts.iter().map(|_| Some(skins())).collect();
        let mut materials = MaterialTable::new();
        let actor = AssembledActor::assemble(&creature(false), &parts, &files, &mut materials)
            .expect("the skins file should assemble against the base skeleton");
        assert_eq!(actor.influences.len(), actor.mesh.positions.len());
        assert!(actor
            .influences
            .iter()
            .all(|held| f32::from_bits(held.weights[0]) == 1.0));
        actor.mesh.positions.len()
    };
    let chest = || part("Chest", "chest", false);
    let right = || part("Right Hand", "hand", false);
    let left = || part("Left Hand", "hand", true);
    assert_eq!(vertices(vec![chest()]), CHEST_VERTICES);
    assert_eq!(vertices(vec![right(), left()]), HAND_VERTICES);
    assert_eq!(
        vertices(vec![chest(), right(), left()]),
        CHEST_VERTICES + HAND_VERTICES,
        "the slots partition the file: nothing shared, nothing left over"
    );
    // And both hands come of the one read.
    assert_eq!(vertices(vec![right()]), HAND_VERTICES);
}
