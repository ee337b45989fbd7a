//! A model file as the scene reads it: a graph of blocks that refer to each other by number.

use super::bits::Bits;
use vstd::prelude::*;

verus! {

/// A reference from one block to another, or to none.
#[derive(Debug, Clone, Copy, PartialEq, Eq)]
pub struct Link(pub Option<u32>);

/// Where a node stands in its parent's space: a row-major rotation, a translation, a uniform scale.
#[derive(Debug, Clone, Copy)]
pub struct Transform {
    pub rotation: [[Bits; 3]; 3],
    pub translation: [Bits; 3],
    pub scale: Bits,
}

/// What every placed block carries.
#[derive(Debug)]
pub struct Object {
    pub name: String,
    pub hidden: bool,
    pub transform: Transform,
    pub properties: Vec<Link>,
    pub controller: Link,
}

/// A node of the graph, which groups what hangs from it.
#[derive(Debug)]
pub struct Node {
    pub object: Object,
    pub children: Vec<Link>,
}

/// A drawn shape, whose vertices are in a block of their own.
#[derive(Debug)]
pub struct Geometry {
    pub object: Object,
    pub data: Link,
    pub skin: Link,
}

/// The vertices and triangles of a shape. Normals and texture coordinates are optional.
#[derive(Debug)]
pub struct GeometryData {
    pub vertices: Vec<[Bits; 3]>,
    pub normals: Vec<[Bits; 3]>,
    pub uv_sets: Vec<Vec<[Bits; 2]>>,
    pub triangles: Vec<[u16; 3]>,
}

/// A material's fixed-function colours.
#[derive(Debug, Clone, Copy)]
pub struct MaterialProperty {
    pub diffuse: [Bits; 3],
    pub emissive: [Bits; 3],
    pub alpha: Bits,
}

/// How a surface's alpha is used.
#[derive(Debug, Clone, Copy)]
pub struct AlphaProperty {
    pub tests: bool,
    pub blends: bool,
    pub adds: bool,
    pub threshold: u8,
}

/// A texture named by a file of its own, or held inside the model.
#[derive(Debug)]
pub struct SourceTexture {
    pub external: bool,
    pub file_name: String,
}

/// One controller on a block's chain.
#[derive(Debug, Clone, Copy)]
pub struct Controller {
    /// Whether it drives a node's own placement by keys.
    pub keyframe: bool,
    pub data: Link,
    pub next: Link,
}

/// A controller that slides a texture across a surface.
#[derive(Debug, Clone, Copy)]
pub struct UvController {
    pub data: Link,
    /// How far its data slides the texture each second.
    pub scroll: [Bits; 2],
}

/// A key: when, and the value there. Quaternions are stored `w` first.
#[derive(Debug, Clone, Copy)]
pub struct QuaternionKey {
    pub time: Bits,
    pub value: [Bits; 4],
}

/// A key: when, and the value there.
#[derive(Debug, Clone, Copy)]
pub struct VectorKey {
    pub time: Bits,
    pub value: [Bits; 3],
}

/// A key: when, and the value there.
#[derive(Debug, Clone, Copy)]
pub struct FloatKey {
    pub time: Bits,
    pub value: Bits,
}

/// What a keyframe controller plays.
#[derive(Debug)]
pub struct Keyframes {
    pub rotations: Vec<QuaternionKey>,
    pub translations: Vec<VectorKey>,
    pub scales: Vec<FloatKey>,
}

/// Which nodes a shape is skinned to, and the weights it is skinned by.
#[derive(Debug)]
pub struct SkinInstance {
    pub data: Link,
    pub bones: Vec<Link>,
}

/// One bone of a skin: its bind pose, and which of the weights are its own.
#[derive(Debug, Clone, Copy)]
pub struct SkinBone {
    pub inverse_bind: Transform,
    pub first_weight: u32,
    pub weight_count: u32,
}

/// One bone's hold on one vertex.
#[derive(Debug, Clone, Copy)]
pub struct SkinWeight {
    pub vertex: u16,
    pub weight: Bits,
}

/// The bones of a skin and every weight of every one of them.
#[derive(Debug)]
pub struct SkinData {
    pub bones: Vec<SkinBone>,
    pub weights: Vec<SkinWeight>,
}

/// A controller that emits particles.
#[derive(Debug, Clone, Copy)]
pub struct ParticleSystem {
    pub emitter: Link,
    pub modifier: Link,
    pub spread: [Bits; 3],
    pub speed: Bits,
    pub speed_variation: Bits,
    pub declination: Bits,
    pub declination_variation: Bits,
    pub azimuth: Bits,
    pub colour: [Bits; 4],
    pub size: Bits,
    pub lifetime: Bits,
    pub lifetime_variation: Bits,
}

/// What a particle modifier does.
#[derive(Debug, Clone, Copy)]
pub enum ParticleEffect {
    /// A pull along a direction, or towards a point.
    Gravity { towards_point: bool, direction: [Bits; 3], force: Bits },
    /// A tint keyed over a life.
    Colour { keys: Link },
    /// Anything that shapes or spins a sprite.
    Other,
}

/// One modifier on a particle system's chain.
#[derive(Debug, Clone, Copy)]
pub struct ParticleModifier {
    pub effect: ParticleEffect,
    pub next: Link,
}

/// A key of a tint: when in a life, and the colour there.
#[derive(Debug, Clone, Copy)]
pub struct ColourKey {
    pub time: Bits,
    pub value: [Bits; 4],
}

/// One block of a model file.
#[derive(Debug)]
pub enum Block {
    Node(Node),
    Geometry(Geometry),
    GeometryData(GeometryData),
    /// A base texture slot, and the texture in it.
    Texturing(Option<Link>),
    Material(MaterialProperty),
    Alpha(AlphaProperty),
    SourceTexture(SourceTexture),
    Controller(Controller),
    UvController(UvController),
    UvData,
    Keyframes(Keyframes),
    Skin(SkinInstance),
    SkinData(SkinData),
    Particles(Object),
    ParticleSystem(ParticleSystem),
    ParticleModifier(ParticleModifier),
    Colour(Vec<ColourKey>),
    Other,
}

/// A model file: its blocks, and those the graph starts from.
#[derive(Debug)]
pub struct Nif {
    pub blocks: Vec<Block>,
    pub roots: Vec<Link>,
}

impl Link {
    /// No block at all.
    pub open spec fn none() -> Link {
        Link(None)
    }

    /// A link to nothing.
    pub fn nowhere() -> (r: Link)
        ensures
            r == Link::none(),
    {
        Link(None)
    }

    /// The number of the block linked to.
    pub fn index(&self) -> (r: Option<u32>)
        ensures
            r == self.0,
    {
        self.0
    }

    /// Whether this links to nothing.
    pub fn is_none(&self) -> (r: bool)
        ensures
            r == (self.0 is None),
    {
        self.0.is_none()
    }
}

impl Nif {
    /// The block a link leads to: none where the link leads nowhere, or past the end of the file.
    pub open spec fn at(&self, link: Link) -> Option<Block> {
        match link.0 {
            Some(i) => if i < self.blocks@.len() {
                Some(self.blocks@[i as int])
            } else {
                None
            },
            None => None,
        }
    }

    /// The block a link leads to.
    pub fn resolve(&self, link: Link) -> (r: Option<&Block>)
        ensures
            match r {
                Some(block) => self.at(link) == Some(*block) && link.0 is Some && link.0->0
                    < self.blocks@.len(),
                None => self.at(link) is None,
            },
    {
        match link.0 {
            Some(i) => {
                if (i as usize) < self.blocks.len() {
                    Some(&self.blocks[i as usize])
                } else {
                    None
                }
            },
            None => None,
        }
    }
}

} // verus!
