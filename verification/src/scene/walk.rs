//! Finding what a model draws: a walk of its node graph.

use super::ini::lowered;
use super::material::{no_properties, overridden, starts_with_lowered, Properties};
use super::nif::{Block, Geometry, Link, Nif, Node};
use crate::text::{chars, same};
use vstd::prelude::*;
use vstd::utf8::encode_utf8;

verus! {

/// How deep the graph is followed. Nothing in the format forbids a loop of links, so this is what
/// ends the walk of a malformed file.
pub const MAX_DEPTH: u32 = 64;

/// One ASCII capital as its small letter, as a byte.
pub open spec fn small_byte(b: u8) -> u8 {
    if 0x41 <= b <= 0x5A {
        (b + 32) as u8
    } else {
        b
    }
}

/// Whether `part` stands in `whole` at `at`, in any ASCII case.
pub open spec fn stands_at(whole: Seq<u8>, part: Seq<u8>, at: int) -> bool {
    &&& 0 <= at
    &&& at + part.len() <= whole.len()
    &&& forall|i: int|
        0 <= i < part.len() ==> small_byte(#[trigger] part[i]) == small_byte(whole[at + i])
}

/// Whether a shape's name says it belongs to `slot`: the slot's name is somewhere in it, in any
/// ASCII case.
pub open spec fn belongs(name: Seq<char>, slot: Seq<char>) -> bool {
    exists|at: int| #[trigger] stands_at(encode_utf8(name), encode_utf8(slot), at)
}

/// Whether text starts with `prefix` once its ASCII capitals are made small.
pub open spec fn starts_small(s: Seq<char>, prefix: Seq<char>) -> bool {
    s.len() >= prefix.len() && lowered(s).take(prefix.len() as int) == prefix
}

/// Whether a node's name marks it as never drawn: the collision hull, what pathfinding steers
/// around, and the editor's own markers.
pub open spec fn skippable(name: Seq<char>) -> bool {
    ||| name == "RootCollisionNode"@
    ||| name == "AvoidNode"@
    ||| starts_small(name, "editormarker"@)
    ||| starts_small(name, "tri editormarker"@)
}

/// One ASCII capital as its small letter, as a byte.
fn to_small_byte(b: u8) -> (r: u8)
    ensures
        r == small_byte(b),
{
    if 0x41 <= b && b <= 0x5A {
        b + 32
    } else {
        b
    }
}

/// Whether `part` stands in `whole` at `at`, in any ASCII case.
fn is_at(whole: &[u8], part: &[u8], at: usize) -> (r: bool)
    requires
        at + part@.len() <= whole@.len(),
    ensures
        r == stands_at(whole@, part@, at as int),
{
    assert(whole@.len() == whole.len());
    let mut i: usize = 0;
    while i < part.len()
        invariant
            i <= part@.len(),
            at + part@.len() <= whole@.len(),
            whole@.len() == whole.len(),
            forall|k: int|
                0 <= k < i ==> small_byte(#[trigger] part@[k]) == small_byte(whole@[at + k]),
        decreases part@.len() - i,
    {
        if to_small_byte(part[i]) != to_small_byte(whole[at + i]) {
            assert(small_byte(part@[i as int]) != small_byte(whole@[at + i]));
            return false;
        }
        i = i + 1;
    }
    true
}

/// Whether a shape's name says it belongs to `slot`.
///
/// A substring rather than a prefix, because that is how the shapes read: `Tri Left Hand 0` and
/// `Tri Right Hand 2` are both the hand slot.
pub fn names_slot(name: &str, slot: &str) -> (r: bool)
    ensures
        r == belongs(name@, slot@),
{
    let whole: &[u8] = name.as_bytes();
    let part: &[u8] = slot.as_bytes();
    if part.len() > whole.len() {
        return false;
    }
    let mut at: usize = 0;
    let last: usize = whole.len() - part.len();
    while at < last
        invariant
            whole@ == encode_utf8(name@),
            part@ == encode_utf8(slot@),
            last + part@.len() == whole@.len(),
            at <= last,
            forall|k: int| 0 <= k < at ==> !#[trigger] stands_at(whole@, part@, k),
        decreases last - at,
    {
        if is_at(whole, part, at) {
            return true;
        }
        at = at + 1;
    }
    is_at(whole, part, last)
}

/// Whether a node's name marks it as never drawn.
pub fn is_skippable(name: &str) -> (r: bool)
    ensures
        r == skippable(name@),
{
    if same(name, "RootCollisionNode") || same(name, "AvoidNode") {
        return true;
    }
    let all: Vec<char> = chars(name);
    starts_with_lowered(&all, &chars("editormarker")) || starts_with_lowered(
        &all,
        &chars("tri editormarker"),
    )
}

/// A shape a model draws: which block it is, the blocks its placement is composed from, and the
/// properties in effect on it.
#[derive(Debug)]
pub struct Drawn {
    pub block: u32,
    /// The nodes above it from the root down, and the shape itself last.
    pub chain: Vec<u32>,
    pub properties: Properties,
}

/// What a [`Drawn`] is.
#[verifier::ext_equal]
pub struct DrawnModel {
    pub block: u32,
    pub chain: Seq<u32>,
    pub properties: Properties,
}

impl View for Drawn {
    type V = DrawnModel;

    open spec fn view(&self) -> DrawnModel {
        DrawnModel { block: self.block, chain: self.chain@, properties: self.properties }
    }
}

/// What some shapes are.
pub open spec fn all_drawn(shapes: Seq<Drawn>) -> Seq<DrawnModel> {
    Seq::new(shapes.len(), |i: int| shapes[i]@)
}

/// Whether a shape is drawn: visible, of the slot asked for, with data.
pub open spec fn shows(nif: &Nif, slot: Option<Seq<char>>, geometry: Geometry) -> bool {
    &&& !skippable(geometry.object.name@)
    &&& !geometry.object.hidden
    &&& slot matches Some(s) ==> belongs(geometry.object.name@, s)
    &&& nif.at(geometry.data) matches Some(Block::GeometryData(_))
}

/// The shapes drawn from one block on, in the order they are reached.
pub open spec fn drawn_from(
    nif: &Nif,
    slot: Option<Seq<char>>,
    link: Link,
    chain: Seq<u32>,
    inherited: Properties,
    depth: nat,
) -> Seq<DrawnModel>
    decreases MAX_DEPTH + 1 - depth, 0nat,
{
    if depth > MAX_DEPTH {
        Seq::empty()
    } else {
        match nif.at(link) {
            Some(Block::Node(node)) => if skippable(node.object.name@) || node.object.hidden {
                Seq::empty()
            } else {
                drawn_among(
                    nif,
                    slot,
                    node.children@,
                    node.children@.len(),
                    chain.push(link.0->0),
                    overridden(nif, inherited, node.object.properties@),
                    depth + 1,
                )
            },
            Some(Block::Geometry(geometry)) => if shows(nif, slot, geometry) {
                seq![
                    DrawnModel {
                        block: link.0->0,
                        chain: chain.push(link.0->0),
                        properties: overridden(nif, inherited, geometry.object.properties@),
                    },
                ]
            } else {
                Seq::empty()
            },
            _ => Seq::empty(),
        }
    }
}

/// The shapes drawn from the first `n` of some blocks on, one block after the other.
pub open spec fn drawn_among(
    nif: &Nif,
    slot: Option<Seq<char>>,
    links: Seq<Link>,
    n: nat,
    chain: Seq<u32>,
    inherited: Properties,
    depth: nat,
) -> Seq<DrawnModel>
    decreases MAX_DEPTH + 1 - depth, n + 1,
    when depth <= MAX_DEPTH + 1
{
    if n == 0 {
        Seq::empty()
    } else {
        drawn_among(nif, slot, links, (n - 1) as nat, chain, inherited, depth) + drawn_from(
            nif,
            slot,
            links[n - 1],
            chain,
            inherited,
            depth,
        )
    }
}

/// Whether a file skins anything.
pub open spec fn skins(nif: &Nif) -> bool {
    exists|i: int| 0 <= i < nif.blocks@.len() && #[trigger] nif.blocks@[i] is Skin
}

/// The slot a file is cut down to: the one asked for where the file skins anything, and none
/// otherwise. A file that skins nothing is the whole of one part, however it names its shapes.
pub open spec fn effective_slot(nif: &Nif, slot: Option<Seq<char>>) -> Option<Seq<char>> {
    if skins(nif) {
        slot
    } else {
        None
    }
}

/// Every shape a model draws, in the order they are reached.
pub open spec fn drawn(nif: &Nif, slot: Option<Seq<char>>) -> Seq<DrawnModel> {
    drawn_among(
        nif,
        effective_slot(nif, slot),
        nif.roots@,
        nif.roots@.len(),
        Seq::empty(),
        no_properties(),
        0,
    )
}

/// The slot asked for, as text.
pub open spec fn slot_text(slot: Option<&str>) -> Option<Seq<char>> {
    match slot {
        Some(s) => Some(s@),
        None => None,
    }
}

/// A list of block numbers with one more at the end.
pub(crate) fn extended(chain: &Vec<u32>, block: u32) -> (r: Vec<u32>)
    ensures
        r@ == chain@.push(block),
{
    let mut r: Vec<u32> = Vec::new();
    super::mesh::push_all(&mut r, chain);
    r.push(block);
    assert(r@ =~= chain@.push(block));
    r
}

/// Walks one block, adding the shapes drawn from it on.
fn visit(
    nif: &Nif,
    slot: Option<&str>,
    link: Link,
    chain: &Vec<u32>,
    inherited: Properties,
    depth: u32,
    out: &mut Vec<Drawn>,
)
    requires
        depth <= MAX_DEPTH + 1,
    ensures
        all_drawn(final(out)@) == all_drawn(old(out)@) + drawn_from(
            nif,
            slot_text(slot),
            link,
            chain@,
            inherited,
            depth as nat,
        ),
    decreases MAX_DEPTH + 1 - depth,
{
    assert(all_drawn(out@) + Seq::<DrawnModel>::empty() =~= all_drawn(out@));
    if depth > MAX_DEPTH {
        return;
    }
    let block: &Block = match nif.resolve(link) {
        Some(block) => block,
        None => return,
    };
    let number: u32 = match link.index() {
        Some(number) => number,
        None => return,
    };
    match block {
        Block::Node(node) => {
            if is_skippable(node.object.name.as_str()) || node.object.hidden {
                return;
            }
            let here: Vec<u32> = extended(chain, number);
            let properties: Properties = inherited.overridden_by(nif, &node.object.properties);
            let mut i: usize = 0;
            while i < node.children.len()
                invariant
                    depth <= MAX_DEPTH,
                    i <= node.children@.len(),
                    all_drawn(out@) == all_drawn(old(out)@) + drawn_among(
                        nif,
                        slot_text(slot),
                        node.children@,
                        i as nat,
                        here@,
                        properties,
                        (depth + 1) as nat,
                    ),
                decreases node.children@.len() - i,
            {
                visit(nif, slot, node.children[i], &here, properties, depth + 1, out);
                i = i + 1;
                assert(all_drawn(out@) =~= all_drawn(old(out)@) + drawn_among(
                    nif,
                    slot_text(slot),
                    node.children@,
                    i as nat,
                    here@,
                    properties,
                    (depth + 1) as nat,
                ));
            }
        },
        Block::Geometry(geometry) => {
            if is_skippable(geometry.object.name.as_str()) || geometry.object.hidden {
                return;
            }
            let wanted: bool = match slot {
                Some(s) => names_slot(geometry.object.name.as_str(), s),
                None => true,
            };
            if !wanted {
                return;
            }
            let holds: bool = match nif.resolve(geometry.data) {
                Some(Block::GeometryData(_)) => true,
                _ => false,
            };
            if !holds {
                return;
            }
            let shape: Drawn = Drawn {
                block: number,
                chain: extended(chain, number),
                properties: inherited.overridden_by(nif, &geometry.object.properties),
            };
            let ghost before = all_drawn(out@);
            let ghost model = shape@;
            out.push(shape);
            assert(all_drawn(out@) =~= before + seq![model]);
        },
        _ => {},
    }
}

/// Whether a file skins anything.
fn has_skin(nif: &Nif) -> (r: bool)
    ensures
        r == skins(nif),
{
    let mut i: usize = 0;
    while i < nif.blocks.len()
        invariant
            i <= nif.blocks@.len(),
            forall|k: int| 0 <= k < i ==> !(#[trigger] nif.blocks@[k] is Skin),
        decreases nif.blocks@.len() - i,
    {
        match &nif.blocks[i] {
            Block::Skin(_) => {
                assert(nif.blocks@[i as int] is Skin);
                return true;
            },
            _ => {},
        }
        i = i + 1;
    }
    false
}

/// Every shape a model draws.
///
/// Given a `slot`, a file that skins anything gives up only the shapes named for it: such a file is
/// a whole region of a body, and more than one slot names it.
pub fn find_drawn(nif: &Nif, slot: Option<&str>) -> (out: Vec<Drawn>)
    ensures
        all_drawn(out@) == drawn(nif, slot_text(slot)),
{
    let slot: Option<&str> = if has_skin(nif) { slot } else { None };
    let mut out: Vec<Drawn> = Vec::new();
    let chain: Vec<u32> = Vec::new();
    let properties: Properties = Properties::none();
    let mut i: usize = 0;
    assert(all_drawn(out@) =~= Seq::<DrawnModel>::empty());
    assert(chain@ =~= Seq::<u32>::empty());
    while i < nif.roots.len()
        invariant
            i <= nif.roots@.len(),
            all_drawn(out@) == drawn_among(
                nif,
                slot_text(slot),
                nif.roots@,
                i as nat,
                chain@,
                properties,
                0,
            ),
        decreases nif.roots@.len() - i,
    {
        visit(nif, slot, nif.roots[i], &chain, properties, 0, &mut out);
        i = i + 1;
    }
    out
}

} // verus!
