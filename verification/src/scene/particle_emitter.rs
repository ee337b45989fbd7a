//! The flames, steam and smoke a model emits, taken out of its own emitters.

use super::bits::{greater, is_greater, is_nan, not_a_number, Bits, ONE, ZERO};
use super::material::{no_properties, overridden, Properties};
use super::mesh::push_all;
use super::nif::{
    Block, ColourKey, Link, Nif, ParticleEffect, ParticleSystem,
};
use super::sampling::Sampled;
use super::walk::{extended, MAX_DEPTH};
use vstd::prelude::*;

verus! {

/// How deep a modifier chain is followed before it is called a cycle.
pub const MODIFIERS: u32 = 8;

/// A constant pull: a direction in the model's own axes, and how hard.
#[derive(Debug, Clone, Copy)]
pub struct Pull {
    pub direction: [Bits; 3],
    pub force: Bits,
}

/// A tint keyed over a life: at birth, at `mid`, and at death.
///
/// A three-key track is the ramp itself rather than a sampling of it, because `mid` is the middle
/// key's own time.
#[derive(Debug)]
pub struct Ramp {
    pub keys: Vec<ColourKey>,
    /// Where the middle key sits in a life.
    pub mid: Bits,
    /// Which keys the tint at birth, at `mid` and at death is read from.
    pub stops: [Sampled; 3],
}

/// One emitter: a candle's flame, a vent's steam, a chimney's smoke.
#[derive(Debug)]
pub struct ParticleEmitter {
    /// The blocks whose transforms compose to where particles are born, from the root down.
    pub placement: Vec<u32>,
    /// What the file says of how they leave, how long they live and how they look.
    pub system: ParticleSystem,
    /// Constant acceleration, where a modifier gives one.
    pub pull: Option<Pull>,
    /// The tint over a life, where a modifier gives one. White throughout otherwise.
    pub ramp: Option<Ramp>,
    /// Whether it *adds* to the frame rather than covering it, as what burns does. What adds is
    /// tinted by its temperature and not by its ramp.
    pub additive: bool,
}

/// What a [`Ramp`] is.
#[verifier::ext_equal]
pub struct RampModel {
    pub keys: Seq<ColourKey>,
    pub mid: Bits,
    pub stops: Seq<Sampled>,
}

/// What a [`ParticleEmitter`] is.
#[verifier::ext_equal]
pub struct EmitterModel {
    pub placement: Seq<u32>,
    pub system: ParticleSystem,
    pub pull: Option<Pull>,
    pub ramp: Option<RampModel>,
    pub additive: bool,
}

impl View for Ramp {
    type V = RampModel;

    open spec fn view(&self) -> RampModel {
        RampModel { keys: self.keys@, mid: self.mid, stops: self.stops@ }
    }
}

impl View for ParticleEmitter {
    type V = EmitterModel;

    open spec fn view(&self) -> EmitterModel {
        EmitterModel {
            placement: self.placement@,
            system: self.system,
            pull: self.pull,
            ramp: match self.ramp {
                Some(ramp) => Some(ramp@),
                None => None,
            },
            additive: self.additive,
        }
    }
}

/// What some emitters are.
pub open spec fn all_emitters(emitters: Seq<ParticleEmitter>) -> Seq<EmitterModel> {
    Seq::new(emitters.len(), |i: int| emitters[i]@)
}

/// The first of some keys at or after a moment, or how many there are.
pub open spec fn first_at_or_after(keys: Seq<ColourKey>, at: Bits, from: int) -> int
    decreases keys.len() - from,
{
    if from >= keys.len() || (!not_a_number(keys[from].time) && !not_a_number(at) && !greater(
        at,
        keys[from].time,
    )) {
        from
    } else {
        first_at_or_after(keys, at, from + 1)
    }
}

/// Which keys the tint at a moment is read from: the first at or after it and the one before that,
/// or the key at the end it lies beyond.
pub open spec fn stop_at(keys: Seq<ColourKey>, at: Bits) -> Sampled {
    let after = first_at_or_after(keys, at, 0);
    if after >= keys.len() {
        Sampled::Held((keys.len() - 1) as usize)
    } else if after == 0 {
        Sampled::Held(0)
    } else {
        Sampled::Between((after - 1) as usize, after as usize)
    }
}

/// A moment kept within a life. What is no moment stays so.
pub open spec fn within_life(at: Bits) -> Bits {
    if greater(ZERO, at) {
        ZERO
    } else if greater(at, ONE) {
        ONE
    } else {
        at
    }
}

/// The ramp a track of keys gives.
pub open spec fn ramp_of(keys: Seq<ColourKey>) -> RampModel {
    let mid = within_life(keys[keys.len() as int / 2].time);
    RampModel {
        keys,
        mid,
        stops: seq![stop_at(keys, ZERO), stop_at(keys, mid), stop_at(keys, ONE)],
    }
}

/// What modifiers make of an emitter: its pull and its ramp.
pub open spec fn modified_once(
    nif: &Nif,
    effect: ParticleEffect,
    pull: Option<Pull>,
    ramp: Option<RampModel>,
) -> (Option<Pull>, Option<RampModel>) {
    match effect {
        ParticleEffect::Gravity { towards_point, direction, force } => if towards_point {
            (pull, ramp)
        } else {
            (Some(Pull { direction, force }), ramp)
        },
        ParticleEffect::Colour { keys } => match nif.at(keys) {
            Some(Block::Colour(track)) => if track@.len() > 0 {
                (pull, Some(ramp_of(track@)))
            } else {
                (pull, ramp)
            },
            _ => (pull, ramp),
        },
        ParticleEffect::Other => (pull, ramp),
    }
}

/// What a chain of modifiers makes of an emitter, followed no further than `left` of them: the last
/// pull and the last ramp on it.
pub open spec fn modified(
    nif: &Nif,
    link: Link,
    pull: Option<Pull>,
    ramp: Option<RampModel>,
    left: nat,
) -> (Option<Pull>, Option<RampModel>)
    decreases left,
{
    if left == 0 {
        (pull, ramp)
    } else {
        match nif.at(link) {
            Some(Block::ParticleModifier(modifier)) => {
                let (pull, ramp) = modified_once(nif, modifier.effect, pull, ramp);
                modified(nif, modifier.next, pull, ramp, (left - 1) as nat)
            },
            _ => (pull, ramp),
        }
    }
}

/// The particle system on a controller chain, followed no further than `left` controllers.
pub open spec fn system_on(nif: &Nif, link: Link, left: nat) -> Option<ParticleSystem>
    decreases left,
{
    if left == 0 {
        None
    } else {
        match nif.at(link) {
            Some(Block::ParticleSystem(system)) => Some(system),
            Some(Block::Controller(controller)) => system_on(
                nif,
                controller.next,
                (left - 1) as nat,
            ),
            _ => None,
        }
    }
}

/// Where each block sits, and which blocks draw particles with which properties.
#[verifier::ext_equal]
pub struct PlacesModel {
    pub places: Seq<Option<Seq<u32>>>,
    pub found: Seq<(u32, Properties)>,
}

/// Places with those from one block on. A hidden node ends the walk below it.
pub open spec fn placed_from(
    nif: &Nif,
    all: PlacesModel,
    link: Link,
    chain: Seq<u32>,
    inherited: Properties,
    depth: nat,
) -> PlacesModel
    decreases MAX_DEPTH + 1 - depth, 0nat,
{
    if depth > MAX_DEPTH {
        all
    } else {
        match nif.at(link) {
            Some(Block::Node(node)) => if node.object.hidden {
                all
            } else {
                let here = chain.push(link.0->0);
                placed_among(
                    nif,
                    PlacesModel { places: all.places.update(link.0->0 as int, Some(here)), ..all },
                    node.children@,
                    node.children@.len(),
                    here,
                    overridden(nif, inherited, node.object.properties@),
                    depth + 1,
                )
            },
            Some(Block::Particles(object)) => if object.hidden {
                all
            } else {
                PlacesModel {
                    places: all.places.update(
                        link.0->0 as int,
                        Some(chain.push(link.0->0)),
                    ),
                    found: all.found.push(
                        (link.0->0, overridden(nif, inherited, object.properties@)),
                    ),
                }
            },
            _ => all,
        }
    }
}

/// Places with those from the first `n` of some blocks on, one block after the other.
pub open spec fn placed_among(
    nif: &Nif,
    all: PlacesModel,
    links: Seq<Link>,
    n: nat,
    chain: Seq<u32>,
    inherited: Properties,
    depth: nat,
) -> PlacesModel
    decreases MAX_DEPTH + 1 - depth, n + 1,
    when depth <= MAX_DEPTH + 1
{
    if n == 0 {
        all
    } else {
        placed_from(
            nif,
            placed_among(nif, all, links, (n - 1) as nat, chain, inherited, depth),
            links[n - 1],
            chain,
            inherited,
            depth,
        )
    }
}

/// Where everything in a model sits.
pub open spec fn places_in(nif: &Nif) -> PlacesModel {
    placed_among(
        nif,
        PlacesModel {
            places: Seq::new(nif.blocks@.len(), |i: int| None),
            found: Seq::empty(),
        },
        nif.roots@,
        nif.roots@.len(),
        Seq::empty(),
        no_properties(),
        0,
    )
}

/// Where a system's particles are born: at its emitter, or where it names none that is placed, at
/// the block that draws them.
pub open spec fn birthplace(all: PlacesModel, system: ParticleSystem, block: u32) -> Option<
    Seq<u32>,
> {
    let own = all.places[block as int];
    match system.emitter.0 {
        Some(at) => if at < all.places.len() && all.places[at as int] is Some {
            all.places[at as int]
        } else {
            own
        },
        None => own,
    }
}

/// Whether an emitter would put anything on the screen at all.
pub open spec fn shows(system: ParticleSystem) -> bool {
    &&& greater(system.lifetime, ZERO)
    &&& greater(system.size, ZERO)
    &&& greater(system.colour@[3], ZERO)
}

/// The controller of the block that draws particles.
pub open spec fn particle_controller(nif: &Nif, block: u32) -> Link {
    nif.blocks@[block as int]->Particles_0.controller
}

/// The emitter of one block that draws particles: none where it has no system, where it is placed
/// nowhere, or where it would draw nothing.
pub open spec fn emitter_of(
    nif: &Nif,
    all: PlacesModel,
    block: u32,
    properties: Properties,
) -> Option<EmitterModel> {
    match system_on(nif, particle_controller(nif, block), MODIFIERS as nat) {
        Some(system) => match birthplace(all, system, block) {
            Some(placement) => if shows(system) {
                let (pull, ramp) = modified(
                    nif,
                    system.modifier,
                    None,
                    None,
                    MODIFIERS as nat,
                );
                Some(
                    EmitterModel {
                        placement,
                        system,
                        pull,
                        ramp,
                        additive: properties.adding(nif),
                    },
                )
            } else {
                None
            },
            None => None,
        },
        None => None,
    }
}

/// The emitters of the first `n` of the blocks that draw particles.
pub open spec fn emitters_of(nif: &Nif, all: PlacesModel, n: nat) -> Seq<EmitterModel>
    decreases n,
{
    if n == 0 {
        Seq::empty()
    } else {
        let before = emitters_of(nif, all, (n - 1) as nat);
        match emitter_of(nif, all, all.found[n - 1].0, all.found[n - 1].1) {
            Some(emitter) => before.push(emitter),
            None => before,
        }
    }
}

/// Which keys the tint at a moment is read from.
pub fn find_stop(keys: &Vec<ColourKey>, at: Bits) -> (r: Sampled)
    requires
        keys@.len() > 0,
    ensures
        r == stop_at(keys@, at),
{
    let mut i: usize = 0;
    while i < keys.len()
        invariant
            i <= keys@.len(),
            keys@.len() > 0,
            first_at_or_after(keys@, at, 0) == first_at_or_after(keys@, at, i as int),
        decreases keys@.len() - i,
    {
        if !is_nan(keys[i].time) && !is_nan(at) && !is_greater(at, keys[i].time) {
            return if i == 0 { Sampled::Held(0) } else { Sampled::Between(i - 1, i) };
        }
        i = i + 1;
    }
    Sampled::Held(keys.len() - 1)
}

/// The ramp a track of keys gives.
fn make_ramp(track: &Vec<ColourKey>) -> (r: Ramp)
    requires
        track@.len() > 0,
    ensures
        r@ == ramp_of(track@),
{
    let middle: Bits = track[track.len() / 2].time;
    let mid: Bits = if is_greater(ZERO, middle) {
        ZERO
    } else if is_greater(middle, ONE) {
        ONE
    } else {
        middle
    };
    let mut keys: Vec<ColourKey> = Vec::new();
    push_all(&mut keys, track);
    assert(keys@ =~= track@);
    let stops: [Sampled; 3] = [
        find_stop(track, ZERO),
        find_stop(track, mid),
        find_stop(track, ONE),
    ];
    let r: Ramp = Ramp { keys, mid, stops };
    assert(r@.stops =~= ramp_of(track@).stops);
    r
}

/// What an optional ramp is.
pub open spec fn ramp_model(ramp: Option<Ramp>) -> Option<RampModel> {
    match ramp {
        Some(ramp) => Some(ramp@),
        None => None,
    }
}

/// Folds a modifier chain, which is where a pull and a tint belong.
fn absorb_modifiers(nif: &Nif, modifier: Link) -> (r: (Option<Pull>, Option<Ramp>))
    ensures
        (r.0, ramp_model(r.1)) == modified(nif, modifier, None, None, MODIFIERS as nat),
{
    let mut pull: Option<Pull> = None;
    let mut ramp: Option<Ramp> = None;
    let mut link: Link = modifier;
    let mut left: u32 = MODIFIERS;
    while left > 0
        invariant
            left <= MODIFIERS,
            modified(nif, modifier, None, None, MODIFIERS as nat) == modified(
                nif,
                link,
                pull,
                ramp_model(ramp),
                left as nat,
            ),
        decreases left,
    {
        match nif.resolve(link) {
            Some(Block::ParticleModifier(modifier)) => {
                match modifier.effect {
                    ParticleEffect::Gravity { towards_point, direction, force } => {
                        if !towards_point {
                            pull = Some(Pull { direction, force });
                        }
                    },
                    ParticleEffect::Colour { keys } => {
                        match nif.resolve(keys) {
                            Some(Block::Colour(track)) => {
                                if track.len() > 0 {
                                    ramp = Some(make_ramp(track));
                                }
                            },
                            _ => {},
                        }
                    },
                    ParticleEffect::Other => {},
                }
                link = modifier.next;
            },
            _ => {
                return (pull, ramp);
            },
        }
        left = left - 1;
    }
    (pull, ramp)
}

/// The particle system on a controller chain.
fn system_of(nif: &Nif, controller: Link) -> (r: Option<ParticleSystem>)
    ensures
        r == system_on(nif, controller, MODIFIERS as nat),
{
    let mut link: Link = controller;
    let mut left: u32 = MODIFIERS;
    while left > 0
        invariant
            left <= MODIFIERS,
            system_on(nif, controller, MODIFIERS as nat) == system_on(nif, link, left as nat),
        decreases left,
    {
        match nif.resolve(link) {
            Some(Block::ParticleSystem(system)) => {
                return Some(*system);
            },
            Some(Block::Controller(controller)) => {
                link = controller.next;
            },
            _ => {
                return None;
            },
        }
        left = left - 1;
    }
    None
}

/// Where each block sits, and which blocks draw particles.
struct Places {
    places: Vec<Option<Vec<u32>>>,
    found: Vec<(u32, Properties)>,
}

/// What some places are.
spec fn all_places(places: Seq<Option<Vec<u32>>>) -> Seq<Option<Seq<u32>>> {
    Seq::new(
        places.len(),
        |i: int|
            match places[i] {
                Some(chain) => Some(chain@),
                None => None,
            },
    )
}

impl View for Places {
    type V = PlacesModel;

    closed spec fn view(&self) -> PlacesModel {
        PlacesModel { places: all_places(self.places@), found: self.found@ }
    }
}

/// Whether everything found is a block that draws particles.
pub open spec fn found_draws(nif: &Nif, found: Seq<(u32, Properties)>) -> bool {
    forall|i: int|
        0 <= i < found.len() ==> (#[trigger] found[i]).0 < nif.blocks@.len()
            && nif.blocks@[found[i].0 as int] is Particles
}

/// Records where each block from one on sits, and which of them draw particles.
fn place(
    nif: &Nif,
    link: Link,
    chain: &Vec<u32>,
    inherited: Properties,
    depth: u32,
    all: &mut Places,
)
    requires
        depth <= MAX_DEPTH + 1,
        old(all)@.places.len() == nif.blocks@.len(),
        found_draws(nif, old(all)@.found),
    ensures
        final(all)@ == placed_from(nif, old(all)@, link, chain@, inherited, depth as nat),
        final(all)@.places.len() == nif.blocks@.len(),
        found_draws(nif, final(all)@.found),
    decreases MAX_DEPTH + 1 - depth,
{
    if depth > MAX_DEPTH {
        return;
    }
    let number: u32 = match link.0 {
        Some(number) => number,
        None => {
            return;
        },
    };
    match nif.resolve(link) {
        Some(Block::Node(node)) => {
            if node.object.hidden {
                return;
            }
            let here: Vec<u32> = extended(chain, number);
            let ghost before = all@;
            all.write(number, &here);
            let ghost written = all@;
            let properties: Properties = inherited.overridden_by(nif, &node.object.properties);
            let mut i: usize = 0;
            while i < node.children.len()
                invariant
                    depth <= MAX_DEPTH,
                    i <= node.children@.len(),
                    all@.places.len() == nif.blocks@.len(),
                    found_draws(nif, all@.found),
                    all@ == placed_among(
                        nif,
                        written,
                        node.children@,
                        i as nat,
                        here@,
                        properties,
                        (depth + 1) as nat,
                    ),
                decreases node.children@.len() - i,
            {
                place(nif, node.children[i], &here, properties, depth + 1, all);
                i = i + 1;
            }
        },
        Some(Block::Particles(object)) => {
            if object.hidden {
                return;
            }
            let here: Vec<u32> = extended(chain, number);
            all.write(number, &here);
            let ghost written = all@;
            all.found.push((number, inherited.overridden_by(nif, &object.properties)));
            assert(all@.places == written.places);
        },
        _ => {},
    }
}

impl Places {
    /// Writes where a block sits.
    fn write(&mut self, block: u32, chain: &Vec<u32>)
        requires
            block < old(self)@.places.len(),
        ensures
            final(self)@ == (PlacesModel {
                places: old(self)@.places.update(block as int, Some(chain@)),
                ..old(self)@
            }),
    {
        let ghost before = self@;
        let mut copy: Vec<u32> = Vec::new();
        push_all(&mut copy, chain);
        assert(copy@ =~= chain@);
        assert(self.places@.len() == self.places.len());
        self.places.set(block as usize, Some(copy));
        assert(self@.places =~= before.places.update(block as int, Some(chain@)));
    }

    /// Where a system's particles are born.
    fn birth(&self, system: &ParticleSystem, block: u32) -> (r: Option<&Vec<u32>>)
        requires
            block < self@.places.len(),
        ensures
            match r {
                Some(chain) => birthplace(self@, *system, block) == Some(chain@),
                None => birthplace(self@, *system, block) is None,
            },
    {
        assert(self.places@.len() == self.places.len());
        match system.emitter.0 {
            Some(at) => {
                if (at as usize) < self.places.len() {
                    assert(self@.places[at as int] == all_places(self.places@)[at as int]);
                    match &self.places[at as usize] {
                        Some(chain) => {
                            return Some(chain);
                        },
                        None => {},
                    }
                }
            },
            None => {},
        }
        assert(self@.places[block as int] == all_places(self.places@)[block as int]);
        match &self.places[block as usize] {
            Some(chain) => Some(chain),
            None => None,
        }
    }
}

/// Nothing placed, in a file of so many blocks.
fn no_places(count: usize) -> (r: Places)
    ensures
        r@ == (PlacesModel {
            places: Seq::new(count as nat, |i: int| None),
            found: Seq::empty(),
        }),
{
    let mut r: Places = Places { places: Vec::new(), found: Vec::new() };
    let mut i: usize = 0;
    while i < count
        invariant
            i <= count,
            r.places@.len() == i,
            r.found@.len() == 0,
            forall|k: int| 0 <= k < i ==> #[trigger] r.places@[k] is None,
        decreases count - i,
    {
        r.places.push(None);
        i = i + 1;
    }
    assert(r@.places =~= Seq::new(count as nat, |i: int| None));
    assert(r@.found =~= Seq::empty());
    r
}

impl ParticleEmitter {
    /// The emitter of one block that draws particles.
    fn of(nif: &Nif, all: &Places, block: u32, properties: Properties) -> (r: Option<
        ParticleEmitter,
    >)
        requires
            all@.places.len() == nif.blocks@.len(),
            block < nif.blocks@.len(),
            nif.blocks@[block as int] is Particles,
        ensures
            match r {
                Some(emitter) => emitter_of(nif, all@, block, properties) == Some(emitter@),
                None => emitter_of(nif, all@, block, properties) is None,
            },
    {
        let controller: Link = match &nif.blocks[block as usize] {
            Block::Particles(object) => object.controller,
            _ => Link::nowhere(),
        };
        let system: ParticleSystem = match system_of(nif, controller) {
            Some(system) => system,
            None => {
                return None;
            },
        };
        let chain: &Vec<u32> = match all.birth(&system, block) {
            Some(chain) => chain,
            None => {
                return None;
            },
        };
        if !is_greater(system.lifetime, ZERO) || !is_greater(system.size, ZERO) || !is_greater(
            system.colour[3],
            ZERO,
        ) {
            return None;
        }
        let mut placement: Vec<u32> = Vec::new();
        push_all(&mut placement, chain);
        assert(placement@ =~= chain@);
        let (pull, ramp): (Option<Pull>, Option<Ramp>) = absorb_modifiers(nif, system.modifier);
        Some(
            ParticleEmitter { placement, system, pull, ramp, additive: properties.adds(nif) },
        )
    }

    /// Every emitter in a model, in the model's own space.
    ///
    /// A walk of its own: the mesh walk exists to put vertices in an array, and this needs a node's
    /// placement and no vertices at all. What it needs that a single walk cannot give is the
    /// *emitter* node's placement, which may be visited long after the system naming it.
    pub fn collect(nif: &Nif) -> (r: Vec<ParticleEmitter>)
        ensures
            all_emitters(r@) == emitters_of(nif, places_in(nif), places_in(nif).found.len()),
    {
        let mut all: Places = no_places(nif.blocks.len());
        let chain: Vec<u32> = Vec::new();
        assert(chain@ =~= Seq::<u32>::empty());
        let ghost start = all@;
        let mut i: usize = 0;
        while i < nif.roots.len()
            invariant
                i <= nif.roots@.len(),
                all@.places.len() == nif.blocks@.len(),
                found_draws(nif, all@.found),
                all@ == placed_among(
                    nif,
                    start,
                    nif.roots@,
                    i as nat,
                    chain@,
                    no_properties(),
                    0,
                ),
            decreases nif.roots@.len() - i,
        {
            place(nif, nif.roots[i], &chain, Properties::none(), 0, &mut all);
            i = i + 1;
        }
        assert(all@ == places_in(nif));
        let mut out: Vec<ParticleEmitter> = Vec::new();
        assert(all_emitters(out@) =~= Seq::<EmitterModel>::empty());
        let mut k: usize = 0;
        while k < all.found.len()
            invariant
                k <= all.found@.len(),
                all@ == places_in(nif),
                all@.found == all.found@,
                all@.places.len() == nif.blocks@.len(),
                found_draws(nif, all@.found),
                all_emitters(out@) == emitters_of(nif, all@, k as nat),
            decreases all.found@.len() - k,
        {
            let (block, properties): (u32, Properties) = all.found[k];
            assert(all@.found[k as int] == (block, properties));
            match ParticleEmitter::of(nif, &all, block, properties) {
                Some(emitter) => {
                    let ghost before = all_emitters(out@);
                    let ghost model = emitter@;
                    out.push(emitter);
                    assert(all_emitters(out@) =~= before.push(model));
                },
                None => {},
            }
            k = k + 1;
        }
        out
    }
}

/// **Every emitter collected draws something**: it lives, it has a size and it is not clear.
pub proof fn law_emitters_draw(nif: &Nif, all: PlacesModel, n: nat, i: int)
    requires
        n <= all.found.len(),
        0 <= i < emitters_of(nif, all, n).len(),
    ensures
        shows(emitters_of(nif, all, n)[i].system),
    decreases n,
{
    if n > 0 && i < emitters_of(nif, all, (n - 1) as nat).len() {
        law_emitters_draw(nif, all, (n - 1) as nat, i);
    }
}

/// **A three-key track over a life is reproduced exactly**: its ramp is the first key at birth, and
/// its other two stops end on the other two keys at those keys' own times.
pub proof fn law_three_keys_are_the_ramp(keys: Seq<ColourKey>)
    requires
        keys.len() == 3,
        keys[0].time == ZERO,
        greater(keys[1].time, ZERO),
        greater(ONE, keys[1].time),
        keys[2].time == ONE,
    ensures
        ramp_of(keys).mid == keys[1].time,
        ramp_of(keys).stops[0] == Sampled::Held(0),
        ramp_of(keys).stops[1] == Sampled::Between(0, 1),
        ramp_of(keys).stops[2] == Sampled::Between(1, 2),
{
    reveal_with_fuel(first_at_or_after, 4);
}

} // verus!
