//! Doors that move a traveller from one cell to another.

use super::bits::Bits;
use super::cell::{grid_square, CellId, CellName, CellRef};
use super::model_index::{IndexModel, ModelIndex};
use vstd::prelude::*;

verus! {

/// A door that moves a traveller to another cell.
///
/// **The arrival point is stored on the door you leave through, not in the cell you enter.** Walking
/// through one is therefore a local question, which [`Door::from_ref`] answers; arriving in a cell
/// without walking through anything means searching for a door that leads there, which is
/// [`Door::leading_to`].
#[derive(Debug)]
pub struct Door {
    /// The cell this door opens into.
    pub destination: CellId,
    /// Where the traveller stands on arrival, in the destination cell's coordinates.
    pub arrival: [Bits; 3],
    /// The bearing the traveller faces on arrival, clockwise from north.
    pub bearing: Bits,
}

/// What a [`Door`] is.
#[verifier::ext_equal]
pub struct DoorModel {
    pub destination: CellName,
    pub arrival: [Bits; 3],
    pub bearing: Bits,
}

impl View for Door {
    type V = DoorModel;

    open spec fn view(&self) -> DoorModel {
        DoorModel {
            destination: self.destination@,
            arrival: self.arrival,
            bearing: self.bearing,
        }
    }
}

/// What some doors are.
pub open spec fn all_doors(doors: Seq<Door>) -> Seq<DoorModel> {
    Seq::new(doors.len(), |i: int| doors[i]@)
}

/// The door a reference describes: none where it has no destination. A destination that names no
/// cell is the exterior its arrival falls in.
pub open spec fn door_of(cell_ref: CellRef) -> Option<DoorModel> {
    match cell_ref.destination {
        Some(position) => Some(
            DoorModel {
                destination: match cell_ref.destination_cell {
                    Some(name) => CellName::Interior(name@),
                    None => CellName::Exterior(
                        grid_square(position.translation@[0]) as i32,
                        grid_square(position.translation@[1]) as i32,
                    ),
                },
                arrival: position.translation,
                bearing: position.rotation@[2],
            },
        ),
        None => None,
    }
}

/// Whether a reference is a door that leads to a cell: one nobody removed, that is no editor
/// marker, and that opens there.
pub open spec fn leads(cell_ref: CellRef, models: IndexModel, destination: CellName) -> bool {
    &&& !cell_ref.deleted
    &&& !models.marks(cell_ref.object_id@)
    &&& door_of(cell_ref) is Some
    &&& door_of(cell_ref)->0.destination == destination
}

/// The doors among the first `n` of some references that lead to a cell, in order.
pub open spec fn doors_to(
    refs: Seq<CellRef>,
    models: IndexModel,
    destination: CellName,
    n: nat,
) -> Seq<DoorModel>
    decreases n,
{
    if n == 0 {
        Seq::empty()
    } else {
        let before = doors_to(refs, models, destination, (n - 1) as nat);
        if leads(refs[n - 1], models, destination) {
            before.push(door_of(refs[n - 1])->0)
        } else {
            before
        }
    }
}

impl Door {
    /// The door a reference describes, or `None` if the reference does not teleport.
    ///
    /// Most doors do not: one with no destination swings open on its hinge.
    pub fn from_ref(cell_ref: &CellRef) -> (r: Option<Door>)
        ensures
            match r {
                Some(door) => door_of(*cell_ref) == Some(door@),
                None => door_of(*cell_ref) is None,
            },
    {
        match cell_ref.destination {
            Some(position) => {
                let destination: CellId = match &cell_ref.destination_cell {
                    Some(name) => CellId::Interior(name.as_str().to_owned()),
                    None => CellId::containing(position.translation[0], position.translation[1]),
                };
                Some(
                    Door {
                        destination,
                        arrival: position.translation,
                        bearing: position.rotation[2],
                    },
                )
            },
            None => None,
        }
    }

    /// Every door among a content file's references a traveller could walk through to reach
    /// `destination`.
    ///
    /// Deleted references are skipped, because a plugin that removes a door removes the way in
    /// through it, and so are editor markers: one is filed as a door and carries a destination, and
    /// stands where no doorway is.
    pub fn leading_to(
        refs: &Vec<CellRef>,
        models: &ModelIndex,
        destination: &CellId,
    ) -> (r: Vec<Door>)
        requires
            models.wf(),
        ensures
            all_doors(r@) == doors_to(refs@, models@, destination@, refs@.len()),
    {
        let mut found: Vec<Door> = Vec::new();
        let mut i: usize = 0;
        assert(all_doors(found@) =~= Seq::<DoorModel>::empty());
        while i < refs.len()
            invariant
                i <= refs@.len(),
                models.wf(),
                all_doors(found@) == doors_to(refs@, models@, destination@, i as nat),
            decreases refs@.len() - i,
        {
            let cell_ref: &CellRef = &refs[i];
            let ghost before = all_doors(found@);
            if !cell_ref.deleted && !models.is_editor_marker(cell_ref.object_id.as_str()) {
                match Door::from_ref(cell_ref) {
                    Some(door) => {
                        if door.destination.is_same(destination) {
                            let ghost model = door@;
                            found.push(door);
                            assert(all_doors(found@) =~= before.push(model));
                        }
                    },
                    None => {},
                }
            }
            i = i + 1;
        }
        found
    }
}

/// **Every door found leads where it was asked to, and every door that leads there is found.**
pub proof fn law_doors_lead_there(
    refs: Seq<CellRef>,
    models: IndexModel,
    destination: CellName,
    n: nat,
)
    requires
        n <= refs.len(),
    ensures
        forall|i: int|
            0 <= i < doors_to(refs, models, destination, n).len() ==> (#[trigger] doors_to(
                refs,
                models,
                destination,
                n,
            )[i]).destination == destination,
        forall|j: int| #![trigger refs[j]]
            0 <= j < n && leads(refs[j], models, destination) ==> doors_to(
                refs,
                models,
                destination,
                n,
            ).contains(door_of(refs[j])->0),
    decreases n,
{
    if n > 0 {
        law_doors_lead_there(refs, models, destination, (n - 1) as nat);
        let before = doors_to(refs, models, destination, (n - 1) as nat);
        let after = doors_to(refs, models, destination, n);
        assert forall|j: int| #![trigger refs[j]]
            0 <= j < n && leads(refs[j], models, destination) implies after.contains(
            door_of(refs[j])->0,
        ) by {
            if j < n - 1 {
                let k = before.index_of(door_of(refs[j])->0);
                assert(before[k] == door_of(refs[j])->0);
                assert(after[k] == before[k]);
            } else {
                assert(after[after.len() - 1] == door_of(refs[j])->0);
            }
        }
    }
}

} // verus!
