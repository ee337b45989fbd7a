//! Everything a cell needs, assembled.

use super::cell::CellId;
use super::door::Door;
use super::static_scene::StaticScene;
use crate::texture::dds::modelled;
use crate::texture::error::TextureError;
use crate::texture::texture::{decodable, decodes_to, Texture};
use vstd::prelude::*;

verus! {

/// A cell's geometry and the textures its materials name.
#[derive(Debug)]
pub struct LoadedCell {
    /// Which cell this is. Carried rather than remembered by the caller, so a report about it
    /// cannot name a different one than was loaded.
    pub id: CellId,
    pub scene: StaticScene,
    /// One entry per path in the scene's texture list, `None` where the file could not be decoded.
    ///
    /// A miss is normal rather than an error: shipped models carry a tail of references to art that
    /// was removed, and a renderer substitutes a fallback for them.
    pub textures: Vec<Option<Texture>>,
    /// Every door elsewhere in the file that leads into this cell, where they were searched for.
    pub entrances: Vec<Door>,
}

/// Whether `texture` is what a file decodes to: nothing where there is no file, or where the file
/// is no texture.
pub open spec fn is_decoded(file: Option<Vec<u8>>, texture: Option<Texture>) -> bool {
    match (file, texture) {
        (Some(bytes), Some(texture)) => decodes_to(bytes@, Ok(texture@)) && texture@.wf(),
        (Some(bytes), None) => exists|e: TextureError| decodes_to(bytes@, Err(e)),
        (None, Some(_)) => false,
        (None, None) => true,
    }
}

/// Whether every file that was read describes an image that can be laid out in memory.
pub open spec fn all_decodable(files: Seq<Option<Vec<u8>>>) -> bool {
    forall|i: int|
        0 <= i < files.len() ==> (#[trigger] files[i] matches Some(bytes) ==> decodable(bytes@))
}

/// How many of the first `n` of some textures are missing.
pub open spec fn missing(textures: Seq<Option<Texture>>, n: nat) -> nat
    decreases n,
{
    if n == 0 {
        0
    } else {
        missing(textures, (n - 1) as nat) + if textures[n - 1] is None {
            1nat
        } else {
            0nat
        }
    }
}

/// Decodes a file that may not have been read. One that is no texture comes back as nothing: a
/// dangling reference is not a reason to have no cell.
pub fn decode_read(file: &Option<Vec<u8>>) -> (r: Option<Texture>)
    requires
        file matches Some(bytes) ==> decodable(bytes@),
    ensures
        is_decoded(*file, r),
{
    match file {
        Some(bytes) => {
            let decoded: Result<Texture, TextureError> = Texture::decode(bytes.as_slice());
            let ghost outcome = decoded;
            match decoded {
                Ok(texture) => {
                    assert(modelled(outcome) == Ok::<_, TextureError>(texture@));
                    Some(texture)
                },
                Err(e) => {
                    assert(decodes_to(bytes@, Err(e)));
                    None
                },
            }
        },
        None => None,
    }
}

impl LoadedCell {
    /// Decodes the textures a scene's materials name and packages the result. `files` are what was
    /// read for each path in the scene's texture list.
    pub fn assemble(
        id: CellId,
        scene: StaticScene,
        files: &Vec<Option<Vec<u8>>>,
        entrances: Vec<Door>,
    ) -> (r: LoadedCell)
        requires
            files@.len() == scene@.table.textures.len(),
            all_decodable(files@),
        ensures
            r.id == id,
            r.scene == scene,
            r.entrances == entrances,
            r.textures@.len() == scene@.table.textures.len(),
            forall|i: int|
                0 <= i < r.textures@.len() ==> is_decoded(files@[i], #[trigger] r.textures@[i]),
    {
        let mut textures: Vec<Option<Texture>> = Vec::new();
        let mut i: usize = 0;
        while i < files.len()
            invariant
                i <= files@.len(),
                all_decodable(files@),
                textures@.len() == i,
                forall|k: int| 0 <= k < i ==> is_decoded(files@[k], #[trigger] textures@[k]),
            decreases files@.len() - i,
        {
            assert(files@[i as int] matches Some(bytes) ==> decodable(bytes@));
            textures.push(decode_read(&files[i]));
            i = i + 1;
        }
        LoadedCell { id, scene, textures, entrances }
    }

    /// How many of the cell's texture references resolved to nothing.
    pub fn missing_textures(&self) -> (r: usize)
        ensures
            r == missing(self.textures@, self.textures@.len()),
    {
        let mut count: usize = 0;
        let mut i: usize = 0;
        while i < self.textures.len()
            invariant
                i <= self.textures@.len(),
                count <= i,
                count == missing(self.textures@, i as nat),
            decreases self.textures@.len() - i,
        {
            if self.textures[i].is_none() {
                count = count + 1;
            }
            i = i + 1;
        }
        count
    }
}

} // verus!
