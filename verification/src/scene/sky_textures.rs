//! The pictures the sky itself is drawn with, as against anything a cell places.

use super::loaded_cell::{decode_read, is_decoded};
use crate::text::{chars, string_of};
use crate::texture::texture::{decodable, is_mipped, takes_mips, Texture, TextureModel};
use vstd::prelude::*;

verus! {

/// The larger moon's face.
pub const MASSER_FACE: &'static str = "textures\\tx_masser_full.dds";

/// The smaller moon's face.
pub const SECUNDA_FACE: &'static str = "textures\\tx_secunda_full.dds";

/// The two moons' portraits, each missing where it would not read or decode: a moon without its
/// portrait is a flat disc of the right colour, which is no reason to have no sky.
#[derive(Debug)]
pub struct MoonFaces {
    pub masser: Option<Texture>,
    pub secunda: Option<Texture>,
}

/// Every picture the sky needs: the two moons' portraits and the weather's cloud sheet.
#[derive(Debug)]
pub struct SkyTextures {
    pub masser: Option<Texture>,
    pub secunda: Option<Texture>,
    /// The painted sheet the cloud layer is cut out of. Its files come with a single level and the
    /// layer repeats it to the horizon, so a chain is built under it.
    pub clouds: Option<Texture>,
}

/// Whether a file that was read describes an image that can be laid out in memory.
pub open spec fn is_layable(file: Option<Vec<u8>>) -> bool {
    file matches Some(bytes) ==> decodable(bytes@)
}

/// Whether `sheet` is the cloud sheet a picture makes: the picture with a chain under it, or as it is
/// where its chain would not end within thirty-two bits.
pub open spec fn is_sheet(picture: TextureModel, sheet: TextureModel) -> bool {
    if takes_mips(picture) {
        is_mipped(picture, sheet)
    } else {
        sheet == picture
    }
}

/// Whether `sheet` is the cloud sheet a file makes: none where there is no file, or where the file
/// is no texture.
pub open spec fn is_sheet_of(file: Option<Vec<u8>>, sheet: Option<Texture>) -> bool {
    match sheet {
        Some(sheet) => sheet@.wf() && exists|picture: Texture|
            is_decoded(file, Some(picture)) && #[trigger] is_sheet(picture@, sheet@),
        None => is_decoded(file, None),
    }
}

/// Where the sheet a weather names is.
pub fn sheet_path(cloud_texture: &str) -> (r: String)
    ensures
        r@ == "textures\\"@ + cloud_texture@,
{
    let mut path: Vec<char> = chars("textures\\");
    let all: Vec<char> = chars(cloud_texture);
    super::mesh::push_all(&mut path, &all);
    string_of(path.as_slice())
}

impl MoonFaces {
    /// Decodes the two portraits out of what was read of them.
    pub fn load(masser: &Option<Vec<u8>>, secunda: &Option<Vec<u8>>) -> (r: MoonFaces)
        requires
            is_layable(*masser),
            is_layable(*secunda),
        ensures
            is_decoded(*masser, r.masser),
            is_decoded(*secunda, r.secunda),
    {
        MoonFaces { masser: decode_read(masser), secunda: decode_read(secunda) }
    }
}

impl SkyTextures {
    /// Decodes every picture out of what was read of it, with a weather's cloud sheet.
    pub fn load(
        masser: &Option<Vec<u8>>,
        secunda: &Option<Vec<u8>>,
        clouds: &Option<Vec<u8>>,
    ) -> (r: SkyTextures)
        requires
            is_layable(*masser),
            is_layable(*secunda),
            is_layable(*clouds),
        ensures
            is_decoded(*masser, r.masser),
            is_decoded(*secunda, r.secunda),
            is_sheet_of(*clouds, r.clouds),
    {
        let sheet: Option<Texture> = match decode_read(clouds) {
            Some(picture) => {
                let ghost drawn = picture;
                let sheet: Texture = if picture.takes_mips() {
                    picture.with_mips()
                } else {
                    picture
                };
                assert(is_decoded(*clouds, Some(drawn)) && is_sheet(drawn@, sheet@));
                Some(sheet)
            },
            None => None,
        };
        SkyTextures { masser: decode_read(masser), secunda: decode_read(secunda), clouds: sheet }
    }
}

} // verus!
