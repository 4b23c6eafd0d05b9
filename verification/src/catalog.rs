//! Building the catalog of image records, one scanned directory entry at a
//! time. Listing the directory and opening the files is the caller's part;
//! what is done with each entry is decided here.

use crate::errors::{debug_string, debug_text};
use crate::hashing::MAX_HASH_BYTES;
use crate::models::{records_view, records_well_formed, ImageInfo, ImageRecord};
use image::DynamicImage;
use image_hasher::HasherConfig;
use vstd::prelude::*;
use vstd::string::*;

verus! {

/// The longest side, in bits, of the hashes that are computed. It keeps the
/// bit count of a hash within a `u32`, and the image that is scaled down for
/// it, of a byte for each point and one more for each row, within a vector
/// on a machine of 32 bits as well.
pub const MAX_HASH_SIDE: u32 = 0x7FFF;

/// `image::DynamicImage`, a decoded image. It is handed on to the hasher and
/// never looked into.
#[verifier::external_type_specification]
#[verifier::external_body]
pub struct ExDynamicImage(image::DynamicImage);

/// The width, in pixels, of a decoded image.
pub uninterp spec fn image_width(image: DynamicImage) -> nat;

/// Calls `DynamicImage::width` of `image`. The contract gives the width its
/// name.
#[verifier::external_body]
fn width_of(image: &DynamicImage) -> (width: u32)
    ensures
        width == image_width(*image),
{
    image.width()
}

/// Whether an image of this width can be scaled down to a hash of this
/// height: the rows that the scaling sets up in between, of sixteen bytes for
/// each pixel, have to fit in memory that can be addressed.
pub open spec fn scalable(width: nat, height: u32) -> bool {
    width * height <= usize::MAX / 32
}

/// Whether a hash may have this width and height.
pub open spec fn sides_supported(width: u32, height: u32) -> bool {
    1 <= width <= MAX_HASH_SIDE && 1 <= height <= MAX_HASH_SIDE
}

/// Number of bytes of a hash of `width` times `height` bits.
pub open spec fn hash_len(width: u32, height: u32) -> nat {
    ((width * height + 7) / 8) as nat
}

/// The hasher of the catalog: a supported size for the hashes, which are
/// computed by the gradient hasher of `image_hasher` in its default
/// configuration.
#[derive(Debug, Clone, Copy, PartialEq, Eq)]
pub struct CatalogHasher {
    width: u32,
    height: u32,
}

impl CatalogHasher {
    #[verifier::type_invariant]
    spec fn sized(self) -> bool {
        sides_supported(self.width, self.height)
    }

    /// Width of the hashes, in bits.
    pub closed spec fn width(&self) -> u32 {
        self.width
    }

    /// Height of the hashes, in bits.
    pub closed spec fn height(&self) -> u32 {
        self.height
    }
}

/// Builds a hasher with `HasherConfig::new`, `HasherConfig::hash_size` and
/// `HasherConfig::to_hasher` of `image_hasher`, which is the default
/// configuration, hashing by gradient, with the given size; hashes the image
/// with `Hasher::hash_image`; and copies out the bytes of the hash with
/// `ImageHash::as_bytes`. The hash has one bit for each of the `width` times
/// `height` comparisons, packed eight to a byte; the contract states that
/// length and nothing else of the bytes. Sizes with an empty side are left
/// out, and so are sizes whose products could not be formed. Images too wide
/// to be scaled down are left out, since `image` panics on a buffer that is
/// larger than a vector can be.
#[verifier::external_body]
fn perceptual_hash(width: u32, height: u32, image: &DynamicImage) -> (hash: Vec<u8>)
    requires
        sides_supported(width, height),
        scalable(image_width(*image), height),
    ensures
        hash@.len() == hash_len(width, height),
{
    HasherConfig::new().hash_size(width, height).to_hasher().hash_image(image).as_bytes().to_vec()
}

/// The hasher for hashes of `width` times `height` bits, if that size is
/// supported.
pub fn catalog_hasher(width: u32, height: u32) -> (hasher: Option<CatalogHasher>)
    ensures
        hasher.is_some() == sides_supported(width, height),
        hasher matches Some(made) ==> made.width() == width && made.height() == height,
{
    if 1 <= width && width <= MAX_HASH_SIDE && 1 <= height && height <= MAX_HASH_SIDE {
        Some(CatalogHasher { width, height })
    } else {
        None
    }
}

/// A hash of a supported size is short enough for a well-formed record.
pub proof fn lemma_hash_len_bounded(width: u32, height: u32)
    requires
        sides_supported(width, height),
    ensures
        1 <= hash_len(width, height) <= MAX_HASH_BYTES,
{
    assert(1 <= width * height <= 0x7FFF * 0x7FFF) by (nonlinear_arith)
        requires
            1 <= width <= 0x7FFF,
            1 <= height <= 0x7FFF,
    ;
}

/// Takes one scanned entry, already hashed, into the catalog. An entry
/// with a hash is appended as a record under its path; one without, a file
/// that could not be read as an image, is skipped and the catalog stays as
/// it is. The result tells whether a record was appended.
pub fn record_hash(catalog: &mut Vec<ImageInfo>, path: String, hash: Option<Vec<u8>>) -> (added:
    bool)
    ensures
        added == hash.is_some(),
        match hash {
            Some(bytes) => records_view(final(catalog)@) == records_view(old(catalog)@).push(
                ImageRecord { path: path@, hash: bytes@ },
            ),
            None => final(catalog)@ == old(catalog)@,
        },
{
    match hash {
        Some(bytes) => {
            catalog.push(ImageInfo { path, hash: bytes });
            assert(records_view(catalog@) =~= records_view(old(catalog)@).push(
                ImageRecord { path: path@, hash: bytes@ },
            ));
            true
        },
        None => false,
    }
}

/// Whether the hasher takes the image: the image is not too wide to be
/// scaled down to the height of its hashes.
pub open spec fn hashable(hasher: CatalogHasher, image: DynamicImage) -> bool {
    scalable(image_width(image), hasher.height())
}

/// What became of a scanned entry.
#[derive(Debug, Clone, Copy, PartialEq, Eq, Structural)]
pub enum EntryOutcome {
    /// The entry was hashed and stands in the catalog.
    Added,
    /// The entry could not be opened as an image and was skipped; the caller
    /// owes a warning.
    Unreadable,
    /// The entry holds an image that the hasher does not take, and was
    /// skipped.
    TooWide,
}

/// What is to come of an entry.
pub open spec fn outcome_of(opened: Option<&DynamicImage>, hasher: CatalogHasher) -> EntryOutcome {
    match opened {
        None => EntryOutcome::Unreadable,
        Some(image) => if hashable(hasher, *image) {
            EntryOutcome::Added
        } else {
            EntryOutcome::TooWide
        },
    }
}

/// The warning for an entry that was skipped as unreadable: it names the
/// path, quoted.
pub fn unreadable_warning(path: &str) -> (warning: String)
    ensures
        warning@ == "Failed to open image: "@ + debug_text(path@),
{
    let quoted = debug_string(path);
    String::from_str("Failed to open image: ").concat(quoted.as_str())
}

/// Takes one scanned entry into the catalog. An entry that was opened as an
/// image which the hasher takes is hashed and appended as a record under its
/// path, with the hash that the hasher gave, which has the length that the
/// hasher was made for. An entry that could not be opened, or holds an image
/// that the hasher does not take, is skipped and the catalog stays as it is.
/// The result tells which of the three it was. A catalog of well-formed
/// records stays one.
pub fn record_entry(
    catalog: &mut Vec<ImageInfo>,
    path: String,
    opened: Option<&DynamicImage>,
    hasher: &CatalogHasher,
) -> (outcome: EntryOutcome)
    ensures
        outcome == outcome_of(opened, *hasher),
        outcome != EntryOutcome::Added ==> final(catalog)@ == old(catalog)@,
        outcome == EntryOutcome::Added ==> exists|hash: Seq<u8>|
            hash.len() == hash_len(hasher.width(), hasher.height()) && records_view(
                final(catalog)@,
            ) == #[trigger] records_view(old(catalog)@).push(ImageRecord { path: path@, hash }),
        records_well_formed(old(catalog)@) ==> records_well_formed(final(catalog)@),
{
    proof {
        use_type_invariant(hasher);
    }
    let image = match opened {
        Some(image) => image,
        None => {
            return EntryOutcome::Unreadable;
        },
    };
    let width = width_of(image);
    assert(width * hasher.height <= 0xFFFF_FFFF * 0x7FFF) by (nonlinear_arith)
        requires
            width <= 0xFFFF_FFFF,
            hasher.height <= 0x7FFF,
    ;
    if width as u64 * hasher.height as u64 > (usize::MAX / 32) as u64 {
        return EntryOutcome::TooWide;
    }
    let hash = perceptual_hash(hasher.width, hasher.height, image);
    proof {
        lemma_hash_len_bounded(hasher.width, hasher.height);
    }
    let ghost bytes = hash@;
    let ghost appended = records_view(catalog@).push(ImageRecord { path: path@, hash: bytes });
    record_hash(catalog, path, Some(hash));
    assert(records_view(catalog@) == appended);
    proof {
        if records_well_formed(old(catalog)@) {
            assert forall|i: int| 0 <= i < catalog@.len() implies (
            #[trigger] catalog@[i]).well_formed() by {
                assert(catalog@[i]@ == appended[i]);
                if i < old(catalog)@.len() {
                    assert(old(catalog)@[i].well_formed());
                    assert(appended[i] == records_view(old(catalog)@)[i]);
                }
            }
        }
    }
    EntryOutcome::Added
}

} // verus!
