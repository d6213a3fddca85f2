//! The result of a walk as a picture.
//!
//! Each cohort is a row, each frame a column, first frame at the left. A
//! frame is white where either input will do, green where the input must be
//! pressed, and red where it must be released. The picture is handed to the
//! `image` crate to be encoded as a PNG.
use crate::path::{cohorts, Cohort, Path};
use vstd::prelude::*;

verus! {

/// `image::ImageError`, the failure of an encoder. It is carried through
/// without a look inside.
#[verifier::external_type_specification]
#[verifier::external_body]
pub struct ExImageError(image::ImageError);

/// Why a picture could not be encoded.
#[derive(Clone, Copy, Debug, PartialEq, Eq)]
pub enum EncodeError {
    /// The width or the height does not fit in 32 bits.
    TooLarge,
    /// The raster does not hold three bytes for each pixel.
    BadSize,
    /// The encoder failed.
    Failed,
}

/// The colour of an input, as red, green and blue.
pub open spec fn colour_of(entry: Option<bool>) -> (u8, u8, u8) {
    match entry {
        None => (255u8, 255u8, 255u8),
        Some(true) => (0u8, 255u8, 0u8),
        Some(false) => (255u8, 0u8, 0u8),
    }
}

/// The colour at column `x` of the row for `inputs`, which are kept last
/// frame first: the last input stands at the right edge, and columns for
/// which there is no input are black.
pub open spec fn pixel_at(inputs: Seq<Option<bool>>, width: int, x: int) -> (u8, u8, u8) {
    if 0 <= width - 1 - x < inputs.len() {
        colour_of(inputs[width - 1 - x])
    } else {
        (0u8, 0u8, 0u8)
    }
}

/// One of the three bytes of a colour.
pub open spec fn channel(colour: (u8, u8, u8), part: int) -> u8 {
    if part == 0 {
        colour.0
    } else if part == 1 {
        colour.1
    } else {
        colour.2
    }
}

/// The bytes of the row for `inputs`: three for each column.
pub open spec fn row_of(inputs: Seq<Option<bool>>, width: int) -> Seq<u8> {
    Seq::new((3 * width) as nat, |i: int| channel(pixel_at(inputs, width, i / 3), i % 3))
}

/// The bytes of the picture of a list of cohorts: its rows, one after the
/// other.
pub open spec fn raster_of(list: Seq<Cohort>, width: int) -> Seq<u8>
    decreases list.len(),
{
    if list.len() == 0 {
        Seq::empty()
    } else {
        raster_of(list.drop_last(), width) + row_of(list.last().inputs, width)
    }
}

/// A picture holds three bytes for each column of each row.
pub proof fn lemma_raster_len(list: Seq<Cohort>, width: int)
    requires
        0 <= width,
    ensures
        raster_of(list, width).len() == 3 * width * list.len(),
    decreases list.len(),
{
    if list.len() > 0 {
        lemma_raster_len(list.drop_last(), width);
        assert(3 * width * (list.len() - 1) + 3 * width == 3 * width * list.len())
            by (nonlinear_arith);
    } else {
        assert(3 * width * 0 == 0);
    }
}

/// The PNG file that the `image` crate makes of a raster of the given width
/// and height, or `None` where it makes none.
pub uninterp spec fn png_of(raster: Seq<u8>, width: u32, height: u32) -> Option<Seq<u8>>;

/// `image::write_buffer_with_format`, writing eight-bit RGB as PNG into
/// memory: the bytes that come out, or the failure, are those that the crate
/// has for this raster, width and height. The call panics where the raster
/// does not hold three bytes for each pixel.
#[verifier::external_body]
fn png_encode(raster: &Vec<u8>, width: u32, height: u32) -> (made: Result<Vec<u8>, image::ImageError>)
    requires
        raster@.len() == 3 * width * height,
    ensures
        png_of(raster@, width, height) == match made {
            Ok(bytes) => Some(bytes@),
            Err(_) => None,
        },
{
    let mut bytes = Vec::new();
    let outcome = image::write_buffer_with_format(
        &mut std::io::Cursor::new(&mut bytes),
        raster,
        width,
        height,
        image::ColorType::Rgb8,
        image::ImageOutputFormat::Png,
    );
    match outcome {
        Ok(()) => Ok(bytes),
        Err(error) => Err(error),
    }
}

/// The colour of an input.
pub fn colour(entry: Option<bool>) -> (rgb: (u8, u8, u8))
    ensures
        rgb == colour_of(entry),
{
    match entry {
        None => (255, 255, 255),
        Some(true) => (0, 255, 0),
        Some(false) => (255, 0, 0),
    }
}

/// Draws a list of cohorts, each as a row of `width` pixels.
pub fn raster(paths: &Vec<Path>, width: usize) -> (bytes: Vec<u8>)
    requires
        forall|y: int| 0 <= y < paths@.len() ==> (#[trigger] paths@[y]).inputs@.len() <= width,
    ensures
        bytes@ == raster_of(cohorts(paths@), width as int),
{
    let mut bytes: Vec<u8> = Vec::new();
    let mut y: usize = 0;
    proof {
        assert(cohorts(paths@).take(0) =~= Seq::<Cohort>::empty());
    }
    while y < paths.len()
        invariant
            y <= paths.len(),
            bytes@ == raster_of(cohorts(paths@).take(y as int), width as int),
        decreases paths.len() - y,
    {
        let inputs = &paths[y].inputs;
        let ghost before = bytes@;
        let ghost row = row_of(inputs@, width as int);
        let mut x: usize = 0;
        proof {
            assert(bytes@ =~= before + row.take(0));
        }
        while x < width
            invariant
                x <= width,
                row == row_of(inputs@, width as int),
                bytes@ == before + row.take(3 * x),
            decreases width - x,
        {
            let at = width - 1 - x;
            let rgb = if at < inputs.len() {
                colour(inputs[at])
            } else {
                (0, 0, 0)
            };
            bytes.push(rgb.0);
            bytes.push(rgb.1);
            bytes.push(rgb.2);
            proof {
                assert(rgb == pixel_at(inputs@, width as int, x as int));
                assert((3 * x) / 3 == x && (3 * x) % 3 == 0);
                assert((3 * x + 1) / 3 == x && (3 * x + 1) % 3 == 1);
                assert((3 * x + 2) / 3 == x && (3 * x + 2) % 3 == 2);
                assert(bytes@ =~= before + row.take(3 * (x + 1)));
            }
            x += 1;
        }
        proof {
            let list = cohorts(paths@);
            assert(row.take(3 * width) =~= row);
            assert(list.take(y + 1).drop_last() =~= list.take(y as int));
            assert(list.take(y + 1).last() == paths@[y as int]@);
        }
        y += 1;
    }
    proof {
        assert(cohorts(paths@).take(paths@.len() as int) =~= cohorts(paths@));
    }
    bytes
}

/// Encodes a raster of eight-bit RGB pixels as a PNG file.
pub fn encode(raster: &Vec<u8>, width: usize, height: usize) -> (made: Result<Vec<u8>, EncodeError>)
    ensures
        match made {
            Ok(bytes) => {
                &&& width <= u32::MAX && height <= u32::MAX
                &&& raster@.len() == 3 * width * height
                &&& png_of(raster@, width as u32, height as u32) == Some(bytes@)
            },
            Err(EncodeError::TooLarge) => width > u32::MAX || height > u32::MAX,
            Err(EncodeError::BadSize) => {
                &&& width <= u32::MAX && height <= u32::MAX
                &&& raster@.len() != 3 * width * height
            },
            Err(EncodeError::Failed) => {
                &&& width <= u32::MAX && height <= u32::MAX
                &&& raster@.len() == 3 * width * height
                &&& png_of(raster@, width as u32, height as u32) is None
            },
        },
{
    if width > u32::MAX as usize || height > u32::MAX as usize {
        return Err(EncodeError::TooLarge);
    }
    assert(3 * width * height <= 3 * 0xFFFF_FFFF * 0xFFFF_FFFF) by (nonlinear_arith)
        requires
            0 <= width <= 0xFFFF_FFFF,
            0 <= height <= 0xFFFF_FFFF,
    ;
    let wanted: u128 = 3 * (width as u128) * (height as u128);
    if raster.len() as u128 != wanted {
        return Err(EncodeError::BadSize);
    }
    match png_encode(raster, width as u32, height as u32) {
        Ok(bytes) => Ok(bytes),
        Err(_) => Err(EncodeError::Failed),
    }
}

/// Draws a list of cohorts as a PNG file, each cohort a row of `width`
/// pixels.
pub fn draw(paths: &Vec<Path>, width: usize) -> (made: Result<Vec<u8>, EncodeError>)
    requires
        forall|y: int| 0 <= y < paths@.len() ==> (#[trigger] paths@[y]).inputs@.len() <= width,
    ensures
        match made {
            Ok(bytes) => {
                &&& width <= u32::MAX && paths@.len() <= u32::MAX
                &&& png_of(
                    raster_of(cohorts(paths@), width as int),
                    width as u32,
                    paths@.len() as u32,
                ) == Some(bytes@)
            },
            Err(EncodeError::TooLarge) => width > u32::MAX || paths@.len() > u32::MAX,
            Err(EncodeError::BadSize) => false,
            Err(EncodeError::Failed) => {
                &&& width <= u32::MAX && paths@.len() <= u32::MAX
                &&& png_of(
                    raster_of(cohorts(paths@), width as int),
                    width as u32,
                    paths@.len() as u32,
                ) is None
            },
        },
{
    let bytes = raster(paths, width);
    proof {
        lemma_raster_len(cohorts(paths@), width as int);
    }
    encode(&bytes, width, paths.len())
}

} // verus!
