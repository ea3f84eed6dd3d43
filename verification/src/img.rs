//! Reading tokens out of the bytes of a PNG file, and writing them into one.
//!
//! The file system is not touched here: the caller hands over what it read
//! and saves what it gets back.

use crate::codec::{decode, decoded, encode, encoded, pixels_of, raw_of, Image};
use crate::lexer::Token;
use vstd::prelude::*;
use vstd::string::StringExecFns;

verus! {

/// Why tokens could not be read out of an image file.
#[derive(Debug, Clone, Copy, PartialEq, Eq, Structural)]
pub enum ReadError {
    InvalidFileExtension,
    FileNotFound,
    DecodeFailed,
}

impl ReadError {
    /// The message that goes with the error.
    pub open spec fn message(self) -> Seq<char> {
        match self {
            ReadError::InvalidFileExtension => "invalid file extension, must be .png"@,
            ReadError::FileNotFound => "file not found"@,
            ReadError::DecodeFailed => "failed to decode image, are you sure it's a png?"@,
        }
    }

    /// The message that goes with the error.
    pub fn to_string(&self) -> (text: String)
        ensures
            text@ == self.message(),
    {
        match self {
            ReadError::InvalidFileExtension => String::from_str(
                "invalid file extension, must be .png",
            ),
            ReadError::FileNotFound => String::from_str("file not found"),
            ReadError::DecodeFailed => String::from_str(
                "failed to decode image, are you sure it's a png?",
            ),
        }
    }
}

/// Why tokens could not be written into an image file.
#[derive(Debug, Clone, Copy, PartialEq, Eq, Structural)]
pub enum WriteError {
    InvalidFileExtension,
    FileNotFound,
    DecodeFailed,
    SaveFailed,
}

impl WriteError {
    /// The message that goes with the error.
    pub open spec fn message(self) -> Seq<char> {
        match self {
            WriteError::InvalidFileExtension => "invalid file extension, must be .png"@,
            WriteError::FileNotFound => "file not found"@,
            WriteError::DecodeFailed => "failed to decode image, are you sure it's a png?"@,
            WriteError::SaveFailed => "failed to save image"@,
        }
    }

    /// The message that goes with the error.
    pub fn to_string(&self) -> (text: String)
        ensures
            text@ == self.message(),
    {
        match self {
            WriteError::InvalidFileExtension => String::from_str(
                "invalid file extension, must be .png",
            ),
            WriteError::FileNotFound => String::from_str("file not found"),
            WriteError::DecodeFailed => String::from_str(
                "failed to decode image, are you sure it's a png?",
            ),
            WriteError::SaveFailed => String::from_str("failed to save image"),
        }
    }
}

/// The error type of the `image` crate.
#[verifier::external_type_specification]
#[verifier::external_body]
pub struct ExImageError(image::ImageError);

/// What the `image` crate makes of the bytes of a PNG file: the width, the
/// height and the RGBA channel values of the picture, or nothing where the
/// bytes are no PNG file that it can read.
pub uninterp spec fn png_unpacked(bytes: Seq<u8>) -> Option<(u32, u32, Seq<u8>)>;

/// The bytes of the PNG file that the `image` crate makes of a picture given
/// by its width, its height and its RGBA channel values, or nothing where it
/// cannot make one.
pub uninterp spec fn png_packed(width: u32, height: u32, raw: Seq<u8>) -> Option<Seq<u8>>;

/// Whether a path ends in `.png`.
pub open spec fn has_png_extension(path: Seq<char>) -> bool {
    path.len() >= 4 && path.subrange(path.len() - 4, path.len() as int) == seq!['.', 'p', 'n', 'g']
}

/// `str::ends_with` with a string as its pattern: whether the pattern is a
/// suffix of the text.
#[verifier::external_body]
fn ends_with(text: &str, suffix: &str) -> (found: bool)
    ensures
        found == (suffix@.len() <= text@.len() && text@.subrange(
            text@.len() - suffix@.len(),
            text@.len() as int,
        ) == suffix@),
{
    text.ends_with(suffix)
}

/// `image::load_from_memory_with_format` for PNG, then
/// `DynamicImage::to_rgba8`, `ImageBuffer::dimensions` and
/// `ImageBuffer::into_raw`. The outcome depends on the bytes alone, and the
/// buffer that comes back holds four channel values for each pixel of the
/// picture.
#[verifier::external_body]
fn unpack_png(bytes: &[u8]) -> (unpacked: Result<(u32, u32, Vec<u8>), image::ImageError>)
    ensures
        match unpacked {
            Ok((width, height, raw)) => png_unpacked(bytes@) == Some((width, height, raw@))
                && raw@.len() == 4 * (width * height),
            Err(_) => png_unpacked(bytes@) is None,
        },
{
    let picture = image::load_from_memory_with_format(bytes, image::ImageFormat::Png)?.to_rgba8();
    let (width, height) = picture.dimensions();
    Ok((width, height, picture.into_raw()))
}

/// `image::write_buffer_with_format` for an RGBA picture and PNG, into a
/// buffer in memory. The outcome depends on the arguments alone. The crate
/// panics where the buffer's length does not fit the width and the height.
#[verifier::external_body]
fn pack_png(width: u32, height: u32, raw: &[u8]) -> (packed: Result<Vec<u8>, image::ImageError>)
    requires
        raw@.len() == 4 * (width * height),
    ensures
        match packed {
            Ok(bytes) => png_packed(width, height, raw@) == Some(bytes@),
            Err(_) => png_packed(width, height, raw@) is None,
        },
{
    let mut file = std::io::Cursor::new(Vec::new());
    let color = image::ColorType::Rgba8;
    image::write_buffer_with_format(&mut file, raw, width, height, color, image::ImageFormat::Png)?;
    Ok(file.into_inner())
}

/// Whether a path ends in `.png`.
pub fn is_png_path(path: &str) -> (found: bool)
    ensures
        found == has_png_extension(path@),
{
    proof {
        reveal_strlit(".png");
        assert(".png"@ =~= seq!['.', 'p', 'n', 'g']);
    }
    ends_with(path, ".png")
}

/// The bytes of a file that was opened, or nothing.
pub open spec fn contents(file: Option<&[u8]>) -> Option<Seq<u8>> {
    match file {
        Some(bytes) => Some(bytes@),
        None => None,
    }
}

/// What `read` returns for a path and the outcome of opening the file.
pub open spec fn read_outcome(path: Seq<char>, file: Option<Seq<u8>>) -> Result<
    Seq<Token>,
    ReadError,
> {
    if !has_png_extension(path) {
        Err(ReadError::InvalidFileExtension)
    } else {
        match file {
            None => Err(ReadError::FileNotFound),
            Some(bytes) => match png_unpacked(bytes) {
                None => Err(ReadError::DecodeFailed),
                Some((width, height, raw)) => Ok(decoded(pixels_of(raw), width as int)),
            },
        }
    }
}

/// Reads the tokens that the PNG file at `path` carries. `file` holds the
/// bytes of that file, or nothing where it could not be opened.
pub fn read(path: &str, file: Option<&[u8]>) -> (tokens: Result<Vec<Token>, ReadError>)
    ensures
        read_outcome(path@, contents(file)) == match tokens {
            Ok(tokens) => Ok::<Seq<Token>, ReadError>(tokens@),
            Err(error) => Err(error),
        },
{
    if !is_png_path(path) {
        return Err(ReadError::InvalidFileExtension);
    }
    let bytes = match file {
        Some(bytes) => bytes,
        None => {
            return Err(ReadError::FileNotFound);
        },
    };
    let (width, height, raw) = match unpack_png(bytes) {
        Ok(unpacked) => unpacked,
        Err(_) => {
            return Err(ReadError::DecodeFailed);
        },
    };
    let image = Image::from_raw(width, height, raw.as_slice()).unwrap();
    Ok(decode(&image))
}

/// What `write` returns for the two paths, the outcome of opening the file
/// at the first, and the tokens.
pub open spec fn write_outcome(
    input_path: Seq<char>,
    output_path: Seq<char>,
    file: Option<Seq<u8>>,
    tokens: Seq<Token>,
) -> Result<Seq<u8>, WriteError> {
    if !has_png_extension(input_path) || !has_png_extension(output_path) {
        Err(WriteError::InvalidFileExtension)
    } else {
        match file {
            None => Err(WriteError::FileNotFound),
            Some(bytes) => match png_unpacked(bytes) {
                None => Err(WriteError::DecodeFailed),
                Some((width, height, raw)) => match png_packed(
                    width,
                    height,
                    raw_of(encoded(pixels_of(raw), tokens)),
                ) {
                    None => Err(WriteError::SaveFailed),
                    Some(packed) => Ok(packed),
                },
            },
        }
    }
}

/// Writes the tokens into the picture of the PNG file at `input_path` and
/// returns the bytes of the PNG file to save at `output_path`. `file` holds
/// the bytes of the file at `input_path`, or nothing where it could not be
/// opened.
pub fn write(input_path: &str, output_path: &str, file: Option<&[u8]>, tokens: Vec<Token>) -> (packed:
    Result<Vec<u8>, WriteError>)
    ensures
        write_outcome(input_path@, output_path@, contents(file), tokens@) == match packed {
            Ok(packed) => Ok::<Seq<u8>, WriteError>(packed@),
            Err(error) => Err(error),
        },
{
    if !is_png_path(input_path) || !is_png_path(output_path) {
        return Err(WriteError::InvalidFileExtension);
    }
    let bytes = match file {
        Some(bytes) => bytes,
        None => {
            return Err(WriteError::FileNotFound);
        },
    };
    let (width, height, raw) = match unpack_png(bytes) {
        Ok(unpacked) => unpacked,
        Err(_) => {
            return Err(WriteError::DecodeFailed);
        },
    };
    let mut image = Image::from_raw(width, height, raw.as_slice()).unwrap();
    encode(&mut image, &tokens);
    let written = image.to_raw();
    match pack_png(width, height, written.as_slice()) {
        Ok(packed) => Ok(packed),
        Err(_) => Err(WriteError::SaveFailed),
    }
}

} // verus!
