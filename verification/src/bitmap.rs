//! Bitmaps: small RGBA8 images used as sprite content.

use vstd::prelude::*;
use crate::error::Error;
use crate::geometry::Color;
use crate::grid::lemma_grid_index_bounds;

verus! {

#[verifier::external_type_specification]
#[verifier::external_body]
pub struct ExImageError(image::ImageError);

/// The width, height and row-major RGBA8 bytes that the `image` crate decodes `encoded` to,
/// read in the format that the file extension `extension` names, after converting it to
/// RGBA8; `None` when it cannot decode it (an extension naming no format included).
pub uninterp spec fn image_rgba8(encoded: Seq<u8>, extension: Seq<char>) -> Option<(u32, u32, Seq<u8>)>;

/// Looks the format up with `image::ImageFormat::from_extension` and decodes with
/// `image::load_from_memory_with_format`; for an extension naming no format it calls
/// `image::ImageReader::decode` with no format set, which fails as it does for a file without
/// a known extension. Then `DynamicImage::into_rgba8`, `ImageBuffer::dimensions` and
/// `ImageBuffer::into_raw`. Claimed: whether it succeeds, and what it gives on success, depend
/// on the arguments alone (they are `image_rgba8` of them, under default limits), and the raw
/// buffer holds at least four bytes per pixel (an `ImageBuffer` is never built over a shorter
/// one).
#[verifier::external_body]
fn image_decode_rgba8(encoded: &[u8], extension: &str) -> (r: Result<(u32, u32, Vec<u8>), image::ImageError>)
    ensures
        r is Ok <==> image_rgba8(encoded@, extension@) is Some,
        r matches Ok((w, h, bytes)) ==> {
            &&& image_rgba8(encoded@, extension@) == Some((w, h, bytes@))
            &&& bytes@.len() >= 4 * (w * h)
        },
{
    let decoded = match image::ImageFormat::from_extension(extension) {
        Some(format) => image::load_from_memory_with_format(encoded, format),
        None => image::ImageReader::new(std::io::Cursor::new(encoded)).decode(),
    };
    match decoded {
        Ok(img) => {
            let rgba = img.into_rgba8();
            let (w, h) = rgba.dimensions();
            Ok((w, h, rgba.into_raw()))
        },
        Err(e) => Err(e),
    }
}

/// Calls `std::string::ToString::to_string` on an image error: its display message.
/// Nothing is promised of the text.
#[verifier::external_body]
fn image_error_message(e: &image::ImageError) -> String {
    e.to_string()
}

/// The first `n` pixels held by row-major RGBA8 bytes.
pub open spec fn rgba_pixels(bytes: Seq<u8>, n: int) -> Seq<Color> {
    Seq::new(n as nat, |i: int| Color { r: bytes[4 * i], g: bytes[4 * i + 1], b: bytes[4 * i + 2], a: bytes[4 * i + 3] })
}

/// The bitmap an encoded image decodes to, when it decodes.
pub open spec fn decoded_view(encoded: Seq<u8>, extension: Seq<char>) -> BitmapView {
    let (w, h, bytes) = image_rgba8(encoded, extension).unwrap();
    BitmapView { width: w, height: h, pixels: rgba_pixels(bytes, w * h) }
}

/// The mathematical model of a bitmap.
pub struct BitmapView {
    pub width: u32,
    pub height: u32,
    /// Row-major pixels: `(x, y)` is at `y * width + x`.
    pub pixels: Seq<Color>,
}

impl BitmapView {
    pub open spec fn in_bounds(self, x: int, y: int) -> bool {
        0 <= x < self.width && 0 <= y < self.height
    }

    /// The color of pixel `(x, y)`.
    pub open spec fn at(self, x: int, y: int) -> Color {
        self.pixels[y * self.width + x]
    }

    pub open spec fn wf(self) -> bool {
        self.pixels.len() == self.width * self.height
    }
}

/// A small RGBA8 image, row-major.
#[derive(Debug)]
pub struct Bitmap {
    width: u32,
    height: u32,
    pixels: Vec<Color>,
}

impl View for Bitmap {
    type V = BitmapView;

    closed spec fn view(&self) -> BitmapView {
        BitmapView { width: self.width, height: self.height, pixels: self.pixels@ }
    }
}

impl Clone for Bitmap {
    fn clone(&self) -> (b: Self)
        ensures
            b@ == self@,
    {
        let mut pixels: Vec<Color> = Vec::new();
        let n = self.pixels.len();
        let mut i: usize = 0;
        while i < n
            invariant
                n == self.pixels@.len(),
                i <= n,
                pixels@ == self.pixels@.subrange(0, i as int),
            decreases n - i,
        {
            pixels.push(self.pixels[i]);
            i += 1;
            assert(pixels@ =~= self.pixels@.subrange(0, i as int));
        }
        assert(pixels@ =~= self.pixels@);
        Bitmap { width: self.width, height: self.height, pixels }
    }
}

impl Bitmap {
    /// Internal consistency: the buffer holds exactly `width * height` pixels.
    pub open spec fn wf(&self) -> bool {
        &&& self@.wf()
        &&& self@.pixels.len() <= usize::MAX
    }

    /// A bitmap over an explicit row-major pixel buffer, which must hold exactly
    /// `width * height` pixels.
    pub fn new(width: u32, height: u32, pixels: Vec<Color>) -> (b: Self)
        requires
            pixels@.len() == width * height,
        ensures
            b.wf(),
            b@ == (BitmapView { width, height, pixels: pixels@ }),
    {
        assert(pixels@.len() == pixels.len());
        Bitmap { width, height, pixels }
    }

    /// A `width` x `height` bitmap with every pixel set to `color`.
    pub fn solid(width: u32, height: u32, color: Color) -> (b: Self)
        requires
            width * height <= usize::MAX,
        ensures
            b.wf(),
            b@.width == width,
            b@.height == height,
            forall|i: int| 0 <= i < b@.pixels.len() ==> b@.pixels[i] == color,
            forall|x: int, y: int| #[trigger] b@.in_bounds(x, y) ==> b@.at(x, y) == color,
    {
        let len = Self::checked_len(width, height);
        let mut pixels: Vec<Color> = Vec::new();
        let mut i: usize = 0;
        while i < len
            invariant
                i <= len,
                pixels@.len() == i,
                forall|j: int| 0 <= j < i ==> pixels@[j] == color,
            decreases len - i,
        {
            pixels.push(color);
            i += 1;
        }
        let b = Bitmap { width, height, pixels };
        proof {
            assert forall|x: int, y: int| #[trigger] b@.in_bounds(x, y) implies b@.at(x, y) == color by {
                lemma_grid_index_bounds(width as int, height as int, x, y);
            }
        }
        b
    }

    /// A bitmap from row-major RGBA8 bytes: R, G, B, A for each pixel, `width * height`
    /// pixels in all; bytes past those are ignored.
    pub fn from_rgba8(width: u32, height: u32, bytes: &[u8]) -> (b: Self)
        requires
            bytes@.len() >= 4 * (width * height),
        ensures
            b.wf(),
            b@ == (BitmapView { width, height, pixels: rgba_pixels(bytes@, width * height) }),
    {
        assert(bytes@.len() == bytes.len());
        let n = width as usize * height as usize;
        let mut pixels: Vec<Color> = Vec::new();
        let mut i: usize = 0;
        while i < n
            invariant
                n == width * height,
                4 * n <= bytes@.len() <= usize::MAX,
                i <= n,
                pixels@ == rgba_pixels(bytes@, i as int),
            decreases n - i,
        {
            let k = 4 * i;
            pixels.push(Color { r: bytes[k], g: bytes[k + 1], b: bytes[k + 2], a: bytes[k + 3] });
            i += 1;
            assert(pixels@ =~= rgba_pixels(bytes@, i as int));
        }
        Bitmap { width, height, pixels }
    }

    /// Decodes the contents of an image file (PNG, JPEG, GIF or BMP) into a bitmap, converted
    /// to RGBA8: a source without alpha comes out opaque. The format is the one the file
    /// extension `extension` names (case-insensitively; `""` for a file without one), not
    /// guessed from the contents. Data the `image` crate cannot decode in that format, or an
    /// extension naming no format, gives `Error::ImageLoad` with its message.
    pub fn from_encoded(encoded: &[u8], extension: &str) -> (r: Result<Self, Error>)
        ensures
            r is Ok <==> image_rgba8(encoded@, extension@) is Some,
            match r {
                Ok(b) => b.wf() && b@ == decoded_view(encoded@, extension@),
                Err(e) => e is ImageLoad,
            },
    {
        match image_decode_rgba8(encoded, extension) {
            Ok((width, height, bytes)) => Ok(Self::from_rgba8(width, height, bytes.as_slice())),
            Err(e) => Err(Error::ImageLoad(image_error_message(&e))),
        }
    }

    /// `width * height` as a `usize`.
    fn checked_len(width: u32, height: u32) -> (n: usize)
        requires
            width * height <= usize::MAX,
        ensures
            n == width * height,
    {
        width as usize * height as usize
    }

    /// Width in pixels.
    pub fn width(&self) -> (r: u32)
        ensures
            r == self@.width,
    {
        self.width
    }

    /// Height in pixels.
    pub fn height(&self) -> (r: u32)
        ensures
            r == self@.height,
    {
        self.height
    }

    /// Row-major buffer index of `(x, y)`, or `None` when out of bounds.
    fn index(&self, x: u32, y: u32) -> (r: Option<usize>)
        requires
            self.wf(),
        ensures
            r is Some <==> self@.in_bounds(x as int, y as int),
            r matches Some(i) ==> i == y * self@.width + x && i < self@.pixels.len(),
    {
        if x >= self.width || y >= self.height {
            return None;
        }
        proof {
            lemma_grid_index_bounds(self.width as int, self.height as int, x as int, y as int);
        }
        Some(y as usize * self.width as usize + x as usize)
    }

    /// The color at `(x, y)`, or `None` when out of bounds.
    pub fn pixel(&self, x: u32, y: u32) -> (r: Option<Color>)
        requires
            self.wf(),
        ensures
            r == (if self@.in_bounds(x as int, y as int) {
                Some(self@.at(x as int, y as int))
            } else {
                None
            }),
    {
        match self.index(x, y) {
            Some(i) => Some(self.pixels[i]),
            None => None,
        }
    }
}

} // verus!
