//! The kitty terminal graphics protocol: a frame is sent as raw RGBA8 pixels, base64-encoded
//! and split into escape sequences of at most 4096 payload bytes, and displayed without moving
//! the cursor. The escape sequences themselves are produced by the `kittage` crate.
//!
//! Each backend owns one image id and uses it, also as the placement id, for every frame, so
//! each new frame replaces the previous one on screen.

use std::io;
use std::num::{NonZeroU16, NonZeroU32};
use kittage::action::Action;
use kittage::display::CursorMovementPolicy::{DontMove, MoveToAfterImage};
use kittage::display::DisplayConfig;
use kittage::image::Image;
use kittage::medium::{ChunkSize, Medium};
use kittage::Verbosity::{All, ErrorsOnly, Silent};
use kittage::{ImageDimensions, NumberOrId, PixelFormat};
use vstd::prelude::*;
use crate::backend::Backend;
use crate::canvas::{Canvas, CanvasView, rgba_seq};
use crate::error::Error;
use crate::ids::fresh_nonzero_u32;

verus! {

#[verifier::external_type_specification]
#[verifier::external_body]
pub struct ExIoError(std::io::Error);

/// The largest chunk the protocol allows, in units of four base64 bytes.
pub const CHUNK_UNITS: u16 = 1024;

/// Where the terminal leaves the cursor after displaying an image.
#[derive(Clone, Copy, Debug, PartialEq, Eq, Structural)]
pub enum CursorAfterImage {
    /// On the cell right after the image's last cell.
    MoveAfter,
    /// Where it was.
    Stay,
}

/// Which replies the terminal sends to a graphics command.
#[derive(Clone, Copy, Debug, PartialEq, Eq, Structural)]
pub enum TerminalReplies {
    /// An OK or an error code for every command.
    All,
    /// Error codes only.
    ErrorsOnly,
    /// None at all.
    Silent,
}

/// The cursor policy frames are displayed with: the cursor stays put.
pub open spec fn frame_cursor() -> CursorAfterImage {
    CursorAfterImage::Stay
}

/// The replies frames ask for: none, so nothing is ever read back from the terminal.
pub open spec fn frame_replies() -> TerminalReplies {
    TerminalReplies::Silent
}

/// The bytes `kittage` writes for transmitting directly (in the escape sequences
/// themselves) and displaying an RGBA8 image of `width` x `height` pixels whose data is
/// `rgba`, with image id `image_id` and placement id `placement_id` (none when `0`), chunked
/// at `chunk_units` four-byte units, with cursor policy `cursor` and asking for `replies`.
pub uninterp spec fn kitty_transmit_display(
    image_id: u32,
    placement_id: u32,
    chunk_units: u16,
    width: u32,
    height: u32,
    rgba: Seq<u8>,
    cursor: CursorAfterImage,
    replies: TerminalReplies,
) -> Seq<u8>;

/// Builds a `kittage::action::Action::TransmitAndDisplay` of an RGBA32 image sent over the
/// direct medium (the only medium carrying in-memory bytes), with `cursor` and `replies`
/// mapped one for one onto `CursorMovementPolicy` and `Verbosity`, and calls its
/// `write_transmit_to` on an empty `Vec<u8>`. Claimed: it succeeds (`kittage` fails only when
/// its writer fails, and writing into a `Vec<u8>` never fails), and the bytes written depend
/// on the arguments alone (they are `kitty_transmit_display` of them).
#[verifier::external_body]
fn kittage_transmit_display(
    image_id: u32,
    placement_id: u32,
    chunk_units: u16,
    width: u32,
    height: u32,
    rgba: &[u8],
    cursor: CursorAfterImage,
    replies: TerminalReplies,
) -> (r: Result<Vec<u8>, io::Error>)
    requires
        image_id != 0,
    ensures
        r is Ok,
        r matches Ok(bytes) ==> bytes@ == kitty_transmit_display(
            image_id, placement_id, chunk_units, width, height, rgba@, cursor, replies,
        ),
{
    let chunk_size = NonZeroU16::new(chunk_units).and_then(ChunkSize::new);
    let medium = Medium::Direct { chunk_size, data: std::borrow::Cow::Borrowed(rgba) };
    let format = PixelFormat::Rgba32(ImageDimensions { width, height }, None);
    let image = Image { num_or_id: NumberOrId::Id(NonZeroU32::new(image_id).expect("non-zero")), format, medium };
    let cursor_movement = match cursor { CursorAfterImage::MoveAfter => MoveToAfterImage, CursorAfterImage::Stay => DontMove };
    let verbosity = match replies { TerminalReplies::All => All, TerminalReplies::ErrorsOnly => ErrorsOnly, TerminalReplies::Silent => Silent };
    let config = DisplayConfig { cursor_movement, ..Default::default() };
    let action = Action::TransmitAndDisplay { image, config, placement_id: NonZeroU32::new(placement_id) };
    action.write_transmit_to(Vec::new(), verbosity)
}

/// Calls `std::string::ToString::to_string` on an I/O error: its display message. Nothing is
/// promised of the text.
#[verifier::external_body]
fn io_error_message(e: &io::Error) -> String {
    e.to_string()
}

/// The bytes one frame of a `width` x `height` canvas takes: nothing for an empty canvas,
/// which has no kitty image representation.
pub open spec fn frame_spec(image_id: u32, canvas: CanvasView) -> Seq<u8> {
    if canvas.width == 0 || canvas.height == 0 {
        Seq::empty()
    } else {
        kitty_transmit_display(
            image_id,
            image_id,
            CHUNK_UNITS,
            canvas.width,
            canvas.height,
            rgba_seq(canvas.pixels),
            frame_cursor(),
            frame_replies(),
        )
    }
}

/// A kitty graphics protocol backend writing its escape sequences to `W`.
pub struct KittyBackend<W> {
    writer: W,
    image_id: u32,
}

impl<W> KittyBackend<W> {
    /// Image ids are never zero.
    #[verifier::type_invariant]
    spec fn id_is_nonzero(&self) -> bool {
        self.image_id != 0
    }

    /// The image id (and placement id) this backend sends its frames under.
    pub closed spec fn spec_image_id(&self) -> u32 {
        self.image_id
    }

    /// Where the escape sequences go.
    pub closed spec fn spec_writer(&self) -> W {
        self.writer
    }

    /// A backend writing to `writer`, with a random non-zero image id. Ids are not numbered:
    /// two backends get the same id only if their random draws collide, which nothing here
    /// rules out.
    pub fn with_writer(writer: W) -> (b: Self)
        ensures
            b.spec_writer() == writer,
            b.spec_image_id() != 0,
    {
        let image_id = fresh_nonzero_u32(0);
        KittyBackend { writer, image_id }
    }

    /// The image id (and placement id) of every frame this backend sends.
    pub fn image_id(&self) -> (r: u32)
        ensures
            r == self.spec_image_id(),
            r != 0,
    {
        proof {
            use_type_invariant(self);
        }
        self.image_id
    }

    /// The writer the escape sequences go to.
    pub fn writer(&self) -> (w: &W)
        ensures
            *w == self.spec_writer(),
    {
        &self.writer
    }

    /// Gives back the writer.
    pub fn into_writer(self) -> (w: W)
        ensures
            w == self.spec_writer(),
    {
        self.writer
    }

    /// The escape sequences presenting `canvas` as one frame: none for a canvas with no
    /// pixels; otherwise the RGBA8 bytes of the canvas under this backend's image and
    /// placement id, chunked at the protocol's limit. Encoding into memory always succeeds;
    /// an encoder error would become `Error::Backend`.
    pub fn frame(&self, canvas: &Canvas) -> (r: Result<Vec<u8>, Error>)
        requires
            canvas.wf(),
        ensures
            r is Ok,
            r matches Ok(bytes) ==> bytes@ == frame_spec(self.spec_image_id(), canvas@),
    {
        proof {
            use_type_invariant(self);
        }
        let width = canvas.width();
        let height = canvas.height();
        if width == 0 || height == 0 {
            return Ok(Vec::new());
        }
        let rgba = canvas.rgba8_bytes();
        let cursor = CursorAfterImage::Stay;
        let replies = TerminalReplies::Silent;
        match kittage_transmit_display(self.image_id, self.image_id, CHUNK_UNITS, width, height, rgba.as_slice(), cursor, replies) {
            Ok(bytes) => Ok(bytes),
            Err(e) => Err(Error::Backend(io_error_message(&e))),
        }
    }
}

impl Backend for KittyBackend<Vec<u8>> {
    type Error = Error;

    /// Appends the frame for `canvas` (see `frame`) to the buffer; this always succeeds.
    fn present(&mut self, canvas: &Canvas) -> (r: Result<(), Error>)
        ensures
            r is Ok,
            final(self).spec_image_id() == old(self).spec_image_id(),
            final(self).spec_writer()@ == old(self).spec_writer()@ + frame_spec(old(self).spec_image_id(), canvas@),
    {
        proof {
            use_type_invariant(&*self);
        }
        match self.frame(canvas) {
            Ok(mut bytes) => {
                let mut out: Vec<u8> = Vec::new();
                std::mem::swap(&mut out, &mut self.writer);
                out.append(&mut bytes);
                self.writer = out;
                Ok(())
            },
            Err(e) => Err(e),
        }
    }
}

} // verus!
