//! Pixel-by-pixel image comparison.
//!
//! Two images of equal size, given as 8-bit RGBA rows, are compared pixel by pixel:
//! a pixel counts as different when its bytes differ and, under a perceptual
//! tolerance, when the tolerance marks it too. The diff image paints differing pixels
//! red and the rest in a grey taken from the left image. Decoding and PNG encoding are
//! done by the `image` crate.

use vstd::prelude::*;

use image::codecs::png::{CompressionType, FilterType, PngEncoder};
use image::{ExtendedColorType, ImageEncoder};

use crate::chars::{decimal, decimal_string};

verus! {

/// The result of comparing two images.
#[derive(Clone, Debug, PartialEq, Eq)]
pub struct ImageDiff {
    pub width: u32,
    pub height: u32,
    pub different_pixels: u64,
    /// The diff image as RGBA, row by row, when one was asked for.
    pub diff_image: Option<Vec<u8>>,
}

impl ImageDiff {
    /// How many pixels each image has.
    pub fn total_pixels(&self) -> (res: u64)
        ensures
            res == self.width * self.height,
    {
        proof {
            assert(self.width * self.height <= u32::MAX * u32::MAX) by (nonlinear_arith)
                requires
                    self.width <= u32::MAX,
                    self.height <= u32::MAX,
            ;
            assert(u32::MAX * u32::MAX <= u64::MAX) by (nonlinear_arith);
        }
        self.width as u64 * self.height as u64
    }

    /// No pixel differs.
    pub fn identical(&self) -> (res: bool)
        ensures
            res == (self.different_pixels == 0),
    {
        self.different_pixels == 0
    }
}

/// Why an image comparison failed.
#[derive(Debug, PartialEq, Eq)]
pub enum DiffError {
    /// An encoded image is not a PNG, JPEG, WebP, GIF or BMP, or is corrupt.
    Decode { side: &'static str, reason: String },
    DimensionMismatch { left: (u32, u32), right: (u32, u32) },
    /// A pixel buffer is not the length its dimensions call for.
    BufferSize { side: &'static str, expected: usize, actual: usize },
    /// The image is too large to address in memory.
    TooLarge { width: u32, height: u32 },
    Encode(String),
}

/// What an image comparison error says.
pub open spec fn error_message(e: DiffError) -> Seq<char> {
    match e {
        DiffError::Decode { side, reason } => side@ + " image could not be decoded: "@ + reason@,
        DiffError::DimensionMismatch { left, right } => "images differ in size: left is "@ + decimal(left.0 as nat) + "x"@
            + decimal(left.1 as nat) + ", right is "@ + decimal(right.0 as nat) + "x"@ + decimal(right.1 as nat),
        DiffError::BufferSize { side, expected, actual } => side@ + " buffer is "@ + decimal(actual as nat) + " bytes, expected "@
            + decimal(expected as nat),
        DiffError::TooLarge { width, height } => "a "@ + decimal(width as nat) + "x"@ + decimal(height as nat) + " image is too large"@,
        DiffError::Encode(reason) => "diff image could not be encoded: "@ + reason@,
    }
}

impl DiffError {
    /// The error as a sentence.
    pub fn message(&self) -> (res: String)
        ensures
            res@ == error_message(*self),
    {
        match self {
            DiffError::Decode { side, reason } => {
                let mut m = String::from_str(side);
                m.append(" image could not be decoded: ");
                m.append(reason.as_str());
                m
            },
            DiffError::DimensionMismatch { left, right } => {
                let mut m = String::from_str("images differ in size: left is ");
                m.append(decimal_string(left.0 as u64).as_str());
                m.append("x");
                m.append(decimal_string(left.1 as u64).as_str());
                m.append(", right is ");
                m.append(decimal_string(right.0 as u64).as_str());
                m.append("x");
                m.append(decimal_string(right.1 as u64).as_str());
                m
            },
            DiffError::BufferSize { side, expected, actual } => {
                let mut m = String::from_str(side);
                m.append(" buffer is ");
                m.append(decimal_string(*actual as u64).as_str());
                m.append(" bytes, expected ");
                m.append(decimal_string(*expected as u64).as_str());
                m
            },
            DiffError::TooLarge { width, height } => {
                let mut m = String::from_str("a ");
                m.append(decimal_string(*width as u64).as_str());
                m.append("x");
                m.append(decimal_string(*height as u64).as_str());
                m.append(" image is too large");
                m
            },
            DiffError::Encode(reason) => {
                let mut m = String::from_str("diff image could not be encoded: ");
                m.append(reason.as_str());
                m
            },
        }
    }
}

// ---------------------------------------------------------------------------------
// Buffers

/// The length of an RGBA buffer of these dimensions.
pub open spec fn rgba_len(width: u32, height: u32) -> int {
    width * height * 4
}

/// The length of an RGBA buffer of these dimensions, or `TooLarge` when it cannot be
/// addressed.
pub fn expected_len(width: u32, height: u32) -> (res: Result<usize, DiffError>)
    ensures
        match res {
            Ok(n) => n == rgba_len(width, height),
            Err(e) => rgba_len(width, height) > usize::MAX && e == (DiffError::TooLarge { width, height }),
        },
{
    proof {
        assert(width * height >= 0) by (nonlinear_arith);
    }
    match (width as usize).checked_mul(height as usize) {
        Some(pixels) => match pixels.checked_mul(4) {
            Some(n) => Ok(n),
            None => Err(DiffError::TooLarge { width, height }),
        },
        None => {
            proof {
                assert(width * height * 4 >= width * height) by (nonlinear_arith)
                    requires
                        width * height >= 0,
                ;
            }
            Err(DiffError::TooLarge { width, height })
        },
    }
}

/// Checks that a buffer has the length expected of it.
pub fn check_len(side: &'static str, buffer: &[u8], expected: usize) -> (res: Result<(), DiffError>)
    ensures
        match res {
            Ok(()) => buffer@.len() == expected,
            Err(e) => buffer@.len() != expected && e == (DiffError::BufferSize { side, expected, actual: buffer@.len() as usize }),
        },
{
    if buffer.len() == expected {
        Ok(())
    } else {
        Err(DiffError::BufferSize { side, expected, actual: buffer.len() })
    }
}

/// Checks two RGBA buffers against their dimensions, returning their length.
pub fn check_rgba(left: &[u8], right: &[u8], width: u32, height: u32) -> (res: Result<usize, DiffError>)
    ensures
        match res {
            Ok(n) => n == rgba_len(width, height) && left@.len() == n && right@.len() == n,
            Err(e) => if rgba_len(width, height) > usize::MAX {
                e == (DiffError::TooLarge { width, height })
            } else if left@.len() != rgba_len(width, height) {
                e == (DiffError::BufferSize { side: "left", expected: rgba_len(width, height) as usize, actual: left@.len() as usize })
            } else {
                right@.len() != rgba_len(width, height)
                    && e == (DiffError::BufferSize { side: "right", expected: rgba_len(width, height) as usize, actual: right@.len() as usize })
            },
        },
{
    let expected = match expected_len(width, height) {
        Ok(n) => n,
        Err(e) => return Err(e),
    };
    match check_len("left", left, expected) {
        Ok(()) => {},
        Err(e) => return Err(e),
    }
    match check_len("right", right, expected) {
        Ok(()) => {},
        Err(e) => return Err(e),
    }
    Ok(expected)
}

/// Checks a band of two RGBA runs, and the diff image it is painted into when there is
/// one, returning the length of the whole pixels in the left run.
pub fn check_band(left: &[u8], right: &[u8], diff_len: Option<usize>) -> (res: Result<usize, DiffError>)
    ensures
        ({
            let expected = left@.len() - left@.len() % 4;
            match res {
                Ok(n) => n == expected && left@.len() == n && right@.len() == n && (diff_len matches Some(d) ==> d == n),
                Err(e) => if left@.len() != expected {
                    e == (DiffError::BufferSize { side: "left", expected: expected as usize, actual: left@.len() as usize })
                } else if right@.len() != expected {
                    e == (DiffError::BufferSize { side: "right", expected: expected as usize, actual: right@.len() as usize })
                } else {
                    diff_len matches Some(d) && d != expected && e == (DiffError::BufferSize { side: "diff", expected: expected as usize, actual: d })
                },
            }
        }),
{
    let expected = left.len() - left.len() % 4;
    match check_len("left", left, expected) {
        Ok(()) => {},
        Err(e) => return Err(e),
    }
    match check_len("right", right, expected) {
        Ok(()) => {},
        Err(e) => return Err(e),
    }
    match diff_len {
        Some(d) => if d != expected {
            return Err(DiffError::BufferSize { side: "diff", expected, actual: d });
        },
        None => {},
    }
    Ok(expected)
}

// ---------------------------------------------------------------------------------
// Pixels

/// The four bytes of pixel `i`.
pub open spec fn pixel_at(buf: Seq<u8>, i: int) -> Seq<u8> {
    buf.subrange(4 * i, 4 * i + 4)
}

/// The optional marks as plain values.
pub open spec fn marks_view(marks: Option<&[bool]>) -> Option<Seq<bool>> {
    match marks {
        Some(m) => Some(m@),
        None => None,
    }
}

/// Pixel `i` counts as different: its bytes differ and, where a tolerance marked the
/// pixels it does not forgive, it is marked.
pub open spec fn differs_at(left: Seq<u8>, right: Seq<u8>, marks: Option<Seq<bool>>, i: int) -> bool {
    &&& pixel_at(left, i) != pixel_at(right, i)
    &&& match marks {
        Some(m) => m[i],
        None => true,
    }
}

/// How many of the first `n` pixels count as different.
pub open spec fn count_differing(left: Seq<u8>, right: Seq<u8>, marks: Option<Seq<bool>>, n: int) -> nat
    decreases n,
{
    if n <= 0 {
        0
    } else {
        count_differing(left, right, marks, n - 1) + if differs_at(left, right, marks, n - 1) { 1nat } else { 0nat }
    }
}

/// What a diff image shows at pixel `i`: red where the pixels differ, else the grey
/// given for it, opaque.
pub open spec fn painted_at(left: Seq<u8>, right: Seq<u8>, marks: Option<Seq<bool>>, greys: Seq<u8>, i: int) -> Seq<u8> {
    if differs_at(left, right, marks, i) {
        seq![255u8, 0u8, 0u8, 255u8]
    } else {
        seq![greys[i], greys[i], greys[i], 255u8]
    }
}

/// `out` is the diff image of the first `n` pixels.
pub open spec fn painted(out: Seq<u8>, left: Seq<u8>, right: Seq<u8>, marks: Option<Seq<bool>>, greys: Seq<u8>, n: int) -> bool {
    &&& out.len() == 4 * n
    &&& forall|i: int| 0 <= i < n ==> #[trigger] pixel_at(out, i) == painted_at(left, right, marks, greys, i)
}

/// Whether pixel `i` counts as different.
fn pixel_differs(left: &[u8], right: &[u8], marks: Option<&[bool]>, i: usize) -> (res: bool)
    requires
        4 * i + 4 <= left@.len(),
        4 * i + 4 <= right@.len(),
        marks matches Some(m) ==> i < m@.len(),
    ensures
        res == differs_at(left@, right@, marks_view(marks), i as int),
{
    let len = left.len();
    proof {
        assert(4 * i + 4 <= len);
    }
    let k = 4 * i;
    let same = left[k] == right[k] && left[k + 1] == right[k + 1] && left[k + 2] == right[k + 2] && left[k + 3] == right[k + 3];
    proof {
        let a = pixel_at(left@, i as int);
        let b = pixel_at(right@, i as int);
        assert(a[0] == left@[k as int] && a[1] == left@[k + 1] && a[2] == left@[k + 2] && a[3] == left@[k + 3]);
        assert(b[0] == right@[k as int] && b[1] == right@[k + 1] && b[2] == right@[k + 2] && b[3] == right@[k + 3]);
        if same {
            assert(a =~= b);
        }
    }
    if same {
        false
    } else {
        match marks {
            Some(m) => m[i],
            None => true,
        }
    }
}

/// Counts the differing pixels of two equally long runs of RGBA pixels and, when greys
/// are given, paints the diff image.
pub fn diff_pixels(left: &[u8], right: &[u8], marks: Option<&[bool]>, greys: Option<&[u8]>) -> (res: (u64, Option<Vec<u8>>))
    requires
        left@.len() == right@.len(),
        left@.len() % 4 == 0,
        marks matches Some(m) ==> m@.len() == left@.len() / 4,
        greys matches Some(g) ==> g@.len() == left@.len() / 4,
    ensures
        res.0 == count_differing(left@, right@, marks_view(marks), (left@.len() / 4) as int),
        greys is None ==> res.1 is None,
        greys matches Some(g) ==> res.1 matches Some(out) && painted(out@, left@, right@, marks_view(marks), g@, (left@.len() / 4) as int),
{
    let n = left.len() / 4;
    let ghost mv = marks_view(marks);
    let mut count: u64 = 0;
    match greys {
        None => {
            for i in 0..n
                invariant
                    n == left@.len() / 4,
                    left@.len() == right@.len(),
                    left@.len() % 4 == 0,
                    mv == marks_view(marks),
                    marks matches Some(m) ==> m@.len() == n,
                    count == count_differing(left@, right@, mv, i as int),
                    count <= i,
            {
                if pixel_differs(left, right, marks, i) {
                    count = count + 1;
                }
            }
            (count, None)
        },
        Some(g) => {
            let mut out: Vec<u8> = Vec::new();
            for i in 0..n
                invariant
                    n == left@.len() / 4,
                    left@.len() == right@.len(),
                    left@.len() % 4 == 0,
                    mv == marks_view(marks),
                    marks matches Some(m) ==> m@.len() == n,
                    g@.len() == n,
                    count == count_differing(left@, right@, mv, i as int),
                    count <= i,
                    painted(out@, left@, right@, mv, g@, i as int),
            {
                let d = pixel_differs(left, right, marks, i);
                let ghost before = out@;
                if d {
                    count = count + 1;
                    out.push(255);
                    out.push(0);
                    out.push(0);
                    out.push(255);
                } else {
                    let grey = g[i];
                    out.push(grey);
                    out.push(grey);
                    out.push(grey);
                    out.push(255);
                }
                proof {
                    assert(pixel_at(out@, i as int) =~= painted_at(left@, right@, mv, g@, i as int));
                    assert forall|k: int| 0 <= k < i + 1 implies #[trigger] pixel_at(out@, k) == painted_at(left@, right@, mv, g@, k) by {
                        if k < i {
                            assert(pixel_at(out@, k) =~= pixel_at(before, k));
                        }
                    }
                }
            }
            (count, Some(out))
        },
    }
}

/// Compares two images given as raw RGBA pixels, row by row, such as a canvas's
/// `ImageData`. Where marks are given, only marked pixels can count as different;
/// where greys are given, a diff image is painted.
pub fn diff_rgba(left: &[u8], right: &[u8], width: u32, height: u32, marks: Option<&[bool]>, greys: Option<&[u8]>) -> (res: Result<ImageDiff, DiffError>)
    requires
        marks matches Some(m) ==> m@.len() == left@.len() / 4,
        greys matches Some(g) ==> g@.len() == left@.len() / 4,
    ensures
        match res {
            Ok(d) => {
                let n = rgba_len(width, height);
                &&& n <= usize::MAX
                &&& left@.len() == n
                &&& right@.len() == n
                &&& d.width == width
                &&& d.height == height
                &&& d.different_pixels == count_differing(left@, right@, marks_view(marks), n / 4)
                &&& greys is None ==> d.diff_image is None
                &&& greys matches Some(g) ==> d.diff_image matches Some(out) && painted(out@, left@, right@, marks_view(marks), g@, n / 4)
            },
            Err(e) => if rgba_len(width, height) > usize::MAX {
                e == (DiffError::TooLarge { width, height })
            } else if left@.len() != rgba_len(width, height) {
                e == (DiffError::BufferSize { side: "left", expected: rgba_len(width, height) as usize, actual: left@.len() as usize })
            } else {
                right@.len() != rgba_len(width, height)
                    && e == (DiffError::BufferSize { side: "right", expected: rgba_len(width, height) as usize, actual: right@.len() as usize })
            },
        },
{
    match check_rgba(left, right, width, height) {
        Ok(_) => {},
        Err(e) => return Err(e),
    }
    let (different_pixels, diff_image) = diff_pixels(left, right, marks, greys);
    Ok(ImageDiff { width, height, different_pixels, diff_image })
}

// ---------------------------------------------------------------------------------
// Decoding and encoding

/// What decoding bytes as an image gives: its width, height and 8-bit RGBA pixels, or
/// why it could not be decoded.
pub uninterp spec fn decoded(bytes: Seq<u8>) -> Result<(u32, u32, Seq<u8>), Seq<char>>;

/// Trusted: `image::load_from_memory` guesses the format from the bytes and decodes
/// them, a function of the bytes alone, named [`decoded`]; the image is then converted
/// to 8-bit RGBA and handed out with its dimensions, or the error with its message.
#[verifier::external_body]
fn load_rgba8(bytes: &[u8]) -> (res: Result<(u32, u32, Vec<u8>), String>)
    ensures
        match res {
            Ok((w, h, px)) => decoded(bytes@) == Ok::<(u32, u32, Seq<u8>), Seq<char>>((w, h, px@)),
            Err(m) => decoded(bytes@) == Err::<(u32, u32, Seq<u8>), Seq<char>>(m@),
        },
{
    match image::load_from_memory(bytes) {
        Ok(image) => {
            let rgba = image.into_rgba8();
            let (w, h) = rgba.dimensions();
            Ok((w, h, rgba.into_raw()))
        },
        Err(error) => Err(error.to_string()),
    }
}

/// A decoded image: its size and its 8-bit RGBA pixels, row by row.
#[derive(Clone, Debug, PartialEq, Eq)]
pub struct DecodedImage {
    pub width: u32,
    pub height: u32,
    pub pixels: Vec<u8>,
}

/// Decodes a PNG, JPEG, WebP, GIF or BMP image to 8-bit RGBA.
pub fn decode(bytes: &[u8], side: &'static str) -> (res: Result<DecodedImage, DiffError>)
    ensures
        match decoded(bytes@) {
            Ok((w, h, px)) => res matches Ok(d) && d.width == w && d.height == h && d.pixels@ == px,
            Err(m) => res matches Err(DiffError::Decode { side: s, reason: r }) && s == side && r@ == m,
        },
{
    match load_rgba8(bytes) {
        Ok((width, height, pixels)) => Ok(DecodedImage { width, height, pixels }),
        Err(reason) => Err(DiffError::Decode { side, reason }),
    }
}

/// Checks that two decoded images have the same size.
pub fn check_dimensions(left: &DecodedImage, right: &DecodedImage) -> (res: Result<(), DiffError>)
    ensures
        match res {
            Ok(()) => left.width == right.width && left.height == right.height,
            Err(e) => (left.width != right.width || left.height != right.height)
                && e == (DiffError::DimensionMismatch { left: (left.width, left.height), right: (right.width, right.height) }),
        },
{
    if left.width == right.width && left.height == right.height {
        Ok(())
    } else {
        Err(DiffError::DimensionMismatch { left: (left.width, left.height), right: (right.width, right.height) })
    }
}

/// The PNG that encoding an RGBA image gives, or why it could not be encoded.
pub uninterp spec fn png_encoded(rgba: Seq<u8>, width: u32, height: u32) -> Result<Seq<u8>, Seq<char>>;

/// Trusted: `PngEncoder::write_image`, with fast compression and the `Sub` filter,
/// encodes the pixels as a PNG, a function of the pixels and dimensions alone, named
/// [`png_encoded`]. It panics unless the buffer holds exactly the pixels of those
/// dimensions.
#[verifier::external_body]
fn write_png(rgba: &[u8], width: u32, height: u32) -> (res: Result<Vec<u8>, String>)
    requires
        rgba@.len() == rgba_len(width, height),
    ensures
        match res {
            Ok(png) => png_encoded(rgba@, width, height) == Ok::<Seq<u8>, Seq<char>>(png@),
            Err(m) => png_encoded(rgba@, width, height) == Err::<Seq<u8>, Seq<char>>(m@),
        },
{
    let mut png = Vec::new();
    match PngEncoder::new_with_quality(&mut png, CompressionType::Fast, FilterType::Sub)
        .write_image(rgba, width, height, ExtendedColorType::Rgba8) {
        Ok(()) => Ok(png),
        Err(error) => Err(error.to_string()),
    }
}

/// Encodes an RGBA image, such as [`ImageDiff::diff_image`], as PNG.
pub fn encode_png(rgba: &[u8], width: u32, height: u32) -> (res: Result<Vec<u8>, DiffError>)
    requires
        rgba@.len() == rgba_len(width, height),
    ensures
        match png_encoded(rgba@, width, height) {
            Ok(png) => res matches Ok(p) && p@ == png,
            Err(m) => res matches Err(DiffError::Encode(r)) && r@ == m,
        },
{
    match write_png(rgba, width, height) {
        Ok(png) => Ok(png),
        Err(reason) => Err(DiffError::Encode(reason)),
    }
}

// ---------------------------------------------------------------------------------
// Laws

/// Counting depends only on the pixels counted.
proof fn lemma_count_prefix(l1: Seq<u8>, r1: Seq<u8>, m1: Option<Seq<bool>>, l2: Seq<u8>, r2: Seq<u8>, m2: Option<Seq<bool>>, n: int)
    requires
        forall|i: int| 0 <= i < n ==> #[trigger] differs_at(l1, r1, m1, i) == differs_at(l2, r2, m2, i),
    ensures
        count_differing(l1, r1, m1, n) == count_differing(l2, r2, m2, n),
    decreases n,
{
    if n > 0 {
        lemma_count_prefix(l1, r1, m1, l2, r2, m2, n - 1);
        assert(differs_at(l1, r1, m1, n - 1) == differs_at(l2, r2, m2, n - 1));
    }
}

/// Two images' marks, one after the other.
pub open spec fn joined_marks(m1: Option<Seq<bool>>, m2: Option<Seq<bool>>) -> Option<Seq<bool>> {
    match (m1, m2) {
        (Some(a), Some(b)) => Some(a + b),
        _ => None,
    }
}

/// Counting the second band on from where the first ends.
proof fn lemma_count_shift(
    l1: Seq<u8>, r1: Seq<u8>, m1: Option<Seq<bool>>, n1: int,
    l2: Seq<u8>, r2: Seq<u8>, m2: Option<Seq<bool>>, k: int,
)
    requires
        l1.len() == 4 * n1,
        r1.len() == 4 * n1,
        m1 is Some <==> m2 is Some,
        m1 matches Some(a) ==> a.len() == n1,
        0 <= n1,
        0 <= k,
        4 * k <= l2.len(),
        4 * k <= r2.len(),
        m2 matches Some(b) ==> k <= b.len(),
    ensures
        count_differing(l1 + l2, r1 + r2, joined_marks(m1, m2), n1 + k) == count_differing(l1, r1, m1, n1) + count_differing(l2, r2, m2, k),
    decreases k,
{
    let l = l1 + l2;
    let r = r1 + r2;
    let m = joined_marks(m1, m2);
    if k == 0 {
        assert forall|i: int| 0 <= i < n1 implies #[trigger] differs_at(l, r, m, i) == differs_at(l1, r1, m1, i) by {
            assert(pixel_at(l, i) =~= pixel_at(l1, i));
            assert(pixel_at(r, i) =~= pixel_at(r1, i));
        }
        lemma_count_prefix(l, r, m, l1, r1, m1, n1);
    } else {
        lemma_count_shift(l1, r1, m1, n1, l2, r2, m2, k - 1);
        let i = n1 + k - 1;
        assert(pixel_at(l, i) =~= pixel_at(l2, k - 1));
        assert(pixel_at(r, i) =~= pixel_at(r2, k - 1));
        assert(differs_at(l, r, m, i) == differs_at(l2, r2, m2, k - 1));
    }
}

/// Splitting two images into bands of whole pixels and adding up the bands' counts
/// gives the count of the whole images.
pub proof fn lemma_bands(l1: Seq<u8>, r1: Seq<u8>, m1: Option<Seq<bool>>, l2: Seq<u8>, r2: Seq<u8>, m2: Option<Seq<bool>>)
    requires
        l1.len() == r1.len(),
        l2.len() == r2.len(),
        l1.len() % 4 == 0,
        l2.len() % 4 == 0,
        m1 is Some <==> m2 is Some,
        m1 matches Some(a) ==> a.len() == l1.len() / 4,
        m2 matches Some(b) ==> b.len() == l2.len() / 4,
    ensures
        count_differing(l1 + l2, r1 + r2, joined_marks(m1, m2), ((l1.len() + l2.len()) / 4) as int)
            == count_differing(l1, r1, m1, (l1.len() / 4) as int) + count_differing(l2, r2, m2, (l2.len() / 4) as int),
{
    let n1 = l1.len() / 4;
    let n2 = l2.len() / 4;
    assert((l1.len() + l2.len()) / 4 == n1 + n2);
    lemma_count_shift(l1, r1, m1, n1 as int, l2, r2, m2, n2 as int);
}

/// An image compared with itself has no differing pixels, whatever the tolerance.
pub proof fn lemma_same_pixels(pixels: Seq<u8>, marks: Option<Seq<bool>>, n: int)
    ensures
        count_differing(pixels, pixels, marks, n) == 0,
    decreases n,
{
    if n > 0 {
        lemma_same_pixels(pixels, marks, n - 1);
    }
}

/// Forgiving fewer pixels never counts fewer: with no tolerance, every pixel that
/// differs in its bytes counts, at least as many as any tolerance lets through.
pub proof fn lemma_exact_counts_most(left: Seq<u8>, right: Seq<u8>, marks: Seq<bool>, n: int)
    ensures
        count_differing(left, right, Some(marks), n) <= count_differing(left, right, None, n),
    decreases n,
{
    if n > 0 {
        lemma_exact_counts_most(left, right, marks, n - 1);
    }
}

/// No more pixels differ than there are.
pub proof fn lemma_count_bound(left: Seq<u8>, right: Seq<u8>, marks: Option<Seq<bool>>, n: int)
    requires
        0 <= n,
    ensures
        count_differing(left, right, marks, n) <= n,
    decreases n,
{
    if n > 0 {
        lemma_count_bound(left, right, marks, n - 1);
    }
}

/// The first band's marks, when there are marks.
pub open spec fn first_marks(marks: Option<Seq<Seq<bool>>>) -> Option<Seq<bool>> {
    match marks {
        Some(ms) => Some(ms.first()),
        None => None,
    }
}

/// The marks of the bands after the first, when there are marks.
pub open spec fn rest_marks(marks: Option<Seq<Seq<bool>>>) -> Option<Seq<Seq<bool>>> {
    match marks {
        Some(ms) => Some(ms.drop_first()),
        None => None,
    }
}

/// All bands' marks, one after the other, when there are marks.
pub open spec fn flat_marks(marks: Option<Seq<Seq<bool>>>) -> Option<Seq<bool>> {
    match marks {
        Some(ms) => Some(ms.flatten()),
        None => None,
    }
}

/// The counts of a list of bands, added up.
pub open spec fn band_counts(lefts: Seq<Seq<u8>>, rights: Seq<Seq<u8>>, marks: Option<Seq<Seq<bool>>>) -> nat
    decreases lefts.len(),
{
    if lefts.len() == 0 {
        0
    } else {
        count_differing(lefts.first(), rights.first(), first_marks(marks), (lefts.first().len() / 4) as int)
            + band_counts(lefts.drop_first(), rights.drop_first(), rest_marks(marks))
    }
}

/// Splitting two images into any number of bands of whole pixels, and adding up the
/// bands' counts, gives the count of the whole images.
pub proof fn lemma_any_bands(lefts: Seq<Seq<u8>>, rights: Seq<Seq<u8>>, marks: Option<Seq<Seq<bool>>>)
    requires
        lefts.len() == rights.len(),
        forall|k: int| 0 <= k < lefts.len() ==> (#[trigger] lefts[k]).len() == rights[k].len() && lefts[k].len() % 4 == 0,
        marks matches Some(ms) ==> ms.len() == lefts.len() && forall|k: int| 0 <= k < lefts.len() ==> (#[trigger] ms[k]).len() == lefts[k].len() / 4,
    ensures
        lefts.flatten().len() == rights.flatten().len(),
        lefts.flatten().len() % 4 == 0,
        marks matches Some(ms) ==> ms.flatten().len() == lefts.flatten().len() / 4,
        count_differing(lefts.flatten(), rights.flatten(), flat_marks(marks), (lefts.flatten().len() / 4) as int)
            == band_counts(lefts, rights, marks),
    decreases lefts.len(),
{
    if lefts.len() > 0 {
        let (l0, r0) = (lefts.first(), rights.first());
        let (ls, rs, ms) = (lefts.drop_first(), rights.drop_first(), rest_marks(marks));
        assert(l0 == lefts[0]);
        assert forall|k: int| 0 <= k < ls.len() implies (#[trigger] ls[k]).len() == rs[k].len() && ls[k].len() % 4 == 0 by {
            assert(ls[k] == lefts[k + 1] && rs[k] == rights[k + 1]);
        }
        if let Some(all) = marks {
            assert(all.first() == all[0]);
            assert forall|k: int| 0 <= k < ls.len() implies (#[trigger] all.drop_first()[k]).len() == ls[k].len() / 4 by {
                assert(all.drop_first()[k] == all[k + 1] && ls[k] == lefts[k + 1]);
            }
        }
        lemma_any_bands(ls, rs, ms);
        assert(lefts.flatten() == l0 + ls.flatten());
        assert(rights.flatten() == r0 + rs.flatten());
        if let Some(all) = marks {
            assert(all.flatten() == all.first() + all.drop_first().flatten());
            assert(flat_marks(marks) == joined_marks(first_marks(marks), flat_marks(ms)));
        } else {
            assert(flat_marks(marks) == joined_marks(first_marks(marks), flat_marks(ms)));
        }
        lemma_bands(l0, r0, first_marks(marks), ls.flatten(), rs.flatten(), flat_marks(ms));
    }
}

/// Without marks a pixel counts as different exactly when one of its four bytes
/// differs; with marks, exactly when also its mark is set.
pub proof fn lemma_differs_bytes(left: Seq<u8>, right: Seq<u8>, marks: Option<Seq<bool>>, i: int)
    requires
        0 <= i,
        4 * i + 4 <= left.len(),
        4 * i + 4 <= right.len(),
    ensures
        differs_at(left, right, None, i) <==> (left[4 * i] != right[4 * i] || left[4 * i + 1] != right[4 * i + 1]
            || left[4 * i + 2] != right[4 * i + 2] || left[4 * i + 3] != right[4 * i + 3]),
        marks matches Some(m) ==> (differs_at(left, right, marks, i) <==> (m[i] && (left[4 * i] != right[4 * i]
            || left[4 * i + 1] != right[4 * i + 1] || left[4 * i + 2] != right[4 * i + 2] || left[4 * i + 3] != right[4 * i + 3]))),
{
    let a = pixel_at(left, i);
    let b = pixel_at(right, i);
    assert(a[0] == left[4 * i] && b[0] == right[4 * i]);
    assert(a[1] == left[4 * i + 1] && b[1] == right[4 * i + 1]);
    assert(a[2] == left[4 * i + 2] && b[2] == right[4 * i + 2]);
    assert(a[3] == left[4 * i + 3] && b[3] == right[4 * i + 3]);
    if a[0] == b[0] && a[1] == b[1] && a[2] == b[2] && a[3] == b[3] {
        assert(a =~= b);
    }
}

} // verus!
