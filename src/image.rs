use vstd::prelude::*;

verus! {

/// An RGBA raster, four bytes per pixel, stored row by row from the top.
pub struct Image {
    pub width: u32,
    pub height: u32,
    pub bytes: Vec<u8>,
}

/// The error that PNG encoding reports.
#[verifier::external_type_specification]
#[verifier::external_body]
pub struct ExEncodingError(png::EncodingError);

/// Why a raster could not be turned into a file's bytes.
#[derive(Debug, Clone, Copy, PartialEq, Eq)]
pub enum ImageError {
    /// The encoder refused the raster or failed while writing it.
    Encoding,
}

/// The PNG file that encodes an 8-bit RGBA raster of the given size.
pub uninterp spec fn png_rgba8_of(width: u32, height: u32, data: Seq<u8>) -> Seq<u8>;

/// Relies on png's `Encoder` and `Writer` (color type RGBA, bit depth 8), writing
/// into a `Vec`: the file depends on the size and the bytes alone; a zero width or
/// height, or a buffer whose length is not four bytes per pixel, is refused, and
/// nothing else on that path fails. The size bound keeps png's own buffer-size
/// computation from overflowing.
#[verifier::external_body]
fn png_encode_rgba8(width: u32, height: u32, data: &[u8]) -> (r: Result<Vec<u8>, png::EncodingError>)
    requires
        width * height * 4 <= u32::MAX,
    ensures
        r matches Ok(b) ==> b@ == png_rgba8_of(width, height, data@),
        width == 0 || height == 0 || data@.len() != 4 * width * height ==> r is Err,
        width > 0 && height > 0 && data@.len() == 4 * width * height ==> r is Ok,
{
    let mut out: Vec<u8> = Vec::new();
    {
        let mut encoder = png::Encoder::new(&mut out, width, height);
        encoder.set_color(png::ColorType::Rgba);
        encoder.set_depth(png::BitDepth::Eight);
        let mut writer = encoder.write_header()?;
        writer.write_image_data(data)?;
        writer.finish()?;
    }
    Ok(out)
}

/// Byte offset of pixel `(x, y)` in a raster of the given width.
pub open spec fn pixel_offset(width: nat, x: nat, y: nat) -> nat {
    4 * (y * width + x)
}

/// The byte that a freshly blanked raster holds at offset `i`: opaque black.
pub open spec fn blank_byte(i: int) -> u8 {
    if i % 4 == 3 { 255 } else { 0 }
}

/// Distinct pixels of a raster have distinct, in-bounds indices.
proof fn lemma_pixel_index(width: nat, height: nat, x1: nat, y1: nat, x2: nat, y2: nat)
    requires
        x1 < width,
        x2 < width,
        y1 < height,
        y2 < height,
    ensures
        y1 * width + x1 < width * height,
        y1 * width + x1 == y2 * width + x2 ==> x1 == x2 && y1 == y2,
{
    assert(y1 * width + x1 < width * height) by (nonlinear_arith)
        requires
            x1 < width,
            y1 < height,
    ;
    assert(y1 * width + x1 == y2 * width + x2 ==> x1 == x2 && y1 == y2) by (nonlinear_arith)
        requires
            x1 < width,
            x2 < width,
    ;
}

impl Image {
    /// The buffer holds exactly four bytes for each pixel, and its size fits in `u32`.
    pub open spec fn wf(&self) -> bool {
        &&& self.width * self.height * 4 <= u32::MAX
        &&& self.bytes@.len() == self.width * self.height * 4
    }

    /// The four bytes of pixel `(x, y)`.
    pub open spec fn pixel(&self, x: nat, y: nat) -> Seq<u8> {
        let o = pixel_offset(self.width as nat, x, y) as int;
        self.bytes@.subrange(o, o + 4)
    }

    /// A raster of the given size with every pixel opaque black.
    pub fn blank(width: u32, height: u32) -> (r: Image)
        requires
            width * height * 4 <= u32::MAX,
        ensures
            r.wf(),
            r.width == width,
            r.height == height,
            forall|i: int| 0 <= i < r.bytes@.len() ==> r.bytes@[i] == blank_byte(i),
    {
        let n: u32 = width * height;
        let mut bytes: Vec<u8> = Vec::with_capacity((n * 4) as usize);
        let mut k: u32 = 0;
        while k < n
            invariant
                k <= n,
                n == width * height,
                bytes@.len() == 4 * k,
                forall|i: int| 0 <= i < bytes@.len() ==> bytes@[i] == blank_byte(i),
            decreases n - k,
        {
            bytes.push(0);
            bytes.push(0);
            bytes.push(0);
            bytes.push(255);
            k = k + 1;
        }
        Image { width, height, bytes }
    }

    /// Overwrites the four bytes of pixel `(x, y)` with `rgba`.
    pub fn write_to_pixel(&mut self, x: u32, y: u32, rgba: [u8; 4])
        requires
            old(self).wf(),
            x < old(self).width,
            y < old(self).height,
        ensures
            final(self).wf(),
            final(self).width == old(self).width,
            final(self).height == old(self).height,
            final(self).bytes@.len() == old(self).bytes@.len(),
            forall|i: int|
                0 <= i < final(self).bytes@.len() ==> final(self).bytes@[i] == {
                    let o = pixel_offset(old(self).width as nat, x as nat, y as nat) as int;
                    if o <= i < o + 4 {
                        rgba@[i - o]
                    } else {
                        old(self).bytes@[i]
                    }
                },
            forall|px: nat, py: nat|
                px < old(self).width && py < old(self).height ==> #[trigger] final(self).pixel(px, py)
                    == if px == x && py == y {
                    rgba@
                } else {
                    old(self).pixel(px, py)
                },
    {
        proof {
            assert(y * self.width + x < self.width * self.height) by (nonlinear_arith)
                requires
                    x < self.width,
                    y < self.height,
            ;
        }
        let index: usize = ((y * self.width) + x) as usize * 4;
        self.bytes.set(index, rgba[0]);
        self.bytes.set(index + 1, rgba[1]);
        self.bytes.set(index + 2, rgba[2]);
        self.bytes.set(index + 3, rgba[3]);
        proof {
            assert forall|px: nat, py: nat|
                px < self.width && py < self.height implies #[trigger] self.pixel(px, py) == if px == x
                && py == y {
                rgba@
            } else {
                old(self).pixel(px, py)
            } by {
                lemma_pixel_index(self.width as nat, self.height as nat, px, py, x as nat, y as nat);
                if px == x && py == y {
                    assert(self.pixel(px, py) =~= rgba@);
                } else {
                    assert(self.pixel(px, py) =~= old(self).pixel(px, py));
                }
            }
        }
    }

    /// The raster as the bytes of a PNG file: refused exactly when the raster is
    /// empty or its buffer does not hold four bytes per pixel.
    pub fn encode_png(&self) -> (r: Result<Vec<u8>, ImageError>)
        requires
            self.width * self.height * 4 <= u32::MAX,
        ensures
            self.width > 0 && self.height > 0 && self.bytes@.len() == 4 * self.width * self.height
                ==> (r matches Ok(b) && b@ == png_rgba8_of(self.width, self.height, self.bytes@)),
            self.width == 0 || self.height == 0 || self.bytes@.len() != 4 * self.width
                * self.height ==> r == Err::<Vec<u8>, ImageError>(ImageError::Encoding),
    {
        match png_encode_rgba8(self.width, self.height, self.bytes.as_slice()) {
            Ok(b) => Ok(b),
            Err(_) => Err(ImageError::Encoding),
        }
    }
}

} // verus!
