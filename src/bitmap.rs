use vstd::prelude::*;
use crate::block::copy_range;

verus! {

/// The RGB image that a PNG file decodes to: width, height and three bytes
/// per pixel, row by row; `None` if the bytes are not a valid PNG file.
pub uninterp spec fn png_pixels(data: Seq<u8>) -> Option<(u32, u32, Seq<u8>)>;

/// Relies on `image::load_from_memory_with_format` with `ImageFormat::Png`,
/// then `DynamicImage::to_rgb8`: the decoded image depends on the bytes alone,
/// and `to_rgb8` fills a buffer of exactly three bytes per pixel.
#[verifier::external_body]
fn decode_png(data: &[u8]) -> (r: Option<(u32, u32, Vec<u8>)>)
    ensures
        match r {
            Some((w, h, px)) => png_pixels(data@) == Some((w, h, px@)) && px@.len() == w * h * 3,
            None => png_pixels(data@) is None,
        },
{
    match image::load_from_memory_with_format(data, image::ImageFormat::Png) {
        Ok(img) => {
            let rgb = img.to_rgb8();
            Some((rgb.width(), rgb.height(), rgb.into_raw()))
        },
        Err(_) => None,
    }
}

/// A decoded screen capture: RGB pixels, three bytes each, row by row.
#[derive(Debug)]
pub struct Bitmap {
    width: u32,
    height: u32,
    data: Vec<u8>,
}

impl Bitmap {
    #[verifier::type_invariant]
    spec fn inv(&self) -> bool {
        self.data@.len() == self.width * self.height * 3
    }

    pub closed spec fn spec_width(&self) -> u32 {
        self.width
    }

    pub closed spec fn spec_height(&self) -> u32 {
        self.height
    }

    pub closed spec fn spec_data(&self) -> Seq<u8> {
        self.data@
    }

    /// Three bytes for each of the `width * height` pixels.
    pub open spec fn wf(&self) -> bool {
        self.spec_data().len() == self.spec_width() * self.spec_height() * 3
    }

    /// Decodes PNG bytes into a bitmap; `None` if they are not a valid PNG.
    pub fn new_from_png(data: Vec<u8>) -> (r: Option<Bitmap>)
        ensures
            match r {
                Some(b) => b.wf() && png_pixels(data@) == Some(
                    (b.spec_width(), b.spec_height(), b.spec_data()),
                ),
                None => png_pixels(data@) is None,
            },
    {
        match decode_png(data.as_slice()) {
            Some((width, height, px)) => Some(Bitmap { width, height, data: px }),
            None => None,
        }
    }

    pub fn width(&self) -> (r: u32)
        ensures
            r == self.spec_width(),
            self.wf(),
    {
        proof {
            use_type_invariant(self);
        }
        self.width
    }

    pub fn height(&self) -> (r: u32)
        ensures
            r == self.spec_height(),
            self.wf(),
    {
        proof {
            use_type_invariant(self);
        }
        self.height
    }

    pub fn data(&self) -> (r: &[u8])
        ensures
            r@ == self.spec_data(),
            self.wf(),
    {
        proof {
            use_type_invariant(self);
        }
        self.data.as_slice()
    }
}

impl Clone for Bitmap {
    fn clone(&self) -> (r: Bitmap)
        ensures
            r.spec_width() == self.spec_width(),
            r.spec_height() == self.spec_height(),
            r.spec_data() == self.spec_data(),
    {
        proof {
            use_type_invariant(self);
        }
        Bitmap {
            width: self.width,
            height: self.height,
            data: copy_range(self.data.as_slice(), 0, self.data.len()),
        }
    }
}

} // verus!
