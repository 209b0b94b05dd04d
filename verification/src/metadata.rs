//! Applying decoded image data and descriptive metadata to a photo record.
//!
//! Callers decode the image and read its descriptive fields; this module
//! holds the verified computation on the decoded values: the average color
//! of the pixels and the normalization of the field texts.

use vstd::prelude::*;

use crate::photo::Photo;
use crate::strutil::push_char;

verus! {

/// Descriptive fields read from an image file, as displayed text. A missing
/// field leaves the photo's value unchanged.
#[derive(Debug)]
pub struct ExifFields {
    pub date_taken: Option<String>,
    pub camera_model: Option<String>,
    pub lens_model: Option<String>,
    pub focal_length: Option<String>,
    pub aperture: Option<String>,
    pub exposure_time: Option<String>,
    pub sensitivity: Option<String>,
}

/// A field text without one leading and one trailing double quote.
pub open spec fn spec_remove_quotes(s: Seq<char>) -> Seq<char> {
    let s1 = if s.len() > 0 && s[0] == '"' {
        s.drop_first()
    } else {
        s
    };
    if s1.len() > 0 && s1[s1.len() - 1] == '"' {
        s1.drop_last()
    } else {
        s1
    }
}

/// Strip one leading and one trailing double quote from a field text.
pub fn remove_quotes(value: &str) -> (r: String)
    ensures
        r@ == spec_remove_quotes(value@),
{
    let n = value.unicode_len();
    let from: usize = if n > 0 && value.get_char(0) == '"' {
        1
    } else {
        0
    };
    let to: usize = if n > from && value.get_char(n - 1) == '"' {
        n - 1
    } else {
        n
    };
    let r = value.substring_char(from, to).to_owned();
    proof {
        let s = value@;
        let s1 = if s.len() > 0 && s[0] == '"' {
            s.drop_first()
        } else {
            s
        };
        assert(s1 =~= s.subrange(from as int, s.len() as int));
        if s1.len() > 0 && s1[s1.len() - 1] == '"' {
            assert(s1.drop_last() =~= s.subrange(from as int, to as int));
        } else {
            assert(s1 =~= s.subrange(from as int, to as int));
        }
    }
    r
}

/// Sum of every `n`-th sample of channel `c`: the bytes at offsets
/// `3 * k + c` for `k < n`.
pub open spec fn sum_channel(p: Seq<u8>, c: int, n: int) -> int
    decreases n,
{
    if n <= 0 {
        0
    } else {
        sum_channel(p, c, n - 1) + p[3 * (n - 1) + c]
    }
}

/// The darkened average of channel `c` over interleaved RGB samples:
/// the mean sample value, divided by the darkening factor of 6.
pub open spec fn channel_shade(p: Seq<u8>, c: int) -> int {
    sum_channel(p, c, p.len() as int / 3) / (p.len() as int / 3) / 6
}

/// The lower-case hex digit of a value below 16.
pub open spec fn hex_digit(d: int) -> char {
    if d < 10 {
        (48 + d) as char
    } else {
        (87 + d) as char
    }
}

/// A value below 256 as two lower-case hex digits.
pub open spec fn hex_byte(v: int) -> Seq<char> {
    seq![hex_digit(v / 16), hex_digit(v % 16)]
}

/// The average color of interleaved RGB samples, darkened, as six
/// lower-case hex digits.
pub open spec fn spec_average_color(p: Seq<u8>) -> Seq<char> {
    hex_byte(channel_shade(p, 0)) + hex_byte(channel_shade(p, 1)) + hex_byte(channel_shade(p, 2))
}

proof fn lemma_sum_channel_bound(p: Seq<u8>, c: int, n: int)
    requires
        n >= 0,
    ensures
        0 <= sum_channel(p, c, n) <= 255 * n,
    decreases n,
{
    if n > 0 {
        lemma_sum_channel_bound(p, c, n - 1);
    }
}

/// Append the two hex digits of a value below 256.
fn push_hex_byte(s: &mut String, v: u64)
    requires
        v < 256,
    ensures
        final(s)@ == old(s)@ + hex_byte(v as int),
{
    let hi = v / 16;
    let lo = v % 16;
    let c_hi = if hi < 10 {
        ((48 + hi) as u8) as char
    } else {
        ((87 + hi) as u8) as char
    };
    let c_lo = if lo < 10 {
        ((48 + lo) as u8) as char
    } else {
        ((87 + lo) as u8) as char
    };
    push_char(s, c_hi);
    push_char(s, c_lo);
    proof {
        assert(final(s)@ =~= old(s)@ + hex_byte(v as int));
    }
}

/// The average color of an image given as interleaved RGB samples, darkened
/// for use as a background, as six lower-case hex digits.
pub fn average_color(pixels: &Vec<u8>) -> (r: String)
    requires
        pixels@.len() >= 3,
        pixels@.len() < 0x1000_0000_0000,
    ensures
        r@ == spec_average_color(pixels@),
        r@.len() == 6,
{
    let n_pixels = pixels.len() / 3;
    let mut sum_r: u64 = 0;
    let mut sum_g: u64 = 0;
    let mut sum_b: u64 = 0;
    let mut i: usize = 0;
    while i < n_pixels
        invariant
            n_pixels == pixels@.len() / 3,
            pixels@.len() < 0x1000_0000_0000,
            n_pixels <= usize::MAX / 3,
            0 <= i <= n_pixels,
            sum_r == sum_channel(pixels@, 0, i as int),
            sum_g == sum_channel(pixels@, 1, i as int),
            sum_b == sum_channel(pixels@, 2, i as int),
            sum_r <= 255 * i,
            sum_g <= 255 * i,
            sum_b <= 255 * i,
        decreases n_pixels - i,
    {
        proof {
            assert(pixels@.len() == 3 * (pixels@.len() / 3) + pixels@.len() % 3);
            assert(3 * ((i as int) + 1) <= 3 * (pixels@.len() / 3));
        }
        let offset = i * 3;
        proof {
            assert(offset + 2 < pixels@.len());
        }
        sum_r = sum_r + pixels[offset] as u64;
        sum_g = sum_g + pixels[offset + 1] as u64;
        sum_b = sum_b + pixels[offset + 2] as u64;
        proof {
            assert(3 * (i as int) + 0 == offset);
        }
        i = i + 1;
    }
    let avg_r = sum_r / n_pixels as u64 / 6;
    let avg_g = sum_g / n_pixels as u64 / 6;
    let avg_b = sum_b / n_pixels as u64 / 6;
    proof {
        lemma_sum_channel_bound(pixels@, 0, n_pixels as int);
        lemma_sum_channel_bound(pixels@, 1, n_pixels as int);
        lemma_sum_channel_bound(pixels@, 2, n_pixels as int);
        assert(sum_r / (n_pixels as u64) <= 255) by (nonlinear_arith)
            requires
                sum_r <= 255 * n_pixels,
                n_pixels >= 1,
        ;
        assert(sum_g / (n_pixels as u64) <= 255) by (nonlinear_arith)
            requires
                sum_g <= 255 * n_pixels,
                n_pixels >= 1,
        ;
        assert(sum_b / (n_pixels as u64) <= 255) by (nonlinear_arith)
            requires
                sum_b <= 255 * n_pixels,
                n_pixels >= 1,
        ;
    }
    let mut r = String::new();
    push_hex_byte(&mut r, avg_r);
    push_hex_byte(&mut r, avg_g);
    push_hex_byte(&mut r, avg_b);
    proof {
        assert(r@ =~= spec_average_color(pixels@));
    }
    r
}

impl Photo {
    /// Record decoded image data on the photo: dimensions, the average
    /// color computed from the pixels, and any descriptive fields that were
    /// read, each with one surrounding pair of quotes stripped. Marks the
    /// metadata as parsed. Every other field keeps its value.
    pub fn apply_metadata(
        &mut self,
        width: u32,
        height: u32,
        pixels: &Vec<u8>,
        exif: &ExifFields,
    )
        requires
            pixels@.len() >= 3,
            pixels@.len() < 0x1000_0000_0000,
        ensures
            final(self).width == width,
            final(self).height == height,
            final(self).color@ == spec_average_color(pixels@),
            final(self).metadata_parsed,
            final(self).date_taken@ == (match exif.date_taken {
                Some(ref v) => spec_remove_quotes(v@),
                None => old(self).date_taken@,
            }),
            final(self).camera_model@ == (match exif.camera_model {
                Some(ref v) => spec_remove_quotes(v@),
                None => old(self).camera_model@,
            }),
            final(self).lens_model@ == (match exif.lens_model {
                Some(ref v) => spec_remove_quotes(v@),
                None => old(self).lens_model@,
            }),
            final(self).focal_length@ == (match exif.focal_length {
                Some(ref v) => spec_remove_quotes(v@),
                None => old(self).focal_length@,
            }),
            final(self).aperture@ == (match exif.aperture {
                Some(ref v) => spec_remove_quotes(v@),
                None => old(self).aperture@,
            }),
            final(self).exposure_time@ == (match exif.exposure_time {
                Some(ref v) => spec_remove_quotes(v@),
                None => old(self).exposure_time@,
            }),
            final(self).sensitivity@ == (match exif.sensitivity {
                Some(ref v) => spec_remove_quotes(v@),
                None => old(self).sensitivity@,
            }),
            final(self).id == old(self).id,
            final(self).filename == old(self).filename,
            final(self).path == old(self).path,
            final(self).full_path == old(self).full_path,
            final(self).uid == old(self).uid,
            final(self).md5 == old(self).md5,
            final(self).sort_order == old(self).sort_order,
            final(self).hidden == old(self).hidden,
            final(self).title == old(self).title,
            final(self).place == old(self).place,
    {
        self.width = width;
        self.height = height;
        self.color = average_color(pixels);
        match &exif.date_taken {
            Some(v) => {
                self.date_taken = remove_quotes(v.as_str());
            },
            None => {},
        }
        match &exif.camera_model {
            Some(v) => {
                self.camera_model = remove_quotes(v.as_str());
            },
            None => {},
        }
        match &exif.lens_model {
            Some(v) => {
                self.lens_model = remove_quotes(v.as_str());
            },
            None => {},
        }
        match &exif.focal_length {
            Some(v) => {
                self.focal_length = remove_quotes(v.as_str());
            },
            None => {},
        }
        match &exif.aperture {
            Some(v) => {
                self.aperture = remove_quotes(v.as_str());
            },
            None => {},
        }
        match &exif.exposure_time {
            Some(v) => {
                self.exposure_time = remove_quotes(v.as_str());
            },
            None => {},
        }
        match &exif.sensitivity {
            Some(v) => {
                self.sensitivity = remove_quotes(v.as_str());
            },
            None => {},
        }
        self.metadata_parsed = true;
    }
}

} // verus!
