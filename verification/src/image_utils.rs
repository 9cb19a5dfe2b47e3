//! Grayscale frame handling: building an image from a raw camera frame,
//! the centered-square crop and intensity histogram behind the quality
//! gate, and aspect-preserving resizing.
use vstd::prelude::*;
use crate::error::Error;

verus! {

/// An axis-aligned box in image-pixel coordinates, tied to the resolution
/// it was computed against.
#[derive(Debug, Clone, Copy, PartialEq, Eq, Structural)]
pub struct Rect {
    pub x: u32,
    pub y: u32,
    pub width: u32,
    pub height: u32,
}

/// A raw single-channel camera frame with its resolution.
#[derive(Debug, Clone)]
pub struct Frame {
    pub data: Vec<u8>,
    pub width: u32,
    pub height: u32,
}

/// A single-channel image in row-major order.
#[derive(Debug, Clone)]
pub struct GrayImage {
    pub width: u32,
    pub height: u32,
    pub pixels: Vec<u8>,
}

impl GrayImage {
    pub open spec fn wf(&self) -> bool {
        self.pixels@.len() == self.width * self.height
    }
}

/// Convert a frame into an image buffer; the buffer must hold exactly one
/// byte per pixel of the stated resolution.
pub fn process_image(frame: Frame) -> (r: Result<GrayImage, Error>)
    ensures
        frame.data@.len() == frame.width * frame.height ==> (r matches Ok(img) && img.width
            == frame.width && img.height == frame.height && img.pixels@ == frame.data@
            && img.wf()),
        frame.data@.len() != frame.width * frame.height ==> r matches Err(Error::Other(_)),
{
    proof {
        assert((frame.width as u64) * (frame.height as u64) <= u64::MAX) by (nonlinear_arith)
            requires
                0 <= frame.width as u64 <= 0xFFFF_FFFFu64,
                0 <= frame.height as u64 <= 0xFFFF_FFFFu64,
        ;
    }
    let expected: u64 = (frame.width as u64) * (frame.height as u64);
    if (frame.data.len() as u64) != expected {
        return Err(Error::Other(String::from_str("frame does not match its resolution")));
    }
    Ok(GrayImage { width: frame.width, height: frame.height, pixels: frame.data })
}

/// The pixels of the largest centered square of a landscape image, in
/// row-major order.
pub open spec fn crop_region(img: GrayImage) -> Seq<u8> {
    let w = img.width as int;
    let h = img.height as int;
    let x0 = (w - h) / 2;
    Seq::new((h * h) as nat, |i: int| img.pixels@[(i / h) * w + x0 + (i % h)])
}

/// Crop the image to its largest centered square. Portrait input is
/// unsupported.
pub fn center_crop(img: &GrayImage) -> (r: GrayImage)
    requires
        img.wf(),
        img.width >= img.height,
        img.height >= 1,
    ensures
        r.width == img.height,
        r.height == img.height,
        r.wf(),
        r.pixels@ == crop_region(*img),
{
    let w = img.width as usize;
    let h = img.height as usize;
    let x0 = (w - h) / 2;
    let ghost cr = crop_region(*img);
    let npix = img.pixels.len();
    let mut out: Vec<u8> = Vec::new();
    let mut y: usize = 0;
    proof {
        assert(cr.len() == (h * h) as nat);
        assert(npix == img.pixels@.len());
    }
    while y < h
        invariant
            y <= h,
            h == img.height,
            w == img.width,
            h >= 1,
            w >= h,
            x0 == (w - h) / 2,
            img.wf(),
            cr == crop_region(*img),
            out@.len() == y * h,
            npix == img.pixels@.len(),
            forall|k: int| 0 <= k < out@.len() ==> out@[k] == cr[k],
        decreases h - y,
    {
        let mut x: usize = 0;
        while x < h
            invariant
                x <= h,
                y < h,
                h == img.height,
                w == img.width,
                h >= 1,
                w >= h,
                x0 == (w - h) / 2,
                img.wf(),
                cr == crop_region(*img),
                out@.len() == y * h + x,
                npix == img.pixels@.len(),
                forall|k: int| 0 <= k < out@.len() ==> out@[k] == cr[k],
            decreases h - x,
        {
            proof {
                assert(x0 + x < w);
                assert(y * w + x0 + x < w * h) by (nonlinear_arith)
                    requires
                        0 <= y < h,
                        0 <= x0 + x < w,
                        w >= 1,
                ;
                assert(w * h == img.pixels@.len());
                assert(y * w + x0 + x < npix);
            }
            let p = img.pixels[y * w + x0 + x];
            proof {
                let k = (y * h + x) as int;
                assert(0 <= k < cr.len()) by (nonlinear_arith)
                    requires
                        0 <= y < h,
                        0 <= x < h,
                        k == y * h + x,
                        cr.len() == h * h,
                ;
                assert(k / (h as int) == y as int && k % (h as int) == x as int) by (
                nonlinear_arith)
                    requires
                        0 <= x < h,
                        0 <= y,
                        h >= 1,
                        k == y * h + x,
                ;
                assert(cr[k] == img.pixels@[y * w + x0 + x]);
            }
            out.push(p);
            x = x + 1;
        }
        proof {
            assert(y * h + h == (y + 1) * h) by (nonlinear_arith);
        }
        y = y + 1;
    }
    proof {
        assert(out@.len() == h * h);
        assert(out@ =~= cr);
    }
    GrayImage { width: img.height, height: img.height, pixels: out }
}

/// Ceiling of `a / b` for positive operands, in the shape the histogram
/// bucketing uses.
pub fn int_ceil(a: usize, b: usize) -> (r: usize)
    requires
        a >= 1,
        b >= 1,
    ensures
        r == (a - 1) / (b as int) + 1,
{
    (a - 1) / b + 1
}

/// The bucket width used for a histogram with the given number of buckets.
pub open spec fn bucket_width(bins: int) -> int {
    254int / bins + 1
}

/// The intensity bucket a pixel value falls into.
pub fn bin<const BINS: usize>(val: u8) -> (r: usize)
    requires
        BINS >= 1,
    ensures
        r == val as int / bucket_width(BINS as int),
{
    let per_bin: u8 = int_ceil(u8::MAX as usize, BINS) as u8;
    (val / per_bin) as usize
}

/// How many pixels of `s` fall into bucket `k` for the given bucket width.
pub open spec fn count_bin(s: Seq<u8>, k: int, per: int) -> nat
    decreases s.len(),
{
    if s.len() == 0 {
        0
    } else {
        count_bin(s.drop_last(), k, per) + if s.last() as int / per == k {
            1nat
        } else {
            0nat
        }
    }
}

proof fn lemma_count_bin_le(s: Seq<u8>, k: int, per: int)
    ensures
        count_bin(s, k, per) <= s.len(),
    decreases s.len(),
{
    if s.len() > 0 {
        lemma_count_bin_le(s.drop_last(), k, per);
    }
}

/// The intensity histogram of a grayscale image.
pub fn gen_hist<const BINS: usize>(img: &GrayImage) -> (r: Vec<usize>)
    requires
        img.wf(),
        BINS >= 1,
        bucket_width(BINS as int) * BINS > 255,
    ensures
        r@.len() == BINS,
        forall|k: int|
            0 <= k < BINS ==> r@[k] == count_bin(img.pixels@, k, bucket_width(BINS as int)),
{
    let ghost per = bucket_width(BINS as int);
    let mut hist: Vec<usize> = Vec::new();
    let mut j: usize = 0;
    while j < BINS
        invariant
            j <= BINS,
            hist@.len() == j,
            forall|k: int| 0 <= k < j ==> hist@[k] == 0,
        decreases BINS - j,
    {
        hist.push(0);
        j = j + 1;
    }
    proof {
        assert(forall|k: int|
            0 <= k < BINS ==> count_bin(img.pixels@.take(0), k, per) == 0nat);
    }
    let mut i: usize = 0;
    while i < img.pixels.len()
        invariant
            i <= img.pixels@.len(),
            img.wf(),
            BINS >= 1,
            per == bucket_width(BINS as int),
            per * BINS > 255,
            hist@.len() == BINS,
            forall|k: int| 0 <= k < BINS ==> hist@[k] == count_bin(img.pixels@.take(i as int), k, per),
        decreases img.pixels@.len() - i,
    {
        let p = img.pixels[i];
        let idx = bin::<BINS>(p);
        proof {
            assert(p as int / per < BINS) by (nonlinear_arith)
                requires
                    per * BINS > 255,
                    0 <= p as int <= 255,
                    per >= 1,
            ;
            assert(img.pixels@.take(i + 1) =~= img.pixels@.take(i as int).push(img.pixels@[i as int]));
            assert forall|k: int| 0 <= k < BINS implies count_bin(
                img.pixels@.take(i + 1),
                k,
                per,
            ) == count_bin(img.pixels@.take(i as int), k, per) + (if p as int / per == k {
                1nat
            } else {
                0nat
            }) by {
                assert(img.pixels@.take(i + 1).drop_last() =~= img.pixels@.take(i as int));
            }
            lemma_count_bin_le(img.pixels@.take(i as int), idx as int, per);
        }
        let c = hist[idx];
        hist[idx] = c + 1;
        i = i + 1;
    }
    proof {
        assert(img.pixels@.take(img.pixels@.len() as int) =~= img.pixels@);
    }
    hist
}

/// Whether a frame is too dark to encode: the fraction of center-crop
/// pixels in the darkest of twelve intensity buckets is at least the
/// threshold percentage.
pub open spec fn is_dark_spec(img: GrayImage, threshold_percent: u32) -> bool {
    100 * count_bin(crop_region(img), 0, 22) as int / ((img.height * img.height) as int)
        >= threshold_percent as int
}

/// The quality gate: reject a frame whose centered square is dominated by
/// the darkest intensity bucket.
pub fn is_dark(img: &GrayImage, threshold_percent: u32) -> (r: bool)
    requires
        img.wf(),
        img.width >= img.height,
        img.height >= 1,
    ensures
        r == is_dark_spec(*img, threshold_percent),
{
    let cropped = center_crop(img);
    let hist = gen_hist::<12>(&cropped);
    proof {
        assert(bucket_width(12) == 22);
        assert(bucket_width(12) * 12 > 255);
    }
    let dark: usize = hist[0];
    proof {
        assert((img.height as u64) * (img.height as u64) <= u64::MAX && (img.height as u64) * (
        img.height as u64) >= 1) by (nonlinear_arith)
            requires
                1 <= img.height as u64 <= 0xFFFF_FFFFu64,
        ;
    }
    let total: u64 = (img.height as u64) * (img.height as u64);
    proof {
        assert(cropped.pixels@.len() == img.height * img.height);
        lemma_count_bin_le(cropped.pixels@, 0, 22);
    }
    let pct: u128 = (dark as u128) * 100 / (total as u128);
    proof {
        assert((dark as u128) * 100 <= u128::MAX) by (nonlinear_arith)
            requires
                0 <= dark as u128 <= 0xFFFF_FFFF_FFFF_FFFFu128,
        ;
        assert(100 * (dark as int) == (dark as int) * 100);
    }
    pct >= threshold_percent as u128
}

/// A dark frame is always rejected: when every center-crop pixel lies in
/// the darkest bucket, any threshold up to one hundred percent flags the
/// frame.
pub proof fn lemma_dark_frame_rejected(img: GrayImage, threshold_percent: u32)
    requires
        img.wf(),
        img.width >= img.height,
        img.height >= 1,
        threshold_percent <= 100,
        forall|k: int| 0 <= k < crop_region(img).len() ==> (#[trigger] crop_region(img)[k]) < 22,
    ensures
        is_dark_spec(img, threshold_percent),
{
    let cr = crop_region(img);
    lemma_count_bin_all(cr, 22);
    let n = (img.height * img.height) as int;
    assert(n >= 1) by (nonlinear_arith)
        requires
            n == (img.height * img.height) as int,
            img.height >= 1,
    ;
    assert(cr.len() == n);
    assert(count_bin(cr, 0, 22) == n);
    assert(100 * n / n == 100) by (nonlinear_arith)
        requires
            n >= 1,
    ;
}

/// A bright frame always passes: with no center-crop pixel in the darkest
/// bucket, any positive threshold accepts the frame.
pub proof fn lemma_bright_frame_passes(img: GrayImage, threshold_percent: u32)
    requires
        img.wf(),
        img.width >= img.height,
        img.height >= 1,
        threshold_percent >= 1,
        forall|k: int| 0 <= k < crop_region(img).len() ==> (#[trigger] crop_region(img)[k]) >= 22,
    ensures
        !is_dark_spec(img, threshold_percent),
{
    let cr = crop_region(img);
    lemma_count_bin_none(cr, 22);
    let n = (img.height * img.height) as int;
    assert(n >= 1) by (nonlinear_arith)
        requires
            n == (img.height * img.height) as int,
            img.height >= 1,
    ;
    assert(count_bin(cr, 0, 22) == 0);
    assert(100 * 0int / n == 0) by (nonlinear_arith)
        requires
            n >= 1,
    ;
}

proof fn lemma_count_bin_all(s: Seq<u8>, per: int)
    requires
        per >= 1,
        forall|k: int| 0 <= k < s.len() ==> (#[trigger] s[k]) < per,
    ensures
        count_bin(s, 0, per) == s.len(),
    decreases s.len(),
{
    if s.len() > 0 {
        assert forall|k: int| 0 <= k < s.drop_last().len() implies (#[trigger] s.drop_last()[k])
            < per by {
            assert(s[k] < per);
        }
        lemma_count_bin_all(s.drop_last(), per);
        let lv = s.last() as int;
        assert(0 <= lv < per);
        assert(lv / per == 0) by (nonlinear_arith)
            requires
                0 <= lv < per,
                per >= 1,
        ;
    }
}

proof fn lemma_count_bin_none(s: Seq<u8>, per: int)
    requires
        per >= 1,
        forall|k: int| 0 <= k < s.len() ==> (#[trigger] s[k]) >= per,
    ensures
        count_bin(s, 0, per) == 0,
    decreases s.len(),
{
    if s.len() > 0 {
        assert forall|k: int| 0 <= k < s.drop_last().len() implies (#[trigger] s.drop_last()[k])
            >= per by {
            assert(s[k] >= per);
        }
        lemma_count_bin_none(s.drop_last(), per);
        let lv = s.last() as int;
        assert(lv >= per);
        assert(lv / per >= 1) by (nonlinear_arith)
            requires
                lv >= per,
                per >= 1,
        ;
    }
}

/// What nearest-neighbor resampling of a grayscale buffer to the target
/// dimensions produces; the result depends on the source pixels and the
/// geometries alone.
pub uninterp spec fn gray_resize(pixels: Seq<u8>, w: nat, h: nat, tw: nat, th: nat) -> Seq<u8>;

/// Relies on `image::imageops::resize` with the nearest-neighbor filter:
/// the output buffer has exactly the target dimensions, and its content is
/// a function of the source pixels and the geometries alone.
#[verifier::external_body]
fn resize_gray(img: &GrayImage, tw: u32, th: u32) -> (r: GrayImage)
    requires
        img.wf(),
        img.width >= 1,
        img.height >= 1,
        tw >= 1,
        th >= 1,
    ensures
        r.width == tw,
        r.height == th,
        r.wf(),
        r.pixels@ == gray_resize(
            img.pixels@,
            img.width as nat,
            img.height as nat,
            tw as nat,
            th as nat,
        ),
{
    let buf = image::ImageBuffer::<image::Luma<u8>, Vec<u8>>::from_raw(
        img.width,
        img.height,
        img.pixels.clone(),
    ).unwrap();
    let out = image::imageops::resize(&buf, tw, th, image::imageops::FilterType::Nearest);
    GrayImage { width: tw, height: th, pixels: out.into_raw() }
}

/// The height that preserves the aspect ratio at the target width,
/// rounded to nearest and clamped into the valid range.
pub open spec fn aspect_height(w: int, h: int, tw: int) -> int {
    let th = (2 * tw * h + w) / (2 * w);
    if th == 0 {
        1
    } else if th > u32::MAX {
        u32::MAX as int
    } else {
        th
    }
}

/// Resize to the target width preserving the aspect ratio.
pub fn resize_to_width(img: &GrayImage, target_width: u32) -> (r: GrayImage)
    requires
        img.wf(),
        img.width >= 1,
        img.height >= 1,
        target_width >= 1,
    ensures
        r.width == target_width,
        r.height == aspect_height(img.width as int, img.height as int, target_width as int),
        r.wf(),
        r.pixels@ == gray_resize(
            img.pixels@,
            img.width as nat,
            img.height as nat,
            target_width as nat,
            r.height as nat,
        ),
{
    let w = img.width as u128;
    let h = img.height as u128;
    let tw = target_width as u128;
    proof {
        assert(2 * tw * h + w <= u128::MAX) by (nonlinear_arith)
            requires
                0 <= tw <= 0xFFFF_FFFFu128,
                0 <= h <= 0xFFFF_FFFFu128,
                0 <= w <= 0xFFFF_FFFFu128,
        ;
    }
    let th0: u128 = (2 * tw * h + w) / (2 * w);
    let th: u32 = if th0 == 0 {
        1
    } else if th0 > u32::MAX as u128 {
        u32::MAX
    } else {
        th0 as u32
    };
    proof {
        assert(th == aspect_height(img.width as int, img.height as int, target_width as int));
    }
    resize_gray(img, target_width, th)
}

} // verus!
