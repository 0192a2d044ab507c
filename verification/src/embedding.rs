//! What a crop of an image looks like, counted pixel by pixel.
//!
//! Images are rows of pixels of three bytes: red, green, blue. The counts are the raw
//! material of a look; scaling and comparing them is left to the caller.
use vstd::arithmetic::div_mod::lemma_fundamental_div_mod;
use vstd::arithmetic::power2::lemma2_to64_rest;
use vstd::prelude::*;
use crate::reading::{lemma_is_nearest, stamp_is, Stamp};

verus! {

/// The smallest crop worth looking at.
pub const MIN_CROP_W: u32 = 20;

pub const MIN_CROP_H: u32 = 40;

/// How many numbers a look has.
pub const EMBEDDING_SIZE: usize = 64;

/// Up to this brightness a scene is dark (0.3).
pub const DARK_THRESHOLD: Stamp = 0x3fd3_3333_3333_3333;

/// The steepness, squared, above which an edge is strong.
pub const STRONG_EDGE: i32 = 900;

/// A part of an image.
#[derive(Debug, Clone, Copy, PartialEq, Eq, Structural)]
pub struct Crop {
    pub x0: u32,
    pub y0: u32,
    pub width: u32,
    pub height: u32,
}

/// A pixel of a crop: where its bytes begin, and in which of sixteen cells it lies.
#[derive(Debug, Clone, Copy, PartialEq, Eq, Structural)]
pub struct Sample {
    pub offset: usize,
    pub cell: usize,
}

/// The slope of the green channel at a pixel.
#[derive(Debug, Clone, Copy, PartialEq, Eq, Structural)]
pub struct Gradient {
    pub dx: i32,
    pub dy: i32,
    pub strong: bool,
}

/// The hue, the saturation and the value of a color, in eighths.
#[derive(Debug, Clone, Copy, PartialEq, Eq, Structural)]
pub struct HsvBins {
    pub hue: usize,
    pub saturation: usize,
    pub value: usize,
}

/// A sum and how many numbers went into it.
#[derive(Debug, Clone, Copy, PartialEq, Eq, Structural)]
pub struct Total {
    pub sum: u64,
    pub count: u64,
}

/// What a crop looks like.
#[derive(Debug)]
pub struct Appearance {
    pub crop: Crop,
    /// How many pixels fall into each eighth of the hues, the saturations and the values.
    pub colors: Vec<u64>,
    /// The slopes, row by row, where there is any.
    pub gradients: Vec<Gradient>,
    /// The lightness of each of four by four cells.
    pub grid: Vec<Total>,
    /// The green channel.
    pub brightness: Total,
}

/// The lower of two numbers.
pub open spec fn least(a: u32, b: u32) -> u32 {
    if a <= b {
        a
    } else {
        b
    }
}

/// The part of an image between these edges, cut off at the edges of the image.
pub open spec fn cropped(
    left: u32,
    top: u32,
    right: u32,
    bottom: u32,
    img_w: u32,
    img_h: u32,
) -> Crop {
    let x0 = least(left, if img_w == 0 {
        0
    } else {
        (img_w - 1) as u32
    });
    let y0 = least(top, if img_h == 0 {
        0
    } else {
        (img_h - 1) as u32
    });
    let x1 = least(right, img_w);
    let y1 = least(bottom, img_h);
    Crop {
        x0,
        y0,
        width: if x1 > x0 {
            (x1 - x0) as u32
        } else {
            0
        },
        height: if y1 > y0 {
            (y1 - y0) as u32
        } else {
            0
        },
    }
}

impl Crop {
    /// The crop is large enough to be looked at.
    pub open spec fn is_large(self) -> bool {
        self.width >= MIN_CROP_W && self.height >= MIN_CROP_H
    }

    /// The crop lies in an image of this size whose bytes can be counted.
    pub open spec fn fits(self, img_w: u32, img_h: u32) -> bool {
        &&& self.x0 + self.width <= img_w
        &&& self.y0 + self.height <= img_h
        &&& img_w * 3 <= u32::MAX
        &&& (self.width - 1) * 4 <= u32::MAX
        &&& (self.height - 1) * 4 <= u32::MAX
        &&& img_h * (img_w * 3) <= usize::MAX
    }
}

/// The part of an image between these edges, if it is large enough to be looked at.
pub fn crop_region(
    left: u32,
    top: u32,
    right: u32,
    bottom: u32,
    img_w: u32,
    img_h: u32,
) -> (crop: Option<Crop>)
    ensures
        ({
            let c = cropped(left, top, right, bottom, img_w, img_h);
            &&& crop is Some <==> c.is_large()
            &&& crop matches Some(found) ==> found == c && c.x0 + c.width <= img_w && c.y0
                + c.height <= img_h
        }),
{
    let max_x: u32 = if img_w == 0 {
        0
    } else {
        img_w - 1
    };
    let max_y: u32 = if img_h == 0 {
        0
    } else {
        img_h - 1
    };
    let x0: u32 = if left <= max_x {
        left
    } else {
        max_x
    };
    let y0: u32 = if top <= max_y {
        top
    } else {
        max_y
    };
    let x1: u32 = if right <= img_w {
        right
    } else {
        img_w
    };
    let y1: u32 = if bottom <= img_h {
        bottom
    } else {
        img_h
    };
    let width: u32 = if x1 > x0 {
        x1 - x0
    } else {
        0
    };
    let height: u32 = if y1 > y0 {
        y1 - y0
    } else {
        0
    };
    if width < MIN_CROP_W || height < MIN_CROP_H {
        return None;
    }
    Some(Crop { x0, y0, width, height })
}

/// In which quarter of a length a place lies.
pub open spec fn quarter(at: int, length: int) -> int {
    let q = (at * 4) / length;
    if q < 3 {
        q
    } else {
        3
    }
}

/// Where the bytes of a pixel begin.
pub open spec fn byte_of(img_w: u32, x: int, y: int) -> int {
    y * (img_w * 3) + x * 3
}

/// A pixel of a crop.
pub open spec fn sample_at(img_w: u32, crop: Crop, dx: int, dy: int) -> Sample {
    Sample {
        offset: byte_of(img_w, crop.x0 + dx, crop.y0 + dy) as usize,
        cell: (quarter(dy, crop.height as int) * 4 + quarter(dx, crop.width as int)) as usize,
    }
}

/// The first `n` pixels of a row of a crop, as far as the image has them.
pub open spec fn row_samples(img_w: u32, crop: Crop, bytes: nat, dy: int, n: int) -> Seq<Sample>
    decreases n,
{
    if n <= 0 {
        Seq::empty()
    } else {
        let before = row_samples(img_w, crop, bytes, dy, n - 1);
        let s = sample_at(img_w, crop, n - 1, dy);
        if s.offset + 2 < bytes {
            before.push(s)
        } else {
            before
        }
    }
}

/// The pixels of the first `n` rows of a crop, as far as the image has them.
pub open spec fn samples_of(img_w: u32, crop: Crop, bytes: nat, n: int) -> Seq<Sample>
    decreases n,
{
    if n <= 0 {
        Seq::empty()
    } else {
        samples_of(img_w, crop, bytes, n - 1) + row_samples(
            img_w,
            crop,
            bytes,
            n - 1,
            crop.width as int,
        )
    }
}

proof fn lemma_byte_in_image(img_w: u32, img_h: u32, x: int, y: int)
    requires
        0 <= x < img_w,
        0 <= y < img_h,
    ensures
        0 <= byte_of(img_w, x, y),
        y * (img_w * 3) + (img_w * 3) <= img_h * (img_w * 3),
        byte_of(img_w, x, y) + 3 <= img_h * (img_w * 3),
        0 <= y * (img_w * 3),
{
    assert(0 <= y * (img_w * 3)) by (nonlinear_arith)
        requires
            0 <= y,
    ;
    assert(y * (img_w * 3) + (img_w * 3) <= img_h * (img_w * 3)) by (nonlinear_arith)
        requires
            y + 1 <= img_h,
    ;
}

proof fn lemma_quarter(at: int, length: int)
    requires
        0 <= at < length,
    ensures
        0 <= quarter(at, length) <= 3,
{
    assert(0 <= (at * 4) / length) by (nonlinear_arith)
        requires
            0 <= at < length,
    ;
}

/// The pixels of a crop, row by row, as far as the image has them.
fn samples(img_w: u32, img_h: u32, crop: &Crop, bytes: usize) -> (found: Vec<Sample>)
    requires
        crop.fits(img_w, img_h),
    ensures
        found@ == samples_of(img_w, *crop, bytes as nat, crop.height as int),
        forall|k: int|
            0 <= k < found@.len() ==> (#[trigger] found@[k]).offset + 2 < bytes && found@[k].cell
                < 16,
{
    let mut found: Vec<Sample> = Vec::new();
    let mut dy: u32 = 0;
    while dy < crop.height
        invariant
            dy <= crop.height,
            crop.fits(img_w, img_h),
            found@ == samples_of(img_w, *crop, bytes as nat, dy as int),
            forall|k: int|
                0 <= k < found@.len() ==> (#[trigger] found@[k]).offset + 2 < bytes
                    && found@[k].cell < 16,
        decreases crop.height - dy,
    {
        let ghost before = found@;
        let mut dx: u32 = 0;
        assert(before + Seq::<Sample>::empty() =~= before);
        while dx < crop.width
            invariant
                dx <= crop.width,
                dy < crop.height,
                crop.fits(img_w, img_h),
                found@ == before + row_samples(img_w, *crop, bytes as nat, dy as int, dx as int),
                forall|k: int|
                    0 <= k < found@.len() ==> (#[trigger] found@[k]).offset + 2 < bytes
                        && found@[k].cell < 16,
            decreases crop.width - dx,
        {
            let x: u32 = crop.x0 + dx;
            let y: u32 = crop.y0 + dy;
            proof {
                lemma_byte_in_image(img_w, img_h, x as int, y as int);
                lemma_quarter(dx as int, crop.width as int);
                lemma_quarter(dy as int, crop.height as int);
            }
            let stride: u32 = img_w * 3;
            let row: usize = (y as usize) * (stride as usize);
            let offset: usize = row + (x as usize) * 3;
            let down: u32 = (dy * 4) / crop.height;
            let across: u32 = (dx * 4) / crop.width;
            let cy: usize = if down < 3 {
                down as usize
            } else {
                3
            };
            let cx: usize = if across < 3 {
                across as usize
            } else {
                3
            };
            let sample = Sample { offset, cell: cy * 4 + cx };
            assert(sample == sample_at(img_w, *crop, dx as int, dy as int));
            if bytes > 2 && offset < bytes - 2 {
                let ghost so_far = row_samples(
                    img_w,
                    *crop,
                    bytes as nat,
                    dy as int,
                    dx as int,
                );
                found.push(sample);
                assert(found@ =~= before + so_far.push(sample));
            }
            dx += 1;
        }
        dy += 1;
    }
    found
}

/// The sum of the green bytes of the first `n` pixels.
pub open spec fn green_sum(pixels: Seq<u8>, samples: Seq<Sample>, n: int) -> nat
    decreases n,
{
    if n <= 0 {
        0
    } else {
        green_sum(pixels, samples, n - 1) + pixels[samples[n - 1].offset + 1] as nat
    }
}

/// The lightness of a pixel.
pub open spec fn lightness(pixels: Seq<u8>, offset: int) -> nat {
    ((pixels[offset] as nat + pixels[offset + 1] as nat * 2 + pixels[offset + 2] as nat) / 4) as nat
}

/// The sum of the lightness of those of the first `n` pixels that lie in a cell.
pub open spec fn cell_sum(pixels: Seq<u8>, samples: Seq<Sample>, cell: int, n: int) -> nat
    decreases n,
{
    if n <= 0 {
        0
    } else if samples[n - 1].cell == cell {
        cell_sum(pixels, samples, cell, n - 1) + lightness(pixels, samples[n - 1].offset as int)
    } else {
        cell_sum(pixels, samples, cell, n - 1)
    }
}

/// How many of the first `n` pixels lie in a cell.
pub open spec fn cell_count(samples: Seq<Sample>, cell: int, n: int) -> nat
    decreases n,
{
    if n <= 0 {
        0
    } else if samples[n - 1].cell == cell {
        cell_count(samples, cell, n - 1) + 1
    } else {
        cell_count(samples, cell, n - 1)
    }
}

/// The pixels of each cell can be counted in 32 bits.
pub open spec fn cells_are_countable(samples: Seq<Sample>) -> bool {
    forall|cell: int|
        0 <= cell < 16 ==> #[trigger] cell_count(samples, cell, samples.len() as int) <= u32::MAX
}

/// `g` gives what `f` returns.
pub open spec fn bins_as<F: Fn(u8, u8, u8) -> HsvBins>(
    f: F,
    g: spec_fn(u8, u8, u8) -> HsvBins,
) -> bool {
    forall|a: u8, b: u8, c: u8, r: HsvBins| #[trigger]
        call_ensures(f, (a, b, c), r) ==> r == g(a, b, c)
}

/// `f` can be called with any color.
pub open spec fn can_bin<F: Fn(u8, u8, u8) -> HsvBins>(f: F) -> bool {
    forall|a: u8, b: u8, c: u8| #[trigger] call_requires(f, (a, b, c))
}

/// The last of eight bins takes everything beyond it.
pub open spec fn eighth(bin: usize) -> int {
    if bin < 7 {
        bin as int
    } else {
        7
    }
}

/// The pixel counts in this of twenty-four bins: eight of hues, eight of saturations, eight
/// of values.
pub open spec fn falls_into(bins: HsvBins, slot: int) -> bool {
    ||| slot == eighth(bins.hue)
    ||| slot == 8 + eighth(bins.saturation)
    ||| slot == 16 + eighth(bins.value)
}

/// The bins of a pixel.
pub open spec fn pixel_bins(
    pixels: Seq<u8>,
    offset: int,
    bins: spec_fn(u8, u8, u8) -> HsvBins,
) -> HsvBins {
    bins(pixels[offset], pixels[offset + 1], pixels[offset + 2])
}

/// How many of the first `n` pixels fall into a bin.
pub open spec fn slot_count(
    pixels: Seq<u8>,
    samples: Seq<Sample>,
    bins: spec_fn(u8, u8, u8) -> HsvBins,
    slot: int,
    n: int,
) -> nat
    decreases n,
{
    if n <= 0 {
        0
    } else if falls_into(pixel_bins(pixels, samples[n - 1].offset as int, bins), slot) {
        slot_count(pixels, samples, bins, slot, n - 1) + 1
    } else {
        slot_count(pixels, samples, bins, slot, n - 1)
    }
}

/// All pixels are inside the image.
pub open spec fn inside(samples: Seq<Sample>, bytes: nat) -> bool {
    forall|k: int|
        0 <= k < samples.len() ==> (#[trigger] samples[k]).offset + 2 < bytes && samples[k].cell
            < 16
}

/// The green channel of the pixels.
fn compute_mean_brightness(pixels: &Vec<u8>, samples: &Vec<Sample>) -> (total: Total)
    requires
        inside(samples@, pixels@.len()),
        255 * samples@.len() <= u64::MAX,
    ensures
        total.sum == green_sum(pixels@, samples@, samples@.len() as int),
        total.count == samples@.len(),
{
    let mut sum: u64 = 0;
    let mut i: usize = 0;
    while i < samples.len()
        invariant
            i <= samples@.len(),
            255 * samples@.len() <= u64::MAX,
            inside(samples@, pixels@.len()),
            sum == green_sum(pixels@, samples@, i as int),
            sum <= i * 255,
        decreases samples@.len() - i,
    {
        let s = samples[i];
        assert(s.offset + 2 < pixels.len() && s.cell < 16);
        sum += pixels[s.offset + 1] as u64;
        i += 1;
    }
    Total { sum, count: samples.len() as u64 }
}

/// The lightness of each of four by four cells.
fn compute_spatial_grid(pixels: &Vec<u8>, samples: &Vec<Sample>) -> (grid: Vec<Total>)
    requires
        inside(samples@, pixels@.len()),
        255 * samples@.len() <= u64::MAX,
    ensures
        grid@.len() == 16,
        forall|c: int|
            0 <= c < 16 ==> {
                &&& (#[trigger] grid@[c]).sum == cell_sum(
                    pixels@,
                    samples@,
                    c,
                    samples@.len() as int,
                )
                &&& grid@[c].count == cell_count(samples@, c, samples@.len() as int)
            },
{
    let mut grid: Vec<Total> = Vec::new();
    let mut c: usize = 0;
    while c < 16
        invariant
            c <= 16,
            grid@.len() == c,
            forall|k: int| 0 <= k < c ==> (#[trigger] grid@[k]) == (Total { sum: 0, count: 0 }),
        decreases 16 - c,
    {
        grid.push(Total { sum: 0, count: 0 });
        c += 1;
    }
    let mut i: usize = 0;
    while i < samples.len()
        invariant
            i <= samples@.len(),
            255 * samples@.len() <= u64::MAX,
            inside(samples@, pixels@.len()),
            grid@.len() == 16,
            forall|k: int|
                0 <= k < 16 ==> {
                    &&& (#[trigger] grid@[k]).sum == cell_sum(pixels@, samples@, k, i as int)
                    &&& grid@[k].count == cell_count(samples@, k, i as int)
                    &&& grid@[k].sum <= i * 255
                    &&& grid@[k].count <= i
                },
        decreases samples@.len() - i,
    {
        let s = samples[i];
        assert(s.offset + 2 < pixels.len() && s.cell < 16);
        let light: u32 = (pixels[s.offset] as u32 + pixels[s.offset + 1] as u32 * 2
            + pixels[s.offset + 2] as u32) / 4;
        assert(light == lightness(pixels@, s.offset as int));
        let cell = grid[s.cell];
        grid.set(s.cell, Total { sum: cell.sum + light as u64, count: cell.count + 1 });
        i += 1;
    }
    grid
}

/// How many pixels fall into each eighth of the hues, the saturations and the values.
fn compute_color_histogram<F: Fn(u8, u8, u8) -> HsvBins>(
    pixels: &Vec<u8>,
    samples: &Vec<Sample>,
    bins: &F,
) -> (colors: Vec<u64>)
    requires
        inside(samples@, pixels@.len()),
        255 * samples@.len() <= u64::MAX,
        can_bin(*bins),
    ensures
        colors@.len() == 24,
        forall|g: spec_fn(u8, u8, u8) -> HsvBins, k: int|
            #![trigger bins_as(*bins, g), colors@[k]]
            bins_as(*bins, g) && 0 <= k < 24 ==> colors@[k] == slot_count(
                pixels@,
                samples@,
                g,
                k,
                samples@.len() as int,
            ),
{
    let mut colors: Vec<u64> = Vec::new();
    let mut c: usize = 0;
    while c < 24
        invariant
            c <= 24,
            colors@.len() == c,
            forall|k: int| 0 <= k < c ==> #[trigger] colors@[k] == 0,
        decreases 24 - c,
    {
        colors.push(0);
        c += 1;
    }
    let mut i: usize = 0;
    while i < samples.len()
        invariant
            i <= samples@.len(),
            255 * samples@.len() <= u64::MAX,
            inside(samples@, pixels@.len()),
            can_bin(*bins),
            colors@.len() == 24,
            forall|k: int| 0 <= k < 24 ==> #[trigger] colors@[k] <= i,
            forall|g: spec_fn(u8, u8, u8) -> HsvBins, k: int|
                #![trigger bins_as(*bins, g), colors@[k]]
                bins_as(*bins, g) && 0 <= k < 24 ==> colors@[k] == slot_count(
                    pixels@,
                    samples@,
                    g,
                    k,
                    i as int,
                ),
        decreases samples@.len() - i,
    {
        let s = samples[i];
        assert(s.offset + 2 < pixels.len() && s.cell < 16);
        let ghost before = colors@;
        let b = bins(pixels[s.offset], pixels[s.offset + 1], pixels[s.offset + 2]);
        let hue: usize = if b.hue < 7 {
            b.hue
        } else {
            7
        };
        let saturation: usize = if b.saturation < 7 {
            8 + b.saturation
        } else {
            15
        };
        let value: usize = if b.value < 7 {
            16 + b.value
        } else {
            23
        };
        assert(before[hue as int] <= i && before[saturation as int] <= i && before[value as int]
            <= i);
        let hues: u64 = colors[hue];
        colors.set(hue, hues + 1);
        let saturations: u64 = colors[saturation];
        colors.set(saturation, saturations + 1);
        let values: u64 = colors[value];
        colors.set(value, values + 1);
        proof {
            assert forall|k: int| 0 <= k < 24 implies #[trigger] colors@[k] == before[k] + (
            if falls_into(b, k) {
                1int
            } else {
                0int
            }) by {}
            assert forall|g: spec_fn(u8, u8, u8) -> HsvBins, k: int|
                #![trigger bins_as(*bins, g), colors@[k]]
                bins_as(*bins, g) && 0 <= k < 24 implies colors@[k] == slot_count(
                pixels@,
                samples@,
                g,
                k,
                i + 1,
            ) by {
                assert(b == pixel_bins(pixels@, s.offset as int, g));
                assert(before[k] == slot_count(pixels@, samples@, g, k, i as int));
            }
        }
        i += 1;
    }
    colors
}

/// The slope of the green channel at a pixel.
pub open spec fn slope_at(pixels: Seq<u8>, img_w: u32, x: int, y: int) -> (int, int) {
    (
        pixels[byte_of(img_w, x + 1, y) + 1] - pixels[byte_of(img_w, x - 1, y) + 1],
        pixels[byte_of(img_w, x, y + 1) + 1] - pixels[byte_of(img_w, x, y - 1) + 1],
    )
}

/// The gradient of a slope.
pub open spec fn gradient_of(slope: (int, int)) -> Gradient {
    Gradient {
        dx: slope.0 as i32,
        dy: slope.1 as i32,
        strong: slope.0 * slope.0 + slope.1 * slope.1 > STRONG_EDGE,
    }
}

/// The gradients at the inner pixels of a row up to before `n`, as far as the image has
/// their neighbors, and where there is a slope.
pub open spec fn row_gradients(pixels: Seq<u8>, img_w: u32, crop: Crop, dy: int, n: int) -> Seq<
    Gradient,
>
    decreases n,
{
    if n <= 1 {
        Seq::empty()
    } else {
        let before = row_gradients(pixels, img_w, crop, dy, n - 1);
        let x = crop.x0 + n - 1;
        let y = crop.y0 + dy;
        let slope = slope_at(pixels, img_w, x, y);
        if byte_of(img_w, x, y + 1) + 1 < pixels.len() && byte_of(img_w, x + 1, y) + 1
            < pixels.len() && slope != (0int, 0int) {
            before.push(gradient_of(slope))
        } else {
            before
        }
    }
}

/// The gradients at the inner pixels of the rows up to before `n`.
pub open spec fn gradients_of(pixels: Seq<u8>, img_w: u32, crop: Crop, n: int) -> Seq<Gradient>
    decreases n,
{
    if n <= 1 {
        Seq::empty()
    } else {
        gradients_of(pixels, img_w, crop, n - 1) + row_gradients(
            pixels,
            img_w,
            crop,
            n - 1,
            crop.width - 1,
        )
    }
}

proof fn lemma_rows_ascend(img_w: u32, x: int, y: int)
    requires
        0 < x,
        0 < y,
    ensures
        byte_of(img_w, x, y - 1) + img_w * 3 == byte_of(img_w, x, y),
        byte_of(img_w, x, y) + img_w * 3 == byte_of(img_w, x, y + 1),
        byte_of(img_w, x - 1, y) + 6 == byte_of(img_w, x + 1, y),
{
    assert((y - 1) * (img_w * 3) + img_w * 3 == y * (img_w * 3)) by (nonlinear_arith);
    assert(y * (img_w * 3) + img_w * 3 == (y + 1) * (img_w * 3)) by (nonlinear_arith);
}

/// The gradients at the inner pixels of a crop, row by row, where there is a slope.
fn compute_gradient_histogram(pixels: &Vec<u8>, img_w: u32, img_h: u32, crop: &Crop) -> (found: Vec<
    Gradient,
>)
    requires
        crop.fits(img_w, img_h),
    ensures
        found@ == gradients_of(pixels@, img_w, *crop, crop.height - 1),
{
    let mut found: Vec<Gradient> = Vec::new();
    if crop.width < 3 || crop.height < 3 {
        assert(found@ =~= gradients_of(pixels@, img_w, *crop, crop.height - 1)) by {
            if crop.height >= 3 {
                lemma_narrow_has_no_gradient(pixels@, img_w, *crop, crop.height - 1);
            }
        }
        return found;
    }
    let mut dy: u32 = 1;
    while dy < crop.height - 1
        invariant
            1 <= dy <= crop.height - 1,
            crop.width >= 3,
            crop.fits(img_w, img_h),
            found@ == gradients_of(pixels@, img_w, *crop, dy as int),
        decreases crop.height - dy,
    {
        let ghost before = found@;
        let mut dx: u32 = 1;
        assert(before + Seq::<Gradient>::empty() =~= before);
        while dx < crop.width - 1
            invariant
                1 <= dx <= crop.width - 1,
                1 <= dy < crop.height - 1,
                crop.fits(img_w, img_h),
                found@ == before + row_gradients(pixels@, img_w, *crop, dy as int, dx as int),
            decreases crop.width - dx,
        {
            let x: u32 = crop.x0 + dx;
            let y: u32 = crop.y0 + dy;
            proof {
                lemma_byte_in_image(img_w, img_h, x as int, y as int);
                lemma_byte_in_image(img_w, img_h, x + 1, y as int);
                lemma_byte_in_image(img_w, img_h, x as int, y + 1);
                lemma_byte_in_image(img_w, img_h, x as int, y - 1);
                lemma_rows_ascend(img_w, x as int, y as int);
            }
            let stride: usize = (img_w * 3) as usize;
            let row: usize = (y as usize) * stride;
            let here: usize = row + (x as usize) * 3;
            let left: usize = here - 2;
            let right: usize = here + 4;
            let up: usize = here - stride + 1;
            let down: usize = here + stride + 1;
            assert(left == byte_of(img_w, x - 1, y as int) + 1);
            assert(right == byte_of(img_w, x + 1, y as int) + 1);
            assert(up == byte_of(img_w, x as int, y - 1) + 1);
            assert(down == byte_of(img_w, x as int, y + 1) + 1);
            if down < pixels.len() && right < pixels.len() {
                let gx: i32 = pixels[right] as i32 - pixels[left] as i32;
                let gy: i32 = pixels[down] as i32 - pixels[up] as i32;
                if gx != 0 || gy != 0 {
                    assert(0 <= gx * gx <= 65025 && 0 <= gy * gy <= 65025) by (nonlinear_arith)
                        requires
                            -255 <= gx <= 255,
                            -255 <= gy <= 255,
                    ;
                    let strong = gx * gx + gy * gy > STRONG_EDGE;
                    let gradient = Gradient { dx: gx, dy: gy, strong };
                    let ghost so_far = row_gradients(
                        pixels@,
                        img_w,
                        *crop,
                        dy as int,
                        dx as int,
                    );
                    found.push(gradient);
                    assert(gradient == gradient_of(
                        slope_at(pixels@, img_w, x as int, y as int),
                    ));
                    assert(found@ =~= before + so_far.push(gradient));
                }
            }
            dx += 1;
        }
        dy += 1;
    }
    found
}

proof fn lemma_narrow_has_no_gradient(pixels: Seq<u8>, img_w: u32, crop: Crop, n: int)
    requires
        crop.width < 3,
    ensures
        gradients_of(pixels, img_w, crop, n).len() == 0,
    decreases n,
{
    if n > 1 {
        lemma_narrow_has_no_gradient(pixels, img_w, crop, n - 1);
    }
}

/// Looks at the part of an image between these edges, if it is large enough. `bins` gives
/// the eighths a color falls into.
pub fn compute_embedding<F: Fn(u8, u8, u8) -> HsvBins>(
    pixels: &Vec<u8>,
    img_w: u32,
    img_h: u32,
    left: u32,
    top: u32,
    right: u32,
    bottom: u32,
    bins: &F,
) -> (look: Option<Appearance>)
    requires
        can_bin(*bins),
        cropped(left, top, right, bottom, img_w, img_h).is_large() ==> {
            let c = cropped(left, top, right, bottom, img_w, img_h);
            &&& c.fits(img_w, img_h)
            &&& cells_are_countable(samples_of(img_w, c, pixels@.len(), c.height as int))
        },
    ensures
        look is Some <==> cropped(left, top, right, bottom, img_w, img_h).is_large(),
        look matches Some(a) ==> {
            let c = cropped(left, top, right, bottom, img_w, img_h);
            let all = samples_of(img_w, c, pixels@.len(), c.height as int);
            let n = all.len() as int;
            &&& a.crop == c
            &&& a.gradients@ == gradients_of(pixels@, img_w, c, c.height - 1)
            &&& a.brightness.sum == green_sum(pixels@, all, n)
            &&& a.brightness.count == n
            &&& a.grid@.len() == 16
            &&& forall|k: int|
                0 <= k < 16 ==> {
                    &&& (#[trigger] a.grid@[k]).sum == cell_sum(pixels@, all, k, n)
                    &&& a.grid@[k].count == cell_count(all, k, n)
                }
            &&& a.colors@.len() == 24
            &&& forall|g: spec_fn(u8, u8, u8) -> HsvBins, k: int|
                #![trigger bins_as(*bins, g), a.colors@[k]]
                bins_as(*bins, g) && 0 <= k < 24 ==> a.colors@[k] == slot_count(
                    pixels@,
                    all,
                    g,
                    k,
                    n,
                )
        },
{
    let crop = match crop_region(left, top, right, bottom, img_w, img_h) {
        Some(crop) => crop,
        None => {
            return None;
        },
    };
    let found = samples(img_w, img_h, &crop, pixels.len());
    proof {
        lemma_pixels_are_countable(found@);
    }
    Some(
        Appearance {
            crop,
            colors: compute_color_histogram(pixels, &found, bins),
            gradients: compute_gradient_histogram(pixels, img_w, img_h, &crop),
            grid: compute_spatial_grid(pixels, &found),
            brightness: compute_mean_brightness(pixels, &found),
        },
    )
}

/// How two looks are compared.
#[derive(Debug, Clone, Copy, PartialEq, Eq, Structural)]
pub enum Comparison {
    /// Not at all: one of them is incomplete.
    Apart,
    /// With colors counting for half.
    Bright,
    /// With colors counting for a tenth.
    Dark,
}

/// How two looks of these lengths are compared at this mean brightness.
pub open spec fn comparison(a_len: usize, b_len: usize, avg_brightness: Stamp) -> Comparison {
    if a_len < EMBEDDING_SIZE || b_len < EMBEDDING_SIZE {
        Comparison::Apart
    } else if avg_brightness > DARK_THRESHOLD {
        Comparison::Bright
    } else {
        Comparison::Dark
    }
}

/// It does not matter which look comes first, and exactly incomplete looks are not compared.
pub proof fn law_looks_are_compared_alike(a_len: usize, b_len: usize, avg_brightness: Stamp)
    ensures
        comparison(a_len, b_len, avg_brightness) == comparison(b_len, a_len, avg_brightness),
        comparison(a_len, b_len, avg_brightness) == Comparison::Apart <==> a_len < EMBEDDING_SIZE
            || b_len < EMBEDDING_SIZE,
{
}

/// How two looks of these lengths are compared at this mean brightness.
pub fn embedding_distance(a_len: usize, b_len: usize, avg_brightness: Stamp) -> (how: Comparison)
    ensures
        how == comparison(a_len, b_len, avg_brightness),
{
    if a_len < EMBEDDING_SIZE || b_len < EMBEDDING_SIZE {
        return Comparison::Apart;
    }
    if avg_brightness > DARK_THRESHOLD {
        Comparison::Bright
    } else {
        Comparison::Dark
    }
}

proof fn lemma_counts_add_up(samples: Seq<Sample>, n: int)
    requires
        0 <= n <= samples.len(),
        forall|k: int| 0 <= k < samples.len() ==> (#[trigger] samples[k]).cell < 16,
    ensures
        counts_up_to(samples, n, 16) == n,
    decreases n,
{
    if n > 0 {
        lemma_counts_add_up(samples, n - 1);
        lemma_one_more(samples, n, 16);
    } else {
        lemma_none(samples, 16);
    }
}

/// The pixels in the first `m` cells among the first `n`.
pub open spec fn counts_up_to(samples: Seq<Sample>, n: int, m: int) -> nat
    decreases m,
{
    if m <= 0 {
        0
    } else {
        counts_up_to(samples, n, m - 1) + cell_count(samples, m - 1, n)
    }
}

proof fn lemma_none(samples: Seq<Sample>, m: int)
    ensures
        counts_up_to(samples, 0, m) == 0,
    decreases m,
{
    if m > 0 {
        lemma_none(samples, m - 1);
    }
}

proof fn lemma_one_more(samples: Seq<Sample>, n: int, m: int)
    requires
        0 < n <= samples.len(),
    ensures
        counts_up_to(samples, n, m) == counts_up_to(samples, n - 1, m) + (if samples[n - 1].cell
            < m {
            1nat
        } else {
            0nat
        }),
    decreases m,
{
    if m > 0 {
        lemma_one_more(samples, n, m - 1);
    }
}

proof fn lemma_pixels_are_countable(samples: Seq<Sample>)
    requires
        forall|k: int| 0 <= k < samples.len() ==> (#[trigger] samples[k]).cell < 16,
        cells_are_countable(samples),
    ensures
        samples.len() <= 16 * u32::MAX,
{
    let n = samples.len() as int;
    lemma_counts_add_up(samples, n);
    reveal_with_fuel(counts_up_to, 17);
    assert forall|cell: int| 0 <= cell < 16 implies #[trigger] cell_count(samples, cell, n)
        <= u32::MAX by {}
}

/// Every pixel lies in exactly one cell.
pub proof fn law_cells_share_out_the_pixels(samples: Seq<Sample>)
    requires
        forall|k: int| 0 <= k < samples.len() ==> (#[trigger] samples[k]).cell < 16,
    ensures
        counts_up_to(samples, samples.len() as int, 16) == samples.len(),
{
    lemma_counts_add_up(samples, samples.len() as int);
}

/// A scene is dark up to a brightness of 0.3, a look has sixty-four numbers, an edge is strong
/// from a slope of thirty on, and a crop is looked at from twenty by forty pixels on.
pub proof fn law_the_sizes_of_a_look()
    ensures
        stamp_is(DARK_THRESHOLD, 3, 10),
        EMBEDDING_SIZE == 64,
        STRONG_EDGE == 30 * 30,
        MIN_CROP_W == 20,
        MIN_CROP_H == 40,
{
    lemma2_to64_rest();
    lemma_is_nearest(
        4599075939470750515,
        0x10_0000_0000_0000,
        1075,
        3,
        10,
        1021,
        900719925474099,
        18014398509481984,
    );
}

/// A crop begins where it is asked to, but inside the image, and ends where it is asked to or
/// with the image; a crop that would end before it begins is empty.
pub proof fn law_a_crop_is_cut_off_at_the_image(
    left: u32,
    top: u32,
    right: u32,
    bottom: u32,
    img_w: u32,
    img_h: u32,
)
    requires
        img_w > 0,
        img_h > 0,
    ensures
        ({
            let c = cropped(left, top, right, bottom, img_w, img_h);
            &&& left < img_w ==> c.x0 == left
            &&& left >= img_w ==> c.x0 == img_w - 1
            &&& top < img_h ==> c.y0 == top
            &&& top >= img_h ==> c.y0 == img_h - 1
            &&& left < img_w && left < right && right <= img_w ==> c.width == right - left
            &&& left < img_w && right > img_w ==> c.width == img_w - left
            &&& top < img_h && top < bottom && bottom <= img_h ==> c.height == bottom - top
            &&& top < img_h && bottom > img_h ==> c.height == img_h - top
            &&& left < img_w && right <= left ==> c.width == 0
            &&& top < img_h && bottom <= top ==> c.height == 0
            &&& c.x0 + c.width <= img_w && c.y0 + c.height <= img_h
            &&& c.is_large() <==> c.width >= 20 && c.height >= 40
        }),
{
}

/// A place lies in the quarter that begins at or before it and ends behind it.
pub proof fn law_a_quarter_holds_its_places(at: int, length: int)
    requires
        0 <= at < length,
    ensures
        0 <= quarter(at, length) <= 3,
        quarter(at, length) * length <= at * 4,
        at * 4 < (quarter(at, length) + 1) * length,
{
    let q = (at * 4) / length;
    lemma_fundamental_div_mod(at * 4, length);
    let r = (at * 4) % length;
    assert(at * 4 == length * q + r);
    assert(0 <= r < length);
    assert(q >= 0) by (nonlinear_arith)
        requires
            at * 4 == length * q + r,
            0 <= at,
            r < length,
            0 < length,
    ;
    assert(q <= 3) by (nonlinear_arith)
        requires
            at * 4 == length * q + r,
            at < length,
            0 <= r,
            0 < length,
    ;
    assert(q * length == length * q) by (nonlinear_arith);
    assert((q + 1) * length == length * q + length) by (nonlinear_arith);
}

/// The bytes of a pixel of a crop begin at three times its number in the image, counted row by
/// row, and its cell is that of the quarters of the crop it lies in, down and across.
pub proof fn law_a_pixel_is_where_it_is(img_w: u32, img_h: u32, crop: Crop, dx: int, dy: int)
    requires
        crop.fits(img_w, img_h),
        0 <= dx < crop.width,
        0 <= dy < crop.height,
    ensures
        ({
            let s = sample_at(img_w, crop, dx, dy);
            &&& s.offset == 3 * ((crop.y0 + dy) * img_w + crop.x0 + dx)
            &&& s.cell == 4 * quarter(dy, crop.height as int) + quarter(dx, crop.width as int)
            &&& s.cell < 16
        }),
{
    let x = crop.x0 + dx;
    let y = crop.y0 + dy;
    lemma_byte_in_image(img_w, img_h, x, y);
    lemma_quarter(dx, crop.width as int);
    lemma_quarter(dy, crop.height as int);
    assert(y * (img_w * 3) + x * 3 == 3 * (y * img_w + x)) by (nonlinear_arith);
}

proof fn lemma_row_samples(img_w: u32, crop: Crop, bytes: nat, dy: int, n: int, dx: int)
    requires
        0 <= dx < n,
    ensures
        ({
            let s = sample_at(img_w, crop, dx, dy);
            let row = row_samples(img_w, crop, bytes, dy, n);
            &&& s.offset + 2 < bytes ==> row.contains(s)
            &&& row.len() <= n
        }),
    decreases n,
{
    let s = sample_at(img_w, crop, dx, dy);
    let before = row_samples(img_w, crop, bytes, dy, n - 1);
    let row = row_samples(img_w, crop, bytes, dy, n);
    if n > 1 {
        lemma_row_samples(img_w, crop, bytes, dy, n - 1, if dx < n - 1 {
            dx
        } else {
            0
        });
    }
    if s.offset + 2 < bytes {
        if dx < n - 1 {
            let k = choose|k: int| 0 <= k < before.len() && before[k] == s;
            assert(row[k] == s);
        } else {
            assert(row[before.len() as int] == s);
        }
    }
}

/// Every pixel of a crop that the image has is looked at.
pub proof fn law_every_pixel_is_looked_at(
    img_w: u32,
    crop: Crop,
    bytes: nat,
    n: int,
    dx: int,
    dy: int,
)
    requires
        0 <= dx < crop.width,
        0 <= dy < n,
        sample_at(img_w, crop, dx, dy).offset + 2 < bytes,
    ensures
        samples_of(img_w, crop, bytes, n).contains(sample_at(img_w, crop, dx, dy)),
    decreases n,
{
    let s = sample_at(img_w, crop, dx, dy);
    let before = samples_of(img_w, crop, bytes, n - 1);
    let row = row_samples(img_w, crop, bytes, n - 1, crop.width as int);
    let all = samples_of(img_w, crop, bytes, n);
    if dy < n - 1 {
        law_every_pixel_is_looked_at(img_w, crop, bytes, n - 1, dx, dy);
        let k = choose|k: int| 0 <= k < before.len() && before[k] == s;
        assert(all[k] == s);
    } else {
        lemma_row_samples(img_w, crop, bytes, n - 1, crop.width as int, dx);
        let k = choose|k: int| 0 <= k < row.len() && row[k] == s;
        assert(all[before.len() + k] == s);
    }
}

/// The sample is of a pixel in the first `n` rows of the crop that the image has.
spec fn is_pixel_of(img_w: u32, crop: Crop, bytes: nat, n: int, s: Sample) -> bool {
    exists|dx: int, dy: int|
        0 <= dx < crop.width && 0 <= dy < n && s == #[trigger] sample_at(img_w, crop, dx, dy)
            && s.offset + 2 < bytes
}

proof fn lemma_row_is_of_pixels(img_w: u32, crop: Crop, bytes: nat, dy: int, n: int, k: int)
    requires
        0 <= n <= crop.width,
        0 <= dy,
        0 <= k < row_samples(img_w, crop, bytes, dy, n).len(),
    ensures
        is_pixel_of(img_w, crop, bytes, dy + 1, row_samples(img_w, crop, bytes, dy, n)[k]),
    decreases n,
{
    let before = row_samples(img_w, crop, bytes, dy, n - 1);
    if k < before.len() {
        lemma_row_is_of_pixels(img_w, crop, bytes, dy, n - 1, k);
    } else {
        assert(row_samples(img_w, crop, bytes, dy, n)[k] == sample_at(img_w, crop, n - 1, dy));
    }
}

/// Nothing but pixels of the crop that the image has is looked at.
pub proof fn law_nothing_else_is_looked_at(
    img_w: u32,
    crop: Crop,
    bytes: nat,
    n: int,
    k: int,
) -> (at: (int, int))
    requires
        0 <= n <= crop.height,
        0 <= k < samples_of(img_w, crop, bytes, n).len(),
    ensures
        0 <= at.0 < crop.width,
        0 <= at.1 < n,
        samples_of(img_w, crop, bytes, n)[k] == sample_at(img_w, crop, at.0, at.1),
        samples_of(img_w, crop, bytes, n)[k].offset + 2 < bytes,
    decreases n,
{
    let before = samples_of(img_w, crop, bytes, n - 1);
    if k < before.len() {
        law_nothing_else_is_looked_at(img_w, crop, bytes, n - 1, k)
    } else {
        lemma_row_is_of_pixels(
            img_w,
            crop,
            bytes,
            n - 1,
            crop.width as int,
            k - before.len(),
        );
        let s = samples_of(img_w, crop, bytes, n)[k];
        let (dx, dy) = choose|dx: int, dy: int|
            0 <= dx < crop.width && 0 <= dy < n && s == #[trigger] sample_at(img_w, crop, dx, dy)
                && s.offset + 2 < bytes;
        (dx, dy)
    }
}

/// The lightness of a pixel is a quarter of its red, twice its green and its blue, rounded
/// down.
pub proof fn law_lightness_weighs_the_colors(pixels: Seq<u8>, offset: int)
    ensures
        ({
            let sum = pixels[offset] + 2 * pixels[offset + 1] + pixels[offset + 2];
            &&& 4 * lightness(pixels, offset) <= sum
            &&& sum < 4 * lightness(pixels, offset) + 4
            &&& lightness(pixels, offset) <= 255
        }),
{
}

/// Each pixel adds its green byte to the brightness, its lightness to its own cell and to no
/// other, and one to the count of its own cell and of no other; before the first there is
/// nothing.
pub proof fn law_each_pixel_adds_to_its_cell(
    pixels: Seq<u8>,
    samples: Seq<Sample>,
    cell: int,
    n: int,
)
    requires
        0 <= n < samples.len(),
    ensures
        green_sum(pixels, samples, 0) == 0,
        cell_sum(pixels, samples, cell, 0) == 0,
        cell_count(samples, cell, 0) == 0,
        green_sum(pixels, samples, n + 1) == green_sum(pixels, samples, n) + pixels[
            samples[n].offset + 1
        ],
        samples[n].cell == cell ==> cell_sum(pixels, samples, cell, n + 1) == cell_sum(
            pixels,
            samples,
            cell,
            n,
        ) + lightness(pixels, samples[n].offset as int),
        samples[n].cell == cell ==> cell_count(samples, cell, n + 1) == cell_count(
            samples,
            cell,
            n,
        ) + 1,
        samples[n].cell != cell ==> cell_sum(pixels, samples, cell, n + 1) == cell_sum(
            pixels,
            samples,
            cell,
            n,
        ),
        samples[n].cell != cell ==> cell_count(samples, cell, n + 1) == cell_count(
            samples,
            cell,
            n,
        ),
{
}

/// Each pixel counts in exactly three of the twenty-four bins: that of its hue, that of its
/// saturation and that of its value, where everything beyond the eighth bin is in the eighth.
pub proof fn law_each_pixel_counts_in_three_bins(
    pixels: Seq<u8>,
    samples: Seq<Sample>,
    bins: spec_fn(u8, u8, u8) -> HsvBins,
    slot: int,
    n: int,
)
    requires
        0 <= n < samples.len(),
        0 <= slot < 24,
    ensures
        slot_count(pixels, samples, bins, slot, 0) == 0,
        ({
            let at = samples[n].offset as int;
            let b = bins(pixels[at], pixels[at + 1], pixels[at + 2]);
            let counts = if slot < 8 {
                b.hue == slot || b.hue > 7 && slot == 7
            } else if slot < 16 {
                b.saturation == slot - 8 || b.saturation > 7 && slot == 15
            } else {
                b.value == slot - 16 || b.value > 7 && slot == 23
            };
            slot_count(pixels, samples, bins, slot, n + 1) == slot_count(
                pixels,
                samples,
                bins,
                slot,
                n,
            ) + (if counts {
                1int
            } else {
                0int
            })
        }),
{
}

/// The slope at a pixel is the difference of the green bytes to its right and to its left, and
/// below and above it; it is a strong edge from a steepness of more than thirty on.
pub proof fn law_a_slope_is_the_difference_of_the_neighbors(
    pixels: Seq<u8>,
    img_w: u32,
    x: int,
    y: int,
)
    ensures
        ({
            let green = |x: int, y: int| pixels[3 * (y * img_w + x) + 1] as int;
            let slope = slope_at(pixels, img_w, x, y);
            let g = gradient_of(slope);
            &&& slope.0 == green(x + 1, y) - green(x - 1, y)
            &&& slope.1 == green(x, y + 1) - green(x, y - 1)
            &&& g.dx == slope.0 && g.dy == slope.1
            &&& g.strong <==> slope.0 * slope.0 + slope.1 * slope.1 > 30 * 30
        }),
{
    assert(y * (img_w * 3) + (x + 1) * 3 == 3 * (y * img_w + (x + 1))) by (nonlinear_arith);
    assert(y * (img_w * 3) + (x - 1) * 3 == 3 * (y * img_w + (x - 1))) by (nonlinear_arith);
    assert((y + 1) * (img_w * 3) + x * 3 == 3 * ((y + 1) * img_w + x)) by (nonlinear_arith);
    assert((y - 1) * (img_w * 3) + x * 3 == 3 * ((y - 1) * img_w + x)) by (nonlinear_arith);
}

/// The inner pixels of a row give their gradients from left to right, each that has a slope
/// and whose neighbors to the right and below the image has.
pub proof fn law_each_inner_pixel_gives_its_gradient(
    pixels: Seq<u8>,
    img_w: u32,
    crop: Crop,
    dx: int,
    dy: int,
)
    requires
        1 <= dx,
    ensures
        row_gradients(pixels, img_w, crop, dy, 1).len() == 0,
        ({
            let x = crop.x0 + dx;
            let y = crop.y0 + dy;
            let slope = slope_at(pixels, img_w, x, y);
            let there = 3 * ((y + 1) * img_w + x) + 1 < pixels.len() && 3 * (y * img_w + x + 1) + 1
                < pixels.len();
            row_gradients(pixels, img_w, crop, dy, dx + 1) == (if there && (slope.0 != 0 || slope.1
                != 0) {
                row_gradients(pixels, img_w, crop, dy, dx).push(gradient_of(slope))
            } else {
                row_gradients(pixels, img_w, crop, dy, dx)
            })
        }),
        gradients_of(pixels, img_w, crop, 1).len() == 0,
        1 <= dy ==> gradients_of(pixels, img_w, crop, dy + 1) == gradients_of(
            pixels,
            img_w,
            crop,
            dy,
        ) + row_gradients(pixels, img_w, crop, dy, crop.width - 1),
{
    let x = crop.x0 + dx;
    let y = crop.y0 + dy;
    assert((y + 1) * (img_w * 3) + x * 3 == 3 * ((y + 1) * img_w + x)) by (nonlinear_arith);
    assert(y * (img_w * 3) + (x + 1) * 3 == 3 * (y * img_w + (x + 1))) by (nonlinear_arith);
}

/// Looks with fewer than sixty-four numbers are not compared; others are compared as in the
/// dark exactly up to the brightness that counts as dark.
pub proof fn law_brightness_decides_how_looks_are_compared(
    a_len: usize,
    b_len: usize,
    avg_brightness: Stamp,
)
    ensures
        a_len < 64 || b_len < 64 ==> comparison(a_len, b_len, avg_brightness)
            == Comparison::Apart,
        a_len >= 64 && b_len >= 64 && avg_brightness > DARK_THRESHOLD ==> comparison(
            a_len,
            b_len,
            avg_brightness,
        ) == Comparison::Bright,
        a_len >= 64 && b_len >= 64 && avg_brightness <= DARK_THRESHOLD ==> comparison(
            a_len,
            b_len,
            avg_brightness,
        ) == Comparison::Dark,
{
}

} // verus!
