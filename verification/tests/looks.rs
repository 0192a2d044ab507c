//! Looks of objects.
use postprocessor::embedding::{
    compute_embedding, crop_region, embedding_distance, Appearance, Comparison, Crop, Gradient,
    HsvBins, Total, DARK_THRESHOLD, EMBEDDING_SIZE,
};
use postprocessor::reading::{
    bits_of_level, bits_of_stamp, level_of_bits, stamp_of_bits, Level, Stamp, LEVEL_LIMIT,
    STAMP_LIMIT,
};
use wide::f32x8;

/// The reading of a real. What is not a number reads lower than everything.
fn level(value: f32) -> Level {
    level_or(value, Level::MIN)
}

/// The reading of a real, and of what is not a number.
fn level_or(value: f32, not_a_number: Level) -> Level {
    level_of_bits(value.to_bits()).unwrap_or(not_a_number)
}

/// The real behind a reading.
fn number(level: Level) -> f32 {
    if level.unsigned_abs() > LEVEL_LIMIT {
        return f32::NAN;
    }
    f32::from_bits(bits_of_level(level))
}

/// The reading of a 64-bit real. What is not a number reads lower than everything.
fn stamp(value: f64) -> Stamp {
    stamp_of_bits(value.to_bits()).unwrap_or(Stamp::MIN)
}

/// The real behind a 64-bit reading.
fn time(stamp: Stamp) -> f64 {
    if stamp.unsigned_abs() > STAMP_LIMIT {
        return f64::NAN;
    }
    f64::from_bits(bits_of_stamp(stamp))
}

/// The look of the part of an RGB image in a normalized box `[x, y, w, h]`, or `None` if
/// the part is too small.
fn look(pixels: &Vec<u8>, img_w: u32, img_h: u32, bbox: [f32; 4]) -> Option<Vec<f64>> {
    let [bx, by, bw, bh] = bbox;
    let left = (bx * img_w as f32) as u32;
    let top = (by * img_h as f32) as u32;
    let right = ((bx + bw) * img_w as f32).ceil() as u32;
    let bottom = ((by + bh) * img_h as f32).ceil() as u32;
    let crop = crop_region(left, top, right, bottom, img_w, img_h)?;
    assert!(
        img_w.checked_mul(3).is_some()
            && (crop.width - 1).checked_mul(4).is_some()
            && (crop.height - 1).checked_mul(4).is_some()
            && (img_h as usize).checked_mul(img_w as usize * 3).is_some()
            && crop.width.div_ceil(4) as u64 * crop.height.div_ceil(4) as u64 <= u32::MAX as u64,
        "the image is too large"
    );
    let seen = compute_embedding(pixels, img_w, img_h, left, top, right, bottom, &hsv_bins)?;
    Some(numbers(&seen))
}

fn numbers(seen: &Appearance) -> Vec<f64> {
    let mut look = vec![0.0; EMBEDDING_SIZE];
    for (i, count) in seen.colors.iter().enumerate() {
        look[i] = *count as f64;
    }
    for g in &seen.gradients {
        let (gx, gy) = (g.dx as f32, g.dy as f32);
        let angle = gy.atan2(gx) + std::f32::consts::PI;
        let bin = ((angle / (2.0 * std::f32::consts::PI)) * 8.0) as usize;
        let level = if g.strong { 8 } else { 0 };
        look[24 + level + bin.min(7)] += (gx * gx + gy * gy).sqrt() as f64;
    }
    for (i, cell) in seen.grid.iter().enumerate() {
        look[40 + i] = mean(cell);
    }
    look[60] = mean(&seen.brightness);
    look[61] = seen.crop.height as f64 / seen.crop.width as f64;
    l2_normalize(&mut look[0..24]);
    l2_normalize(&mut look[24..40]);
    l2_normalize(&mut look[40..56]);
    look
}

fn mean(total: &Total) -> f64 {
    if total.count == 0 {
        return 0.0;
    }
    total.sum as f64 / (total.count as f64 * 255.0)
}

/// Hue, saturation and value, in eighths.
fn hsv_bins(r: u8, g: u8, b: u8) -> HsvBins {
    let (h, s, v) = rgb_to_hsv(r, g, b);
    HsvBins {
        hue: (h * 8.0) as usize,
        saturation: (s * 8.0) as usize,
        value: (v * 8.0) as usize,
    }
}

/// RGB to HSV with all components in `[0, 1]`; floating point throughout.
fn rgb_to_hsv(r: u8, g: u8, b: u8) -> (f32, f32, f32) {
    let rf = r as f32 / 255.0;
    let gf = g as f32 / 255.0;
    let bf = b as f32 / 255.0;
    let max = rf.max(gf).max(bf);
    let min = rf.min(gf).min(bf);
    let delta = max - min;
    let s = if max > 0.0 { delta / max } else { 0.0 };
    let h = if delta < 1e-6 {
        0.0
    } else if max == rf {
        ((gf - bf) / delta).rem_euclid(6.0) / 6.0
    } else if max == gf {
        ((bf - rf) / delta + 2.0) / 6.0
    } else {
        ((rf - gf) / delta + 4.0) / 6.0
    };
    (h, s, max)
}

/// The distance of two looks, from 0 for identical ones to 1; floating point throughout.
fn distance(a: &[f64], b: &[f64]) -> f64 {
    let avg = match (a.get(60), b.get(60)) {
        (Some(x), Some(y)) => (x + y) * 0.5,
        _ => 0.0,
    };
    let color_weight = match embedding_distance(a.len(), b.len(), stamp(avg)) {
        Comparison::Apart => return f64::INFINITY,
        Comparison::Bright => 0.5,
        Comparison::Dark => 0.1,
    };
    let gradient_weight = 0.3;
    let spatial_weight = 1.0 - color_weight - gradient_weight;
    let distance = color_weight * cosine_distance(&a[0..24], &b[0..24])
        + gradient_weight * cosine_distance(&a[24..40], &b[24..40])
        + spatial_weight * cosine_distance(&a[40..56], &b[40..56]);
    distance.clamp(0.0, 1.0)
}

/// Scales a list to length 1; floating point throughout.
fn l2_normalize(data: &mut [f64]) {
    let norm_sq: f64 = data.iter().map(|x| x * x).sum();
    if norm_sq < 1e-12 {
        return;
    }
    let inv_norm = 1.0 / norm_sq.sqrt();
    for x in data.iter_mut() {
        *x *= inv_norm;
    }
}

/// 1 minus the cosine of the angle between two lists, eight numbers at a time; floating
/// point throughout.
fn cosine_distance(a: &[f64], b: &[f64]) -> f64 {
    let n = a.len().min(b.len());
    if n == 0 {
        return 1.0;
    }
    let chunks = n / 8;
    let mut dot_acc = f32x8::ZERO;
    let mut mag_a_acc = f32x8::ZERO;
    let mut mag_b_acc = f32x8::ZERO;
    for i in 0..chunks {
        let av = eight(&a[i * 8..i * 8 + 8]);
        let bv = eight(&b[i * 8..i * 8 + 8]);
        dot_acc += av * bv;
        mag_a_acc += av * av;
        mag_b_acc += bv * bv;
    }
    let mut dot = sum(dot_acc);
    let mut mag_a = sum(mag_a_acc);
    let mut mag_b = sum(mag_b_acc);
    for i in chunks * 8..n {
        dot += a[i] * b[i];
        mag_a += a[i] * a[i];
        mag_b += b[i] * b[i];
    }
    let denom = (mag_a * mag_b).sqrt();
    if denom < 1e-12 {
        return 0.0;
    }
    1.0 - (dot / denom)
}

fn eight(numbers: &[f64]) -> f32x8 {
    let mut lanes = [0.0f32; 8];
    for (lane, number) in lanes.iter_mut().zip(numbers) {
        *lane = *number as f32;
    }
    f32x8::new(lanes)
}

fn sum(lanes: f32x8) -> f64 {
    let lanes: [f32; 8] = lanes.into();
    lanes.iter().map(|x| *x as f64).sum()
}

fn solid_frame(r: u8, g: u8, b: u8) -> (Vec<u8>, u32, u32) {
    let w = 64u32;
    let h = 64u32;
    let mut pixels = vec![0u8; (w * h * 3) as usize];
    for i in 0..(w * h) as usize {
        pixels[i * 3] = r;
        pixels[i * 3 + 1] = g;
        pixels[i * 3 + 2] = b;
    }
    (pixels, w, h)
}

#[test]
fn same_frame_zero_distance() {
    let (pixels, w, h) = solid_frame(128, 64, 200);
    let bbox = [0.1, 0.1, 0.8, 0.8];
    let emb = look(&pixels, w, h, bbox).unwrap();
    let dist = distance(&emb, &emb);
    assert!(
        dist < 1e-6,
        "Same embedding should have ~0 distance, got {dist}"
    );
}

#[test]
fn different_colors_high_distance() {
    // Bright colors so adaptive weighting favors color features.
    let (pixels_a, w, h) = solid_frame(255, 200, 100);
    let (pixels_b, _, _) = solid_frame(50, 100, 255);
    let bbox = [0.0, 0.0, 1.0, 1.0];
    let emb_a = look(&pixels_a, w, h, bbox).unwrap();
    let emb_b = look(&pixels_b, w, h, bbox).unwrap();
    let dist = distance(&emb_a, &emb_b);
    assert!(
        dist > 0.05,
        "Different colors should have measurable distance, got {dist}"
    );
}

#[test]
fn too_small_crop_returns_none() {
    let (pixels, w, h) = solid_frame(128, 128, 128);
    let bbox = [0.0, 0.0, 10.0 / w as f32, 10.0 / h as f32];
    let result = look(&pixels, w, h, bbox);
    assert!(result.is_none());
}

#[test]
fn embedding_has_correct_size() {
    let (pixels, w, h) = solid_frame(100, 150, 200);
    let bbox = [0.0, 0.0, 1.0, 1.0];
    let emb = look(&pixels, w, h, bbox).unwrap();
    assert_eq!(emb.len(), EMBEDDING_SIZE);
}

fn appearance(pixels: &Vec<u8>, w: u32, h: u32) -> Appearance {
    compute_embedding(pixels, w, h, 0, 0, w, h, &hsv_bins).unwrap()
}

#[test]
fn a_plain_image_has_no_slopes_and_even_cells() {
    let (pixels, w, h) = solid_frame(100, 150, 200);
    let seen = appearance(&pixels, w, h);
    assert!(seen.gradients.is_empty());
    assert_eq!(
        seen.brightness,
        Total {
            sum: 64 * 64 * 150,
            count: 64 * 64
        }
    );
    assert!(seen.grid.iter().all(|cell| cell.count == 256 && cell.sum == 256 * 150));
    assert_eq!(seen.grid.len(), 16);
    assert_eq!(seen.colors.len(), 24);
    for of_a_kind in seen.colors.chunks(8) {
        assert_eq!(of_a_kind.iter().sum::<u64>(), 64 * 64);
    }
}

#[test]
fn the_pixels_are_shared_out_to_the_cells() {
    let mut pixels = vec![0u8; 61 * 47 * 3];
    for (i, byte) in pixels.iter_mut().enumerate() {
        *byte = (i * 7 % 251) as u8;
    }
    let seen = appearance(&pixels, 61, 47);
    let counts: u64 = seen.grid.iter().map(|cell| cell.count).sum();
    let sums: u64 = seen.grid.iter().map(|cell| cell.sum).sum();
    assert_eq!(counts, 61 * 47);
    let lightness: u64 = pixels
        .chunks(3)
        .map(|p| (p[0] as u64 + 2 * p[1] as u64 + p[2] as u64) / 4)
        .sum();
    assert_eq!(sums, lightness);
    assert_eq!(counts, seen.brightness.count);
}

#[test]
fn an_edge_has_strong_slopes() {
    let mut pixels = vec![0u8; 40 * 40 * 3];
    for y in 0..40 {
        for x in 20..40 {
            pixels[(y * 40 + x) * 3 + 1] = 90;
        }
    }
    let seen = appearance(&pixels, 40, 40);
    // 38 rows, and the slope is seen on both sides of the edge
    assert_eq!(seen.gradients.len(), 76);
    assert!(seen
        .gradients
        .iter()
        .all(|g| *g == Gradient { dx: 90, dy: 0, strong: true }));
    for y in 0..40 {
        for x in 20..40 {
            pixels[(y * 40 + x) * 3 + 1] = 30;
        }
    }
    let seen = appearance(&pixels, 40, 40);
    assert!(seen
        .gradients
        .iter()
        .all(|g| *g == Gradient { dx: 30, dy: 0, strong: false }));
}

#[test]
fn pixels_that_are_missing_are_left_out() {
    let pixels = vec![9u8; 64 * 10 * 3];
    let seen = appearance(&pixels, 64, 64);
    assert_eq!(
        seen.brightness,
        Total {
            sum: 64 * 10 * 9,
            count: 64 * 10
        }
    );
}

#[test]
fn crops_end_at_the_edges_of_the_image() {
    assert_eq!(
        crop_region(10, 20, 90, 90, 64, 64),
        Some(Crop {
            x0: 10,
            y0: 20,
            width: 54,
            height: 44
        })
    );
    assert_eq!(crop_region(0, 0, 20, 40, 64, 64).unwrap().width, 20);
    assert_eq!(crop_region(0, 0, 19, 40, 64, 64), None);
    assert_eq!(crop_region(0, 0, 20, 39, 64, 64), None);
    assert_eq!(crop_region(70, 0, 90, 64, 64, 64), None);
}

#[test]
fn dark_images_are_compared_by_form() {
    let whole = EMBEDDING_SIZE;
    assert_eq!(
        embedding_distance(whole - 1, whole, stamp(0.9)),
        Comparison::Apart
    );
    assert_eq!(
        embedding_distance(whole, whole - 1, stamp(0.9)),
        Comparison::Apart
    );
    assert_eq!(
        embedding_distance(whole, whole, stamp(0.31)),
        Comparison::Bright
    );
    assert_eq!(
        embedding_distance(whole, whole, stamp(0.3)),
        Comparison::Dark
    );
    assert_eq!(DARK_THRESHOLD, stamp(0.3));
    assert_eq!(distance(&[0.0; 3], &[0.0; 64]), f64::INFINITY);
}

#[test]
fn it_does_not_matter_which_look_comes_first() {
    for (a, b) in [(63, 64), (64, 64), (0, 63), (70, 64)] {
        for brightness in [0.0, 0.3, 0.31, 1.0] {
            let how = embedding_distance(a, b, stamp(brightness));
            assert_eq!(how, embedding_distance(b, a, stamp(brightness)));
            assert_eq!(how == Comparison::Apart, a < 64 || b < 64);
        }
    }
}
