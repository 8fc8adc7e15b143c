use libkayn::codec::{get_color_integer_from_gray, get_color_integer_from_rgb,
    get_rgb_from_color_integer, luminance};
use libkayn::error::EngineError;
use libkayn::pointwise::{grayscale, negative};
use libkayn::rank::{median, order_stat, RankStat};
use libkayn::spectral::{dct, dct_rows, freq_highpass, freq_lowpass, freq_normalize, idct, idct_rows};
use libkayn::threshold::{binarize, limiarize, otsu_threshold};
use libkayn::window::convolve;

/// Builds the scaled orthonormal cosine-basis table for one dimension:
/// entry `k * n + x` is `c(k) * cos(pi * (2x + 1) * k / (2n))` scaled by
/// the engine's fixed-point basis unit.
fn basis_table(n: usize) -> Vec<i64> {
    let mut t = vec![0i64; n * n];
    for k in 0..n {
        let c = if k == 0 {
            (1.0f64 / n as f64).sqrt()
        } else {
            (2.0f64 / n as f64).sqrt()
        };
        for x in 0..n {
            let angle = std::f64::consts::PI * (2.0 * x as f64 + 1.0) * k as f64 / (2.0 * n as f64);
            t[k * n + x] = (c * angle.cos() * 1048576.0).round() as i64;
        }
    }
    t
}

fn gray_of(packed: u32) -> u8 {
    ((packed >> 16) & 0xFF) as u8
}

#[test]
fn pack_unpack_round_trip() {
    let c = get_color_integer_from_rgb(12, 34, 56);
    assert_eq!(c, (12u32 << 16) | (34u32 << 8) | 56u32);
    assert_eq!(get_rgb_from_color_integer(c), [12, 34, 56]);
}

#[test]
fn pack_gray_repeats_channels() {
    assert_eq!(get_color_integer_from_gray(0x5A), 0x5A5A5A);
}

#[test]
fn luminance_rounds_to_nearest() {
    assert_eq!(luminance(&[10, 20, 30]), 20);
    assert_eq!(luminance(&[1, 1, 0]), 1);
    assert_eq!(luminance(&[1, 0, 0]), 0);
    assert_eq!(luminance(&[255, 255, 255]), 255);
}

#[test]
fn grayscale_packs_mean() {
    let out = grayscale(vec![[10, 20, 30], [0, 0, 0], [255, 255, 255]]);
    assert_eq!(out, vec![0x141414, 0x000000, 0xFFFFFF]);
}

#[test]
fn negative_inverts_reversed_channels() {
    let out = negative(vec![[10, 20, 30]]);
    assert_eq!(out, vec![(225u32 << 16) | (235u32 << 8) | 245u32]);
}

#[test]
fn convolve_identity_kernel_reproduces_interior() {
    let image: Vec<[u8; 3]> = (0..9u8).map(|i| [i, 10 + i, 20 + i]).collect();
    let kernel = vec![0, 0, 0, 0, 65536, 0, 0, 0, 0];
    let out = convolve(&image, &kernel, 3, 3).unwrap();
    assert_eq!(out.len(), 1);
    let center = image[4];
    assert_eq!(
        out[0],
        ((center[2] as u32) << 16) | ((center[1] as u32) << 8) | center[0] as u32
    );
}

#[test]
fn convolve_box_average_uniform() {
    let image = vec![[100u8, 100, 100]; 25];
    let kernel = vec![7282i64; 9];
    let out = convolve(&image, &kernel, 5, 5).unwrap();
    assert_eq!(out.len(), 9);
    assert_eq!(out[4], 0x646464);
    assert!(out.iter().all(|&c| c == 0x646464));
}

#[test]
fn convolve_rejects_bad_dimensions() {
    let image = vec![[0u8, 0, 0]; 8];
    let kernel = vec![0i64; 9];
    assert_eq!(
        convolve(&image, &kernel, 3, 3),
        Err(EngineError::InvalidDimensions)
    );
}

#[test]
fn convolve_rejects_bad_kernel() {
    let image = vec![[0u8, 0, 0]; 9];
    assert_eq!(
        convolve(&image, &vec![0i64; 5], 3, 3),
        Err(EngineError::InvalidKernel)
    );
    assert_eq!(
        convolve(&image, &vec![0i64; 25], 3, 3),
        Err(EngineError::InvalidKernel)
    );
}

#[test]
fn median_distance_zero_is_identity() {
    let image = vec![[1u8, 2, 3], [4, 5, 6], [7, 8, 9], [10, 11, 12]];
    let out = median(&image, 0, 2, 2).unwrap();
    let packed: Vec<u32> = image
        .iter()
        .map(|p| ((p[2] as u32) << 16) | ((p[1] as u32) << 8) | p[0] as u32)
        .collect();
    assert_eq!(out, packed);
}

#[test]
fn median_picks_middle_of_window() {
    let values = [4u8, 9, 2, 7, 5, 3, 8, 1, 6];
    let image: Vec<[u8; 3]> = values.iter().map(|&v| [v, 0, 0]).collect();
    let out = median(&image, 1, 3, 3).unwrap();
    assert_eq!(out, vec![5]);
}

#[test]
fn order_stat_min_max_midpoint() {
    let values = [4u8, 9, 2, 7, 5, 3, 8, 1, 6];
    let image: Vec<[u8; 3]> = values.iter().map(|&v| [v, 0, 0]).collect();
    assert_eq!(order_stat(&image, 1, 3, 3, RankStat::Min).unwrap(), vec![1]);
    assert_eq!(order_stat(&image, 1, 3, 3, RankStat::Max).unwrap(), vec![9]);
    assert_eq!(
        order_stat(&image, 1, 3, 3, RankStat::Midpoint).unwrap(),
        vec![5]
    );
}

#[test]
fn order_stat_rejects_large_window() {
    let image = vec![[0u8, 0, 0]; 9];
    assert_eq!(
        order_stat(&image, 2, 3, 3, RankStat::Median),
        Err(EngineError::InvalidKernel)
    );
}

#[test]
fn otsu_bimodal_threshold_between_modes() {
    let mut image = vec![[10u8, 10, 10]; 8];
    image.extend(vec![[240u8, 240, 240]; 8]);
    let t = otsu_threshold(&image);
    assert!(t > 10 && t < 240);
    assert_eq!(t, 11);
}

#[test]
fn otsu_flat_image_falls_back_to_zero() {
    let image = vec![[7u8, 7, 7]; 16];
    assert_eq!(otsu_threshold(&image), 0);
}

#[test]
fn binarize_emits_only_black_and_white() {
    let image = vec![[10u8, 10, 10], [200, 200, 200], [99, 100, 101], [0, 0, 0]];
    let out = binarize(image, 100);
    assert_eq!(out, vec![0x000000, 0xFFFFFF, 0xFFFFFF, 0x000000]);
    assert!(out.iter().all(|&c| c == 0x000000 || c == 0xFFFFFF));
}

#[test]
fn limiarize_keeps_bright_pixels() {
    let out = limiarize(vec![[10u8, 20, 200], [10, 10, 10]], 70);
    assert_eq!(out, vec![(200u32 << 16) | (20u32 << 8) | 10u32, 0x000000]);
}

#[test]
fn freq_normalize_rescales_to_full_range() {
    let out = freq_normalize(&vec![-100i64, 0, 100]);
    assert_eq!(out, vec![0x000000, 0x7F7F7F, 0xFFFFFF]);
}

#[test]
fn freq_normalize_flat_spectrum_is_black() {
    assert_eq!(freq_normalize(&vec![5i64, 5]), vec![0x000000, 0x000000]);
}

#[test]
fn dct_idct_round_trip_within_one() {
    let plane: Vec<u8> = vec![
        0, 255, 17, 130, 99, 3, 250, 42, 7, 77, 177, 217, 55, 128, 64, 200,
    ];
    let table = basis_table(4);
    let (_, raw) = dct(&plane, &table, &table, 4, 4).unwrap();
    let out = idct(&raw, &table, &table, 4, 4).unwrap();
    for i in 0..16 {
        let rec = gray_of(out[i]) as i32;
        let orig = plane[i] as i32;
        assert!((rec - orig).abs() <= 1, "sample {}: {} vs {}", i, rec, orig);
    }
}

#[test]
fn lowpass_zero_radius_reconstructs_mean() {
    let mut plane = vec![90u8; 8];
    plane.extend(vec![110u8; 8]);
    let table = basis_table(4);
    let (_, raw) = dct(&plane, &table, &table, 4, 4).unwrap();
    let (_, masked) = freq_lowpass(&raw, 4, 4, 0).unwrap();
    for k in 1..16 {
        assert_eq!(masked[k], 0);
    }
    let out = idct(&masked, &table, &table, 4, 4).unwrap();
    assert!(out.iter().all(|&c| c == out[0]));
    assert_eq!(out[0], 0x646464);
}

#[test]
fn highpass_large_radius_zeroes_everything() {
    let coeffs = vec![5i64, -3, 7, 9, 100, -40, 0, 1, 2, 3, 4, 5, 6, 7, 8, 9];
    let (_, masked) = freq_highpass(&coeffs, 4, 4, 10).unwrap();
    assert!(masked.iter().all(|&c| c == 0));
}

#[test]
fn highpass_keeps_far_coefficients() {
    let coeffs = vec![5i64, -3, 7, 9, 100, -40, 0, 1, 2, 3, 4, 5, 6, 7, 8, 9];
    let (_, masked) = freq_highpass(&coeffs, 4, 4, 1).unwrap();
    assert_eq!(masked[0], 0);
    assert_eq!(masked[1], 0);
    assert_eq!(masked[4], 0);
    assert_eq!(masked[2], 7);
    assert_eq!(masked[15], 9);
}

#[test]
fn dct_row_partition_concatenates_to_full_transform() {
    let plane: Vec<u8> = (0..16u8).map(|i| i.wrapping_mul(13)).collect();
    let table = basis_table(4);
    let top = dct_rows(&plane, &table, &table, 4, 4, 0, 2);
    let bottom = dct_rows(&plane, &table, &table, 4, 4, 2, 4);
    let (_, full) = dct(&plane, &table, &table, 4, 4).unwrap();
    let mut joined = top.clone();
    joined.extend(bottom);
    assert_eq!(joined, full);
}

#[test]
fn idct_row_partition_concatenates_to_full_inverse() {
    let plane: Vec<u8> = (0..16u8).map(|i| i.wrapping_mul(17)).collect();
    let table = basis_table(4);
    let (_, raw) = dct(&plane, &table, &table, 4, 4).unwrap();
    let top = idct_rows(&raw, &table, &table, 4, 4, 0, 3);
    let bottom = idct_rows(&raw, &table, &table, 4, 4, 3, 4);
    let full = idct(&raw, &table, &table, 4, 4).unwrap();
    let mut joined = top.clone();
    joined.extend(bottom);
    assert_eq!(joined, full);
}

#[test]
fn spectral_calls_reject_bad_dimensions() {
    let table = basis_table(4);
    assert_eq!(
        dct(&vec![0u8; 15], &table, &table, 4, 4),
        Err(EngineError::InvalidDimensions)
    );
    assert_eq!(
        idct(&vec![0i64; 15], &table, &table, 4, 4),
        Err(EngineError::InvalidDimensions)
    );
    assert_eq!(
        freq_lowpass(&vec![0i64; 15], 4, 4, 1),
        Err(EngineError::InvalidDimensions)
    );
}
