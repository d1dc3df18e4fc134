use signal_locate::error::HeatError;
use signal_locate::field::{compute_field, compute_field_full, Kernel, Sample, WEIGHT_ONE};
use signal_locate::heatmap::{gen_heatmap, generate_random, radius_for, random_samples};
use signal_locate::levels::{level, normalize, LEVEL_ONE};
use signal_locate::palette::{render, Palette};
use signal_locate::raster::{overlay_image, Color, Raster, BASE_WEIGHT, HEAT_WEIGHT};

fn gaussian_kernel(radius: usize) -> Kernel {
    let sigma = radius as f64 / 2.0;
    let weights: Vec<u32> = (0..=3 * radius)
        .map(|d| {
            let d = d as f64;
            ((-(d * d) / (2.0 * sigma * sigma)).exp() * WEIGHT_ONE as f64).round() as u32
        })
        .collect();
    Kernel::new(radius, weights).unwrap()
}

fn three_colors() -> Palette {
    Palette::new(vec![
        Color { r: 255, g: 0, b: 0 },
        Color { r: 255, g: 255, b: 0 },
        Color { r: 0, g: 128, b: 0 },
    ])
    .unwrap()
}

fn sample(x: i32, y: i32, strength: i32) -> Sample {
    Sample { x, y, strength }
}

#[test]
fn no_samples_give_a_zero_field() {
    let kernel = gaussian_kernel(2);
    let field = compute_field(&Vec::new(), 7, 5, &kernel).unwrap();
    assert_eq!(field.cells.len(), 35);
    assert!(field.cells.iter().all(|&c| c == 0));
    let levels = normalize(&field);
    assert!(levels.iter().all(|&l| l == 0));
}

#[test]
fn no_samples_render_the_first_color() {
    let kernel = gaussian_kernel(2);
    let palette = three_colors();
    let img = gen_heatmap(&Vec::new(), 6, 4, &kernel, &palette).unwrap();
    assert_eq!((img.width, img.height), (6, 4));
    for y in 0..4 {
        for x in 0..6 {
            assert_eq!(img.pixel(x, y), Color { r: 255, g: 0, b: 0 });
        }
    }
}

#[test]
fn levels_stay_in_unit_range() {
    let kernel = gaussian_kernel(3);
    let samples = vec![sample(3, 4, 70), sample(10, 2, -40), sample(15, 15, 1000), sample(-5, 30, 9)];
    let field = compute_field(&samples, 20, 20, &kernel).unwrap();
    let levels = normalize(&field);
    assert!(levels.iter().all(|&l| l <= LEVEL_ONE));
    assert!(levels.iter().any(|&l| l == LEVEL_ONE));
    // the negative sample's neighbourhood is clamped to zero
    assert_eq!(levels[2 * 20 + 10], 0);
}

#[test]
fn single_sample_peaks_at_its_position() {
    let radius = 3;
    let kernel = gaussian_kernel(radius);
    let samples = vec![sample(10, 10, 60)];
    let field = compute_field(&samples, 21, 21, &kernel).unwrap();
    let levels = normalize(&field);
    let at = |x: usize, y: usize| levels[y * 21 + x];
    assert_eq!(at(10, 10), LEVEL_ONE);
    for d in 0..10 {
        assert!(at(10 + d, 10) >= at(11 + d, 10));
        assert!(at(10, 10 - d) >= at(10, 9 - d));
        assert_eq!(at(10 + d, 10), at(10 - d, 10));
        assert_eq!(at(10, 10 + d), at(10, 10 - d));
    }
    // the normalized field follows the Gaussian
    let sigma = radius as f64 / 2.0;
    for y in 0..21usize {
        for x in 0..21usize {
            let dx = x as f64 - 10.0;
            let dy = y as f64 - 10.0;
            let expected = if dx.abs() <= 9.0 && dy.abs() <= 9.0 {
                (-(dx * dx + dy * dy) / (2.0 * sigma * sigma)).exp()
            } else {
                0.0
            };
            let got = at(x, y) as f64 / LEVEL_ONE as f64;
            assert!((got - expected).abs() < 1e-3, "({}, {}): {} vs {}", x, y, got, expected);
        }
    }
}

#[test]
fn windowed_and_full_fields_agree() {
    let kernel = gaussian_kernel(2);
    let samples = vec![
        sample(0, 0, 10),
        sample(5, 7, 35),
        sample(31, 3, 80),
        sample(12, 12, -15),
        sample(-4, 9, 50),
        sample(40, 40, 99),
    ];
    let fast = compute_field(&samples, 32, 16, &kernel).unwrap();
    let full = compute_field_full(&samples, 32, 16, &kernel).unwrap();
    assert_eq!(fast.cells, full.cells);
}

#[test]
fn far_samples_do_not_interact() {
    let kernel = gaussian_kernel(3);
    let samples = vec![sample(2, 2, 50), sample(17, 17, 80)];
    let field = compute_field(&samples, 20, 20, &kernel).unwrap();
    let w = &kernel.weights;
    // brute force over every cell and sample
    for y in 0..20i64 {
        for x in 0..20i64 {
            let mut v: i128 = 0;
            for s in &samples {
                let dx = (x - s.x as i64).unsigned_abs() as usize;
                let dy = (y - s.y as i64).unsigned_abs() as usize;
                if dx < w.len() && dy < w.len() {
                    v += s.strength as i128 * w[dx] as i128 * w[dy] as i128;
                }
            }
            assert_eq!(field.get(x as usize, y as usize), v);
        }
    }
    let w0 = w[0] as i128;
    assert_eq!(field.get(2, 2), 50 * w0 * w0);
    assert_eq!(field.get(17, 17), 80 * w0 * w0);
}

#[test]
fn zero_width_is_rejected() {
    let kernel = gaussian_kernel(1);
    let palette = three_colors();
    assert!(matches!(gen_heatmap(&Vec::new(), 0, 5, &kernel, &palette), Err(HeatError::InvalidDimensions)));
    assert!(matches!(compute_field(&Vec::new(), 5, 0, &kernel), Err(HeatError::InvalidDimensions)));
    assert!(matches!(
        gen_heatmap(&Vec::new(), usize::MAX, 2, &kernel, &palette),
        Err(HeatError::InvalidDimensions)
    ));
}

#[test]
fn empty_palette_is_rejected() {
    assert!(matches!(Palette::new(Vec::new()), Err(HeatError::EmptyGradient)));
}

#[test]
fn kernels_are_checked() {
    assert!(matches!(Kernel::new(0, vec![1]), Err(HeatError::InvalidKernel)));
    assert!(matches!(Kernel::new(1, vec![10, 5, 3]), Err(HeatError::InvalidKernel)));
    assert!(matches!(Kernel::new(1, vec![10, 5, 6, 1]), Err(HeatError::InvalidKernel)));
    assert!(matches!(Kernel::new(1, vec![WEIGHT_ONE + 1, 5, 3, 1]), Err(HeatError::InvalidKernel)));
    assert!(Kernel::new(1, vec![WEIGHT_ONE, 5, 5, 0]).is_ok());
}

#[test]
fn levels_divide_by_the_maximum() {
    assert_eq!(level(5, 10), 32768);
    assert_eq!(level(1, 3), 21845);
    assert_eq!(level(10, 10), LEVEL_ONE);
    assert_eq!(level(-3, 10), 0);
    assert_eq!(level(0, 0), 0);
    assert_eq!(level(3, 0), LEVEL_ONE);
    assert_eq!(level(i128::MAX - 1, i128::MAX), LEVEL_ONE - 1);
}

#[test]
fn render_looks_up_the_palette() {
    let palette = three_colors();
    let levels = vec![0, LEVEL_ONE, LEVEL_ONE / 2, LEVEL_ONE / 2 - 1];
    let img = render(&levels, 2, 2, &palette);
    assert_eq!(img.pixel(0, 0), Color { r: 255, g: 0, b: 0 });
    assert_eq!(img.pixel(1, 0), Color { r: 0, g: 128, b: 0 });
    assert_eq!(img.pixel(0, 1), Color { r: 255, g: 255, b: 0 });
    assert_eq!(img.pixel(1, 1), Color { r: 255, g: 0, b: 0 });
}

#[test]
fn heatmap_colors_the_peak_last() {
    let kernel = gaussian_kernel(1);
    let palette = three_colors();
    let img = gen_heatmap(&vec![sample(4, 1, 5)], 9, 3, &kernel, &palette).unwrap();
    assert_eq!(img.pixel(4, 1), Color { r: 0, g: 128, b: 0 });
    assert_eq!(img.pixel(0, 0), Color { r: 255, g: 0, b: 0 });
    assert_eq!(img.into_raw().len(), 81);
}

#[test]
fn overlay_blends_forty_sixty() {
    let base = Raster::from_raw(2, 1, vec![100, 200, 0, 255, 255, 255]).unwrap();
    let heat = Raster::from_raw(2, 1, vec![0, 50, 255, 255, 1, 3]).unwrap();
    let out = overlay_image(&base, &heat, BASE_WEIGHT, HEAT_WEIGHT).unwrap();
    assert_eq!(out.data, vec![40, 110, 153, 255, 102, 103]);
    for i in 0..6 {
        let expected = (base.data[i] as f64 * 0.4 + heat.data[i] as f64 * 0.6).floor();
        assert!((out.data[i] as f64 - expected).abs() <= 1.0);
    }
}

#[test]
fn overlay_saturates() {
    let base = Raster::from_raw(1, 1, vec![200, 10, 0]).unwrap();
    let heat = Raster::from_raw(1, 1, vec![200, 10, 0]).unwrap();
    let out = overlay_image(&base, &heat, 100, 100).unwrap();
    assert_eq!(out.data, vec![255, 20, 0]);
}

#[test]
fn overlay_rejects_mismatched_sizes() {
    let base = Raster::from_raw(10, 10, vec![0; 300]).unwrap();
    let heat = Raster::from_raw(10, 11, vec![0; 330]).unwrap();
    assert!(matches!(
        overlay_image(&base, &heat, BASE_WEIGHT, HEAT_WEIGHT),
        Err(HeatError::DimensionMismatch)
    ));
}

#[test]
fn raw_buffers_must_fit() {
    assert!(Raster::from_raw(2, 2, vec![0; 11]).is_none());
    assert!(Raster::from_raw(2, 2, vec![0; 13]).is_none());
    assert!(Raster::from_raw(2, 2, vec![0; 12]).is_some());
}

#[test]
fn radius_follows_sample_count() {
    assert_eq!(radius_for(1920, 20), 192);
    assert_eq!(radius_for(1000, 3), 383);
    assert_eq!(radius_for(800, 1), 840);
}

#[test]
fn random_samples_stay_in_bounds() {
    let samples = random_samples(200, 30, 7, 11);
    assert_eq!(samples.len(), 200);
    for s in &samples {
        assert!(0 <= s.x && s.x < 30);
        assert!(0 <= s.y && s.y < 7);
        assert!(0 <= s.strength && s.strength < 11);
    }
    assert!(samples.iter().any(|s| s.x != samples[0].x || s.y != samples[0].y));
}

#[test]
fn random_heatmap_has_the_demo_size() {
    let kernel = gaussian_kernel(4);
    let img = generate_random(&kernel, &three_colors());
    assert_eq!((img.width, img.height), (1920, 1080));
    assert_eq!(img.data.len(), 1920 * 1080 * 3);
}
