use fractal_renderer::chunks::{init_progress, Chunk, ChunkDimensions, Progress, CHUNK_SIZE, RDR_KERNEL_SIZE};
use fractal_renderer::coloring::{
    color_raw_image, normalize_max, normalize_min_max, overlay_gradient, ColoringMode, DevOptions,
    ToneCurve,
};
use fractal_renderer::error::ConfigError;
use fractal_renderer::fractal::{escape_orbit, shift_window, Fractal};
use fractal_renderer::gradient::{color_mapping, ColorStop, Gradient, T_ONE};
use fractal_renderer::grid::{reduce_samples, Grid};
use fractal_renderer::histogram::{
    bucket_index, compute_histogram, cumulate_histogram, get_histogram_value, max_value,
    min_value, HISTOGRAM_BUCKETS,
};
use fractal_renderer::sampling::{generate_sampling_points, SamplePoint};
use image::Rgb;
use num_complex::Complex;

fn mandelbrot_count(c: Complex<f64>, max_iter: u32) -> (u32, Vec<Complex<f64>>) {
    escape_orbit(
        Complex::new(0., 0.),
        Complex::new(0., 0.),
        max_iter,
        |z: &Complex<f64>| {
            let n = z * z + c;
            (n, n)
        },
        |z: &Complex<f64>| z.norm_sqr() >= 4.,
    )
}

/// Renders a frame of the classic recurrence chunk by chunk into a grid of
/// escape counts.
fn render_classic(width: u32, height: u32, zoom: f64, max_iter: u32) -> Grid<u64> {
    let dims = ChunkDimensions::new(width, height, 16).unwrap();
    let mut grid = Grid::new(width as usize, height as usize, 0u64);
    let plane_w = zoom;
    let plane_h = zoom * height as f64 / width as f64;
    let x_min = -plane_w / 2.;
    let y_min = -plane_h / 2.;
    for chunk in dims.chunks() {
        let mut values = Vec::new();
        for j in 0..chunk.height {
            for i in 0..chunk.width {
                let px = (chunk.x + i) as f64 + 0.5;
                let py = (chunk.y + j) as f64 + 0.5;
                let c = Complex::new(
                    x_min + px / width as f64 * plane_w,
                    y_min + py / height as f64 * plane_h,
                );
                values.push(mandelbrot_count(c, max_iter).0 as u64);
            }
        }
        grid.write_chunk(&chunk, &values);
    }
    grid
}

#[test]
fn nth_degree_rejects_empty_window() {
    assert_eq!(Fractal::nth_degree(0), Err(ConfigError::ZeroWindow));
    assert_eq!(Fractal::nth_degree(4), Ok(Fractal::NthDegreeWithGrowingExponent(4)));
    assert_eq!(Fractal::NthDegreeWithGrowingExponent(0).validate(), Err(ConfigError::ZeroWindow));
    assert_eq!(Fractal::Mandelbrot.validate(), Ok(()));
    assert_eq!(Fractal::ThirdDegreeWithGrowingExponent.window_len(), 3);
    assert_eq!(Fractal::NthDegreeWithGrowingExponent(7).window_len(), 7);
}

#[test]
fn orbit_of_bounded_point_has_max_iter_entries() {
    let (n, orbit) = mandelbrot_count(Complex::new(0., 0.), 50);
    assert_eq!(n, 50);
    assert_eq!(orbit.len(), 50);
    let (n, orbit) = mandelbrot_count(Complex::new(-1., 0.), 17);
    assert_eq!(n, 17);
    assert_eq!(orbit.len(), 17);
}

#[test]
fn orbit_keeps_escaping_term() {
    let (n, orbit) = mandelbrot_count(Complex::new(2., 0.), 50);
    assert_eq!(n, 1);
    assert_eq!(orbit, vec![Complex::new(2., 0.)]);
    let (n, orbit) = mandelbrot_count(Complex::new(1., 0.), 50);
    // 1, then 2, whose squared magnitude reaches 4
    assert_eq!(n, 2);
    assert_eq!(orbit, vec![Complex::new(1., 0.), Complex::new(2., 0.)]);
}

#[test]
fn orbit_with_integer_recurrence() {
    let (n, orbit) = escape_orbit(1u64, 1u64, 50, |s: &u64| (s * 2, s * 2), |t: &u64| *t >= 100);
    assert_eq!(n, 7);
    assert_eq!(orbit, vec![2, 4, 8, 16, 32, 64, 128]);
    let (n, orbit) = escape_orbit(1u64, 1u64, 3, |s: &u64| (s * 2, s * 2), |t: &u64| *t >= 100);
    assert_eq!(n, 3);
    assert_eq!(orbit, vec![2, 4, 8]);
    let (n, orbit) = escape_orbit(1u64, 500u64, 3, |s: &u64| (s * 2, s * 2), |t: &u64| *t >= 100);
    assert_eq!(n, 0);
    assert!(orbit.is_empty());
}

#[test]
fn lagged_recurrence_through_window() {
    // second-degree recurrence written with a window of two terms
    let c = Complex::new(0.25, 0.1);
    let step = |w: &Vec<Complex<f64>>| {
        let mut next = c;
        for (k, z) in w.iter().enumerate() {
            next += z.powi(k as i32 + 1);
        }
        let mut w2 = w.clone();
        shift_window(&mut w2, next);
        (w2, next)
    };
    let (n1, o1) = escape_orbit(vec![Complex::new(0., 0.); 2], Complex::new(0., 0.), 40, step, |z: &Complex<f64>| {
        z.norm_sqr() >= 4.
    });
    let (n2, o2) = escape_orbit(
        (Complex::new(0., 0.), Complex::new(0., 0.)),
        Complex::new(0., 0.),
        40,
        |s: &(Complex<f64>, Complex<f64>)| {
            let n = s.1 * s.1 + s.0 + c;
            ((s.1, n), n)
        },
        |z: &Complex<f64>| z.norm_sqr() >= 4.,
    );
    // same terms up to the order in which the sums were rounded
    assert_eq!(n1, n2);
    assert_eq!(o1.len(), o2.len());
    assert!(o1.iter().zip(o2.iter()).all(|(a, b)| (a - b).norm() < 1e-9));
}

#[test]
fn shift_window_drops_oldest() {
    let mut w = vec![1, 2, 3];
    shift_window(&mut w, 9);
    assert_eq!(w, vec![2, 3, 9]);
    let mut w = vec![5];
    shift_window(&mut w, 6);
    assert_eq!(w, vec![6]);
}

#[test]
fn default_gradient_ends_and_clamps() {
    assert_eq!(color_mapping(0, None), Rgb([2, 0, 4]));
    assert_eq!(color_mapping(T_ONE as i64, None), Rgb([240, 220, 210]));
    assert_eq!(color_mapping(-5_000_000, None), Rgb([2, 0, 4]));
    assert_eq!(color_mapping(3 * T_ONE as i64, None), Rgb([240, 220, 210]));
    assert_eq!(color_mapping(600_000, None), Rgb([80, 60, 100]));
}

#[test]
fn default_gradient_interpolates() {
    // halfway between 0.1 and 0.6
    assert_eq!(color_mapping(350_000, None), Rgb([41, 30, 52]));
    // a quarter of the way between 0.6 and 1.0
    assert_eq!(color_mapping(700_000, None), Rgb([120, 100, 127]));
}

#[test]
fn custom_gradient_checks_thresholds() {
    assert!(matches!(Gradient::new(vec![]), Err(ConfigError::EmptyGradient)));
    let unordered = vec![
        ColorStop { t: 500_000, color: Rgb([0, 0, 0]) },
        ColorStop { t: 500_000, color: Rgb([9, 9, 9]) },
    ];
    assert!(matches!(Gradient::new(unordered), Err(ConfigError::UnorderedGradient)));
    let beyond = vec![ColorStop { t: T_ONE + 1, color: Rgb([0, 0, 0]) }];
    assert!(matches!(Gradient::new(beyond), Err(ConfigError::UnorderedGradient)));
    let g = Gradient::new(vec![
        ColorStop { t: 0, color: Rgb([0, 0, 0]) },
        ColorStop { t: T_ONE, color: Rgb([200, 100, 50]) },
    ])
    .unwrap();
    assert_eq!(color_mapping(250_000, Some(&g)), Rgb([50, 25, 12]));
    assert_eq!(g.stops().len(), 2);
}

#[test]
fn chunk_dimensions_reject_zero() {
    assert!(matches!(ChunkDimensions::new(0, 10, 4), Err(ConfigError::ZeroWidth)));
    assert!(matches!(ChunkDimensions::new(10, 0, 4), Err(ConfigError::ZeroHeight)));
    assert!(matches!(ChunkDimensions::new(10, 10, 0), Err(ConfigError::ZeroTileSize)));
}

#[test]
fn chunk_partition_tiles_grid() {
    for &(w, h, size) in &[(10u32, 7u32, 3usize), (9, 9, 3), (1, 1, 5), (17, 4, 16), (5, 13, 1)] {
        let dims = ChunkDimensions::new(w, h, size).unwrap();
        let chunks = dims.chunks();
        let mut cover = vec![0u32; (w * h) as usize];
        let mut units = 0u128;
        for c in &chunks {
            assert!(c.width > 0 && c.height > 0);
            for y in c.y..c.y + c.height {
                for x in c.x..c.x + c.width {
                    cover[y * w as usize + x] += 1;
                }
            }
            units += ((c.width + 2 * RDR_KERNEL_SIZE) * (c.height + 2 * RDR_KERNEL_SIZE)) as u128;
        }
        assert!(cover.iter().all(|&n| n == 1));
        assert_eq!(init_progress(dims).total, units);
    }
}

#[test]
fn chunk_partition_of_large_frame() {
    let dims = ChunkDimensions::new(1000, 600, CHUNK_SIZE).unwrap();
    assert_eq!((dims.h_chunks, dims.last_h_chunk, dims.v_chunks, dims.last_v_chunk), (1, 488, 1, 88));
    let chunks = dims.chunks();
    assert_eq!(chunks.len(), 4);
    assert_eq!(
        chunks[3],
        Chunk { row_index: 1, col_index: 1, x: 512, y: 512, width: 488, height: 88 }
    );
    assert_eq!(init_progress(dims).total, 1004 * 604);
    // an axis that divides evenly has no empty trailing chunk
    let even = ChunkDimensions::new(1024, 512, CHUNK_SIZE).unwrap();
    assert_eq!(even.chunks().len(), 2);
    assert_eq!(init_progress(even).total, 2 * 514 * 514);
}

#[test]
fn progress_advances_and_saturates() {
    let mut p = Progress::new(200);
    assert_eq!(p.percent(), 0);
    p.advance(50);
    assert_eq!(p.percent(), 25);
    p.advance(1000);
    assert_eq!(p.done, 200);
    assert_eq!(p.percent(), 100);
    assert_eq!(Progress::new(0).percent(), 100);
}

#[test]
fn grid_get_set() {
    let mut g = Grid::new(3, 2, 7u64);
    assert_eq!(g.width(), 3);
    assert_eq!(g.height(), 2);
    g.set(2, 1, 9);
    assert_eq!(g.get(2, 1), 9);
    assert_eq!(g.get(0, 0), 7);
    assert_eq!(g.cells(), &vec![7, 7, 7, 7, 7, 9]);
}

#[test]
fn orbit_outside_bounds_adds_nothing() {
    let mut g = Grid::new(4, 4, 0u64);
    g.accumulate_orbit(&vec![(-1, 0), (4, 1), (2, -3), (0, 4), (100, 100)]);
    assert!(g.cells().iter().all(|&v| v == 0));
}

#[test]
fn orbit_crossings_each_count() {
    let mut g = Grid::new(4, 4, 1u64);
    g.accumulate_orbit(&vec![(1, 2), (3, 0), (1, 2), (-1, 2), (1, 2)]);
    assert_eq!(g.get(1, 2), 4);
    assert_eq!(g.get(3, 0), 2);
    assert_eq!(g.get(0, 0), 1);
}

#[test]
fn merge_adds_cellwise() {
    let mut a = Grid::new(2, 2, 1u64);
    let mut b = Grid::new(2, 2, 0u64);
    b.set(1, 1, 5);
    a.merge_add(&b);
    assert_eq!(a.cells(), &vec![1, 1, 1, 6]);
}

#[test]
fn write_chunk_places_values() {
    let mut g = Grid::new(4, 3, 0u64);
    let c = Chunk { row_index: 0, col_index: 1, x: 2, y: 1, width: 2, height: 2 };
    g.write_chunk(&c, &vec![1, 2, 3, 4]);
    assert_eq!(g.cells(), &vec![0, 0, 0, 0, 0, 0, 1, 2, 0, 0, 3, 4]);
}

#[test]
fn histogram_buckets_and_cdf() {
    let values = vec![0u64, 10, 10, 5, 2];
    let max = max_value(&values);
    assert_eq!(max, 10);
    assert_eq!(min_value(&values, max), 0);
    assert_eq!(bucket_index(10, 10), HISTOGRAM_BUCKETS - 1);
    assert_eq!(bucket_index(5, 10), HISTOGRAM_BUCKETS / 2);
    assert_eq!(bucket_index(3, 0), 0);
    let hist = compute_histogram(&values, max);
    assert_eq!(hist.len(), HISTOGRAM_BUCKETS);
    assert_eq!(hist[0], 1);
    assert_eq!(hist[HISTOGRAM_BUCKETS - 1], 2);
    assert_eq!(hist.iter().sum::<u64>(), 5);
    let cum = cumulate_histogram(&hist);
    assert!(cum.windows(2).all(|w| w[0] <= w[1]));
    assert_eq!(cum[HISTOGRAM_BUCKETS - 1], 5);
    assert_eq!(get_histogram_value(10, max, &cum, T_ONE), T_ONE);
    assert_eq!(get_histogram_value(0, max, &cum, T_ONE), 200_000);
    assert_eq!(get_histogram_value(5, max, &cum, T_ONE), 600_000);
}

#[test]
fn empty_values_have_zero_statistics() {
    let values: Vec<u64> = vec![];
    assert_eq!(max_value(&values), 0);
    let cum = cumulate_histogram(&compute_histogram(&values, 0));
    assert_eq!(get_histogram_value(0, 0, &cum, T_ONE), 0);
}

#[test]
fn normalizations() {
    assert_eq!(normalize_max(5, 10), 500_000);
    assert_eq!(normalize_max(20, 10), T_ONE);
    assert_eq!(normalize_max(0, 0), 0);
    assert_eq!(normalize_max(3, 0), T_ONE);
    assert_eq!(normalize_min_max(7, 5, 9), 500_000);
    assert_eq!(normalize_min_max(4, 5, 9), 0);
    assert_eq!(normalize_min_max(12, 5, 9), T_ONE);
    assert_eq!(normalize_min_max(5, 5, 5), 0);
    assert_eq!(ToneCurve::Power(2).apply(500_000), 250_000);
    assert_eq!(ToneCurve::Power(0).apply(123), T_ONE);
    assert_eq!(ToneCurve::Linear.apply(123), 123);
}

#[test]
fn black_and_white_thresholds() {
    let mut g = Grid::new(3, 1, 0u64);
    g.set(0, 0, 100);
    g.set(1, 0, 95);
    g.set(2, 0, 94);
    let img = color_raw_image(3, 1, &g, ColoringMode::BlackAndWhite, None, None);
    assert_eq!(img, vec![Rgb([0, 0, 0]), Rgb([0, 0, 0]), Rgb([255, 255, 255])]);
}

#[test]
fn max_norm_coloring() {
    let mut g = Grid::new(2, 1, 0u64);
    g.set(1, 0, 50);
    let mode = ColoringMode::MaxNorm { max: None, map: ToneCurve::Linear };
    let img = color_raw_image(2, 1, &g, mode, None, None);
    assert_eq!(img, vec![Rgb([2, 0, 4]), Rgb([240, 220, 210])]);
    let mode = ColoringMode::MaxNorm { max: Some(100), map: ToneCurve::Linear };
    let img = color_raw_image(2, 1, &g, mode, None, None);
    assert_eq!(img[1], color_mapping(500_000, None));
}

#[test]
fn min_max_coloring_of_flat_grid_is_constant() {
    let g = Grid::new(3, 2, 42u64);
    let mode = ColoringMode::MinMaxNorm { min: None, max: None, map: ToneCurve::Linear };
    let img = color_raw_image(3, 2, &g, mode, None, None);
    assert!(img.iter().all(|&p| p == Rgb([2, 0, 4])));
}

#[test]
fn histogram_coloring_sends_maximum_to_last_color() {
    let mut g = Grid::new(2, 2, 1u64);
    g.set(1, 1, 8);
    let mode = ColoringMode::CumulativeHistogram { map: ToneCurve::Linear };
    let img = color_raw_image(2, 2, &g, mode, None, None);
    assert_eq!(img[3], Rgb([240, 220, 210]));
    // three of four values share the lowest bucket: CDF 0.75
    assert_eq!(img[0], color_mapping(750_000, None));
}

#[test]
fn gradient_overlay_draws_strip() {
    let g = Grid::new(80, 20, 0u64);
    let dev = DevOptions { save_sampling_pattern: false, display_gradient: true };
    let mode = ColoringMode::MaxNorm { max: None, map: ToneCurve::Linear };
    let img = color_raw_image(80, 20, &g, mode, None, Some(dev));
    // strip spans x in 8..72, y in 4..12
    assert_eq!(img[4 * 80 + 8], color_mapping(0, None));
    assert_eq!(img[11 * 80 + 71], color_mapping(63 * 15_625, None));
    assert_eq!(img[11 * 80 + 71], Rgb([233, 213, 205]));
    assert_eq!(img[0], Rgb([2, 0, 4]));
    let mut pixels = vec![Rgb([1u8, 1, 1]); 80 * 20];
    overlay_gradient(&mut pixels, 80, 20, &Gradient::default_gradient());
    assert_eq!(pixels[3 * 80 + 8], Rgb([1, 1, 1]));
    assert_eq!(pixels[4 * 80 + 40], color_mapping(32 * 15_625, None));
}

#[test]
fn sampling_patterns_grow_and_stay_in_unit_square() {
    assert_eq!(generate_sampling_points(0), vec![SamplePoint { dx: 1, dy: 1, denom: 2 }]);
    let p = generate_sampling_points(1);
    assert_eq!(
        p,
        vec![
            SamplePoint { dx: 1, dy: 1, denom: 4 },
            SamplePoint { dx: 3, dy: 1, denom: 4 },
            SamplePoint { dx: 1, dy: 3, denom: 4 },
            SamplePoint { dx: 3, dy: 3, denom: 4 },
        ]
    );
    let mut last = 0;
    for level in 0..6 {
        let pts = generate_sampling_points(level);
        assert!(pts.len() > last);
        last = pts.len();
        assert!(pts.iter().all(|s| s.dx < s.denom && s.dy < s.denom));
    }
    assert_eq!(generate_sampling_points(4), generate_sampling_points(4));
}

#[test]
fn end_to_end_classic_frame() {
    let grid = render_classic(64, 64, 4., 50);
    for &(x, y) in &[(31usize, 31usize), (32, 32), (31, 32), (32, 31)] {
        assert_eq!(grid.get(x, y), 50);
    }
    for &(x, y) in &[(0usize, 0usize), (63, 0), (0, 63), (63, 63)] {
        assert!(grid.get(x, y) < 50);
    }
}

#[test]
fn identical_parameters_render_identical_images() {
    let mode = ColoringMode::CumulativeHistogram { map: ToneCurve::Power(2) };
    let a = color_raw_image(64, 64, &render_classic(64, 64, 4., 50), mode, None, None);
    let b = color_raw_image(64, 64, &render_classic(64, 64, 4., 50), mode, None, None);
    assert_eq!(a, b);
}

#[test]
fn samples_reduce_to_exact_sum() {
    assert_eq!(reduce_samples(&vec![3, 4, 50]), 57);
    assert_eq!(reduce_samples(&vec![]), 0);
    assert_eq!(reduce_samples(&vec![u32::MAX, u32::MAX]), 2 * u32::MAX as u64);
}

#[test]
fn chunk_units_include_margin() {
    let c = Chunk { row_index: 0, col_index: 0, x: 0, y: 0, width: 3, height: 5 };
    assert_eq!(c.units(), ((3 + 2 * RDR_KERNEL_SIZE) * (5 + 2 * RDR_KERNEL_SIZE)) as u128);
    assert_eq!(c.units(), 35);
}

#[test]
fn min_max_with_reversed_bounds_inverts_ramp() {
    assert_eq!(normalize_min_max(7, 10, 5), 600_000);
    assert_eq!(normalize_min_max(10, 10, 5), 0);
    assert_eq!(normalize_min_max(12, 10, 5), 0);
    assert_eq!(normalize_min_max(5, 10, 5), T_ONE);
    assert_eq!(normalize_min_max(2, 10, 5), T_ONE);
    let g = Grid::new(1, 1, 7u64);
    let mode = ColoringMode::MinMaxNorm { min: Some(10), max: Some(5), map: ToneCurve::Linear };
    let img = color_raw_image(1, 1, &g, mode, None, None);
    assert_eq!(img, vec![Rgb([80, 60, 100])]);
}
