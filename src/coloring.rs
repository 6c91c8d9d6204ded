use vstd::prelude::*;

use image::Rgb;

use crate::gradient::{active_stops, color_at, ColorStop, Gradient, T_ONE};
use crate::grid::{cell_index, Grid};
use crate::histogram::{
    cdf_value, compute_histogram, cumulate_histogram, cumulated, get_histogram_value,
    histogram_of, lemma_cumulative_histogram, lemma_histogram_total, max_value, min_value,
    seq_max, seq_min, HISTOGRAM_BUCKETS,
};

verus! {

/// Width of the calibration strip drawn by the gradient overlay, in pixels.
pub const GRADIENT_WIDTH: usize = 64;

/// Height of the calibration strip, in pixels.
pub const GRADIENT_HEIGHT: usize = 8;

/// Gap between the strip and the image's lower right corner, in pixels.
pub const GRADIENT_OFFSET: usize = 8;

/// A monotonic reshaping applied to normalized values before coloring.
#[derive(Debug, Clone, Copy, PartialEq, Eq, Structural)]
pub enum ToneCurve {
    /// Leaves values as they are.
    Linear,
    /// Raises the normalized value to an integer power.
    Power(u32),
}

/// How raw grid values become positions on the gradient.
#[derive(Debug, Clone, Copy, PartialEq, Eq, Structural)]
pub enum ColoringMode {
    /// Divide by the grid maximum, then take the cumulative distribution.
    CumulativeHistogram { map: ToneCurve },
    /// `clamp(v / max, 0, 1)`, with the grid maximum unless overridden.
    MaxNorm { max: Option<u64>, map: ToneCurve },
    /// `clamp((v - min) / (max - min), 0, 1)`, with the grid extrema unless overridden.
    MinMaxNorm { min: Option<u64>, max: Option<u64>, map: ToneCurve },
    /// Black where the value reaches 95% of the maximum, white elsewhere.
    BlackAndWhite,
}

/// Developer switches.
#[derive(Debug, Clone, Copy, PartialEq, Eq, Structural)]
pub struct DevOptions {
    pub save_sampling_pattern: bool,
    pub display_gradient: bool,
}

/// `T_ONE * (t / T_ONE)^e`, each product rounded down.
pub open spec fn pow_fixed(t: int, e: nat) -> int
    decreases e,
{
    if e == 0 {
        T_ONE as int
    } else {
        pow_fixed(t, (e - 1) as nat) * t / T_ONE as int
    }
}

/// The reshaped fixed-point value.
pub open spec fn apply_curve(c: ToneCurve, t: int) -> int {
    match c {
        ToneCurve::Linear => t,
        ToneCurve::Power(e) => pow_fixed(t, e as nat),
    }
}

/// `clamp(v / max, 0, 1)` in fixed point; a zero maximum sends any positive
/// value to one and zero to zero.
pub open spec fn max_norm(v: int, max: int) -> int {
    if max == 0 {
        if v > 0 { T_ONE as int } else { 0 }
    } else {
        let t = v * T_ONE / max;
        if t < T_ONE { t } else { T_ONE as int }
    }
}

/// `min(num / den, 1)` in fixed point, rounded down.
pub open spec fn clamped_ratio(num: int, den: int) -> int {
    let t = num * T_ONE / den;
    if t < T_ONE { t } else { T_ONE as int }
}

/// `clamp((v - min) / (max - min), 0, 1)` in fixed point, rounded down.
/// Equal bounds give zero; reversed bounds (`max < min`) give the inverted
/// ramp that the same quotient describes.
pub open spec fn min_max_norm(v: int, min: int, max: int) -> int {
    if max == min {
        0
    } else if max > min {
        if v <= min {
            0
        } else {
            clamped_ratio(v - min, max - min)
        }
    } else {
        if v >= min {
            0
        } else {
            clamped_ratio(min - v, min - max)
        }
    }
}

/// Whether the black-and-white mode paints `v` black.
pub open spec fn is_dark(v: int, max: int) -> bool {
    max > 0 && v * 20 >= max * 19
}

/// The color of a pixel with raw value `v`, given the grid's statistics.
pub open spec fn pixel_color_with(
    mode: ColoringMode,
    v: int,
    max_v: int,
    min_v: int,
    cumulative: Seq<u64>,
    stops: Seq<ColorStop>,
) -> Rgb<u8> {
    match mode {
        ColoringMode::CumulativeHistogram { map } => color_at(
            stops,
            apply_curve(map, cdf_value(v, max_v, cumulative, T_ONE as int)),
        ),
        ColoringMode::MaxNorm { max, map } => color_at(
            stops,
            apply_curve(
                map,
                max_norm(
                    v,
                    match max {
                        Some(m) => m as int,
                        None => max_v,
                    },
                ),
            ),
        ),
        ColoringMode::MinMaxNorm { min, max, map } => color_at(
            stops,
            apply_curve(
                map,
                min_max_norm(
                    v,
                    match min {
                        Some(m) => m as int,
                        None => min_v,
                    },
                    match max {
                        Some(m) => m as int,
                        None => max_v,
                    },
                ),
            ),
        ),
        ColoringMode::BlackAndWhite => if is_dark(v, max_v) {
            Rgb([0u8, 0u8, 0u8])
        } else {
            Rgb([255u8, 255u8, 255u8])
        },
    }
}

/// The color of a pixel with raw value `v` in a grid whose cells are `cells`.
pub open spec fn pixel_color(
    mode: ColoringMode,
    v: int,
    cells: Seq<u64>,
    stops: Seq<ColorStop>,
) -> Rgb<u8> {
    let max_v = seq_max(cells);
    pixel_color_with(
        mode,
        v,
        max_v as int,
        seq_min(cells, max_v) as int,
        cumulated(histogram_of(cells, max_v as int)),
        stops,
    )
}

/// Whether `(x, y)` lies in the calibration strip of a `w` x `h` image.
pub open spec fn in_strip(w: int, h: int, x: int, y: int) -> bool {
    w - GRADIENT_WIDTH - GRADIENT_OFFSET <= x < w - GRADIENT_OFFSET && h - GRADIENT_HEIGHT
        - GRADIENT_OFFSET <= y < h - GRADIENT_OFFSET
}

/// The strip's color at column `x`: the ramp sampled at `i / GRADIENT_WIDTH`.
pub open spec fn strip_color(stops: Seq<ColorStop>, w: int, x: int) -> Rgb<u8> {
    color_at(stops, (x - (w - GRADIENT_WIDTH - GRADIENT_OFFSET)) * T_ONE / GRADIENT_WIDTH as int)
}

proof fn lemma_pow_fixed_bounded(t: int, e: nat)
    requires
        0 <= t <= T_ONE,
    ensures
        0 <= pow_fixed(t, e) <= T_ONE,
    decreases e,
{
    if e > 0 {
        let p = pow_fixed(t, (e - 1) as nat);
        lemma_pow_fixed_bounded(t, (e - 1) as nat);
        assert(0 <= p * t <= T_ONE * T_ONE) by (nonlinear_arith)
            requires
                0 <= p <= T_ONE,
                0 <= t <= T_ONE,
        ;
        vstd::arithmetic::div_mod::lemma_div_is_ordered(p * t, T_ONE * T_ONE, T_ONE as int);
        vstd::arithmetic::div_mod::lemma_div_multiples_vanish(T_ONE as int, T_ONE as int);
        vstd::arithmetic::div_mod::lemma_div_pos_is_pos(p * t, T_ONE as int);
    }
}

/// A tone curve never lowers the order of two values.
pub proof fn lemma_curve_monotone(c: ToneCurve, a: int, b: int)
    requires
        0 <= a <= b <= T_ONE,
    ensures
        apply_curve(c, a) <= apply_curve(c, b),
{
    if let ToneCurve::Power(e) = c {
        lemma_pow_fixed_monotone(a, b, e as nat);
    }
}

proof fn lemma_pow_fixed_monotone(a: int, b: int, e: nat)
    requires
        0 <= a <= b <= T_ONE,
    ensures
        pow_fixed(a, e) <= pow_fixed(b, e),
    decreases e,
{
    if e > 0 {
        let pa = pow_fixed(a, (e - 1) as nat);
        let pb = pow_fixed(b, (e - 1) as nat);
        lemma_pow_fixed_monotone(a, b, (e - 1) as nat);
        lemma_pow_fixed_bounded(a, (e - 1) as nat);
        assert(pa * a <= pb * b) by (nonlinear_arith)
            requires
                0 <= pa <= pb,
                0 <= a <= b,
        ;
        vstd::arithmetic::div_mod::lemma_div_is_ordered(pa * a, pb * b, T_ONE as int);
    }
}

impl ToneCurve {
    /// Reshapes a fixed-point value of `[0, T_ONE]`.
    pub fn apply(&self, t: u64) -> (r: u64)
        requires
            t <= T_ONE,
        ensures
            r == apply_curve(*self, t as int),
            r <= T_ONE,
    {
        match self {
            ToneCurve::Linear => t,
            ToneCurve::Power(e) => {
                let mut acc: u64 = T_ONE;
                let mut k: u32 = 0;
                while k < *e
                    invariant
                        0 <= k <= *e,
                        t <= T_ONE,
                        acc == pow_fixed(t as int, k as nat),
                        acc <= T_ONE,
                    decreases *e - k,
                {
                    proof {
                        lemma_pow_fixed_bounded(t as int, (k + 1) as nat);
                        assert(acc * t <= T_ONE * T_ONE) by (nonlinear_arith)
                            requires
                                acc <= T_ONE,
                                t <= T_ONE,
                        ;
                    }
                    acc = acc * t / T_ONE;
                    k = k + 1;
                }
                acc
            },
        }
    }
}

/// `max_norm` on machine integers.
pub fn normalize_max(v: u64, max: u64) -> (r: u64)
    ensures
        r == max_norm(v as int, max as int),
        r <= T_ONE,
{
    if max == 0 {
        if v > 0 {
            T_ONE
        } else {
            0
        }
    } else {
        proof {
            assert(v as int * T_ONE as int <= u64::MAX as int * T_ONE as int) by (nonlinear_arith);
            vstd::arithmetic::div_mod::lemma_div_pos_is_pos(v as int * T_ONE as int, max as int);
        }
        let t: u128 = v as u128 * T_ONE as u128 / max as u128;
        if t < T_ONE as u128 {
            t as u64
        } else {
            T_ONE
        }
    }
}

/// `min_max_norm` on machine integers.
pub fn normalize_min_max(v: u64, min: u64, max: u64) -> (r: u64)
    ensures
        r == min_max_norm(v as int, min as int, max as int),
        r <= T_ONE,
{
    if max == min {
        0
    } else if max > min {
        if v <= min {
            0
        } else {
            ratio_clamped(v - min, max - min)
        }
    } else {
        if v >= min {
            0
        } else {
            ratio_clamped(min - v, min - max)
        }
    }
}

/// `min(num * T_ONE / den, T_ONE)`.
fn ratio_clamped(num: u64, den: u64) -> (r: u64)
    requires
        den > 0,
    ensures
        r == clamped_ratio(num as int, den as int),
{
    proof {
        assert(num as int * T_ONE as int <= u64::MAX as int * T_ONE as int) by (nonlinear_arith);
        vstd::arithmetic::div_mod::lemma_div_pos_is_pos(num as int * T_ONE as int, den as int);
    }
    let t: u128 = num as u128 * T_ONE as u128 / den as u128;
    if t < T_ONE as u128 {
        t as u64
    } else {
        T_ONE
    }
}

fn color_pixel(
    mode: ColoringMode,
    v: u64,
    max_v: u64,
    min_v: u64,
    cumulative: &Vec<u64>,
    gradient: &Gradient,
) -> (r: Rgb<u8>)
    requires
        mode is CumulativeHistogram ==> cumulative@.len() == HISTOGRAM_BUCKETS && forall|
            j: int,
            k: int,
        | 0 <= j <= k < HISTOGRAM_BUCKETS ==> #[trigger] cumulative@[j]
            <= #[trigger] cumulative@[k],
    ensures
        r == pixel_color_with(
            mode,
            v as int,
            max_v as int,
            min_v as int,
            cumulative@,
            gradient@,
        ),
{
    match mode {
        ColoringMode::CumulativeHistogram { map } => {
            let t = map.apply(get_histogram_value(v, max_v, cumulative, T_ONE));
            gradient.color_at(t as i64)
        },
        ColoringMode::MaxNorm { max, map } => {
            let m = match max {
                Some(m) => m,
                None => max_v,
            };
            let t = map.apply(normalize_max(v, m));
            gradient.color_at(t as i64)
        },
        ColoringMode::MinMaxNorm { min, max, map } => {
            let lo = match min {
                Some(m) => m,
                None => min_v,
            };
            let hi = match max {
                Some(m) => m,
                None => max_v,
            };
            let t = map.apply(normalize_min_max(v, lo, hi));
            gradient.color_at(t as i64)
        },
        ColoringMode::BlackAndWhite => {
            if max_v > 0 && v as u128 * 20 >= max_v as u128 * 19 {
                Rgb([0u8, 0u8, 0u8])
            } else {
                Rgb([255u8, 255u8, 255u8])
            }
        },
    }
}

/// Draws the calibration strip into the lower right corner of a `w` x `h`
/// row-major pixel buffer; pixels outside the strip keep their colors.
pub fn overlay_gradient(pixels: &mut Vec<Rgb<u8>>, w: usize, h: usize, gradient: &Gradient)
    requires
        old(pixels)@.len() == w * h,
        w >= GRADIENT_WIDTH + GRADIENT_OFFSET,
        h >= GRADIENT_HEIGHT + GRADIENT_OFFSET,
    ensures
        final(pixels)@.len() == w * h,
        forall|x: int, y: int|
            0 <= x < w && 0 <= y < h ==> #[trigger] final(pixels)@[cell_index(w as int, x, y)] == if in_strip(
                w as int,
                h as int,
                x,
                y,
            ) {
                strip_color(gradient@, w as int, x)
            } else {
                old(pixels)@[cell_index(w as int, x, y)]
            },
{
    let x0 = w - GRADIENT_WIDTH - GRADIENT_OFFSET;
    let y0 = h - GRADIENT_HEIGHT - GRADIENT_OFFSET;
    let mut j: usize = 0;
    while j < GRADIENT_HEIGHT
        invariant
            pixels@.len() == w * h,
            old(pixels)@.len() == w * h,
            x0 == w - GRADIENT_WIDTH - GRADIENT_OFFSET,
            y0 == h - GRADIENT_HEIGHT - GRADIENT_OFFSET,
            0 <= j <= GRADIENT_HEIGHT,
            forall|x: int, y: int|
                0 <= x < w && 0 <= y < h ==> #[trigger] pixels@[cell_index(w as int, x, y)] == if in_strip(
                    w as int,
                    h as int,
                    x,
                    y,
                ) && y < y0 + j {
                    strip_color(gradient@, w as int, x)
                } else {
                    old(pixels)@[cell_index(w as int, x, y)]
                },
        decreases GRADIENT_HEIGHT - j,
    {
        let mut i: usize = 0;
        while i < GRADIENT_WIDTH
            invariant
                pixels@.len() == w * h,
                old(pixels)@.len() == w * h,
                x0 == w - GRADIENT_WIDTH - GRADIENT_OFFSET,
                y0 == h - GRADIENT_HEIGHT - GRADIENT_OFFSET,
                0 <= j < GRADIENT_HEIGHT,
                0 <= i <= GRADIENT_WIDTH,
                forall|x: int, y: int|
                    0 <= x < w && 0 <= y < h ==> #[trigger] pixels@[cell_index(w as int, x, y)]
                        == if in_strip(w as int, h as int, x, y) && (y < y0 + j || (y == y0 + j && x
                        < x0 + i)) {
                        strip_color(gradient@, w as int, x)
                    } else {
                        old(pixels)@[cell_index(w as int, x, y)]
                    },
            decreases GRADIENT_WIDTH - i,
        {
            let x = x0 + i;
            let y = y0 + j;
            let c = gradient.color_at((i as u64 * T_ONE / GRADIENT_WIDTH as u64) as i64);
            proof {
                crate::grid::lemma_cell_index(w as int, h as int, x as int, y as int);
            }
            let len = pixels.len();
            assert(y * w + x < len);
            let k = y * w + x;
            let ghost before = pixels@;
            pixels.set(k, c);
            proof {
                assert forall|a: int, b: int| 0 <= a < w && 0 <= b < h implies #[trigger] pixels@[cell_index(
                    w as int,
                    a,
                    b,
                )] == if in_strip(w as int, h as int, a, b) && (b < y0 + j || (b == y0 + j && a
                    < x0 + i + 1)) {
                    strip_color(gradient@, w as int, a)
                } else {
                    old(pixels)@[cell_index(w as int, a, b)]
                } by {
                    crate::grid::lemma_cell_index(w as int, h as int, a, b);
                    if a != x || b != y {
                        assert(cell_index(w as int, a, b) != cell_index(w as int, x as int, y as int));
                    }
                }
            }
            i = i + 1;
        }
        j = j + 1;
    }
}

/// The expected color of pixel `(x, y)` of a colored image.
pub open spec fn output_color(
    raw: Seq<u64>,
    w: int,
    h: int,
    x: int,
    y: int,
    mode: ColoringMode,
    stops: Seq<ColorStop>,
    overlay: bool,
) -> Rgb<u8> {
    if overlay && in_strip(w, h, x, y) {
        strip_color(stops, w, x)
    } else {
        pixel_color(mode, raw[cell_index(w, x, y)] as int, raw, stops)
    }
}

/// Whether the developer options ask for the calibration strip.
pub open spec fn wants_overlay(dev_options: Option<DevOptions>) -> bool {
    match dev_options {
        Some(d) => d.display_gradient,
        None => false,
    }
}

/// Colors a raw grid: every pixel goes through the tone mapping of
/// `coloring_mode` and then the gradient (custom or default); the
/// calibration strip is drawn on top when the developer options ask for it.
/// The result is row-major, `img_width * img_height` pixels.
pub fn color_raw_image(
    img_width: u32,
    img_height: u32,
    raw_image: &Grid<u64>,
    coloring_mode: ColoringMode,
    custom_gradient: Option<&Gradient>,
    dev_options: Option<DevOptions>,
) -> (r: Vec<Rgb<u8>>)
    requires
        raw_image.wf(),
        raw_image.spec_width() == img_width,
        raw_image.spec_height() == img_height,
        wants_overlay(dev_options) ==> img_width >= GRADIENT_WIDTH + GRADIENT_OFFSET
            && img_height >= GRADIENT_HEIGHT + GRADIENT_OFFSET,
    ensures
        r@.len() == img_width * img_height,
        forall|x: int, y: int|
            0 <= x < img_width && 0 <= y < img_height ==> #[trigger] r@[cell_index(
                img_width as int,
                x,
                y,
            )] == output_color(
                raw_image@,
                img_width as int,
                img_height as int,
                x,
                y,
                coloring_mode,
                active_stops(custom_gradient),
                wants_overlay(dev_options),
            ),
{
    let ghost w = img_width as int;
    let ghost h = img_height as int;
    let default_gradient = Gradient::default_gradient();
    let gradient = match custom_gradient {
        Some(g) => g,
        None => &default_gradient,
    };
    assert(gradient@ == active_stops(custom_gradient));
    let cells = raw_image.cells();
    let n = cells.len();
    let max_v = max_value(cells);
    let min_v = min_value(cells, max_v);
    let cumulative = match coloring_mode {
        ColoringMode::CumulativeHistogram { .. } => {
            let hist = compute_histogram(cells, max_v);
            proof {
                lemma_histogram_total(cells@, max_v as int);
            }
            cumulate_histogram(&hist)
        },
        _ => Vec::new(),
    };
    proof {
        if coloring_mode is CumulativeHistogram {
            lemma_cumulative_histogram(cells@, max_v as int);
        }
    }
    let mut out: Vec<Rgb<u8>> = Vec::new();
    let mut i: usize = 0;
    while i < n
        invariant
            n == cells@.len(),
            cells@ == raw_image@,
            0 <= i <= n,
            out@.len() == i,
            max_v == seq_max(cells@),
            min_v == seq_min(cells@, max_v),
            coloring_mode is CumulativeHistogram ==> cumulative@ == cumulated(
                histogram_of(cells@, max_v as int),
            ),
            coloring_mode is CumulativeHistogram ==> cumulative@.len() == HISTOGRAM_BUCKETS
                && forall|j: int, k: int|
                0 <= j <= k < HISTOGRAM_BUCKETS ==> #[trigger] cumulative@[j]
                    <= #[trigger] cumulative@[k],
            forall|k: int|
                0 <= k < i ==> #[trigger] out@[k] == pixel_color(
                    coloring_mode,
                    cells@[k] as int,
                    cells@,
                    gradient@,
                ),
        decreases n - i,
    {
        let c = color_pixel(coloring_mode, cells[i], max_v, min_v, &cumulative, gradient);
        out.push(c);
        i = i + 1;
    }
    let overlay = match dev_options {
        Some(d) => d.display_gradient,
        None => false,
    };
    let ghost before = out@;
    if overlay {
        overlay_gradient(&mut out, img_width as usize, img_height as usize, gradient);
    }
    proof {
        assert forall|x: int, y: int| 0 <= x < w && 0 <= y < h implies #[trigger] out@[cell_index(
            w,
            x,
            y,
        )] == output_color(
            raw_image@,
            w,
            h,
            x,
            y,
            coloring_mode,
            active_stops(custom_gradient),
            wants_overlay(dev_options),
        ) by {
            crate::grid::lemma_cell_index(w, h, x, y);
        }
    }
    out
}

/// Two images that both meet the contract of `color_raw_image` for the same
/// raw grid, size, mode, gradient and overlay choice are identical, pixel
/// for pixel: coloring the same parameters twice yields the same image.
pub proof fn lemma_coloring_deterministic(
    a: Seq<Rgb<u8>>,
    b: Seq<Rgb<u8>>,
    raw: Seq<u64>,
    w: int,
    h: int,
    mode: ColoringMode,
    stops: Seq<ColorStop>,
    overlay: bool,
)
    requires
        w >= 0,
        h >= 0,
        a.len() == w * h,
        b.len() == w * h,
        forall|x: int, y: int|
            0 <= x < w && 0 <= y < h ==> #[trigger] a[cell_index(w, x, y)] == output_color(
                raw,
                w,
                h,
                x,
                y,
                mode,
                stops,
                overlay,
            ),
        forall|x: int, y: int|
            0 <= x < w && 0 <= y < h ==> #[trigger] b[cell_index(w, x, y)] == output_color(
                raw,
                w,
                h,
                x,
                y,
                mode,
                stops,
                overlay,
            ),
    ensures
        a == b,
{
    assert forall|i: int| 0 <= i < a.len() implies a[i] == b[i] by {
        let x = i % w;
        let y = i / w;
        vstd::arithmetic::div_mod::lemma_fundamental_div_mod(i, w);
        vstd::arithmetic::div_mod::lemma_mod_pos_bound(i, w);
        assert(0 <= y < h) by (nonlinear_arith)
            requires
                i == w * y + x,
                0 <= x < w,
                0 <= i < w * h,
        ;
        assert(cell_index(w, x, y) == i) by (nonlinear_arith)
            requires
                i == w * y + x,
        ;
    }
    assert(a =~= b);
}

} // verus!
