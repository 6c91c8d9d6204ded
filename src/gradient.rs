use vstd::prelude::*;

use image::Rgb;

use crate::error::ConfigError;

verus! {

/// The image crate's three-channel pixel: its one public field holds red,
/// green and blue in that order.
#[verifier::external_type_specification]
#[verifier::reject_recursive_types(T)]
pub struct ExRgb<T>(image::Rgb<T>);

/// Fixed-point scale of ramp positions: `T_ONE` stands for `1.0`.
pub const T_ONE: u64 = 1_000_000;

/// One control point of a gradient: a ramp position in `[0, T_ONE]` and its color.
#[derive(Debug, Clone, Copy)]
pub struct ColorStop {
    pub t: u64,
    pub color: Rgb<u8>,
}

/// A piecewise-linear color ramp over strictly increasing control points.
pub struct Gradient {
    stops: Vec<ColorStop>,
}

impl View for Gradient {
    type V = Seq<ColorStop>;

    closed spec fn view(&self) -> Seq<ColorStop> {
        self.stops@
    }
}

/// Control points are present, inside `[0, T_ONE]`, and strictly increasing.
pub open spec fn stops_wf(s: Seq<ColorStop>) -> bool {
    &&& s.len() >= 1
    &&& s[s.len() - 1].t <= T_ONE
    &&& forall|i: int, j: int| 0 <= i < j < s.len() ==> s[i].t < s[j].t
}

/// One channel blended between `a` and `b` at position `t` of `[ta, tb]`, rounded down.
pub open spec fn lerp_channel(a: u8, b: u8, ta: int, tb: int, t: int) -> int {
    (a as int * (tb - t) + b as int * (t - ta)) / (tb - ta)
}

/// The color blended between two neighbouring control points.
pub open spec fn lerp_color(lo: ColorStop, hi: ColorStop, t: int) -> Rgb<u8> {
    Rgb(
        [
            lerp_channel(lo.color.0[0], hi.color.0[0], lo.t as int, hi.t as int, t) as u8,
            lerp_channel(lo.color.0[1], hi.color.0[1], lo.t as int, hi.t as int, t) as u8,
            lerp_channel(lo.color.0[2], hi.color.0[2], lo.t as int, hi.t as int, t) as u8,
        ],
    )
}

/// The ramp's color at `t`: the first color at or below the first threshold,
/// the blend of the first bracketing pair inside, the last color beyond the end.
pub open spec fn color_at(s: Seq<ColorStop>, t: int) -> Rgb<u8>
    decreases s.len(),
{
    if s.len() <= 1 || t <= s[0].t {
        s[0].color
    } else if t <= s[1].t {
        lerp_color(s[0], s[1], t)
    } else {
        color_at(s.drop_first(), t)
    }
}

/// The three control points used when no gradient is configured: dark, mid, light.
pub open spec fn default_stops() -> Seq<ColorStop> {
    seq![
        ColorStop { t: 100_000, color: Rgb([2u8, 0u8, 4u8]) },
        ColorStop { t: 600_000, color: Rgb([80u8, 60u8, 100u8]) },
        ColorStop { t: 1_000_000, color: Rgb([240u8, 220u8, 210u8]) },
    ]
}

proof fn lemma_lerp_bounded(a: u8, b: u8, ta: int, tb: int, t: int)
    requires
        ta < tb,
        ta <= t <= tb,
    ensures
        0 <= lerp_channel(a, b, ta, tb, t) <= 255,
{
    let d = tb - ta;
    let n = a as int * (tb - t) + b as int * (t - ta);
    assert(0 <= n <= 255 * d) by (nonlinear_arith)
        requires
            n == a as int * (tb - t) + b as int * (t - ta),
            d == tb - ta,
            0 <= a <= 255,
            0 <= b <= 255,
            ta <= t <= tb,
    ;
    assert(0 <= n / d <= 255) by (nonlinear_arith)
        requires
            0 <= n <= 255 * d,
            d > 0,
    ;
}

fn lerp_channel_exec(a: u8, b: u8, ta: u64, tb: u64, t: u64) -> (r: u8)
    requires
        ta < tb <= T_ONE,
        ta <= t <= tb,
    ensures
        r as int == lerp_channel(a, b, ta as int, tb as int, t as int),
{
    proof {
        lemma_lerp_bounded(a, b, ta as int, tb as int, t as int);
        assert(a as u64 * (tb - t) <= 255 * T_ONE) by (nonlinear_arith)
            requires
                a <= 255,
                tb - t <= T_ONE,
        ;
        assert(b as u64 * (t - ta) <= 255 * T_ONE) by (nonlinear_arith)
            requires
                b <= 255,
                t - ta <= T_ONE,
        ;
    }
    let n: u64 = a as u64 * (tb - t) + b as u64 * (t - ta);
    (n / (tb - ta)) as u8
}

fn lerp_color_exec(lo: ColorStop, hi: ColorStop, t: u64) -> (r: Rgb<u8>)
    requires
        lo.t < hi.t <= T_ONE,
        lo.t <= t <= hi.t,
    ensures
        r == lerp_color(lo, hi, t as int),
{
    let r = lerp_channel_exec(lo.color.0[0], hi.color.0[0], lo.t, hi.t, t);
    let g = lerp_channel_exec(lo.color.0[1], hi.color.0[1], lo.t, hi.t, t);
    let b = lerp_channel_exec(lo.color.0[2], hi.color.0[2], lo.t, hi.t, t);
    Rgb([r, g, b])
}

/// Looks `t` up on the ramp given by `stops`.
pub fn map_gradient(t: i64, stops: &Vec<ColorStop>) -> (r: Rgb<u8>)
    requires
        stops_wf(stops@),
    ensures
        r == color_at(stops@, t as int),
{
    let n = stops.len();
    let first = stops[0];
    let last = stops[n - 1];
    if t <= first.t as i64 {
        return first.color;
    }
    if t >= last.t as i64 {
        proof { lemma_color_at_beyond_last(stops@, t as int); }
        return last.color;
    }
    let mut i: usize = 0;
    assert(stops@.subrange(0, n as int) =~= stops@);
    while i + 1 < n
        invariant
            stops_wf(stops@),
            n == stops@.len(),
            0 <= i < n,
            stops@[i as int].t < t,
            t < last.t,
            last == stops@[n - 1],
            color_at(stops@, t as int) == color_at(stops@.subrange(i as int, n as int), t as int),
        decreases n - i,
    {
        let lo = stops[i];
        let hi = stops[i + 1];
        let ghost rest = stops@.subrange(i as int, n as int);
        assert(rest[0] == lo && rest[1] == hi);
        if t <= hi.t as i64 {
            return lerp_color_exec(lo, hi, t as u64);
        }
        assert(rest.drop_first() =~= stops@.subrange(i + 1, n as int));
        i = i + 1;
    }
    last.color
}

impl Gradient {
    #[verifier::type_invariant]
    spec fn inv(&self) -> bool {
        stops_wf(self.stops@)
    }

    /// Checks and takes the control points of a custom gradient.
    pub fn new(stops: Vec<ColorStop>) -> (r: Result<Gradient, ConfigError>)
        ensures
            stops@.len() == 0 ==> r == Err::<Gradient, ConfigError>(ConfigError::EmptyGradient),
            stops@.len() > 0 && !stops_wf(stops@) ==> r == Err::<Gradient, ConfigError>(
                ConfigError::UnorderedGradient,
            ),
            stops_wf(stops@) <==> r is Ok,
            r matches Ok(g) ==> g@ == stops@,
    {
        let n = stops.len();
        if n == 0 {
            return Err(ConfigError::EmptyGradient);
        }
        if stops[n - 1].t > T_ONE {
            return Err(ConfigError::UnorderedGradient);
        }
        let mut k: usize = 0;
        while k + 1 < n
            invariant
                n == stops@.len(),
                n >= 1,
                0 <= k < n,
                forall|i: int, j: int| 0 <= i < j <= k ==> stops@[i].t < stops@[j].t,
            decreases n - k,
        {
            if stops[k].t >= stops[k + 1].t {
                return Err(ConfigError::UnorderedGradient);
            }
            k = k + 1;
        }
        Ok(Gradient { stops })
    }

    /// The dark-to-light ramp used when no gradient is configured.
    pub fn default_gradient() -> (r: Gradient)
        ensures
            r@ == default_stops(),
    {
        let stops = vec![
            ColorStop { t: 100_000, color: Rgb([2u8, 0u8, 4u8]) },
            ColorStop { t: 600_000, color: Rgb([80u8, 60u8, 100u8]) },
            ColorStop { t: 1_000_000, color: Rgb([240u8, 220u8, 210u8]) },
        ];
        assert(stops@ =~= default_stops());
        Gradient { stops }
    }

    /// The ramp's control points.
    pub fn stops(&self) -> (r: &Vec<ColorStop>)
        ensures
            r@ == self@,
            stops_wf(r@),
    {
        proof {
            use_type_invariant(self);
        }
        &self.stops
    }

    /// The ramp's color at fixed-point position `t`.
    pub fn color_at(&self, t: i64) -> (r: Rgb<u8>)
        ensures
            r == color_at(self@, t as int),
    {
        map_gradient(t, self.stops())
    }
}

/// The ramp in use: the custom one if given, else the default.
pub open spec fn active_stops(custom: Option<&Gradient>) -> Seq<ColorStop> {
    match custom {
        Some(g) => g@,
        None => default_stops(),
    }
}

/// Maps a fixed-point position (`T_ONE` is `1.0`) to a color on the custom
/// gradient, or on the default one; positions outside the thresholds clamp.
pub fn color_mapping(t: i64, custom_gradient: Option<&Gradient>) -> (r: Rgb<u8>)
    ensures
        r == color_at(active_stops(custom_gradient), t as int),
{
    match custom_gradient {
        Some(g) => g.color_at(t),
        None => {
            let g = Gradient::default_gradient();
            g.color_at(t)
        },
    }
}

/// On any valid ramp, a position at or below the first threshold gives
/// exactly the first color, and one at or beyond the last threshold gives
/// exactly the last color.
pub proof fn lemma_gradient_clamps(s: Seq<ColorStop>, t: int)
    requires
        stops_wf(s),
    ensures
        t <= s[0].t ==> color_at(s, t) == s[0].color,
        t >= s[s.len() - 1].t ==> color_at(s, t) == s[s.len() - 1].color,
{
    if t >= s[s.len() - 1].t {
        lemma_color_at_beyond_last(s, t);
    }
}

/// The default ramp gives exactly its first color at position `0` (and
/// below), and exactly its last color at position `1` (and beyond).
pub proof fn lemma_default_gradient_ends(t: int)
    ensures
        t <= 0 ==> color_at(default_stops(), t) == Rgb([2u8, 0u8, 4u8]),
        t >= T_ONE ==> color_at(default_stops(), t) == Rgb([240u8, 220u8, 210u8]),
{
    let s = default_stops();
    assert(stops_wf(s));
    lemma_gradient_clamps(s, t);
}

proof fn lemma_color_at_beyond_last(s: Seq<ColorStop>, t: int)
    requires
        stops_wf(s),
        t >= s[s.len() - 1].t,
    ensures
        color_at(s, t) == s[s.len() - 1].color,
    decreases s.len(),
{
    if s.len() > 1 {
        let rest = s.drop_first();
        assert(s[1].t <= s[s.len() - 1].t);
        if t <= s[1].t {
            assert(s.len() == 2);
            lemma_endpoint_exact(s[0], s[1]);
        } else {
            assert(rest[rest.len() - 1] == s[s.len() - 1]);
            lemma_color_at_beyond_last(rest, t);
        }
    }
}

/// Blending at the upper end of a bracket gives exactly its upper color.
proof fn lemma_endpoint_exact(lo: ColorStop, hi: ColorStop)
    requires
        lo.t < hi.t,
    ensures
        lerp_color(lo, hi, hi.t as int) == hi.color,
{
    let d = hi.t as int - lo.t as int;
    assert forall|k: int| 0 <= k < 3 implies lerp_channel(
        lo.color.0[k],
        hi.color.0[k],
        lo.t as int,
        hi.t as int,
        hi.t as int,
    ) == hi.color.0[k] as int by {
        let c = hi.color.0[k] as int;
        assert(lo.color.0[k] as int * 0 + c * d == c * d) by (nonlinear_arith);
        assert((c * d) / d == c) by (nonlinear_arith)
            requires
                d > 0,
        ;
    }
    assert(lerp_color(lo, hi, hi.t as int).0 =~= hi.color.0);
}

} // verus!
