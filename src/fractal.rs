use vstd::prelude::*;

use crate::error::ConfigError;

verus! {

/// The closed set of complex recurrences, all seeded at zero.
#[derive(Debug, Clone, Copy, PartialEq, Eq, Structural)]
pub enum Fractal {
    /// `z <- z^2 + c`.
    Mandelbrot,
    /// Two lagged terms: `z1 <- z1^2 + z0 + c`, then the window shifts.
    SecondDegreeWithGrowingExponent,
    /// Three lagged terms: `z2 <- z2^3 + z1^2 + z0 + c`, then the window shifts.
    ThirdDegreeWithGrowingExponent,
    /// A window of `n` terms: `new = c + sum_k window[k]^(k+1)`, then the window shifts.
    NthDegreeWithGrowingExponent(usize),
}

impl Fractal {
    /// A variant is usable when its window is not empty.
    pub open spec fn is_valid(self) -> bool {
        match self {
            Fractal::NthDegreeWithGrowingExponent(n) => n >= 1,
            _ => true,
        }
    }

    /// Number of lagged terms the recurrence keeps.
    pub open spec fn spec_window_len(self) -> nat {
        match self {
            Fractal::Mandelbrot => 1,
            Fractal::SecondDegreeWithGrowingExponent => 2,
            Fractal::ThirdDegreeWithGrowingExponent => 3,
            Fractal::NthDegreeWithGrowingExponent(n) => n as nat,
        }
    }

    /// Builds the `n`-term window recurrence; a window of zero terms is refused.
    pub fn nth_degree(n: usize) -> (r: Result<Fractal, ConfigError>)
        ensures
            n == 0 ==> r == Err::<Fractal, ConfigError>(ConfigError::ZeroWindow),
            n >= 1 ==> r == Ok::<Fractal, ConfigError>(Fractal::NthDegreeWithGrowingExponent(n)),
    {
        if n == 0 {
            Err(ConfigError::ZeroWindow)
        } else {
            Ok(Fractal::NthDegreeWithGrowingExponent(n))
        }
    }

    /// Checks a variant that arrived from a decoded configuration.
    pub fn validate(&self) -> (r: Result<(), ConfigError>)
        ensures
            r is Ok <==> self.is_valid(),
            r is Err ==> r == Err::<(), ConfigError>(ConfigError::ZeroWindow),
    {
        match self {
            Fractal::NthDegreeWithGrowingExponent(n) => {
                if *n == 0 {
                    Err(ConfigError::ZeroWindow)
                } else {
                    Ok(())
                }
            },
            _ => Ok(()),
        }
    }

    /// Number of lagged terms the recurrence keeps.
    pub fn window_len(&self) -> (r: usize)
        ensures
            r as nat == self.spec_window_len(),
    {
        match self {
            Fractal::Mandelbrot => 1,
            Fractal::SecondDegreeWithGrowingExponent => 2,
            Fractal::ThirdDegreeWithGrowingExponent => 3,
            Fractal::NthDegreeWithGrowingExponent(n) => *n,
        }
    }
}

/// The tracked term before step `k` of an orbit: the seed term, then each
/// recorded term in turn.
pub open spec fn term_before<T>(seed_term: T, orbit: Seq<T>, k: int) -> T {
    if k == 0 { seed_term } else { orbit[k - 1] }
}

/// Iterates a recurrence from state `seed`, whose tracked term is
/// `seed_term`, for as long as the tracked term has not escaped and fewer
/// than `max_iter` steps have run. Each step yields the next state and its
/// tracked term, which is recorded, the escaping one included. Returns the
/// number of steps and the recorded terms.
pub fn escape_orbit<S, T: Copy, F: Fn(&S) -> (S, T), E: Fn(&T) -> bool>(
    seed: S,
    seed_term: T,
    max_iter: u32,
    step: F,
    escaped: E,
) -> (r: (u32, Vec<T>))
    requires
        forall|s: S| #[trigger] step.requires((&s,)),
        forall|t: T| #[trigger] escaped.requires((&t,)),
    ensures
        r.0 as int == r.1@.len(),
        r.0 <= max_iter,
        forall|k: int|
            0 <= k < r.0 ==> escaped.ensures((&term_before(seed_term, r.1@, k),), false),
        r.0 < max_iter ==> escaped.ensures((&term_before(seed_term, r.1@, r.0 as int),), true),
        exists|states: Seq<S>|
            states.len() == r.0 + 1 && states[0] == seed && forall|k: int|
                0 <= k < r.0 ==> step.ensures((&states[k],), (states[k + 1], #[trigger] r.1@[k])),
{
    let mut state = seed;
    let mut term = seed_term;
    let mut values: Vec<T> = Vec::new();
    let mut i: u32 = 0;
    let ghost mut states: Seq<S> = seq![seed];
    loop
        invariant
            forall|s: S| #[trigger] step.requires((&s,)),
            forall|t: T| #[trigger] escaped.requires((&t,)),
            i as int == values@.len(),
            i <= max_iter,
            term == term_before(seed_term, values@, i as int),
            forall|k: int|
                0 <= k < i ==> escaped.ensures((&term_before(seed_term, values@, k),), false),
            states.len() == i + 1,
            states[0] == seed,
            states[i as int] == state,
            forall|k: int|
                0 <= k < i ==> step.ensures((&states[k],), (states[k + 1], #[trigger] values@[k])),
        ensures
            i as int == values@.len(),
            i <= max_iter,
            forall|k: int|
                0 <= k < i ==> escaped.ensures((&term_before(seed_term, values@, k),), false),
            i < max_iter ==> escaped.ensures((&term_before(seed_term, values@, i as int),), true),
            states.len() == i + 1,
            states[0] == seed,
            forall|k: int|
                0 <= k < i ==> step.ensures((&states[k],), (states[k + 1], #[trigger] values@[k])),
        decreases max_iter - i,
    {
        if i >= max_iter {
            break;
        }
        let out = escaped(&term);
        if out {
            break;
        }
        let (next, t) = step(&state);
        proof {
            states = states.push(next);
        }
        state = next;
        term = t;
        let ghost before = values@;
        values.push(t);
        proof {
            assert forall|k: int| 0 <= k < i + 1 implies escaped.ensures(
                (&term_before(seed_term, values@, k),),
                false,
            ) by {
                if k < i {
                    assert(term_before(seed_term, values@, k) == term_before(seed_term, before, k));
                }
            }
        }
        i = i + 1;
    }
    (i, values)
}

/// Shifts a sliding window one place left and appends `new` at its end.
pub fn shift_window<T: Copy>(window: &mut Vec<T>, new: T)
    requires
        old(window)@.len() >= 1,
    ensures
        final(window)@ == old(window)@.drop_first().push(new),
{
    let n = window.len();
    let mut k: usize = 0;
    while k + 1 < n
        invariant
            n == old(window)@.len(),
            n >= 1,
            window@.len() == n,
            0 <= k < n,
            forall|j: int| 0 <= j < k ==> window@[j] == old(window)@[j + 1],
            forall|j: int| k <= j < n ==> window@[j] == old(window)@[j],
        decreases n - k,
    {
        let v = window[k + 1];
        window.set(k, v);
        k = k + 1;
    }
    window.set(n - 1, new);
    assert(window@ =~= old(window)@.drop_first().push(new));
}

} // verus!
