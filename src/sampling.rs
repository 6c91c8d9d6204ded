use vstd::prelude::*;

verus! {

/// A sub-pixel offset `(dx / denom, dy / denom)` inside the unit square.
#[derive(Debug, Clone, Copy, PartialEq, Eq, Structural)]
pub struct SamplePoint {
    pub dx: u32,
    pub dy: u32,
    pub denom: u32,
}

/// Points per axis at quality `level`.
pub open spec fn side(level: int) -> int {
    level + 1
}

/// Point `k` of the `n` x `n` stratified pattern: the centre of cell
/// `(k % n, k / n)`.
pub open spec fn sample_at(n: int, k: int) -> SamplePoint {
    SamplePoint {
        dx: (2 * (k % n) + 1) as u32,
        dy: (2 * (k / n) + 1) as u32,
        denom: (2 * n) as u32,
    }
}

/// The pattern at quality `level`: `(level + 1)^2` points, row by row.
pub open spec fn sampling_points(level: int) -> Seq<SamplePoint> {
    Seq::new((side(level) * side(level)) as nat, |k: int| sample_at(side(level), k))
}

/// Whether `p` lies in cell `(i, j)` of the unit square cut into `n` x `n` cells.
pub open spec fn in_cell(p: SamplePoint, n: int, i: int, j: int) -> bool {
    &&& i * p.denom <= p.dx * n < (i + 1) * p.denom
    &&& j * p.denom <= p.dy * n < (j + 1) * p.denom
}

/// Produces the fixed stratified offset pattern of quality `level`: the
/// centres of an `(level + 1)` x `(level + 1)` grid of cells, row by row.
pub fn generate_sampling_points(level: u32) -> (r: Vec<SamplePoint>)
    requires
        level < 0x7fff_ffff,
        (level + 1) * (level + 1) <= usize::MAX,
    ensures
        r@ == sampling_points(level as int),
{
    let n: u32 = level + 1;
    let mut out: Vec<SamplePoint> = Vec::new();
    let mut j: u32 = 0;
    while j < n
        invariant
            n == level + 1,
            level < 0x7fff_ffff,
            (level + 1) * (level + 1) <= usize::MAX,
            0 <= j <= n,
            out@.len() == j * n,
            forall|k: int| 0 <= k < out@.len() ==> out@[k] == sample_at(n as int, k),
        decreases n - j,
    {
        let mut i: u32 = 0;
        proof {
            assert((j + 1) * n == j * n + n) by (nonlinear_arith);
        }
        while i < n
            invariant
                n == level + 1,
                level < 0x7fff_ffff,
                0 <= j < n,
                0 <= i <= n,
                out@.len() == j * n + i,
                forall|k: int| 0 <= k < out@.len() ==> out@[k] == sample_at(n as int, k),
            decreases n - i,
        {
            proof {
                crate::grid::lemma_cell_index(n as int, n as int, i as int, j as int);
            }
            out.push(SamplePoint { dx: 2 * i + 1, dy: 2 * j + 1, denom: 2 * n });
            i = i + 1;
        }
        j = j + 1;
    }
    assert(out@ =~= sampling_points(level as int));
    out
}

/// Every offset of the pattern lies in `[0, 1)^2`, and each of the
/// `(level + 1)^2` cells of the unit square holds exactly one of them.
pub proof fn lemma_sampling_stratified(level: nat, i: int, j: int)
    requires
        level < 0x7fff_ffff,
        0 <= i < side(level as int),
        0 <= j < side(level as int),
    ensures
        forall|k: int|
            0 <= k < sampling_points(level as int).len() ==> #[trigger] sampling_points(
                level as int,
            )[k].dx < sampling_points(level as int)[k].denom && sampling_points(
                level as int,
            )[k].dy < sampling_points(level as int)[k].denom,
        in_cell(sampling_points(level as int)[j * side(level as int) + i], side(level as int), i, j),
        forall|k: int|
            0 <= k < sampling_points(level as int).len() && in_cell(
                #[trigger] sampling_points(level as int)[k],
                side(level as int),
                i,
                j,
            ) ==> k == j * side(level as int) + i,
{
    let n = side(level as int);
    let s = sampling_points(level as int);
    crate::grid::lemma_cell_index(n, n, i, j);
    assert forall|k: int| 0 <= k < s.len() implies #[trigger] s[k].dx < s[k].denom && s[k].dy
        < s[k].denom by {
        lemma_split(n, k);
    }
    let p = s[j * n + i];
    assert(p.dx == 2 * i + 1 && p.dy == 2 * j + 1 && p.denom == 2 * n);
    assert(i * (2 * n) <= (2 * i + 1) * n < (i + 1) * (2 * n)) by (nonlinear_arith)
        requires
            n > 0,
            i >= 0,
    ;
    assert(j * (2 * n) <= (2 * j + 1) * n < (j + 1) * (2 * n)) by (nonlinear_arith)
        requires
            n > 0,
            j >= 0,
    ;
    assert forall|k: int| 0 <= k < s.len() && in_cell(#[trigger] s[k], n, i, j) implies k == j * n
        + i by {
        lemma_split(n, k);
        let a = k % n;
        let b = k / n;
        assert(s[k].dx == 2 * a + 1 && s[k].dy == 2 * b + 1 && s[k].denom == 2 * n);
        lemma_cell_of_centre(n, a, i);
        lemma_cell_of_centre(n, b, j);
        vstd::arithmetic::div_mod::lemma_fundamental_div_mod(k, n);
        assert(k == b * n + a) by (nonlinear_arith)
            requires
                k == n * b + a,
        ;
    }
}

proof fn lemma_split(n: int, k: int)
    requires
        n > 0,
        0 <= k < n * n,
        n < 0x8000_0000,
    ensures
        0 <= k % n < n,
        0 <= k / n < n,
        2 * (k % n) + 1 < 2 * n,
        2 * (k / n) + 1 < 2 * n,
        2 * n <= u32::MAX,
{
    vstd::arithmetic::div_mod::lemma_fundamental_div_mod(k, n);
    vstd::arithmetic::div_mod::lemma_mod_pos_bound(k, n);
    assert(0 <= k / n < n) by (nonlinear_arith)
        requires
            k == n * (k / n) + k % n,
            0 <= k % n < n,
            0 <= k < n * n,
    ;
}

/// The centre of column `a` lies in cell `i` only when `a == i`.
proof fn lemma_cell_of_centre(n: int, a: int, i: int)
    requires
        n > 0,
        i * (2 * n) <= (2 * a + 1) * n < (i + 1) * (2 * n),
    ensures
        a == i,
{
    assert(a == i) by (nonlinear_arith)
        requires
            n > 0,
            i * (2 * n) <= (2 * a + 1) * n,
            (2 * a + 1) * n < (i + 1) * (2 * n),
    {
        assert(2 * i <= 2 * a + 1) by (nonlinear_arith)
            requires
                n > 0,
                i * (2 * n) <= (2 * a + 1) * n,
        ;
        assert(2 * a + 1 < 2 * i + 2) by (nonlinear_arith)
            requires
                n > 0,
                (2 * a + 1) * n < (i + 1) * (2 * n),
        ;
    }
}

/// A higher quality level yields strictly more points.
pub proof fn lemma_sampling_grows(a: nat, b: nat)
    requires
        a < b,
    ensures
        sampling_points(a as int).len() < sampling_points(b as int).len(),
{
    assert((a + 1) * (a + 1) < (b + 1) * (b + 1)) by (nonlinear_arith)
        requires
            a < b,
    ;
}

} // verus!
