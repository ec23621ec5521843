//! Which points of a grid stay bounded under a repeated square, scale and shift of
//! pairs, and reading the pairs from lines of text.

use crate::complex::{divide, lemma_quotient, multiply, quotient, sum, within_bounds_part_2, BOUND};
use crate::text::{fields, parse_isize, signed_of, split_fields, views};
use vstd::prelude::*;

verus! {

/// The number by which the square of a pair is scaled down in each cycle.
pub const SCALE: isize = 100000;

/// The number of cycles that a point has to stay bounded for.
pub const CYCLES: usize = 100;

/// The side of the grid, measured from its first point to its last.
pub const SIDE: isize = 1000;

/// Whether both parts lie within the bound, on either side of zero.
pub open spec fn bounded(v: (int, int)) -> bool {
    -BOUND <= v.0 <= BOUND && -BOUND <= v.1 <= BOUND
}

/// One cycle: the square of `result`, each part scaled down and rounded towards zero,
/// shifted by `point`.
pub open spec fn cycle(result: (int, int), point: (int, int)) -> (int, int) {
    (
        quotient(result.0 * result.0 - result.1 * result.1, SCALE as int) + point.0,
        quotient(result.0 * result.1 + result.1 * result.0, SCALE as int) + point.1,
    )
}

/// Where `n` cycles lead from `[0, 0]`; the cycles end once the pair is out of bounds.
pub open spec fn orbit(point: (int, int), n: nat) -> (int, int)
    decreases n,
{
    if n == 0 {
        (0, 0)
    } else {
        let before = orbit(point, (n - 1) as nat);
        if n > 1 && !bounded(before) {
            before
        } else {
            cycle(before, point)
        }
    }
}

/// Whether `point` is engraved: its pair is within bounds after all the cycles.
pub open spec fn engraved(point: (int, int)) -> bool {
    bounded(orbit(point, CYCLES as nat))
}

/// The engraved points among the first `n` of the column `x`, from `y` on in steps of
/// `step`.
pub open spec fn engraved_in_column(x: int, y: int, step: int, n: nat) -> nat
    decreases n,
{
    if n == 0 {
        0
    } else {
        engraved_in_column(x, y, step, (n - 1) as nat) + (if engraved((x, y + (n - 1) * step)) {
            1nat
        } else {
            0nat
        })
    }
}

/// The engraved points among the first `m` columns from `x` on in steps of `step`, `n`
/// points of each.
pub open spec fn engraved_in_grid(x: int, y: int, step: int, m: nat, n: nat) -> nat
    decreases m,
{
    if m == 0 {
        0
    } else {
        engraved_in_grid(x, y, step, (m - 1) as nat, n) + engraved_in_column(
            x + (m - 1) * step,
            y,
            step,
            n,
        )
    }
}

/// The number of points on a side of the grid for a step: the first point, and one for
/// each full step up to the side's length.
pub open spec fn points_per_side(step: int) -> nat {
    (SIDE as int / step + 1) as nat
}

/// Whether the machine's signed word is wide enough for the squares of bounded pairs,
/// and for the shift by `point` and its neighbours on the grid.
pub open spec fn wide_enough(point: (isize, isize)) -> bool {
    &&& isize::MAX >= 4 * (BOUND as int) * (BOUND as int)
    &&& isize::MIN <= point.0 - 100 * BOUND
    &&& point.0 + 100 * BOUND <= isize::MAX
    &&& isize::MIN <= point.1 - 100 * BOUND
    &&& point.1 + 100 * BOUND <= isize::MAX
}

/// No more points are counted than looked at.
pub proof fn lemma_engraved_bound(x: int, y: int, step: int, m: nat, n: nat)
    ensures
        engraved_in_column(x, y, step, n) <= n,
        engraved_in_grid(x, y, step, m, n) <= m * n,
    decreases m, n,
{
    if n > 0 {
        lemma_engraved_bound(x, y, step, 0, (n - 1) as nat);
    }
    if m > 0 {
        lemma_engraved_bound(x, y, step, (m - 1) as nat, n);
        lemma_engraved_bound(x + (m - 1) * step, y, step, 0, n);
        assert(m * n == (m - 1) * n + n) by (nonlinear_arith);
    }
}

/// One cycle of a bounded pair.
pub fn one_cycle(result: (isize, isize), point: (isize, isize)) -> (next: (isize, isize))
    requires
        bounded((result.0 as int, result.1 as int)),
        isize::MAX >= 4 * (BOUND as int) * (BOUND as int),
        isize::MIN <= point.0 - 100 * BOUND,
        point.0 + 100 * BOUND <= isize::MAX,
        isize::MIN <= point.1 - 100 * BOUND,
        point.1 + 100 * BOUND <= isize::MAX,
    ensures
        (next.0 as int, next.1 as int) == cycle(
            (result.0 as int, result.1 as int),
            (point.0 as int, point.1 as int),
        ),
{
    let ghost a = result.0 as int;
    let ghost b = result.1 as int;
    proof {
        let m = BOUND as int;
        assert(-(m * m) <= a * a <= m * m && -(m * m) <= b * b <= m * m && -(m * m) <= a * b <= m
            * m && -(m * m) <= b * a <= m * m) by (nonlinear_arith)
            requires
                -m <= a <= m,
                -m <= b <= m,
                m >= 0,
        {
        }
        assert(4 * (BOUND as int) * (BOUND as int) == 4 * (m * m)) by (nonlinear_arith)
            requires
                m == BOUND as int,
        {
        }
        lemma_quotient(a * a - b * b, SCALE as int);
        lemma_quotient(a * b + b * a, SCALE as int);
        assert(m * m == 1000000 * 1000000) by (nonlinear_arith)
            requires
                m == 1000000,
        {
        }
    }
    let squared = multiply(result, result);
    let scaled = divide(squared, (SCALE, SCALE));
    proof {
        lemma_scaled_bound(squared.0 as int);
        lemma_scaled_bound(squared.1 as int);
    }
    sum(scaled, point)
}

/// Scaling down a number within twice the bound's square leaves it within a hundred
/// times the bound.
pub proof fn lemma_scaled_bound(v: int)
    requires
        -2000000000000 <= v <= 2000000000000,
    ensures
        -100 * BOUND <= quotient(v, SCALE as int) <= 100 * BOUND,
{
    let n = if v >= 0 {
        v
    } else {
        -v
    };
    assert(n / 100000 <= 20000000) by (nonlinear_arith)
        requires
            0 <= n <= 2000000000000,
    {
    }
    assert(0 <= n / 100000) by (nonlinear_arith)
        requires
            0 <= n,
    {
    }
}

/// Whether `point` is engraved.
pub fn is_engraved(point: (isize, isize)) -> (yes: bool)
    requires
        wide_enough(point),
    ensures
        yes == engraved((point.0 as int, point.1 as int)),
{
    let mut result: (isize, isize) = (0, 0);
    let mut run: usize = 0;
    while run < CYCLES
        invariant
            run <= CYCLES,
            wide_enough(point),
            run >= 1 ==> bounded((result.0 as int, result.1 as int)),
            run == 0 ==> result == (0isize, 0isize),
            (result.0 as int, result.1 as int) == orbit(
                (point.0 as int, point.1 as int),
                run as nat,
            ),
        decreases CYCLES - run,
    {
        result = one_cycle(result, point);
        run += 1;
        if !within_bounds_part_2(&result) {
            proof {
                lemma_orbit_stays_out((point.0 as int, point.1 as int), run as nat, CYCLES as nat);
            }
            return false;
        }
    }
    true
}

/// Once out of bounds, the pair stays where it is.
pub proof fn lemma_orbit_stays_out(point: (int, int), k: nat, n: nat)
    requires
        1 <= k <= n,
        !bounded(orbit(point, k)),
    ensures
        orbit(point, n) == orbit(point, k),
    decreases n - k,
{
    if k < n {
        lemma_orbit_stays_out(point, k, (n - 1) as nat);
    }
}

/// The number of engraved points on the grid that starts at `top_left` and holds
/// every `step_size`-th point up to a thousand further in each direction.
pub fn count_engraved(top_left: (isize, isize), step_size: usize) -> (count: usize)
    requires
        step_size > 0,
        isize::MAX >= 4 * (BOUND as int) * (BOUND as int),
        isize::MIN <= top_left.0 - 100 * BOUND,
        top_left.0 + SIDE + 100 * BOUND <= isize::MAX,
        isize::MIN <= top_left.1 - 100 * BOUND,
        top_left.1 + SIDE + 100 * BOUND <= isize::MAX,
    ensures
        count == engraved_in_grid(
            top_left.0 as int,
            top_left.1 as int,
            step_size as int,
            points_per_side(step_size as int),
            points_per_side(step_size as int),
        ),
{
    let side: usize = 1000 / step_size + 1;
    let mut count: usize = 0;
    let mut i: usize = 0;
    proof {
        assert(1000int / (step_size as int) <= 1000) by (nonlinear_arith)
            requires
                step_size >= 1,
        {
        }
        assert((1000int / (step_size as int)) * step_size <= 1000) by (nonlinear_arith)
            requires
                step_size >= 1,
        {
        }
    }
    while i < side
        invariant
            i <= side,
            side == points_per_side(step_size as int),
            side <= 1001,
            (side - 1) * step_size <= 1000,
            step_size > 0,
            isize::MAX >= 4 * (BOUND as int) * (BOUND as int),
            isize::MIN <= top_left.0 - 100 * BOUND,
            top_left.0 + SIDE + 100 * BOUND <= isize::MAX,
            isize::MIN <= top_left.1 - 100 * BOUND,
            top_left.1 + SIDE + 100 * BOUND <= isize::MAX,
            count == engraved_in_grid(
                top_left.0 as int,
                top_left.1 as int,
                step_size as int,
                i as nat,
                side as nat,
            ),
            count <= i * side,
        decreases side - i,
    {
        proof {
            assert(i * step_size <= (side - 1) * step_size) by (nonlinear_arith)
                requires
                    i <= side - 1,
                    step_size > 0,
            {
            }
            lemma_engraved_bound(
                top_left.0 as int,
                top_left.1 as int,
                step_size as int,
                (i + 1) as nat,
                side as nat,
            );
            assert((i + 1) * side <= 1001 * 1001) by (nonlinear_arith)
                requires
                    i + 1 <= side,
                    side <= 1001,
            {
            }
        }
        let x: isize = top_left.0 + (i * step_size) as isize;
        let ghost start = count;
        let mut j: usize = 0;
        while j < side
            invariant
                j <= side,
                i < side,
                side <= 1001,
                (side - 1) * step_size <= 1000,
                step_size > 0,
                x == top_left.0 + i * step_size,
                i * step_size <= 1000,
                isize::MAX >= 4 * (BOUND as int) * (BOUND as int),
                isize::MIN <= top_left.0 - 100 * BOUND,
                top_left.0 + SIDE + 100 * BOUND <= isize::MAX,
                isize::MIN <= top_left.1 - 100 * BOUND,
                top_left.1 + SIDE + 100 * BOUND <= isize::MAX,
                start <= i * side,
                (i + 1) * side <= 1001 * 1001,
                count == start + engraved_in_column(
                    x as int,
                    top_left.1 as int,
                    step_size as int,
                    j as nat,
                ),
                count <= start + j,
            decreases side - j,
        {
            proof {
                assert(j * step_size <= (side - 1) * step_size) by (nonlinear_arith)
                    requires
                        j <= side - 1,
                        step_size > 0,
                {
                }
                assert((i + 1) * side == i * side + side) by (nonlinear_arith);
            }
            let y: isize = top_left.1 + (j * step_size) as isize;
            if is_engraved((x, y)) {
                count = count + 1;
            }
            j += 1;
        }
        proof {
            lemma_engraved_bound(x as int, top_left.1 as int, step_size as int, 0, side as nat);
            assert((i + 1) * side == i * side + side) by (nonlinear_arith);
        }
        i += 1;
    }
    count
}

/// The pair that a line `A=[x,y]` writes, if it writes one: the letter, the brackets,
/// and at least two numbers between commas, of which the first two count.
pub open spec fn pair_of(line: Seq<u8>) -> Option<(isize, isize)> {
    if line.len() >= 4 && line[0] == 65 && line[1] == 61 && line[2] == 91 && line.last() == 93 {
        let parts = fields(line.subrange(3, line.len() - 1), 44);
        if parts.len() >= 2 && signed_of(parts[0]) is Some && isize::MIN <= signed_of(parts[0])->0
            <= isize::MAX && signed_of(parts[1]) is Some && isize::MIN <= signed_of(parts[1])->0
            <= isize::MAX {
            Some((signed_of(parts[0])->0 as isize, signed_of(parts[1])->0 as isize))
        } else {
            None
        }
    } else {
        None
    }
}

/// The pairs that the first `k` lines write; a line that writes none is passed over.
pub open spec fn pairs_of(lines: Seq<Seq<u8>>, k: nat) -> Seq<(isize, isize)>
    decreases k,
{
    if k == 0 {
        Seq::empty()
    } else {
        let before = pairs_of(lines, (k - 1) as nat);
        match pair_of(lines[k - 1]) {
            Some(pair) => before.push(pair),
            None => before,
        }
    }
}

/// Reads the pair of a line `A=[x,y]`.
pub fn parse_pair(line: &[u8]) -> (pair: Option<(isize, isize)>)
    ensures
        pair == pair_of(line@),
{
    if line.len() < 4 || line[0] != 65 || line[1] != 61 || line[2] != 91 || line[line.len() - 1]
        != 93 {
        return None;
    }
    let content = vstd::slice::slice_subrange(line, 3, line.len() - 1);
    let parts = split_fields(content, 44);
    if parts.len() < 2 {
        assert(views(parts@).len() == parts@.len());
        return None;
    }
    assert(views(parts@).len() == parts@.len());
    assert(views(parts@)[0] == parts@[0]@);
    assert(views(parts@)[1] == parts@[1]@);
    match (parse_isize(parts[0].as_slice()), parse_isize(parts[1].as_slice())) {
        (Some(first), Some(second)) => Some((first, second)),
        _ => None,
    }
}

/// Reads the pairs of lines `A=[x,y]`; a line that writes none is passed over.
pub fn parse_numbers(line: &[Vec<u8>]) -> (pairs: Vec<(isize, isize)>)
    ensures
        pairs@ == pairs_of(views(line@), line@.len()),
{
    let mut pairs: Vec<(isize, isize)> = Vec::new();
    let mut k: usize = 0;
    while k < line.len()
        invariant
            k <= line@.len(),
            pairs@ == pairs_of(views(line@), k as nat),
        decreases line.len() - k,
    {
        assert(views(line@)[k as int] == line@[k as int]@);
        if let Some(pair) = parse_pair(line[k].as_slice()) {
            pairs.push(pair);
        }
        k += 1;
    }
    pairs
}

} // verus!
