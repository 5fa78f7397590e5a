//! Control points with fixed-point coordinates and the quarter-weight
//! interpolation that corner cutting is built from.

use vstd::prelude::*;
use vstd::arithmetic::div_mod::{lemma_fundamental_div_mod, lemma_mod_multiples_basic};

verus! {

/// How many coordinate units make one screen pixel when control points are
/// taken from pixel positions. It is four to the sixth power, so whole
/// pixels survive six refinement steps without any rounding.
pub const UNITS_PER_PIXEL: i32 = 4096;

/// A position in the plane. Each coordinate counts whole units of a fixed
/// fraction of a pixel. Interpolation rounds down to a whole unit and
/// never leaves the `i32` range.
#[derive(Clone, Copy, Debug, PartialEq, Eq, Structural)]
pub struct Point {
    pub x: i32,
    pub y: i32,
}

/// The coordinate `quarters / 4` of the way from `a` to `b`, rounded down
/// to a whole unit.
pub open spec fn blend(a: int, b: int, quarters: int) -> int {
    ((4 - quarters) * a + quarters * b) / 4
}

/// The point `quarters / 4` of the way from `p1` to `p2`, each coordinate
/// blended on its own.
pub open spec fn interpolate(p1: Point, p2: Point, quarters: int) -> Point {
    Point {
        x: blend(p1.x as int, p2.x as int, quarters) as i32,
        y: blend(p1.y as int, p2.y as int, quarters) as i32,
    }
}

/// The grid spacing that `steps` refinement steps can use up without
/// rounding: four to the power of `steps`.
pub open spec fn grid_unit(steps: nat) -> int
    decreases steps,
{
    if steps == 0 {
        1
    } else {
        4 * grid_unit((steps - 1) as nat)
    }
}

/// Every grid spacing is positive.
pub proof fn lemma_grid_unit_positive(steps: nat)
    ensures
        grid_unit(steps) > 0,
    decreases steps,
{
    if steps > 0 {
        lemma_grid_unit_positive((steps - 1) as nat);
    }
}

/// `UNITS_PER_PIXEL` is the grid spacing for six steps.
pub proof fn lemma_pixel_is_six_steps()
    ensures
        grid_unit(6) == UNITS_PER_PIXEL,
{
    reveal_with_fuel(grid_unit, 7);
}

/// Whether both coordinates of `p` are multiples of `unit`.
pub open spec fn on_grid(p: Point, unit: int) -> bool {
    (p.x as int) % unit == 0 && (p.y as int) % unit == 0
}

/// A blend with a weight between zero and four quarters lies between its
/// two ends, so it is again an `i32`.
pub proof fn lemma_blend_between(a: int, b: int, quarters: int)
    requires
        0 <= quarters <= 4,
    ensures
        a <= b ==> a <= blend(a, b, quarters) <= b,
        b <= a ==> b <= blend(a, b, quarters) <= a,
{
    assert((4 - quarters) * a + quarters * b == 4 * a + quarters * (b - a)) by (nonlinear_arith);
    assert(a <= b ==> 0 <= quarters * (b - a) <= 4 * (b - a)) by (nonlinear_arith)
        requires
            0 <= quarters <= 4,
    ;
    assert(b <= a ==> 4 * (b - a) <= quarters * (b - a) <= 0) by (nonlinear_arith)
        requires
            0 <= quarters <= 4,
    ;
}

/// Where both ends are multiples of four times `unit`, nothing is rounded
/// away (four times the blend is the weighted sum itself) and the blend
/// is still a multiple of `unit`.
pub proof fn lemma_blend_keeps_alignment(a: int, b: int, quarters: int, unit: int)
    requires
        unit > 0,
        a % (4 * unit) == 0,
        b % (4 * unit) == 0,
    ensures
        4 * blend(a, b, quarters) == (4 - quarters) * a + quarters * b,
        blend(a, b, quarters) % unit == 0,
{
    let ka = a / (4 * unit);
    let kb = b / (4 * unit);
    lemma_fundamental_div_mod(a, 4 * unit);
    lemma_fundamental_div_mod(b, 4 * unit);
    let t = (4 - quarters) * ka + quarters * kb;
    assert((4 - quarters) * a + quarters * b == 4 * (t * unit)) by (nonlinear_arith)
        requires
            a == (4 * unit) * ka,
            b == (4 * unit) * kb,
            t == (4 - quarters) * ka + quarters * kb,
    ;
    lemma_mod_multiples_basic(t, unit);
}

/// A multiple of four times `unit` is a multiple of `unit`.
pub proof fn lemma_coarser_alignment(v: int, unit: int)
    requires
        unit > 0,
        v % (4 * unit) == 0,
    ensures
        v % unit == 0,
{
    let k = v / (4 * unit);
    lemma_fundamental_div_mod(v, 4 * unit);
    assert(v == (4 * k) * unit) by (nonlinear_arith)
        requires
            v == (4 * unit) * k,
    ;
    lemma_mod_multiples_basic(4 * k, unit);
}

/// One coordinate blended with a weight of one or three quarters.
fn blend_coordinate(a: i32, b: i32, quarters: u8) -> (c: i32)
    requires
        quarters == 1 || quarters == 3,
    ensures
        c as int == blend(a as int, b as int, quarters as int),
{
    proof {
        lemma_blend_between(a as int, b as int, quarters as int);
    }
    let near: i64 = if quarters == 1 { 3 } else { 1 };
    let far: i64 = if quarters == 1 { 1 } else { 3 };
    let sum: i64 = near * (a as i64) + far * (b as i64);
    // Shift into the non-negative range so that the machine's truncating
    // division rounds down.
    let lifted: i64 = sum + 8589934592;
    let floor: i64 = lifted / 4 - 2147483648;
    floor as i32
}

impl Point {
    /// The point with the given coordinates.
    pub fn new(x: i32, y: i32) -> (p: Point)
        ensures
            p == (Point { x, y }),
    {
        Point { x, y }
    }

    /// The point a quarter of the way from `self` to `other`:
    /// three parts `self`, one part `other`.
    pub fn quarter(self, other: Point) -> (q: Point)
        ensures
            q == interpolate(self, other, 1),
    {
        Point { x: blend_coordinate(self.x, other.x, 1), y: blend_coordinate(self.y, other.y, 1) }
    }

    /// The point three quarters of the way from `self` to `other`:
    /// one part `self`, three parts `other`.
    pub fn three_quarters(self, other: Point) -> (r: Point)
        ensures
            r == interpolate(self, other, 3),
    {
        Point { x: blend_coordinate(self.x, other.x, 3), y: blend_coordinate(self.y, other.y, 3) }
    }
}

} // verus!
