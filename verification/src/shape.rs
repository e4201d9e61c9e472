//! Shapes of the local window: how far it reaches to each side, and which cells belong to
//! it.
//!
//! Lengths are in millionths of a metre, ratios in millionths, and sines and cosines in
//! parts of a thousand million.
use vstd::prelude::*;

use crate::chamfer::abs;
use crate::text::same_text;
use crate::transition::{floor_div, UNIT};

verus! {

/// Shape of the local window. All shapes are convex: a beam that has left the window
/// does not come back.
#[derive(Clone, Copy, Debug, PartialEq, Eq, Structural)]
pub enum LocalShape {
    /// A rectangle along the axes of the map.
    Square,
    /// An ellipse along the heading of the robot.
    Circle,
    /// An ellipse that is stretched in the direction of travel.
    Ellipse,
    /// A disc swept along the direction of travel.
    Capsule,
}

impl Default for LocalShape {
    fn default() -> (r: LocalShape)
        ensures
            r == LocalShape::Square,
    {
        LocalShape::Square
    }
}

impl LocalShape {
    /// The shape with the given name.
    pub open spec fn named(s: Seq<char>) -> Option<LocalShape> {
        if s == "square"@ {
            Some(LocalShape::Square)
        } else if s == "circle"@ {
            Some(LocalShape::Circle)
        } else if s == "ellipse"@ {
            Some(LocalShape::Ellipse)
        } else if s == "capsule"@ {
            Some(LocalShape::Capsule)
        } else {
            None
        }
    }

    /// The shape with the given name, if there is one.
    pub fn from_name(s: &str) -> (r: Option<LocalShape>)
        ensures
            r == Self::named(s@),
    {
        if same_text(s, "square") {
            Some(LocalShape::Square)
        } else if same_text(s, "circle") {
            Some(LocalShape::Circle)
        } else if same_text(s, "ellipse") {
            Some(LocalShape::Ellipse)
        } else if same_text(s, "capsule") {
            Some(LocalShape::Capsule)
        } else {
            None
        }
    }

    /// Whether the shape turns with the robot.
    pub open spec fn turns(self) -> bool {
        self != LocalShape::Square
    }

    /// Whether the shape turns with the robot.
    pub fn oriented(self) -> (r: bool)
        ensures
            r == self.turns(),
    {
        match self {
            LocalShape::Square => false,
            _ => true,
        }
    }

    /// Whether the shape is stretched in the direction of travel.
    pub fn dynamic(self) -> (r: bool)
        ensures
            r == (self == LocalShape::Ellipse || self == LocalShape::Capsule),
    {
        match self {
            LocalShape::Ellipse => true,
            LocalShape::Capsule => true,
            _ => false,
        }
    }
}

/// One, in the format of ratios.
pub const ONE: i64 = 1_000_000;

/// The longest half axis.
pub const LENGTH_MAX: i64 = 0x7ff_ffff;

/// The largest ratio.
pub const RATIO_MAX: i64 = 1_000_000_000;

/// The largest coordinate.
pub const PLACE_MAX: i64 = 0xff_ffff_ffff;

/// The widest cell: products of it with the number of a cell still fit a machine word.
pub const RES_MAX: i64 = 0xfff_ffff;

/// The larger of two numbers.
pub open spec fn most(a: int, b: int) -> int {
    if a > b {
        a
    } else {
        b
    }
}

/// The smaller of two numbers.
pub open spec fn fewest(a: int, b: int) -> int {
    if a < b {
        a
    } else {
        b
    }
}

/// `v`, cut off at `lo` and `hi`.
pub open spec fn cut(v: int, lo: int, hi: int) -> int {
    if v < lo {
        lo
    } else if v > hi {
        hi
    } else {
        v
    }
}

fn most_of(a: i64, b: i64) -> (r: i64)
    ensures
        r == most(a as int, b as int),
{
    if a > b {
        a
    } else {
        b
    }
}

fn cut_to(v: i64, lo: i64, hi: i64) -> (r: i64)
    ensures
        r == cut(v as int, lo as int, hi as int),
{
    if v < lo {
        lo
    } else if v > hi {
        hi
    } else {
        v
    }
}

/// A shape, its size, and how much it may change.
#[derive(Clone, Copy, Debug, PartialEq, Eq, Structural)]
pub struct LocalShapeConfig {
    pub shape: LocalShape,
    /// Half axis to the front and back.
    pub range: i64,
    /// Half axis to the sides; as long as `range` if it is not above zero.
    pub lat: i64,
    /// By how much the half axes to the front and back may be stretched.
    pub ratio_max: i64,
    /// By how much a half axis may change at once; without limit if it is not above zero.
    pub slew: i64,
    /// The movement that stretches the shape fully; it is never stretched if this is not
    /// above zero.
    pub fw_ref: i64,
}

impl Default for LocalShapeConfig {
    fn default() -> (r: LocalShapeConfig)
        ensures
            r == (LocalShapeConfig {
                shape: LocalShape::Square,
                range: 1_000_000,
                lat: 0,
                ratio_max: 1_000_000,
                slew: 0,
                fw_ref: 0,
            }),
    {
        LocalShapeConfig {
            shape: LocalShape::Square,
            range: 1_000_000,
            lat: 0,
            ratio_max: 1_000_000,
            slew: 0,
            fw_ref: 0,
        }
    }
}

impl LocalShapeConfig {
    /// The sizes can be computed with.
    pub open spec fn wf(self) -> bool {
        &&& 0 <= self.range <= LENGTH_MAX
        &&& self.lat <= LENGTH_MAX
        &&& self.ratio_max <= RATIO_MAX
        &&& self.slew <= LENGTH_MAX
        &&& self.fw_ref <= LENGTH_MAX
    }

    /// Half axis to the sides.
    pub open spec fn side(self) -> int {
        if self.lat > 0 {
            self.lat as int
        } else {
            self.range as int
        }
    }

    /// The ratio, one at least.
    pub open spec fn ratio(self) -> int {
        most(self.ratio_max as int, ONE as int)
    }

    /// Half the bounding box, in cells that are `res` wide: of a shape that turns it has
    /// room for the longest half axis in every direction.
    pub open spec fn radii(self, res: int) -> (int, int) {
        if self.shape.turns() {
            let m = most(self.range * self.ratio() / (ONE as int), self.side()) / res;
            (m, m)
        } else {
            (self.range as int / res, self.side() / res)
        }
    }

    /// Half axis to the sides.
    pub fn lat(&self) -> (r: i64)
        ensures
            r == self.side(),
    {
        if self.lat > 0 {
            self.lat
        } else {
            self.range
        }
    }

    /// Half the bounding box, in cells that are `res` wide.
    pub fn radii_cells(&self, res: i64) -> (r: (i32, i32))
        requires
            self.wf(),
            0 < res,
            self.radii(res as int).0 <= i32::MAX,
            self.radii(res as int).1 <= i32::MAX,
        ensures
            r.0 == self.radii(res as int).0,
            r.1 == self.radii(res as int).1,
    {
        proof {
            vstd::arithmetic::div_mod::lemma_div_pos_is_pos(self.range as int, res as int);
            vstd::arithmetic::div_mod::lemma_div_pos_is_pos(self.side(), res as int);
        }
        if self.shape.oriented() {
            proof {
                assert(0 <= self.range * self.ratio() <= 0x7ff_ffff * 1_000_000_000)
                    by (nonlinear_arith)
                    requires
                        0 <= self.range <= 0x7ff_ffff,
                        0 <= self.ratio() <= 1_000_000_000,
                ;
            }
            let reach: i64 = self.range * most_of(self.ratio_max, ONE) / ONE;
            let m: i64 = most_of(reach, self.lat()) / res;
            proof {
                vstd::arithmetic::div_mod::lemma_div_pos_is_pos(
                    most(reach as int, self.side()),
                    res as int,
                );
            }
            (m as i32, m as i32)
        } else {
            ((self.range / res) as i32, (self.lat() / res) as i32)
        }
    }

    /// Half the larger side of the bounding box, in cells that are `res` wide.
    pub fn bbox_cells(&self, res: i64) -> (r: i32)
        requires
            self.wf(),
            0 < res,
            self.radii(res as int).0 <= i32::MAX,
            self.radii(res as int).1 <= i32::MAX,
        ensures
            r == most(self.radii(res as int).0, self.radii(res as int).1),
    {
        let (rx, ry) = self.radii_cells(res);
        if rx > ry {
            rx
        } else {
            ry
        }
    }

    /// The shortest half axis, however the shape is stretched.
    pub fn min_radius(&self) -> (r: i64)
        requires
            self.wf(),
        ensures
            r == fewest(
                if self.shape == LocalShape::Ellipse || self.shape == LocalShape::Capsule {
                    self.range * ONE / self.ratio()
                } else {
                    self.range as int
                },
                self.side(),
            ),
    {
        let fore: i64 = if self.shape.dynamic() {
            self.range * ONE / most_of(self.ratio_max, ONE)
        } else {
            self.range
        };
        let side: i64 = self.lat();
        if fore < side {
            fore
        } else {
            side
        }
    }

    /// The half axis to the front, at least.
    pub open spec fn shortest(self) -> int {
        self.range * ONE / self.ratio()
    }

    /// The half axis to the front, at most: the axes to the front and back always add up
    /// to the same length.
    pub open spec fn longest(self) -> int {
        fewest(2 * self.range - self.shortest(), self.range * self.ratio() / (ONE as int))
    }

    /// How the shape is stretched by a movement: between -1 and 1.
    pub open spec fn stretch(self, moved: int) -> int {
        cut(moved * ONE / (self.fw_ref as int), -(ONE as int), ONE as int)
    }

    /// The half axis to the front that a movement asks for.
    pub open spec fn wanted(self, moved: int) -> int {
        cut(
            self.range + self.range * ((self.ratio() - ONE) * self.stretch(moved) / (ONE as int))
                / (ONE as int),
            self.shortest(),
            self.longest(),
        )
    }

    /// The half axis to the front after a movement, from `fwd` on.
    pub open spec fn next_axis(self, fwd: int, moved: int) -> int {
        if self.slew > 0 {
            cut(self.wanted(moved), fwd - self.slew, fwd + self.slew)
        } else {
            self.wanted(moved)
        }
    }

    /// A movement of this length changes the shape. Movements of less than three tenths
    /// of a cell are noise.
    pub open spec fn stretches(self, moved: int, res: int) -> bool {
        &&& self.shape == LocalShape::Ellipse || self.shape == LocalShape::Capsule
        &&& self.ratio_max > ONE
        &&& self.fw_ref > 0
        &&& 10 * abs(moved) >= 3 * res
    }
}

/// A shape at a place, turned and stretched.
#[derive(Clone, Copy, Debug, PartialEq, Eq, Structural)]
pub struct Footprint {
    pub cfg: LocalShapeConfig,
    /// Half axes to the front and back.
    pub a_fwd: i64,
    pub a_bwd: i64,
    /// Where the robot is, from the corner of the map.
    pub x: i64,
    pub y: i64,
    pub cos: i64,
    pub sin: i64,
    /// Whether the robot has been placed before.
    pub placed: bool,
}

/// Half a cell's offset from the robot, in half millionths of a metre.
pub open spec fn offset(i: int, res: int, c: int) -> int {
    (2 * i + 1) * res - 2 * c
}

/// The coordinate of an offset along a direction.
pub open spec fn along(dx: int, dy: int, u: int, v: int) -> int {
    (dx * u + dy * v) / (UNIT as int)
}

impl Footprint {
    /// The sizes can be computed with, and the half axes to the front and back add up to
    /// twice the range.
    pub open spec fn wf(self) -> bool {
        &&& self.cfg.wf()
        &&& 0 <= self.a_fwd <= 2 * self.cfg.range
        &&& self.a_fwd + self.a_bwd == 2 * self.cfg.range
        &&& -PLACE_MAX <= self.x <= PLACE_MAX
        &&& -PLACE_MAX <= self.y <= PLACE_MAX
        &&& -UNIT <= self.cos <= UNIT
        &&& -UNIT <= self.sin <= UNIT
    }

    /// A shape that has not been placed.
    pub fn new(cfg: LocalShapeConfig) -> (r: Footprint)
        requires
            cfg.wf(),
        ensures
            r.wf(),
            r == (Footprint {
                cfg,
                a_fwd: cfg.range,
                a_bwd: cfg.range,
                x: 0,
                y: 0,
                cos: UNIT,
                sin: 0,
                placed: false,
            }),
    {
        Footprint {
            cfg,
            a_fwd: cfg.range,
            a_bwd: cfg.range,
            x: 0,
            y: 0,
            cos: UNIT,
            sin: 0,
            placed: false,
        }
    }

    /// How far the robot has moved in the direction of its heading.
    pub open spec fn moved(self, x: int, y: int, cos: int, sin: int) -> int {
        along(x - self.x, y - self.y, cos, sin)
    }

    /// The half axis to the front after the robot has moved.
    pub open spec fn fwd_after(self, x: int, y: int, cos: int, sin: int, res: int) -> int {
        let m = self.moved(x, y, cos, sin);
        if self.placed && self.cfg.stretches(m, res) {
            self.cfg.next_axis(self.a_fwd as int, m)
        } else {
            self.a_fwd as int
        }
    }

    /// The coordinates of the middle of the cell `(ix, iy)`, seen from the robot: to the
    /// front and to the left.
    pub open spec fn seen(self, ix: int, iy: int, res: int) -> (int, int) {
        let (dx, dy) = (offset(ix, res, self.x as int), offset(iy, res, self.y as int));
        (
            along(dx, dy, self.cos as int, self.sin as int),
            along(dx, dy, -(self.sin as int), self.cos as int),
        )
    }

    /// The middle of the cell `(ix, iy)` lies in the shape.
    pub open spec fn contains(self, ix: int, iy: int, res: int) -> bool {
        let (f, g) = self.seen(ix, iy, res);
        let b = 2 * most(self.cfg.side(), 1);
        match self.cfg.shape {
            LocalShape::Square => true,
            LocalShape::Capsule => {
                let c = cut(
                    f,
                    -most(2 * self.a_bwd - b, 0),
                    most(2 * self.a_fwd - b, 0),
                );
                (f - c) * (f - c) + g * g <= b * b
            },
            _ => {
                let a = 2 * most(
                    if f >= 0 {
                        self.a_fwd as int
                    } else {
                        self.a_bwd as int
                    },
                    1,
                );
                (f * b) * (f * b) + (g * a) * (g * a) <= (a * b) * (a * b)
            },
        }
    }
}

proof fn lemma_product(a: int, b: int, m: int, n: int)
    requires
        -m <= a <= m,
        -n <= b <= n,
        0 <= m,
        0 <= n,
    ensures
        -(m * n) <= a * b <= m * n,
{
    assert(-(m * n) <= a * b <= m * n) by (nonlinear_arith)
        requires
            -m <= a <= m,
            -n <= b <= n,
            0 <= m,
            0 <= n,
    ;
}

/// A quotient is no larger than what is divided.
proof fn lemma_quotient(a: int, b: int, m: int)
    requires
        -m <= a <= m,
        0 < b,
        0 <= m,
    ensures
        -m <= a / b <= m,
{
    vstd::arithmetic::div_mod::lemma_fundamental_div_mod(a, b);
    vstd::arithmetic::div_mod::lemma_mod_bound(a, b);
    let q = a / b;
    assert(-m <= q <= m) by (nonlinear_arith)
        requires
            a == b * q + a % b,
            0 <= a % b,
            a % b < b,
            -m <= a <= m,
            0 < b,
            0 <= m,
    ;
}

fn project(dx: i64, dy: i64, u: i64, v: i64, Ghost(m): Ghost<int>) -> (r: i64)
    requires
        m <= 0x1fff_ffff_ffff_ffff,
        -m <= dx <= m,
        -m <= dy <= m,
        -UNIT <= u <= UNIT,
        -UNIT <= v <= UNIT,
    ensures
        r == along(dx as int, dy as int, u as int, v as int),
        -2 * m <= r <= 2 * m,
{
    proof {
        let n = 1_000_000_000;
        lemma_product(dx as int, u as int, m, n);
        lemma_product(dy as int, v as int, m, n);
        let t = dx * u + dy * v;
        vstd::arithmetic::div_mod::lemma_fundamental_div_mod(t, 1_000_000_000);
        vstd::arithmetic::div_mod::lemma_mod_bound(t, 1_000_000_000);
    }
    let t: i128 = dx as i128 * u as i128 + dy as i128 * v as i128;
    floor_div(t, UNIT as i128) as i64
}

/// The half axis to the front stays between its bounds, which lie on both sides of the
/// range.
pub proof fn lemma_axis_bounds(c: LocalShapeConfig)
    requires
        c.wf(),
    ensures
        0 <= c.shortest() <= c.range <= c.longest() <= 2 * c.range,
        0 <= c.range * ONE,
        0 <= c.range * c.ratio() <= LENGTH_MAX * RATIO_MAX,
{
    let (r, q) = (c.range as int, c.ratio());
    assert(0 <= r * q <= 0x7ff_ffff * 1_000_000_000 && r * 1_000_000 <= r * q) by (nonlinear_arith)
        requires
            0 <= r <= 0x7ff_ffff,
            1_000_000 <= q <= 1_000_000_000,
    ;
    vstd::arithmetic::div_mod::lemma_fundamental_div_mod(r * 1_000_000, q);
    vstd::arithmetic::div_mod::lemma_mod_bound(r * 1_000_000, q);
    let s = r * 1_000_000 / q;
    assert(0 <= s <= r) by (nonlinear_arith)
        requires
            r * 1_000_000 == q * s + (r * 1_000_000) % q,
            0 <= (r * 1_000_000) % q,
            (r * 1_000_000) % q < q,
            1_000_000 <= q,
            0 <= r,
    ;
}

impl LocalShapeConfig {
    /// The half axis to the front after a movement.
    fn axis_after(&self, fwd: i64, moved: i64) -> (r: i64)
        requires
            self.wf(),
            0 < self.fw_ref,
            0 <= fwd <= 2 * self.range,
            -0x3f_ffff_ffff_ffff <= moved <= 0x3f_ffff_ffff_ffff,
        ensures
            r == self.next_axis(fwd as int, moved as int),
            0 <= r <= 2 * self.range,
    {
        let ratio: i64 = most_of(self.ratio_max, ONE);
        proof {
            lemma_axis_bounds(*self);
        }
        let lo: i64 = self.range * ONE / ratio;
        let grown: i64 = self.range * ratio / ONE;
        let room: i64 = 2 * self.range - lo;
        let hi: i64 = if room < grown {
            room
        } else {
            grown
        };
        proof {
            lemma_product(moved as int, 1_000_000, 0x3f_ffff_ffff_ffff, 1_000_000);
        }
        let grade: i128 = moved as i128 * ONE as i128;
        let v128: i128 = floor_div(grade, self.fw_ref as i128);
        let v: i64 = if v128 < -(ONE as i128) {
            -ONE
        } else if v128 > ONE as i128 {
            ONE
        } else {
            v128 as i64
        };
        assert(v == self.stretch(moved as int));
        proof {
            lemma_product(ratio - ONE, v as int, 1_000_000_000, 1_000_000);
        }
        let p: i128 = floor_div((ratio - ONE) as i128 * v as i128, ONE as i128);
        proof {
            lemma_quotient((ratio - ONE) * v, 1_000_000, 1_000_000_000_000_000);
            lemma_product(self.range as int, p as int, 0x7ff_ffff, 1_000_000_000_000_000);
        }
        let d: i128 = floor_div(self.range as i128 * p, ONE as i128);
        proof {
            lemma_quotient(
                self.range * p,
                1_000_000,
                0x7ff_ffff * 1_000_000_000_000_000int,
            );
        }
        let t: i128 = self.range as i128 + d;
        let target: i64 = if t < lo as i128 {
            lo
        } else if t > hi as i128 {
            hi
        } else {
            t as i64
        };
        assert(target == self.wanted(moved as int));
        if self.slew > 0 {
            cut_to(target, fwd - self.slew, fwd + self.slew)
        } else {
            target
        }
    }
}

impl Footprint {
    /// Moves the shape with the robot to `(x, y)`, turned to the given heading. While the
    /// robot drives, the half axes to the front and back follow its movement.
    pub fn place(&mut self, x: i64, y: i64, cos: i64, sin: i64, res: i64)
        requires
            old(self).wf(),
            -PLACE_MAX <= x <= PLACE_MAX,
            -PLACE_MAX <= y <= PLACE_MAX,
            -UNIT <= cos <= UNIT,
            -UNIT <= sin <= UNIT,
            0 < res <= RES_MAX,
        ensures
            final(self).wf(),
            ({
                let fwd = old(self).fwd_after(
                    x as int,
                    y as int,
                    cos as int,
                    sin as int,
                    res as int,
                );
                *final(self) == (Footprint {
                    cfg: old(self).cfg,
                    a_fwd: fwd as i64,
                    a_bwd: (2 * old(self).cfg.range - fwd) as i64,
                    x,
                    y,
                    cos,
                    sin,
                    placed: true,
                })
            }),
    {
        let moved: i64 = project(
            x - self.x,
            y - self.y,
            cos,
            sin,
            Ghost(2 * PLACE_MAX as int),
        );
        let size: i64 = if moved < 0 {
            -moved
        } else {
            moved
        };
        if self.placed && self.cfg.shape.dynamic() && self.cfg.ratio_max > ONE && self.cfg.fw_ref
            > 0 && 10 * size >= 3 * res {
            self.a_fwd = self.cfg.axis_after(self.a_fwd, moved);
            self.a_bwd = 2 * self.cfg.range - self.a_fwd;
        }
        self.x = x;
        self.y = y;
        self.cos = cos;
        self.sin = sin;
        self.placed = true;
    }

    /// Whether the middle of the cell `(ix, iy)` lies in the shape.
    pub fn covers(&self, ix: i32, iy: i32, res: i64) -> (r: bool)
        requires
            self.wf(),
            0 < res <= RES_MAX,
        ensures
            r == self.contains(ix as int, iy as int, res as int),
    {
        if !self.cfg.shape.oriented() {
            return true;
        }
        proof {
            lemma_product(2 * ix + 1, res as int, 0xffff_ffff, 0xfff_ffff);
            lemma_product(2 * iy + 1, res as int, 0xffff_ffff, 0xfff_ffff);
        }
        let dx: i64 = (2 * ix as i64 + 1) * res - 2 * self.x;
        let dy: i64 = (2 * iy as i64 + 1) * res - 2 * self.y;
        let ghost m = 0x1fff_ffff_ffff_ffff;
        let f: i64 = project(dx, dy, self.cos, self.sin, Ghost(m));
        let g: i64 = project(dx, dy, -self.sin, self.cos, Ghost(m));
        let side: i64 = self.cfg.lat();
        let b: i64 = 2 * most_of(side, 1);
        assert((f as int, g as int) == self.seen(ix as int, iy as int, res as int));
        match self.cfg.shape {
            LocalShape::Square => true,
            LocalShape::Capsule => {
                let back: i64 = most_of(2 * self.a_bwd - b, 0);
                let front: i64 = most_of(2 * self.a_fwd - b, 0);
                let c: i64 = cut_to(f, -back, front);
                let e: i64 = f - c;
                if e > b || e < -b || g > b || g < -b {
                    proof {
                        lemma_outside(e as int, g as int, b as int);
                    }
                    return false;
                }
                proof {
                    lemma_product(e as int, e as int, 0xfff_fffe, 0xfff_fffe);
                    lemma_product(g as int, g as int, 0xfff_fffe, 0xfff_fffe);
                    lemma_product(b as int, b as int, 0xfff_fffe, 0xfff_fffe);
                }
                e * e + g * g <= b * b
            },
            _ => {
                let axis: i64 = if f >= 0 {
                    self.a_fwd
                } else {
                    self.a_bwd
                };
                let a: i64 = 2 * most_of(axis, 1);
                if f > a || f < -a || g > b || g < -b {
                    proof {
                        lemma_outside_ellipse(f as int, g as int, a as int, b as int);
                    }
                    return false;
                }
                proof {
                    let m = 0x1fff_fffe;
                    lemma_product(f as int, b as int, m, m);
                    lemma_product(g as int, a as int, m, m);
                    lemma_product(a as int, b as int, m, m);
                    lemma_product(f * b, f * b, m * m, m * m);
                    lemma_product(g * a, g * a, m * m, m * m);
                    lemma_product(a * b, a * b, m * m, m * m);
                }
                let p: i128 = f as i128 * b as i128;
                let q: i128 = g as i128 * a as i128;
                let w: i128 = a as i128 * b as i128;
                p * p + q * q <= w * w
            },
        }
    }
}

proof fn lemma_outside(e: int, g: int, b: int)
    requires
        0 < b,
        e > b || e < -b || g > b || g < -b,
    ensures
        e * e + g * g > b * b,
{
    assert(e * e + g * g > b * b) by (nonlinear_arith)
        requires
            0 < b,
            e > b || e < -b || g > b || g < -b,
    ;
}

proof fn lemma_outside_ellipse(f: int, g: int, a: int, b: int)
    requires
        0 < a,
        0 < b,
        f > a || f < -a || g > b || g < -b,
    ensures
        (f * b) * (f * b) + (g * a) * (g * a) > (a * b) * (a * b),
{
    let (p, q, w) = (f * b, g * a, a * b);
    assert(w > 0) by (nonlinear_arith)
        requires
            w == a * b,
            0 < a,
            0 < b,
    ;
    if f > a || f < -a {
        assert(p > w || p < -w) by (nonlinear_arith)
            requires
                p == f * b,
                w == a * b,
                0 < b,
                f > a || f < -a,
        ;
    } else {
        assert(q > w || q < -w) by (nonlinear_arith)
            requires
                q == g * a,
                w == a * b,
                0 < a,
                g > b || g < -b,
        ;
    }
    assert(p * p + q * q > w * w) by (nonlinear_arith)
        requires
            0 < w,
            p > w || p < -w || q > w || q < -w,
    ;
}

/// However the robot drives, the half axes to the front and back add up to twice the
/// range, stay between their bounds once they are there, and change by no more than the
/// limit at once.
pub proof fn law_axes_are_bounded(f: Footprint, x: int, y: int, cos: int, sin: int, res: int)
    requires
        f.wf(),
        f.cfg.shortest() <= f.a_fwd <= f.cfg.longest(),
    ensures
        ({
            let fwd = f.fwd_after(x, y, cos, sin, res);
            &&& f.cfg.shortest() <= fwd <= f.cfg.longest()
            &&& f.cfg.slew > 0 ==> abs(fwd - f.a_fwd) <= f.cfg.slew
        }),
{
    lemma_axis_bounds(f.cfg);
}

/// What the robot sees of a cell is its place ahead and to the left: the projections on the
/// heading and on the direction a quarter turn on from it, rounded down.
pub proof fn law_seen_is_ahead_and_left(f: Footprint, ix: int, iy: int, res: int)
    ensures
        ({
            let (dx, dy) = ((2 * ix + 1) * res - 2 * f.x, (2 * iy + 1) * res - 2 * f.y);
            let (u, v) = f.seen(ix, iy, res);
            &&& UNIT * u <= dx * f.cos + dy * f.sin < UNIT * u + UNIT
            &&& UNIT * v <= dy * f.cos - dx * f.sin < UNIT * v + UNIT
            &&& f.cos == UNIT && f.sin == 0 ==> (u, v) == (dx, dy)
            &&& f.cos == 0 && f.sin == UNIT ==> (u, v) == (dy, -dx)
            &&& f.cos == -UNIT && f.sin == 0 ==> (u, v) == (-dx, -dy)
            &&& f.cos == 0 && f.sin == -UNIT ==> (u, v) == (-dy, dx)
        }),
{
    let (dx, dy) = (offset(ix, res, f.x as int), offset(iy, res, f.y as int));
    let (c, s) = (f.cos as int, f.sin as int);
    let one = UNIT as int;
    let a = dx * c + dy * s;
    let b = dx * (-s) + dy * c;
    assert(b == dy * c - dx * s) by (nonlinear_arith)
        requires
            b == dx * (-s) + dy * c,
    ;
    vstd::arithmetic::div_mod::lemma_fundamental_div_mod(a, one);
    vstd::arithmetic::div_mod::lemma_mod_bound(a, one);
    vstd::arithmetic::div_mod::lemma_fundamental_div_mod(b, one);
    vstd::arithmetic::div_mod::lemma_mod_bound(b, one);
    assert(dx * 0 == 0 && dy * 0 == 0);
    if c == one && s == 0 {
        lemma_whole_units(a, dx);
        lemma_whole_units(b, dy);
    } else if c == 0 && s == one {
        lemma_whole_units(a, dy);
        lemma_whole_units(b, -dx);
    } else if c == -one && s == 0 {
        lemma_whole_units(a, -dx);
        lemma_whole_units(b, -dy);
    } else if c == 0 && s == -one {
        lemma_whole_units(a, -dy);
        lemma_whole_units(b, dx);
    }
}

proof fn lemma_whole_units(a: int, d: int)
    requires
        a == d * 1_000_000_000,
    ensures
        a / (UNIT as int) == d,
{
    vstd::arithmetic::div_mod::lemma_fundamental_div_mod_converse(a, UNIT as int, d, 0);
}

/// Along its own axes an ellipse or a capsule reaches exactly as far as its half axes: ahead,
/// back and to the sides. All lengths are counted twice, from the middle of the robot.
pub proof fn law_shape_reaches_its_axes(f: Footprint, ix: int, iy: int, res: int)
    requires
        f.wf(),
        f.cfg.shape != LocalShape::Square,
    ensures
        ({
            let (u, v) = f.seen(ix, iy, res);
            let b = 2 * most(f.cfg.side(), 1);
            let a = 2 * most(
                if u >= 0 {
                    f.a_fwd as int
                } else {
                    f.a_bwd as int
                },
                1,
            );
            let long = most(a, b);
            &&& u == 0 ==> f.contains(ix, iy, res) == (abs(v) <= b)
            &&& v == 0 && f.cfg.shape != LocalShape::Capsule ==> f.contains(ix, iy, res) == (abs(u)
                <= a)
            &&& v == 0 && f.cfg.shape == LocalShape::Capsule && a > 2 ==> f.contains(ix, iy, res)
                == (abs(u) <= long)
            &&& f.contains(ix, iy, res) ==> abs(v) <= b
        }),
{
    let (u, v) = f.seen(ix, iy, res);
    let b = 2 * most(f.cfg.side(), 1);
    let a = 2 * most(
        if u >= 0 {
            f.a_fwd as int
        } else {
            f.a_bwd as int
        },
        1,
    );
    if f.cfg.shape == LocalShape::Capsule {
        let c = cut(u, -most(2 * f.a_bwd - b, 0), most(2 * f.a_fwd - b, 0));
        let e = u - c;
        lemma_within(v, b);
        lemma_within(e, b);
        assert(e * e >= 0 && v * v >= 0) by (nonlinear_arith);
    } else {
        let (p, q) = (u * b, v * a);
        assert(p * p >= 0 && q * q >= 0) by (nonlinear_arith);
        assert(u == 0 ==> p == 0) by (nonlinear_arith)
            requires
                p == u * b,
        ;
        assert(v == 0 ==> q == 0) by (nonlinear_arith)
            requires
                q == v * a,
        ;
        lemma_within(p, a * b);
        lemma_within(q, a * b);
        assert(a * b > 0) by (nonlinear_arith)
            requires
                a > 0,
                b > 0,
        ;
        assert((-(a * b) <= p <= a * b) == (-a <= u <= a)) by (nonlinear_arith)
            requires
                p == u * b,
                b > 0,
        ;
        assert((-(a * b) <= q <= a * b) == (-b <= v <= b)) by (nonlinear_arith)
            requires
                q == v * a,
                a > 0,
        ;
    }
}

/// A number is at most as large as a bound exactly where its square is.
proof fn lemma_within(e: int, b: int)
    requires
        0 <= b,
    ensures
        e * e <= b * b <==> -b <= e <= b,
{
    if -b <= e <= b {
        assert(e * e <= b * b) by (nonlinear_arith)
            requires
                -b <= e <= b,
        ;
    } else {
        assert(e * e > b * b) by (nonlinear_arith)
            requires
                e > b || e < -b,
                0 <= b,
        ;
    }
}

/// A movement ahead stretches the shape ahead, one back stretches it back, none leaves it,
/// and the farther the movement the longer the axis, up to the movement of reference.
pub proof fn law_stretch_follows_movement(c: LocalShapeConfig, moved: int, more: int)
    requires
        c.wf(),
        0 < c.fw_ref,
        moved <= more,
    ensures
        c.shortest() <= c.wanted(moved) <= c.longest(),
        c.wanted(moved) <= c.wanted(more),
        moved == 0 ==> c.wanted(moved) == c.range,
        moved >= 0 ==> c.wanted(moved) >= c.range,
        moved <= 0 ==> c.wanted(moved) <= c.range,
        moved >= c.fw_ref ==> c.wanted(moved) == c.longest(),
        more <= -c.fw_ref ==> c.wanted(more) == c.wanted(-(c.fw_ref as int)),
{
    let (one, fw, r) = (ONE as int, c.fw_ref as int, c.range as int);
    let k = c.ratio() - one;
    lemma_axis_bounds(c);
    lemma_stretch(c, moved, more);
    lemma_stretch(c, 0, 0);
    lemma_stretch(c, moved, 0);
    lemma_stretch(c, 0, more);
    lemma_stretch(c, 0, moved);
    lemma_stretch(c, fw, moved);
    lemma_stretch(c, more, -fw);
    assert(0 * one == 0);
    assert(c.stretch(0) == 0);
    assert(k * 0 == 0 && r * 0 == 0);
    assert(c.wanted(0) == r);
    vstd::arithmetic::div_mod::lemma_fundamental_div_mod_converse(fw * one, fw, one, 0);
    assert(c.stretch(fw) == one);
    if moved >= fw {
        assert(c.stretch(moved) == one);
        vstd::arithmetic::div_mod::lemma_fundamental_div_mod_converse(k * one, one, k, 0);
        let t = r * k;
        assert(r * c.ratio() == r * k + r * one) by (nonlinear_arith)
            requires
                k == c.ratio() - one,
        ;
        vstd::arithmetic::div_mod::lemma_fundamental_div_mod(t, one);
        vstd::arithmetic::div_mod::lemma_mod_bound(t, one);
        vstd::arithmetic::div_mod::lemma_fundamental_div_mod_converse(
            r * c.ratio(),
            one,
            t / one + r,
            t % one,
        );
    }
    if more <= -fw {
        assert((-fw) * one == (-one) * fw + 0) by (nonlinear_arith);
        vstd::arithmetic::div_mod::lemma_fundamental_div_mod_converse((-fw) * one, fw, -one, 0);
        assert(c.stretch(-fw) == -one);
        assert(c.stretch(more) == -one);
    }
}

proof fn lemma_stretch(c: LocalShapeConfig, moved: int, more: int)
    requires
        c.wf(),
        0 < c.fw_ref,
    ensures
        moved <= more ==> c.stretch(moved) <= c.stretch(more),
        moved <= more ==> c.wanted(moved) <= c.wanted(more),
        -(ONE as int) <= c.stretch(moved) <= ONE,
{
    if moved <= more {
        let (one, fw, r) = (ONE as int, c.fw_ref as int, c.range as int);
        let k = c.ratio() - one;
        lemma_axis_bounds(c);
        assert(moved * one <= more * one);
        vstd::arithmetic::div_mod::lemma_div_is_ordered(moved * one, more * one, fw);
        let (a, b) = (c.stretch(moved), c.stretch(more));
        assert(k * a <= k * b) by (nonlinear_arith)
            requires
                a <= b,
                0 <= k,
        ;
        vstd::arithmetic::div_mod::lemma_div_is_ordered(k * a, k * b, one);
        let (p, q) = ((k * a) / one, (k * b) / one);
        assert(r * p <= r * q) by (nonlinear_arith)
            requires
                p <= q,
                0 <= r,
        ;
        vstd::arithmetic::div_mod::lemma_div_is_ordered(r * p, r * q, one);
    }
}

/// The boxes around the shape are as many whole cells as the longest half axes hold.
pub proof fn law_radii_hold_whole_cells(c: LocalShapeConfig, res: int)
    requires
        c.wf(),
        0 < res,
    ensures
        ({
            let (a, b) = c.radii(res);
            let side = if c.lat > 0 {
                c.lat as int
            } else {
                c.range as int
            };
            &&& c.shape == LocalShape::Square ==> a * res <= c.range < (a + 1) * res && b * res
                <= side < (b + 1) * res
            &&& c.shape != LocalShape::Square ==> {
                &&& a == b
                &&& c.range < (a + 1) * res && side < (a + 1) * res
                &&& c.longest() < (a + 1) * res
            }
        }),
{
    lemma_axis_bounds(c);
    let one = ONE as int;
    let m = most(c.range * c.ratio() / one, c.side());
    let (x, y) = (c.range as int, c.side());
    lemma_cells(m, res);
    lemma_cells(x, res);
    lemma_cells(y, res);
}

proof fn lemma_cells(a: int, d: int)
    requires
        0 < d,
    ensures
        (a / d) * d <= a < (a / d + 1) * d,
{
    vstd::arithmetic::div_mod::lemma_fundamental_div_mod(a, d);
    vstd::arithmetic::div_mod::lemma_mod_bound(a, d);
    let q = a / d;
    assert(q * d <= a < (q + 1) * d) by (nonlinear_arith)
        requires
            a == d * q + a % d,
            0 <= a % d,
            a % d < d,
    ;
}

} // verus!
