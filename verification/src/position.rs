//! Exact integer geometry over Earth-centered Cartesian coordinates.
//!
//! A coordinate is a signed count of 1/50 km (20 m) units, bounded by
//! `MAX_COORD` (48 000 km on each axis, enough for geostationary orbit).
//! Angle thresholds are tested without any floating point: for an angle
//! `t` below 90 degrees, `sep <= t` holds exactly when the rays are
//! nondegenerate, their dot product is nonnegative, and
//! `den * dot^2 >= num * |a|^2 * |b|^2`, where `num / den = cos(t)^2`.
//! The thresholds used by the packer are rationals chosen so that the
//! corresponding angles land within 0.0013 degrees above the nominal
//! 10- and 20-degree limits; the 45-degree visibility test is exact,
//! since `cos(135 deg)^2 = 1/2`.

use vstd::prelude::*;

verus! {

/// Largest coordinate magnitude the library admits, in 1/50 km units
/// (48 000 km). Keeps every product in the threshold tests inside `i128`.
pub const MAX_COORD: i64 = 2_400_000;

/// Fixed-point units per kilometre.
pub const UNITS_PER_KM: i64 = 50;

/// Largest admissible denominator of a squared-cosine threshold.
pub const MAX_THRESHOLD_DEN: i128 = 32_000_000_000;

/// Squared-cosine threshold for co-beam separation: `num / den` is
/// `cos(2 * atan(7 / 80))^2`, an angle of 10.0013 degrees.
pub const BEAM_SEP_NUM: i128 = 40_335_201;
/// Denominator of the co-beam separation threshold.
pub const BEAM_SEP_DEN: i128 = 41_589_601;

/// Squared-cosine threshold for interferer separation: `num / den` is
/// `cos(2 * atan(73 / 414))^2`, an angle of 20.00017 degrees.
pub const INTERFERENCE_NUM: i128 = 27_578_248_489;
/// Denominator of the interferer separation threshold.
pub const INTERFERENCE_DEN: i128 = 31_231_725_625;

/// A point in the Earth-centered frame, in 1/50 km units per axis.
#[derive(Clone, Copy, PartialEq, Eq, Structural, Debug)]
pub struct Position {
    pub x: i64,
    pub y: i64,
    pub z: i64,
}

/// Mathematical value of a position or a displacement: an unbounded
/// integer vector.
pub struct Vec3 {
    pub x: int,
    pub y: int,
    pub z: int,
}

/// Difference of two vectors.
pub open spec fn v3_sub(a: Vec3, b: Vec3) -> Vec3 {
    Vec3 { x: a.x - b.x, y: a.y - b.y, z: a.z - b.z }
}

/// Dot product of two vectors.
pub open spec fn v3_dot(a: Vec3, b: Vec3) -> int {
    a.x * b.x + a.y * b.y + a.z * b.z
}

/// Squared Euclidean length of a vector.
pub open spec fn v3_norm_sq(a: Vec3) -> int {
    v3_dot(a, a)
}

/// The zero vector.
pub open spec fn v3_is_zero(a: Vec3) -> bool {
    a.x == 0 && a.y == 0 && a.z == 0
}

/// `sep(vertex -> a, vertex -> b) <= t`, where `num / den = cos(t)^2`
/// and `t < 90` degrees: both rays are nondegenerate, point into the
/// same half-space, and the squared cosine of the angle between them is
/// at least `num / den`. A degenerate ray (a point equal to the vertex)
/// has no direction, so the predicate is false for it.
pub open spec fn spec_sep_within(vertex: Vec3, a: Vec3, b: Vec3, num: int, den: int) -> bool {
    let da = v3_sub(a, vertex);
    let db = v3_sub(b, vertex);
    let d = v3_dot(da, db);
    &&& !v3_is_zero(da)
    &&& !v3_is_zero(db)
    &&& d >= 0
    &&& den * d * d >= num * v3_norm_sq(da) * v3_norm_sq(db)
}

/// A ground point `g` sees target `t` within 45 degrees of its local
/// vertical: the angle at `g` between the ray to the origin (straight
/// down) and the ray to `t` exceeds 135 degrees. Since
/// `cos(135 deg)^2 = 1/2` this is the exact test
/// `dot < 0 && 2 * dot^2 > |o - g|^2 * |t - g|^2`, with the rays from
/// `g` to the origin and to `t` both nondegenerate.
pub open spec fn spec_can_see(ground: Vec3, target: Vec3) -> bool {
    let a = v3_sub(Vec3 { x: 0, y: 0, z: 0 }, ground);
    let b = v3_sub(target, ground);
    let d = v3_dot(a, b);
    &&& !v3_is_zero(a)
    &&& !v3_is_zero(b)
    &&& d < 0
    &&& 2 * d * d > v3_norm_sq(a) * v3_norm_sq(b)
}

/// Cone form of the 45-degree visibility test: the target projects onto
/// the outward normal at `g` strictly beyond the horizon plane, and its
/// distance to the normal ray is less than the height of the projection
/// above the surface (the cone of half-angle 45 degrees has radius equal
/// to height). Clearing denominators of `|t|^2 - dot^2/|g|^2 <
/// (dot/|g| - |g|)^2` gives the exact integer inequality below.
pub open spec fn spec_can_see_cone(ground: Vec3, target: Vec3) -> bool {
    let g2 = v3_norm_sq(ground);
    let d = v3_dot(ground, target);
    &&& g2 > 0
    &&& d > g2
    &&& g2 * v3_norm_sq(target) < 2 * d * d - 2 * d * g2 + g2 * g2
}

/// `|x * y| <= bx * by` for `|x| <= bx`, `|y| <= by`.
proof fn lemma_mul_bound(x: int, y: int, bx: int, by: int)
    by (nonlinear_arith)
    requires
        -bx <= x <= bx,
        -by <= y <= by,
        0 <= bx,
        0 <= by,
    ensures
        -(bx * by) <= x * y <= bx * by,
{
}

impl Position {
    /// Builds a position from raw fixed-point coordinates.
    pub fn new(x: i64, y: i64, z: i64) -> (r: Position)
        ensures
            r == (Position { x, y, z }),
    {
        Position { x, y, z }
    }

    /// The unbounded integer vector this position stands for.
    pub open spec fn vec3(self) -> Vec3 {
        Vec3 { x: self.x as int, y: self.y as int, z: self.z as int }
    }

    /// Every coordinate within `b` of zero.
    pub open spec fn bounded_by(self, b: int) -> bool {
        &&& -b <= self.x <= b
        &&& -b <= self.y <= b
        &&& -b <= self.z <= b
    }

    /// Within the library's coordinate range.
    pub open spec fn in_range(self) -> bool {
        self.bounded_by(MAX_COORD as int)
    }

    /// Squared Euclidean length, exact.
    pub fn len_sq(&self) -> (r: i128)
        requires
            self.bounded_by(2 * MAX_COORD),
        ensures
            r == v3_norm_sq(self.vec3()),
            0 <= r <= 69_120_000_000_000,
    {
        let r = Self::dot(self, self);
        proof {
            assert(v3_norm_sq(self.vec3()) >= 0) by (nonlinear_arith);
        }
        r
    }

    /// `self - a`, componentwise.
    pub fn sub(&self, a: &Position) -> (r: Position)
        requires
            self.in_range(),
            a.in_range(),
        ensures
            r.vec3() == v3_sub(self.vec3(), a.vec3()),
            r.bounded_by(2 * MAX_COORD),
    {
        Position { x: self.x - a.x, y: self.y - a.y, z: self.z - a.z }
    }

    /// Componentwise scaling by an integer factor.
    pub fn scale(&self, n: i64) -> (r: Position)
        requires
            self.in_range(),
            -1_000_000 <= n <= 1_000_000,
        ensures
            r.vec3() == (Vec3 {
                x: self.vec3().x * n,
                y: self.vec3().y * n,
                z: self.vec3().z * n,
            }),
    {
        proof {
            lemma_mul_bound(self.x as int, n as int, 2_400_000, 1_000_000);
            lemma_mul_bound(self.y as int, n as int, 2_400_000, 1_000_000);
            lemma_mul_bound(self.z as int, n as int, 2_400_000, 1_000_000);
        }
        Position { x: self.x * n, y: self.y * n, z: self.z * n }
    }

    /// Exact dot product.
    pub fn dot(a: &Position, b: &Position) -> (r: i128)
        requires
            a.bounded_by(2 * MAX_COORD),
            b.bounded_by(2 * MAX_COORD),
        ensures
            r == v3_dot(a.vec3(), b.vec3()),
            -69_120_000_000_000 <= r <= 69_120_000_000_000,
    {
        proof {
            lemma_mul_bound(a.x as int, b.x as int, 4_800_000, 4_800_000);
            lemma_mul_bound(a.y as int, b.y as int, 4_800_000, 4_800_000);
            lemma_mul_bound(a.z as int, b.z as int, 4_800_000, 4_800_000);
        }
        (a.x as i128) * (b.x as i128) + (a.y as i128) * (b.y as i128) + (a.z as i128) * (b.z
            as i128)
    }

    /// Whether the angle at `self` between the rays to `a` and to `b` is
    /// within the threshold whose squared cosine is `num / den`. This is
    /// the one separation primitive: the packer uses it both for co-beam
    /// crosstalk (at the satellite) and for interferer exclusion (at the
    /// user).
    pub fn sep_within(&self, a: &Position, b: &Position, num: i128, den: i128) -> (r: bool)
        requires
            self.in_range(),
            a.in_range(),
            b.in_range(),
            0 <= num <= den,
            0 < den <= MAX_THRESHOLD_DEN,
        ensures
            r == spec_sep_within(self.vec3(), a.vec3(), b.vec3(), num as int, den as int),
    {
        let da = a.sub(self);
        let db = b.sub(self);
        if da.x == 0 && da.y == 0 && da.z == 0 {
            return false;
        }
        if db.x == 0 && db.y == 0 && db.z == 0 {
            return false;
        }
        let d = Position::dot(&da, &db);
        if d < 0 {
            return false;
        }
        let n1 = da.len_sq();
        let n2 = db.len_sq();
        proof {
            lemma_mul_bound(den as int, d as int, 32_000_000_000, 69_120_000_000_000);
            lemma_mul_bound(
                (den * d) as int,
                d as int,
                2_211_840_000_000_000_000_000_000,
                69_120_000_000_000,
            );
            lemma_mul_bound(num as int, n1 as int, 32_000_000_000, 69_120_000_000_000);
            lemma_mul_bound(
                (num * n1) as int,
                n2 as int,
                2_211_840_000_000_000_000_000_000,
                69_120_000_000_000,
            );
        }
        den * d * d >= num * n1 * n2
    }

    /// Origin-referenced form of the 45-degree visibility test: `self`
    /// is the ground point, and it sees `target` when the angle at
    /// `self` between the origin and `target` exceeds 135 degrees.
    pub fn can_see_sat(&self, target: &Position) -> (r: bool)
        requires
            self.in_range(),
            target.in_range(),
        ensures
            r == spec_can_see(self.vec3(), target.vec3()),
    {
        let origin = Position::new(0, 0, 0);
        let a = origin.sub(self);
        let b = target.sub(self);
        if a.x == 0 && a.y == 0 && a.z == 0 {
            return false;
        }
        if b.x == 0 && b.y == 0 && b.z == 0 {
            return false;
        }
        let d = Position::dot(&a, &b);
        if d >= 0 {
            return false;
        }
        let n1 = a.len_sq();
        let n2 = b.len_sq();
        proof {
            lemma_mul_bound(2 * d as int, d as int, 138_240_000_000_000, 69_120_000_000_000);
            lemma_mul_bound(n1 as int, n2 as int, 69_120_000_000_000, 69_120_000_000_000);
        }
        2 * d * d > n1 * n2
    }

    /// Cone form of the 45-degree visibility test; agrees with
    /// `can_see_sat` on nondegenerate inputs.
    pub fn can_see_cone(&self, target: &Position) -> (r: bool)
        requires
            self.in_range(),
            target.in_range(),
        ensures
            r == spec_can_see_cone(self.vec3(), target.vec3()),
    {
        let g2 = self.len_sq();
        if g2 == 0 {
            return false;
        }
        let d = Position::dot(self, target);
        if d <= g2 {
            return false;
        }
        let t2 = target.len_sq();
        proof {
            lemma_mul_bound(g2 as int, t2 as int, 69_120_000_000_000, 69_120_000_000_000);
            lemma_mul_bound(2 * d as int, d as int, 138_240_000_000_000, 69_120_000_000_000);
            lemma_mul_bound(2 * d as int, g2 as int, 138_240_000_000_000, 69_120_000_000_000);
            lemma_mul_bound(g2 as int, g2 as int, 69_120_000_000_000, 69_120_000_000_000);
        }
        g2 * t2 < 2 * d * d - 2 * d * g2 + g2 * g2
    }

    /// The visibility predicate the packer uses: the origin-referenced
    /// 135-degree formulation.
    pub fn can_see(&self, target: &Position) -> (r: bool)
        requires
            self.in_range(),
            target.in_range(),
        ensures
            r == spec_can_see(self.vec3(), target.vec3()),
    {
        self.can_see_sat(target)
    }
}

} // verus!
