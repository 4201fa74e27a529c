//! Three-dimensional extents and indices.

use vstd::prelude::*;

verus! {

/// A CUDA-style three-dimensional extent or index.
#[derive(Clone, Copy, Debug, PartialEq, Eq, Hash, Structural)]
pub struct Dim3 {
    pub x: u32,
    pub y: u32,
    pub z: u32,
}

impl Dim3 {
    /// How many elements this extent covers.
    pub open spec fn volume(self) -> int {
        self.x * self.y * self.z
    }

    /// Whether `i` lies inside this extent.
    pub open spec fn covers(self, i: Dim3) -> bool {
        i.x < self.x && i.y < self.y && i.z < self.z
    }

    /// The linear position of an index, x fastest.
    pub open spec fn position(self, i: Dim3) -> int {
        i.x + self.x * (i.y + self.y * i.z)
    }

    pub fn new(x: u32, y: u32, z: u32) -> (d: Dim3)
        ensures
            d == (Dim3 { x, y, z }),
    {
        Dim3 { x, y, z }
    }

    /// Total number of elements covered by this extent.
    pub fn count(&self) -> (r: u32)
        requires
            self.x * self.y <= u32::MAX,
            self.volume() <= u32::MAX,
        ensures
            r == self.volume(),
    {
        self.x * self.y * self.z
    }

    /// Total number of elements, or `None` if it does not fit.
    pub fn checked_count(&self) -> (r: Option<u32>)
        ensures
            r == if self.x * self.y <= u32::MAX && self.volume() <= u32::MAX {
                Some(self.volume() as u32)
            } else {
                None
            },
    {
        match self.x.checked_mul(self.y) {
            Some(xy) => xy.checked_mul(self.z),
            None => None,
        }
    }

    /// Converts a linear index (x fastest) into coordinates within `extent`.
    pub fn from_linear(i: u32, extent: Dim3) -> (r: Dim3)
        requires
            extent.x * extent.y <= u32::MAX,
            i < extent.volume(),
        ensures
            extent.covers(r),
            extent.position(r) == i,
    {
        proof {
            lemma_no_empty_side(extent);
            lemma_from_linear(i, extent);
        }
        let x: u32 = i % extent.x;
        let y: u32 = (i / extent.x) % extent.y;
        let z: u32 = i / (extent.x * extent.y);
        Dim3 { x, y, z }
    }
}

proof fn lemma_no_empty_side(extent: Dim3)
    requires
        0 < extent.volume(),
    ensures
        extent.x > 0,
        extent.y > 0,
        extent.z > 0,
        extent.x * extent.y > 0,
{
    let (a, b, c) = (extent.x as int, extent.y as int, extent.z as int);
    assert(a > 0 && b > 0 && c > 0 && a * b > 0) by (nonlinear_arith)
        requires
            a * b * c > 0,
            a >= 0,
            b >= 0,
            c >= 0,
    ;
}

proof fn lemma_from_linear(i: u32, extent: Dim3)
    requires
        extent.x > 0,
        extent.y > 0,
        extent.z > 0,
        extent.x * extent.y <= u32::MAX,
        i < extent.volume(),
    ensures
        ({
            let x = i % extent.x;
            let y = (i / extent.x) % extent.y;
            let z = i as int / (extent.x * extent.y);
            &&& x < extent.x
            &&& y < extent.y
            &&& 0 <= z < extent.z
            &&& x + extent.x * (y + extent.y * z) == i
        }),
{
    let (a, b, c) = (extent.x as int, extent.y as int, extent.z as int);
    let n = i as int;
    vstd::arithmetic::div_mod::lemma_fundamental_div_mod(n, a);
    vstd::arithmetic::div_mod::lemma_fundamental_div_mod(n / a, b);
    vstd::arithmetic::div_mod::lemma_div_denominator(n, a, b);
    let x = n % a;
    let y = (n / a) % b;
    let z = (n / a) / b;
    assert(z == n / (a * b));
    assert(0 <= z) by (nonlinear_arith)
        requires
            z == n / (a * b),
            n >= 0,
            a > 0,
            b > 0,
    ;
    assert(z < c) by (nonlinear_arith)
        requires
            n == a * (b * z + y) + x,
            n < a * b * c,
            a > 0,
            b > 0,
            x >= 0,
            y >= 0,
    ;
    assert(y + b * z == n / a);
}

/// Coordinates and linear positions determine each other: two indices inside
/// an extent with the same position are the same index.
pub proof fn positions_tell_indices_apart(extent: Dim3, i: Dim3, j: Dim3)
    requires
        extent.covers(i),
        extent.covers(j),
        extent.position(i) == extent.position(j),
    ensures
        i == j,
{
    let (a, b) = (extent.x as int, extent.y as int);
    let p = i.y + b * i.z;
    let q = j.y + b * j.z;
    assert(p == q && i.x == j.x) by (nonlinear_arith)
        requires
            i.x + a * p == j.x + a * q,
            0 <= i.x < a,
            0 <= j.x < a,
    ;
    assert(i.z == j.z && i.y == j.y) by (nonlinear_arith)
        requires
            i.y + b * i.z == j.y + b * j.z,
            0 <= i.y < b,
            0 <= j.y < b,
    ;
}

/// The coordinates of a position are its digits, x fastest.
pub proof fn lemma_digits(i: u32, extent: Dim3, d: Dim3)
    requires
        extent.x * extent.y <= u32::MAX,
        i < extent.volume(),
        extent.covers(d),
        extent.position(d) == i,
    ensures
        d.x == i % extent.x,
        d.y == (i / extent.x) % extent.y,
        d.z == i as int / (extent.x * extent.y),
{
    lemma_no_empty_side(extent);
    lemma_from_linear(i, extent);
    let found = Dim3 {
        x: i % extent.x,
        y: (i / extent.x) % extent.y,
        z: (i as int / (extent.x * extent.y)) as u32,
    };
    positions_tell_indices_apart(extent, d, found);
}

impl From<u32> for Dim3 {
    fn from(x: u32) -> (r: Dim3) {
        Dim3::new(x, 1, 1)
    }
}

impl vstd::std_specs::convert::FromSpecImpl<u32> for Dim3 {
    open spec fn obeys_from_spec() -> bool {
        true
    }

    open spec fn from_spec(x: u32) -> Dim3 {
        Dim3 { x, y: 1, z: 1 }
    }
}

impl From<(u32, u32)> for Dim3 {
    fn from(xy: (u32, u32)) -> (r: Dim3) {
        Dim3::new(xy.0, xy.1, 1)
    }
}

impl vstd::std_specs::convert::FromSpecImpl<(u32, u32)> for Dim3 {
    open spec fn obeys_from_spec() -> bool {
        true
    }

    open spec fn from_spec(xy: (u32, u32)) -> Dim3 {
        Dim3 { x: xy.0, y: xy.1, z: 1 }
    }
}

impl From<(u32, u32, u32)> for Dim3 {
    fn from(xyz: (u32, u32, u32)) -> (r: Dim3) {
        Dim3::new(xyz.0, xyz.1, xyz.2)
    }
}

impl vstd::std_specs::convert::FromSpecImpl<(u32, u32, u32)> for Dim3 {
    open spec fn obeys_from_spec() -> bool {
        true
    }

    open spec fn from_spec(xyz: (u32, u32, u32)) -> Dim3 {
        Dim3 { x: xyz.0, y: xyz.1, z: xyz.2 }
    }
}

/// Linear positions count x fastest, then y, then z: the next x is the next
/// position, the next y is a row further, and the next z a plane further.
pub proof fn positions_count_x_fastest(extent: Dim3, x: u32, y: u32, z: u32)
    requires
        x < u32::MAX,
        y < u32::MAX,
        z < u32::MAX,
    ensures
        ({
            let at = |x: int, y: int, z: int|
                extent.position(Dim3 { x: x as u32, y: y as u32, z: z as u32 });
            &&& at(0, 0, 0) == 0
            &&& at(x + 1, y as int, z as int) == at(x as int, y as int, z as int) + 1
            &&& at(x as int, y + 1, z as int) == at(x as int, y as int, z as int) + extent.x
            &&& at(x as int, y as int, z + 1) == at(x as int, y as int, z as int) + extent.x
                * extent.y
        }),
{
    let (a, b) = (extent.x as int, extent.y as int);
    assert(a * ((y + 1) + b * z) == a * (y + b * z) + a) by (nonlinear_arith);
    assert(a * (y + b * (z + 1)) == a * (y + b * z) + a * b) by (nonlinear_arith);
    assert(a * (0 + b * 0) == 0) by (nonlinear_arith);
}

/// The last index of an extent is at the last position.
pub proof fn positions_fill_the_extent(extent: Dim3, i: Dim3)
    requires
        extent.covers(i),
    ensures
        0 <= extent.position(i) < extent.x * extent.y * extent.z,
        extent.volume() == extent.x * extent.y * extent.z,
{
    let (a, b, c) = (extent.x as int, extent.y as int, extent.z as int);
    let (x, y, z) = (i.x as int, i.y as int, i.z as int);
    assert(0 <= y + b * z < b * c) by (nonlinear_arith)
        requires
            0 <= y < b,
            0 <= z < c,
    ;
    let r = y + b * z;
    assert(0 <= x + a * r < a * (b * c)) by (nonlinear_arith)
        requires
            0 <= x < a,
            0 <= r < b * c,
    ;
    assert(a * (b * c) == a * b * c) by (nonlinear_arith);
}

} // verus!
