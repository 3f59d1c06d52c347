//! Points, distances between them, and distance records.
//!
//! A [`Point`] carries a non-negative integer distance to other points of
//! its kind.  The built-in kinds are 1024-bit binary [`Sketch`]es under
//! Hamming distance, plain integers under absolute difference, and small
//! 3-d grid points under squared Euclidean distance.  A [`Distance`]
//! record pairs a point with its distance to some query and the point's
//! identifier; records are ordered lexicographically by
//! `(distance, key)` so that ties break deterministically.

use vstd::prelude::*;
use vstd::arithmetic::power2::lemma2_to64;
use vstd::arithmetic::power2::lemma2_to64_rest;
use vstd::arithmetic::power2::lemma_pow2_unfold;
use vstd::arithmetic::power2::pow2;

use crate::order::TotalOrd;

verus! {

/// A point with an integer distance to other points of its kind.
///
/// `spec_distance` is the mathematical distance; `distance` computes it.
pub trait Point: Sized {
    spec fn spec_distance(&self, other: &Self) -> usize;

    fn distance(&self, other: &Self) -> (r: usize)
        ensures
            r == self.spec_distance(other),
    ;

    /// An equal copy of the point.
    fn clone_point(&self) -> (r: Self)
        ensures
            r == *self,
    ;

    /// Whether two points are the same value.
    fn eq_point(&self, other: &Self) -> (r: bool)
        ensures
            r == (*self == *other),
    ;
}

/// Absolute difference, for integer points.
impl Point for i32 {
    open spec fn spec_distance(&self, other: &Self) -> usize {
        if *self <= *other {
            (*other - *self) as usize
        } else {
            (*self - *other) as usize
        }
    }

    fn distance(&self, other: &Self) -> (r: usize) {
        let a = *self as i64;
        let b = *other as i64;
        if a <= b {
            (b - a) as usize
        } else {
            (a - b) as usize
        }
    }

    fn clone_point(&self) -> (r: Self) {
        *self
    }

    fn eq_point(&self, other: &Self) -> (r: bool) {
        *self == *other
    }
}

/// Layer nodes pair a point with the identifier of its twin one layer
/// down; distance ignores the identifier.
impl<P: Point> Point for (P, u32) {
    open spec fn spec_distance(&self, other: &Self) -> usize {
        self.0.spec_distance(&other.0)
    }

    fn distance(&self, other: &Self) -> (r: usize) {
        self.0.distance(&other.0)
    }

    fn clone_point(&self) -> (r: Self) {
        (self.0.clone_point(), self.1)
    }

    fn eq_point(&self, other: &Self) -> (r: bool) {
        self.0.eq_point(&other.0) && self.1 == other.1
    }
}

/// Number of one bits in the binary representation of `x`.
pub open spec fn popcnt64(x: u64) -> nat
    decreases x,
{
    if x == 0 {
        0
    } else {
        ((x % 2) + popcnt64(x / 2)) as nat
    }
}

proof fn lemma_popcnt64_bound(x: u64, n: nat)
    requires
        x < pow2(n),
    ensures
        popcnt64(x) <= n,
    decreases n,
{
    if x > 0 {
        if n == 0 {
            lemma2_to64();
        } else {
            lemma_pow2_unfold(n);
            lemma_popcnt64_bound(x / 2, (n - 1) as nat);
        }
    }
}

proof fn lemma_popcnt64_le_64(x: u64)
    ensures
        popcnt64(x) <= 64,
{
    lemma2_to64();
    lemma2_to64_rest();
    lemma_popcnt64_bound(x, 64);
}

/// Count the one bits of `x`.
#[verifier::loop_isolation(false)]
fn popcount(x: u64) -> (r: usize)
    ensures
        r == popcnt64(x),
        r <= 64,
{
    proof {
        lemma_popcnt64_le_64(x);
    }
    let mut v = x;
    let mut c: usize = 0;
    while v != 0
        invariant
            c + popcnt64(v) == popcnt64(x),
            popcnt64(x) <= 64,
        decreases v,
    {
        assert((v & 1) == v % 2) by (bit_vector);
        assert((v >> 1) == v / 2) by (bit_vector);
        c = c + ((v & 1) as usize);
        v = v >> 1;
    }
    c
}

/// A 1024-bit binary sketch stored as sixteen 64-bit words.
#[derive(Clone, Copy, Debug)]
pub struct Sketch {
    pub data: [u64; 16],
}

/// Hamming distance between the length-`n` prefixes of two word arrays.
pub open spec fn hamming(a: Seq<u64>, b: Seq<u64>, n: int) -> nat
    decreases n,
{
    if n <= 0 {
        0
    } else {
        hamming(a, b, n - 1) + popcnt64(a[n - 1] ^ b[n - 1])
    }
}

proof fn lemma_hamming_bound(a: Seq<u64>, b: Seq<u64>, n: int)
    requires
        0 <= n,
    ensures
        hamming(a, b, n) <= 64 * n,
    decreases n,
{
    if n > 0 {
        lemma_hamming_bound(a, b, n - 1);
        lemma_popcnt64_le_64(a[n - 1] ^ b[n - 1]);
    }
}

impl Sketch {
    pub fn new(data: [u64; 16]) -> (r: Self)
        ensures
            r.data@ == data@,
    {
        Sketch { data }
    }
}

/// Hamming distance: the number of one bits in the words' exclusive or.
impl Point for Sketch {
    open spec fn spec_distance(&self, other: &Self) -> usize {
        hamming(self.data@, other.data@, 16) as usize
    }

    #[verifier::loop_isolation(false)]
    fn distance(&self, other: &Self) -> (r: usize) {
        proof {
            lemma_hamming_bound(self.data@, other.data@, 16);
        }
        let mut acc: usize = 0;
        let mut i: usize = 0;
        while i < 16
            invariant
                0 <= i <= 16,
                acc == hamming(self.data@, other.data@, i as int),
                hamming(self.data@, other.data@, 16) <= 64 * 16,
                acc <= 64 * i,
        decreases 16 - i,
        {
            proof {
                lemma_hamming_bound(self.data@, other.data@, i as int);
            }
            acc = acc + popcount(self.data[i] ^ other.data[i]);
            i = i + 1;
        }
        acc
    }

    fn clone_point(&self) -> (r: Self) {
        *self
    }

    #[verifier::loop_isolation(false)]
    fn eq_point(&self, other: &Self) -> (r: bool) {
        let mut i: usize = 0;
        while i < 16
            invariant
                0 <= i <= 16,
                forall|k: int| 0 <= k < i ==> self.data@[k] == other.data@[k],
            decreases 16 - i,
        {
            if self.data[i] != other.data[i] {
                return false;
            }
            i += 1;
        }
        proof {
            broadcast use vstd::array::group_array_axioms;

            assert(self.data@ =~= other.data@);
            assert(self.data == other.data);
        }
        true
    }
}

/// A point on a small 3-d integer grid, under squared Euclidean distance.
#[derive(Clone, Copy, Debug)]
pub struct GridPoint {
    pub x: u8,
    pub y: u8,
    pub z: u8,
}

/// Squared difference of two coordinates.
pub open spec fn sqdiff(a: u8, b: u8) -> int {
    (a - b) * (a - b)
}

impl GridPoint {
    pub fn new(x: u8, y: u8, z: u8) -> (r: Self)
        ensures
            r == (GridPoint { x, y, z }),
    {
        GridPoint { x, y, z }
    }
}

impl Point for GridPoint {
    open spec fn spec_distance(&self, other: &Self) -> usize {
        (sqdiff(self.x, other.x) + sqdiff(self.y, other.y) + sqdiff(self.z, other.z)) as usize
    }

    fn distance(&self, other: &Self) -> (r: usize) {
        let dx = absdiff8(self.x, other.x);
        let dy = absdiff8(self.y, other.y);
        let dz = absdiff8(self.z, other.z);
        assert(dx * dx == sqdiff(self.x, other.x)) by (nonlinear_arith)
            requires
                dx == if self.x <= other.x { other.x - self.x } else { self.x - other.x },
        ;
        assert(dy * dy == sqdiff(self.y, other.y)) by (nonlinear_arith)
            requires
                dy == if self.y <= other.y { other.y - self.y } else { self.y - other.y },
        ;
        assert(dz * dz == sqdiff(self.z, other.z)) by (nonlinear_arith)
            requires
                dz == if self.z <= other.z { other.z - self.z } else { self.z - other.z },
        ;
        assert(dx * dx <= 255 * 255 && dy * dy <= 255 * 255 && dz * dz <= 255 * 255)
            by (nonlinear_arith)
            requires
                dx <= 255,
                dy <= 255,
                dz <= 255,
        ;
        dx * dx + dy * dy + dz * dz
    }

    fn clone_point(&self) -> (r: Self) {
        *self
    }

    fn eq_point(&self, other: &Self) -> (r: bool) {
        self.x == other.x && self.y == other.y && self.z == other.z
    }
}

/// Absolute difference of two bytes, as a `usize`.
fn absdiff8(a: u8, b: u8) -> (r: usize)
    ensures
        r == if a <= b { (b - a) as int } else { (a - b) as int },
        r <= 255,
{
    if a <= b {
        (b - a) as usize
    } else {
        (a - b) as usize
    }
}

/// A distance record: the distance from some query to the point stored
/// under `key`.
#[derive(Clone, Debug)]
pub struct Distance<P> {
    pub distance: usize,
    pub key: usize,
    pub point: P,
}

impl<P> Distance<P> {
    pub fn new(distance: usize, key: usize, point: P) -> (r: Self)
        ensures
            r.distance == distance,
            r.key == key,
            r.point == point,
    {
        Distance { distance, key, point }
    }

    pub fn distance(&self) -> (r: usize)
        ensures
            r == self.distance,
    {
        self.distance
    }

    pub fn key(&self) -> (r: usize)
        ensures
            r == self.key,
    {
        self.key
    }

    pub fn point(&self) -> (r: &P)
        ensures
            r == &self.point,
    {
        &self.point
    }

    /// The `(distance, key)` pair that orders this record.
    pub open spec fn rec(&self) -> (usize, usize) {
        (self.distance, self.key)
    }
}

impl Distance<Sketch> {
    /// The sketch this record points at.
    pub fn sketch(&self) -> (r: &Sketch)
        ensures
            r == &self.point,
    {
        &self.point
    }
}

} // verus!
