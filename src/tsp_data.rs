//! The instance: a set of points with a symmetric integer distance matrix.
use vstd::prelude::*;

verus! {

/// Largest magnitude of a coordinate, so that squared distances fit in `u64`.
pub const MAX_COORD: i64 = 1073741824;

/// Upper bound of the distance between two admissible points.
pub const MAX_DIST: u64 = 3100000000;

/// Largest number of cities, so that the matrix index and a tour length fit.
pub const MAX_CITIES: usize = 16777216;

/// Squared Euclidean distance between two points.
pub open spec fn sq_dist(a: (i64, i64), b: (i64, i64)) -> int {
    (a.0 - b.0) * (a.0 - b.0) + (a.1 - b.1) * (a.1 - b.1)
}

/// `r` is the floor of the square root of `s`.
pub open spec fn is_floor_sqrt(s: int, r: int) -> bool {
    0 <= r && r * r <= s && s < (r + 1) * (r + 1)
}

/// A point whose coordinates are both within `MAX_COORD` in magnitude.
pub open spec fn point_in_range(p: (i64, i64)) -> bool {
    -MAX_COORD <= p.0 <= MAX_COORD && -MAX_COORD <= p.1 <= MAX_COORD
}

/// `i * n + j` is the flat position of cell `(i, j)` of an `n` by `n` matrix.
pub proof fn lemma_flat_index(i: int, j: int, n: int)
    requires
        0 <= i < n,
        0 <= j < n,
    ensures
        0 <= i * n + j < n * n,
{
    assert(0 <= i * n + j < n * n) by (nonlinear_arith)
        requires
            0 <= i < n,
            0 <= j < n,
    ;
}

/// Distinct cells of an `n` by `n` matrix have distinct flat positions.
pub proof fn lemma_flat_index_inj(i: int, j: int, a: int, b: int, n: int)
    requires
        0 <= i < n,
        0 <= j < n,
        0 <= a < n,
        0 <= b < n,
        a * n + b == i * n + j,
    ensures
        a == i,
        b == j,
{
    if a < i {
        assert(a * n + b < i * n + j) by (nonlinear_arith)
            requires
                a < i,
                0 <= b < n,
                0 <= j,
        ;
    } else if i < a {
        assert(i * n + j < a * n + b) by (nonlinear_arith)
            requires
                i < a,
                0 <= j < n,
                0 <= b,
        ;
    }
}

/// Floor square root by bisection.
fn floor_sqrt(s: u64) -> (r: u64)
    requires
        s <= 9223372036854775808,
    ensures
        is_floor_sqrt(s as int, r as int),
        r <= MAX_DIST,
{
    let mut lo: u64 = 0;
    let mut hi: u64 = 3100000000;
    assert(s < (hi as int) * (hi as int)) by (nonlinear_arith)
        requires
            s <= 9223372036854775808,
            hi == 3100000000,
    ;
    while hi - lo > 1
        invariant
            lo < hi <= 3100000000,
            lo * lo <= s,
            s < (hi as int) * (hi as int),
        decreases hi - lo,
    {
        let mid: u64 = lo + (hi - lo) / 2;
        assert(mid * mid <= 3100000000 * 3100000000) by (nonlinear_arith)
            requires
                mid <= 3100000000,
        ;
        if mid * mid <= s {
            lo = mid;
        } else {
            hi = mid;
        }
    }
    assert(hi == lo + 1);
    lo
}

/// Squared distance of two admissible points, computed without overflow.
fn squared_distance(a: (i64, i64), b: (i64, i64)) -> (r: u64)
    requires
        point_in_range(a),
        point_in_range(b),
    ensures
        r as int == sq_dist(a, b),
        r <= 9223372036854775808,
{
    let dx: i64 = a.0 - b.0;
    let dy: i64 = a.1 - b.1;
    assert(0 <= dx * dx <= 4611686018427387904) by (nonlinear_arith)
        requires
            -2147483648 <= dx <= 2147483648,
    ;
    assert(0 <= dy * dy <= 4611686018427387904) by (nonlinear_arith)
        requires
            -2147483648 <= dy <= 2147483648,
    ;
    (dx * dx) as u64 + (dy * dy) as u64
}

/// Whether `TspData::new` accepts these coordinates: not too many points, and
/// each coordinate within `MAX_COORD` in magnitude.
pub fn coords_admissible(coords: &Vec<(i64, i64)>) -> (r: bool)
    ensures
        r == (coords@.len() <= MAX_CITIES && forall|i: int|
            0 <= i < coords@.len() ==> point_in_range(#[trigger] coords@[i])),
{
    if coords.len() > MAX_CITIES {
        return false;
    }
    let mut k: usize = 0;
    while k < coords.len()
        invariant
            k <= coords@.len(),
            forall|i: int| 0 <= i < k ==> point_in_range(#[trigger] coords@[i]),
        decreases coords@.len() - k,
    {
        let p = coords[k];
        if !(-MAX_COORD <= p.0 && p.0 <= MAX_COORD && -MAX_COORD <= p.1 && p.1 <= MAX_COORD) {
            return false;
        }
        k = k + 1;
    }
    true
}

/// A set of cities with a precomputed, flattened, symmetric distance matrix.
pub struct TspData {
    pub coords: Vec<(i64, i64)>,
    pub dist_matrix: Vec<u64>,
    pub n: usize,
}

impl TspData {
    /// Distance between cities `i` and `j` as held in the matrix.
    pub open spec fn d(&self, i: int, j: int) -> int {
        self.dist_matrix@[i * self.n + j] as int
    }

    /// The matrix holds, for every pair of cities, the floor of their
    /// Euclidean distance; it is therefore symmetric with a zero diagonal.
    pub open spec fn wf(&self) -> bool {
        &&& self.n == self.coords@.len()
        &&& self.n <= MAX_CITIES
        &&& self.dist_matrix@.len() == self.n * self.n
        &&& forall|i: int| 0 <= i < self.n ==> point_in_range(#[trigger] self.coords@[i])
        &&& forall|i: int, j: int|
            0 <= i < self.n && 0 <= j < self.n ==> is_floor_sqrt(
                sq_dist(self.coords@[i], self.coords@[j]),
                #[trigger] self.d(i, j),
            )
        &&& forall|i: int, j: int|
            0 <= i < self.n && 0 <= j < self.n ==> #[trigger] self.d(i, j) == self.d(j, i)
        &&& forall|i: int, j: int|
            0 <= i < self.n && 0 <= j < self.n ==> #[trigger] self.d(i, j) <= MAX_DIST
        &&& forall|i: int| 0 <= i < self.n ==> #[trigger] self.d(i, i) == 0
    }

    /// Total length of the first `k` edges of the path `s`.
    pub open spec fn path_len(&self, s: Seq<usize>, k: int) -> int
        decreases k,
    {
        if k <= 0 {
            0
        } else {
            self.path_len(s, k - 1) + self.d(s[k - 1] as int, s[k] as int)
        }
    }

    /// Length of the closed tour `s`: its path plus the edge back to the start.
    pub open spec fn tour_len(&self, s: Seq<usize>) -> int {
        if s.len() == 0 {
            0
        } else {
            self.path_len(s, s.len() - 1) + self.d(s[s.len() - 1] as int, s[0] as int)
        }
    }

    /// Builds the instance from fixed-point coordinates; each distance is the
    /// floor of the Euclidean distance.
    pub fn new(coords: Vec<(i64, i64)>) -> (r: TspData)
        requires
            coords@.len() <= MAX_CITIES,
            forall|i: int| 0 <= i < coords@.len() ==> point_in_range(#[trigger] coords@[i]),
        ensures
            r.wf(),
            r.coords@ == coords@,
            r.n == coords@.len(),
    {
        let n = coords.len();
        assert(n * n <= MAX_CITIES * MAX_CITIES) by (nonlinear_arith)
            requires
                n <= MAX_CITIES,
        ;
        let mut dist_matrix: Vec<u64> = Vec::new();
        let mut i: usize = 0;
        while i < n
            invariant
                n == coords@.len(),
                n <= MAX_CITIES,
                forall|a: int| 0 <= a < n ==> point_in_range(#[trigger] coords@[a]),
                i <= n,
                dist_matrix@.len() == i * n,
                forall|a: int, b: int|
                    0 <= a < i && 0 <= b < n ==> is_floor_sqrt(
                        sq_dist(coords@[a], coords@[b]),
                        #[trigger] dist_matrix@[a * n + b] as int,
                    ) && dist_matrix@[a * n + b] <= MAX_DIST,
            decreases n - i,
        {
            let mut j: usize = 0;
            while j < n
                invariant
                    n == coords@.len(),
                    n <= MAX_CITIES,
                    forall|a: int| 0 <= a < n ==> point_in_range(#[trigger] coords@[a]),
                    i < n,
                    j <= n,
                    dist_matrix@.len() == i * n + j,
                    forall|a: int, b: int|
                        0 <= a < i && 0 <= b < n ==> is_floor_sqrt(
                            sq_dist(coords@[a], coords@[b]),
                            #[trigger] dist_matrix@[a * n + b] as int,
                        ) && dist_matrix@[a * n + b] <= MAX_DIST,
                    forall|b: int|
                        0 <= b < j ==> is_floor_sqrt(
                            sq_dist(coords@[i as int], coords@[b]),
                            #[trigger] dist_matrix@[i * n + b] as int,
                        ) && dist_matrix@[i * n + b] <= MAX_DIST,
                decreases n - j,
            {
                proof {
                    lemma_flat_index(i as int, j as int, n as int);
                }
                let s = squared_distance(coords[i], coords[j]);
                let d = floor_sqrt(s);
                let ghost old_m = dist_matrix@;
                dist_matrix.push(d);
                assert forall|a: int, b: int| 0 <= a < i && 0 <= b < n implies
                    #[trigger] dist_matrix@[a * n + b] == old_m[a * n + b] by {
                    lemma_flat_index(a, b, n as int);
                    assert(a * n + b < i * n) by (nonlinear_arith)
                        requires
                            a < i,
                            0 <= b < n,
                    ;
                }
                j = j + 1;
            }
            assert(dist_matrix@.len() == (i + 1) * n) by (nonlinear_arith)
                requires
                    dist_matrix@.len() == i * n + n,
            ;
            i = i + 1;
        }
        let r = TspData { coords, dist_matrix, n };
        proof {
            assert forall|i: int, j: int| 0 <= i < n && 0 <= j < n implies
                #[trigger] r.d(i, j) == r.d(j, i) && r.d(i, j) <= MAX_DIST by {
                let ci = r.coords@[i];
                let cj = r.coords@[j];
                assert(sq_dist(ci, cj) == sq_dist(cj, ci)) by (nonlinear_arith);
                lemma_floor_sqrt_unique(sq_dist(ci, cj), r.d(i, j), r.d(j, i));
            }
            assert forall|i: int| 0 <= i < n implies #[trigger] r.d(i, i) == 0 by {
                let ci = r.coords@[i];
                assert(sq_dist(ci, ci) == 0) by (nonlinear_arith);
                assert(is_floor_sqrt(0, r.d(i, i)));
                assert(r.d(i, i) * r.d(i, i) >= r.d(i, i)) by (nonlinear_arith)
                    requires
                        r.d(i, i) >= 0,
                ;
            }
        }
        r
    }

    /// Distance between two cities, read from the matrix.
    pub fn dist(&self, i: usize, j: usize) -> (r: u64)
        requires
            self.wf(),
            i < self.n,
            j < self.n,
        ensures
            r as int == self.d(i as int, j as int),
            r <= MAX_DIST,
    {
        let cells = self.dist_matrix.len();
        proof {
            lemma_flat_index(i as int, j as int, self.n as int);
        }
        assert(i * self.n + j < cells);
        assert(self.d(i as int, j as int) <= MAX_DIST);
        self.dist_matrix[i * self.n + j]
    }

    /// Length of the closed tour, the edge back to the start included.
    pub fn calculate_tour_length(&self, tour: &Vec<usize>) -> (r: u64)
        requires
            self.wf(),
            tour@.len() <= MAX_CITIES,
            forall|k: int| 0 <= k < tour@.len() ==> #[trigger] tour@[k] < self.n,
        ensures
            r as int == self.tour_len(tour@),
    {
        let len = tour.len();
        if len == 0 {
            return 0;
        }
        let mut length: u64 = 0;
        let mut k: usize = 0;
        while k + 1 < len
            invariant
                self.wf(),
                len == tour@.len(),
                0 < len <= MAX_CITIES,
                forall|p: int| 0 <= p < tour@.len() ==> #[trigger] tour@[p] < self.n,
                k < len,
                length as int == self.path_len(tour@, k as int),
                length <= k * MAX_DIST,
            decreases len - k,
        {
            let e = self.dist(tour[k], tour[k + 1]);
            length = length + e;
            k = k + 1;
        }
        let e = self.dist(tour[len - 1], tour[0]);
        length + e
    }
}

/// Floor square roots are unique.
pub proof fn lemma_floor_sqrt_unique(s: int, r1: int, r2: int)
    requires
        is_floor_sqrt(s, r1),
        is_floor_sqrt(s, r2),
    ensures
        r1 == r2,
{
    if r1 < r2 {
        assert((r1 + 1) * (r1 + 1) <= r2 * r2) by (nonlinear_arith)
            requires
                0 <= r1 < r2,
        ;
    } else if r2 < r1 {
        assert((r2 + 1) * (r2 + 1) <= r1 * r1) by (nonlinear_arith)
            requires
                0 <= r2 < r1,
        ;
    }
}

} // verus!
