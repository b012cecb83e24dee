//! The pheromone field: a symmetric matrix of fixed-point desirability levels.
use vstd::prelude::*;
use crate::tour::is_tour;
use crate::tsp_data::{lemma_flat_index, lemma_flat_index_inj, MAX_CITIES};

verus! {

/// The fixed-point unit of pheromone: a level of `TAU_ONE` stands for 1.
pub const TAU_ONE: u64 = 1152921504606846976;

/// Evaporation rates are `1 / EVAPORATION`, for the local and the global update.
pub const EVAPORATION: u64 = 10;

/// One evaporation step of `level` toward `target`: `(1 - 1/10) * level + target / 10`,
/// rounded down.
pub open spec fn blend(level: int, target: int) -> int {
    ((EVAPORATION - 1) * level + target) / (EVAPORATION as int)
}

/// A dense symmetric `n` by `n` matrix of levels, stored flat.
pub struct PheromoneField {
    pub n: usize,
    pub levels: Vec<u64>,
    pub tau0: u64,
}

impl PheromoneField {
    /// Level of the edge `(i, j)`.
    pub open spec fn tau(&self, i: int, j: int) -> int {
        self.levels@[i * self.n + j] as int
    }

    /// Dimensions agree, levels are symmetric and at most `TAU_ONE`.
    pub open spec fn wf(&self) -> bool {
        &&& self.n <= MAX_CITIES
        &&& self.levels@.len() == self.n * self.n
        &&& self.tau0 <= TAU_ONE
        &&& forall|i: int, j: int|
            0 <= i < self.n && 0 <= j < self.n ==> #[trigger] self.tau(i, j) == self.tau(j, i)
        &&& forall|i: int, j: int|
            0 <= i < self.n && 0 <= j < self.n ==> #[trigger] self.tau(i, j) <= TAU_ONE
    }

    /// A field over `n` cities with every level at `tau0`.
    pub fn new(n: usize, tau0: u64) -> (r: PheromoneField)
        requires
            n <= MAX_CITIES,
            tau0 <= TAU_ONE,
        ensures
            r.wf(),
            r.n == n,
            r.tau0 == tau0,
            forall|i: int, j: int| 0 <= i < n && 0 <= j < n ==> #[trigger] r.tau(i, j) == tau0,
    {
        let mut levels: Vec<u64> = Vec::new();
        let mut i: usize = 0;
        while i < n
            invariant
                i <= n,
                levels@.len() == i * n,
                forall|p: int| 0 <= p < levels@.len() ==> #[trigger] levels@[p] == tau0,
            decreases n - i,
        {
            let mut j: usize = 0;
            while j < n
                invariant
                    i < n,
                    j <= n,
                    levels@.len() == i * n + j,
                    forall|p: int| 0 <= p < levels@.len() ==> #[trigger] levels@[p] == tau0,
                decreases n - j,
            {
                levels.push(tau0);
                j = j + 1;
            }
            assert(levels@.len() == (i + 1) * n) by (nonlinear_arith)
                requires
                    levels@.len() == i * n + n,
            ;
            i = i + 1;
        }
        let r = PheromoneField { n, levels, tau0 };
        assert forall|i: int, j: int| 0 <= i < n && 0 <= j < n implies #[trigger] r.tau(i, j)
            == tau0 by {
            lemma_flat_index(i, j, n as int);
        }
        r
    }

    /// Level of the edge `(i, j)`.
    pub fn level(&self, i: usize, j: usize) -> (r: u64)
        requires
            self.wf(),
            i < self.n,
            j < self.n,
        ensures
            r as int == self.tau(i as int, j as int),
            r <= TAU_ONE,
    {
        let cells = self.levels.len();
        proof {
            lemma_flat_index(i as int, j as int, self.n as int);
        }
        assert(i * self.n + j < cells);
        assert(self.tau(i as int, j as int) <= TAU_ONE);
        self.levels[i * self.n + j]
    }

    /// Moves the level of edge `(u, v)`, in both directions, one evaporation
    /// step toward `target`.
    pub fn evaporate_toward(&mut self, u: usize, v: usize, target: u64)
        requires
            old(self).wf(),
            u < old(self).n,
            v < old(self).n,
            target <= TAU_ONE,
        ensures
            final(self).wf(),
            final(self).n == old(self).n,
            final(self).tau0 == old(self).tau0,
            final(self).tau(u as int, v as int) == blend(old(self).tau(u as int, v as int), target as int),
            final(self).tau(v as int, u as int) == final(self).tau(u as int, v as int),
            forall|i: int, j: int|
                0 <= i < old(self).n && 0 <= j < old(self).n && !(i == u && j == v) && !(i == v
                    && j == u) ==> #[trigger] final(self).tau(i, j) == old(self).tau(i, j),
    {
        let n = self.n;
        let cells = self.levels.len();
        let current = self.level(u, v);
        assert((EVAPORATION - 1) * current + target <= EVAPORATION * TAU_ONE) by (nonlinear_arith)
            requires
                current <= TAU_ONE,
                target <= TAU_ONE,
        ;
        let updated: u64 = ((EVAPORATION - 1) * current + target) / EVAPORATION;
        assert(updated <= TAU_ONE);
        proof {
            lemma_flat_index(u as int, v as int, n as int);
            lemma_flat_index(v as int, u as int, n as int);
        }
        assert(u * n + v < cells && v * n + u < cells);
        let ghost before = *self;
        self.levels.set(u * n + v, updated);
        self.levels.set(v * n + u, updated);
        assert forall|i: int, j: int|
            0 <= i < n && 0 <= j < n && !(i == u && j == v) && !(i == v && j == u) implies #[trigger] self.tau(i, j)
            == before.tau(i, j) by {
            lemma_flat_index(i, j, n as int);
            if i * n + j == u * n + v {
                lemma_flat_index_inj(u as int, v as int, i, j, n as int);
            }
            if i * n + j == v * n + u {
                lemma_flat_index_inj(v as int, u as int, i, j, n as int);
            }
        }
        assert forall|i: int, j: int| 0 <= i < n && 0 <= j < n implies #[trigger] self.tau(i, j)
            == self.tau(j, i) && self.tau(i, j) <= TAU_ONE by {
            if (i == u && j == v) || (i == v && j == u) {
            } else {
                assert(self.tau(j, i) == before.tau(j, i));
                assert(before.tau(i, j) == before.tau(j, i));
            }
        }
    }

    /// Local update after an ant crosses edge `(u, v)`: one step toward `tau0`.
    pub fn local_update(&mut self, u: usize, v: usize)
        requires
            old(self).wf(),
            u < old(self).n,
            v < old(self).n,
        ensures
            final(self).wf(),
            final(self).n == old(self).n,
            final(self).tau0 == old(self).tau0,
            final(self).tau(u as int, v as int) == blend(
                old(self).tau(u as int, v as int),
                old(self).tau0 as int,
            ),
            final(self).tau(v as int, u as int) == final(self).tau(u as int, v as int),
            forall|i: int, j: int|
                0 <= i < old(self).n && 0 <= j < old(self).n && !(i == u && j == v) && !(i == v
                    && j == u) ==> #[trigger] final(self).tau(i, j) == old(self).tau(i, j),
    {
        let tau0 = self.tau0;
        self.evaporate_toward(u, v, tau0);
    }

    /// Global update: every edge of `tour`, the closing edge included, takes
    /// one evaporation step toward `deposit_level(best_len)`; the levels of
    /// all other pairs stay as they were.
    pub fn global_update(&mut self, tour: &Vec<usize>, best_len: u64)
        requires
            old(self).wf(),
            forall|k: int| 0 <= k < tour@.len() ==> #[trigger] tour@[k] < old(self).n,
        ensures
            final(self).wf(),
            final(self).n == old(self).n,
            final(self).tau0 == old(self).tau0,
            forall|a: int, b: int|
                0 <= a < old(self).n && 0 <= b < old(self).n && !joins(tour@, tour@.len() as int, a, b)
                    ==> #[trigger] final(self).tau(a, b) == old(self).tau(a, b),
            is_tour(tour@, old(self).n as int) && old(self).n >= 3 ==> forall|k: int|
                0 <= k < tour@.len() ==> #[trigger] final(self).tau(edge_from(tour@, k), edge_to(tour@, k))
                    == blend(
                    old(self).tau(edge_from(tour@, k), edge_to(tour@, k)),
                    deposit_spec(best_len as int),
                ),
            is_tour(tour@, old(self).n as int) && old(self).n == 1 ==> final(self).tau(
                tour@[0] as int,
                tour@[0] as int,
            ) == blend(old(self).tau(tour@[0] as int, tour@[0] as int), deposit_spec(best_len as int)),
            is_tour(tour@, old(self).n as int) && old(self).n == 2 ==> final(self).tau(
                tour@[0] as int,
                tour@[1] as int,
            ) == blend(
                blend(old(self).tau(tour@[0] as int, tour@[1] as int), deposit_spec(best_len as int)),
                deposit_spec(best_len as int),
            ),
    {
        let n = tour.len();
        let deposit = deposit_level(best_len);
        let mut k: usize = 0;
        while k < n
            invariant
                self.wf(),
                self.n == old(self).n,
                self.tau0 == old(self).tau0,
                n == tour@.len(),
                forall|p: int| 0 <= p < tour@.len() ==> #[trigger] tour@[p] < self.n,
                deposit <= TAU_ONE,
                k <= n,
                forall|a: int, b: int|
                    0 <= a < self.n && 0 <= b < self.n && !joins(tour@, k as int, a, b)
                        ==> #[trigger] self.tau(a, b) == old(self).tau(a, b),
                deposit as int == deposit_spec(best_len as int),
                is_tour(tour@, self.n as int) && self.n >= 3 ==> forall|j: int|
                    0 <= j < k ==> #[trigger] self.tau(edge_from(tour@, j), edge_to(tour@, j)) == blend(
                        old(self).tau(edge_from(tour@, j), edge_to(tour@, j)),
                        deposit as int,
                    ),
                is_tour(tour@, self.n as int) && self.n == 1 && k == 1 ==> self.tau(
                    tour@[0] as int,
                    tour@[0] as int,
                ) == blend(old(self).tau(tour@[0] as int, tour@[0] as int), deposit as int),
                is_tour(tour@, self.n as int) && self.n == 2 && k == 1 ==> self.tau(
                    tour@[0] as int,
                    tour@[1] as int,
                ) == blend(old(self).tau(tour@[0] as int, tour@[1] as int), deposit as int),
                is_tour(tour@, self.n as int) && self.n == 2 && k == 2 ==> self.tau(
                    tour@[0] as int,
                    tour@[1] as int,
                ) == blend(
                    blend(old(self).tau(tour@[0] as int, tour@[1] as int), deposit as int),
                    deposit as int,
                ),
            decreases n - k,
        {
            let u = tour[k];
            let v = if k + 1 == n { tour[0] } else { tour[k + 1] };
            let ghost before = *self;
            self.evaporate_toward(u, v, deposit);
            proof {
                assert forall|a: int, b: int|
                    0 <= a < self.n && 0 <= b < self.n && !joins(tour@, k + 1, a, b) implies #[trigger] self.tau(a, b)
                    == old(self).tau(a, b) by {
                    assert(!joins(tour@, k as int, a, b)) by {
                        if joins(tour@, k as int, a, b) {
                            let j = choose|j: int| 0 <= j < k && #[trigger] joins_at(tour@, j, a, b);
                            assert(joins_at(tour@, j, a, b));
                        }
                    }
                    assert(!joins_at(tour@, k as int, a, b));
                    assert(before.tau(a, b) == old(self).tau(a, b));
                }
                if is_tour(tour@, self.n as int) && self.n <= 2 && k == 0 {
                    assert(!joins(tour@, 0, u as int, v as int));
                    assert(before.tau(u as int, v as int) == old(self).tau(u as int, v as int));
                }
                if is_tour(tour@, self.n as int) && self.n == 2 && k == 1 {
                    assert(u == tour@[1] && v == tour@[0]);
                    assert(before.tau(u as int, v as int) == before.tau(v as int, u as int));
                }
                if is_tour(tour@, self.n as int) && self.n >= 3 {
                    assert(!joins(tour@, k as int, u as int, v as int)) by {
                        if joins(tour@, k as int, u as int, v as int) {
                            let j = choose|j: int| 0 <= j < k && #[trigger] joins_at(tour@, j, u as int, v as int);
                            lemma_edges_distinct(tour@, self.n as int, j, k as int);
                        }
                    }
                    assert forall|j: int| 0 <= j < k + 1 implies #[trigger] self.tau(edge_from(tour@, j), edge_to(tour@, j))
                        == blend(old(self).tau(edge_from(tour@, j), edge_to(tour@, j)), deposit as int) by {
                        if j < k {
                            lemma_edges_distinct(tour@, self.n as int, j, k as int);
                            assert(before.tau(edge_from(tour@, j), edge_to(tour@, j)) == blend(
                                old(self).tau(edge_from(tour@, j), edge_to(tour@, j)),
                                deposit as int,
                            ));
                        } else {
                            assert(edge_from(tour@, j) == u && edge_to(tour@, j) == v);
                        }
                    }
                }
            }
            k = k + 1;
        }
    }
}

/// `after` is `before` with the local update applied to edge `(u, v)`: one
/// evaporation step toward `tau0` in both directions, all else unchanged.
pub open spec fn is_local_update(before: PheromoneField, after: PheromoneField, u: int, v: int) -> bool {
    &&& after.wf()
    &&& after.n == before.n
    &&& after.tau0 == before.tau0
    &&& after.tau(u, v) == blend(before.tau(u, v), before.tau0 as int)
    &&& after.tau(v, u) == after.tau(u, v)
    &&& forall|i: int, j: int|
        0 <= i < before.n && 0 <= j < before.n && !(i == u && j == v) && !(i == v && j == u)
            ==> #[trigger] after.tau(i, j) == before.tau(i, j)
}

/// Edge `j` of the closed tour `tour` joins cities `a` and `b`, in either direction.
pub open spec fn joins_at(tour: Seq<usize>, j: int, a: int, b: int) -> bool {
    let u = tour[j] as int;
    let v = tour[if j + 1 == tour.len() { 0 } else { j + 1 }] as int;
    (u == a && v == b) || (u == b && v == a)
}

/// First city of edge `j` of the closed tour `tour`.
pub open spec fn edge_from(tour: Seq<usize>, j: int) -> int {
    tour[j] as int
}

/// Second city of edge `j` of the closed tour `tour`.
pub open spec fn edge_to(tour: Seq<usize>, j: int) -> int {
    tour[if j + 1 == tour.len() { 0 } else { j + 1 }] as int
}

/// In a tour of at least three cities, no two edges join the same pair.
pub proof fn lemma_edges_distinct(tour: Seq<usize>, n: int, j: int, k: int)
    requires
        is_tour(tour, n),
        n >= 3,
        0 <= j < k < n,
    ensures
        !joins_at(tour, k, edge_from(tour, j), edge_to(tour, j)),
{
    let nj = if j + 1 == n { 0 } else { j + 1 };
    let nk = if k + 1 == n { 0 } else { k + 1 };
    if tour[k] as int == edge_from(tour, j) {
        assert(tour[k] == tour[j]);
    }
    if tour[k] as int == edge_to(tour, j) && tour[nk] as int == edge_from(tour, j) {
        assert(tour[k] == tour[nj]);
        assert(tour[nk] == tour[j]);
        assert(k == nj);
        assert(nk == j);
    }
}

/// Two path edges of a sequence without repeated cities join different pairs.
pub proof fn lemma_path_edges_distinct(s: Seq<usize>, j: int, k: int)
    requires
        s.no_duplicates(),
        0 <= j < k,
        k + 1 < s.len(),
    ensures
        !joins_at(s, k, edge_from(s, j), edge_to(s, j)),
{
    if s[k] == s[j] {
        assert(k == j);
    }
    if s[k] == s[j + 1] && s[k + 1] == s[j] {
        assert(k == j + 1);
    }
}

/// One of the first `k` edges of the closed tour `tour` joins `a` and `b`.
pub open spec fn joins(tour: Seq<usize>, k: int, a: int, b: int) -> bool {
    exists|j: int| 0 <= j < k && #[trigger] joins_at(tour, j, a, b)
}

/// The reinforcement target for the edges of a best tour of length `len`:
/// `1 / len` in fixed point, or the full unit for a tour of length zero.
pub open spec fn deposit_spec(len: int) -> int {
    if len == 0 {
        TAU_ONE as int
    } else {
        TAU_ONE as int / len
    }
}

/// Computes `deposit_spec(len)`.
pub fn deposit_level(len: u64) -> (r: u64)
    ensures
        r as int == deposit_spec(len as int),
        r <= TAU_ONE,
{
    if len == 0 {
        TAU_ONE
    } else {
        TAU_ONE / len
    }
}

/// The baseline level `1 / (n * len)` in fixed point, or the full unit when
/// that product is zero.
pub open spec fn initial_level_spec(n: int, len: int) -> int {
    if n * len == 0 {
        TAU_ONE as int
    } else {
        TAU_ONE as int / (n * len)
    }
}

/// Computes `initial_level_spec(n, len)`.
pub fn initial_level(n: usize, len: u64) -> (r: u64)
    requires
        n <= MAX_CITIES,
    ensures
        r as int == initial_level_spec(n as int, len as int),
        r <= TAU_ONE,
{
    assert((n as int) * (len as int) <= 16777216 * 18446744073709551615) by (nonlinear_arith)
        requires
            n <= 16777216,
            len <= 18446744073709551615,
    ;
    let product: u128 = n as u128 * len as u128;
    if product == 0 {
        TAU_ONE
    } else {
        assert((TAU_ONE as int) / (product as int) <= TAU_ONE as int) by (nonlinear_arith)
            requires
                product >= 1,
        ;
        (TAU_ONE as u128 / product) as u64
    }
}

} // verus!
