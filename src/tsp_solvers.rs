//! The Ant Colony System solver.
use vstd::prelude::*;
use crate::candidates::{build_candidates, closer, is_candidate_list, K_CANDIDATES};
use crate::local_search::{
    has_improving_relocation,
    or_opt,
    or_opt_spec,
    two_opt,
    two_opt_done,
    two_opt_spec,
    two_opt_optimal,
    valid_candidates,
    ANT_PASSES,
    BOOTSTRAP_PASSES,
};
use crate::pheromone::{
    blend,
    deposit_spec,
    edge_from,
    edge_to,
    initial_level,
    initial_level_spec,
    joins,
    is_local_update,
    joins_at,
    lemma_path_edges_distinct,
    PheromoneField,
};
use crate::random::RandomSource;
use crate::selection::{
    apply_rule,
    attractiveness,
    attractiveness_of,
    bounded_weights,
    is_rule_choice,
    prefix_sum,
    weight_total,
};
use crate::tour::{in_range, is_tour, lemma_missing_city};
use crate::tsp_data::TspData;

verus! {

/// The fixed-point unit of the exploitation probability `q0`.
pub const Q_ONE: u64 = 1000000;

/// Candidate lists of `n` cities, none longer than `K_CANDIDATES`.
pub open spec fn short_candidates(candidates: Seq<Vec<usize>>, n: int) -> bool {
    &&& valid_candidates(candidates, n)
    &&& forall|c: int| 0 <= c < n ==> (#[trigger] candidates[c])@.len() <= K_CANDIDATES
}

/// Every city whose flag is set is missing from `tour`, and the reverse.
pub open spec fn marks_unvisited(mask: Seq<bool>, tour: Seq<usize>, n: int) -> bool {
    &&& mask.len() == n
    &&& forall|c: usize| c < n ==> #[trigger] mask[c as int] == !tour.contains(c)
}

/// Some city of `list` is still unvisited.
pub open spec fn has_open_candidate(list: Seq<usize>, mask: Seq<bool>) -> bool {
    exists|p: int| 0 <= p < list.len() && mask[#[trigger] list[p] as int]
}

/// `next` is the greedy successor of the last city of `visited`: the first
/// unvisited city of that city's candidate list `list`, or, when the list has
/// none, the nearest unvisited city, ties broken by index.
pub open spec fn greedy_step(data: &TspData, list: Seq<usize>, visited: Seq<usize>, next: usize) -> bool {
    let curr = visited[visited.len() - 1] as int;
    &&& next < data.n
    &&& !visited.contains(next)
    &&& if exists|p: int| 0 <= p < list.len() && !visited.contains(#[trigger] list[p]) {
        exists|p: int|
            0 <= p < list.len() && #[trigger] list[p] == next && forall|q: int|
                0 <= q < p ==> visited.contains(#[trigger] list[q])
    } else {
        forall|m: usize|
            m < data.n && !visited.contains(m) && m != next ==> #[trigger] closer(
                data,
                curr,
                next as int,
                m as int,
            )
    }
}

/// Greedy bootstrap tour: from city 0, each next city is the greedy
/// successor of the current one.
fn greedy_initial_tour(data: &TspData, candidates: &Vec<Vec<usize>>) -> (r: Vec<usize>)
    requires
        data.wf(),
        data.n >= 1,
        valid_candidates(candidates@, data.n as int),
    ensures
        is_tour(r@, data.n as int),
        r@[0] == 0,
        forall|t: int|
            0 <= t < data.n - 1 ==> greedy_step(
                data,
                candidates@[r@[t] as int]@,
                r@.subrange(0, t + 1),
                #[trigger] r@[t + 1],
            ),
{
    let n = data.n;
    let mut unvisited: Vec<bool> = Vec::new();
    let mut c: usize = 0;
    while c < n
        invariant
            c <= n,
            unvisited@.len() == c,
            forall|a: int| 0 <= a < c ==> #[trigger] unvisited@[a],
        decreases n - c,
    {
        unvisited.push(true);
        c = c + 1;
    }
    let mut tour: Vec<usize> = Vec::new();
    tour.push(0);
    unvisited.set(0, false);
    let mut curr: usize = 0;
    assert forall|c: usize| c < n implies #[trigger] unvisited@[c as int] == !tour@.contains(c) by {
        if c == 0 {
            assert(tour@[0] == 0);
        }
    }
    while tour.len() < n
        invariant
            data.wf(),
            n == data.n,
            valid_candidates(candidates@, n as int),
            1 <= tour@.len() <= n,
            tour@[0] == 0,
            in_range(tour@, n as int),
            tour@.no_duplicates(),
            marks_unvisited(unvisited@, tour@, n as int),
            curr == tour@[tour@.len() - 1],
            forall|t: int|
                0 <= t < tour@.len() - 1 ==> greedy_step(
                    data,
                    candidates@[tour@[t] as int]@,
                    tour@.subrange(0, t + 1),
                    #[trigger] tour@[t + 1],
                ),
        decreases n - tour@.len(),
    {
        let list = &candidates[curr];
        let mut next: usize = n;
        let mut p: usize = 0;
        while p < list.len() && next == n
            invariant
                n == data.n,
                valid_candidates(candidates@, n as int),
                curr < n,
                *list == candidates@[curr as int],
                marks_unvisited(unvisited@, tour@, n as int),
                p <= list@.len(),
                next == n ==> forall|q: int| 0 <= q < p ==> tour@.contains(#[trigger] list@[q]),
                next != n ==> p >= 1 && next == list@[p - 1] && !tour@.contains(next) && forall|q: int|
                    0 <= q < p - 1 ==> tour@.contains(#[trigger] list@[q]),
            decreases list@.len() - p, if next == n { 1int } else { 0int },
        {
            let cand = list[p];
            if unvisited[cand] {
                next = cand;
            }
            p = p + 1;
        }
        let ghost visited = tour@;
        let ghost found_in_list = next != n;
        if next == n {
            proof {
                lemma_missing_city(tour@, n);
            }
            let mut best_dist: u64 = 0;
            let mut j: usize = 0;
            while j < n
                invariant
                    data.wf(),
                    n == data.n,
                    curr < n,
                    j <= n,
                    marks_unvisited(unvisited@, tour@, n as int),
                    exists|m: usize| m < n && !tour@.contains(m),
                    next == n ==> forall|m: usize| m < j ==> tour@.contains(m),
                    next != n ==> next < j && !tour@.contains(next) && best_dist as int == data.d(
                        curr as int,
                        next as int,
                    ),
                    next != n ==> forall|m: usize|
                        m < j && !tour@.contains(m) && m != next ==> #[trigger] closer(
                            data,
                            curr as int,
                            next as int,
                            m as int,
                        ),
                decreases n - j,
            {
                if unvisited[j] {
                    let d = data.dist(curr, j);
                    if next == n || d < best_dist {
                        let ghost old_next = next;
                        best_dist = d;
                        next = j;
                        assert forall|m: usize|
                            m < j + 1 && !tour@.contains(m) && m != next implies #[trigger] closer(
                            data,
                            curr as int,
                            next as int,
                            m as int,
                        ) by {
                            if m != old_next {
                                assert(closer(data, curr as int, old_next as int, m as int));
                            }
                        }
                    } else {
                        assert(closer(data, curr as int, next as int, j as int));
                    }
                }
                j = j + 1;
            }
            if next == n {
                proof {
                    let m = choose|m: usize| m < n && !tour@.contains(m);
                    assert(tour@.contains(m));
                }
            }
        }
        proof {
            if found_in_list {
                assert(greedy_step(data, candidates@[curr as int]@, visited, next));
            } else {
                assert(!exists|q: int| 0 <= q < list@.len() && !visited.contains(#[trigger] list@[q]));
                assert(greedy_step(data, candidates@[curr as int]@, visited, next));
            }
        }
        let ghost before = tour@;
        tour.push(next);
        unvisited.set(next, false);
        curr = next;
        proof {
            assert(tour@ == before.push(next));
            assert(tour@.subrange(0, before.len() as int) == before);
            assert forall|t: int| 0 <= t < tour@.len() - 1 implies greedy_step(
                data,
                candidates@[tour@[t] as int]@,
                tour@.subrange(0, t + 1),
                #[trigger] tour@[t + 1],
            ) by {
                if t < before.len() - 1 {
                    assert(tour@.subrange(0, t + 1) == before.subrange(0, t + 1));
                    assert(tour@[t + 1] == before[t + 1]);
                    assert(tour@[t] == before[t]);
                } else {
                    assert(tour@[t] == before[before.len() - 1]);
                }
            }
            assert forall|c: usize| c < n implies #[trigger] unvisited@[c as int] == !tour@.contains(c) by {
                if c == next {
                    assert(tour@[before.len() as int] == next);
                } else {
                    if tour@.contains(c) {
                        let q = choose|q: int| 0 <= q < tour@.len() && tour@[q] == c;
                        assert(before[q] == c);
                    }
                    if before.contains(c) {
                        let q = choose|q: int| 0 <= q < before.len() && before[q] == c;
                        assert(tour@[q] == c);
                    }
                }
            }
            assert forall|a: int, b: int| 0 <= a < b < tour@.len() implies tour@[a] != tour@[b] by {
                if b == before.len() {
                    assert(before[a] == tour@[a]);
                }
            }
        }
    }
    tour
}

/// The unvisited cities among the first `k` entries of `list`, in list order.
pub open spec fn open_prefix(list: Seq<usize>, unvisited: Seq<bool>, k: int) -> Seq<usize>
    decreases k,
{
    if k <= 0 {
        Seq::empty()
    } else {
        let before = open_prefix(list, unvisited, k - 1);
        if unvisited[list[k - 1] as int] {
            before.push(list[k - 1])
        } else {
            before
        }
    }
}

/// The unvisited cities of `list`, in list order.
pub open spec fn open_list(list: Seq<usize>, unvisited: Seq<bool>) -> Seq<usize> {
    open_prefix(list, unvisited, list.len() as int)
}

/// Attractiveness, seen from `curr`, of each city of `open`.
pub open spec fn open_weights(
    data: &TspData,
    pheromone: &PheromoneField,
    beta: u32,
    curr: int,
    open: Seq<usize>,
) -> Seq<u128> {
    Seq::new(
        open.len(),
        |k: int|
            attractiveness(pheromone.tau(curr, open[k] as int), data.d(curr, open[k] as int), beta as nat)
                as u128,
    )
}

/// The draws are admissible: `q` below `Q_ONE`, and `spin` below the weight
/// total whenever the rule spins the roulette wheel.
pub open spec fn draws_fit(w: Seq<u128>, q0: u64, q: int, spin: int) -> bool {
    &&& 0 <= q < Q_ONE
    &&& !(q < q0) && prefix_sum(w, w.len() as int) > 0 ==> 0 <= spin < prefix_sum(w, w.len() as int)
}

/// `r` is the city of `open` at the position the selection rule takes among
/// the weights `w` for the given draws.
pub open spec fn picks(open: Seq<usize>, w: Seq<u128>, exploit: bool, spin: int, r: int) -> bool {
    exists|k: int| #[trigger] is_rule_choice(w, exploit, spin, k) && r == open[k] as int
}

/// `r` is the city an ant at `curr` takes for the draws `q` and `spin`: among
/// the unvisited candidates of `curr` in list order, the one the selection
/// rule picks by attractiveness, exploiting when `q < q0`; with no unvisited
/// candidate, the unvisited city of lowest index.
pub open spec fn is_selection(
    data: &TspData,
    candidates: Seq<Vec<usize>>,
    pheromone: &PheromoneField,
    q0: u64,
    beta: u32,
    curr: int,
    unvisited: Seq<bool>,
    q: int,
    spin: int,
    r: int,
) -> bool {
    if open_list(candidates[curr]@, unvisited).len() > 0 {
        picks(
            open_list(candidates[curr]@, unvisited),
            open_weights(data, pheromone, beta, curr, open_list(candidates[curr]@, unvisited)),
            q < q0 as int,
            spin,
            r,
        )
    } else {
        &&& 0 <= r < data.n
        &&& unvisited[r]
        &&& forall|c: int| 0 <= c < r ==> !#[trigger] unvisited[c]
    }
}

/// The unvisited candidates of `curr`, in list order, with their attractiveness.
fn open_candidates(
    data: &TspData,
    candidates: &Vec<Vec<usize>>,
    pheromone: &PheromoneField,
    beta: u32,
    curr: usize,
    unvisited: &Vec<bool>,
) -> (r: (Vec<usize>, Vec<u128>))
    requires
        data.wf(),
        pheromone.wf(),
        pheromone.n == data.n,
        short_candidates(candidates@, data.n as int),
        curr < data.n,
        unvisited@.len() == data.n,
    ensures
        r.0@ == open_list(candidates@[curr as int]@, unvisited@),
        r.1@ == open_weights(data, pheromone, beta, curr as int, r.0@),
        bounded_weights(r.1@),
        forall|k: int| 0 <= k < r.0@.len() ==> #[trigger] r.0@[k] < data.n && unvisited@[r.0@[k] as int]
            && candidates@[curr as int]@.contains(r.0@[k]),
        r.0@.len() == 0 <==> !has_open_candidate(candidates@[curr as int]@, unvisited@),
{
    let n = data.n;
    let list = &candidates[curr];
    let mut open: Vec<usize> = Vec::new();
    let mut weights: Vec<u128> = Vec::new();
    let mut p: usize = 0;
    while p < list.len()
        invariant
            data.wf(),
            pheromone.wf(),
            pheromone.n == n,
            n == data.n,
            curr < n,
            short_candidates(candidates@, n as int),
            *list == candidates@[curr as int],
            unvisited@.len() == n,
            p <= list@.len(),
            open@ == open_prefix(list@, unvisited@, p as int),
            weights@ == open_weights(data, pheromone, beta, curr as int, open@),
            open@.len() <= p,
            bounded_weights(weights@),
            forall|k: int| 0 <= k < open@.len() ==> #[trigger] open@[k] < n && unvisited@[open@[k] as int]
                && list@.contains(open@[k]),
            open@.len() == 0 ==> forall|q: int| 0 <= q < p ==> !unvisited@[#[trigger] list@[q] as int],
        decreases list@.len() - p,
    {
        let c = list[p];
        if unvisited[c] {
            let ghost before = open@;
            let w = attractiveness_of(pheromone.level(curr, c), data.dist(curr, c), beta);
            open.push(c);
            weights.push(w);
            assert(list@[p as int] == c);
            assert forall|k: int| 0 <= k < open@.len() implies #[trigger] open@[k] < n
                && unvisited@[open@[k] as int] && list@.contains(open@[k]) by {
                if k < before.len() {
                    assert(open@[k] == before[k]);
                }
            }
            assert(weights@ =~= open_weights(data, pheromone, beta, curr as int, open@));
        }
        p = p + 1;
    }
    proof {
        if has_open_candidate(list@, unvisited@) && open@.len() == 0 {
            let q = choose|q: int| 0 <= q < list@.len() && unvisited@[#[trigger] list@[q] as int];
        }
        if open@.len() > 0 {
            assert(list@.contains(open@[0]));
            let q = choose|q: int| 0 <= q < list@.len() && list@[q] == open@[0];
            assert(unvisited@[list@[q] as int]);
        }
    }
    (open, weights)
}

/// The selection rule for given draws `q` (below `Q_ONE`) and `spin`: see
/// `is_selection`.
fn choose_next(
    data: &TspData,
    candidates: &Vec<Vec<usize>>,
    pheromone: &PheromoneField,
    q0: u64,
    beta: u32,
    curr: usize,
    unvisited: &Vec<bool>,
    q: u128,
    spin: u128,
) -> (r: usize)
    requires
        data.wf(),
        pheromone.wf(),
        pheromone.n == data.n,
        short_candidates(candidates@, data.n as int),
        curr < data.n,
        unvisited@.len() == data.n,
        exists|c: int| 0 <= c < data.n && #[trigger] unvisited@[c],
        draws_fit(
            open_weights(data, pheromone, beta, curr as int, open_list(candidates@[curr as int]@, unvisited@)),
            q0,
            q as int,
            spin as int,
        ),
    ensures
        is_selection(data, candidates@, pheromone, q0, beta, curr as int, unvisited@, q as int, spin as int, r as int),
        r < data.n,
        unvisited@[r as int],
        has_open_candidate(candidates@[curr as int]@, unvisited@) ==> candidates@[curr as int]@.contains(r),
{
    let n = data.n;
    let (open, weights) = open_candidates(data, candidates, pheromone, beta, curr, unvisited);
    if open.len() > 0 {
        let k = apply_rule(&weights, q < q0 as u128, spin);
        proof {
            let o = open_list(candidates@[curr as int]@, unvisited@);
            let w = open_weights(data, pheromone, beta, curr as int, o);
            assert(is_rule_choice(w, (q as int) < (q0 as int), spin as int, k as int));
            assert(picks(o, w, (q as int) < (q0 as int), spin as int, open@[k as int] as int));
        }
        return open[k];
    }
    let mut j: usize = 0;
    while j < n
        invariant
            open@.len() == 0,
            open@ == open_list(candidates@[curr as int]@, unvisited@),
            !has_open_candidate(candidates@[curr as int]@, unvisited@),
            j <= n,
            n == data.n,
            unvisited@.len() == n,
            exists|c: int| 0 <= c < n && #[trigger] unvisited@[c],
            forall|c: int| 0 <= c < j ==> !#[trigger] unvisited@[c],
        decreases n - j,
    {
        if unvisited[j] {
            return j;
        }
        j = j + 1;
    }
    0
}

/// Selection rule of an ant at city `curr`: draws `q` below `Q_ONE` and,
/// when the rule spins the roulette wheel, `spin` below the weight total,
/// then takes the city `choose_next` gives for them. With no unvisited
/// candidate nothing is drawn.
fn select_next_city(
    data: &TspData,
    candidates: &Vec<Vec<usize>>,
    pheromone: &PheromoneField,
    q0: u64,
    beta: u32,
    curr: usize,
    unvisited: &Vec<bool>,
    rng: &mut RandomSource,
) -> (r: usize)
    requires
        data.wf(),
        pheromone.wf(),
        pheromone.n == data.n,
        short_candidates(candidates@, data.n as int),
        curr < data.n,
        unvisited@.len() == data.n,
        exists|c: int| 0 <= c < data.n && #[trigger] unvisited@[c],
    ensures
        r < data.n,
        unvisited@[r as int],
        has_open_candidate(candidates@[curr as int]@, unvisited@) ==> candidates@[curr as int]@.contains(r),
        exists|q: int, spin: int|
            draws_fit(
                open_weights(data, pheromone, beta, curr as int, open_list(candidates@[curr as int]@, unvisited@)),
                q0,
                q,
                spin,
            ) && #[trigger] is_selection(data, candidates@, pheromone, q0, beta, curr as int, unvisited@, q, spin, r as int),
        !has_open_candidate(candidates@[curr as int]@, unvisited@) ==> *final(rng) == *old(rng),
{
    let (open, weights) = open_candidates(data, candidates, pheromone, beta, curr, unvisited);
    let mut q: u128 = 0;
    let mut spin: u128 = 0;
    if open.len() > 0 {
        q = rng.below(Q_ONE as u128);
        if !(q < q0 as u128) {
            let total = weight_total(&weights);
            if total > 0 {
                spin = rng.below(total);
            }
        }
    }
    let r = choose_next(data, candidates, pheromone, q0, beta, curr, unvisited, q, spin);
    assert(is_selection(data, candidates@, pheromone, q0, beta, curr as int, unvisited@, q as int, spin as int, r as int));
    r
}

/// The flags of the cities not in `prefix`, for an instance of `n` cities.
pub open spec fn unvisited_after(prefix: Seq<usize>, n: int) -> Seq<bool> {
    Seq::new(n as nat, |c: int| !prefix.contains(c as usize))
}

/// An ant that has walked `prefix` may take `next` by the selection rule on
/// `field`, for some admissible draws.
pub open spec fn ant_step(
    data: &TspData,
    candidates: Seq<Vec<usize>>,
    field: PheromoneField,
    q0: u64,
    beta: u32,
    prefix: Seq<usize>,
    next: usize,
) -> bool {
    let curr = prefix[prefix.len() - 1] as int;
    let unvisited = unvisited_after(prefix, data.n as int);
    exists|q: int, spin: int|
        draws_fit(open_weights(data, &field, beta, curr, open_list(candidates[curr]@, unvisited)), q0, q, spin)
            && #[trigger] is_selection(data, candidates, &field, q0, beta, curr, unvisited, q, spin, next as int)
}

/// One ant's tour: a random start city, then the selection rule until every
/// city is visited, with a local pheromone update on each edge crossed and on
/// the closing edge.
fn construct_tour(
    data: &TspData,
    candidates: &Vec<Vec<usize>>,
    pheromone: &mut PheromoneField,
    q0: u64,
    beta: u32,
    rng: &mut RandomSource,
) -> (r: Vec<usize>)
    requires
        data.wf(),
        data.n >= 1,
        old(pheromone).wf(),
        old(pheromone).n == data.n,
        short_candidates(candidates@, data.n as int),
    ensures
        is_tour(r@, data.n as int),
        final(pheromone).wf(),
        final(pheromone).n == data.n,
        final(pheromone).tau0 == old(pheromone).tau0,
        exists|fields: Seq<PheromoneField>|
            #![trigger fields.len()]
            fields.len() == data.n && fields[0] == *old(pheromone) && forall|t: int|
                0 <= t < data.n - 1 ==> ant_step(
                    data,
                    candidates@,
                    fields[t],
                    q0,
                    beta,
                    r@.subrange(0, t + 1),
                    #[trigger] r@[t + 1],
                ) && is_local_update(fields[t], fields[t + 1], r@[t] as int, r@[t + 1] as int),
        forall|a: int, b: int|
            0 <= a < data.n && 0 <= b < data.n && !joins(r@, r@.len() as int, a, b)
                ==> #[trigger] final(pheromone).tau(a, b) == old(pheromone).tau(a, b),
        data.n >= 3 ==> forall|k: int|
            0 <= k < r@.len() ==> #[trigger] final(pheromone).tau(edge_from(r@, k), edge_to(r@, k)) == blend(
                old(pheromone).tau(edge_from(r@, k), edge_to(r@, k)),
                old(pheromone).tau0 as int,
            ),
        data.n == 1 ==> final(pheromone).tau(r@[0] as int, r@[0] as int) == blend(
            old(pheromone).tau(r@[0] as int, r@[0] as int),
            old(pheromone).tau0 as int,
        ),
        data.n == 2 ==> final(pheromone).tau(r@[0] as int, r@[1] as int) == blend(
            blend(old(pheromone).tau(r@[0] as int, r@[1] as int), old(pheromone).tau0 as int),
            old(pheromone).tau0 as int,
        ),
{
    let n = data.n;
    let start = rng.below(n as u128) as usize;
    let mut unvisited: Vec<bool> = Vec::new();
    let mut c: usize = 0;
    while c < n
        invariant
            c <= n,
            unvisited@.len() == c,
            forall|a: int| 0 <= a < c ==> #[trigger] unvisited@[a],
        decreases n - c,
    {
        unvisited.push(true);
        c = c + 1;
    }
    let mut tour: Vec<usize> = Vec::new();
    tour.push(start);
    unvisited.set(start, false);
    assert forall|c: usize| c < n implies #[trigger] unvisited@[c as int] == !tour@.contains(c) by {
        if c == start {
            assert(tour@[0] == start);
        }
    }
    let mut curr: usize = start;
    let ghost mut fields: Seq<PheromoneField> = seq![*pheromone];
    while tour.len() < n
        invariant
            data.wf(),
            n == data.n,
            pheromone.wf(),
            pheromone.n == n,
            pheromone.tau0 == old(pheromone).tau0,
            short_candidates(candidates@, n as int),
            1 <= tour@.len() <= n,
            in_range(tour@, n as int),
            tour@.no_duplicates(),
            marks_unvisited(unvisited@, tour@, n as int),
            curr < n,
            curr == tour@[tour@.len() - 1],
            fields.len() == tour@.len(),
            fields[0] == *old(pheromone),
            fields[fields.len() - 1] == *pheromone,
            forall|t: int|
                0 <= t < tour@.len() - 1 ==> ant_step(
                    data,
                    candidates@,
                    fields[t],
                    q0,
                    beta,
                    tour@.subrange(0, t + 1),
                    #[trigger] tour@[t + 1],
                ) && is_local_update(fields[t], fields[t + 1], tour@[t] as int, tour@[t + 1] as int),
            forall|a: int, b: int|
                0 <= a < n && 0 <= b < n && !joins(tour@, tour@.len() - 1, a, b)
                    ==> #[trigger] pheromone.tau(a, b) == old(pheromone).tau(a, b),
            forall|k: int|
                0 <= k < tour@.len() - 1 ==> #[trigger] pheromone.tau(edge_from(tour@, k), edge_to(tour@, k))
                    == blend(old(pheromone).tau(edge_from(tour@, k), edge_to(tour@, k)), old(pheromone).tau0 as int),
        decreases n - tour@.len(),
    {
        proof {
            lemma_missing_city(tour@, n);
            let m = choose|m: usize| m < n && !tour@.contains(m);
            assert(unvisited@[m as int]);
        }
        let ghost curr_before = curr;
        let next = select_next_city(data, candidates, pheromone, q0, beta, curr, &unvisited, rng);
        proof {
            assert(unvisited@ =~= unvisited_after(tour@, n as int));
            assert(tour@.subrange(0, tour@.len() as int) == tour@);
            assert(ant_step(data, candidates@, *pheromone, q0, beta, tour@, next));
        }
        let ghost before = tour@;
        let ghost field = *pheromone;
        tour.push(next);
        unvisited.set(next, false);
        pheromone.local_update(curr, next);
        proof {
            let m = before.len() as int;
            let t2 = tour@;
            assert(t2 == before.push(next));
            assert forall|j: int, a: int, b: int| 0 <= j < m - 1 implies #[trigger] joins_at(t2, j, a, b)
                == joins_at(before, j, a, b) by {
                assert(t2[j] == before[j] && t2[j + 1] == before[j + 1]);
            }
            assert(!before.contains(next));
            assert(t2.no_duplicates()) by {
                assert forall|x: int, y: int| 0 <= x < y < t2.len() implies t2[x] != t2[y] by {
                    if y == m {
                        assert(before[x] == t2[x]);
                    }
                }
            }
            assert(edge_from(t2, m - 1) == curr && edge_to(t2, m - 1) == next);
            assert(!joins(before, m - 1, curr as int, next as int)) by {
                if joins(before, m - 1, curr as int, next as int) {
                    let j = choose|j: int| 0 <= j < m - 1 && #[trigger] joins_at(before, j, curr as int, next as int);
                    assert(joins_at(t2, j, curr as int, next as int));
                    lemma_path_edges_distinct(t2, j, m - 1);
                }
            }
            assert forall|a: int, b: int|
                0 <= a < n && 0 <= b < n && !joins(t2, m, a, b) implies #[trigger] pheromone.tau(a, b)
                == old(pheromone).tau(a, b) by {
                assert(!joins_at(t2, m - 1, a, b));
                if joins(before, m - 1, a, b) {
                    let j = choose|j: int| 0 <= j < m - 1 && #[trigger] joins_at(before, j, a, b);
                    assert(joins_at(t2, j, a, b));
                }
                assert(field.tau(a, b) == old(pheromone).tau(a, b));
            }
            assert forall|k: int| 0 <= k < m implies #[trigger] pheromone.tau(edge_from(t2, k), edge_to(t2, k))
                == blend(old(pheromone).tau(edge_from(t2, k), edge_to(t2, k)), old(pheromone).tau0 as int) by {
                if k < m - 1 {
                    lemma_path_edges_distinct(t2, k, m - 1);
                    assert(edge_from(t2, k) == edge_from(before, k) && edge_to(t2, k) == edge_to(before, k));
                } else {
                    assert(field.tau(curr as int, next as int) == old(pheromone).tau(curr as int, next as int));
                }
            }
        }
        curr = next;
        proof {
            let t2 = tour@;
            let m = before.len() as int;
            fields = fields.push(*pheromone);
            assert forall|t: int| 0 <= t < t2.len() - 1 implies ant_step(
                data,
                candidates@,
                fields[t],
                q0,
                beta,
                t2.subrange(0, t + 1),
                #[trigger] t2[t + 1],
            ) && is_local_update(fields[t], fields[t + 1], t2[t] as int, t2[t + 1] as int) by {
                if t < m - 1 {
                    assert(t2.subrange(0, t + 1) == before.subrange(0, t + 1));
                    assert(t2[t + 1] == before[t + 1] && t2[t] == before[t]);
                } else {
                    assert(t2.subrange(0, t + 1) == before);
                    assert(t2[t] == curr_before);
                }
            }
            assert(tour@ == before.push(next));
            assert forall|c: usize| c < n implies #[trigger] unvisited@[c as int] == !tour@.contains(c) by {
                if c == next {
                    assert(tour@[before.len() as int] == next);
                } else {
                    if tour@.contains(c) {
                        let q = choose|q: int| 0 <= q < tour@.len() && tour@[q] == c;
                        assert(before[q] == c);
                    }
                    if before.contains(c) {
                        let q = choose|q: int| 0 <= q < before.len() && before[q] == c;
                        assert(tour@[q] == c);
                    }
                }
            }
            assert forall|a: int, b: int| 0 <= a < b < tour@.len() implies tour@[a] != tour@[b] by {
                if b == before.len() {
                    assert(before[a] == tour@[a]);
                    assert(!before.contains(next));
                }
            }
        }
    }
    let ghost field = *pheromone;
    let ghost t = tour@;
    assert(is_tour(t, n as int));
    pheromone.local_update(tour[n - 1], tour[0]);
    proof {
        let u = t[n - 1] as int;
        let v = t[0] as int;
        assert(edge_from(t, n - 1) == u && edge_to(t, n - 1) == v);
        assert forall|a: int, b: int|
            0 <= a < n && 0 <= b < n && !joins(t, n as int, a, b) implies #[trigger] pheromone.tau(a, b)
            == old(pheromone).tau(a, b) by {
            assert(!joins_at(t, n - 1, a, b));
            if joins(t, n - 1, a, b) {
                let j = choose|j: int| 0 <= j < n - 1 && #[trigger] joins_at(t, j, a, b);
            }
        }
        if n == 1 {
            assert(!joins(t, 0, u, v));
            assert(field.tau(u, v) == old(pheromone).tau(u, v));
        }
        if n == 2 {
            assert(field.tau(edge_from(t, 0), edge_to(t, 0)) == blend(
                old(pheromone).tau(edge_from(t, 0), edge_to(t, 0)),
                old(pheromone).tau0 as int,
            ));
            assert(edge_from(t, 0) == v && edge_to(t, 0) == u);
            assert(field.tau(u, v) == field.tau(v, u));
        }
        if n >= 3 {
            assert(!joins(t, n - 1, u, v)) by {
                if joins(t, n - 1, u, v) {
                    let j = choose|j: int| 0 <= j < n - 1 && #[trigger] joins_at(t, j, u, v);
                    crate::pheromone::lemma_edges_distinct(t, n as int, j, n - 1);
                }
            }
            assert forall|k: int| 0 <= k < n implies #[trigger] pheromone.tau(edge_from(t, k), edge_to(t, k))
                == blend(old(pheromone).tau(edge_from(t, k), edge_to(t, k)), old(pheromone).tau0 as int) by {
                if k < n - 1 {
                    crate::pheromone::lemma_edges_distinct(t, n as int, k, n - 1);
                } else {
                    assert(field.tau(u, v) == old(pheromone).tau(u, v));
                }
            }
        }
    }
    tour
}

/// History entries never increase, and none is below `best`.
pub open spec fn non_increasing_to(history: Seq<u64>, best: u64) -> bool {
    &&& forall|k: int| 0 <= k < history.len() - 1 ==> #[trigger] history[k + 1] <= history[k]
    &&& forall|k: int| 0 <= k < history.len() ==> best <= #[trigger] history[k]
}

/// An Ant Colony System solver over one instance.
pub struct AcsTspSolver {
    pub data: TspData,
    pub n_ants: usize,
    pub n_iterations: usize,
    pub q0: u64,
    pub beta: u32,
    pub pheromone: PheromoneField,
    pub candidates: Vec<Vec<usize>>,
    pub best_tour: Vec<usize>,
    pub best_score: u64,
    pub history: Vec<u64>,
}

impl AcsTspSolver {
    /// The solver's state is consistent: the best tour is a tour of the
    /// instance, the best score is its length, and the history never rises
    /// and never falls below the best score.
    pub open spec fn wf(&self) -> bool {
        &&& self.data.wf()
        &&& self.data.n >= 1
        &&& self.pheromone.wf()
        &&& self.pheromone.n == self.data.n
        &&& short_candidates(self.candidates@, self.data.n as int)
        &&& self.q0 <= Q_ONE
        &&& is_tour(self.best_tour@, self.data.n as int)
        &&& self.best_score as int == self.data.tour_len(self.best_tour@)
        &&& non_increasing_to(self.history@, self.best_score)
    }

    /// Prepares a solver: candidate lists of the `K_CANDIDATES` nearest
    /// cities, the greedy tour refined by 2-opt as the first best tour, and
    /// every pheromone level at `1 / (n * L)` for that tour's length `L`.
    /// `q0` is the exploitation probability in units of `1 / Q_ONE`, and
    /// `beta`, the exponent of the heuristic factor `(1 / d)^beta`, is an
    /// integer.
    pub fn new(data: TspData, n_ants: usize, n_iterations: usize, q0: u64, beta: u32) -> (r: Self)
        requires
            data.wf(),
            data.n >= 1,
            q0 <= Q_ONE,
        ensures
            r.wf(),
            r.data == data,
            r.n_ants == n_ants,
            r.n_iterations == n_iterations,
            r.q0 == q0,
            r.beta == beta,
            r.best_tour@[0] == 0,
            r.history@.len() == 0,
            r.pheromone.tau0 as int == initial_level_spec(data.n as int, r.best_score as int),
            forall|i: int, j: int|
                0 <= i < data.n && 0 <= j < data.n ==> #[trigger] r.pheromone.tau(i, j)
                    == r.pheromone.tau0,
            forall|i: int|
                0 <= i < data.n ==> is_candidate_list(&data, i, K_CANDIDATES as int, #[trigger] r.candidates@[i]@),
            exists|g: Seq<usize>|
                is_greedy_tour(&data, r.candidates@, g) && #[trigger] two_opt_refines(&data, g, r.best_tour@),
    {
        let n = data.n;
        let candidates = build_candidates(&data, K_CANDIDATES);
        let mut greedy_tour = greedy_initial_tour(&data, &candidates);
        let ghost greedy = greedy_tour@;
        two_opt(&data, &mut greedy_tour, BOOTSTRAP_PASSES);
        assert(two_opt_refines(&data, greedy, greedy_tour@));
        let greedy_len = data.calculate_tour_length(&greedy_tour);
        let tau0 = initial_level(n, greedy_len);
        let pheromone = PheromoneField::new(n, tau0);
        let r = AcsTspSolver {
            data,
            n_ants,
            n_iterations,
            q0,
            beta,
            pheromone,
            candidates,
            best_tour: greedy_tour,
            best_score: greedy_len,
            history: Vec::new(),
        };
        assert(is_greedy_tour(&r.data, r.candidates@, greedy));
        assert(two_opt_refines(&r.data, greedy, r.best_tour@));
        r
    }

    /// Ends an iteration on the ants' refined tours: the first shortest of
    /// them is polished by Or-opt, and by 2-opt again when Or-opt moved
    /// something; it replaces the best tour when strictly shorter; the global
    /// pheromone update reinforces the best tour; the best score is appended
    /// to the history.
    pub fn finish_iteration(&mut self, ant_tours: Vec<Vec<usize>>)
        requires
            old(self).wf(),
            forall|j: int| 0 <= j < ant_tours@.len() ==> is_tour(#[trigger] ant_tours@[j]@, old(self).data.n as int),
        ensures
            final(self).wf(),
            same_setup(*final(self), *old(self)),
            final(self).history@ == old(self).history@.push(final(self).best_score),
            final(self).best_score <= old(self).best_score,
            final(self).best_score == old(self).best_score ==> final(self).best_tour == old(self).best_tour,
            ant_tours@.len() == 0 ==> final(self).best_score == old(self).best_score,
            ant_tours@.len() > 0 ==> exists|k: int, c: Seq<usize>|
                first_shortest(&old(self).data, ant_tours@, k) && #[trigger] polished(
                    &old(self).data,
                    old(self).candidates@,
                    ant_tours@[k]@,
                    c,
                ) && if old(self).data.tour_len(c) < old(self).best_score {
                    final(self).best_tour@ == c && final(self).best_score as int == old(self).data.tour_len(c)
                } else {
                    final(self).best_score == old(self).best_score
                },
            reinforced(*final(self), old(self).pheromone),
    {
        let n = self.data.n;
        let mut ant_tours = ant_tours;
        let ghost tours = ant_tours@;
        if ant_tours.len() > 0 {
            let mut best_k: usize = 0;
            let mut best_len = self.data.calculate_tour_length(&ant_tours[0]);
            let mut j: usize = 1;
            while j < ant_tours.len()
                invariant
                    self.wf(),
                    n == self.data.n,
                    ant_tours@ == tours,
                    forall|q: int| 0 <= q < tours.len() ==> is_tour(#[trigger] tours[q]@, n as int),
                    1 <= j <= tours.len(),
                    best_k < j,
                    best_len as int == self.data.tour_len(tours[best_k as int]@),
                    forall|q: int| 0 <= q < j ==> best_len <= self.data.tour_len(#[trigger] tours[q]@),
                    forall|q: int| 0 <= q < best_k ==> best_len < self.data.tour_len(#[trigger] tours[q]@),
                decreases tours.len() - j,
            {
                let len = self.data.calculate_tour_length(&ant_tours[j]);
                if len < best_len {
                    best_len = len;
                    best_k = j;
                }
                j = j + 1;
            }
            let mut champion = ant_tours.remove(best_k);
            let ghost start = champion@;
            assert(start == tours[best_k as int]@);
            let mut champion_len = best_len;
            if or_opt(&self.data, &self.candidates, &mut champion) {
                two_opt(&self.data, &mut champion, ANT_PASSES);
                champion_len = self.data.calculate_tour_length(&champion);
            }
            assert(polished(&self.data, self.candidates@, start, champion@));
            assert(first_shortest(&self.data, tours, best_k as int));
            if champion_len < self.best_score {
                self.best_score = champion_len;
                self.best_tour = champion;
            }
        }
        self.pheromone.global_update(&self.best_tour, self.best_score);
        let ghost before = self.history@;
        self.history.push(self.best_score);
        proof {
            assert forall|k: int| 0 <= k < self.history@.len() - 1 implies #[trigger] self.history@[k
                + 1] <= self.history@[k] by {
                assert(self.history@[k] == before[k]);
                if k + 1 < before.len() {
                    assert(self.history@[k + 1] == before[k + 1]);
                }
            }
            assert forall|k: int| 0 <= k < self.history@.len() implies self.best_score
                <= #[trigger] self.history@[k] by {
                if k < before.len() {
                    assert(self.history@[k] == before[k]);
                }
            }
        }
    }

    /// Runs `n_iterations` iterations. In each, every ant builds a tour that
    /// 2-opt refines, and `finish_iteration` ends the iteration on them.
    pub fn run(&mut self, rng: &mut RandomSource)
        requires
            old(self).wf(),
        ensures
            final(self).wf(),
            same_setup(*final(self), *old(self)),
            final(self).best_score <= old(self).best_score,
            final(self).best_score == old(self).best_score ==> final(self).best_tour == old(self).best_tour,
            final(self).history@.len() == old(self).history@.len() + old(self).n_iterations,
            final(self).history@.subrange(0, old(self).history@.len() as int) == old(self).history@,
            forall|k: int|
                old(self).history@.len() <= k < final(self).history@.len() ==> #[trigger] final(self).history@[k]
                    <= old(self).best_score,
            old(self).n_iterations > 0 ==> final(self).history@.last() == final(self).best_score,
            old(self).n_iterations == 0 ==> final(self).best_score == old(self).best_score,
            exists|states: Seq<AcsTspSolver>|
                #![trigger states.len()]
                states.len() == old(self).n_iterations + 1 && states[0] == *old(self)
                    && states[old(self).n_iterations as int] == *final(self) && forall|i: int|
                    0 <= i < old(self).n_iterations ==> #[trigger] iteration_step(states[i], states[i + 1]),
    {
        let n = self.data.n;
        let mut it: usize = 0;
        let ghost mut states: Seq<AcsTspSolver> = seq![*self];
        while it < self.n_iterations
            invariant
                states.len() == it + 1,
                states[0] == *old(self),
                states[it as int] == *self,
                forall|i: int| 0 <= i < it ==> #[trigger] iteration_step(states[i], states[i + 1]),
                self.wf(),
                same_setup(*self, *old(self)),
                n == self.data.n,
                it <= self.n_iterations,
                self.best_score <= old(self).best_score,
                self.best_score == old(self).best_score ==> self.best_tour == old(self).best_tour,
                self.history@.len() == old(self).history@.len() + it,
                self.history@.subrange(0, old(self).history@.len() as int) == old(self).history@,
                forall|k: int|
                    old(self).history@.len() <= k < self.history@.len() ==> #[trigger] self.history@[k]
                        <= old(self).best_score,
                it > 0 ==> self.history@.last() == self.best_score,
                it == 0 ==> self.best_score == old(self).best_score,
            decreases self.n_iterations - it,
        {
            let mut ant_tours: Vec<Vec<usize>> = Vec::new();
            let ghost history0 = self.history;
            let ghost best0 = self.best_score;
            let ghost tour0 = self.best_tour;
            let ghost a = *self;
            let ghost mut walks: Seq<Seq<usize>> = Seq::empty();
            let ghost mut fields: Seq<PheromoneField> = seq![self.pheromone];
            let mut ant: usize = 0;
            while ant < self.n_ants
                invariant
                    ant <= self.n_ants,
                    self.data == a.data,
                    self.candidates == a.candidates,
                    self.n_ants == a.n_ants,
                    self.q0 == a.q0,
                    self.beta == a.beta,
                    self.pheromone.tau0 == a.pheromone.tau0,
                    walks.len() == ant,
                    ant_tours@.len() == ant,
                    fields.len() == ant + 1,
                    fields[0] == a.pheromone,
                    fields[ant as int] == self.pheromone,
                    forall|j: int|
                        0 <= j < ant ==> #[trigger] ant_walk(&a.data, a.candidates@, a.q0, a.beta, fields[j], fields[j + 1], walks[j])
                            && two_opt_done(&a.data, ANT_PASSES, walks[j], ant_tours@[j]@),
                    self.history == history0,
                    self.best_score == best0,
                    self.best_tour == tour0,
                    self.wf(),
                    same_setup(*self, *old(self)),
                    n == self.data.n,
                    forall|j: int| 0 <= j < ant_tours@.len() ==> is_tour(#[trigger] ant_tours@[j]@, n as int),
                decreases self.n_ants - ant,
            {
                let mut tour = construct_tour(
                    &self.data,
                    &self.candidates,
                    &mut self.pheromone,
                    self.q0,
                    self.beta,
                    rng,
                );
                let ghost walked = tour@;
                let ghost field_before = fields[ant as int];
                assert(ant_walk(&a.data, a.candidates@, a.q0, a.beta, field_before, self.pheromone, walked));
                two_opt(&self.data, &mut tour, ANT_PASSES);
                assert(two_opt_done(&a.data, ANT_PASSES, walked, tour@));
                let ghost before = ant_tours@;
                ant_tours.push(tour);
                proof {
                    let old_fields = fields;
                    let old_walks = walks;
                    fields = fields.push(self.pheromone);
                    walks = walks.push(walked);
                    assert forall|j: int| 0 <= j < ant + 1 implies #[trigger] ant_walk(
                        &a.data,
                        a.candidates@,
                        a.q0,
                        a.beta,
                        fields[j],
                        fields[j + 1],
                        walks[j],
                    ) && two_opt_done(&a.data, ANT_PASSES, walks[j], ant_tours@[j]@) by {
                        if j < ant {
                            assert(fields[j] == old_fields[j] && fields[j + 1] == old_fields[j + 1]);
                            assert(walks[j] == old_walks[j]);
                            assert(ant_tours@[j] == before[j]);
                        }
                    }
                }
                assert forall|j: int| 0 <= j < ant_tours@.len() implies is_tour(#[trigger] ant_tours@[j]@, n as int) by {
                    if j < before.len() {
                        assert(ant_tours@[j] == before[j]);
                    }
                }
                ant = ant + 1;
            }
            let ghost before = self.history@;
            let ghost best_before = self.best_score;
            let ghost tour_before = self.best_tour;
            let ghost tours = ant_tours@;
            let ghost mid = *self;
            self.finish_iteration(ant_tours);
            proof {
                assert(iteration_end(a, fields[a.n_ants as int], *self, tours));
                assert(iteration_step(a, *self));
                let old_states = states;
                states = states.push(*self);
                assert forall|i: int| 0 <= i < it + 1 implies #[trigger] iteration_step(states[i], states[i + 1]) by {
                    if i < it {
                        assert(states[i] == old_states[i] && states[i + 1] == old_states[i + 1]);
                    }
                }
            }
            proof {
                assert(self.history@.subrange(0, old(self).history@.len() as int) == before.subrange(
                    0,
                    old(self).history@.len() as int,
                ));
                assert forall|k: int|
                    old(self).history@.len() <= k < self.history@.len() implies #[trigger] self.history@[k]
                        <= old(self).best_score by {
                    if k < before.len() {
                        assert(self.history@[k] == before[k]);
                    }
                }
            }
            it = it + 1;
        }
    }
}

/// `g` is the greedy bootstrap tour: it starts at city 0 and every next
/// city is the greedy successor of the one before.
pub open spec fn is_greedy_tour(data: &TspData, candidates: Seq<Vec<usize>>, g: Seq<usize>) -> bool {
    &&& is_tour(g, data.n as int)
    &&& g[0] == 0
    &&& forall|t: int|
        0 <= t < data.n - 1 ==> greedy_step(data, candidates[g[t] as int]@, g.subrange(0, t + 1), #[trigger] g[t + 1])
}

/// `b` is what the bootstrap 2-opt (`BOOTSTRAP_PASSES` passes) makes of the
/// tour `g`: the same first city, `g` itself when no move in the window
/// improves `g`, and otherwise the strictly shorter result of the scan.
pub open spec fn two_opt_refines(data: &TspData, g: Seq<usize>, b: Seq<usize>) -> bool {
    &&& is_tour(b, data.n as int)
    &&& b[0] == g[0]
    &&& two_opt_optimal(data, g) ==> b == g
    &&& !two_opt_optimal(data, g) ==> data.tour_len(b) < data.tour_len(g)
    &&& b == two_opt_spec(data, g, BOOTSTRAP_PASSES as nat)
}

/// `k` is the position of the first shortest tour of `tours`.
pub open spec fn first_shortest(data: &TspData, tours: Seq<Vec<usize>>, k: int) -> bool {
    &&& 0 <= k < tours.len()
    &&& forall|j: int| 0 <= j < tours.len() ==> data.tour_len(tours[k]@) <= data.tour_len(#[trigger] tours[j]@)
    &&& forall|j: int| 0 <= j < k ==> data.tour_len(tours[k]@) < data.tour_len(#[trigger] tours[j]@)
}

/// `c` is what Or-opt, followed by 2-opt when Or-opt moved something, makes
/// of `champion`: unchanged when no relocation improves it, strictly shorter
/// otherwise.
pub open spec fn polished(data: &TspData, candidates: Seq<Vec<usize>>, champion: Seq<usize>, c: Seq<usize>) -> bool {
    &&& is_tour(c, data.n as int)
    &&& !has_improving_relocation(data, candidates, champion) ==> c == champion
    &&& has_improving_relocation(data, candidates, champion) ==> data.tour_len(c) < data.tour_len(champion)
    &&& has_improving_relocation(data, candidates, champion) ==> c == two_opt_spec(
        data,
        or_opt_spec(data, candidates, champion),
        ANT_PASSES as nat,
    )
}

/// Two solver states share instance, candidate lists and configuration.
pub open spec fn same_setup(a: AcsTspSolver, b: AcsTspSolver) -> bool {
    &&& a.data == b.data
    &&& a.candidates == b.candidates
    &&& a.n_ants == b.n_ants
    &&& a.n_iterations == b.n_iterations
    &&& a.q0 == b.q0
    &&& a.beta == b.beta
    &&& a.pheromone.tau0 == b.pheromone.tau0
}

/// The pheromone of `s` is `before` after the global update on the best tour:
/// other pairs unchanged, and each best tour edge one evaporation step toward
/// `deposit_spec(best_score)` per time the tour crosses it (the one pair of a
/// two-city tour is crossed twice).
pub open spec fn reinforced(s: AcsTspSolver, before: PheromoneField) -> bool {
    let tour = s.best_tour@;
    &&& forall|a: int, b: int|
        0 <= a < s.data.n && 0 <= b < s.data.n && !joins(tour, tour.len() as int, a, b)
            ==> #[trigger] s.pheromone.tau(a, b) == before.tau(a, b)
    &&& s.data.n >= 3 ==> forall|k: int|
        0 <= k < tour.len() ==> #[trigger] s.pheromone.tau(edge_from(tour, k), edge_to(tour, k)) == blend(
            before.tau(edge_from(tour, k), edge_to(tour, k)),
            deposit_spec(s.best_score as int),
        )
    &&& s.data.n == 1 ==> s.pheromone.tau(tour[0] as int, tour[0] as int) == blend(
        before.tau(tour[0] as int, tour[0] as int),
        deposit_spec(s.best_score as int),
    )
    &&& s.data.n == 2 ==> s.pheromone.tau(tour[0] as int, tour[1] as int) == blend(
        blend(before.tau(tour[0] as int, tour[1] as int), deposit_spec(s.best_score as int)),
        deposit_spec(s.best_score as int),
    )
}

/// `tour` is a tour one ant may build on the field `before`, leaving the
/// field `after`: every step is taken by the selection rule on the field as
/// locally updated so far, and each edge crossed, the closing one included,
/// has had one local update per crossing.
pub open spec fn ant_walk(
    data: &TspData,
    candidates: Seq<Vec<usize>>,
    q0: u64,
    beta: u32,
    before: PheromoneField,
    after: PheromoneField,
    tour: Seq<usize>,
) -> bool {
    &&& is_tour(tour, data.n as int)
    &&& after.wf()
    &&& after.n == data.n
    &&& after.tau0 == before.tau0
    &&& exists|fields: Seq<PheromoneField>|
        #![trigger fields.len()]
        fields.len() == data.n && fields[0] == before && forall|t: int|
            0 <= t < data.n - 1 ==> ant_step(
                data,
                candidates,
                fields[t],
                q0,
                beta,
                tour.subrange(0, t + 1),
                #[trigger] tour[t + 1],
            ) && is_local_update(fields[t], fields[t + 1], tour[t] as int, tour[t + 1] as int)
    &&& forall|a: int, b: int|
        0 <= a < data.n && 0 <= b < data.n && !joins(tour, tour.len() as int, a, b)
            ==> #[trigger] after.tau(a, b) == before.tau(a, b)
    &&& data.n >= 3 ==> forall|k: int|
        0 <= k < tour.len() ==> #[trigger] after.tau(edge_from(tour, k), edge_to(tour, k)) == blend(
            before.tau(edge_from(tour, k), edge_to(tour, k)),
            before.tau0 as int,
        )
    &&& data.n == 1 ==> after.tau(tour[0] as int, tour[0] as int) == blend(
        before.tau(tour[0] as int, tour[0] as int),
        before.tau0 as int,
    )
    &&& data.n == 2 ==> after.tau(tour[0] as int, tour[1] as int) == blend(
        blend(before.tau(tour[0] as int, tour[1] as int), before.tau0 as int),
        before.tau0 as int,
    )
}

/// `b` is what `finish_iteration` makes of `a` on the ants' tours `tours`,
/// with `field` the pheromone field the ants left.
pub open spec fn iteration_end(a: AcsTspSolver, field: PheromoneField, b: AcsTspSolver, tours: Seq<Vec<usize>>) -> bool {
    &&& b.wf()
    &&& same_setup(b, a)
    &&& b.history@ == a.history@.push(b.best_score)
    &&& b.best_score <= a.best_score
    &&& b.best_score == a.best_score ==> b.best_tour == a.best_tour
    &&& tours.len() == 0 ==> b.best_score == a.best_score
    &&& tours.len() > 0 ==> exists|k: int, c: Seq<usize>|
        first_shortest(&a.data, tours, k) && #[trigger] polished(&a.data, a.candidates@, tours[k]@, c) && if a.data.tour_len(c)
            < a.best_score {
            b.best_tour@ == c && b.best_score as int == a.data.tour_len(c)
        } else {
            b.best_score == a.best_score
        }
    &&& reinforced(b, field)
}

/// `b` is a state one iteration of `run` may lead to from `a`: `n_ants` ants
/// walk in turn, each on the field the ones before it left, each tour is
/// refined by 2-opt, and the iteration ends on those tours.
pub open spec fn iteration_step(a: AcsTspSolver, b: AcsTspSolver) -> bool {
    exists|walks: Seq<Seq<usize>>, fields: Seq<PheromoneField>, tours: Seq<Vec<usize>>|
        #![trigger walks.len(), fields.len(), tours.len()]
        walks.len() == a.n_ants && tours.len() == a.n_ants && fields.len() == a.n_ants + 1 && fields[0]
            == a.pheromone && (forall|j: int|
            0 <= j < a.n_ants ==> #[trigger] ant_walk(&a.data, a.candidates@, a.q0, a.beta, fields[j], fields[j + 1], walks[j])
                && two_opt_done(&a.data, ANT_PASSES, walks[j], tours[j]@)) && iteration_end(
            a,
            fields[a.n_ants as int],
            b,
            tours,
        )
}

/// Whatever sequence of `new` and `run` produced a solver, its best tour is
/// a tour of the instance, its best score is that tour's recomputed length,
/// and its history never increases and never falls below the best score.
pub proof fn lemma_solver_state(solver: &AcsTspSolver)
    requires
        solver.wf(),
    ensures
        is_tour(solver.best_tour@, solver.data.n as int),
        solver.best_score as int == solver.data.tour_len(solver.best_tour@),
        forall|k: int|
            0 <= k < solver.history@.len() - 1 ==> #[trigger] solver.history@[k + 1]
                <= solver.history@[k],
        forall|k: int| 0 <= k < solver.history@.len() ==> solver.best_score <= #[trigger] solver.history@[k],
{
}

} // verus!
