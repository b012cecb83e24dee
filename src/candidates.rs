//! Candidate lists: for each city, its nearest other cities in ascending order.
use vstd::prelude::*;
use crate::tour::{in_range, lemma_distinct_len, lemma_missing_city};
use crate::tsp_data::TspData;

verus! {

/// Number of nearest neighbours kept per city.
pub const K_CANDIDATES: usize = 30;

/// City `a` comes before city `b` when seen from city `i`: it is nearer, or
/// as near with a smaller index.
pub open spec fn closer(data: &TspData, i: int, a: int, b: int) -> bool {
    data.d(i, a) < data.d(i, b) || (data.d(i, a) == data.d(i, b) && a < b)
}

/// The number of neighbours kept for each city of an `n`-city instance.
pub open spec fn list_len(k: int, n: int) -> int {
    if k < n - 1 {
        k
    } else {
        n - 1
    }
}

/// `list` holds the `k` cities nearest to `i` (all others if there are fewer),
/// ascending by distance with ties broken by index.
pub open spec fn is_candidate_list(data: &TspData, i: int, k: int, list: Seq<usize>) -> bool {
    &&& list.len() == list_len(k, data.n as int)
    &&& in_range(list, data.n as int)
    &&& forall|p: int| 0 <= p < list.len() ==> #[trigger] list[p] != i
    &&& forall|p: int, q: int|
        0 <= p < q < list.len() ==> closer(data, i, #[trigger] list[p] as int, #[trigger] list[q] as int)
    &&& forall|j: usize, p: int|
        #![trigger list.contains(j), list[p]]
        j < data.n && j != i && !list.contains(j) && 0 <= p < list.len() ==> closer(
            data,
            i,
            list[p] as int,
            j as int,
        )
}

/// City `m` may follow the last entry of a partial list around city `i`.
pub open spec fn follows_last(data: &TspData, i: int, list: Seq<usize>, m: usize) -> bool {
    m != i && (list.len() == 0 || closer(data, i, list[list.len() - 1] as int, m as int))
}

fn is_closer(data: &TspData, i: usize, a: usize, b: usize) -> (r: bool)
    requires
        data.wf(),
        i < data.n,
        a < data.n,
        b < data.n,
    ensures
        r == closer(data, i as int, a as int, b as int),
{
    let da = data.dist(i, a);
    let db = data.dist(i, b);
    da < db || (da == db && a < b)
}

/// The `k` nearest cities to `i`, nearest first, ties broken by index.
pub fn nearest_neighbours(data: &TspData, i: usize, k: usize) -> (r: Vec<usize>)
    requires
        data.wf(),
        i < data.n,
    ensures
        is_candidate_list(data, i as int, k as int, r@),
{
    let n = data.n;
    let mut list: Vec<usize> = Vec::new();
    let mut exhausted = false;
    while list.len() < k && !exhausted
        invariant
            data.wf(),
            n == data.n,
            i < n,
            in_range(list@, n as int),
            list@.len() <= k,
            forall|p: int| 0 <= p < list@.len() ==> #[trigger] list@[p] != i,
            forall|p: int, q: int|
                0 <= p < q < list@.len() ==> closer(
                    data,
                    i as int,
                    #[trigger] list@[p] as int,
                    #[trigger] list@[q] as int,
                ),
            forall|j: usize, p: int|
                #![trigger list@.contains(j), list@[p]]
                j < n && j != i && !list@.contains(j) && 0 <= p < list@.len() ==> closer(
                    data,
                    i as int,
                    list@[p] as int,
                    j as int,
                ),
            exhausted ==> forall|j: usize| j < n && j != i ==> list@.contains(j),
        decreases k - list@.len(), if exhausted { 0int } else { 1int },
    {
        let len = list.len();
        let mut best: usize = n;
        let mut j: usize = 0;
        while j < n
            invariant
                data.wf(),
                n == data.n,
                i < n,
                j <= n,
                len == list@.len(),
                in_range(list@, n as int),
                best <= n,
                best < n ==> best != i && (len == 0 || closer(
                    data,
                    i as int,
                    list@[len - 1] as int,
                    best as int,
                )),
                forall|m: usize|
                    m < j && #[trigger] follows_last(data, i as int, list@, m) ==> best < n && (best
                        == m || closer(data, i as int, best as int, m as int)),
            decreases n - j,
        {
            if j != i && (len == 0 || is_closer(data, i, list[len - 1], j)) {
                if best == n || is_closer(data, i, j, best) {
                    let ghost old_best = best;
                    best = j;
                    assert forall|m: usize|
                        m < j && #[trigger] follows_last(data, i as int, list@, m) implies (best == m
                            || closer(data, i as int, best as int, m as int)) by {
                        if old_best < n && m != old_best {
                            assert(closer(data, i as int, old_best as int, m as int));
                        }
                    }
                }
                assert(follows_last(data, i as int, list@, j));
            }
            j = j + 1;
        }
        if best == n {
            exhausted = true;
            assert forall|m: usize| m < n && m != i implies list@.contains(m) by {
                if !list@.contains(m) {
                    if len > 0 {
                        assert(closer(data, i as int, list@[len - 1] as int, m as int));
                    }
                    assert(follows_last(data, i as int, list@, m));
                }
            }
        } else {
            let ghost old_list = list@;
            list.push(best);
            assert forall|m: usize| #[trigger] list@.contains(m) <==> old_list.contains(m) || m == best by {
                if list@.contains(m) {
                    let p = choose|p: int| 0 <= p < list@.len() && list@[p] == m;
                    if p < old_list.len() {
                        assert(old_list[p] == m);
                    }
                }
                if old_list.contains(m) {
                    let p = choose|p: int| 0 <= p < old_list.len() && old_list[p] == m;
                    assert(list@[p] == m);
                }
                if m == best {
                    assert(list@[len as int] == m);
                }
            }
            assert forall|m: usize, p: int|
                #![trigger list@.contains(m), list@[p]]
                m < n && m != i && !list@.contains(m) && 0 <= p < list@.len() implies closer(
                data,
                i as int,
                list@[p] as int,
                m as int,
            ) by {
                assert(!old_list.contains(m));
                if len > 0 {
                    assert(closer(data, i as int, old_list[len - 1] as int, m as int));
                }
                assert(follows_last(data, i as int, old_list, m));
                if p < len {
                    assert(list@[p] == old_list[p]);
                    assert(closer(data, i as int, old_list[p] as int, m as int));
                } else {
                    assert(list@[p] == best);
                }
            }
            assert forall|p: int, q: int| 0 <= p < q < list@.len() implies closer(
                data,
                i as int,
                #[trigger] list@[p] as int,
                #[trigger] list@[q] as int,
            ) by {
                if q == len && p < len - 1 {
                    assert(closer(data, i as int, list@[p] as int, list@[len - 1] as int));
                }
            }
        }
    }
    proof {
        let with_self = list@.push(i);
        assert(with_self.no_duplicates()) by {
            assert forall|p: int, q: int| 0 <= p < q < with_self.len() implies with_self[p] != with_self[q] by {
                if q < list@.len() {
                    assert(closer(data, i as int, list@[p] as int, list@[q] as int));
                }
            }
        }
        lemma_distinct_len(with_self, n);
        if exhausted && list@.len() < n - 1 {
            lemma_missing_city(with_self, n);
            let m = choose|m: usize| m < n && !with_self.contains(m);
            assert(m != i) by {
                assert(with_self[list@.len() as int] == i);
            }
            if list@.contains(m) {
                let p = choose|p: int| 0 <= p < list@.len() && list@[p] == m;
                assert(with_self[p] == m);
            }
        }
    }
    list
}

/// Candidate lists of every city, `k` nearest neighbours each.
pub fn build_candidates(data: &TspData, k: usize) -> (r: Vec<Vec<usize>>)
    requires
        data.wf(),
    ensures
        r@.len() == data.n,
        forall|i: int| 0 <= i < data.n ==> is_candidate_list(data, i, k as int, #[trigger] r@[i]@),
{
    let mut lists: Vec<Vec<usize>> = Vec::new();
    let mut i: usize = 0;
    while i < data.n
        invariant
            data.wf(),
            i <= data.n,
            lists@.len() == i,
            forall|a: int| 0 <= a < i ==> is_candidate_list(data, a, k as int, #[trigger] lists@[a]@),
        decreases data.n - i,
    {
        let list = nearest_neighbours(data, i, k);
        lists.push(list);
        i = i + 1;
    }
    lists
}

/// With `k` at least `n - 1`, the candidate list of `i` holds every other
/// city: it is the full neighbour list in ascending order.
pub proof fn lemma_full_list(data: &TspData, i: int, k: int, list: Seq<usize>)
    requires
        data.wf(),
        0 <= i < data.n,
        k >= data.n - 1,
        is_candidate_list(data, i, k, list),
    ensures
        forall|j: usize| j < data.n && j != i ==> list.contains(j),
{
    assert forall|j: usize| j < data.n && j != i implies list.contains(j) by {
        if !list.contains(j) {
            let longer = list.push(i as usize).push(j);
            assert forall|a: int, b: int| 0 <= a < b < longer.len() implies longer[a] != longer[b] by {
                if b < list.len() {
                    assert(closer(data, i, list[a] as int, list[b] as int));
                } else if b == list.len() {
                    assert(longer[b] == i);
                    assert(longer[a] == list[a]);
                } else if a < list.len() {
                    assert(longer[a] == list[a]);
                }
            }
            assert forall|c: int| 0 <= c < longer.len() implies #[trigger] longer[c] < data.n by {
                if c < list.len() {
                    assert(longer[c] == list[c]);
                }
            }
            lemma_distinct_len(longer, data.n);
        }
    }
}

} // verus!
