//! Tours as sequences of city indices, and counting facts about them.
use vstd::prelude::*;
use vstd::set_lib::lemma_len_subset;

verus! {

/// Every entry of `s` is a city index below `n`.
pub open spec fn in_range(s: Seq<usize>, n: int) -> bool {
    forall|k: int| 0 <= k < s.len() ==> #[trigger] s[k] < n
}

/// `s` is a tour of `n` cities: a permutation of `0..n`.
pub open spec fn is_tour(s: Seq<usize>, n: int) -> bool {
    &&& s.len() == n
    &&& in_range(s, n)
    &&& s.no_duplicates()
}

/// The city indices below `n`.
pub open spec fn cities_below(n: usize) -> Set<usize> {
    Set::new(|j: usize| j < n)
}

proof fn lemma_cities_below_len(n: usize)
    ensures
        cities_below(n).finite(),
        cities_below(n).len() == n,
    decreases n,
{
    if n == 0 {
        assert(cities_below(n) =~= Set::empty());
    } else {
        lemma_cities_below_len((n - 1) as usize);
        assert(cities_below(n) =~= cities_below((n - 1) as usize).insert((n - 1) as usize));
    }
}

/// A sequence of distinct city indices below `n` has at most `n` entries.
pub proof fn lemma_distinct_len(s: Seq<usize>, n: usize)
    requires
        s.no_duplicates(),
        in_range(s, n as int),
    ensures
        s.len() <= n,
{
    lemma_cities_below_len(n);
    s.unique_seq_to_set();
    assert forall|j: usize| s.to_set().contains(j) implies cities_below(n).contains(j) by {
        let k = choose|k: int| 0 <= k < s.len() && s[k] == j;
        assert(s[k] < n);
    }
    lemma_len_subset(s.to_set(), cities_below(n));
}

/// A sequence of fewer than `n` distinct city indices misses some city below `n`.
pub proof fn lemma_missing_city(s: Seq<usize>, n: usize)
    requires
        s.no_duplicates(),
        s.len() < n,
    ensures
        exists|j: usize| j < n && !s.contains(j),
{
    if forall|j: usize| j < n ==> s.contains(j) {
        lemma_cities_below_len(n);
        s.unique_seq_to_set();
        assert(cities_below(n).subset_of(s.to_set()));
        vstd::seq_lib::seq_to_set_is_finite(s);
        lemma_len_subset(cities_below(n), s.to_set());
    }
}

} // verus!

verus! {

/// Whether `v` is a tour of `n` cities.
pub fn is_permutation(v: &Vec<usize>, n: usize) -> (r: bool)
    ensures
        r == is_tour(v@, n as int),
{
    if v.len() != n {
        return false;
    }
    let mut seen: Vec<bool> = Vec::new();
    let mut c: usize = 0;
    while c < n
        invariant
            c <= n,
            seen@.len() == c,
            forall|a: int| 0 <= a < c ==> !#[trigger] seen@[a],
        decreases n - c,
    {
        seen.push(false);
        c = c + 1;
    }
    let mut k: usize = 0;
    while k < n
        invariant
            v@.len() == n,
            seen@.len() == n,
            k <= n,
            in_range(v@.subrange(0, k as int), n as int),
            v@.subrange(0, k as int).no_duplicates(),
            forall|a: usize| a < n ==> #[trigger] seen@[a as int] == v@.subrange(0, k as int).contains(a),
        decreases n - k,
    {
        let x = v[k];
        let ghost before = v@.subrange(0, k as int);
        let ghost after = v@.subrange(0, k + 1);
        assert(after == before.push(x));
        if x >= n {
            assert(!in_range(v@, n as int)) by {
                assert(v@[k as int] == x);
            }
            return false;
        }
        if seen[x] {
            proof {
                let p = choose|p: int| 0 <= p < before.len() && before[p] == x;
                assert(v@[p] == v@[k as int]);
            }
            return false;
        }
        seen.set(x, true);
        assert forall|a: usize| a < n implies #[trigger] seen@[a as int] == after.contains(a) by {
            if a == x {
                assert(after[k as int] == x);
            } else if after.contains(a) {
                let p = choose|p: int| 0 <= p < after.len() && after[p] == a;
                assert(before[p] == a);
            }
            if before.contains(a) {
                let p = choose|p: int| 0 <= p < before.len() && before[p] == a;
                assert(after[p] == a);
            }
        }
        k = k + 1;
    }
    assert(v@.subrange(0, n as int) == v@);
    true
}

} // verus!

verus! {

/// A tour of `n` cities visits every city below `n`.
pub proof fn lemma_tour_has_all(s: Seq<usize>, n: usize, c: usize)
    requires
        is_tour(s, n as int),
        c < n,
    ensures
        s.contains(c),
{
    if !s.contains(c) {
        let longer = s.push(c);
        assert forall|a: int, b: int| 0 <= a < b < longer.len() implies longer[a] != longer[b] by {
            if b == s.len() {
                assert(longer[a] == s[a]);
            } else {
                assert(longer[a] == s[a] && longer[b] == s[b]);
            }
        }
        assert forall|k: int| 0 <= k < longer.len() implies #[trigger] longer[k] < n by {
            if k < s.len() {
                assert(longer[k] == s[k]);
            }
        }
        lemma_distinct_len(longer, n);
    }
}

} // verus!
