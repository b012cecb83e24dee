//! Local search on tours: windowed 2-opt and block Or-opt.
use vstd::prelude::*;
use crate::tour::{in_range, is_tour, lemma_tour_has_all};
use crate::tsp_data::{TspData, MAX_CITIES};

verus! {

/// Accepted relocations per block size in one Or-opt call.
pub const MAX_MOVES: usize = 10;

/// How far past `i` the 2-opt scan looks for the second edge.
pub const WINDOW: usize = 200;

/// Pass cap of the one-shot refinement of the greedy tour.
pub const BOOTSTRAP_PASSES: usize = 5;

/// Pass cap of the refinement of each ant's tour.
pub const ANT_PASSES: usize = 8;

/// Sum of the edges `(s[k], s[k+1])` for `a <= k < b`.
pub open spec fn seg_len(data: &TspData, s: Seq<usize>, a: int, b: int) -> int
    decreases b - a,
{
    if b <= a {
        0
    } else {
        seg_len(data, s, a, b - 1) + data.d(s[b - 1] as int, s[b] as int)
    }
}

/// The 2-opt move on positions `i..=j` of `s` is a valid, strictly
/// shortening move: reconnecting `(s[i-1], s[j])` and `(s[i], s[j+1])`
/// beats `(s[i-1], s[i])` and `(s[j], s[j+1])`.
pub open spec fn improving(data: &TspData, s: Seq<usize>, i: int, j: int) -> bool {
    let n = s.len() as int;
    let u = s[i - 1] as int;
    let v = s[i] as int;
    let w = s[j] as int;
    let z = s[(j + 1) % n] as int;
    data.d(u, w) + data.d(v, z) < data.d(u, v) + data.d(w, z)
}

/// The pair of positions `(i, j)` lies in the window the 2-opt scan visits.
pub open spec fn in_window(n: int, i: int, j: int) -> bool {
    1 <= i && i + 1 < n && i + 2 <= j && j < n && j < i + WINDOW
}

/// No 2-opt move in the window shortens the tour.
pub open spec fn two_opt_optimal(data: &TspData, s: Seq<usize>) -> bool {
    forall|i: int, j: int| in_window(s.len() as int, i, j) ==> !#[trigger] improving(data, s, i, j)
}

/// `t` is `s` with positions `i..=j` reversed.
pub open spec fn reversed(s: Seq<usize>, t: Seq<usize>, i: int, j: int) -> bool {
    &&& t.len() == s.len()
    &&& forall|k: int|
        0 <= k < s.len() ==> #[trigger] t[k] == s[if i <= k <= j {
            i + j - k
        } else {
            k
        }]
}

proof fn lemma_path_is_seg(data: &TspData, s: Seq<usize>, k: int)
    requires
        k >= 0,
    ensures
        data.path_len(s, k) == seg_len(data, s, 0, k),
    decreases k,
{
    if k > 0 {
        lemma_path_is_seg(data, s, k - 1);
    }
}

proof fn lemma_seg_split(data: &TspData, s: Seq<usize>, a: int, b: int, c: int)
    requires
        a <= b <= c,
    ensures
        seg_len(data, s, a, c) == seg_len(data, s, a, b) + seg_len(data, s, b, c),
    decreases c - b,
{
    if b < c {
        lemma_seg_split(data, s, a, b, c - 1);
    }
}

proof fn lemma_seg_agree(data: &TspData, s: Seq<usize>, t: Seq<usize>, a: int, b: int)
    requires
        forall|k: int| a <= k <= b ==> s[k] == t[k],
    ensures
        seg_len(data, s, a, b) == seg_len(data, t, a, b),
    decreases b - a,
{
    if a < b {
        lemma_seg_agree(data, s, t, a, b - 1);
    }
}

proof fn lemma_seg_one(data: &TspData, s: Seq<usize>, a: int)
    ensures
        seg_len(data, s, a, a + 1) == data.d(s[a] as int, s[a + 1] as int),
{
    assert(seg_len(data, s, a, a) == 0);
}

proof fn lemma_seg_reversed(data: &TspData, s: Seq<usize>, t: Seq<usize>, i: int, j: int, m: int)
    requires
        data.wf(),
        0 <= i <= m <= j < s.len(),
        crate::tour::in_range(s, data.n as int),
        reversed(s, t, i, j),
    ensures
        seg_len(data, t, i, m) == seg_len(data, s, i + j - m, j),
    decreases m - i,
{
    if i < m {
        lemma_seg_reversed(data, s, t, i, j, m - 1);
        let a = i + j - m;
        assert(t[m - 1] == s[a + 1]);
        assert(t[m] == s[a]);
        lemma_seg_split(data, s, a, a + 1, j);
        lemma_seg_one(data, s, a);
        assert(s[a] < data.n && s[a + 1] < data.n);
        assert(data.d(s[a + 1] as int, s[a] as int) == data.d(s[a] as int, s[a + 1] as int));
    }
}

/// Reversing positions `i..=j` changes the tour length by exactly the
/// difference between the two new edges and the two removed ones.
pub proof fn lemma_reversal_len(data: &TspData, s: Seq<usize>, t: Seq<usize>, i: int, j: int)
    requires
        data.wf(),
        is_tour(s, data.n as int),
        in_window(s.len() as int, i, j),
        reversed(s, t, i, j),
    ensures
        data.tour_len(t) == data.tour_len(s) - data.d(s[i - 1] as int, s[i] as int) - data.d(
            s[j] as int,
            s[(j + 1) % (s.len() as int)] as int,
        ) + data.d(s[i - 1] as int, s[j] as int) + data.d(
            s[i] as int,
            s[(j + 1) % (s.len() as int)] as int,
        ),
{
    let n = s.len() as int;
    lemma_path_is_seg(data, s, n - 1);
    lemma_path_is_seg(data, t, n - 1);
    lemma_seg_reversed(data, s, t, i, j, j);
    lemma_seg_agree(data, s, t, 0, i - 1);
    assert(t[i - 1] == s[i - 1]);
    assert(t[i] == s[j]);
    assert(t[j] == s[i]);
    assert(t[0] == s[0]);
    lemma_seg_split(data, s, 0, i - 1, n - 1);
    lemma_seg_split(data, s, i - 1, i, n - 1);
    lemma_seg_split(data, s, i, j, n - 1);
    lemma_seg_one(data, s, i - 1);
    lemma_seg_one(data, t, i - 1);
    lemma_seg_split(data, t, 0, i - 1, n - 1);
    lemma_seg_split(data, t, i - 1, i, n - 1);
    lemma_seg_split(data, t, i, j, n - 1);
    if j < n - 1 {
        assert(t[j + 1] == s[j + 1]);
        assert(t[n - 1] == s[n - 1]);
        lemma_seg_split(data, s, j, j + 1, n - 1);
        lemma_seg_split(data, t, j, j + 1, n - 1);
        lemma_seg_one(data, s, j);
        lemma_seg_one(data, t, j);
        lemma_seg_agree(data, s, t, j + 1, n - 1);
        vstd::arithmetic::div_mod::lemma_small_mod((j + 1) as nat, n as nat);
    } else {
        assert(seg_len(data, s, n - 1, n - 1) == 0);
        assert(seg_len(data, t, n - 1, n - 1) == 0);
        vstd::arithmetic::div_mod::lemma_mod_self_0(n);
    }
}

/// Reversing a segment of a tour gives a tour.
proof fn lemma_reversed_is_tour(s: Seq<usize>, t: Seq<usize>, n: int, i: int, j: int)
    requires
        is_tour(s, n),
        0 <= i <= j < n,
        reversed(s, t, i, j),
    ensures
        is_tour(t, n),
{
    assert forall|p: int, q: int| 0 <= p < q < t.len() implies t[p] != t[q] by {
        let sp = if i <= p <= j { i + j - p } else { p };
        let sq = if i <= q <= j { i + j - q } else { q };
        assert(t[p] == s[sp]);
        assert(t[q] == s[sq]);
    }
    assert forall|k: int| 0 <= k < t.len() implies #[trigger] t[k] < n by {
        let sk = if i <= k <= j { i + j - k } else { k };
        assert(t[k] == s[sk]);
    }
}

/// Reverses positions `i..=j` of the tour in place.
fn reverse_segment(tour: &mut Vec<usize>, i: usize, j: usize)
    requires
        i <= j < old(tour)@.len(),
    ensures
        reversed(old(tour)@, final(tour)@, i as int, j as int),
{
    let ghost s = old(tour)@;
    let mut lo: usize = i;
    let mut hi: usize = j;
    while lo < hi
        invariant
            i <= lo,
            hi <= j,
            j < s.len(),
            lo + hi == i + j,
            lo <= hi + 1,
            tour@.len() == s.len(),
            forall|k: int|
                0 <= k < s.len() ==> #[trigger] tour@[k] == s[if i <= k < lo || hi < k <= j {
                    i + j - k
                } else {
                    k
                }],
        decreases j - lo,
    {
        let a = tour[lo];
        let b = tour[hi];
        tour.set(lo, b);
        tour.set(hi, a);
        lo = lo + 1;
        hi = hi - 1;
    }
    assert forall|k: int| 0 <= k < s.len() implies #[trigger] tour@[k] == s[if i <= k <= j {
        i + j - k
    } else {
        k
    }] by {
        if i <= k < lo || hi < k <= j {
            assert(tour@[k] == s[i + j - k]);
        } else if i <= k <= j {
            assert(k == lo && k == hi);
            assert(tour@[k] == s[k]);
        } else {
            assert(tour@[k] == s[k]);
        }
    }}

/// `s` with positions `i..=j` reversed.
pub open spec fn reverse_seg(s: Seq<usize>, i: int, j: int) -> Seq<usize> {
    Seq::new(s.len(), |k: int| s[if i <= k <= j { i + j - k } else { k }])
}

/// The rest of one first-improvement 2-opt pass over a tour of `n` cities,
/// from the pair `(i, j)` on: each pair of the window, in order, is tried on
/// the current tour and reversed when it improves it. Returns the tour at
/// the end of the pass and whether any pair was reversed.
pub open spec fn scan_rest(data: &TspData, n: int, s: Seq<usize>, i: int, j: int, improved: bool) -> (Seq<usize>, bool)
    decreases n - i, n + WINDOW - j,
{
    if i < 1 || i + 1 >= n {
        (s, improved)
    } else if j >= n || j >= i + WINDOW {
        scan_rest(data, n, s, i + 1, i + 3, improved)
    } else if improving(data, s, i, j) {
        scan_rest(data, n, reverse_seg(s, i, j), i, j + 1, true)
    } else {
        scan_rest(data, n, s, i, j + 1, improved)
    }
}

/// The passes of `two_opt` still to come on tour `s`: none once a pass
/// improved nothing or `remaining` is spent, else one more pass.
pub open spec fn passes_rest(data: &TspData, s: Seq<usize>, remaining: nat, improved: bool) -> Seq<usize>
    decreases remaining,
{
    if !improved || remaining == 0 {
        s
    } else {
        let pass = scan_rest(data, s.len() as int, s, 1, 3, false);
        passes_rest(data, pass.0, (remaining - 1) as nat, pass.1)
    }
}

/// The tour `two_opt` makes of `s` with at most `max_passes` passes.
pub open spec fn two_opt_spec(data: &TspData, s: Seq<usize>, max_passes: nat) -> Seq<usize> {
    passes_rest(data, s, max_passes, true)
}

/// `after` is what `two_opt` with `max_passes` passes may make of `before`:
/// a tour no longer than it with the same first city, `before` itself when
/// no move in the window improves it, strictly shorter otherwise.
pub open spec fn two_opt_done(data: &TspData, max_passes: usize, before: Seq<usize>, after: Seq<usize>) -> bool {
    &&& is_tour(after, data.n as int)
    &&& data.tour_len(after) <= data.tour_len(before)
    &&& two_opt_optimal(data, before) && max_passes > 0 ==> after == before
    &&& !two_opt_optimal(data, before) && max_passes > 0 ==> data.tour_len(after) < data.tour_len(before)
    &&& data.n > 0 ==> after[0] == before[0]
    &&& after == two_opt_spec(data, before, max_passes as nat)
}

/// Windowed 2-opt: up to `max_passes` passes over the window, reversing a
/// segment whenever that strictly shortens the tour. Returns whether the last
/// pass found no improving move, in which case the tour is 2-opt optimal in
/// the window.
pub fn two_opt(data: &TspData, tour: &mut Vec<usize>, max_passes: usize) -> (converged: bool)
    requires
        data.wf(),
        is_tour(old(tour)@, data.n as int),
    ensures
        is_tour(final(tour)@, data.n as int),
        data.tour_len(final(tour)@) <= data.tour_len(old(tour)@),
        converged ==> two_opt_optimal(data, final(tour)@),
        two_opt_optimal(data, old(tour)@) && max_passes > 0 ==> converged && final(tour)@ == old(tour)@,
        !two_opt_optimal(data, old(tour)@) && max_passes > 0 ==> data.tour_len(final(tour)@)
            < data.tour_len(old(tour)@),
        data.n > 0 ==> final(tour)@[0] == old(tour)@[0],
        final(tour)@ == two_opt_spec(data, old(tour)@, max_passes as nat),
{
    let n = tour.len();
    let ghost start = tour@;
    let mut improved = true;
    let mut passes: usize = 0;
    while improved && passes < max_passes
        invariant
            data.wf(),
            n == data.n,
            is_tour(tour@, n as int),
            data.tour_len(tour@) <= data.tour_len(start),
            n > 0 ==> tour@[0] == start[0],
            !improved ==> two_opt_optimal(data, tour@),
            two_opt_optimal(data, start) ==> tour@ == start && (passes > 0 ==> !improved),
            !two_opt_optimal(data, start) && passes > 0 ==> data.tour_len(tour@) < data.tour_len(start),
            passes == 0 ==> tour@ == start && improved,
            passes <= max_passes,
            passes_rest(data, tour@, (max_passes - passes) as nat, improved) == two_opt_spec(
                data,
                start,
                max_passes as nat,
            ),
        decreases max_passes - passes,
    {
        improved = false;
        passes = passes + 1;
        let ghost pass_start = tour@;
        let ghost first_pass = passes == 1;
        let mut i: usize = 1;
        while i + 1 < n
            invariant
                data.wf(),
                n == data.n,
                1 <= i <= n + 1,
                is_tour(tour@, n as int),
                data.tour_len(tour@) <= data.tour_len(start),
                n > 0 ==> tour@[0] == start[0],
                !improved ==> tour@ == pass_start,
                !improved ==> forall|a: int, b: int|
                    a < i && in_window(n as int, a, b) ==> !#[trigger] improving(data, tour@, a, b),
                two_opt_optimal(data, start) ==> tour@ == start && !improved,
                two_opt_optimal(data, start) ==> pass_start == start,
                first_pass ==> pass_start == start,
                !first_pass && !two_opt_optimal(data, start) ==> data.tour_len(pass_start) < data.tour_len(start),
                data.tour_len(tour@) <= data.tour_len(pass_start),
                improved ==> data.tour_len(tour@) < data.tour_len(pass_start),
                scan_rest(data, n as int, tour@, i as int, i + 2, improved) == scan_rest(
                    data,
                    n as int,
                    pass_start,
                    1,
                    3,
                    false,
                ),
                passes_rest(data, pass_start, (max_passes - passes + 1) as nat, true) == two_opt_spec(
                    data,
                    start,
                    max_passes as nat,
                ),
                1 <= passes <= max_passes,
                pass_start.len() == n,
            decreases n - i,
        {
            let limit: usize = if n < i + WINDOW { n } else { i + WINDOW };
            let mut j: usize = i + 2;
            while j < limit
                invariant
                    data.wf(),
                    n == data.n,
                    1 <= i,
                    i + 1 < n,
                    limit <= n,
                    limit <= i + WINDOW,
                    limit == n || limit == i + WINDOW,
                    i + 2 <= j,
                    is_tour(tour@, n as int),
                    data.tour_len(tour@) <= data.tour_len(start),
                    n > 0 ==> tour@[0] == start[0],
                    !improved ==> tour@ == pass_start,
                    !improved ==> forall|a: int, b: int|
                        a < i && in_window(n as int, a, b) ==> !#[trigger] improving(data, tour@, a, b),
                    !improved ==> forall|b: int|
                        b < j && in_window(n as int, i as int, b) ==> !#[trigger] improving(
                            data,
                            tour@,
                            i as int,
                            b,
                        ),
                    two_opt_optimal(data, start) ==> tour@ == start && !improved,
                    two_opt_optimal(data, start) ==> pass_start == start,
                    first_pass ==> pass_start == start,
                    !first_pass && !two_opt_optimal(data, start) ==> data.tour_len(pass_start) < data.tour_len(start),
                    data.tour_len(tour@) <= data.tour_len(pass_start),
                    improved ==> data.tour_len(tour@) < data.tour_len(pass_start),
                    scan_rest(data, n as int, tour@, i as int, j as int, improved) == scan_rest(
                        data,
                        n as int,
                        pass_start,
                        1,
                        3,
                        false,
                    ),
                    passes_rest(data, pass_start, (max_passes - passes + 1) as nat, true) == two_opt_spec(
                        data,
                        start,
                        max_passes as nat,
                    ),
                    1 <= passes <= max_passes,
                    pass_start.len() == n,
                decreases limit - j,
            {
                let u = tour[i - 1];
                let v = tour[i];
                let w = tour[j];
                let z = tour[(j + 1) % n];
                let gain_new = data.dist(u, w) + data.dist(v, z);
                let cost_old = data.dist(u, v) + data.dist(w, z);
                assert(gain_new < cost_old <==> improving(data, tour@, i as int, j as int));
                if gain_new < cost_old {
                    let ghost s = tour@;
                    reverse_segment(tour, i, j);
                    proof {
                        lemma_reversal_len(data, s, tour@, i as int, j as int);
                        lemma_reversed_is_tour(s, tour@, n as int, i as int, j as int);
                        assert(tour@[0] == s[0]);
                        assert(tour@ =~= reverse_seg(s, i as int, j as int));
                    }
                    improved = true;
                }
                j = j + 1;
            }
            i = i + 1;
        }
    }
    !improved
}

/// Every city has a candidate list, and every entry is a city.
pub open spec fn valid_candidates(candidates: Seq<Vec<usize>>, n: int) -> bool {
    &&& candidates.len() == n
    &&& forall|c: int| 0 <= c < n ==> in_range(#[trigger] candidates[c]@, n)
}

/// `s` with the block of `len` cities at position `i` moved to follow
/// position `t` (which lies outside the block and its two neighbours).
pub open spec fn relocated(s: Seq<usize>, i: int, len: int, t: int) -> Seq<usize> {
    if t > i {
        s.subrange(0, i) + s.subrange(i + len, t + 1) + s.subrange(i, i + len) + s.subrange(
            t + 1,
            s.len() as int,
        )
    } else {
        s.subrange(0, t + 1) + s.subrange(i, i + len) + s.subrange(t + 1, i) + s.subrange(
            i + len,
            s.len() as int,
        )
    }
}

/// Position in `s` of the city found at position `k` of
/// `relocated(s, i, len, t)`.
pub open spec fn relocated_source(i: int, len: int, t: int, k: int) -> int {
    if t > i {
        if k < i {
            k
        } else if k < t + 1 - len {
            k + len
        } else if k < t + 1 {
            k - (t + 1 - len) + i
        } else {
            k
        }
    } else {
        if k < t + 1 {
            k
        } else if k < t + 1 + len {
            i + k - (t + 1)
        } else if k < i + len {
            k - len
        } else {
            k
        }
    }
}

/// Each position of a relocated sequence holds the city from its source position.
proof fn lemma_relocated_index(s: Seq<usize>, n: int, i: int, len: int, t: int)
    requires
        s.len() == n,
        1 <= len,
        0 <= i,
        i + len <= n,
        0 <= t < n,
        t < i || i + len <= t,
    ensures
        relocated(s, i, len, t).len() == n,
        forall|k: int|
            0 <= k < n ==> #[trigger] relocated(s, i, len, t)[k] == s[relocated_source(i, len, t, k)]
                && 0 <= relocated_source(i, len, t, k) < n,
{
    let r = relocated(s, i, len, t);
    assert(r.len() == n);
    assert forall|k: int| 0 <= k < n implies #[trigger] r[k] == s[relocated_source(i, len, t, k)]
        && 0 <= relocated_source(i, len, t, k) < n by {
        if t > i {
            let a = s.subrange(0, i);
            let b = s.subrange(i + len, t + 1);
            let c = s.subrange(i, i + len);
            let d = s.subrange(t + 1, n);
            assert(r == a + b + c + d);
            if k < i {
                assert(r[k] == a[k]);
            } else if k < t + 1 - len {
                assert(r[k] == (a + b)[k]);
                assert(r[k] == b[k - i]);
            } else if k < t + 1 {
                assert(r[k] == (a + b + c)[k]);
                assert(r[k] == c[k - (t + 1 - len)]);
            } else {
                assert(r[k] == d[k - (t + 1)]);
            }
        } else {
            let a = s.subrange(0, t + 1);
            let c = s.subrange(i, i + len);
            let b = s.subrange(t + 1, i);
            let d = s.subrange(i + len, n);
            assert(r == a + c + b + d);
            if k < t + 1 {
                assert(r[k] == a[k]);
            } else if k < t + 1 + len {
                assert(r[k] == (a + c)[k]);
                assert(r[k] == c[k - (t + 1)]);
            } else if k < i + len {
                assert(r[k] == (a + c + b)[k]);
                assert(r[k] == b[k - (t + 1 + len)]);
            } else {
                assert(r[k] == d[k - (i + len)]);
            }
        }
    }
}

/// Moving a block of a tour gives a tour.
proof fn lemma_relocated_is_tour(s: Seq<usize>, n: int, i: int, len: int, t: int)
    requires
        is_tour(s, n),
        1 <= len,
        0 <= i,
        i + len <= n,
        0 <= t < n,
        t < i || i + len <= t,
    ensures
        is_tour(relocated(s, i, len, t), n),
{
    let r = relocated(s, i, len, t);
    lemma_relocated_index(s, n, i, len, t);
    assert forall|p: int, q: int| 0 <= p < q < r.len() implies r[p] != r[q] by {
        assert(r[p] == s[relocated_source(i, len, t, p)]);
        assert(r[q] == s[relocated_source(i, len, t, q)]);
    }
    assert forall|k: int| 0 <= k < r.len() implies #[trigger] r[k] < n by {
        assert(r[k] == s[relocated_source(i, len, t, k)]);
    }
}

proof fn lemma_seg_shift(data: &TspData, s: Seq<usize>, r: Seq<usize>, a: int, b: int, o: int)
    requires
        forall|k: int| a <= k <= b ==> #[trigger] r[k + o] == s[k],
    ensures
        seg_len(data, r, a + o, b + o) == seg_len(data, s, a, b),
    decreases b - a,
{
    if a < b {
        lemma_seg_shift(data, s, r, a, b - 1, o);
        assert(r[b - 1 + o] == s[b - 1]);
        assert(r[b + o] == s[b]);
    }
}

/// The change in length of moving the block `s[i..i+len]` to follow
/// position `t`: the block's two edges and the edge at `t` are replaced by
/// the bridge over the block's old place and the two edges into its new one.
pub open spec fn relocation_delta(data: &TspData, s: Seq<usize>, i: int, len: int, t: int) -> int {
    let n = s.len() as int;
    let prev = s[if i == 0 { n - 1 } else { i - 1 }] as int;
    let first = s[i] as int;
    let last = s[i + len - 1] as int;
    let next = s[i + len] as int;
    let target = s[t] as int;
    let after = s[if t + 1 == n { 0 } else { t + 1 }] as int;
    (data.d(target, first) + data.d(last, after) - data.d(target, after)) - (data.d(prev, first)
        + data.d(last, next) - data.d(prev, next))
}

/// `lemma_relocated_len` when moving forward, neither end of the sequence involved.
#[verifier::rlimit(40)]
proof fn lemma_relocated_len_forward(data: &TspData, s: Seq<usize>, i: int, len: int, t: int)
    requires
        data.wf(),
        is_tour(s, data.n as int),
        1 <= len,
        0 <= i,
        i + len + 1 < s.len(),
        0 <= t < s.len(),
        t < i || i + len < t,
        t != (if i == 0 { s.len() - 1 } else { i - 1 }),
        (t > i && i > 0 && t < s.len() - 1),
    ensures
        data.tour_len(relocated(s, i, len, t)) == data.tour_len(s) + relocation_delta(data, s, i, len, t),
{
    let n = s.len() as int;
    let r = relocated(s, i, len, t);
    lemma_relocated_index(s, n, i, len, t);
    lemma_path_is_seg(data, s, n - 1);
    lemma_path_is_seg(data, r, n - 1);
    lemma_seg_split(data, s, 0, i - 1, n - 1);
    lemma_seg_split(data, s, i - 1, i, n - 1);
    lemma_seg_split(data, s, i, i + len - 1, n - 1);
    lemma_seg_split(data, s, i + len - 1, i + len, n - 1);
    lemma_seg_split(data, s, i + len, t, n - 1);
    lemma_seg_split(data, s, t, t + 1, n - 1);
    lemma_seg_one(data, s, i - 1);
    lemma_seg_one(data, s, i + len - 1);
    lemma_seg_one(data, s, t);
    lemma_seg_split(data, r, 0, i - 1, n - 1);
    lemma_seg_split(data, r, i - 1, i, n - 1);
    lemma_seg_split(data, r, i, t - len, n - 1);
    lemma_seg_split(data, r, t - len, t + 1 - len, n - 1);
    lemma_seg_split(data, r, t + 1 - len, t, n - 1);
    lemma_seg_split(data, r, t, t + 1, n - 1);
    lemma_seg_one(data, r, i - 1);
    lemma_seg_one(data, r, t - len);
    lemma_seg_one(data, r, t);
    assert(relocated_source(i, len, t, i - 1) == i - 1);
    assert(relocated_source(i, len, t, i) == i + len);
    assert(relocated_source(i, len, t, t - len) == t);
    assert(relocated_source(i, len, t, t + 1 - len) == i);
    assert(relocated_source(i, len, t, t) == i + len - 1);
    assert(relocated_source(i, len, t, t + 1) == t + 1);
    assert(relocated_source(i, len, t, n - 1) == n - 1);
    assert(relocated_source(i, len, t, 0) == 0);
    assert forall|k: int| 0 <= k <= i - 1 implies #[trigger] r[k + 0] == s[k] by {
        assert(relocated_source(i, len, t, k) == k);
    }
    lemma_seg_shift(data, s, r, 0, i - 1, 0);
    assert forall|k: int| i + len <= k <= t implies #[trigger] r[k + (0 - len)] == s[k] by {
        assert(relocated_source(i, len, t, k - len) == k);
    }
    lemma_seg_shift(data, s, r, i + len, t, 0 - len);
    assert forall|k: int| i <= k <= i + len - 1 implies #[trigger] r[k + (t + 1 - len - i)] == s[k] by {
        assert(relocated_source(i, len, t, k + (t + 1 - len - i)) == k);
    }
    lemma_seg_shift(data, s, r, i, i + len - 1, t + 1 - len - i);
    assert forall|k: int| t + 1 <= k <= n - 1 implies #[trigger] r[k + 0] == s[k] by {
        assert(relocated_source(i, len, t, k) == k);
    }
    lemma_seg_shift(data, s, r, t + 1, n - 1, 0);
}

/// `lemma_relocated_len` when moving forward the block that opens the sequence.
#[verifier::rlimit(40)]
proof fn lemma_relocated_len_from_start(data: &TspData, s: Seq<usize>, i: int, len: int, t: int)
    requires
        data.wf(),
        is_tour(s, data.n as int),
        1 <= len,
        0 <= i,
        i + len + 1 < s.len(),
        0 <= t < s.len(),
        t < i || i + len < t,
        t != (if i == 0 { s.len() - 1 } else { i - 1 }),
        (t > i && i == 0),
    ensures
        data.tour_len(relocated(s, i, len, t)) == data.tour_len(s) + relocation_delta(data, s, i, len, t),
{
    let n = s.len() as int;
    let r = relocated(s, i, len, t);
    lemma_relocated_index(s, n, i, len, t);
    lemma_path_is_seg(data, s, n - 1);
    lemma_path_is_seg(data, r, n - 1);
    lemma_seg_split(data, s, 0, len - 1, n - 1);
    lemma_seg_split(data, s, len - 1, len, n - 1);
    lemma_seg_split(data, s, len, t, n - 1);
    lemma_seg_split(data, s, t, t + 1, n - 1);
    lemma_seg_one(data, s, len - 1);
    lemma_seg_one(data, s, t);
    lemma_seg_split(data, r, 0, t - len, n - 1);
    lemma_seg_split(data, r, t - len, t + 1 - len, n - 1);
    lemma_seg_split(data, r, t + 1 - len, t, n - 1);
    lemma_seg_split(data, r, t, t + 1, n - 1);
    lemma_seg_one(data, r, t - len);
    lemma_seg_one(data, r, t);
    assert(relocated_source(i, len, t, t - len) == t);
    assert(relocated_source(i, len, t, t + 1 - len) == i);
    assert(relocated_source(i, len, t, t) == i + len - 1);
    assert(relocated_source(i, len, t, t + 1) == t + 1);
    assert(relocated_source(i, len, t, n - 1) == n - 1);
    assert(relocated_source(i, len, t, 0) == len);
    assert forall|k: int| len <= k <= t implies #[trigger] r[k + (0 - len)] == s[k] by {
        assert(relocated_source(i, len, t, k - len) == k);
    }
    lemma_seg_shift(data, s, r, len, t, 0 - len);
    assert forall|k: int| 0 <= k <= len - 1 implies #[trigger] r[k + (t + 1 - len)] == s[k] by {
        assert(relocated_source(i, len, t, k + (t + 1 - len)) == k);
    }
    lemma_seg_shift(data, s, r, 0, len - 1, t + 1 - len);
    assert forall|k: int| t + 1 <= k <= n - 1 implies #[trigger] r[k + 0] == s[k] by {
        assert(relocated_source(i, len, t, k) == k);
    }
    lemma_seg_shift(data, s, r, t + 1, n - 1, 0);
}

/// `lemma_relocated_len` when moving forward to the end of the sequence.
#[verifier::rlimit(40)]
proof fn lemma_relocated_len_to_end(data: &TspData, s: Seq<usize>, i: int, len: int, t: int)
    requires
        data.wf(),
        is_tour(s, data.n as int),
        1 <= len,
        0 <= i,
        i + len + 1 < s.len(),
        0 <= t < s.len(),
        t < i || i + len < t,
        t != (if i == 0 { s.len() - 1 } else { i - 1 }),
        (t > i && i > 0 && t == s.len() - 1),
    ensures
        data.tour_len(relocated(s, i, len, t)) == data.tour_len(s) + relocation_delta(data, s, i, len, t),
{
    let n = s.len() as int;
    let r = relocated(s, i, len, t);
    lemma_relocated_index(s, n, i, len, t);
    lemma_path_is_seg(data, s, n - 1);
    lemma_path_is_seg(data, r, n - 1);
    lemma_seg_split(data, s, 0, i - 1, n - 1);
    lemma_seg_split(data, s, i - 1, i, n - 1);
    lemma_seg_split(data, s, i, i + len - 1, n - 1);
    lemma_seg_split(data, s, i + len - 1, i + len, n - 1);
    lemma_seg_one(data, s, i - 1);
    lemma_seg_one(data, s, i + len - 1);
    lemma_seg_split(data, r, 0, i - 1, n - 1);
    lemma_seg_split(data, r, i - 1, i, n - 1);
    lemma_seg_split(data, r, i, n - 1 - len, n - 1);
    lemma_seg_split(data, r, n - 1 - len, n - len, n - 1);
    lemma_seg_one(data, r, i - 1);
    lemma_seg_one(data, r, n - 1 - len);
    assert(relocated_source(i, len, t, i - 1) == i - 1);
    assert(relocated_source(i, len, t, i) == i + len);
    assert(relocated_source(i, len, t, n - 1 - len) == n - 1);
    assert(relocated_source(i, len, t, n - len) == i);
    assert(relocated_source(i, len, t, n - 1) == i + len - 1);
    assert(relocated_source(i, len, t, 0) == 0);
    assert forall|k: int| 0 <= k <= i - 1 implies #[trigger] r[k + 0] == s[k] by {
        assert(relocated_source(i, len, t, k) == k);
    }
    lemma_seg_shift(data, s, r, 0, i - 1, 0);
    assert forall|k: int| i + len <= k <= n - 1 implies #[trigger] r[k + (0 - len)] == s[k] by {
        assert(relocated_source(i, len, t, k - len) == k);
    }
    lemma_seg_shift(data, s, r, i + len, n - 1, 0 - len);
    assert forall|k: int| i <= k <= i + len - 1 implies #[trigger] r[k + (n - len - i)] == s[k] by {
        assert(relocated_source(i, len, t, k + (n - len - i)) == k);
    }
    lemma_seg_shift(data, s, r, i, i + len - 1, n - len - i);
}

/// `lemma_relocated_len` when moving backward.
#[verifier::rlimit(40)]
proof fn lemma_relocated_len_backward(data: &TspData, s: Seq<usize>, i: int, len: int, t: int)
    requires
        data.wf(),
        is_tour(s, data.n as int),
        1 <= len,
        0 <= i,
        i + len + 1 < s.len(),
        0 <= t < s.len(),
        t < i || i + len < t,
        t != (if i == 0 { s.len() - 1 } else { i - 1 }),
        (t < i),
    ensures
        data.tour_len(relocated(s, i, len, t)) == data.tour_len(s) + relocation_delta(data, s, i, len, t),
{
    let n = s.len() as int;
    let r = relocated(s, i, len, t);
    lemma_relocated_index(s, n, i, len, t);
    lemma_path_is_seg(data, s, n - 1);
    lemma_path_is_seg(data, r, n - 1);
    lemma_seg_split(data, s, 0, t, n - 1);
    lemma_seg_split(data, s, t, t + 1, n - 1);
    lemma_seg_split(data, s, t + 1, i - 1, n - 1);
    lemma_seg_split(data, s, i - 1, i, n - 1);
    lemma_seg_split(data, s, i, i + len - 1, n - 1);
    lemma_seg_split(data, s, i + len - 1, i + len, n - 1);
    lemma_seg_one(data, s, t);
    lemma_seg_one(data, s, i - 1);
    lemma_seg_one(data, s, i + len - 1);
    lemma_seg_split(data, r, 0, t, n - 1);
    lemma_seg_split(data, r, t, t + 1, n - 1);
    lemma_seg_split(data, r, t + 1, t + len, n - 1);
    lemma_seg_split(data, r, t + len, t + 1 + len, n - 1);
    lemma_seg_split(data, r, t + 1 + len, i + len - 1, n - 1);
    lemma_seg_split(data, r, i + len - 1, i + len, n - 1);
    lemma_seg_one(data, r, t);
    lemma_seg_one(data, r, t + len);
    lemma_seg_one(data, r, i + len - 1);
    assert(relocated_source(i, len, t, t) == t);
    assert(relocated_source(i, len, t, t + 1) == i);
    assert(relocated_source(i, len, t, t + len) == i + len - 1);
    assert(relocated_source(i, len, t, t + 1 + len) == t + 1);
    assert(relocated_source(i, len, t, i + len - 1) == i - 1);
    assert(relocated_source(i, len, t, i + len) == i + len);
    assert(relocated_source(i, len, t, n - 1) == n - 1);
    assert(relocated_source(i, len, t, 0) == 0);
    assert forall|k: int| 0 <= k <= t implies #[trigger] r[k + 0] == s[k] by {
        assert(relocated_source(i, len, t, k) == k);
    }
    lemma_seg_shift(data, s, r, 0, t, 0);
    assert forall|k: int| i <= k <= i + len - 1 implies #[trigger] r[k + (t + 1 - i)] == s[k] by {
        assert(relocated_source(i, len, t, k + (t + 1 - i)) == k);
    }
    lemma_seg_shift(data, s, r, i, i + len - 1, t + 1 - i);
    assert forall|k: int| t + 1 <= k <= i - 1 implies #[trigger] r[k + len] == s[k] by {
        assert(relocated_source(i, len, t, k + len) == k);
    }
    lemma_seg_shift(data, s, r, t + 1, i - 1, len);
    assert forall|k: int| i + len <= k <= n - 1 implies #[trigger] r[k + 0] == s[k] by {
        assert(relocated_source(i, len, t, k) == k);
    }
    lemma_seg_shift(data, s, r, i + len, n - 1, 0);
}

/// Moving a block changes the tour length by exactly `relocation_delta`.
pub proof fn lemma_relocated_len(data: &TspData, s: Seq<usize>, i: int, len: int, t: int)
    requires
        data.wf(),
        is_tour(s, data.n as int),
        1 <= len,
        0 <= i,
        i + len + 1 < s.len(),
        0 <= t < s.len(),
        t < i || i + len < t,
        t != (if i == 0 { s.len() - 1 } else { i - 1 }),
    ensures
        data.tour_len(relocated(s, i, len, t)) == data.tour_len(s) + relocation_delta(data, s, i, len, t),
{
    if t > i && i > 0 && t < s.len() - 1 {
        lemma_relocated_len_forward(data, s, i, len, t);
    } else if t > i && i == 0 {
        lemma_relocated_len_from_start(data, s, i, len, t);
    } else if t > i {
        lemma_relocated_len_to_end(data, s, i, len, t);
    } else {
        lemma_relocated_len_backward(data, s, i, len, t);
    }
}

/// Appends `s[a..b]` to `out`.
fn push_range(out: &mut Vec<usize>, s: &Vec<usize>, a: usize, b: usize)
    requires
        a <= b <= s@.len(),
    ensures
        final(out)@ == old(out)@ + s@.subrange(a as int, b as int),
{
    let mut k: usize = a;
    while k < b
        invariant
            a <= k <= b,
            b <= s@.len(),
            out@ == old(out)@ + s@.subrange(a as int, k as int),
        decreases b - k,
    {
        out.push(s[k]);
        k = k + 1;
        assert(out@ == old(out)@ + s@.subrange(a as int, k as int));
    }
}

/// The tour with the block `s[i..i+len]` moved to follow position `t`.
fn relocate_block(s: &Vec<usize>, i: usize, len: usize, t: usize) -> (r: Vec<usize>)
    requires
        s@.len() <= MAX_CITIES,
        1 <= len,
        i + len <= s@.len(),
        t < s@.len(),
        t < i || i + len <= t,
    ensures
        r@ == relocated(s@, i as int, len as int, t as int),
{
    let mut out: Vec<usize> = Vec::new();
    if t > i {
        push_range(&mut out, s, 0, i);
        push_range(&mut out, s, i + len, t + 1);
        push_range(&mut out, s, i, i + len);
        push_range(&mut out, s, t + 1, s.len());
    } else {
        push_range(&mut out, s, 0, t + 1);
        push_range(&mut out, s, i, i + len);
        push_range(&mut out, s, t + 1, i);
        push_range(&mut out, s, i + len, s.len());
    }
    out
}

/// Position of each city in the tour.
fn positions(tour: &Vec<usize>, n: usize) -> (pos: Vec<usize>)
    requires
        is_tour(tour@, n as int),
    ensures
        pos@.len() == n,
        forall|k: int| 0 <= k < n ==> pos@[#[trigger] tour@[k] as int] == k,
        forall|c: int| 0 <= c < n ==> #[trigger] pos@[c] < n,
{
    let mut pos: Vec<usize> = Vec::new();
    let mut c: usize = 0;
    while c < n
        invariant
            c <= n,
            pos@.len() == c,
            forall|a: int| 0 <= a < c ==> #[trigger] pos@[a] == 0,
        decreases n - c,
    {
        pos.push(0);
        c = c + 1;
    }
    let mut k: usize = 0;
    while k < n
        invariant
            is_tour(tour@, n as int),
            k <= n,
            pos@.len() == n,
            forall|p: int| 0 <= p < k ==> pos@[#[trigger] tour@[p] as int] == p,
            forall|a: int| 0 <= a < n ==> #[trigger] pos@[a] < n,
        decreases n - k,
    {
        let ghost before = pos@;
        pos.set(tour[k], k);
        assert forall|p: int| 0 <= p < k + 1 implies pos@[#[trigger] tour@[p] as int] == p by {
            if p < k {
                assert(tour@[p] != tour@[k as int]);
                assert(before[tour@[p] as int] == p);
            }
        }
        k = k + 1;
    }
    pos
}

/// Moving the block of `len` cities at position `i` to follow position `t`
/// is a move the Or-opt scan looks at (a block of one to three cities, not
/// ending the tour; `s[t]` a candidate of the block's first city, outside the
/// block and its predecessor), and it shortens the tour.
pub open spec fn improving_relocation(
    data: &TspData,
    candidates: Seq<Vec<usize>>,
    s: Seq<usize>,
    i: int,
    len: int,
    t: int,
) -> bool {
    let n = s.len() as int;
    &&& 1 <= len <= 3
    &&& 0 <= i
    &&& i + len + 1 < n
    &&& 0 <= t < n
    &&& t != (if i == 0 { n - 1 } else { i - 1 })
    &&& (t < i || i + len < t)
    &&& candidates[s[i] as int]@.contains(s[t])
    &&& relocation_delta(data, s, i, len, t) < 0
}

/// Some block relocation that the Or-opt scan looks at shortens the tour.
pub open spec fn has_improving_relocation(data: &TspData, candidates: Seq<Vec<usize>>, s: Seq<usize>) -> bool {
    exists|i: int, len: int, t: int| #[trigger] improving_relocation(data, candidates, s, i, len, t)
}

/// Position of city `c` in the tour `s`.
pub open spec fn position_of(s: Seq<usize>, c: usize) -> int {
    choose|k: int| 0 <= k < s.len() && s[k] == c
}

/// The scan takes the move of the block of `len` cities at `i` to follow
/// position `t`: `t` is outside the block and its predecessor, and the move
/// shortens the tour.
pub open spec fn scan_accepts(data: &TspData, s: Seq<usize>, i: int, len: int, t: int) -> bool {
    &&& t != (if i == 0 { s.len() - 1 } else { i - 1 })
    &&& (t < i || i + len < t)
    &&& relocation_delta(data, s, i, len, t) < 0
}

/// The rest of one Or-opt scan over blocks of `len` cities, from block start
/// `i` and candidate index `c` on: the tour after the first move the scan
/// takes, or `None` when it takes none.
pub open spec fn oropt_scan(
    data: &TspData,
    candidates: Seq<Vec<usize>>,
    s: Seq<usize>,
    len: int,
    i: int,
    c: int,
) -> Option<Seq<usize>>
    decreases s.len() - i, (if 0 <= i < s.len() { candidates[s[i] as int]@.len() as int } else { 0 }) - c,
{
    if i < 0 || i >= s.len() {
        None
    } else if i + len + 1 >= s.len() || c < 0 || c >= candidates[s[i] as int]@.len() {
        oropt_scan(data, candidates, s, len, i + 1, 0)
    } else {
        let t = position_of(s, candidates[s[i] as int]@[c]);
        if scan_accepts(data, s, i, len, t) {
            Some(relocated(s, i, len, t))
        } else {
            oropt_scan(data, candidates, s, len, i, c + 1)
        }
    }
}

/// Repeated Or-opt scans over blocks of `len` cities, `moves` moves made so
/// far: rescans after each move, until a scan takes none or `MAX_MOVES`
/// moves are made.
pub open spec fn oropt_block(data: &TspData, candidates: Seq<Vec<usize>>, s: Seq<usize>, len: int, moves: int) -> Seq<usize>
    decreases MAX_MOVES - moves,
{
    if moves >= MAX_MOVES {
        s
    } else {
        match oropt_scan(data, candidates, s, len, 0, 0) {
            None => s,
            Some(t) => oropt_block(data, candidates, t, len, moves + 1),
        }
    }
}

/// Or-opt over block sizes `size`, `size - 1`, ..., 1 in turn.
pub open spec fn blocks_from(data: &TspData, candidates: Seq<Vec<usize>>, s: Seq<usize>, size: int) -> Seq<usize>
    decreases size,
{
    if size <= 0 {
        s
    } else {
        blocks_from(data, candidates, oropt_block(data, candidates, s, size, 0), size - 1)
    }
}

/// The tour `or_opt` makes of `s`.
pub open spec fn or_opt_spec(data: &TspData, candidates: Seq<Vec<usize>>, s: Seq<usize>) -> Seq<usize> {
    blocks_from(data, candidates, s, 3)
}

/// Block Or-opt: for block sizes 3, 2 and 1, and each block start, looks at
/// the candidates of the block's first city; when putting the block right
/// after a candidate strictly shortens the tour, the block is moved there and
/// the scan restarts; at most `MAX_MOVES` moves are made per block size.
/// Returns whether any move was made.
pub fn or_opt(data: &TspData, candidates: &Vec<Vec<usize>>, tour: &mut Vec<usize>) -> (improved: bool)
    requires
        data.wf(),
        is_tour(old(tour)@, data.n as int),
        valid_candidates(candidates@, data.n as int),
    ensures
        is_tour(final(tour)@, data.n as int),
        data.tour_len(final(tour)@) <= data.tour_len(old(tour)@),
        improved <==> data.tour_len(final(tour)@) < data.tour_len(old(tour)@),
        improved <==> has_improving_relocation(data, candidates@, old(tour)@),
        !improved ==> final(tour)@ == old(tour)@,
        final(tour)@ == or_opt_spec(data, candidates@, old(tour)@),
{
    let n = tour.len();
    let ghost start = tour@;
    let mut improved = false;
    let mut pos = positions(tour, n);
    let mut block: usize = 3;
    while block >= 1
        invariant
            data.wf(),
            n == data.n,
            valid_candidates(candidates@, n as int),
            is_tour(tour@, n as int),
            data.tour_len(tour@) <= data.tour_len(start),
            improved ==> data.tour_len(tour@) < data.tour_len(start),
            !improved ==> tour@ == start,
            pos@.len() == n,
            forall|k: int| 0 <= k < n ==> pos@[#[trigger] tour@[k] as int] == k,
            block <= 3,
            improved ==> has_improving_relocation(data, candidates@, start),
            !improved ==> forall|i: int, len: int, t: int|
                block < len ==> !#[trigger] improving_relocation(data, candidates@, start, i, len, t),
            blocks_from(data, candidates@, tour@, block as int) == or_opt_spec(data, candidates@, start),
        decreases block,
    {
        let mut searching = true;
        let mut moves: usize = 0;
        while searching && moves < MAX_MOVES
            invariant
                data.wf(),
                n == data.n,
                valid_candidates(candidates@, n as int),
                is_tour(tour@, n as int),
                data.tour_len(tour@) <= data.tour_len(start),
                improved ==> data.tour_len(tour@) < data.tour_len(start),
                !improved ==> tour@ == start,
                pos@.len() == n,
                forall|k: int| 0 <= k < n ==> pos@[#[trigger] tour@[k] as int] == k,
                1 <= block <= 3,
                moves <= MAX_MOVES,
                improved ==> has_improving_relocation(data, candidates@, start),
                !improved ==> forall|i: int, len: int, t: int|
                    block < len ==> !#[trigger] improving_relocation(data, candidates@, start, i, len, t),
                !improved ==> moves == 0,
                !improved && !searching ==> forall|i: int, t: int|
                    !#[trigger] improving_relocation(data, candidates@, start, i, block as int, t),
                blocks_from(
                    data,
                    candidates@,
                    if searching {
                        oropt_block(data, candidates@, tour@, block as int, moves as int)
                    } else {
                        tour@
                    },
                    block - 1,
                ) == or_opt_spec(data, candidates@, start),
            decreases MAX_MOVES - moves, if searching { 1int } else { 0int },
        {
            searching = false;
            let ghost moves0 = moves;
            let ghost scan_start = tour@;
            let mut i: usize = 0;
            while i < n && !searching
                invariant
                    data.wf(),
                    n == data.n,
                    valid_candidates(candidates@, n as int),
                    is_tour(tour@, n as int),
                    data.tour_len(tour@) <= data.tour_len(start),
                    improved ==> data.tour_len(tour@) < data.tour_len(start),
                    !improved ==> tour@ == start,
                    pos@.len() == n,
                    forall|k: int| 0 <= k < n ==> pos@[#[trigger] tour@[k] as int] == k,
                    1 <= block <= 3,
                    moves <= MAX_MOVES,
                    searching ==> improved,
                    !searching ==> moves == moves0 && moves < MAX_MOVES,
                    searching ==> moves == moves0 + 1,
                    !improved ==> moves0 == 0,
                    i <= n,
                    improved ==> has_improving_relocation(data, candidates@, start),
                    !improved ==> forall|i: int, len: int, t: int|
                        block < len ==> !#[trigger] improving_relocation(data, candidates@, start, i, len, t),
                    !improved ==> forall|i2: int, t: int|
                        i2 < i ==> !#[trigger] improving_relocation(data, candidates@, start, i2, block as int, t),
                    !searching ==> tour@ == scan_start,
                    searching ==> oropt_scan(data, candidates@, scan_start, block as int, 0, 0) == Some(tour@),
                    moves0 < MAX_MOVES,
                    blocks_from(
                        data,
                        candidates@,
                        oropt_block(data, candidates@, scan_start, block as int, moves0 as int),
                        block - 1,
                    ) == or_opt_spec(data, candidates@, start),
                    !searching ==> oropt_scan(data, candidates@, scan_start, block as int, i as int, 0)
                        == oropt_scan(data, candidates@, scan_start, block as int, 0, 0),
                decreases n - i, if searching { 0int } else { 1int },
            {
                if i + block + 1 < n {
                    let first = tour[i];
                    let last = tour[i + block - 1];
                    let prev_idx: usize = if i == 0 { n - 1 } else { i - 1 };
                    let prev = tour[prev_idx];
                    let next = tour[i + block];
                    let removed = data.dist(prev, first) as i64 + data.dist(last, next) as i64;
                    let reduction: i64 = removed - data.dist(prev, next) as i64;
                    let ghost ts = tour@;
                    let list = &candidates[first];
                    let mut c: usize = 0;
                    while c < list.len() && !searching
                        invariant
                            data.wf(),
                            n == data.n,
                            valid_candidates(candidates@, n as int),
                            *list == candidates@[first as int],
                            is_tour(tour@, n as int),
                            data.tour_len(tour@) <= data.tour_len(start),
                            improved ==> data.tour_len(tour@) < data.tour_len(start),
                            !improved ==> tour@ == start,
                            pos@.len() == n,
                            forall|k: int| 0 <= k < n ==> pos@[#[trigger] tour@[k] as int] == k,
                            1 <= block <= 3,
                            moves <= MAX_MOVES,
                            searching ==> improved,
                            !searching ==> moves == moves0 && moves < MAX_MOVES,
                            searching ==> moves == moves0 + 1,
                            i + block + 1 < n,
                            !searching ==> tour@ == ts,
                            ts.len() == n,
                            first < n,
                            last < n,
                            first == ts[i as int],
                            last == ts[i + block - 1],
                            prev_idx == (if i == 0 { n - 1 } else { i - 1 }),
                            prev == ts[prev_idx as int],
                            next == ts[i + block],
                            reduction == data.d(prev as int, first as int) + data.d(last as int, next as int)
                                - data.d(prev as int, next as int),
                            c <= list@.len(),
                            improved ==> has_improving_relocation(data, candidates@, start),
                            !improved ==> forall|i: int, len: int, t: int|
                                block < len ==> !#[trigger] improving_relocation(data, candidates@, start, i, len, t),
                            !improved ==> forall|i2: int, t: int|
                                i2 < i ==> !#[trigger] improving_relocation(data, candidates@, start, i2, block as int, t),
                            !improved ==> forall|p: int, t: int|
                                #![trigger list@[p], improving_relocation(data, candidates@, start, i as int, block as int, t)]
                                0 <= p < c && 0 <= t < n && start[t] == list@[p] ==> !improving_relocation(
                                    data,
                                    candidates@,
                                    start,
                                    i as int,
                                    block as int,
                                    t,
                                ),
                            !searching ==> tour@ == scan_start,
                            searching ==> oropt_scan(data, candidates@, scan_start, block as int, 0, 0) == Some(tour@),
                            moves0 < MAX_MOVES,
                            blocks_from(
                                data,
                                candidates@,
                                oropt_block(data, candidates@, scan_start, block as int, moves0 as int),
                                block - 1,
                            ) == or_opt_spec(data, candidates@, start),
                            ts == scan_start,
                            !searching ==> oropt_scan(data, candidates@, scan_start, block as int, i as int, c as int)
                                == oropt_scan(data, candidates@, scan_start, block as int, 0, 0),
                        decreases list@.len() - c, if searching { 0int } else { 1int },
                    {
                        let target = list[c];
                        assert(target < n);
                        let t = pos[target];
                        proof {
                            lemma_tour_has_all(tour@, n, target);
                            let k = choose|k: int| 0 <= k < tour@.len() && tour@[k] == target;
                            assert(pos@[tour@[k] as int] == k);
                        }
                        let ghost t_unique = forall|t2: int| 0 <= t2 < n && tour@[t2] == target ==> t2 == t;
                        proof {
                            assert forall|t2: int| 0 <= t2 < n && tour@[t2] == target implies t2 == t by {
                                assert(pos@[tour@[t2] as int] == t2);
                            }
                            if !searching {
                                let k = position_of(tour@, target);
                                assert(0 <= k < tour@.len() && tour@[k] == target);
                                assert(position_of(scan_start, candidates@[scan_start[i as int] as int]@[c as int]) == t);
                            }
                        }
                        if t != prev_idx && (t < i || i + block < t) {
                            let after_idx: usize = if t + 1 == n { 0 } else { t + 1 };
                            let after = tour[after_idx];
                            let inserted = data.dist(target, first) as i64 + data.dist(last, after) as i64;
                            let added: i64 = inserted - data.dist(target, after) as i64;
                            if reduction > added {
                                let moved = relocate_block(tour, i, block, t);
                                proof {
                                    if !improved {
                                        assert(list@.contains(target)) by {
                                            assert(list@[c as int] == target);
                                        }
                                        assert(improving_relocation(data, candidates@, start, i as int, block as int, t as int));
                                    }
                                    lemma_relocated_is_tour(tour@, n as int, i as int, block as int, t as int);
                                    lemma_relocated_len(data, tour@, i as int, block as int, t as int);
                                }
                                proof {
                                    assert(scan_accepts(data, scan_start, i as int, block as int, t as int));
                                    assert(oropt_scan(data, candidates@, scan_start, block as int, i as int, c as int)
                                        == Some(moved@));
                                }
                                *tour = moved;
                                pos = positions(tour, n);
                                improved = true;
                                searching = true;
                                moves = moves + 1;
                            }
                        }
                        proof {
                            if !searching {
                                assert(!scan_accepts(data, scan_start, i as int, block as int, t as int));
                                assert(oropt_scan(data, candidates@, scan_start, block as int, i as int, c as int)
                                    == oropt_scan(data, candidates@, scan_start, block as int, i as int, c + 1));
                            }
                            if !improved {
                                assert forall|p: int, t2: int|
                                    #![trigger list@[p], improving_relocation(data, candidates@, start, i as int, block as int, t2)]
                                    0 <= p < c + 1 && 0 <= t2 < n && start[t2] == list@[p] implies !improving_relocation(
                                    data,
                                    candidates@,
                                    start,
                                    i as int,
                                    block as int,
                                    t2,
                                ) by {
                                    if p == c {
                                        assert(t2 == t);
                                    }
                                }
                            }
                        }
                        c = c + 1;
                    }
                    proof {
                        if !improved {
                            assert forall|t2: int| !#[trigger] improving_relocation(
                                data,
                                candidates@,
                                start,
                                i as int,
                                block as int,
                                t2,
                            ) by {
                                if improving_relocation(data, candidates@, start, i as int, block as int, t2) {
                                    let p = choose|p: int| 0 <= p < list@.len() && list@[p] == start[t2];
                                    assert(!improving_relocation(data, candidates@, start, i as int, block as int, t2));
                                }
                            }
                        }
                    }
                }
                i = i + 1;
            }
        }
        proof {
            if !improved {
                assert forall|i: int, len: int, t: int|
                    block - 1 < len implies !#[trigger] improving_relocation(data, candidates@, start, i, len, t) by {
                    if len == block {
                        assert(!improving_relocation(data, candidates@, start, i, block as int, t));
                    }
                }
            }
        }
        block = block - 1;
    }
    improved
}

} // verus!
