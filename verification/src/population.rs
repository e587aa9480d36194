//! Sampling of sub-complexes and the layout of complexes in the population.
use vstd::prelude::*;
use crate::ratio::ratio_le;
use crate::rng::{advance, draw_at, lemma_advance_step, next_state, DuanRng, RngModel, UniformDraw, draw_wf};

verus! {

/// Numerator of the uniform value that a draw denotes, over
/// `draw_denominator()`: `(coarse + fine * 7.4373773e-6) * 3.8580247e-6`
/// written with integers.
pub open spec fn draw_numerator(d: UniformDraw) -> nat {
    ((d.coarse * 10_000_000_000_000nat + d.fine * 74373773nat) * 38580247nat) as nat
}

pub open spec fn draw_denominator() -> nat {
    100_000_000_000_000_000_000_000_000nat
}

/// `n * (n + 1)` times the probability that a rank below `k` is drawn:
/// rank `k` of `n` is drawn with probability `2 * (n - k) / (n * (n + 1))`.
pub open spec fn rank_threshold(n: nat, k: nat) -> nat {
    (k * (2 * n + 1 - k)) as nat
}

/// The draw's value reaches the start of the interval of rank `k`.
pub open spec fn reaches_rank(n: nat, d: UniformDraw, k: nat) -> bool {
    rank_threshold(n, k) * draw_denominator() <= n * (n + 1) * draw_numerator(d)
}

/// `k` is the rank, among `n`, that the draw selects: the last rank whose
/// interval starts at or below the draw's value.
pub open spec fn is_rank_of(n: nat, d: UniformDraw, k: nat) -> bool {
    &&& k < n
    &&& reaches_rank(n, d, k)
    &&& k + 1 < n ==> !reaches_rank(n, d, k + 1)
}

/// The rank, among `n`, that the draw selects.
pub open spec fn rank_of(n: nat, d: UniformDraw) -> nat {
    choose|k: nat| is_rank_of(n, d, k)
}

/// The ranks of the first `t` draws from state `s`.
#[verifier::opaque]
pub open spec fn ranks(n: nat, s: RngModel, t: nat) -> Seq<usize> {
    Seq::new(t, |i: int| rank_of(n, draw_at(s, i as nat)) as usize)
}

/// The thresholds grow with the rank.
proof fn lemma_threshold_monotone(n: nat, k1: nat, k2: nat)
    requires
        k1 <= k2 <= n,
    ensures
        rank_threshold(n, k1) <= rank_threshold(n, k2),
        rank_threshold(n, k2) <= n * (n + 1),
{
    assert(k1 * (2 * n + 1 - k1) <= k2 * (2 * n + 1 - k2)) by (nonlinear_arith)
        requires k1 <= k2 <= n;
    assert(k2 * (2 * n + 1 - k2) <= n * (n + 1)) by (nonlinear_arith)
        requires k2 <= n;
}

/// A draw reaching rank `k2` reaches every lower rank.
proof fn lemma_reaches_monotone(n: nat, d: UniformDraw, k1: nat, k2: nat)
    requires
        k1 <= k2 <= n,
        reaches_rank(n, d, k2),
    ensures
        reaches_rank(n, d, k1),
{
    lemma_threshold_monotone(n, k1, k2);
    assert(rank_threshold(n, k1) * draw_denominator() <= rank_threshold(n, k2) * draw_denominator())
        by (nonlinear_arith)
        requires rank_threshold(n, k1) <= rank_threshold(n, k2);
}

/// Every draw selects exactly one rank.
pub proof fn lemma_rank_unique(n: nat, d: UniformDraw, k: nat)
    requires
        is_rank_of(n, d, k),
    ensures
        rank_of(n, d) == k,
{
    let r = rank_of(n, d);
    assert(is_rank_of(n, d, r));
    if r < k {
        lemma_reaches_monotone(n, d, r + 1, k);
    } else if k < r {
        lemma_reaches_monotone(n, d, k + 1, r);
    }
}

/// The linear probability of the ranks: the draws that select rank `k` are
/// those whose value lies in `[t(k) / (n (n + 1)), t(k + 1) / (n (n + 1)))`
/// where `t = rank_threshold(n, _)`, an interval of width
/// `2 (n - k) / (n (n + 1))`; the intervals of the `n` ranks tile `[0, 1)`.
pub proof fn lemma_rank_intervals(n: nat, d: UniformDraw, k: nat)
    requires
        n >= 1,
        k + 1 < n,
    ensures
        is_rank_of(n, d, k) <==> (reaches_rank(n, d, k) && !reaches_rank(n, d, k + 1)),
        rank_threshold(n, k + 1) - rank_threshold(n, k) == 2 * (n - k),
        rank_threshold(n, 0) == 0,
        rank_threshold(n, n) == n * (n + 1),
{
    assert((k + 1) * (2 * n + 1 - (k + 1)) - k * (2 * n + 1 - k) == 2 * (n - k)) by (nonlinear_arith);
    assert(n * (2 * n + 1 - n) == n * (n + 1)) by (nonlinear_arith);
}

/// The last rank is drawn exactly when the draw's value reaches its
/// threshold (values of one or more, which the generator can hand out in
/// rare cases, fall to the last rank too).
pub proof fn lemma_last_rank(n: nat, d: UniformDraw)
    requires
        n >= 1,
    ensures
        is_rank_of(n, d, (n - 1) as nat) <==> reaches_rank(n, d, (n - 1) as nat),
{
}

/// The rank a draw selects, in the draw's own numbers: with
/// `N = (coarse * 10^13 + fine * 74373773) * 38580247`, the uniform value
/// times `10^26`, the rank `r` among `n` is the largest `r < n` with
/// `r * (2n + 1 - r) * 10^26 <= n * (n + 1) * N`.
pub proof fn lemma_rank_of_draw(n: nat, d: UniformDraw)
    requires
        n >= 1,
    ensures
        ({
            let r = rank_of(n, d);
            let big_n = (d.coarse * 10_000_000_000_000int + d.fine * 74373773int) * 38580247int;
            &&& r < n
            &&& r * (2 * n + 1 - r) * 100_000_000_000_000_000_000_000_000int <= n * (n + 1) * big_n
            &&& r + 1 < n ==> (r + 1) * (2 * n - r) * 100_000_000_000_000_000_000_000_000int > n
                * (n + 1) * big_n
        }),
{
    lemma_rank_exists(n, d);
    let r = rank_of(n, d);
    assert(is_rank_of(n, d, r));
    if r + 1 < n {
        assert((r + 1) * (2 * n + 1 - (r + 1)) == (r + 1) * (2 * n - r));
    }
}

/// Every draw selects a rank.
proof fn lemma_rank_exists(n: nat, d: UniformDraw)
    requires
        n >= 1,
    ensures
        is_rank_of(n, d, rank_of(n, d)),
{
    assert(reaches_rank(n, d, 0)) by (nonlinear_arith)
        requires rank_threshold(n, 0) == 0;
    lemma_last_reached(n, d, 0);
    lemma_rank_unique(n, d, last_reached(n, d, 0));
}

proof fn lemma_last_reached(n: nat, d: UniformDraw, k: nat)
    requires
        k < n,
        reaches_rank(n, d, k),
    ensures
        is_rank_of(n, d, last_reached(n, d, k)),
    decreases n - k,
{
    if k + 1 < n && reaches_rank(n, d, k + 1) {
        lemma_last_reached(n, d, k + 1);
    }
}

/// The last rank at or after `k` that the draw reaches, when it reaches `k`.
spec fn last_reached(n: nat, d: UniformDraw, k: nat) -> nat
    decreases n - k,
{
    if k + 1 < n && reaches_rank(n, d, k + 1) {
        last_reached(n, d, k + 1)
    } else {
        k
    }
}

/// The ranks of draws are those of `rank_of`, one per draw.
pub proof fn lemma_ranks(n: nat, s: RngModel, t: nat, i: int)
    ensures
        ranks(n, s, t).len() == t,
        0 <= i < t ==> ranks(n, s, t)[i] == rank_of(n, draw_at(s, i as nat)) as usize,
{
    reveal(ranks);
}

/// The rank that a draw selects, computed exactly by bisection over the
/// thresholds.
fn rank_for_draw(points_per_complex: usize, d: UniformDraw) -> (rank: usize)
    requires
        points_per_complex >= 1,
        draw_wf(d),
    ensures
        is_rank_of(points_per_complex as nat, d, rank as nat),
        rank == rank_of(points_per_complex as nat, d),
{
    let ghost n = points_per_complex as nat;
    let n128 = points_per_complex as u128;
    assert(n * (n + 1) <= 0xffff_ffff_ffff_ffff * 0x1_0000_0000_0000_0000) by (nonlinear_arith)
        requires n <= 0xffff_ffff_ffff_ffff;
    let total = n128 * (n128 + 1);
    assert(d.coarse * 10_000_000_000_000 + d.fine * 74373773 <= 259199 * 10_000_000_000_000 + 134455 * 74373773)
        by (nonlinear_arith)
        requires d.coarse < 259200, d.fine < 134456;
    let numerator = ((d.coarse as u128) * 10_000_000_000_000 + (d.fine as u128) * 74373773) * 38580247;
    let denominator: u128 = 100_000_000_000_000_000_000_000_000;
    let mut low: usize = 0;
    let mut high: usize = points_per_complex;
    assert(rank_threshold(n, 0) == 0);
    assert(reaches_rank(n, d, 0)) by (nonlinear_arith)
        requires rank_threshold(n, 0) == 0;
    while high - low > 1
        invariant
            n == points_per_complex,
            n128 == n,
            total == n * (n + 1),
            numerator == draw_numerator(d),
            denominator == draw_denominator(),
            low < high <= n,
            reaches_rank(n, d, low as nat),
            high < n ==> !reaches_rank(n, d, high as nat),
        decreases high - low,
    {
        let mid = low + (high - low) / 2;
        proof {
            lemma_threshold_monotone(n, mid as nat, n);
            assert(n * (n + 1) > 0) by (nonlinear_arith)
                requires n >= 1;
        }
        assert(mid * (2 * n + 1 - mid) == rank_threshold(n, mid as nat));
        let threshold = (mid as u128) * (2 * n128 + 1 - mid as u128);
        if ratio_le(threshold, total, numerator, denominator) {
            assert(threshold * denominator == rank_threshold(n, mid as nat) * draw_denominator());
            low = mid;
        } else {
            high = mid;
        }
    }
    proof {
        if low + 1 < n {
            assert(high == low + 1);
        }
        lemma_rank_unique(n, d, low as nat);
    }
    low
}

/// Draws a rank among `points_per_complex` with the linear probability of
/// Duan's method: rank `k` (counted from zero) is drawn with probability
/// `2 * (n - k) / (n * (n + 1))`, so better points are drawn more often.
///
/// The rank is `trunc(n + 1/2 - sqrt((n + 1/2)^2 - n * (n + 1) * u))` for
/// the draw's uniform value `u`, computed exactly from the draw's rational
/// value by comparing `u` with the thresholds `k * (2 * n + 1 - k) / (n * (n + 1))`.
/// A value of one or more, which 78 of the `259200 * 134456` pairs of
/// generator states denote, gives the last rank.
pub fn sample_rank(points_per_complex: usize, rng: &mut DuanRng) -> (rank: usize)
    requires
        points_per_complex >= 1,
        old(rng).wf(),
    ensures
        final(rng).wf(),
        final(rng)@ == next_state(old(rng)@).1,
        rank == rank_of(points_per_complex as nat, next_state(old(rng)@).0),
        rank < points_per_complex,
{
    let d = rng.next_draw();
    rank_for_draw(points_per_complex, d)
}

/// A strictly increasing sequence of indices.
pub open spec fn strictly_increasing(s: Seq<usize>) -> bool {
    forall|i: int, j: int| 0 <= i < j < s.len() ==> s[i] < s[j]
}

/// `indices` holds, in increasing order, the distinct ranks among `n` of the
/// first `t` draws from `s`, and the last of those draws brought a rank not
/// seen before.
pub open spec fn sampled_from(n: nat, s: RngModel, t: nat, indices: Seq<usize>) -> bool {
    &&& strictly_increasing(indices)
    &&& indices.to_set() == ranks(n, s, t).to_set()
    &&& t > 0 ==> !ranks(n, s, (t - 1) as nat).contains(ranks(n, s, t)[t - 1])
}

/// What a sampled sub-complex is: its positions increase strictly, each is
/// the rank of one of the first `t` draws, each of those draws' ranks is
/// among them, and the last of those draws brought a rank that no earlier
/// draw had.
pub proof fn lemma_sampled_from(n: nat, s: RngModel, t: nat, indices: Seq<usize>)
    requires
        sampled_from(n, s, t, indices),
    ensures
        forall|i: int, j: int| 0 <= i < j < indices.len() ==> indices[i] < indices[j],
        forall|i: int|
            #![trigger indices[i]]
            0 <= i < indices.len() ==> exists|k: int|
                #![trigger draw_at(s, k as nat)]
                0 <= k < t && indices[i] == rank_of(n, draw_at(s, k as nat)) as usize,
        forall|k: int| 0 <= k < t ==> indices.contains(#[trigger] rank_of(n, draw_at(s, k as nat)) as usize),
        t > 0 ==> forall|k: int|
            0 <= k < t - 1 ==> #[trigger] rank_of(n, draw_at(s, k as nat)) as usize != rank_of(
                n,
                draw_at(s, (t - 1) as nat),
            ) as usize,
{
    assert forall|i: int| #![trigger indices[i]] 0 <= i < indices.len() implies exists|k: int|
        #![trigger draw_at(s, k as nat)]
        0 <= k < t && indices[i] == rank_of(n, draw_at(s, k as nat)) as usize by {
        assert(indices.to_set().contains(indices[i]));
        assert(ranks(n, s, t).contains(indices[i]));
        lemma_ranks(n, s, t, 0);
        let k = choose|k: int| 0 <= k < ranks(n, s, t).len() && ranks(n, s, t)[k] == indices[i];
        lemma_ranks(n, s, t, k);
        assert(draw_at(s, k as nat) == draw_at(s, k as nat));
    }
    assert forall|k: int| 0 <= k < t implies indices.contains(
        #[trigger] rank_of(n, draw_at(s, k as nat)) as usize,
    ) by {
        lemma_ranks(n, s, t, k);
        assert(ranks(n, s, t).contains(ranks(n, s, t)[k]));
        assert(indices.to_set().contains(ranks(n, s, t)[k]));
    }
    if t > 0 {
        assert forall|k: int| 0 <= k < t - 1 implies #[trigger] rank_of(n, draw_at(s, k as nat))
            as usize != rank_of(n, draw_at(s, (t - 1) as nat)) as usize by {
            lemma_ranks(n, s, t, t - 1);
            lemma_ranks(n, s, (t - 1) as nat, k);
            assert(ranks(n, s, (t - 1) as nat)[k] == ranks(n, s, (t - 1) as nat)[k]);
        }
    }
}

/// Some number of draws from `s` yields `size` distinct ranks among `n`.
pub open spec fn can_fill(n: nat, size: nat, s: RngModel) -> bool {
    exists|t: nat| #[trigger] ranks(n, s, t).to_set().len() >= size
}

proof fn lemma_ranks_push(n: nat, s: RngModel, t: nat)
    ensures
        ranks(n, s, t + 1) =~= ranks(n, s, t).push(rank_of(n, draw_at(s, t)) as usize),
        ranks(n, s, 0) =~= Seq::<usize>::empty(),
        ranks(n, s, t).len() == t,
{
    reveal(ranks);
}

proof fn lemma_insert_to_set(s: Seq<usize>, pos: int, x: usize)
    requires
        0 <= pos <= s.len(),
    ensures
        s.insert(pos, x).to_set() =~= s.to_set().insert(x),
{
    s.insert_ensures(pos, x);
    let t = s.insert(pos, x);
    assert forall|y: usize| t.contains(y) implies s.to_set().insert(x).contains(y) by {
        let i = choose|i: int| 0 <= i < t.len() && t[i] == y;
        if i < pos {
            assert(s[i] == y);
        } else if i > pos {
            assert(s[i - 1] == y);
        }
    }
    assert forall|y: usize| s.to_set().insert(x).contains(y) implies t.contains(y) by {
        if y == x {
            assert(t[pos] == x);
        } else {
            let i = choose|i: int| 0 <= i < s.len() && s[i] == y;
            if i < pos {
                assert(t[i] == y);
            } else {
                assert(t[i + 1] == y);
            }
        }
    }
}

/// Adds `x` to a strictly increasing sequence, unless it is there already;
/// tells whether it was added.
fn insert_sorted(v: &mut Vec<usize>, x: usize) -> (added: bool)
    requires
        strictly_increasing(old(v)@),
    ensures
        strictly_increasing(final(v)@),
        final(v)@.to_set() == old(v)@.to_set().insert(x),
        added == !old(v)@.contains(x),
        final(v).len() == old(v).len() + if added { 1int } else { 0int },
        forall|i: int| 0 <= i < final(v).len() ==> final(v)[i] == x || old(v)@.contains(final(v)[i]),
{
    let mut pos: usize = 0;
    while pos < v.len() && v[pos] < x
        invariant
            pos <= v.len(),
            forall|i: int| 0 <= i < pos ==> v[i] < x,
        decreases v.len() - pos,
    {
        pos = pos + 1;
    }
    if pos < v.len() && v[pos] == x {
        assert(v@.to_set().insert(x) =~= v@.to_set());
        false
    } else {
        let ghost old_v = v@;
        proof {
            assert(!v@.contains(x)) by {
                if v@.contains(x) {
                    let i = choose|i: int| 0 <= i < v.len() && v[i] == x;
                    if i >= pos {
                        assert(v[pos as int] <= v[i]);
                    }
                }
            }
            lemma_insert_to_set(v@, pos as int, x);
            v@.insert_ensures(pos as int, x);
        }
        v.insert(pos, x);
        assert forall|i: int| 0 <= i < v.len() implies v[i] == x || old_v.contains(v[i]) by {
            if i < pos {
                assert(old_v[i] == v[i]);
            } else if i > pos {
                assert(old_v[i - 1] == v[i]);
            }
        }
        true
    }
}

/// Draws ranks among `points_per_complex` until `simplex_size` distinct ones
/// have come up, and returns them in increasing order.
fn draw_distinct_ranks(points_per_complex: usize, simplex_size: usize, rng: &mut DuanRng) -> (indices: Vec<usize>)
    requires
        old(rng).wf(),
        simplex_size < points_per_complex,
        can_fill(points_per_complex as nat, simplex_size as nat, old(rng)@),
    ensures
        final(rng).wf(),
        indices.len() == simplex_size,
        forall|i: int| 0 <= i < indices.len() ==> indices[i] < points_per_complex,
        exists|t: nat|
            #[trigger] advance(old(rng)@, t) == final(rng)@ && sampled_from(
                points_per_complex as nat,
                old(rng)@,
                t,
                indices@,
            ),
{
    let ghost n = points_per_complex as nat;
    let ghost size = simplex_size as nat;
    let ghost s0 = rng@;
    let ghost bound = choose|t: nat| #[trigger] ranks(n, s0, t).to_set().len() >= size;
    let mut indices: Vec<usize> = Vec::new();
    let ghost mut t: nat = 0;
    proof {
        lemma_ranks_push(n, s0, 0);
        lemma_advance_step(s0, 0);
    }
    assert(ranks(n, s0, 0).to_set() =~= Set::empty());
    assert(indices@.to_set() =~= Set::empty());
    while indices.len() < simplex_size
        invariant
            n == points_per_complex,
            size == simplex_size,
            size < n,
            rng.wf(),
            rng@ == advance(s0, t),
            strictly_increasing(indices@),
            indices@.to_set() == ranks(n, s0, t).to_set(),
            indices.len() <= size,
            forall|i: int| 0 <= i < indices.len() ==> indices[i] < n,
            t <= bound,
            t > 0 ==> indices.len() > 0,
            ranks(n, s0, bound).to_set().len() >= size,
            indices.len() == size && size > 0 ==> t > 0 && !ranks(n, s0, (t - 1) as nat).contains(
                ranks(n, s0, t)[t - 1],
            ),
        decreases bound - t,
    {
        proof {
            assert(indices@.no_duplicates());
            indices@.unique_seq_to_set();
            assert(t < bound);
        }
        let candidate = sample_rank(points_per_complex, rng);
        proof {
            lemma_advance_step(s0, t);
            lemma_ranks_push(n, s0, t);
            ranks(n, s0, t).lemma_push_to_set_commute(candidate);
        }
        let ghost before = indices@;
        let added = insert_sorted(&mut indices, candidate);
        proof {
            if indices.len() == size {
                assert(added);
                assert(!before.to_set().contains(candidate));
                assert(!ranks(n, s0, t).to_set().contains(candidate));
                assert(!ranks(n, s0, t).contains(candidate));
                assert(ranks(n, s0, t + 1)[t as int] == candidate);
                assert(ranks(n, s0, t + 1).subrange(0, t as int) =~= ranks(n, s0, t));
            }
        }
        proof {
            t = t + 1;
        }
    }
    assert(advance(s0, t) == rng@ && sampled_from(n, s0, t, indices@));
    indices
}

/// Picks the positions, within a complex of `points_per_complex` points
/// sorted from best to worst, of the `simplex_size` points that form a
/// sub-complex. Positions are drawn with `sample_rank` until `simplex_size`
/// distinct ones have come up; they are returned in increasing order. When
/// the sub-complex is the whole complex, no draw is made.
pub fn sample_simplex_indices(
    points_per_complex: usize,
    simplex_size: usize,
    rng: &mut DuanRng,
) -> (indices: Vec<usize>)
    requires
        old(rng).wf(),
        simplex_size <= points_per_complex,
        simplex_size < points_per_complex ==> can_fill(
            points_per_complex as nat,
            simplex_size as nat,
            old(rng)@,
        ),
    ensures
        final(rng).wf(),
        indices.len() == simplex_size,
        forall|i: int| 0 <= i < indices.len() ==> indices[i] < points_per_complex,
        simplex_size == points_per_complex ==> indices@ == Seq::new(
            simplex_size as nat,
            |i: int| i as usize,
        ) && final(rng)@ == old(rng)@,
        simplex_size < points_per_complex ==> exists|t: nat|
            #[trigger] advance(old(rng)@, t) == final(rng)@ && sampled_from(
                points_per_complex as nat,
                old(rng)@,
                t,
                indices@,
            ),
{
    let ghost n = points_per_complex as nat;
    let ghost size = simplex_size as nat;
    if simplex_size == points_per_complex {
        let mut all: Vec<usize> = Vec::new();
        let mut i: usize = 0;
        while i < simplex_size
            invariant
                i <= simplex_size,
                all@ == Seq::new(i as nat, |k: int| k as usize),
            decreases simplex_size - i,
        {
            all.push(i);
            i = i + 1;
            assert(all@ =~= Seq::new(i as nat, |k: int| k as usize));
        }
        return all;
    }
    draw_distinct_ranks(points_per_complex, simplex_size, rng)
}

/// The position in the population of point `point_index` of complex
/// `complex_index`, when the population, sorted from best to worst, is dealt
/// into `complexes` complexes like cards: point `p` of complex `c` is the
/// population's point `p * complexes + c`.
pub open spec fn slot(point_index: int, complex_index: int, complexes: int) -> int {
    point_index * complexes + complex_index
}

/// Every slot of the first `points_per_complex` rows of the dealing lies in
/// the population.
pub open spec fn slots_in_range(
    len: nat,
    complex_index: nat,
    complexes: nat,
    points_per_complex: nat,
) -> bool {
    points_per_complex == 0 || slot(points_per_complex - 1, complex_index as int, complexes as int) < len
}

/// The points of complex `complex_index`, best first.
pub open spec fn complex_of<T>(
    population: Seq<T>,
    complex_index: int,
    complexes: int,
    points_per_complex: nat,
) -> Seq<T> {
    Seq::new(points_per_complex, |p: int| population[slot(p, complex_index, complexes)])
}

/// Slot `i` is the slot of a point of complex `complex_index` (for
/// `complexes > 0`): `i == p * complexes + complex_index` with
/// `0 <= p < points_per_complex`.
pub open spec fn in_complex(i: int, complex_index: int, complexes: int, points_per_complex: int) -> bool {
    &&& i >= complex_index
    &&& (i - complex_index) % complexes == 0
    &&& (i - complex_index) / complexes < points_per_complex
}

/// The position within complex `complex_index` of the point at slot `i`.
pub open spec fn point_of_slot(i: int, complex_index: int, complexes: int) -> int {
    (i - complex_index) / complexes
}

/// The population with complex `complex_index` replaced by `complex`
/// (for `complexes > 0`).
pub open spec fn with_complex<T>(
    population: Seq<T>,
    complex: Seq<T>,
    complex_index: int,
    complexes: int,
    points_per_complex: int,
) -> Seq<T> {
    Seq::new(
        population.len(),
        |i: int|
            if in_complex(i, complex_index, complexes, points_per_complex) {
                complex[point_of_slot(i, complex_index, complexes)]
            } else {
                population[i]
            },
    )
}

proof fn lemma_slot_below(p: int, last: int, complex_index: int, complexes: int)
    requires
        0 <= p <= last,
        0 <= complexes,
        0 <= complex_index,
    ensures
        0 <= slot(p, complex_index, complexes) <= slot(last, complex_index, complexes),
{
    assert(p * complexes <= last * complexes) by (nonlinear_arith)
        requires 0 <= p <= last, 0 <= complexes;
    assert(0 <= p * complexes) by (nonlinear_arith)
        requires 0 <= p, 0 <= complexes;
}

/// Slot `i` is the slot of point `point_index` of complex `complex_index`
/// exactly when `point_of_slot` gives back that point.
pub proof fn lemma_slot_decompose(i: int, point_index: int, complex_index: int, complexes: int)
    requires
        complexes > 0,
        0 <= complex_index,
        0 <= point_index,
    ensures
        (i == slot(point_index, complex_index, complexes)) <==> (i >= complex_index && (i
            - complex_index) % complexes == 0 && point_of_slot(i, complex_index, complexes)
            == point_index),
{
    let k = i - complex_index;
    if i == slot(point_index, complex_index, complexes) {
        vstd::arithmetic::div_mod::lemma_fundamental_div_mod_converse(k, complexes, point_index, 0);
        assert(0 <= point_index * complexes) by (nonlinear_arith)
            requires 0 <= point_index, complexes > 0;
    }
    if i >= complex_index && k % complexes == 0 && k / complexes == point_index {
        vstd::arithmetic::div_mod::lemma_fundamental_div_mod(k, complexes);
        assert(k == point_index * complexes) by (nonlinear_arith)
            requires k == complexes * (k / complexes) + k % complexes, k / complexes == point_index,
                k % complexes == 0;
    }
}

/// Taking a complex out and writing it back unchanged gives back the
/// population.
pub proof fn lemma_complex_round_trip<T>(
    population: Seq<T>,
    complex_index: int,
    complexes: int,
    points_per_complex: nat,
)
    requires
        complexes > 0,
        0 <= complex_index,
        slots_in_range(population.len(), complex_index as nat, complexes as nat, points_per_complex),
    ensures
        with_complex(
            population,
            complex_of(population, complex_index, complexes, points_per_complex),
            complex_index,
            complexes,
            points_per_complex as int,
        ) =~= population,
{
    let complex = complex_of(population, complex_index, complexes, points_per_complex);
    assert forall|i: int| 0 <= i < population.len() implies with_complex(
        population,
        complex,
        complex_index,
        complexes,
        points_per_complex as int,
    )[i] == population[i] by {
        if in_complex(i, complex_index, complexes, points_per_complex as int) {
            let p = point_of_slot(i, complex_index, complexes);
            vstd::arithmetic::div_mod::lemma_div_pos_is_pos(i - complex_index, complexes);
            lemma_slot_decompose(i, p, complex_index, complexes);
        }
    }
}

/// Reading a complex just written gives back what was written.
pub proof fn lemma_complex_read_after_write<T>(
    population: Seq<T>,
    complex: Seq<T>,
    complex_index: int,
    complexes: int,
    points_per_complex: nat,
)
    requires
        complexes > 0,
        0 <= complex_index,
        slots_in_range(population.len(), complex_index as nat, complexes as nat, points_per_complex),
        complex.len() == points_per_complex,
    ensures
        complex_of(
            with_complex(population, complex, complex_index, complexes, points_per_complex as int),
            complex_index,
            complexes,
            points_per_complex,
        ) =~= complex,
{
    assert forall|p: int| 0 <= p < points_per_complex implies complex_of(
        with_complex(population, complex, complex_index, complexes, points_per_complex as int),
        complex_index,
        complexes,
        points_per_complex,
    )[p] == complex[p] by {
        lemma_slot_decompose(slot(p, complex_index, complexes), p, complex_index, complexes);
        lemma_slot_below(p, points_per_complex - 1, complex_index, complexes);
    }
}

/// Writing one complex leaves every other complex as it was.
pub proof fn lemma_complexes_independent<T>(
    population: Seq<T>,
    complex: Seq<T>,
    written: int,
    other: int,
    complexes: int,
    points_per_complex: nat,
)
    requires
        0 <= written < complexes,
        0 <= other < complexes,
        written != other,
        slots_in_range(population.len(), other as nat, complexes as nat, points_per_complex),
    ensures
        complex_of(
            with_complex(population, complex, written, complexes, points_per_complex as int),
            other,
            complexes,
            points_per_complex,
        ) =~= complex_of(population, other, complexes, points_per_complex),
{
    assert forall|p: int| 0 <= p < points_per_complex implies complex_of(
        with_complex(population, complex, written, complexes, points_per_complex as int),
        other,
        complexes,
        points_per_complex,
    )[p] == complex_of(population, other, complexes, points_per_complex)[p] by {
        let i = slot(p, other, complexes);
        lemma_slot_below(p, points_per_complex - 1, other, complexes);
        if in_complex(i, written, complexes, points_per_complex as int) {
            let q = point_of_slot(i, written, complexes);
            vstd::arithmetic::div_mod::lemma_div_pos_is_pos(i - written, complexes);
            lemma_slot_decompose(i, q, written, complexes);
            assert(p * complexes + other == q * complexes + written);
            assert(false) by (nonlinear_arith)
                requires p * complexes + other == q * complexes + written, 0 <= other < complexes,
                    0 <= written < complexes, other != written;
        }
    }
}

/// The dealing spreads a full population over the complexes: slot `i` of a
/// population of `complexes * points_per_complex` points is point
/// `i / complexes` of complex `i % complexes`, and of no other complex.
pub proof fn lemma_dealing_covers(i: int, complexes: int, points_per_complex: int, other: int)
    requires
        complexes > 0,
        0 <= i < complexes * points_per_complex,
        0 <= other < complexes,
    ensures
        in_complex(i, i % complexes, complexes, points_per_complex),
        i == slot(i / complexes, i % complexes, complexes),
        in_complex(i, other, complexes, points_per_complex) ==> other == i % complexes,
{
    vstd::arithmetic::div_mod::lemma_fundamental_div_mod(i, complexes);
    vstd::arithmetic::div_mod::lemma_mod_bound(i, complexes);
    vstd::arithmetic::div_mod::lemma_div_pos_is_pos(i, complexes);
    assert(i == (i / complexes) * complexes + i % complexes) by (nonlinear_arith)
        requires i == complexes * (i / complexes) + i % complexes;
    assert(i / complexes < points_per_complex) by (nonlinear_arith)
        requires i == (i / complexes) * complexes + i % complexes, 0 <= i % complexes,
            i < complexes * points_per_complex, complexes > 0;
    lemma_slot_decompose(i, i / complexes, i % complexes, complexes);
    if in_complex(i, other, complexes, points_per_complex) {
        let q = point_of_slot(i, other, complexes);
        vstd::arithmetic::div_mod::lemma_div_pos_is_pos(i - other, complexes);
        lemma_slot_decompose(i, q, other, complexes);
        vstd::arithmetic::div_mod::lemma_fundamental_div_mod_converse(i, complexes, q, other);
    }
}

/// Copies complex `complex_index` out of the population: point `p` of the
/// complex is population point `p * complexes + complex_index`.
pub fn partition_complex<T: Clone>(
    population: &[T],
    complex_index: usize,
    complexes: usize,
    points_per_complex: usize,
) -> (complex: Vec<T>)
    requires
        slots_in_range(population@.len(), complex_index as nat, complexes as nat, points_per_complex as nat),
    ensures
        complex.len() == points_per_complex,
        forall|p: int|
            0 <= p < points_per_complex ==> cloned::<T>(
                complex_of(population@, complex_index as int, complexes as int, points_per_complex as nat)[p],
                #[trigger] complex@[p],
            ),
{
    let mut complex: Vec<T> = Vec::new();
    let mut p: usize = 0;
    let len = population.len();
    while p < points_per_complex
        invariant
            p <= points_per_complex,
            len == population@.len(),
            slots_in_range(population@.len(), complex_index as nat, complexes as nat, points_per_complex as nat),
            complex.len() == p,
            forall|q: int|
                0 <= q < p ==> cloned::<T>(
                    population@[slot(q, complex_index as int, complexes as int)],
                    #[trigger] complex@[q],
                ),
        decreases points_per_complex - p,
    {
        proof {
            lemma_slot_below(p as int, points_per_complex - 1, complex_index as int, complexes as int);
        }
        let index = p * complexes + complex_index;
        complex.push(population[index].clone());
        p = p + 1;
    }
    complex
}

/// Writes a complex back into the population, at the slots it was taken
/// from; every other slot keeps its point.
pub fn replace_complex<T: Clone>(
    population: &mut Vec<T>,
    complex: &[T],
    complex_index: usize,
    complexes: usize,
    points_per_complex: usize,
)
    requires
        slots_in_range(old(population)@.len(), complex_index as nat, complexes as nat, points_per_complex as nat),
        complex@.len() >= points_per_complex,
    ensures
        final(population)@.len() == old(population)@.len(),
        complexes > 0 ==> forall|i: int|
            0 <= i < old(population)@.len() ==> if in_complex(
                i,
                complex_index as int,
                complexes as int,
                points_per_complex as int,
            ) {
                cloned::<T>(
                    with_complex(
                        old(population)@,
                        complex@,
                        complex_index as int,
                        complexes as int,
                        points_per_complex as int,
                    )[i],
                    #[trigger] final(population)@[i],
                )
            } else {
                final(population)@[i] == old(population)@[i]
            },
        complexes == 0 && points_per_complex == 0 ==> final(population)@ == old(population)@,
        complexes == 0 && points_per_complex > 0 ==> {
            &&& cloned::<T>(complex@[points_per_complex - 1], final(population)@[complex_index as int])
            &&& forall|i: int|
                0 <= i < old(population)@.len() && i != complex_index ==> #[trigger] final(population)@[i]
                    == old(population)@[i]
        },
{
    let ghost before = population@;
    let mut p: usize = 0;
    let len = population.len();
    while p < points_per_complex
        invariant
            p <= points_per_complex,
            len == population@.len(),
            slots_in_range(before.len(), complex_index as nat, complexes as nat, points_per_complex as nat),
            complex@.len() >= points_per_complex,
            population@.len() == before.len(),
            complexes > 0 ==> forall|i: int|
                0 <= i < before.len() ==> if in_complex(i, complex_index as int, complexes as int, p as int) {
                    cloned::<T>(complex@[point_of_slot(i, complex_index as int, complexes as int)], #[trigger] population@[i])
                } else {
                    population@[i] == before[i]
                },
            complexes == 0 && p > 0 ==> cloned::<T>(complex@[p - 1], population@[complex_index as int]),
            complexes == 0 ==> forall|i: int|
                0 <= i < before.len() && i != complex_index ==> #[trigger] population@[i] == before[i],
            complexes == 0 && p == 0 ==> population@ == before,
        decreases points_per_complex - p,
    {
        proof {
            lemma_slot_below(p as int, points_per_complex - 1, complex_index as int, complexes as int);
        }
        let index = p * complexes + complex_index;
        let value = complex[p].clone();
        let ghost mid = population@;
        population.set(index, value);
        proof {
            if complexes > 0 {
                assert forall|i: int|
                    0 <= i < before.len() implies if in_complex(
                        i,
                        complex_index as int,
                        complexes as int,
                        p + 1,
                    ) {
                        cloned::<T>(
                            complex@[point_of_slot(i, complex_index as int, complexes as int)],
                            #[trigger] population@[i],
                        )
                    } else {
                        population@[i] == before[i]
                    } by {
                    lemma_slot_decompose(i, p as int, complex_index as int, complexes as int);
                    if i != index as int {
                        assert(population@[i] == mid[i]);
                    }
                }
            }
        }
        p = p + 1;
    }
}

/// Drops the worst complexes: keeps the first `new_complexes` of the
/// `old_complexes` complexes, each with its points in order, and deals them
/// again into `new_complexes` complexes.
pub fn compress_complexes<T: Clone>(
    population: &[T],
    old_complexes: usize,
    new_complexes: usize,
    points_per_complex: usize,
) -> (compressed: Vec<T>)
    requires
        new_complexes == 0 || slots_in_range(
            population@.len(),
            (new_complexes - 1) as nat,
            old_complexes as nat,
            points_per_complex as nat,
        ),
    ensures
        compressed.len() == points_per_complex * new_complexes,
        forall|p: int, c: int|
            0 <= p < points_per_complex && 0 <= c < new_complexes ==> cloned::<T>(
                population@[slot(p, c, old_complexes as int)],
                #[trigger] compressed@[slot(p, c, new_complexes as int)],
            ),
{
    let mut compressed: Vec<T> = Vec::new();
    let mut p: usize = 0;
    let len = population.len();
    while p < points_per_complex
        invariant
            p <= points_per_complex,
            len == population@.len(),
            new_complexes == 0 || slots_in_range(
                population@.len(),
                (new_complexes - 1) as nat,
                old_complexes as nat,
                points_per_complex as nat,
            ),
            compressed.len() == p * new_complexes,
            forall|q: int, c: int|
                0 <= q < p && 0 <= c < new_complexes ==> cloned::<T>(
                    population@[slot(q, c, old_complexes as int)],
                    #[trigger] compressed@[slot(q, c, new_complexes as int)],
                ),
        decreases points_per_complex - p,
    {
        let mut c: usize = 0;
        let ghost row_start = compressed.len();
        let ghost prev = compressed@;
        while c < new_complexes
            invariant
                p < points_per_complex,
                c <= new_complexes,
                population@.len() <= usize::MAX,
                new_complexes == 0 || slots_in_range(
                    population@.len(),
                    (new_complexes - 1) as nat,
                    old_complexes as nat,
                    points_per_complex as nat,
                ),
                row_start == p * new_complexes,
                prev.len() == row_start,
                compressed.len() == row_start + c,
                forall|j: int| 0 <= j < row_start ==> #[trigger] compressed@[j] == prev[j],
                forall|d: int|
                    0 <= d < c ==> cloned::<T>(
                        population@[slot(p as int, d, old_complexes as int)],
                        #[trigger] compressed@[row_start + d],
                    ),
            decreases new_complexes - c,
        {
            proof {
                lemma_slot_below(p as int, points_per_complex - 1, c as int, old_complexes as int);
                assert(slot(points_per_complex - 1, c as int, old_complexes as int)
                    <= slot(points_per_complex - 1, new_complexes - 1, old_complexes as int));
            }
            let index = p * old_complexes + c;
            compressed.push(population[index].clone());
            c = c + 1;
        }
        proof {
            assert forall|q: int, d: int|
                0 <= q < p + 1 && 0 <= d < new_complexes implies cloned::<T>(
                    population@[slot(q, d, old_complexes as int)],
                    #[trigger] compressed@[slot(q, d, new_complexes as int)],
                ) by {
                if q == p {
                    assert(slot(q, d, new_complexes as int) == row_start + d);
                } else {
                    assert(0 <= slot(q, d, new_complexes as int) < row_start) by (nonlinear_arith)
                        requires 0 <= q < p, 0 <= d < new_complexes, row_start == p * new_complexes;
                    assert(compressed@[slot(q, d, new_complexes as int)] == prev[slot(q, d, new_complexes as int)]);
                }
            }
            assert((p + 1) * new_complexes == p * new_complexes + new_complexes) by (nonlinear_arith);
        }
        p = p + 1;
    }
    compressed
}

} // verus!