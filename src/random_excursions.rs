//! Random excursions: visits to the states -4..-1 and 1..4 within each cycle of the walk.
use vstd::prelude::*;
use crate::BitsData;
use crate::TestError;
use crate::counting::{count_upto, lemma_classes_cover, lemma_count_upto_ext, lemma_count_upto_le, lemma_sum_ext, sum_upto};
use crate::walk::{cycles, enough_cycles, has_enough_cycles, psum, zeros};

verus! {

/// Number of states that the test watches.
pub const EXCURSION_STATES: usize = 8;

/// Number of visit classes: 0, 1, 2, 3, 4 and 5 or more visits.
pub const VISIT_CLASSES: usize = 6;

/// The state watched at index `i`: -4, -3, -2, -1, 1, 2, 3, 4.
pub open spec fn excursion_state(i: int) -> int {
    if i < 4 { i - 4 } else { i - 3 }
}

/// Visits to `x` that fall in cycle `c` (counted from 0), among the first `k` steps.
pub open spec fn cycle_visits(s: Seq<bool>, x: int, c: int, k: int) -> nat {
    count_upto(k, |j: int| psum(s, j + 1) == x && zeros(s, j + 1) == c)
}

/// The class of a visit count: the count itself, with 5 standing for 5 or more.
pub open spec fn visit_class(v: nat) -> nat {
    if v >= 5 { 5 } else { v }
}

/// Cycles among the first `nc` in which state `x` falls in class `v`, over the first `k` steps.
pub open spec fn class_count(s: Seq<bool>, x: int, v: nat, nc: int, k: int) -> nat {
    count_upto(nc, |c: int| visit_class(cycle_visits(s, x, c, k)) == v)
}

/// Over the whole walk: cycles in which the state of index `i` falls in class `v`.
pub open spec fn excursion_count(s: Seq<bool>, i: int, v: nat) -> nat {
    class_count(s, excursion_state(i), v, cycles(s) as int, s.len() as int)
}

/// For each watched state every cycle falls in exactly one visit class: the
/// six counts of a state add up to the number of cycles.
pub proof fn lemma_excursion_classes_cover(s: Seq<bool>, i: int)
    requires
        0 <= i < 8,
    ensures
        sum_upto(6, |v: int| excursion_count(s, i, v as nat) as int) == cycles(s),
{
    let x = excursion_state(i);
    let n = s.len() as int;
    let nc = cycles(s) as int;
    let cls = |c: int| visit_class(cycle_visits(s, x, c, n)) as int;
    lemma_classes_cover(nc, 6, cls);
    let f = |v: int| excursion_count(s, i, v as nat) as int;
    let g = |v: int| count_upto(nc, |c: int| cls(c) == v) as int;
    assert forall|v: int| 0 <= v < 6 implies #[trigger] f(v) == g(v) by {
        lemma_count_upto_ext(nc, |c: int| visit_class(cycle_visits(s, x, c, n)) == v as nat, |c: int| cls(c) == v);
    }
    lemma_sum_ext(6, f, g);
}

/// The tally of the random excursions test.
pub struct ExcursionTally {
    /// Number of cycles of the walk.
    pub cycles: usize,
    /// `counts[i * 6 + v]`: cycles in which the state of index `i` falls in class `v`.
    pub counts: Vec<usize>,
}

proof fn lemma_no_visits_ahead(s: Seq<bool>, x: int, c: int, k: int)
    requires
        0 <= k <= s.len(),
        c > zeros(s, k),
    ensures
        cycle_visits(s, x, c, k) == 0,
    decreases k,
{
    if k > 0 {
        lemma_no_visits_ahead(s, x, c, k - 1);
    }
}

proof fn lemma_index6(a: int, w: int, i: int, v: int)
    requires
        0 <= w < 6,
        0 <= v < 6,
    ensures
        (a * 6 + w == i * 6 + v) <==> (a == i && w == v),
{
    assert((a * 6 + w == i * 6 + v) ==> a == i) by (nonlinear_arith)
        requires 0 <= w < 6, 0 <= v < 6;
}

/// Adds each state's visit class of the cycle that just closed.
fn close_cycle(counts: &mut Vec<usize>, cur: &Vec<usize>, bound: usize)
    requires
        old(counts)@.len() == 48,
        cur@.len() == 8,
        forall|i: int, v: int| 0 <= i < 8 && 0 <= v < 6 ==> #[trigger] old(counts)@[i * 6 + v] < bound,
    ensures
        final(counts)@.len() == 48,
        forall|i: int, v: int| 0 <= i < 8 && 0 <= v < 6 ==> #[trigger] final(counts)@[i * 6 + v]
            == old(counts)@[i * 6 + v] + if visit_class(cur@[i] as nat) == v { 1int } else { 0int },
{
    let ghost start = counts@;
    let mut i: usize = 0;
    while i < 8
        invariant
            i <= 8,
            cur@.len() == 8,
            counts@.len() == 48,
            start.len() == 48,
            forall|a: int, v: int| 0 <= a < 8 && 0 <= v < 6 ==> #[trigger] start[a * 6 + v] < bound,
            forall|a: int, v: int| 0 <= a < i && 0 <= v < 6 ==> #[trigger] counts@[a * 6 + v]
                == start[a * 6 + v] + if visit_class(cur@[a] as nat) == v { 1int } else { 0int },
            forall|a: int, v: int| i <= a < 8 && 0 <= v < 6 ==> #[trigger] counts@[a * 6 + v] == start[a * 6 + v],
        decreases 8 - i,
    {
        let v: usize = if cur[i] >= 5 { 5 } else { cur[i] };
        let at = i * 6 + v;
        let ghost prev = counts@;
        counts.set(at, counts[at] + 1);
        proof {
            assert forall|a: int, w: int| 0 <= a < 8 && 0 <= w < 6 implies #[trigger] counts@[a * 6 + w]
                == if a == i && w == v { prev[a * 6 + w] + 1 } else { prev[a * 6 + w] as int } by {
                lemma_index6(a, w, i as int, v as int);
            }
        }
        i = i + 1;
    }
}

/// Tallies, for each cycle of the walk and each watched state, how often the
/// walk visits the state in that cycle. Fails with `NotApplicable` when the
/// walk has fewer than `max(500, 0.005 * sqrt(n))` cycles. A walk of `n`
/// steps has at most `n` cycles, so no cycle bound can be exceeded.
pub fn random_excursions_counts(data: &BitsData) -> (r: Result<ExcursionTally, TestError>)
    ensures
        match r {
            Ok(t) => {
                &&& enough_cycles(cycles(data@), data@.len())
                &&& t.cycles == cycles(data@)
                &&& t.cycles <= data@.len()
                &&& t.counts@.len() == 48
                &&& forall|i: int, v: int| 0 <= i < 8 && 0 <= v < 6 ==>
                    #[trigger] t.counts@[i * 6 + v] == excursion_count(data@, i, v as nat)
            },
            Err(e) => !enough_cycles(cycles(data@), data@.len()) && e == TestError::NotApplicable,
        },
{
    let ghost s = data@;
    let n = data.len();
    let mut counts: Vec<usize> = vec![0usize; 48];
    let mut cur: Vec<usize> = vec![0usize; 8];
    let mut pos: i128 = 0;
    let mut nz: usize = 0;
    let mut k: usize = 0;
    while k < n
        invariant
            s == data@,
            n == s.len(),
            k <= n,
            pos == psum(s, k as int),
            nz == zeros(s, k as int),
            k > 0 ==> nz < k,
            cur@.len() == 8,
            counts@.len() == 48,
            forall|i: int| 0 <= i < 8 ==> #[trigger] cur@[i] == cycle_visits(s, excursion_state(i), nz as int, k as int),
            forall|i: int, v: int| 0 <= i < 8 && 0 <= v < 6 ==> #[trigger] counts@[i * 6 + v]
                == class_count(s, excursion_state(i), v as nat, nz as int, k as int),
        decreases n - k,
    {
        proof {
            crate::walk::lemma_psum_bounds(s, k as int);
        }
        let bit = data.get(k);
        pos = if bit { pos + 1 } else { pos - 1 };
        let ghost k1 = k + 1;
        assert(pos == psum(s, k1));
        if pos == 0 {
            proof {
                assert forall|i: int, v: int| 0 <= i < 8 && 0 <= v < 6 implies #[trigger] counts@[i * 6 + v] < k1 by {
                    lemma_count_upto_le(nz as int, |c: int| visit_class(cycle_visits(s, excursion_state(i), c, k as int)) == v as nat);
                }
            }
            close_cycle(&mut counts, &cur, k + 1);
            proof {
                assert forall|i: int, v: int| 0 <= i < 8 && 0 <= v < 6 implies #[trigger] counts@[i * 6 + v]
                    == class_count(s, excursion_state(i), v as nat, nz + 1, k1) by {
                    let x = excursion_state(i);
                    let f = |c: int| visit_class(cycle_visits(s, x, c, k as int)) == v as nat;
                    let g = |c: int| visit_class(cycle_visits(s, x, c, k1)) == v as nat;
                    assert forall|c: int| 0 <= c < nz + 1 implies #[trigger] f(c) == g(c) by {
                        assert(cycle_visits(s, x, c, k1) == cycle_visits(s, x, c, k as int));
                    }
                    lemma_count_upto_ext(nz + 1, f, g);
                }
                assert forall|i: int| 0 <= i < 8 implies 0 == cycle_visits(s, excursion_state(i), nz + 1, k1) by {
                    lemma_no_visits_ahead(s, excursion_state(i), nz + 1, k as int);
                }
            }
            cur = vec![0usize; 8];
            nz = nz + 1;
        } else {
            if -4 <= pos && pos <= 4 {
                let at: usize = if pos < 0 { (pos + 4) as usize } else { (pos + 3) as usize };
                proof {
                    lemma_count_upto_le(k as int, |j: int| psum(s, j + 1) == excursion_state(at as int) && zeros(s, j + 1) == nz as int);
                }
                cur.set(at, cur[at] + 1);
            }
            proof {
                assert forall|i: int| 0 <= i < 8 implies #[trigger] cur@[i] == cycle_visits(s, excursion_state(i), nz as int, k1) by {}
                assert forall|i: int, v: int| 0 <= i < 8 && 0 <= v < 6 implies #[trigger] counts@[i * 6 + v]
                    == class_count(s, excursion_state(i), v as nat, nz as int, k1) by {
                    let x = excursion_state(i);
                    let f = |c: int| visit_class(cycle_visits(s, x, c, k as int)) == v as nat;
                    let g = |c: int| visit_class(cycle_visits(s, x, c, k1)) == v as nat;
                    assert forall|c: int| 0 <= c < nz implies #[trigger] f(c) == g(c) by {
                        assert(cycle_visits(s, x, c, k1) == cycle_visits(s, x, c, k as int));
                    }
                    lemma_count_upto_ext(nz as int, f, g);
                }
            }
        }
        k = k + 1;
    }
    let mut total: usize = nz;
    if pos != 0 {
        proof {
            assert forall|i: int, v: int| 0 <= i < 8 && 0 <= v < 6 implies #[trigger] counts@[i * 6 + v] < n by {
                lemma_count_upto_le(nz as int, |c: int| visit_class(cycle_visits(s, excursion_state(i), c, n as int)) == v as nat);
            }
        }
        close_cycle(&mut counts, &cur, n);
        total = nz + 1;
    }
    if !has_enough_cycles(total, n) {
        return Err(TestError::NotApplicable);
    }
    Ok(ExcursionTally { cycles: total, counts })
}

} // verus!
