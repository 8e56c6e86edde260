//! Weapon–target assignment: which shooter engages which target.
//!
//! Rows are shooters, columns are **slots**; a target with several elements offers
//! several slots. `payoff[i][j]` is what shooter `i` contributes in slot `j`, given as an
//! order key: `None` marks a pairing that is not allowed at all, and `Some(k)` a real
//! option whose key `k` orders the options exactly as their payoffs do. The two rules
//! here decide by comparing payoffs and nothing else, so an order key carries all they
//! read.
//!
//! - [`independent`]: every shooter takes its own best slot, ignoring the others.
//! - [`greedy`]: repeatedly commit the best remaining (shooter, slot) pair.

use vstd::prelude::*;

verus! {

/// Which solver to use.
#[derive(Clone, Copy, PartialEq, Eq, Debug, Structural)]
pub enum Solver {
    /// Kuhn–Munkres: the optimal assignment.
    Optimal,
    /// Repeatedly take the best remaining cell.
    Greedy,
    /// Each shooter independently takes its own best slot.
    Independent,
}

impl Default for Solver {
    /// The optimal assignment is the default.
    fn default() -> (r: Solver)
        ensures
            r == Solver::Optimal,
    {
        Solver::Optimal
    }
}

/// The payoff matrix as a sequence of rows.
pub open spec fn matrix(payoff: Seq<Vec<Option<u64>>>) -> Seq<Seq<Option<u64>>> {
    payoff.map_values(|row: Vec<Option<u64>>| row@)
}

/// The narrowest row's length (0 for no rows): a ragged matrix is read as its narrowest
/// row, so every slot index below this exists in every row.
pub open spec fn min_width(p: Seq<Seq<Option<u64>>>) -> nat
    decreases p.len(),
{
    if p.len() == 0 {
        0
    } else if p.len() == 1 {
        p[0].len()
    } else {
        let w = min_width(p.drop_last());
        if p.last().len() < w {
            p.last().len()
        } else {
            w
        }
    }
}

/// The narrowest width is no wider than any row, and is the width of some row.
pub proof fn lemma_min_width_bounds(p: Seq<Seq<Option<u64>>>)
    ensures
        forall|i: int| 0 <= i < p.len() ==> min_width(p) <= #[trigger] p[i].len(),
        p.len() > 0 ==> exists|i: int| 0 <= i < p.len() && min_width(p) == #[trigger] p[i].len(),
    decreases p.len(),
{
    if p.len() > 1 {
        lemma_min_width_bounds(p.drop_last());
        assert forall|i: int| 0 <= i < p.len() implies min_width(p) <= #[trigger] p[i].len() by {
            if i < p.len() - 1 {
                assert(p.drop_last()[i] == p[i]);
            }
        }
        if p.last().len() >= min_width(p.drop_last()) {
            let k = choose|k: int|
                0 <= k < p.drop_last().len() && min_width(p.drop_last())
                    == #[trigger] p.drop_last()[k].len();
            assert(p[k] == p.drop_last()[k]);
        } else {
            assert(min_width(p) == p[p.len() - 1].len());
        }
    } else if p.len() == 1 {
        assert(min_width(p) == p[0].len());
    }
}

/// `(rows, columns)`, treating a ragged matrix as its narrowest row.
pub fn dimensions(payoff: &[Vec<Option<u64>>]) -> (r: (usize, usize))
    ensures
        r.0 == payoff@.len(),
        r.1 == min_width(matrix(payoff@)),
{
    let n = payoff.len();
    let ghost p = matrix(payoff@);
    if n == 0 {
        return (0, 0);
    }
    let mut m = payoff[0].len();
    assert(p.take(1).drop_last().len() == 0);
    assert(min_width(p.take(1)) == p[0].len());
    let mut i: usize = 1;
    while i < n
        invariant
            1 <= i <= n,
            n == payoff@.len(),
            p == matrix(payoff@),
            m == min_width(p.take(i as int)),
        decreases n - i,
    {
        assert(p.take(i + 1).drop_last() =~= p.take(i as int));
        if payoff[i].len() < m {
            m = payoff[i].len();
        }
        i += 1;
    }
    assert(p.take(n as int) =~= p);
    (n, m)
}

/// Slot `j` is shooter-row's best option: it is allowed, no allowed option beats it,
/// and every allowed option before it is strictly worse (ties go to the lower index).
pub open spec fn is_row_best(row: Seq<Option<u64>>, j: int) -> bool {
    &&& 0 <= j < row.len()
    &&& row[j] is Some
    &&& forall|k: int| 0 <= k < row.len() && #[trigger] row[k] is Some ==> row[k]->0 <= row[j]->0
    &&& forall|k: int| 0 <= k < j && #[trigger] row[k] is Some ==> row[k]->0 < row[j]->0
}

/// The row offers no allowed option at all.
pub open spec fn row_all_ineligible(row: Seq<Option<u64>>) -> bool {
    forall|k: int| 0 <= k < row.len() ==> #[trigger] row[k] is None
}

/// At most one slot of a row is its best.
pub proof fn law_a_row_has_one_best_slot(row: Seq<Option<u64>>, j1: int, j2: int)
    requires
        is_row_best(row, j1),
        is_row_best(row, j2),
    ensures
        j1 == j2,
{
    assert(row[j1] is Some && row[j2] is Some);
    if j1 < j2 {
        assert(row[j1]->0 < row[j2]->0);
        assert(row[j1]->0 <= row[j2]->0);
        assert(row[j2]->0 <= row[j1]->0);
    } else if j2 < j1 {
        assert(row[j2]->0 < row[j1]->0);
        assert(row[j1]->0 <= row[j2]->0);
    }
}

/// Each shooter's own best slot, or `None` when it has no allowed option.
fn row_best(row: &Vec<Option<u64>>) -> (r: Option<usize>)
    ensures
        r is None <==> row_all_ineligible(row@),
        r matches Some(j) ==> is_row_best(row@, j as int),
{
    let mut best: Option<(usize, u64)> = None;
    let mut j: usize = 0;
    while j < row.len()
        invariant
            j <= row@.len(),
            best is None <==> (forall|k: int| 0 <= k < j ==> #[trigger] row@[k] is None),
            best matches Some(b) ==> {
                &&& b.0 < j
                &&& row@[b.0 as int] == Some(b.1)
                &&& forall|k: int| 0 <= k < j && #[trigger] row@[k] is Some ==> row@[k]->0 <= b.1
                &&& forall|k: int| 0 <= k < b.0 && #[trigger] row@[k] is Some ==> row@[k]->0 < b.1
            },
        decreases row@.len() - j,
    {
        if let Some(p) = row[j] {
            match best {
                Some((_, bp)) if bp >= p => {},
                _ => {
                    best = Some((j, p));
                },
            }
        }
        j += 1;
    }
    match best {
        Some((j, _)) => Some(j),
        None => None,
    }
}

/// Every shooter takes its own best slot, with no regard for what anyone else does.
///
/// Slots are *not* exclusive here, so two shooters can pile onto the same target: this
/// is the uncoordinated baseline that shows what coordination buys.
pub fn independent(payoff: &[Vec<Option<u64>>]) -> (r: Vec<Option<usize>>)
    ensures
        r@.len() == payoff@.len(),
        forall|i: int|
            0 <= i < r@.len() ==> (#[trigger] r@[i] is None <==> row_all_ineligible(
                payoff@[i]@,
            )),
        forall|i: int|
            0 <= i < r@.len() && #[trigger] r@[i] is Some ==> is_row_best(
                payoff@[i]@,
                r@[i]->0 as int,
            ),
{
    let mut out: Vec<Option<usize>> = Vec::new();
    let mut i: usize = 0;
    while i < payoff.len()
        invariant
            i <= payoff@.len(),
            out@.len() == i,
            forall|k: int|
                0 <= k < i ==> (#[trigger] out@[k] is None <==> row_all_ineligible(payoff@[k]@)),
            forall|k: int|
                0 <= k < i && #[trigger] out@[k] is Some ==> is_row_best(
                    payoff@[k]@,
                    out@[k]->0 as int,
                ),
        decreases payoff@.len() - i,
    {
        let b = row_best(&payoff[i]);
        out.push(b);
        i += 1;
    }
    out
}


/// Where the greedy rule stands between commitments: which slot each shooter holds, and
/// which slots are taken.
pub struct GreedyState {
    /// The slot each shooter holds, by shooter.
    pub assign: Seq<Option<usize>>,
    /// Whether each slot is taken, by slot.
    pub taken: Seq<bool>,
}

/// Nothing committed yet.
pub open spec fn greedy_start(n: nat, m: nat) -> GreedyState {
    GreedyState { assign: Seq::new(n, |i: int| None), taken: Seq::new(m, |j: int| false) }
}

/// Cell `(i, j)` is free and allowed.
pub open spec fn open_cell(p: Seq<Seq<Option<u64>>>, m: int, s: GreedyState, i: int, j: int) -> bool {
    &&& 0 <= i < s.assign.len()
    &&& 0 <= j < m
    &&& s.assign[i] is None
    &&& !s.taken[j]
    &&& p[i][j] is Some
}

/// Cell `(i, j)` is the best remaining pair: free, allowed, no free allowed cell beats
/// it, and every free allowed cell before it in row-major order is strictly worse
/// (ties go to the lower shooter, then the lower slot).
pub open spec fn is_best_cell(p: Seq<Seq<Option<u64>>>, m: int, s: GreedyState, i: int, j: int) -> bool {
    &&& open_cell(p, m, s, i, j)
    &&& forall|i2: int, j2: int|
        #[trigger] open_cell(p, m, s, i2, j2) ==> p[i2][j2]->0 <= p[i][j]->0
    &&& forall|i2: int, j2: int|
        #[trigger] open_cell(p, m, s, i2, j2) && (i2 < i || (i2 == i && j2 < j)) ==> p[i2][j2]->0
            < p[i][j]->0
}

/// Commit shooter `i` to slot `j`.
pub open spec fn commit(s: GreedyState, i: int, j: int) -> GreedyState {
    GreedyState { assign: s.assign.update(i, Some(j as usize)), taken: s.taken.update(j, true) }
}

/// One greedy step: commit the best remaining pair, or stay put when none is left.
pub open spec fn greedy_next(p: Seq<Seq<Option<u64>>>, m: int, s: GreedyState) -> GreedyState {
    if exists|c: (int, int)| is_best_cell(p, m, s, c.0, c.1) {
        let c = choose|c: (int, int)| is_best_cell(p, m, s, c.0, c.1);
        commit(s, c.0, c.1)
    } else {
        s
    }
}

/// The state after `k` greedy steps over the first `m` slots of `p`.
pub open spec fn greedy_after(p: Seq<Seq<Option<u64>>>, m: nat, k: nat) -> GreedyState
    decreases k,
{
    if k == 0 {
        greedy_start(p.len(), m)
    } else {
        greedy_next(p, m as int, greedy_after(p, m, (k - 1) as nat))
    }
}

/// What [`greedy`] returns for `p`: the state after `min(rows, slots)` steps.
pub open spec fn greedy_result(p: Seq<Seq<Option<u64>>>) -> Seq<Option<usize>> {
    let m = min_width(p);
    let k = if p.len() < m { p.len() } else { m };
    greedy_after(p, m, k).assign
}

/// At most one cell is the best remaining pair.
pub proof fn lemma_best_cell_unique(
    p: Seq<Seq<Option<u64>>>,
    m: int,
    s: GreedyState,
    i1: int,
    j1: int,
    i2: int,
    j2: int,
)
    requires
        is_best_cell(p, m, s, i1, j1),
        is_best_cell(p, m, s, i2, j2),
    ensures
        i1 == i2 && j1 == j2,
{
    assert(open_cell(p, m, s, i1, j1));
    assert(open_cell(p, m, s, i2, j2));
    if i1 < i2 || (i1 == i2 && j1 < j2) {
        assert(p[i1][j1]->0 < p[i2][j2]->0);
        assert(p[i2][j2]->0 <= p[i1][j1]->0);
    } else if i2 < i1 || (i1 == i2 && j2 < j1) {
        assert(p[i2][j2]->0 < p[i1][j1]->0);
        assert(p[i1][j1]->0 <= p[i2][j2]->0);
    }
}

/// Once no pair is left, further steps change nothing.
pub proof fn lemma_greedy_stalls(p: Seq<Seq<Option<u64>>>, m: nat, k: nat, k2: nat)
    requires
        k <= k2,
        !exists|c: (int, int)| is_best_cell(p, m as int, greedy_after(p, m, k), c.0, c.1),
    ensures
        greedy_after(p, m, k2) == greedy_after(p, m, k),
    decreases k2 - k,
{
    if k2 > k {
        lemma_greedy_stalls(p, m, k, (k2 - 1) as nat);
    }
}

/// How many shooters hold a slot.
pub open spec fn count_some(a: Seq<Option<usize>>) -> nat
    decreases a.len(),
{
    if a.len() == 0 {
        0
    } else {
        count_some(a.drop_last()) + if a.last() is Some { 1nat } else { 0nat }
    }
}

/// How many slots are taken.
pub open spec fn count_true(t: Seq<bool>) -> nat
    decreases t.len(),
{
    if t.len() == 0 {
        0
    } else {
        count_true(t.drop_last()) + if t.last() { 1nat } else { 0nat }
    }
}

proof fn lemma_count_some_update(a: Seq<Option<usize>>, i: int, v: usize)
    requires
        0 <= i < a.len(),
        a[i] is None,
    ensures
        count_some(a.update(i, Some(v))) == count_some(a) + 1,
    decreases a.len(),
{
    if i < a.len() - 1 {
        assert(a.update(i, Some(v)).drop_last() =~= a.drop_last().update(i, Some(v)));
        lemma_count_some_update(a.drop_last(), i, v);
    } else {
        assert(a.update(i, Some(v)).drop_last() =~= a.drop_last());
    }
}

proof fn lemma_count_true_update(t: Seq<bool>, j: int)
    requires
        0 <= j < t.len(),
        !t[j],
    ensures
        count_true(t.update(j, true)) == count_true(t) + 1,
    decreases t.len(),
{
    if j < t.len() - 1 {
        assert(t.update(j, true).drop_last() =~= t.drop_last().update(j, true));
        lemma_count_true_update(t.drop_last(), j);
    } else {
        assert(t.update(j, true).drop_last() =~= t.drop_last());
    }
}

proof fn lemma_count_some_full(a: Seq<Option<usize>>)
    requires
        count_some(a) >= a.len(),
    ensures
        forall|i: int| 0 <= i < a.len() ==> #[trigger] a[i] is Some,
    decreases a.len(),
{
    lemma_count_some_bound(a);
    if a.len() > 0 {
        lemma_count_some_bound(a.drop_last());
        lemma_count_some_full(a.drop_last());
        assert forall|i: int| 0 <= i < a.len() implies #[trigger] a[i] is Some by {
            if i < a.len() - 1 {
                assert(a.drop_last()[i] == a[i]);
            }
        }
    }
}

proof fn lemma_count_some_bound(a: Seq<Option<usize>>)
    ensures
        count_some(a) <= a.len(),
    decreases a.len(),
{
    if a.len() > 0 {
        lemma_count_some_bound(a.drop_last());
    }
}

proof fn lemma_count_true_bound(t: Seq<bool>)
    ensures
        count_true(t) <= t.len(),
    decreases t.len(),
{
    if t.len() > 0 {
        lemma_count_true_bound(t.drop_last());
    }
}

proof fn lemma_count_true_full(t: Seq<bool>)
    requires
        count_true(t) >= t.len(),
    ensures
        forall|j: int| 0 <= j < t.len() ==> #[trigger] t[j],
    decreases t.len(),
{
    lemma_count_true_bound(t);
    if t.len() > 0 {
        lemma_count_true_bound(t.drop_last());
        lemma_count_true_full(t.drop_last());
        assert forall|j: int| 0 <= j < t.len() implies #[trigger] t[j] by {
            if j < t.len() - 1 {
                assert(t.drop_last()[j] == t[j]);
            }
        }
    }
}

proof fn lemma_start_counts(n: nat, m: nat)
    ensures
        count_some(greedy_start(n, m).assign) == 0,
        count_true(greedy_start(n, m).taken) == 0,
    decreases n + m,
{
    if n > 0 {
        lemma_start_counts((n - 1) as nat, m);
        assert(greedy_start(n, m).assign.drop_last() =~= greedy_start((n - 1) as nat, m).assign);
    }
    if m > 0 {
        lemma_start_counts(n, (m - 1) as nat);
        assert(greedy_start(n, m).taken.drop_last() =~= greedy_start(n, (m - 1) as nat).taken);
    }
}

/// The bookkeeping a greedy state keeps consistent: shapes, the taken flags match the
/// held slots, no slot is held twice, every held slot is allowed.
pub open spec fn greedy_consistent(p: Seq<Seq<Option<u64>>>, m: int, s: GreedyState) -> bool {
    &&& s.assign.len() == p.len()
    &&& s.taken.len() == m
    &&& forall|i: int|
        0 <= i < s.assign.len() && #[trigger] s.assign[i] is Some ==> {
            &&& s.assign[i]->0 < m
            &&& s.taken[s.assign[i]->0 as int]
            &&& p[i][s.assign[i]->0 as int] is Some
        }
    &&& forall|i1: int, i2: int|
        0 <= i1 < s.assign.len() && 0 <= i2 < s.assign.len() && i1 != i2
            && #[trigger] s.assign[i1] is Some && #[trigger] s.assign[i2] is Some ==> s.assign[i1]
            != s.assign[i2]
    &&& forall|j: int|
        0 <= j < m && #[trigger] s.taken[j] ==> exists|i: int|
            0 <= i < s.assign.len() && #[trigger] s.assign[i] == Some(j as usize)
    &&& count_some(s.assign) == count_true(s.taken)
}

proof fn lemma_commit_consistent(p: Seq<Seq<Option<u64>>>, m: int, s: GreedyState, i: int, j: int)
    requires
        greedy_consistent(p, m, s),
        open_cell(p, m, s, i, j),
        m <= usize::MAX,
    ensures
        greedy_consistent(p, m, commit(s, i, j)),
        count_some(commit(s, i, j).assign) == count_some(s.assign) + 1,
{
    let s2 = commit(s, i, j);
    lemma_count_some_update(s.assign, i, j as usize);
    lemma_count_true_update(s.taken, j);
    assert forall|i1: int, i2: int|
        0 <= i1 < s2.assign.len() && 0 <= i2 < s2.assign.len() && i1 != i2
            && #[trigger] s2.assign[i1] is Some && #[trigger] s2.assign[i2] is Some implies s2.assign[i1]
        != s2.assign[i2] by {
        if i1 != i && i2 != i {
            assert(s.assign[i1] is Some && s.assign[i2] is Some);
        } else if i1 == i {
            assert(s.assign[i2] is Some);
            assert(s.taken[s.assign[i2]->0 as int]);
        } else {
            assert(s.assign[i1] is Some);
            assert(s.taken[s.assign[i1]->0 as int]);
        }
    }
    assert forall|j2: int| 0 <= j2 < m && #[trigger] s2.taken[j2] implies exists|i2: int|
        0 <= i2 < s2.assign.len() && #[trigger] s2.assign[i2] == Some(j2 as usize) by {
        if j2 == j {
            assert(s2.assign[i] == Some(j as usize));
        } else {
            assert(s.taken[j2]);
            let i3 = choose|i3: int| 0 <= i3 < s.assign.len() && #[trigger] s.assign[i3] == Some(j2 as usize);
            assert(i3 != i);
            assert(s2.assign[i3] == Some(j2 as usize));
        }
    }
}

/// Repeatedly commit the best remaining (shooter, slot) pair.
///
/// Each shooter and each slot is used at most once. Ties break on the lower shooter index
/// then the lower slot index, so the result is deterministic.
pub fn greedy(payoff: &[Vec<Option<u64>>]) -> (r: Vec<Option<usize>>)
    ensures
        r@ == greedy_result(matrix(payoff@)),
        r@.len() == payoff@.len(),
        // Every committed pairing is an allowed cell inside the narrowest row.
        forall|i: int|
            0 <= i < r@.len() && #[trigger] r@[i] is Some ==> {
                &&& r@[i]->0 < min_width(matrix(payoff@))
                &&& payoff@[i]@[r@[i]->0 as int] is Some
            },
        // No slot is used twice.
        forall|i1: int, i2: int|
            0 <= i1 < r@.len() && 0 <= i2 < r@.len() && i1 != i2 && #[trigger] r@[i1] is Some
                && #[trigger] r@[i2] is Some ==> r@[i1] != r@[i2],
        // Nothing allowed is left on the table: an idle shooter has no allowed free slot.
        forall|i: int, j: int|
            0 <= i < r@.len() && 0 <= j < min_width(matrix(payoff@)) && #[trigger] r@[i] is None
                && (forall|i2: int| 0 <= i2 < r@.len() ==> #[trigger] r@[i2] != Some(j as usize))
                ==> #[trigger] payoff@[i]@[j] is None,
{
    let ghost p = matrix(payoff@);
    let (n, m) = dimensions(payoff);
    proof {
        lemma_min_width_bounds(p);
        lemma_start_counts(n as nat, m as nat);
    }
    let mut assignment: Vec<Option<usize>> = Vec::new();
    let mut shooter_taken: Vec<bool> = Vec::new();
    let mut k: usize = 0;
    while k < n
        invariant
            k <= n,
            assignment@.len() == k,
            shooter_taken@.len() == k,
            forall|i: int| 0 <= i < k ==> #[trigger] assignment@[i] is None,
            forall|i: int| 0 <= i < k ==> !#[trigger] shooter_taken@[i],
        decreases n - k,
    {
        assignment.push(None);
        shooter_taken.push(false);
        k += 1;
    }
    let mut slot_taken: Vec<bool> = Vec::new();
    k = 0;
    while k < m
        invariant
            k <= m,
            slot_taken@.len() == k,
            forall|j: int| 0 <= j < k ==> !#[trigger] slot_taken@[j],
        decreases m - k,
    {
        slot_taken.push(false);
        k += 1;
    }
    assert(assignment@ =~= greedy_start(n as nat, m as nat).assign);
    assert(slot_taken@ =~= greedy_start(n as nat, m as nat).taken);
    let steps = if n < m { n } else { m };
    let mut step: usize = 0;
    let mut stalled = false;
    while step < steps
        invariant
            n == payoff@.len(),
            n == p.len(),
            p == matrix(payoff@),
            m == min_width(p),
            forall|i: int| 0 <= i < p.len() ==> m <= #[trigger] p[i].len(),
            steps == if n < m { n } else { m },
            step <= steps,
            assignment@ == greedy_after(p, m as nat, step as nat).assign,
            slot_taken@ == greedy_after(p, m as nat, step as nat).taken,
            shooter_taken@.len() == n,
            forall|i: int| 0 <= i < n ==> #[trigger] shooter_taken@[i] == assignment@[i] is Some,
            greedy_consistent(p, m as int, greedy_after(p, m as nat, step as nat)),
            !stalled ==> count_some(assignment@) == step,
            stalled ==> !exists|c: (int, int)|
                is_best_cell(p, m as int, greedy_after(p, m as nat, step as nat), c.0, c.1),
            stalled ==> forall|i: int, j: int| !open_cell(p, m as int, greedy_after(p, m as nat, step as nat), i, j),
        decreases steps - step + if stalled { 0int } else { 1int },
    {
        if stalled {
            proof {
                lemma_greedy_stalls(p, m as nat, step as nat, (step + 1) as nat);
            }
            step += 1;
            continue;
        }
        let ghost s = greedy_after(p, m as nat, step as nat);
        let mut best: Option<(usize, usize, u64)> = None;
        let mut i: usize = 0;
        while i < n
            invariant
                n == payoff@.len(),
                p == matrix(payoff@),
                forall|i3: int| 0 <= i3 < p.len() ==> m <= #[trigger] p[i3].len(),
                i <= n,
                s.assign == assignment@,
                s.taken == slot_taken@,
                s.assign.len() == n,
                s.taken.len() == m,
                shooter_taken@.len() == n,
                forall|i3: int| 0 <= i3 < n ==> #[trigger] shooter_taken@[i3] == assignment@[i3] is Some,
                best is None ==> forall|i2: int, j2: int| i2 < i ==> !#[trigger] open_cell(p, m as int, s, i2, j2),
                best matches Some(b) ==> {
                    &&& b.0 < i
                    &&& open_cell(p, m as int, s, b.0 as int, b.1 as int)
                    &&& p[b.0 as int][b.1 as int] == Some(b.2)
                    &&& forall|i2: int, j2: int|
                        i2 < i && #[trigger] open_cell(p, m as int, s, i2, j2) ==> p[i2][j2]->0 <= b.2
                    &&& forall|i2: int, j2: int|
                        #[trigger] open_cell(p, m as int, s, i2, j2) && (i2 < b.0 || (i2 == b.0 && j2 < b.1))
                            ==> p[i2][j2]->0 < b.2
                },
            decreases n - i,
        {
            if !shooter_taken[i] {
                let row = &payoff[i];
                assert(row@ == p[i as int]);
                let mut j: usize = 0;
                while j < m
                    invariant
                        n == payoff@.len(),
                        p == matrix(payoff@),
                        row@ == p[i as int],
                        m <= row@.len(),
                        i < n,
                        j <= m,
                        s.assign == assignment@,
                        s.taken == slot_taken@,
                        s.assign.len() == n,
                        s.taken.len() == m,
                        s.assign[i as int] is None,
                        best is None ==> forall|i2: int, j2: int|
                            (i2 < i || (i2 == i && j2 < j)) ==> !#[trigger] open_cell(p, m as int, s, i2, j2),
                        best matches Some(b) ==> {
                            &&& (b.0 < i || (b.0 == i && b.1 < j))
                            &&& open_cell(p, m as int, s, b.0 as int, b.1 as int)
                            &&& p[b.0 as int][b.1 as int] == Some(b.2)
                            &&& forall|i2: int, j2: int|
                                (i2 < i || (i2 == i && j2 < j)) && #[trigger] open_cell(p, m as int, s, i2, j2)
                                    ==> p[i2][j2]->0 <= b.2
                            &&& forall|i2: int, j2: int|
                                #[trigger] open_cell(p, m as int, s, i2, j2) && (i2 < b.0 || (i2 == b.0 && j2 < b.1))
                                    ==> p[i2][j2]->0 < b.2
                        },
                    decreases m - j,
                {
                    if !slot_taken[j] {
                        if let Some(pv) = row[j] {
                            let replace = match best {
                                None => true,
                                Some((_, _, bp)) => pv > bp,
                            };
                            if replace {
                                best = Some((i, j, pv));
                            }
                        }
                    }
                    j += 1;
                }
            }
            i += 1;
        }
        match best {
            None => {
                assert(!exists|c: (int, int)| is_best_cell(p, m as int, s, c.0, c.1));
                stalled = true;
                proof {
                    lemma_greedy_stalls(p, m as nat, step as nat, (step + 1) as nat);
                }
            },
            Some((bi, bj, _)) => {
                assert(is_best_cell(p, m as int, s, bi as int, bj as int));
                proof {
                    let w: (int, int) = (bi as int, bj as int);
                    assert(is_best_cell(p, m as int, s, w.0, w.1));
                    let c = choose|c: (int, int)| is_best_cell(p, m as int, s, c.0, c.1);
                    lemma_best_cell_unique(p, m as int, s, c.0, c.1, bi as int, bj as int);
                    lemma_commit_consistent(p, m as int, s, bi as int, bj as int);
                }
                assignment.set(bi, Some(bj));
                shooter_taken.set(bi, true);
                slot_taken.set(bj, true);
                assert(assignment@ =~= commit(s, bi as int, bj as int).assign);
                assert(slot_taken@ =~= commit(s, bi as int, bj as int).taken);
            },
        }
        step += 1;
    }
    proof {
        let s = greedy_after(p, m as nat, steps as nat);
        if !stalled {
            if n <= m {
                lemma_count_some_full(s.assign);
            } else {
                lemma_count_true_full(s.taken);
            }
        }
        assert forall|i: int, j: int|
            0 <= i < assignment@.len() && 0 <= j < m && #[trigger] assignment@[i] is None
                && (forall|i2: int| 0 <= i2 < assignment@.len() ==> #[trigger] assignment@[i2] != Some(j as usize))
            implies #[trigger] payoff@[i]@[j] is None by {
            assert(p[i] == payoff@[i]@);
            if s.taken[j] {
                let i3 = choose|i3: int| 0 <= i3 < s.assign.len() && #[trigger] s.assign[i3] == Some(j as usize);
                assert(assignment@[i3] != Some(j as usize));
            }
            assert(!open_cell(p, m as int, s, i, j));
        }
        assert forall|i: int|
            0 <= i < assignment@.len() && #[trigger] assignment@[i] is Some implies
                payoff@[i]@[assignment@[i]->0 as int] is Some by {
            assert(p[i] == payoff@[i]@);
        }
    }
    assignment
}


/// The best free allowed slot of shooter `i` among its first `j` slots (ties go to the
/// lower slot), or `None` when it has none there.
pub open spec fn row_scan(p: Seq<Seq<Option<u64>>>, m: int, s: GreedyState, i: int, j: int) -> Option<int>
    decreases j,
{
    if j <= 0 {
        None
    } else {
        let b = row_scan(p, m, s, i, j - 1);
        if open_cell(p, m, s, i, j - 1) && (b is None || p[i][j - 1]->0 > p[i][b->0]->0) {
            Some(j - 1)
        } else {
            b
        }
    }
}

/// The best free allowed cell among the first `i` shooters, scanning in row-major order.
pub open spec fn grid_scan(p: Seq<Seq<Option<u64>>>, m: int, s: GreedyState, i: int) -> Option<(int, int)>
    decreases i,
{
    if i <= 0 {
        None
    } else {
        let b = grid_scan(p, m, s, i - 1);
        match row_scan(p, m, s, i - 1, m) {
            Some(c) => if b is None || p[i - 1][c]->0 > p[b.unwrap().0][b.unwrap().1]->0 {
                Some((i - 1, c))
            } else {
                b
            },
            None => b,
        }
    }
}

proof fn lemma_row_scan(p: Seq<Seq<Option<u64>>>, m: int, s: GreedyState, i: int, j: int)
    requires
        0 <= j <= m,
    ensures
        row_scan(p, m, s, i, j) is None <==> (forall|j2: int| 0 <= j2 < j ==> !#[trigger] open_cell(p, m, s, i, j2)),
        row_scan(p, m, s, i, j) matches Some(c) ==> {
            &&& 0 <= c < j
            &&& open_cell(p, m, s, i, c)
            &&& forall|j2: int| 0 <= j2 < j && #[trigger] open_cell(p, m, s, i, j2) ==> p[i][j2]->0 <= p[i][c]->0
            &&& forall|j2: int| 0 <= j2 < c && #[trigger] open_cell(p, m, s, i, j2) ==> p[i][j2]->0 < p[i][c]->0
        },
    decreases j,
{
    if j > 0 {
        lemma_row_scan(p, m, s, i, j - 1);
    }
}

proof fn lemma_grid_scan(p: Seq<Seq<Option<u64>>>, m: int, s: GreedyState, i: int)
    requires
        0 <= i,
        0 <= m,
    ensures
        grid_scan(p, m, s, i) is None <==> (forall|i2: int, j2: int| 0 <= i2 < i ==> !#[trigger] open_cell(p, m, s, i2, j2)),
        grid_scan(p, m, s, i) matches Some(c) ==> {
            &&& 0 <= c.0 < i
            &&& open_cell(p, m, s, c.0, c.1)
            &&& forall|i2: int, j2: int| 0 <= i2 < i && #[trigger] open_cell(p, m, s, i2, j2) ==> p[i2][j2]->0 <= p[c.0][c.1]->0
            &&& forall|i2: int, j2: int|
                #[trigger] open_cell(p, m, s, i2, j2) && (i2 < c.0 || (i2 == c.0 && j2 < c.1)) ==> p[i2][j2]->0 < p[c.0][c.1]->0
        },
    decreases i,
{
    if i > 0 {
        lemma_grid_scan(p, m, s, i - 1);
        lemma_row_scan(p, m, s, i - 1, m);
        assert forall|j2: int| #[trigger] open_cell(p, m, s, i - 1, j2) implies 0 <= j2 < m by {}
    }
}

/// Whenever some pair is still free and allowed, a best remaining pair exists.
pub proof fn lemma_best_cell_exists(p: Seq<Seq<Option<u64>>>, m: int, s: GreedyState, i0: int, j0: int)
    requires
        0 <= m,
        open_cell(p, m, s, i0, j0),
    ensures
        exists|c: (int, int)| is_best_cell(p, m, s, c.0, c.1),
{
    let n = s.assign.len() as int;
    lemma_grid_scan(p, m, s, n);
    assert(!(forall|i2: int, j2: int| 0 <= i2 < n ==> !#[trigger] open_cell(p, m, s, i2, j2)));
    let c = grid_scan(p, m, s, n)->0;
    assert forall|i2: int, j2: int| #[trigger] open_cell(p, m, s, i2, j2) implies p[i2][j2]->0 <= p[c.0][c.1]->0 by {
        assert(0 <= i2 < n);
    }
    assert(is_best_cell(p, m, s, c.0, c.1));
}

proof fn lemma_greedy_after(p: Seq<Seq<Option<u64>>>, m: nat, k: nat)
    requires
        m <= usize::MAX,
    ensures
        greedy_consistent(p, m as int, greedy_after(p, m, k)),
        count_some(greedy_after(p, m, k).assign) == k || (forall|i: int, j: int|
            !#[trigger] open_cell(p, m as int, greedy_after(p, m, k), i, j)),
    decreases k,
{
    if k == 0 {
        lemma_start_counts(p.len(), m);
    } else {
        lemma_greedy_after(p, m, (k - 1) as nat);
        let s = greedy_after(p, m, (k - 1) as nat);
        if exists|c: (int, int)| is_best_cell(p, m as int, s, c.0, c.1) {
            let c = choose|c: (int, int)| is_best_cell(p, m as int, s, c.0, c.1);
            lemma_commit_consistent(p, m as int, s, c.0, c.1);
        } else {
            assert forall|i: int, j: int| !#[trigger] open_cell(p, m as int, s, i, j) by {
                if open_cell(p, m as int, s, i, j) {
                    lemma_best_cell_exists(p, m as int, s, i, j);
                }
            }
        }
    }
}

/// What [`greedy`] returns, stated of the result itself: every committed pairing is
/// allowed, no slot is held twice, and an idle shooter has no allowed slot that nobody
/// holds.
pub proof fn lemma_greedy_result(p: Seq<Seq<Option<u64>>>)
    requires
        min_width(p) <= usize::MAX,
    ensures
        greedy_result(p).len() == p.len(),
        forall|i: int|
            0 <= i < p.len() && #[trigger] greedy_result(p)[i] is Some ==> {
                &&& greedy_result(p)[i]->0 < min_width(p)
                &&& p[i][greedy_result(p)[i]->0 as int] is Some
            },
        forall|i1: int, i2: int|
            0 <= i1 < p.len() && 0 <= i2 < p.len() && i1 != i2 && #[trigger] greedy_result(p)[i1] is Some
                && #[trigger] greedy_result(p)[i2] is Some ==> greedy_result(p)[i1] != greedy_result(p)[i2],
        forall|i: int, j: int|
            0 <= i < p.len() && 0 <= j < min_width(p) && #[trigger] greedy_result(p)[i] is None
                && (forall|i2: int| 0 <= i2 < p.len() ==> #[trigger] greedy_result(p)[i2] != Some(j as usize))
                ==> #[trigger] p[i][j] is None,
{
    let m = min_width(p);
    let k = if p.len() < m { p.len() } else { m };
    lemma_greedy_after(p, m, k);
    let s = greedy_after(p, m, k);
    if count_some(s.assign) == k {
        if k == p.len() {
            lemma_count_some_full(s.assign);
        } else {
            lemma_count_true_full(s.taken);
        }
    }
    assert forall|i: int, j: int| !#[trigger] open_cell(p, m as int, s, i, j) by {}
    assert forall|i: int, j: int|
        0 <= i < p.len() && 0 <= j < m && #[trigger] s.assign[i] is None
            && (forall|i2: int| 0 <= i2 < p.len() ==> #[trigger] s.assign[i2] != Some(j as usize))
        implies #[trigger] p[i][j] is None by {
        if s.taken[j] {
            let i3 = choose|i3: int| 0 <= i3 < s.assign.len() && #[trigger] s.assign[i3] == Some(j as usize);
            assert(s.assign[i3] != Some(j as usize));
        }
        assert(!open_cell(p, m as int, s, i, j));
    }
}

} // verus!
