//! Fire-control bookkeeping around the assignment: how targets are laid out as slots,
//! how many shooters each target already has, which pairs a solved assignment names,
//! and who is left for the next round.
//!
//! Every target offers a run of consecutive slots, one per shooter that might still come
//! to it. Slot `k` of a run is the `(k+1)`-th shooter on that target counting those
//! already committed, which is what lets a diminishing-return payoff continue its
//! sequence rather than restart it.

use vstd::prelude::*;
use vstd::arithmetic::div_mod::lemma_fundamental_div_mod_converse;
use vstd::set_lib::{lemma_int_range, lemma_len_subset, lemma_map_size, set_int_range};
use crate::allocation::{count_some, greedy_result, lemma_greedy_result, matrix, min_width};
use crate::doctrine::{name_seq, Order};
use crate::events::FireTarget;
use crate::names::same_name;
use crate::state::Side;

verus! {

/// Lay out `taken.len()` targets as runs of `per_target` slots each.
///
/// Slot `j` belongs to target `j / per_target`, and its rank is the number of shooters
/// already on that target plus its place in the run, so the first slot offered on a
/// target that already holds `taken[t]` shooters is the `(taken[t]+1)`-th.
pub fn slot_layout(taken: &[u32], per_target: u32) -> (r: (Vec<usize>, Vec<u32>))
    requires
        forall|t: int| 0 <= t < taken@.len() ==> taken@[t] + per_target <= u32::MAX,
        taken@.len() * per_target <= usize::MAX,
    ensures
        r.0@.len() == taken@.len() * per_target,
        r.1@.len() == taken@.len() * per_target,
        forall|j: int|
            0 <= j < r.0@.len() ==> #[trigger] r.0@[j] == j / (per_target as int) && r.1@[j]
                == taken@[j / (per_target as int)] + j % (per_target as int),
{
    let n = taken.len();
    let ghost per = per_target as int;
    let mut slot_target: Vec<usize> = Vec::new();
    let mut slot_rank: Vec<u32> = Vec::new();
    let mut t: usize = 0;
    while t < n
        invariant
            t <= n,
            n == taken@.len(),
            per == per_target as int,
            forall|u: int| 0 <= u < taken@.len() ==> taken@[u] + per_target <= u32::MAX,
            slot_target@.len() == t * per,
            slot_rank@.len() == t * per,
            forall|j: int|
                0 <= j < slot_target@.len() ==> #[trigger] slot_target@[j] == j / per && slot_rank@[j]
                    == taken@[j / per] + j % per,
        decreases n - t,
    {
        let mut k: u32 = 0;
        while k < per_target
            invariant
                t < n,
                n == taken@.len(),
                per == per_target as int,
                k <= per_target,
                taken@[t as int] + per_target <= u32::MAX,
                slot_target@.len() == t * per + k,
                slot_rank@.len() == t * per + k,
                forall|j: int|
                    0 <= j < slot_target@.len() ==> #[trigger] slot_target@[j] == j / per && slot_rank@[j]
                        == taken@[j / per] + j % per,
            decreases per_target - k,
        {
            proof {
                lemma_fundamental_div_mod_converse(t * per + k, per, t as int, k as int);
            }
            slot_target.push(t);
            slot_rank.push(taken[t] + k);
            k += 1;
        }
        assert((t + 1) * per == t * per + per) by (nonlinear_arith);
        t += 1;
    }
    (slot_target, slot_rank)
}

/// How many of the pairs in `assigned` name target `t`.
pub open spec fn count_on(assigned: Seq<(usize, FireTarget)>, t: FireTarget) -> nat
    decreases assigned.len(),
{
    if assigned.len() == 0 {
        0
    } else {
        count_on(assigned.drop_last(), t) + if assigned.last().1 == t {
            1nat
        } else {
            0nat
        }
    }
}

/// How many shooters are already committed to each target, parallel to `targets`.
///
/// A locked or ordered shooter occupies a slot on its target just as a fresh assignment
/// does, so it counts against that target's diminishing return. Counts are kept as
/// `u32`, as the slot ranks are.
pub fn slots_taken(targets: &[FireTarget], assigned: &[(usize, FireTarget)]) -> (r: Vec<u32>)
    ensures
        r@.len() == targets@.len(),
        forall|k: int| 0 <= k < r@.len() ==> #[trigger] r@[k] == count_on(assigned@, targets@[k]) as u32,
{
    let mut out: Vec<u32> = Vec::new();
    let mut k: usize = 0;
    while k < targets.len()
        invariant
            k <= targets@.len(),
            out@.len() == k,
            forall|q: int| 0 <= q < k ==> #[trigger] out@[q] == count_on(assigned@, targets@[q]) as u32,
        decreases targets@.len() - k,
    {
        let t = targets[k];
        let mut c: usize = 0;
        let mut i: usize = 0;
        while i < assigned.len()
            invariant
                i <= assigned@.len(),
                c <= i,
                c == count_on(assigned@.take(i as int), t),
            decreases assigned@.len() - i,
        {
            assert(assigned@.take(i + 1).drop_last() =~= assigned@.take(i as int));
            if assigned[i].1 == t {
                c += 1;
            }
            i += 1;
        }
        assert(assigned@.take(assigned@.len() as int) =~= assigned@);
        out.push(c as u32);
        k += 1;
    }
    out
}

/// The shooters named in a list of pairs.
pub open spec fn shooters_of(pairs: Seq<(usize, FireTarget)>) -> Seq<usize> {
    pairs.map_values(|p: (usize, FireTarget)| p.0)
}

/// The shooters of `remaining` that no pair in `chosen` names, in their order.
pub open spec fn unchosen(remaining: Seq<usize>, chosen: Seq<(usize, FireTarget)>) -> Seq<usize> {
    remaining.filter(|s: usize| !shooters_of(chosen).contains(s))
}

/// Keep only the shooters that `chosen` did not assign: those fall through to the next
/// round of assignment.
pub fn without_chosen(remaining: &[usize], chosen: &[(usize, FireTarget)]) -> (r: Vec<usize>)
    ensures
        r@ == unchosen(remaining@, chosen@),
{
    let ghost pred = |s: usize| !shooters_of(chosen@).contains(s);
    let mut out: Vec<usize> = Vec::new();
    let mut i: usize = 0;
    while i < remaining.len()
        invariant
            i <= remaining@.len(),
            pred == (|s: usize| !shooters_of(chosen@).contains(s)),
            out@ == remaining@.take(i as int).filter(pred),
        decreases remaining@.len() - i,
    {
        assert(remaining@.take(i + 1).drop_last() =~= remaining@.take(i as int));
        let s = remaining[i];
        let mut found = false;
        let mut k: usize = 0;
        while k < chosen.len()
            invariant
                k <= chosen@.len(),
                found == shooters_of(chosen@).take(k as int).contains(s),
            decreases chosen@.len() - k,
        {
            proof {
                let a = shooters_of(chosen@).take(k as int);
                let b = shooters_of(chosen@).take(k + 1);
                assert(b[k as int] == chosen@[k as int].0);
                if a.contains(s) {
                    let w = choose|w: int| 0 <= w < a.len() && a[w] == s;
                    assert(b[w] == s);
                }
                if b.contains(s) && chosen@[k as int].0 != s {
                    let w = choose|w: int| 0 <= w < b.len() && b[w] == s;
                    assert(a[w] == s);
                }
            }
            if chosen[k].0 == s {
                found = true;
            }
            k += 1;
        }
        assert(shooters_of(chosen@).take(chosen@.len() as int) =~= shooters_of(chosen@));
        assert(remaining@.take(i + 1).last() == s);
        assert(pred(s) == !found);
        proof {
            reveal(Seq::filter);
        }
        if !found {
            out.push(s);
        }
        i += 1;
    }
    assert(remaining@.take(remaining@.len() as int) =~= remaining@);
    out
}

/// Offering every target one slot per shooter means no shooter that can reach a target
/// is left idle by the greedy assignment.
///
/// The slots are laid out as [`slot_layout`] lays them out, `per_target` to a target,
/// and whether a shooter may take a slot depends only on the slot's target. With at
/// least as many slots on a target as there are shooters, an idle shooter would need
/// every slot of a target it can reach to be held by someone else, which takes more
/// shooters than there are.
pub proof fn law_a_reachable_shooter_is_never_idle(payoff: Seq<Vec<Option<u64>>>, n_targets: nat, per_target: nat)
    requires
        min_width(matrix(payoff)) == n_targets * per_target,
        min_width(matrix(payoff)) <= usize::MAX,
        per_target >= payoff.len(),
        forall|i: int, j1: int, j2: int|
            0 <= i < payoff.len() && 0 <= j1 < n_targets * per_target && 0 <= j2 < n_targets * per_target
                && j1 / (per_target as int) == j2 / (per_target as int) ==> (#[trigger] payoff[i]@[j1] is Some
                <==> #[trigger] payoff[i]@[j2] is Some),
    ensures
        forall|i: int, j: int|
            0 <= i < payoff.len() && #[trigger] greedy_result(matrix(payoff))[i] is None && 0 <= j
                < min_width(matrix(payoff)) ==> #[trigger] payoff[i]@[j] is None,
{
    let p = matrix(payoff);
    let m = min_width(p);
    let r = greedy_result(p);
    let n = payoff.len() as int;
    let per = per_target as int;
    lemma_greedy_result(p);
    assert forall|i0: int, j0: int|
        0 <= i0 < payoff.len() && #[trigger] r[i0] is None && 0 <= j0 < m implies #[trigger] payoff[i0]@[j0]
        is None by {
        if payoff[i0]@[j0] is Some {
            assert(p[i0] == payoff[i0]@);
            assert(per > 0) by (nonlinear_arith)
                requires
                    0 <= j0 < m,
                    m == n_targets * per_target,
                    per == per_target as int,
            ;
            let t = j0 / per;
            assert(0 <= t < n_targets && t * per + per <= m) by (nonlinear_arith)
                requires
                    per > 0,
                    0 <= j0 < m,
                    m == n_targets * per,
                    t == j0 / per,
            ;
            let group = set_int_range(t * per, t * per + per);
            // Every slot of target `t` is one the idle shooter could take, so each is held.
            let holder = |j: int| choose|i2: int| 0 <= i2 < n && r[i2] == Some(j as usize);
            assert forall|j: int| #[trigger] group.contains(j) implies 0 <= holder(j) < n && r[holder(j)]
                == Some(j as usize) && holder(j) != i0 by {
                lemma_fundamental_div_mod_converse(j, per, t, j - t * per);
                assert(j / per == j0 / per);
                assert(payoff[i0]@[j] is Some);
                assert(p[i0][j] is Some);
                assert(exists|i2: int| 0 <= i2 < n && r[i2] == Some(j as usize));
            }
            assert(vstd::relations::injective_on(holder, group)) by {
                assert forall|j1: int, j2: int|
                    group.contains(j1) && group.contains(j2) && #[trigger] holder(j1) == #[trigger] holder(j2)
                    implies j1 == j2 by {
                    assert(r[holder(j1)] == Some(j1 as usize));
                    assert(r[holder(j2)] == Some(j2 as usize));
                }
            }
            lemma_int_range(t * per, t * per + per);
            lemma_map_size(group, group.map(holder), holder);
            let others = set_int_range(0, n).remove(i0);
            lemma_int_range(0, n);
            assert(group.map(holder).subset_of(others)) by {
                assert forall|x: int| #[trigger] group.map(holder).contains(x) implies others.contains(x) by {
                    let j = choose|j: int| group.contains(j) && holder(j) == x;
                }
            }
            lemma_len_subset(group.map(holder), others);
            assert(false);
        }
    }
}


/// The `(shooter, target)` pairs a solved assignment names, in shooter order: shooter
/// `i` that holds slot `j` engages the target slot `j` belongs to.
pub open spec fn slot_pairs(
    shooters: Seq<usize>,
    targets: Seq<FireTarget>,
    slot_target: Seq<usize>,
    slots: Seq<Option<usize>>,
) -> Seq<(usize, FireTarget)>
    decreases slots.len(),
{
    if slots.len() == 0 {
        Seq::empty()
    } else {
        let before = slot_pairs(shooters, targets, slot_target, slots.drop_last());
        match slots.last() {
            Some(j) => before.push((shooters[slots.len() - 1], targets[slot_target[j as int] as int])),
            None => before,
        }
    }
}

/// Turn an assignment over slots back into `(shooter, target)` pairs.
pub fn pairs_from_slots(
    shooters: &[usize],
    targets: &[FireTarget],
    slot_target: &[usize],
    slots: &[Option<usize>],
) -> (r: Vec<(usize, FireTarget)>)
    requires
        slots@.len() <= shooters@.len(),
        forall|i: int|
            0 <= i < slots@.len() && #[trigger] slots@[i] is Some ==> slots@[i]->0 < slot_target@.len()
                && slot_target@[slots@[i]->0 as int] < targets@.len(),
    ensures
        r@ == slot_pairs(shooters@, targets@, slot_target@, slots@),
        r@.len() == count_some(slots@),
        forall|i: int|
            0 <= i < slots@.len() && #[trigger] slots@[i] is Some ==> r@.contains(
                (shooters@[i], targets@[slot_target@[slots@[i]->0 as int] as int]),
            ),
{
    proof {
        law_every_assigned_row_is_read_back(shooters@, targets@, slot_target@, slots@);
    }
    let mut out: Vec<(usize, FireTarget)> = Vec::new();
    let mut i: usize = 0;
    while i < slots.len()
        invariant
            i <= slots@.len(),
            slots@.len() <= shooters@.len(),
            forall|q: int|
                0 <= q < slots@.len() && #[trigger] slots@[q] is Some ==> slots@[q]->0 < slot_target@.len()
                    && slot_target@[slots@[q]->0 as int] < targets@.len(),
            out@ == slot_pairs(shooters@, targets@, slot_target@, slots@.take(i as int)),
        decreases slots@.len() - i,
    {
        assert(slots@.take(i + 1).drop_last() =~= slots@.take(i as int));
        if let Some(j) = slots[i] {
            out.push((shooters[i], targets[slot_target[j]]));
        }
        i += 1;
    }
    assert(slots@.take(slots@.len() as int) =~= slots@);
    out
}

/// The rows, by index, that are not among `used`, in their order.
pub open spec fn rows_left(rows: Seq<usize>, used: Seq<usize>, upto: int) -> Seq<usize>
    decreases upto,
{
    if upto <= 0 {
        Seq::empty()
    } else {
        let before = rows_left(rows, used, upto - 1);
        if used.contains((upto - 1) as usize) {
            before
        } else {
            before.push(rows[upto - 1])
        }
    }
}

/// Drop the rows a round of assignment consumed: `used` lists them by index.
pub fn without_used(rows: &[usize], used: &[usize]) -> (r: Vec<usize>)
    ensures
        r@ == rows_left(rows@, used@, rows@.len() as int),
{
    let mut out: Vec<usize> = Vec::new();
    let mut i: usize = 0;
    while i < rows.len()
        invariant
            i <= rows@.len(),
            out@ == rows_left(rows@, used@, i as int),
        decreases rows@.len() - i,
    {
        let mut found = false;
        let mut k: usize = 0;
        while k < used.len()
            invariant
                k <= used@.len(),
                found == used@.take(k as int).contains(i),
            decreases used@.len() - k,
        {
            proof {
                let a = used@.take(k as int);
                let b = used@.take(k + 1);
                if a.contains(i) {
                    let w = choose|w: int| 0 <= w < a.len() && a[w] == i;
                    assert(b[w] == i);
                }
                if b.contains(i) && used@[k as int] != i {
                    let w = choose|w: int| 0 <= w < b.len() && b[w] == i;
                    assert(a[w] == i);
                }
                assert(b[k as int] == used@[k as int]);
            }
            if used[k] == i {
                found = true;
            }
            k += 1;
        }
        assert(used@.take(used@.len() as int) =~= used@);
        if !found {
            out.push(rows[i]);
        }
        i += 1;
    }
    out
}

/// Each battery repeated once per free channel, in battery order.
pub open spec fn channel_rows_upto(batteries: Seq<usize>, free: Seq<usize>, upto: int) -> Seq<usize>
    decreases upto,
{
    if upto <= 0 {
        Seq::empty()
    } else {
        channel_rows_upto(batteries, free, upto - 1) + Seq::new(
            free[upto - 1] as nat,
            |k: int| batteries[upto - 1],
        )
    }
}

/// One assignment row per free engagement channel: battery `batteries[g]` contributes
/// `free[g]` rows, so a two-channel battery offers two and a battery with none offers
/// nothing.
pub fn channel_rows(batteries: &[usize], free: &[usize]) -> (r: Vec<usize>)
    requires
        free@.len() == batteries@.len(),
    ensures
        r@ == channel_rows_upto(batteries@, free@, batteries@.len() as int),
{
    let mut out: Vec<usize> = Vec::new();
    let mut g: usize = 0;
    while g < batteries.len()
        invariant
            g <= batteries@.len(),
            free@.len() == batteries@.len(),
            out@ == channel_rows_upto(batteries@, free@, g as int),
        decreases batteries@.len() - g,
    {
        let ghost start = out@;
        let mut k: usize = 0;
        while k < free[g]
            invariant
                g < batteries@.len(),
                free@.len() == batteries@.len(),
                k <= free@[g as int],
                out@ == start + Seq::new(k as nat, |q: int| batteries@[g as int]),
            decreases free@[g as int] - k,
        {
            out.push(batteries[g]);
            k += 1;
            assert(out@ =~= start + Seq::new(k as nat, |q: int| batteries@[g as int]));
        }
        g += 1;
    }
    out
}

/// Some battery can reach airframe `a`.
pub open spec fn reachable_by_any(engageable: Seq<Vec<bool>>, a: int) -> bool {
    exists|g: int| 0 <= g < engageable.len() && a < engageable[g]@.len() && #[trigger] engageable[g]@[a]
}

/// The airframes worth a column: alive, and within reach of at least one battery of the
/// group, each once, in ascending order.
pub fn air_columns(engageable: &[Vec<bool>], alive: &[bool]) -> (r: Vec<usize>)
    requires
        forall|g: int, a: int|
            0 <= g < engageable@.len() && alive@.len() <= a < engageable@[g]@.len() ==> !#[trigger] engageable@[g]@[a],
    ensures
        forall|k1: int, k2: int| 0 <= k1 < k2 < r@.len() ==> r@[k1] < r@[k2],
        forall|a: int|
            0 <= a < alive@.len() ==> (r@.contains(a as usize) <==> (alive@[a] && reachable_by_any(engageable@, a))),
        forall|k: int| 0 <= k < r@.len() ==> #[trigger] r@[k] < alive@.len(),
{
    let mut out: Vec<usize> = Vec::new();
    let mut a: usize = 0;
    while a < alive.len()
        invariant
            a <= alive@.len(),
            forall|k1: int, k2: int| 0 <= k1 < k2 < out@.len() ==> out@[k1] < out@[k2],
            forall|k: int| 0 <= k < out@.len() ==> #[trigger] out@[k] < a,
            forall|b: int|
                0 <= b < a ==> (out@.contains(b as usize) <==> (alive@[b] && reachable_by_any(engageable@, b))),
        decreases alive@.len() - a,
    {
        if alive[a] {
            let mut any = false;
            let mut g: usize = 0;
            while g < engageable.len()
                invariant
                    g <= engageable@.len(),
                    a < alive@.len(),
                    any == exists|h: int| 0 <= h < g && a < engageable@[h]@.len() && #[trigger] engageable@[h]@[a as int],
                decreases engageable@.len() - g,
            {
                if a < engageable[g].len() && engageable[g][a] {
                    any = true;
                }
                g += 1;
            }
            if any {
                let ghost before = out@;
                out.push(a);
                proof {
                    assert forall|b: int|
                        0 <= b < a + 1 implies (out@.contains(b as usize) <==> (alive@[b] && reachable_by_any(engageable@, b))) by {
                        if b < a {
                            if out@.contains(b as usize) {
                                let w = choose|w: int| 0 <= w < out@.len() && out@[w] == b as usize;
                                assert(w < before.len());
                                assert(before[w] == b as usize);
                            }
                            if before.contains(b as usize) {
                                let w = choose|w: int| 0 <= w < before.len() && before[w] == b as usize;
                                assert(out@[w] == b as usize);
                            }
                        } else {
                            assert(out@[before.len() as int] == a);
                        }
                    }
                }
            } else {
                assert(!out@.contains(a));
            }
        } else {
            assert(!out@.contains(a));
        }
        a += 1;
    }
    out
}


/// The first index at or after `k` whose id is `name`.
pub open spec fn first_named_from(ids: Seq<Seq<char>>, name: Seq<char>, k: int) -> Option<int>
    decreases ids.len() - k,
{
    if k < 0 || k >= ids.len() {
        None
    } else if ids[k] == name {
        Some(k)
    } else {
        first_named_from(ids, name, k + 1)
    }
}

/// The first index whose id is `name`.
pub open spec fn first_named(ids: Seq<Seq<char>>, name: Seq<char>) -> Option<int> {
    first_named_from(ids, name, 0)
}

/// Where `name` first appears in `ids`.
pub fn position_of(ids: &[String], name: &str) -> (r: Option<usize>)
    ensures
        match first_named(name_seq(ids@), name@) {
            Some(k) => 0 <= k < ids@.len() && r == Some(k as usize),
            None => r is None,
        },
{
    let mut k: usize = 0;
    while k < ids.len()
        invariant
            k <= ids@.len(),
            first_named(name_seq(ids@), name@) == first_named_from(name_seq(ids@), name@, k as int),
        decreases ids@.len() - k,
    {
        if same_name(ids[k].as_str(), name) {
            return Some(k);
        }
        k += 1;
    }
    None
}

/// What an id names among the things ground fire can target: units first, then
/// batteries, then posts, the one namespace the scenario's ids share.
pub open spec fn named_target(units: Seq<Seq<char>>, batteries: Seq<Seq<char>>, posts: Seq<Seq<char>>, name: Seq<char>) -> Option<FireTarget> {
    match first_named(units, name) {
        Some(i) => Some(FireTarget::Unit(i as usize)),
        None => match first_named(batteries, name) {
            Some(i) => Some(FireTarget::AirDefence(i as usize)),
            None => match first_named(posts, name) {
                Some(i) => Some(FireTarget::C2(i as usize)),
                None => None,
            },
        },
    }
}

/// Resolve an id to a ground-fire target, searching units, batteries, then posts.
pub fn named_fire_target(units: &[String], batteries: &[String], posts: &[String], name: &str) -> (r: Option<FireTarget>)
    ensures
        r == named_target(name_seq(units@), name_seq(batteries@), name_seq(posts@), name@),
{
    match position_of(units, name) {
        Some(i) => Some(FireTarget::Unit(i)),
        None => match position_of(batteries, name) {
            Some(i) => Some(FireTarget::AirDefence(i)),
            None => match position_of(posts, name) {
                Some(i) => Some(FireTarget::C2(i)),
                None => None,
            },
        },
    }
}

/// What an order names: its shooter, found among the side's live shooters (given by
/// index with their ids), and its target, or `None` when either end is not there.
pub open spec fn order_pair(
    order: Order,
    shooters: Seq<usize>,
    shooter_ids: Seq<Seq<char>>,
    units: Seq<Seq<char>>,
    batteries: Seq<Seq<char>>,
    posts: Seq<Seq<char>>,
) -> Option<(usize, FireTarget)> {
    match first_named(shooter_ids, order.shooter@) {
        Some(k) => match named_target(units, batteries, posts, order.target@) {
            Some(t) => Some((shooters[k], t)),
            None => None,
        },
        None => None,
    }
}

/// Resolve each order to the pair it names, or `None` where its shooter is not among
/// `shooters` or its target is not on the field. `shooter_ids[k]` is the id of
/// `shooters[k]`.
pub fn resolve_orders(
    orders: &[Order],
    shooters: &[usize],
    shooter_ids: &[String],
    units: &[String],
    batteries: &[String],
    posts: &[String],
) -> (r: Vec<Option<(usize, FireTarget)>>)
    requires
        shooter_ids@.len() == shooters@.len(),
    ensures
        r@.len() == orders@.len(),
        forall|k: int|
            0 <= k < r@.len() ==> #[trigger] r@[k] == order_pair(
                orders@[k],
                shooters@,
                name_seq(shooter_ids@),
                name_seq(units@),
                name_seq(batteries@),
                name_seq(posts@),
            ),
{
    let mut out: Vec<Option<(usize, FireTarget)>> = Vec::new();
    let mut k: usize = 0;
    while k < orders.len()
        invariant
            k <= orders@.len(),
            shooter_ids@.len() == shooters@.len(),
            out@.len() == k,
            forall|q: int|
                0 <= q < k ==> #[trigger] out@[q] == order_pair(
                    orders@[q],
                    shooters@,
                    name_seq(shooter_ids@),
                    name_seq(units@),
                    name_seq(batteries@),
                    name_seq(posts@),
                ),
        decreases orders@.len() - k,
    {
        let pair = match position_of(shooter_ids, orders[k].shooter.as_str()) {
            Some(i) => match named_fire_target(units, batteries, posts, orders[k].target.as_str()) {
                Some(t) => Some((shooters[i], t)),
                None => None,
            },
            None => None,
        };
        out.push(pair);
        k += 1;
    }
    out
}

/// The engagements a side's orders stand for, in order: an order stands when it names
/// a pair and the pair is reachable this epoch, and the first standing order for a
/// shooter wins over any later one.
pub open spec fn standing_orders(resolved: Seq<Option<(usize, FireTarget)>>, reachable: Seq<bool>, upto: int) -> Seq<(usize, FireTarget)>
    decreases upto,
{
    if upto <= 0 {
        Seq::empty()
    } else {
        let before = standing_orders(resolved, reachable, upto - 1);
        match resolved[upto - 1] {
            Some(pair) => if !shooters_of(before).contains(pair.0) && reachable[upto - 1] {
                before.push(pair)
            } else {
                before
            },
            None => before,
        }
    }
}

/// The engagements a side has ordered outright. `resolved[k]` is what order `k` names
/// ([`resolve_orders`]) and `reachable[k]` whether its shooter can engage its target right
/// now. An order whose pair is not reachable lapses for the epoch, and its shooter is
/// free for a later order or for the assignment.
pub fn ordered_engagements(resolved: &[Option<(usize, FireTarget)>], reachable: &[bool]) -> (r: Vec<(usize, FireTarget)>)
    requires
        reachable@.len() == resolved@.len(),
    ensures
        r@ == standing_orders(resolved@, reachable@, resolved@.len() as int),
{
    let mut out: Vec<(usize, FireTarget)> = Vec::new();
    let mut k: usize = 0;
    while k < resolved.len()
        invariant
            k <= resolved@.len(),
            reachable@.len() == resolved@.len(),
            out@ == standing_orders(resolved@, reachable@, k as int),
        decreases resolved@.len() - k,
    {
        if let Some(pair) = resolved[k] {
            let mut taken = false;
            let mut q: usize = 0;
            while q < out.len()
                invariant
                    q <= out@.len(),
                    taken == shooters_of(out@).take(q as int).contains(pair.0),
                decreases out@.len() - q,
            {
                proof {
                    let a = shooters_of(out@).take(q as int);
                    let b = shooters_of(out@).take(q + 1);
                    assert(b[q as int] == out@[q as int].0);
                    if a.contains(pair.0) {
                        let w = choose|w: int| 0 <= w < a.len() && a[w] == pair.0;
                        assert(b[w] == pair.0);
                    }
                    if b.contains(pair.0) && out@[q as int].0 != pair.0 {
                        let w = choose|w: int| 0 <= w < b.len() && b[w] == pair.0;
                        assert(a[w] == pair.0);
                    }
                }
                if out[q].0 == pair.0 {
                    taken = true;
                }
                q += 1;
            }
            assert(shooters_of(out@).take(out@.len() as int) =~= shooters_of(out@));
            if !taken && reachable[k] {
                out.push(pair);
            }
        }
        k += 1;
    }
    out
}

/// An order never gives one shooter two targets: the standing orders name each shooter
/// at most once, and every one of them is a resolved, reachable order.
pub proof fn law_one_order_per_shooter(resolved: Seq<Option<(usize, FireTarget)>>, reachable: Seq<bool>, upto: int)
    requires
        0 <= upto <= resolved.len(),
        upto <= reachable.len(),
    ensures
        forall|a: int, b: int|
            0 <= a < b < standing_orders(resolved, reachable, upto).len() ==> #[trigger] standing_orders(
                resolved,
                reachable,
                upto,
            )[a].0 != #[trigger] standing_orders(resolved, reachable, upto)[b].0,
        forall|a: int|
            0 <= a < standing_orders(resolved, reachable, upto).len() ==> exists|k: int|
                0 <= k < upto && reachable[k] && resolved[k] == Some(
                    #[trigger] standing_orders(resolved, reachable, upto)[a],
                ),
    decreases upto,
{
    if upto > 0 {
        law_one_order_per_shooter(resolved, reachable, upto - 1);
        let before = standing_orders(resolved, reachable, upto - 1);
        let now = standing_orders(resolved, reachable, upto);
        assert forall|a: int, b: int| 0 <= a < b < now.len() implies #[trigger] now[a].0 != #[trigger] now[b].0 by {
            if b < before.len() {
                assert(now[a] == before[a] && now[b] == before[b]);
            } else {
                assert(now[a] == before[a]);
                assert(shooters_of(before)[a] == before[a].0);
            }
        }
        assert forall|a: int| 0 <= a < now.len() implies exists|k: int|
            0 <= k < upto && reachable[k] && resolved[k] == Some(#[trigger] now[a]) by {
            if a < before.len() {
                assert(now[a] == before[a]);
                let k = choose|k: int| 0 <= k < upto - 1 && reachable[k] && resolved[k] == Some(#[trigger] before[a]);
                assert(resolved[k] == Some(now[a]));
            } else {
                assert(resolved[upto - 1] == Some(now[a]));
            }
        }
    }
}


/// The indices of the live assets of a list that are not on `side`, in order.
pub open spec fn enemies_upto(assets: Seq<(Side, bool)>, side: Side, upto: int) -> Seq<usize>
    decreases upto,
{
    if upto <= 0 {
        Seq::empty()
    } else {
        let before = enemies_upto(assets, side, upto - 1);
        if assets[upto - 1].0 != side && assets[upto - 1].1 {
            before.push((upto - 1) as usize)
        } else {
            before
        }
    }
}

/// Every enemy asset `side` may shoot at, in a fixed order: units first, then
/// batteries, then posts, each by index. Each asset is given as its side and whether it
/// is alive.
pub open spec fn enemy_targets_spec(units: Seq<(Side, bool)>, batteries: Seq<(Side, bool)>, posts: Seq<(Side, bool)>, side: Side) -> Seq<FireTarget> {
    enemies_upto(units, side, units.len() as int).map_values(|i: usize| FireTarget::Unit(i))
        + enemies_upto(batteries, side, batteries.len() as int).map_values(|i: usize| FireTarget::AirDefence(i))
        + enemies_upto(posts, side, posts.len() as int).map_values(|i: usize| FireTarget::C2(i))
}

fn enemies_of(assets: &[(Side, bool)], side: Side) -> (r: Vec<usize>)
    ensures
        r@ == enemies_upto(assets@, side, assets@.len() as int),
{
    let mut out: Vec<usize> = Vec::new();
    let mut i: usize = 0;
    while i < assets.len()
        invariant
            i <= assets@.len(),
            out@ == enemies_upto(assets@, side, i as int),
        decreases assets@.len() - i,
    {
        if assets[i].0 != side && assets[i].1 {
            out.push(i);
        }
        i += 1;
    }
    out
}

/// Every enemy asset `side` may shoot at: live units, then live batteries, then live
/// posts of the other side, each list in index order. Units come first so a field with
/// no batteries and no posts lists exactly its units.
pub fn enemy_targets(units: &[(Side, bool)], batteries: &[(Side, bool)], posts: &[(Side, bool)], side: Side) -> (r: Vec<FireTarget>)
    ensures
        r@ == enemy_targets_spec(units@, batteries@, posts@, side),
{
    let u = enemies_of(units, side);
    let b = enemies_of(batteries, side);
    let c = enemies_of(posts, side);
    let mut out: Vec<FireTarget> = Vec::new();
    let mut k: usize = 0;
    while k < u.len()
        invariant
            k <= u@.len(),
            out@ == u@.take(k as int).map_values(|i: usize| FireTarget::Unit(i)),
        decreases u@.len() - k,
    {
        out.push(FireTarget::Unit(u[k]));
        k += 1;
        assert(out@ =~= u@.take(k as int).map_values(|i: usize| FireTarget::Unit(i)));
    }
    assert(u@.take(u@.len() as int) =~= u@);
    let ghost first = out@;
    k = 0;
    while k < b.len()
        invariant
            k <= b@.len(),
            out@ == first + b@.take(k as int).map_values(|i: usize| FireTarget::AirDefence(i)),
        decreases b@.len() - k,
    {
        out.push(FireTarget::AirDefence(b[k]));
        k += 1;
        assert(out@ =~= first + b@.take(k as int).map_values(|i: usize| FireTarget::AirDefence(i)));
    }
    assert(b@.take(b@.len() as int) =~= b@);
    let ghost second = out@;
    k = 0;
    while k < c.len()
        invariant
            k <= c@.len(),
            out@ == second + c@.take(k as int).map_values(|i: usize| FireTarget::C2(i)),
        decreases c@.len() - k,
    {
        out.push(FireTarget::C2(c[k]));
        k += 1;
        assert(out@ =~= second + c@.take(k as int).map_values(|i: usize| FireTarget::C2(i)));
    }
    assert(c@.take(c@.len() as int) =~= c@);
    out
}


/// The locks still worth holding among `free` shooters, in their order: shooter `s` keeps
/// engaging `t` when `locks[s]` is `Some(t)` and `lock_ok[s]` says it still can.
pub open spec fn lock_pairs(free: Seq<usize>, locks: Seq<Option<FireTarget>>, lock_ok: Seq<bool>) -> Seq<(usize, FireTarget)>
    decreases free.len(),
{
    if free.len() == 0 {
        Seq::empty()
    } else {
        let before = lock_pairs(free.drop_last(), locks, lock_ok);
        let s = free.last();
        match locks[s as int] {
            Some(t) => if lock_ok[s as int] {
                before.push((s, t))
            } else {
                before
            },
            None => before,
        }
    }
}

proof fn lemma_lock_pairs(free: Seq<usize>, locks: Seq<Option<FireTarget>>, lock_ok: Seq<bool>)
    ensures
        forall|k: int|
            0 <= k < lock_pairs(free, locks, lock_ok).len() ==> {
                let pr = #[trigger] lock_pairs(free, locks, lock_ok)[k];
                &&& free.contains(pr.0)
                &&& locks[pr.0 as int] == Some(pr.1)
                &&& lock_ok[pr.0 as int]
            },
    decreases free.len(),
{
    if free.len() > 0 {
        lemma_lock_pairs(free.drop_last(), locks, lock_ok);
        let before = lock_pairs(free.drop_last(), locks, lock_ok);
        let now = lock_pairs(free, locks, lock_ok);
        assert forall|k: int| 0 <= k < now.len() implies {
            let pr = #[trigger] now[k];
            &&& free.contains(pr.0)
            &&& locks[pr.0 as int] == Some(pr.1)
            &&& lock_ok[pr.0 as int]
        } by {
            if k < before.len() {
                assert(now[k] == before[k]);
                let w = choose|w: int| 0 <= w < free.drop_last().len() && free.drop_last()[w] == before[k].0;
                assert(free[w] == before[k].0);
            } else {
                assert(free[free.len() - 1] == now[k].0);
            }
        }
    }
}

/// What a side's shooters are committed to before anything is solved, and who is left.
///
/// Orders come first and outrank locks, so a new order re-tasks a gun that is mid
/// engagement. A shooter with no order keeps its lock while it can still engage the
/// locked target (`locks` and `lock_ok` are indexed by shooter). Everyone else is left
/// for the assignment. No shooter is lost on the way, and none is both committed and
/// left free.
pub fn commitments(
    shooters: &[usize],
    ordered: &[(usize, FireTarget)],
    locks: &[Option<FireTarget>],
    lock_ok: &[bool],
) -> (r: (Vec<(usize, FireTarget)>, Vec<usize>))
    requires
        lock_ok@.len() == locks@.len(),
        forall|k: int| 0 <= k < shooters@.len() ==> #[trigger] shooters@[k] < locks@.len(),
    ensures
        r.0@ == ordered@ + lock_pairs(unchosen(shooters@, ordered@), locks@, lock_ok@),
        r.1@ == unchosen(unchosen(shooters@, ordered@), r.0@),
        forall|k: int| 0 <= k < r.1@.len() ==> !shooters_of(r.0@).contains(#[trigger] r.1@[k]),
        forall|k: int|
            0 <= k < shooters@.len() ==> shooters_of(r.0@).contains(#[trigger] shooters@[k]) || r.1@.contains(
                shooters@[k],
            ),
        forall|k: int|
            ordered@.len() <= k < r.0@.len() ==> {
                let pr = #[trigger] r.0@[k];
                &&& shooters@.contains(pr.0)
                &&& !shooters_of(ordered@).contains(pr.0)
                &&& locks@[pr.0 as int] == Some(pr.1)
                &&& lock_ok@[pr.0 as int]
            },
        forall|k: int|
            0 <= k < shooters@.len() && !shooters_of(ordered@).contains(#[trigger] shooters@[k])
                && locks@[shooters@[k] as int] is Some && lock_ok@[shooters@[k] as int] ==> r.0@.contains(
                (shooters@[k], locks@[shooters@[k] as int]->0),
            ) && !r.1@.contains(shooters@[k]),
{
    proof {
        assert forall|k: int|
            0 <= k < shooters@.len() && !shooters_of(ordered@).contains(#[trigger] shooters@[k])
                && locks@[shooters@[k] as int] is Some && lock_ok@[shooters@[k] as int] implies (ordered@
                + lock_pairs(unchosen(shooters@, ordered@), locks@, lock_ok@)).contains(
                (shooters@[k], locks@[shooters@[k] as int]->0),
            ) && !unchosen(
                unchosen(shooters@, ordered@),
                ordered@ + lock_pairs(unchosen(shooters@, ordered@), locks@, lock_ok@),
            ).contains(shooters@[k]) by {
            law_a_held_lock_is_kept(shooters@, ordered@, locks@, lock_ok@, k);
        }
    }
    let ghost pred1 = |s: usize| !shooters_of(ordered@).contains(s);
    let free = without_chosen(shooters, ordered);
    proof {
        broadcast use vstd::seq_lib::group_filter_ensures;
        assert(free@ == shooters@.filter(pred1));
        assert forall|k: int| 0 <= k < free@.len() implies #[trigger] free@[k] < locks@.len() by {
            assert(free@.contains(free@[k]));
            shooters@.lemma_filter_contains_rev(pred1, free@[k]);
        }
    }
    let mut locked: Vec<(usize, FireTarget)> = Vec::new();
    let mut i: usize = 0;
    while i < free.len()
        invariant
            i <= free@.len(),
            lock_ok@.len() == locks@.len(),
            forall|k: int| 0 <= k < free@.len() ==> #[trigger] free@[k] < locks@.len(),
            locked@ == lock_pairs(free@.take(i as int), locks@, lock_ok@),
        decreases free@.len() - i,
    {
        assert(free@.take(i + 1).drop_last() =~= free@.take(i as int));
        let s = free[i];
        if let Some(t) = locks[s] {
            if lock_ok[s] {
                locked.push((s, t));
            }
        }
        i += 1;
    }
    assert(free@.take(free@.len() as int) =~= free@);
    let mut assigned: Vec<(usize, FireTarget)> = Vec::new();
    let mut k: usize = 0;
    while k < ordered.len()
        invariant
            k <= ordered@.len(),
            assigned@ == ordered@.take(k as int),
        decreases ordered@.len() - k,
    {
        assigned.push(ordered[k]);
        k += 1;
        assert(assigned@ =~= ordered@.take(k as int));
    }
    assert(ordered@.take(ordered@.len() as int) =~= ordered@);
    k = 0;
    while k < locked.len()
        invariant
            k <= locked@.len(),
            assigned@ == ordered@ + locked@.take(k as int),
        decreases locked@.len() - k,
    {
        assigned.push(locked[k]);
        k += 1;
        assert(assigned@ =~= ordered@ + locked@.take(k as int));
    }
    assert(locked@.take(locked@.len() as int) =~= locked@);
    let rest = without_chosen(&free, &assigned);
    proof {
        broadcast use vstd::seq_lib::group_filter_ensures;
        let pred2 = |s: usize| !shooters_of(assigned@).contains(s);
        lemma_lock_pairs(free@, locks@, lock_ok@);
        assert forall|q: int| 0 <= q < rest@.len() implies !shooters_of(assigned@).contains(#[trigger] rest@[q]) by {
            assert(pred2(rest@[q]));
        }
        assert forall|q: int| 0 <= q < shooters@.len() implies shooters_of(assigned@).contains(
            #[trigger] shooters@[q],
        ) || rest@.contains(shooters@[q]) by {
            let s = shooters@[q];
            if shooters_of(ordered@).contains(s) {
                let w = choose|w: int| 0 <= w < shooters_of(ordered@).len() && shooters_of(ordered@)[w] == s;
                assert(shooters_of(assigned@)[w] == s);
            } else if !shooters_of(assigned@).contains(s) {
                assert(pred1(s));
                assert(free@.contains(s));
                let w = choose|w: int| 0 <= w < free@.len() && free@[w] == s;
                assert(pred2(free@[w]));
            }
        }
        assert forall|q: int| ordered@.len() <= q < assigned@.len() implies {
            let pr = #[trigger] assigned@[q];
            &&& shooters@.contains(pr.0)
            &&& !shooters_of(ordered@).contains(pr.0)
            &&& locks@[pr.0 as int] == Some(pr.1)
            &&& lock_ok@[pr.0 as int]
        } by {
            let pr = assigned@[q];
            assert(pr == locked@[q - ordered@.len()]);
            let w = choose|w: int| 0 <= w < free@.len() && free@[w] == pr.0;
            assert(pred1(free@[w]));
            shooters@.lemma_filter_contains_rev(pred1, pr.0);
        }
    }
    (assigned, rest)
}


/// The targets of one doctrine tier, with their committed counts, in target order.
pub open spec fn tier_slice(targets: Seq<FireTarget>, tiers: Seq<usize>, taken: Seq<u32>, tier: usize, upto: int) -> (Seq<FireTarget>, Seq<u32>)
    decreases upto,
{
    if upto <= 0 {
        (Seq::empty(), Seq::empty())
    } else {
        let before = tier_slice(targets, tiers, taken, tier, upto - 1);
        if tiers[upto - 1] == tier {
            (before.0.push(targets[upto - 1]), before.1.push(taken[upto - 1]))
        } else {
            before
        }
    }
}

/// Split out one tier's targets, and how many shooters each already holds, for a strict
/// doctrine's tier-by-tier solve. `tiers[k]` and `taken[k]` belong to `targets[k]`.
pub fn in_tier(targets: &[FireTarget], tiers: &[usize], taken: &[u32], tier: usize) -> (r: (Vec<FireTarget>, Vec<u32>))
    requires
        tiers@.len() == targets@.len(),
        taken@.len() == targets@.len(),
    ensures
        (r.0@, r.1@) == tier_slice(targets@, tiers@, taken@, tier, targets@.len() as int),
{
    let mut ts: Vec<FireTarget> = Vec::new();
    let mut ns: Vec<u32> = Vec::new();
    let mut k: usize = 0;
    while k < targets.len()
        invariant
            k <= targets@.len(),
            tiers@.len() == targets@.len(),
            taken@.len() == targets@.len(),
            (ts@, ns@) == tier_slice(targets@, tiers@, taken@, tier, k as int),
        decreases targets@.len() - k,
    {
        if tiers[k] == tier {
            ts.push(targets[k]);
            ns.push(taken[k]);
        }
        k += 1;
    }
    (ts, ns)
}


proof fn lemma_first_named_from(ids: Seq<Seq<char>>, name: Seq<char>, k: int)
    requires
        0 <= k,
    ensures
        match first_named_from(ids, name, k) {
            Some(p) => k <= p < ids.len() && ids[p] == name && forall|q: int| k <= q < p ==> #[trigger] ids[q] != name,
            None => forall|q: int| k <= q < ids.len() ==> #[trigger] ids[q] != name,
        },
    decreases ids.len() - k,
{
    if k < ids.len() {
        lemma_first_named_from(ids, name, k + 1);
    }
}

/// An id names the first asset that carries it, searching units, then batteries, then
/// posts: a unit target carries the id and no earlier unit does; a battery target
/// carries it, no unit does and no earlier battery does; a post target likewise after
/// units and batteries; and no target means nothing on the field carries it.
pub proof fn law_an_id_names_the_first_asset_carrying_it(
    units: Seq<Seq<char>>,
    batteries: Seq<Seq<char>>,
    posts: Seq<Seq<char>>,
    name: Seq<char>,
)
    requires
        units.len() <= usize::MAX,
        batteries.len() <= usize::MAX,
        posts.len() <= usize::MAX,
    ensures
        match named_target(units, batteries, posts, name) {
            Some(FireTarget::Unit(i)) => i < units.len() && units[i as int] == name && forall|q: int|
                0 <= q < i ==> #[trigger] units[q] != name,
            Some(FireTarget::AirDefence(i)) => i < batteries.len() && batteries[i as int] == name
                && (forall|q: int| 0 <= q < units.len() ==> #[trigger] units[q] != name) && forall|q: int|
                0 <= q < i ==> #[trigger] batteries[q] != name,
            Some(FireTarget::C2(i)) => i < posts.len() && posts[i as int] == name
                && (forall|q: int| 0 <= q < units.len() ==> #[trigger] units[q] != name) && (forall|q: int|
                0 <= q < batteries.len() ==> #[trigger] batteries[q] != name) && forall|q: int|
                0 <= q < i ==> #[trigger] posts[q] != name,
            None => (forall|q: int| 0 <= q < units.len() ==> #[trigger] units[q] != name) && (forall|q: int|
                0 <= q < batteries.len() ==> #[trigger] batteries[q] != name) && (forall|q: int|
                0 <= q < posts.len() ==> #[trigger] posts[q] != name),
        },
{
    lemma_first_named_from(units, name, 0);
    lemma_first_named_from(batteries, name, 0);
    lemma_first_named_from(posts, name, 0);
}

/// An order goes to the unit it names, not to a position: when an order resolves to
/// `(s, t)`, `s` is the live shooter at the first position whose id is the order's
/// shooter id, and `t` is what the order's target id names. An order resolves exactly
/// when its shooter is among the live shooters and its target id names something.
pub proof fn law_an_order_goes_to_the_unit_it_names(
    order: Order,
    shooters: Seq<usize>,
    shooter_ids: Seq<Seq<char>>,
    units: Seq<Seq<char>>,
    batteries: Seq<Seq<char>>,
    posts: Seq<Seq<char>>,
)
    requires
        shooter_ids.len() == shooters.len(),
    ensures
        match order_pair(order, shooters, shooter_ids, units, batteries, posts) {
            Some((s, t)) => {
                &&& exists|p: int|
                    0 <= p < shooters.len() && shooters[p] == s && shooter_ids[p] == order.shooter@ && forall|q: int|
                        0 <= q < p ==> #[trigger] shooter_ids[q] != order.shooter@
                &&& named_target(units, batteries, posts, order.target@) == Some(t)
            },
            None => (forall|q: int| 0 <= q < shooter_ids.len() ==> #[trigger] shooter_ids[q] != order.shooter@)
                || named_target(units, batteries, posts, order.target@) is None,
        },
{
    lemma_first_named_from(shooter_ids, order.shooter@, 0);
    match first_named(shooter_ids, order.shooter@) {
        Some(p) => {
            assert(0 <= p < shooters.len() && shooters[p] == shooters[p]);
        },
        None => {},
    }
}

proof fn lemma_lock_pairs_keep(free: Seq<usize>, locks: Seq<Option<FireTarget>>, lock_ok: Seq<bool>, k: int)
    requires
        0 <= k < free.len(),
        locks[free[k] as int] is Some,
        lock_ok[free[k] as int],
    ensures
        lock_pairs(free, locks, lock_ok).contains((free[k], locks[free[k] as int]->0)),
    decreases free.len(),
{
    let before = lock_pairs(free.drop_last(), locks, lock_ok);
    let now = lock_pairs(free, locks, lock_ok);
    if k == free.len() - 1 {
        assert(now[now.len() - 1] == (free[k], locks[free[k] as int]->0));
    } else {
        assert(free.drop_last()[k] == free[k]);
        lemma_lock_pairs_keep(free.drop_last(), locks, lock_ok, k);
        let w = choose|w: int| 0 <= w < before.len() && before[w] == (free[k], locks[free[k] as int]->0);
        assert(now[w] == before[w]);
    }
}

/// A lock is held while it can be: every listed shooter that no order names, whose lock
/// is `Some(t)` and which can still engage `t`, is committed to `t`, however many other
/// shooters are locked on the same target, and is not left free.
pub proof fn law_a_held_lock_is_kept(
    shooters: Seq<usize>,
    ordered: Seq<(usize, FireTarget)>,
    locks: Seq<Option<FireTarget>>,
    lock_ok: Seq<bool>,
    k: int,
)
    requires
        0 <= k < shooters.len(),
        !shooters_of(ordered).contains(shooters[k]),
        locks[shooters[k] as int] is Some,
        lock_ok[shooters[k] as int],
    ensures
        (ordered + lock_pairs(unchosen(shooters, ordered), locks, lock_ok)).contains(
            (shooters[k], locks[shooters[k] as int]->0),
        ),
        !unchosen(unchosen(shooters, ordered), ordered + lock_pairs(unchosen(shooters, ordered), locks, lock_ok)).contains(
            shooters[k],
        ),
{
    broadcast use vstd::seq_lib::group_filter_ensures;
    let pred = |s: usize| !shooters_of(ordered).contains(s);
    let free = unchosen(shooters, ordered);
    assert(free == shooters.filter(pred));
    assert(free.contains(shooters[k]));
    let w = choose|w: int| 0 <= w < free.len() && free[w] == shooters[k];
    lemma_lock_pairs_keep(free, locks, lock_ok, w);
    let lp = lock_pairs(free, locks, lock_ok);
    let all = ordered + lp;
    let pair = (shooters[k], locks[shooters[k] as int]->0);
    let v = choose|v: int| 0 <= v < lp.len() && lp[v] == pair;
    assert(all[ordered.len() + v] == pair);
    assert(shooters_of(all)[ordered.len() + v] == shooters[k]);
    let pred2 = |s: usize| !shooters_of(all).contains(s);
    if unchosen(free, all).contains(shooters[k]) {
        let u = choose|u: int| 0 <= u < unchosen(free, all).len() && unchosen(free, all)[u] == shooters[k];
        assert(unchosen(free, all) == free.filter(pred2));
        assert(pred2(unchosen(free, all)[u]));
    }
}

/// Every assigned row is read back, once: the pairs number exactly the assigned rows, and
/// each row `i` holding slot `j` gives the pair (`shooters[i]`, the target slot `j`
/// belongs to), however many rows share that target.
pub proof fn law_every_assigned_row_is_read_back(
    shooters: Seq<usize>,
    targets: Seq<FireTarget>,
    slot_target: Seq<usize>,
    slots: Seq<Option<usize>>,
)
    ensures
        slot_pairs(shooters, targets, slot_target, slots).len() == count_some(slots),
        forall|i: int|
            0 <= i < slots.len() && #[trigger] slots[i] is Some ==> slot_pairs(shooters, targets, slot_target, slots).contains(
                (shooters[i], targets[slot_target[slots[i]->0 as int] as int]),
            ),
    decreases slots.len(),
{
    if slots.len() > 0 {
        let rest = slots.drop_last();
        law_every_assigned_row_is_read_back(shooters, targets, slot_target, rest);
        let before = slot_pairs(shooters, targets, slot_target, rest);
        let now = slot_pairs(shooters, targets, slot_target, slots);
        assert forall|i: int|
            0 <= i < slots.len() && #[trigger] slots[i] is Some implies now.contains(
                (shooters[i], targets[slot_target[slots[i]->0 as int] as int]),
            ) by {
            if i == slots.len() - 1 {
                assert(now[now.len() - 1] == (shooters[i], targets[slot_target[slots[i]->0 as int] as int]));
            } else {
                assert(rest[i] == slots[i]);
                let w = choose|w: int|
                    0 <= w < before.len() && before[w] == (shooters[i], targets[slot_target[slots[i]->0 as int] as int]);
                assert(now[w] == before[w]);
            }
        }
    }
}

} // verus!
