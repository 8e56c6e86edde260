//! Air-defence stat-block defaults.

use vstd::prelude::*;
use std::collections::BTreeMap;

verus! {

/// An air-defence battery needs line of sight to its target unless told otherwise.
pub fn yes() -> (r: bool)
    ensures
        r,
{
    true
}

/// A battery engages one target at a time unless its stat block says otherwise.
pub fn one_channel() -> (r: u32)
    ensures
        r == 1,
{
    1
}

} // verus!

verus! {

/// One open engagement occupying a channel.
#[derive(Clone, Copy, PartialEq, Eq, Debug)]
pub struct Engagement<T> {
    /// Index of the airframe being engaged.
    pub target: usize,
    /// When a missile shot arrives and resolves; `None` for a gun, which resolves every
    /// tick for as long as the target stays in the envelope.
    pub resolves_at_s: Option<T>,
}

/// A battery's fire-control bookkeeping: how many engagements it can hold at once, how
/// many rounds it has left, and what it is engaging.
#[derive(Clone, Debug)]
pub struct EngagementBook<T> {
    /// Simultaneous engagements the battery can hold.
    pub channels: u32,
    /// Interceptors or bursts remaining (`u32::MAX` stands for an unlimited magazine).
    pub magazine_left: u32,
    /// Open engagements, in the order they were opened.
    pub engagements: Vec<Engagement<T>>,
}

/// The rounds a freshly placed battery holds: a declared magazine of zero means
/// unlimited.
pub open spec fn initial_rounds(magazine: u32) -> u32 {
    if magazine == 0 {
        u32::MAX
    } else {
        magazine
    }
}

/// The targets of a list of engagements.
pub open spec fn targets_of<T>(e: Seq<Engagement<T>>) -> Seq<usize> {
    e.map_values(|x: Engagement<T>| x.target)
}

/// The engagements that remain after dropping those whose flag is set, in order.
pub open spec fn unflagged<T>(e: Seq<Engagement<T>>, flags: Seq<bool>, upto: int) -> Seq<Engagement<T>>
    decreases upto,
{
    if upto <= 0 {
        Seq::empty()
    } else {
        let before = unflagged(e, flags, upto - 1);
        if flags[upto - 1] {
            before
        } else {
            before.push(e[upto - 1])
        }
    }
}

/// The first `upto` engagements that survive a check against the engageable table, in
/// order.
pub open spec fn engageable_only<T>(e: Seq<Engagement<T>>, engageable: Seq<bool>, upto: int) -> Seq<Engagement<T>>
    decreases upto,
{
    if upto <= 0 {
        Seq::empty()
    } else {
        let before = engageable_only(e, engageable, upto - 1);
        if still_engageable(e[upto - 1], engageable) {
            before.push(e[upto - 1])
        } else {
            before
        }
    }
}

/// Whether engagement `x` survives a check against the per-airframe engageable table.
pub open spec fn still_engageable<T>(x: Engagement<T>, engageable: Seq<bool>) -> bool {
    x.target < engageable.len() && engageable[x.target as int]
}


/// When a battery's own sensor first saw a target, given the target's sighting time per
/// sensor: only a battery that cues itself (`self_cue`) and has an organic sensor
/// (`sensor_idx`) has this route, and only once that sensor has seen the target. Another
/// sensor's sighting is not organic.
pub fn own_sensor_seen<T: Copy>(self_cue: bool, sensor_idx: Option<usize>, seen_by: &BTreeMap<usize, T>) -> (r: Option<T>)
    ensures
        r == (if self_cue && sensor_idx is Some && seen_by@.contains_key(sensor_idx->0) {
            Some(seen_by@[sensor_idx->0])
        } else {
            None
        }),
{
    proof {
        broadcast use {vstd::laws_cmp::group_laws_cmp, vstd::std_specs::btree::group_btree_axioms};
    }
    if !self_cue {
        return None;
    }
    match sensor_idx {
        None => None,
        Some(s) => match seen_by.get(&s) {
            Some(v) => Some(*v),
            None => None,
        },
    }
}

/// What offering candidates `k..` in order does to a battery holding `magazine` rounds
/// and the engagements `engaged`: a dead airframe is passed over, the first candidate
/// met without capacity ends the pass, an airframe already engaged is passed over, and
/// any other is engaged, consuming a round. `resolves[k]` is when candidate `k`'s shot
/// would resolve.
pub open spec fn offered<T>(
    channels: u32,
    ready: bool,
    magazine: u32,
    engaged: Seq<Engagement<T>>,
    cands: Seq<usize>,
    resolves: Seq<Option<T>>,
    alive: Seq<bool>,
    k: int,
) -> (u32, Seq<Engagement<T>>)
    decreases cands.len() - k,
{
    if k < 0 || k >= cands.len() {
        (magazine, engaged)
    } else if !alive[cands[k] as int] {
        offered(channels, ready, magazine, engaged, cands, resolves, alive, k + 1)
    } else if !(engaged.len() < channels && magazine > 0 && ready) {
        (magazine, engaged)
    } else if targets_of(engaged).contains(cands[k]) {
        offered(channels, ready, magazine, engaged, cands, resolves, alive, k + 1)
    } else {
        offered(
            channels,
            ready,
            (magazine - 1) as u32,
            engaged.push(Engagement { target: cands[k], resolves_at_s: resolves[k] }),
            cands,
            resolves,
            alive,
            k + 1,
        )
    }
}

/// What opening the airframes a coordinated assignment chose for one battery does, in
/// row order from `k`: a dead airframe is skipped, and so is any row met without capacity
/// or on an airframe already engaged; every other row opens an engagement, consuming a
/// round. Returns the rounds left, the engagements, and which rows opened.
pub open spec fn chosen_opened<T>(
    channels: u32,
    ready: bool,
    magazine: u32,
    engaged: Seq<Engagement<T>>,
    chosen: Seq<usize>,
    resolves: Seq<Option<T>>,
    alive: Seq<bool>,
    k: int,
) -> (u32, Seq<Engagement<T>>, Seq<bool>)
    decreases chosen.len() - k,
{
    if k < 0 || k >= chosen.len() {
        (magazine, engaged, Seq::empty())
    } else if alive[chosen[k] as int] && engaged.len() < channels && magazine > 0 && ready
        && !targets_of(engaged).contains(chosen[k]) {
        let rest = chosen_opened(
            channels,
            ready,
            (magazine - 1) as u32,
            engaged.push(Engagement { target: chosen[k], resolves_at_s: resolves[k] }),
            chosen,
            resolves,
            alive,
            k + 1,
        );
        (rest.0, rest.1, seq![true] + rest.2)
    } else {
        let rest = chosen_opened(channels, ready, magazine, engaged, chosen, resolves, alive, k + 1);
        (rest.0, rest.1, seq![false] + rest.2)
    }
}

/// No airframe is engaged twice.
pub open spec fn distinct_targets<T>(engaged: Seq<Engagement<T>>) -> bool {
    forall|a: int, b: int| 0 <= a < b < engaged.len() ==> #[trigger] engaged[a].target != #[trigger] engaged[b].target
}

impl<T: Copy> EngagementBook<T> {
    /// The book never holds more engagements than it has channels.
    pub open spec fn within_channels(&self) -> bool {
        self.engagements@.len() <= self.channels
    }

    /// A freshly placed battery: no engagements, and a full magazine.
    pub fn new(channels: u32, magazine: u32) -> (r: EngagementBook<T>)
        ensures
            r.channels == channels,
            r.magazine_left == initial_rounds(magazine),
            r.engagements@.len() == 0,
            r.within_channels(),
    {
        let magazine_left = if magazine == 0 {
            u32::MAX
        } else {
            magazine
        };
        EngagementBook { channels, magazine_left, engagements: Vec::new() }
    }

    /// A free channel and a round left: the part of "can this battery commit another
    /// engagement now" that does not depend on the reload clock.
    pub fn has_capacity(&self) -> (r: bool)
        ensures
            r == (self.engagements@.len() < self.channels && self.magazine_left > 0),
    {
        self.engagements.len() < self.channels as usize && self.magazine_left > 0
    }

    /// Is the battery already engaging `target`?
    pub fn engaging(&self, target: usize) -> (r: bool)
        ensures
            r == targets_of(self.engagements@).contains(target),
    {
        let mut i: usize = 0;
        while i < self.engagements.len()
            invariant
                i <= self.engagements@.len(),
                forall|k: int| 0 <= k < i ==> (#[trigger] self.engagements@[k]).target != target,
            decreases self.engagements@.len() - i,
        {
            if self.engagements[i].target == target {
                assert(targets_of(self.engagements@)[i as int] == target);
                return true;
            }
            i += 1;
        }
        assert(!targets_of(self.engagements@).contains(target)) by {
            if targets_of(self.engagements@).contains(target) {
                let k = choose|k: int|
                    0 <= k < targets_of(self.engagements@).len() && targets_of(self.engagements@)[k]
                        == target;
                assert(self.engagements@[k].target == target);
            }
        }
        false
    }

    /// Commit an engagement on `target`, consuming a round.
    pub fn open(&mut self, target: usize, resolves_at_s: Option<T>)
        ensures
            final(self).engagements@ == old(self).engagements@.push(
                Engagement { target, resolves_at_s },
            ),
            final(self).magazine_left == if old(self).magazine_left > 0 {
                old(self).magazine_left - 1
            } else {
                0
            },
            final(self).channels == old(self).channels,
    {
        self.engagements.push(Engagement { target, resolves_at_s });
        self.magazine_left = self.magazine_left.saturating_sub(1);
    }

    /// How many more engagements the battery could open in one coordinated pass: its free
    /// channels, capped by its magazine (an unlimited or one-round magazine caps nothing
    /// below one).
    pub fn free_rows(&self) -> (r: usize)
        ensures
            r == ({
                let free = if self.engagements@.len() < self.channels {
                    self.channels - self.engagements@.len()
                } else {
                    0
                };
                let cap = if self.magazine_left > 1 { self.magazine_left as int } else { 1 };
                if free < cap { free } else { cap }
            }),
    {
        let free = (self.channels as usize).saturating_sub(self.engagements.len());
        let cap = if self.magazine_left > 1 { self.magazine_left as usize } else { 1 };
        if free < cap { free } else { cap }
    }

    /// A battery acting on its own: offer it the airframes it can engage, best first.
    /// Dead airframes are passed over, the pass stops as soon as the battery has no free
    /// channel, no round, or is still reloading (`ready` false), and an airframe it
    /// already engages is passed over. `resolves[k]` is when a shot at `cands[k]` would
    /// resolve.
    pub fn open_in_order(&mut self, ready: bool, cands: &[usize], resolves: &[Option<T>], alive: &[bool])
        requires
            resolves@.len() == cands@.len(),
            forall|k: int| 0 <= k < cands@.len() ==> #[trigger] cands@[k] < alive@.len(),
        ensures
            final(self).channels == old(self).channels,
            (final(self).magazine_left, final(self).engagements@) == offered(
                old(self).channels,
                ready,
                old(self).magazine_left,
                old(self).engagements@,
                cands@,
                resolves@,
                alive@,
                0,
            ),
            ready ==> forall|j: int|
                0 <= j < cands@.len() && alive@[cands@[j] as int] && !targets_of(final(self).engagements@).contains(
                    #[trigger] cands@[j],
                ) ==> final(self).engagements@.len() >= final(self).channels || final(self).magazine_left == 0,
    {
        proof {
            if ready {
                law_a_ready_battery_uses_its_capacity(
                    old(self).channels,
                    old(self).magazine_left,
                    old(self).engagements@,
                    cands@,
                    resolves@,
                    alive@,
                    0,
                );
            }
        }
        let mut k: usize = 0;
        while k < cands.len()
            invariant
                k <= cands@.len(),
                resolves@.len() == cands@.len(),
                forall|q: int| 0 <= q < cands@.len() ==> #[trigger] cands@[q] < alive@.len(),
                self.channels == old(self).channels,
                offered(
                    old(self).channels,
                    ready,
                    old(self).magazine_left,
                    old(self).engagements@,
                    cands@,
                    resolves@,
                    alive@,
                    0,
                ) == offered(
                    self.channels,
                    ready,
                    self.magazine_left,
                    self.engagements@,
                    cands@,
                    resolves@,
                    alive@,
                    k as int,
                ),
            decreases cands@.len() - k,
        {
            let a = cands[k];
            if alive[a] {
                if !(self.has_capacity() && ready) {
                    return;
                }
                if !self.engaging(a) {
                    self.open(a, resolves[k]);
                }
            }
            k += 1;
        }
    }

    /// Open what a coordinated assignment chose for this battery, in row order: a row
    /// opens unless its airframe is dead, the battery has no capacity or is reloading
    /// (`ready` false), or it already engages that airframe. `resolves[k]` is when a shot
    /// at `chosen[k]` would resolve. Returns which rows opened.
    pub fn open_chosen(&mut self, ready: bool, chosen: &[usize], resolves: &[Option<T>], alive: &[bool]) -> (r: Vec<bool>)
        requires
            resolves@.len() == chosen@.len(),
            forall|k: int| 0 <= k < chosen@.len() ==> #[trigger] chosen@[k] < alive@.len(),
        ensures
            final(self).channels == old(self).channels,
            (final(self).magazine_left, final(self).engagements@, r@) == chosen_opened(
                old(self).channels,
                ready,
                old(self).magazine_left,
                old(self).engagements@,
                chosen@,
                resolves@,
                alive@,
                0,
            ),
    {
        let ghost start = chosen_opened(
            old(self).channels,
            ready,
            old(self).magazine_left,
            old(self).engagements@,
            chosen@,
            resolves@,
            alive@,
            0,
        );
        let mut opened: Vec<bool> = Vec::new();
        let mut k: usize = 0;
        while k < chosen.len()
            invariant
                k <= chosen@.len(),
                resolves@.len() == chosen@.len(),
                forall|q: int| 0 <= q < chosen@.len() ==> #[trigger] chosen@[q] < alive@.len(),
                self.channels == old(self).channels,
                ({
                    let rest = chosen_opened(
                        self.channels,
                        ready,
                        self.magazine_left,
                        self.engagements@,
                        chosen@,
                        resolves@,
                        alive@,
                        k as int,
                    );
                    start == (rest.0, rest.1, opened@ + rest.2)
                }),
            decreases chosen@.len() - k,
        {
            let a = chosen[k];
            let ghost before = opened@;
            if alive[a] && self.has_capacity() && ready && !self.engaging(a) {
                self.open(a, resolves[k]);
                opened.push(true);
                assert(before + (seq![true] + chosen_opened(
                    self.channels,
                    ready,
                    self.magazine_left,
                    self.engagements@,
                    chosen@,
                    resolves@,
                    alive@,
                    k + 1,
                ).2) =~= opened@ + chosen_opened(
                    self.channels,
                    ready,
                    self.magazine_left,
                    self.engagements@,
                    chosen@,
                    resolves@,
                    alive@,
                    k + 1,
                ).2);
            } else {
                opened.push(false);
                assert(before + (seq![false] + chosen_opened(
                    self.channels,
                    ready,
                    self.magazine_left,
                    self.engagements@,
                    chosen@,
                    resolves@,
                    alive@,
                    k + 1,
                ).2) =~= opened@ + chosen_opened(
                    self.channels,
                    ready,
                    self.magazine_left,
                    self.engagements@,
                    chosen@,
                    resolves@,
                    alive@,
                    k + 1,
                ).2);
            }
            k += 1;
        }
        assert(opened@ + Seq::<bool>::empty() =~= opened@);
        opened
    }

    /// Drop every engagement whose target no longer qualifies (dead, or out of the
    /// envelope): `engageable[t]` says whether airframe `t` may still be engaged, and a
    /// target beyond the table does not.
    pub fn drop_engagements(&mut self, engageable: &[bool])
        ensures
            final(self).channels == old(self).channels,
            final(self).magazine_left == old(self).magazine_left,
            final(self).engagements@ == engageable_only(
                old(self).engagements@,
                engageable@,
                old(self).engagements@.len() as int,
            ),
    {
        let ghost before = self.engagements@;
        let mut kept: Vec<Engagement<T>> = Vec::new();
        let mut i: usize = 0;
        while i < self.engagements.len()
            invariant
                before == self.engagements@,
                i <= before.len(),
                kept@ == engageable_only(before, engageable@, i as int),
            decreases before.len() - i,
        {
            let e = self.engagements[i];
            if e.target < engageable.len() && engageable[e.target] {
                kept.push(e);
            }
            i += 1;
        }
        self.engagements = kept;
    }

    /// Remove the engagements that resolved this tick: `resolved[i]` flags engagement
    /// `i`. The rest keep their order.
    pub fn remove_resolved(&mut self, resolved: &[bool])
        requires
            resolved@.len() == old(self).engagements@.len(),
        ensures
            final(self).channels == old(self).channels,
            final(self).magazine_left == old(self).magazine_left,
            final(self).engagements@ == unflagged(
                old(self).engagements@,
                resolved@,
                resolved@.len() as int,
            ),
    {
        let ghost before = self.engagements@;
        let mut kept: Vec<Engagement<T>> = Vec::new();
        let mut i: usize = 0;
        while i < self.engagements.len()
            invariant
                before == self.engagements@,
                resolved@.len() == before.len(),
                i <= before.len(),
                kept@ == unflagged(before, resolved@, i as int),
            decreases before.len() - i,
        {
            if !resolved[i] {
                kept.push(self.engagements[i]);
            }
            i += 1;
        }
        self.engagements = kept;
    }
}

/// A battery that opens an engagement only when it has capacity never holds more than
/// its channels: opening from a book within its channels, with a free channel, leaves it
/// within its channels, and the magazine only ever goes down.
pub proof fn law_opening_respects_channels<T: Copy>(b: EngagementBook<T>, target: usize, resolves_at_s: Option<T>)
    requires
        b.within_channels(),
        b.engagements@.len() < b.channels,
    ensures
        b.engagements@.push(Engagement { target, resolves_at_s }).len() <= b.channels,
        (if b.magazine_left > 0 { b.magazine_left - 1 } else { 0 }) <= b.magazine_left,
{
}

/// Dropping engagements keeps only those still engageable, never more than before.
pub proof fn law_dropping_only_shrinks<T>(e: Seq<Engagement<T>>, engageable: Seq<bool>, upto: int)
    requires
        0 <= upto <= e.len(),
    ensures
        engageable_only(e, engageable, upto).len() <= upto,
        forall|k: int|
            0 <= k < engageable_only(e, engageable, upto).len() ==> still_engageable(
                #[trigger] engageable_only(e, engageable, upto)[k],
                engageable,
            ),
    decreases upto,
{
    if upto > 0 {
        law_dropping_only_shrinks(e, engageable, upto - 1);
        let before = engageable_only(e, engageable, upto - 1);
        let now = engageable_only(e, engageable, upto);
        assert forall|k: int| 0 <= k < now.len() implies still_engageable(#[trigger] now[k], engageable) by {
            if k < before.len() {
                assert(now[k] == before[k]);
            }
        }
    }
}

/// Removing resolved engagements keeps exactly the unflagged ones: never more than
/// before, and a subset of them.
pub proof fn law_removal_only_shrinks<T>(e: Seq<Engagement<T>>, flags: Seq<bool>, upto: int)
    requires
        0 <= upto <= e.len(),
        upto <= flags.len(),
    ensures
        unflagged(e, flags, upto).len() <= upto,
        forall|k: int|
            0 <= k < unflagged(e, flags, upto).len() ==> e.take(upto).contains(
                #[trigger] unflagged(e, flags, upto)[k],
            ),
    decreases upto,
{
    if upto > 0 {
        law_removal_only_shrinks(e, flags, upto - 1);
        let before = unflagged(e, flags, upto - 1);
        let now = unflagged(e, flags, upto);
        assert forall|k: int| 0 <= k < now.len() implies e.take(upto).contains(#[trigger] now[k]) by {
            if k < before.len() {
                assert(now[k] == before[k]);
                let j = choose|j: int| 0 <= j < e.take(upto - 1).len() && #[trigger] e.take(upto - 1)[j] == before[k];
                assert(e.take(upto)[j] == before[k]);
            } else {
                assert(now[k] == e[upto - 1]);
                assert(e.take(upto)[upto - 1] == e[upto - 1]);
            }
        }
    }
}


/// A battery acting on its own never holds more engagements than it has channels and
/// never engages one airframe twice: offering candidates keeps a book that was within its
/// channels, with distinct targets, that way, and the magazine only goes down.
pub proof fn law_offering_keeps_the_book_sound<T>(
    channels: u32,
    ready: bool,
    magazine: u32,
    engaged: Seq<Engagement<T>>,
    cands: Seq<usize>,
    resolves: Seq<Option<T>>,
    alive: Seq<bool>,
    k: int,
)
    requires
        engaged.len() <= channels,
        distinct_targets(engaged),
    ensures
        ({
            let (m, e) = offered(channels, ready, magazine, engaged, cands, resolves, alive, k);
            &&& e.len() <= channels
            &&& distinct_targets(e)
            &&& m <= magazine
            &&& e.len() - engaged.len() == magazine - m
            &&& e.take(engaged.len() as int) == engaged
        }),
    decreases cands.len() - k,
{
    if 0 <= k < cands.len() && alive[cands[k] as int] && engaged.len() < channels && magazine > 0 && ready
        && !targets_of(engaged).contains(cands[k]) {
        let e2 = engaged.push(Engagement { target: cands[k], resolves_at_s: resolves[k] });
        assert forall|a: int, b: int| 0 <= a < b < e2.len() implies #[trigger] e2[a].target != #[trigger] e2[b].target by {
            if b == engaged.len() {
                assert(targets_of(engaged)[a] == engaged[a].target);
            }
        }
        law_offering_keeps_the_book_sound(channels, ready, (magazine - 1) as u32, e2, cands, resolves, alive, k + 1);
        let (m, e) = offered(channels, ready, (magazine - 1) as u32, e2, cands, resolves, alive, k + 1);
        assert(e.take(engaged.len() as int) =~= e.take(e2.len() as int).take(engaged.len() as int));
        assert(e2.take(engaged.len() as int) =~= engaged);
    } else if 0 <= k < cands.len() && (!alive[cands[k] as int] || (engaged.len() < channels && magazine > 0 && ready)) {
        law_offering_keeps_the_book_sound(channels, ready, magazine, engaged, cands, resolves, alive, k + 1);
    } else {
        assert(engaged.take(engaged.len() as int) =~= engaged);
    }
}


/// Opening what a coordinated assignment chose keeps the book sound: a book within its
/// channels, with distinct targets, stays that way, every opened row costs exactly one
/// round, the earlier engagements are kept, and there is one flag per row.
pub proof fn law_coordinated_opening_keeps_the_book_sound<T>(
    channels: u32,
    ready: bool,
    magazine: u32,
    engaged: Seq<Engagement<T>>,
    chosen: Seq<usize>,
    resolves: Seq<Option<T>>,
    alive: Seq<bool>,
    k: int,
)
    requires
        0 <= k <= chosen.len(),
        engaged.len() <= channels,
        distinct_targets(engaged),
    ensures
        ({
            let (m, e, flags) = chosen_opened(channels, ready, magazine, engaged, chosen, resolves, alive, k);
            &&& e.len() <= channels
            &&& distinct_targets(e)
            &&& m <= magazine
            &&& e.len() - engaged.len() == magazine - m
            &&& e.take(engaged.len() as int) == engaged
            &&& flags.len() == chosen.len() - k
        }),
    decreases chosen.len() - k,
{
    if k < chosen.len() {
        if alive[chosen[k] as int] && engaged.len() < channels && magazine > 0 && ready
            && !targets_of(engaged).contains(chosen[k]) {
            let e2 = engaged.push(Engagement { target: chosen[k], resolves_at_s: resolves[k] });
            assert forall|a: int, b: int| 0 <= a < b < e2.len() implies #[trigger] e2[a].target
                != #[trigger] e2[b].target by {
                if b == engaged.len() {
                    assert(targets_of(engaged)[a] == engaged[a].target);
                }
            }
            law_coordinated_opening_keeps_the_book_sound(channels, ready, (magazine - 1) as u32, e2, chosen, resolves, alive, k + 1);
            let (m, e, flags) = chosen_opened(channels, ready, (magazine - 1) as u32, e2, chosen, resolves, alive, k + 1);
            assert(e.take(engaged.len() as int) =~= e.take(e2.len() as int).take(engaged.len() as int));
            assert(e2.take(engaged.len() as int) =~= engaged);
        } else {
            law_coordinated_opening_keeps_the_book_sound(channels, ready, magazine, engaged, chosen, resolves, alive, k + 1);
        }
    } else {
        assert(engaged.take(engaged.len() as int) =~= engaged);
    }
}


proof fn lemma_offered_extends<T>(
    channels: u32,
    ready: bool,
    magazine: u32,
    engaged: Seq<Engagement<T>>,
    cands: Seq<usize>,
    resolves: Seq<Option<T>>,
    alive: Seq<bool>,
    k: int,
)
    ensures
        ({
            let e = offered(channels, ready, magazine, engaged, cands, resolves, alive, k).1;
            engaged.len() <= e.len() && e.take(engaged.len() as int) == engaged
        }),
    decreases cands.len() - k,
{
    if 0 <= k < cands.len() {
        if !alive[cands[k] as int] || targets_of(engaged).contains(cands[k]) {
            lemma_offered_extends(channels, ready, magazine, engaged, cands, resolves, alive, k + 1);
        } else if engaged.len() < channels && magazine > 0 && ready {
            let e2 = engaged.push(Engagement { target: cands[k], resolves_at_s: resolves[k] });
            lemma_offered_extends(channels, ready, (magazine - 1) as u32, e2, cands, resolves, alive, k + 1);
            let e = offered(channels, ready, (magazine - 1) as u32, e2, cands, resolves, alive, k + 1).1;
            assert(e.take(engaged.len() as int) =~= e.take(e2.len() as int).take(engaged.len() as int));
            assert(e2.take(engaged.len() as int) =~= engaged);
        } else {
            assert(engaged.take(engaged.len() as int) =~= engaged);
        }
    } else {
        assert(engaged.take(engaged.len() as int) =~= engaged);
    }
}

/// A ready battery acting on its own stops only for lack of capacity: after the pass,
/// if any offered candidate from `k` on is alive and still not engaged, the battery has
/// no free channel or no round left. Channels and rounds are never left unused while a
/// live candidate goes unengaged.
pub proof fn law_a_ready_battery_uses_its_capacity<T>(
    channels: u32,
    magazine: u32,
    engaged: Seq<Engagement<T>>,
    cands: Seq<usize>,
    resolves: Seq<Option<T>>,
    alive: Seq<bool>,
    k: int,
)
    requires
        0 <= k,
    ensures
        ({
            let (m, e) = offered(channels, true, magazine, engaged, cands, resolves, alive, k);
            forall|j: int|
                k <= j < cands.len() && alive[cands[j] as int] && !targets_of(e).contains(#[trigger] cands[j])
                    ==> e.len() >= channels || m == 0
        }),
    decreases cands.len() - k,
{
    if k < cands.len() {
        let a = cands[k];
        let (m, e) = offered(channels, true, magazine, engaged, cands, resolves, alive, k);
        if !alive[a as int] {
            law_a_ready_battery_uses_its_capacity(channels, magazine, engaged, cands, resolves, alive, k + 1);
        } else if !(engaged.len() < channels && magazine > 0) {
        } else if targets_of(engaged).contains(a) {
            law_a_ready_battery_uses_its_capacity(channels, magazine, engaged, cands, resolves, alive, k + 1);
            lemma_offered_extends(channels, true, magazine, engaged, cands, resolves, alive, k + 1);
            let w = choose|w: int| 0 <= w < targets_of(engaged).len() && targets_of(engaged)[w] == a;
            assert(e[w] == e.take(engaged.len() as int)[w]);
            assert(targets_of(e)[w] == a);
        } else {
            let e2 = engaged.push(Engagement { target: a, resolves_at_s: resolves[k] });
            law_a_ready_battery_uses_its_capacity(channels, (magazine - 1) as u32, e2, cands, resolves, alive, k + 1);
            lemma_offered_extends(channels, true, (magazine - 1) as u32, e2, cands, resolves, alive, k + 1);
            assert(e[engaged.len() as int] == e.take(e2.len() as int)[engaged.len() as int]);
            assert(targets_of(e)[engaged.len() as int] == a);
        }
    }
}

} // verus!
