//! A line-of-sight memo for the per-tick sensing loop.
//!
//! The glimpse loop tests every (sensor, untracked target) pair every tick, and each
//! test walks the terrain grid. Most endpoints never move, so the answer cannot change:
//! this table remembers the last answer per pair together with the endpoints it was
//! computed for, and hands it back only when the endpoints are **exactly** the same.
//!
//! Endpoints are keyed by their exact bit patterns (see [`Endpoints`]), so there is no
//! tolerance, no rounding and no staleness window: a hit is the same value a miss would
//! have recomputed.

use vstd::prelude::*;

verus! {

/// The two endpoints a query was asked about: both positions and both actor heights,
/// each as the bit pattern of the coordinate with negative zero folded onto zero.
///
/// `comparable` is false when any coordinate was not a number; such a record matches
/// nothing, not even itself, exactly as a coordinate-by-coordinate `==` would say.
#[derive(Clone, Copy, Debug)]
pub struct Endpoints {
    /// First endpoint, x.
    pub a_x: u32,
    /// First endpoint, y.
    pub a_y: u32,
    /// First endpoint's actor height.
    pub h_a: u32,
    /// Second endpoint, x.
    pub b_x: u32,
    /// Second endpoint, y.
    pub b_y: u32,
    /// Second endpoint's actor height.
    pub h_b: u32,
    /// False if any coordinate was not a number.
    pub comparable: bool,
}

impl Endpoints {
    /// Do two endpoint records describe the same query?
    pub open spec fn same(self, other: Endpoints) -> bool {
        &&& self.comparable
        &&& other.comparable
        &&& self.a_x == other.a_x
        &&& self.a_y == other.a_y
        &&& self.h_a == other.h_a
        &&& self.b_x == other.b_x
        &&& self.b_y == other.b_y
        &&& self.h_b == other.h_b
    }

    /// Exact comparison: every coordinate equal, none of them not-a-number.
    pub fn same_as(&self, other: &Endpoints) -> (r: bool)
        ensures
            r == self.same(*other),
    {
        self.comparable && other.comparable && self.a_x == other.a_x && self.a_y == other.a_y
            && self.h_a == other.h_a && self.b_x == other.b_x && self.b_y == other.b_y
            && self.h_b == other.h_b
    }
}

/// Which asset list a target index refers to. The two lists are numbered
/// independently, so a slot needs both to be unambiguous.
#[derive(Clone, Copy, PartialEq, Eq, Debug, Structural)]
pub enum TargetKind {
    /// An index into the ground units.
    Ground,
    /// An index into the airframes.
    Air,
}

/// Which (sensor, target) pair a slot belongs to.
#[derive(Clone, Copy, PartialEq, Eq, Debug, Structural)]
pub struct Key {
    /// Sensor index.
    pub sensor: usize,
    /// Which list `target` indexes.
    pub kind: TargetKind,
    /// Target index within its list.
    pub target: usize,
}

/// The table as a mathematical value.
pub struct CacheView<V> {
    /// Sensors the table is shaped for.
    pub sensors: nat,
    /// Ground units the table is shaped for.
    pub units: nat,
    /// Airframes the table is shaped for.
    pub air: nat,
    /// Lookups answered from the table.
    pub hits: nat,
    /// Lookups that found nothing usable.
    pub misses: nat,
    /// One remembered query per slot, row-major by sensor.
    pub slots: Seq<Option<(Endpoints, V)>>,
}

impl<V> CacheView<V> {
    /// Row-major slot of a (sensor, target) pair, or `None` when either index is beyond
    /// the table.
    pub open spec fn slot_of(self, key: Key) -> Option<int> {
        let stride = self.units + self.air;
        let offset: Option<int> = match key.kind {
            TargetKind::Ground => if key.target < self.units { Some(key.target as int) } else { None },
            TargetKind::Air => if key.target < self.air { Some(self.units + key.target) } else { None },
        };
        match offset {
            Some(o) => if key.sensor < self.sensors { Some(key.sensor * stride + o) } else { None },
            None => None,
        }
    }

    /// The table's shape matches its storage.
    pub open spec fn well_formed(self) -> bool {
        self.slots.len() == self.sensors * (self.units + self.air)
    }

    /// The remembered query for a pair, if any.
    pub open spec fn entry(self, key: Key) -> Option<(Endpoints, V)> {
        match self.slot_of(key) {
            Some(i) => self.slots[i],
            None => None,
        }
    }

    /// What a lookup of `key` at `at` answers: the remembered value when the endpoints
    /// are exactly the ones it was computed for.
    pub open spec fn lookup(self, key: Key, at: Endpoints) -> Option<V> {
        match self.entry(key) {
            Some(e) => if e.0.same(at) { Some(e.1) } else { None },
            None => None,
        }
    }

    /// The table after remembering `v` for `key` at `at` (unchanged for a pair beyond it).
    pub open spec fn put(self, key: Key, at: Endpoints, v: V) -> CacheView<V> {
        match self.slot_of(key) {
            Some(i) => CacheView { slots: self.slots.update(i, Some((at, v))), ..self },
            None => self,
        }
    }

    /// The table after a lookup of `key` at `at`: same contents, one more hit or miss.
    pub open spec fn after_get(self, key: Key, at: Endpoints) -> CacheView<V> {
        if self.lookup(key, at) is Some {
            CacheView { hits: self.hits + 1, ..self }
        } else {
            CacheView { misses: self.misses + 1, ..self }
        }
    }

    /// The table after fitting it to the given asset counts: unchanged if the shape
    /// already matches, otherwise reshaped and emptied (counters kept).
    pub open spec fn fit(self, sensors: nat, units: nat, air: nat) -> CacheView<V> {
        if self.sensors == sensors && self.units == units && self.air == air {
            self
        } else {
            CacheView {
                sensors,
                units,
                air,
                slots: Seq::new(sensors * (units + air), |i: int| None),
                ..self
            }
        }
    }

    /// The empty table with zeroed counters.
    pub open spec fn empty() -> CacheView<V> {
        CacheView { sensors: 0, units: 0, air: 0, hits: 0, misses: 0, slots: Seq::empty() }
    }
}

/// A `sensors × (units + air)` table of remembered line-of-sight results.
///
/// A flat vector rather than a map: the key is a pair of small integers, so indexing
/// arithmetic is exact and iteration order never enters the picture.
pub struct LosCache<V> {
    slots: Vec<Option<(Endpoints, V)>>,
    sensors: usize,
    units: usize,
    air: usize,
    hits: u64,
    misses: u64,
}

impl<V> View for LosCache<V> {
    type V = CacheView<V>;

    closed spec fn view(&self) -> CacheView<V> {
        CacheView {
            sensors: self.sensors as nat,
            units: self.units as nat,
            air: self.air as nat,
            hits: self.hits as nat,
            misses: self.misses as nat,
            slots: self.slots@,
        }
    }
}

/// The counters wrap like unsigned machine integers.
pub open spec fn wrap64(n: nat) -> nat {
    n % 0x1_0000_0000_0000_0000
}

impl<V: Copy> LosCache<V> {
    /// The table's storage matches its shape.
    pub closed spec fn wf(&self) -> bool {
        &&& self.slots@.len() == self.sensors * (self.units + self.air)
        &&& self.units + self.air <= usize::MAX
    }

    /// An empty table.
    pub fn new() -> (r: LosCache<V>)
        ensures
            r.wf(),
            r@ == CacheView::<V>::empty(),
    {
        let r = LosCache { slots: Vec::new(), sensors: 0, units: 0, air: 0, hits: 0, misses: 0 };
        assert(r@.slots =~= Seq::<Option<(Endpoints, V)>>::empty());
        r
    }

    /// Resize and clear if the asset lists have changed shape: placing or removing an
    /// asset renumbers the table, so the old contents are meaningless rather than merely
    /// stale.
    pub fn fit(&mut self, sensors: usize, units: usize, air: usize)
        requires
            old(self).wf(),
            units + air <= usize::MAX,
            sensors * (units + air) <= usize::MAX,
        ensures
            final(self).wf(),
            final(self)@ == old(self)@.fit(sensors as nat, units as nat, air as nat),
    {
        if self.sensors == sensors && self.units == units && self.air == air {
            return;
        }
        self.sensors = sensors;
        self.units = units;
        self.air = air;
        let total = sensors * (units + air);
        let mut slots: Vec<Option<(Endpoints, V)>> = Vec::new();
        let mut i: usize = 0;
        while i < total
            invariant
                i <= total,
                slots@.len() == i,
                forall|k: int| 0 <= k < i ==> #[trigger] slots@[k] is None,
            decreases total - i,
        {
            slots.push(None);
            i += 1;
        }
        self.slots = slots;
        assert(self@.slots =~= Seq::new(total as nat, |k: int| None::<(Endpoints, V)>));
    }

    /// Forget everything, counters included.
    pub fn clear(&mut self)
        ensures
            final(self).wf(),
            final(self)@ == CacheView::<V>::empty(),
    {
        self.slots = Vec::new();
        self.sensors = 0;
        self.units = 0;
        self.air = 0;
        self.hits = 0;
        self.misses = 0;
        assert(self@.slots =~= Seq::<Option<(Endpoints, V)>>::empty());
    }

    /// Row-major slot for one (sensor, target) pair, or `None` if either index is
    /// beyond the table, which happens between an asset being added and the next `fit`.
    fn slot(&self, key: Key) -> (r: Option<usize>)
        requires
            self.wf(),
        ensures
            match r {
                Some(i) => self@.slot_of(key) == Some(i as int) && i < self@.slots.len(),
                None => self@.slot_of(key) is None,
            },
    {
        let stride = self.units + self.air;
        let offset = match key.kind {
            TargetKind::Ground => if key.target < self.units {
                key.target
            } else {
                return None;
            },
            TargetKind::Air => if key.target < self.air {
                self.units + key.target
            } else {
                return None;
            },
        };
        let total = self.slots.len();
        if key.sensor < self.sensors {
            proof {
                lemma_slot_in_range(key.sensor as int, self.sensors as int, stride as int, offset as int);
            }
            Some(key.sensor * stride + offset)
        } else {
            None
        }
    }

    /// The cached result for this pair if the endpoints are unchanged, else `None`.
    /// Counts a hit or a miss either way.
    pub fn get(&mut self, key: Key, at: Endpoints) -> (r: Option<V>)
        requires
            old(self).wf(),
        ensures
            final(self).wf(),
            r == old(self)@.lookup(key, at),
            final(self)@.slots == old(self)@.slots,
            final(self)@.sensors == old(self)@.sensors,
            final(self)@.units == old(self)@.units,
            final(self)@.air == old(self)@.air,
            r is Some ==> final(self)@.hits == wrap64(old(self)@.hits + 1) && final(self)@.misses
                == old(self)@.misses,
            r is None ==> final(self)@.misses == wrap64(old(self)@.misses + 1) && final(self)@.hits
                == old(self)@.hits,
    {
        let hit = match self.slot(key) {
            Some(i) => match &self.slots[i] {
                Some(e) => if e.0.same_as(&at) {
                    Some(e.1)
                } else {
                    None
                },
                None => None,
            },
            None => None,
        };
        if hit.is_some() {
            self.hits = self.hits.wrapping_add(1);
        } else {
            self.misses = self.misses.wrapping_add(1);
        }
        hit
    }

    /// Remember a freshly computed result against the endpoints that produced it. A pair
    /// beyond the table is ignored rather than panicking.
    pub fn put(&mut self, key: Key, at: Endpoints, los: V)
        requires
            old(self).wf(),
        ensures
            final(self).wf(),
            final(self)@ == old(self)@.put(key, at, los),
    {
        if let Some(i) = self.slot(key) {
            self.slots.set(i, Some((at, los)));
        }
    }

    /// Hits and misses since the last reset.
    pub fn stats(&self) -> (r: (u64, u64))
        ensures
            r.0 == self@.hits,
            r.1 == self@.misses,
    {
        (self.hits, self.misses)
    }
}

proof fn lemma_slot_in_range(sensor: int, sensors: int, stride: int, offset: int)
    requires
        0 <= sensor < sensors,
        0 <= offset < stride,
    ensures
        sensor * stride + offset < sensors * stride,
        0 <= sensor * stride + offset,
{
    assert(sensor * stride + offset < sensors * stride) by (nonlinear_arith)
        requires
            0 <= sensor < sensors,
            0 <= offset < stride,
    ;
    assert(0 <= sensor * stride) by (nonlinear_arith)
        requires
            0 <= sensor,
            0 <= stride,
    ;
}

proof fn lemma_slot_of_in_range<V>(c: CacheView<V>, key: Key)
    requires
        c.well_formed(),
        c.slot_of(key) is Some,
    ensures
        0 <= c.slot_of(key)->0 < c.slots.len(),
{
    let stride = c.units + c.air;
    let o: int = match key.kind {
        TargetKind::Ground => key.target as int,
        TargetKind::Air => c.units + key.target,
    };
    lemma_slot_in_range(key.sensor as int, c.sensors as int, stride as int, o);
}

/// Two different (sensor, target) pairs never share a slot: ground unit `k` and airframe
/// `k` are different assets, and so are the same target seen by two sensors.
pub proof fn law_pairs_do_not_share_a_slot<V>(c: CacheView<V>, k1: Key, k2: Key)
    requires
        c.slot_of(k1) is Some,
        c.slot_of(k2) is Some,
        k1 != k2,
    ensures
        c.slot_of(k1) != c.slot_of(k2),
{
    let stride = c.units + c.air;
    let o1: int = match k1.kind {
        TargetKind::Ground => k1.target as int,
        TargetKind::Air => c.units + k1.target,
    };
    let o2: int = match k2.kind {
        TargetKind::Ground => k2.target as int,
        TargetKind::Air => c.units + k2.target,
    };
    assert(0 <= o1 < stride && 0 <= o2 < stride);
    if k1.sensor == k2.sensor {
        assert(o1 != o2);
    } else {
        let (s1, s2) = (k1.sensor as int, k2.sensor as int);
        if s1 < s2 {
            assert(s1 * stride + o1 < s2 * stride + o2) by (nonlinear_arith)
                requires
                    s1 < s2,
                    0 <= o1 < stride,
                    0 <= o2,
            ;
        } else {
            assert(s2 * stride + o2 < s1 * stride + o1) by (nonlinear_arith)
                requires
                    s2 < s1,
                    0 <= o2 < stride,
                    0 <= o1,
            ;
        }
    }
}

/// What a read gives back of a write: after remembering `v` for a pair at `at`, asking
/// for that pair at exactly the same endpoints answers `v`.
pub proof fn law_put_then_lookup<V>(c: CacheView<V>, key: Key, at: Endpoints, again: Endpoints, v: V)
    requires
        c.slot_of(key) is Some,
        c.well_formed(),
        at.same(again),
    ensures
        c.put(key, at, v).lookup(key, again) == Some(v),
{
    lemma_slot_of_in_range(c, key);
}

/// Any movement at all is a miss: a lookup at endpoints that are not exactly the
/// remembered ones answers nothing.
pub proof fn law_moved_endpoints_miss<V>(c: CacheView<V>, key: Key, at: Endpoints, moved: Endpoints, v: V)
    requires
        !at.same(moved),
        c.well_formed(),
    ensures
        c.put(key, at, v).lookup(key, moved) is None,
{
    if c.slot_of(key) is Some {
        lemma_slot_of_in_range(c, key);
    }
}

/// Remembering one pair leaves every other pair's answer alone.
pub proof fn law_put_leaves_other_pairs<V>(
    c: CacheView<V>,
    key: Key,
    other: Key,
    at: Endpoints,
    q: Endpoints,
    v: V,
)
    requires
        key != other,
        c.well_formed(),
    ensures
        c.put(key, at, v).lookup(other, q) == c.lookup(other, q),
{
    if c.slot_of(key) is Some && c.slot_of(other) is Some {
        law_pairs_do_not_share_a_slot(c, key, other);
        lemma_slot_of_in_range(c, key);
        lemma_slot_of_in_range(c, other);
    }
}

/// Resizing the asset lists forgets everything: after a fit to a different shape no
/// lookup hits.
pub proof fn law_refit_forgets<V>(c: CacheView<V>, sensors: nat, units: nat, air: nat, key: Key, q: Endpoints)
    requires
        !(c.sensors == sensors && c.units == units && c.air == air),
    ensures
        c.fit(sensors, units, air).lookup(key, q) is None,
{
    let f = c.fit(sensors, units, air);
    if let Some(i) = f.slot_of(key) {
        let stride = units + air;
        let o: int = match key.kind {
            TargetKind::Ground => key.target as int,
            TargetKind::Air => units + key.target,
        };
        lemma_slot_in_range(key.sensor as int, sensors as int, stride as int, o);
    }
}

/// A pair beyond the table is ignored: remembering it changes nothing and asking for it
/// answers nothing.
pub proof fn law_out_of_range_is_ignored<V>(c: CacheView<V>, key: Key, at: Endpoints, v: V)
    requires
        c.slot_of(key) is None,
    ensures
        c.put(key, at, v) == c,
        c.lookup(key, at) is None,
{
}

} // verus!
