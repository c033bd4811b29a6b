//! The streaming cache: the authoritative map from tile coordinate to tile
//! state. It reconciles the desired window against the current state, hands
//! eviction and load-request actions back to the caller, integrates
//! asynchronously completed loads, and tracks the presentation resources a
//! resident tile owns.
//!
//! All mutation happens on the single control thread that owns the cache;
//! background load jobs only produce an owned payload that the control
//! thread integrates through `poll_completions`.

use vstd::prelude::*;

use crate::assoc::{as_map, distinct_keys, has_key, index_of_key, lemma_as_map_index,
    lemma_as_map_push, lemma_as_map_remove};
use crate::coordinates::{cell_input_in_range, ADTPosition, WorldPosition};

verus! {

/// One unit inside a tile payload: the excerpt of the parsed tile data the
/// cache and the cell index care about. `id` identifies the unit within the
/// world (for handing back to presentation collaborators); `position` is the
/// unit's anchor position, from which its cell coordinate is computed.
#[derive(Debug, Clone, Copy, PartialEq, Eq, Structural)]
pub struct TileUnit {
    pub id: u64,
    pub position: WorldPosition,
}

/// A parsed tile payload: the units the tile contains. Produced by the
/// external loader collaborator and handed in through `poll_completions`.
#[derive(Debug, Clone)]
pub struct TilePayload {
    pub units: Vec<TileUnit>,
}

impl View for TilePayload {
    type V = Seq<TileUnit>;

    open spec fn view(&self) -> Seq<TileUnit> {
        self.units@
    }
}

/// The state of one known tile coordinate. Exactly one state holds per
/// coordinate at any time.
#[derive(Debug)]
pub enum TileState {
    /// A load job is in flight; no payload yet.
    Pending,
    /// Loaded and usable: the parsed payload, plus the identifiers of the
    /// externally-owned presentation resources derived from it, to be
    /// released when the tile is evicted.
    Resident { payload: TilePayload, resources: Vec<u64> },
    /// A load was attempted and produced no usable payload.
    Failed,
}

/// The mathematical value of a `TileState`.
pub enum TileView {
    Pending,
    Resident { units: Seq<TileUnit>, resources: Seq<u64> },
    Failed,
}

impl View for TileState {
    type V = TileView;

    open spec fn view(&self) -> TileView {
        match self {
            TileState::Pending => TileView::Pending,
            TileState::Resident { payload, resources } => TileView::Resident {
                units: payload@,
                resources: resources@,
            },
            TileState::Failed => TileView::Failed,
        }
    }
}

/// Every unit's position is within the span the cell transform accepts.
pub open spec fn payload_in_range(units: Seq<TileUnit>) -> bool {
    forall|j: int| 0 <= j < units.len() ==> cell_input_in_range((#[trigger] units[j]).position)
}

/// Runtime check matching `payload_in_range`, for callers that receive
/// payloads from the outside loader and must reject out-of-world ones.
pub fn payload_in_range_ok(payload: &TilePayload) -> (r: bool)
    ensures
        r == payload_in_range(payload@),
{
    let mut j: usize = 0;
    while j < payload.units.len()
        invariant
            j <= payload.units.len(),
            forall|i: int| 0 <= i < j ==> cell_input_in_range((#[trigger] payload.units@[i]).position),
        decreases payload.units.len() - j,
    {
        if !crate::coordinates::cell_input_ok(&payload.units[j].position) {
            return false;
        }
        j = j + 1;
    }
    true
}

/// The tiles of `m` that are resident.
pub open spec fn resident_of(m: Map<ADTPosition, TileView>) -> Set<ADTPosition> {
    m.dom().filter(|c: ADTPosition| m[c] is Resident)
}

/// The tiles of `m` with a load in flight.
pub open spec fn pending_of(m: Map<ADTPosition, TileView>) -> Set<ADTPosition> {
    m.dom().filter(|c: ADTPosition| m[c] is Pending)
}

/// The tiles of `m` whose load failed.
pub open spec fn failed_of(m: Map<ADTPosition, TileView>) -> Set<ADTPosition> {
    m.dom().filter(|c: ADTPosition| m[c] is Failed)
}

/// A known tile survives reconciliation against the desired set `d` unless
/// it is resident and no longer desired. Pending tiles are never evicted (an
/// unwanted in-flight load completes and is dropped at a later reconcile),
/// and failed markers stay so that a failed coordinate is not retried.
pub open spec fn keeps_tile(m: Map<ADTPosition, TileView>, d: Set<ADTPosition>, c: ADTPosition) -> bool {
    m.dom().contains(c) && (!(m[c] is Resident) || d.contains(c))
}

/// The coordinates a reconcile against `d` evicts: resident and not desired.
pub open spec fn evicted_of(m: Map<ADTPosition, TileView>, d: Set<ADTPosition>) -> Set<ADTPosition> {
    resident_of(m).difference(d)
}

/// The coordinates a reconcile against `d` newly requests: desired and not
/// known in any state (resident, pending or failed).
pub open spec fn requested_of(m: Map<ADTPosition, TileView>, d: Set<ADTPosition>) -> Set<ADTPosition> {
    d.difference(m.dom())
}

/// The tile map after reconciling `m` against the desired set `d`: surviving
/// tiles keep their state, and each newly requested coordinate enters as
/// pending.
pub open spec fn reconcile_model(m: Map<ADTPosition, TileView>, d: Set<ADTPosition>) -> Map<
    ADTPosition,
    TileView,
> {
    Map::new(
        |c: ADTPosition| keeps_tile(m, d, c) || requested_of(m, d).contains(c),
        |c: ADTPosition|
            if m.dom().contains(c) {
                m[c]
            } else {
                TileView::Pending
            },
    )
}

/// The actions a reconcile hands back to its caller: for each evicted tile
/// its coordinate and the presentation resources it owned (to be released by
/// the presentation collaborator), and the coordinates whose loads must be
/// submitted as background jobs.
pub struct ReconcileActions {
    pub evicted: Vec<(ADTPosition, Vec<u64>)>,
    pub requested: Vec<ADTPosition>,
}

/// One finished background load, as observed by a non-blocking poll: the
/// coordinate the job was keyed by, and its parsed payload, or `None` when
/// the load produced no usable payload.
pub struct Completion {
    pub coord: ADTPosition,
    pub outcome: Option<TilePayload>,
}

/// The tile state a completed load settles into: resident (owning no
/// presentation resources yet) on success, the failed marker otherwise.
pub open spec fn outcome_view(outcome: Option<TilePayload>) -> TileView {
    match outcome {
        Some(payload) => TileView::Resident { units: payload@, resources: Seq::empty() },
        None => TileView::Failed,
    }
}

/// The coordinates of a batch of completions.
pub open spec fn completion_coords(s: Seq<Completion>) -> Seq<ADTPosition> {
    s.map_values(|cmp: Completion| cmp.coord)
}

/// The coordinates of a batch of evictions.
pub open spec fn evicted_coords(s: Seq<(ADTPosition, Vec<u64>)>) -> Seq<ADTPosition> {
    s.map_values(|e: (ADTPosition, Vec<u64>)| e.0)
}

/// A stored entry survives reconciliation against the desired set `d`
/// (the stored-pair form of `keeps_tile`).
spec fn keep_entry(e: (ADTPosition, TileState), d: Set<ADTPosition>) -> bool {
    !(e.1 is Resident) || d.contains(e.0)
}

/// An owned copy of a payload, unit for unit.
fn clone_payload(p: &TilePayload) -> (r: TilePayload)
    ensures
        r@ == p@,
{
    let mut units: Vec<TileUnit> = Vec::new();
    let mut i: usize = 0;
    while i < p.units.len()
        invariant
            i <= p.units@.len(),
            units@ == p.units@.take(i as int),
        decreases p.units@.len() - i,
    {
        units.push(p.units[i]);
        proof {
            assert(units@ =~= p.units@.take(i as int + 1));
        }
        i = i + 1;
    }
    proof {
        assert(units@ =~= p.units@);
    }
    TilePayload { units }
}

/// Whether `coord` occurs in `v`.
fn contains_coord(v: &Vec<ADTPosition>, coord: ADTPosition) -> (r: bool)
    ensures
        r == v@.contains(coord),
{
    let mut i: usize = 0;
    while i < v.len()
        invariant
            i <= v@.len(),
            forall|j: int| 0 <= j < i ==> v@[j] != coord,
        decreases v@.len() - i,
    {
        if v[i] == coord {
            return true;
        }
        i = i + 1;
    }
    false
}

/// The streaming cache: exclusive owner of the tile-coordinate-to-state map.
/// Viewed as a `Map<ADTPosition, TileView>`; entries are stored in the order
/// the coordinates became known.
pub struct StreamingCache {
    pub(crate) entries: Vec<(ADTPosition, TileState)>,
}

/// The views of a pair sequence's states, keyed as stored.
pub(crate) open spec fn entry_views(s: Seq<(ADTPosition, TileState)>) -> Seq<(ADTPosition, TileView)> {
    s.map_values(|e: (ADTPosition, TileState)| (e.0, e.1@))
}

impl View for StreamingCache {
    type V = Map<ADTPosition, TileView>;

    closed spec fn view(&self) -> Map<ADTPosition, TileView> {
        as_map(entry_views(self.entries@))
    }
}

impl StreamingCache {
    /// Well-formed: no coordinate appears twice, and every resident payload
    /// is within the world span (so the cell index can place its units).
    pub closed spec fn inv(&self) -> bool {
        &&& distinct_keys(self.entries@)
        &&& forall|i: int|
            0 <= i < self.entries@.len() ==> ((#[trigger] self.entries@[i]).1 matches
                TileState::Resident { payload, .. } ==> payload_in_range(payload@))
    }

    /// An empty cache: nothing known, nothing in flight.
    pub fn new() -> (cache: Self)
        ensures
            cache.inv(),
            cache@ =~= Map::<ADTPosition, TileView>::empty(),
    {
        let cache = StreamingCache { entries: Vec::new() };
        proof {
            assert forall|c: ADTPosition| !has_key(entry_views(cache.entries@), c) by {}
        }
        cache
    }

    /// Distinctness carries from the stored pairs to their views.
    proof fn lemma_views_distinct(&self)
        requires
            self.inv(),
        ensures
            distinct_keys(entry_views(self.entries@)),
    {
        let vs = entry_views(self.entries@);
        assert forall|i: int, j: int| 0 <= i < j < vs.len() implies (#[trigger] vs[i]).0 != (
        #[trigger] vs[j]).0 by {
            assert(vs[i].0 == self.entries@[i].0 && vs[j].0 == self.entries@[j].0);
        }
    }

    /// Each stored entry is in the view map, with its state's view.
    proof fn lemma_view_entry(&self, i: int)
        requires
            self.inv(),
            0 <= i < self.entries@.len(),
        ensures
            self@.dom().contains(self.entries@[i].0),
            self@[self.entries@[i].0] == self.entries@[i].1@,
    {
        self.lemma_views_distinct();
        let vs = entry_views(self.entries@);
        assert(vs[i] == (self.entries@[i].0, self.entries@[i].1@));
        lemma_as_map_index(vs, i);
    }

    /// The view map's domain is exactly the stored keys.
    proof fn lemma_view_dom(&self, c: ADTPosition)
        requires
            self.inv(),
        ensures
            self@.dom().contains(c) <==> has_key(self.entries@, c),
    {
        let vs = entry_views(self.entries@);
        if has_key(self.entries@, c) {
            let i = index_of_key(self.entries@, c);
            assert(vs[i].0 == c);
            assert(has_key(vs, c));
        }
        if has_key(vs, c) {
            let i = index_of_key(vs, c);
            assert(self.entries@[i].0 == c);
            assert(has_key(self.entries@, c));
        }
    }

    /// The position of `coord` among the stored entries, if it is known.
    fn find_index(&self, coord: ADTPosition) -> (r: Option<usize>)
        ensures
            match r {
                Some(i) => i < self.entries@.len() && self.entries@[i as int].0 == coord,
                None => !has_key(self.entries@, coord),
            },
    {
        let mut i: usize = 0;
        while i < self.entries.len()
            invariant
                i <= self.entries@.len(),
                forall|j: int| 0 <= j < i ==> (#[trigger] self.entries@[j]).0 != coord,
            decreases self.entries@.len() - i,
        {
            if self.entries[i].0 == coord {
                return Some(i);
            }
            i = i + 1;
        }
        None
    }

    /// Whether `coord` is known to the cache, in any state.
    pub fn contains_tile(&self, coord: ADTPosition) -> (r: bool)
        requires
            self.inv(),
        ensures
            r == self@.dom().contains(coord),
    {
        proof {
            self.lemma_view_dom(coord);
        }
        self.find_index(coord).is_some()
    }

    /// Whether a load for `coord` is in flight.
    pub fn is_pending(&self, coord: ADTPosition) -> (r: bool)
        requires
            self.inv(),
        ensures
            r == pending_of(self@).contains(coord),
    {
        self.state_test(coord, 0)
    }

    /// Whether `coord` is resident.
    pub fn is_resident(&self, coord: ADTPosition) -> (r: bool)
        requires
            self.inv(),
        ensures
            r == resident_of(self@).contains(coord),
    {
        self.state_test(coord, 1)
    }

    /// Whether a load for `coord` was attempted and failed.
    pub fn is_failed(&self, coord: ADTPosition) -> (r: bool)
        requires
            self.inv(),
        ensures
            r == failed_of(self@).contains(coord),
    {
        self.state_test(coord, 2)
    }

    /// Shared body of the three state tests: `which` selects pending,
    /// resident or failed.
    fn state_test(&self, coord: ADTPosition, which: u8) -> (r: bool)
        requires
            self.inv(),
            which < 3,
        ensures
            which == 0 ==> r == pending_of(self@).contains(coord),
            which == 1 ==> r == resident_of(self@).contains(coord),
            which == 2 ==> r == failed_of(self@).contains(coord),
    {
        proof {
            self.lemma_view_dom(coord);
        }
        match self.find_index(coord) {
            Some(i) => {
                proof {
                    self.lemma_view_entry(i as int);
                }
                match (&self.entries[i].1, which) {
                    (TileState::Pending, 0) => true,
                    (TileState::Resident { .. }, 1) => true,
                    (TileState::Failed, 2) => true,
                    _ => false,
                }
            },
            None => false,
        }
    }

    /// How many loads are in flight, for progress display and for the
    /// caller's one-batch-at-a-time backpressure rule.
    pub fn pending_count(&self) -> (n: usize)
        requires
            self.inv(),
        ensures
            n == pending_of(self@).len(),
    {
        let ghost mut seen: Set<ADTPosition> = Set::empty();
        let mut n: usize = 0;
        let mut k: usize = 0;
        while k < self.entries.len()
            invariant
                self.inv(),
                k <= self.entries@.len(),
                n <= k,
                seen.finite(),
                n == seen.len(),
                forall|c: ADTPosition|
                    #[trigger] seen.contains(c) <==> exists|j: int|
                        0 <= j < k && (#[trigger] self.entries@[j]).0 == c && self.entries@[j].1
                            is Pending,
            decreases self.entries@.len() - k,
        {
            let pending_here = match &self.entries[k].1 {
                TileState::Pending => true,
                _ => false,
            };
            if pending_here {
                proof {
                    let c = self.entries@[k as int].0;
                    assert(!seen.contains(c)) by {
                        if seen.contains(c) {
                            let j = choose|j: int|
                                0 <= j < k && (#[trigger] self.entries@[j]).0 == c
                                    && self.entries@[j].1 is Pending;
                            assert(self.entries@[j].0 != self.entries@[k as int].0);
                        }
                    }
                    seen = seen.insert(c);
                }
                n = n + 1;
            }
            k = k + 1;
            proof {
                assert forall|c: ADTPosition| #[trigger] seen.contains(c) implies exists|j: int|
                    0 <= j < k && (#[trigger] self.entries@[j]).0 == c && self.entries@[j].1
                        is Pending by {}
            }
        }
        proof {
            assert(seen =~= pending_of(self@)) by {
                assert forall|c: ADTPosition| #[trigger] seen.contains(c) implies pending_of(
                    self@,
                ).contains(c) by {
                    let j = choose|j: int|
                        0 <= j < self.entries@.len() && (#[trigger] self.entries@[j]).0 == c
                            && self.entries@[j].1 is Pending;
                    self.lemma_view_entry(j);
                }
                assert forall|c: ADTPosition| pending_of(self@).contains(c) implies
                    #[trigger] seen.contains(c) by {
                    self.lemma_view_dom(c);
                    let j = index_of_key(self.entries@, c);
                    self.lemma_view_entry(j);
                }
            }
        }
        n
    }

    /// Removing the entry at `idx` removes exactly its key from the view.
    proof fn lemma_remove_entry(s0: Seq<(ADTPosition, TileState)>, idx: int)
        requires
            distinct_keys(s0),
            0 <= idx < s0.len(),
        ensures
            distinct_keys(s0.remove(idx)),
            !has_key(s0.remove(idx), s0[idx].0),
            as_map(entry_views(s0.remove(idx))) =~= as_map(entry_views(s0)).remove(s0[idx].0),
    {
        let vs = entry_views(s0);
        assert forall|i: int, j: int| 0 <= i < j < vs.len() implies (#[trigger] vs[i]).0 != (
        #[trigger] vs[j]).0 by {
            assert(vs[i].0 == s0[i].0 && vs[j].0 == s0[j].0);
        }
        let s1 = s0.remove(idx);
        s0.remove_ensures(idx);
        vs.remove_ensures(idx);
        assert(entry_views(s1) =~= vs.remove(idx)) by {
            assert forall|j: int| 0 <= j < s1.len() implies entry_views(s1)[j] == vs.remove(idx)[j] by {
                if j < idx {
                    assert(s1[j] == s0[j] && vs.remove(idx)[j] == vs[j]);
                } else {
                    assert(s1[j] == s0[j + 1] && vs.remove(idx)[j] == vs[j + 1]);
                }
            }
        }
        lemma_as_map_remove(vs, idx);
        lemma_as_map_remove(s0, idx);
        assert(!has_key(s1, s0[idx].0)) by {
            if has_key(s1, s0[idx].0) {
                let j = index_of_key(s1, s0[idx].0);
                if j < idx {
                    assert(s1[j] == s0[j]);
                    assert(s0[j].0 != s0[idx].0);
                } else {
                    assert(s1[j] == s0[j + 1]);
                    assert(s0[idx].0 != s0[j + 1].0);
                }
            }
        }
    }

    /// Removing the entry at `idx` and pushing a new state under the same
    /// key replaces that key's value in the view.
    proof fn lemma_replace_entry(s0: Seq<(ADTPosition, TileState)>, idx: int, st: TileState)
        requires
            distinct_keys(s0),
            0 <= idx < s0.len(),
        ensures
            distinct_keys(s0.remove(idx).push((s0[idx].0, st))),
            as_map(entry_views(s0.remove(idx).push((s0[idx].0, st)))) =~= as_map(
                entry_views(s0),
            ).insert(s0[idx].0, st@),
    {
        Self::lemma_remove_entry(s0, idx);
        let k = s0[idx].0;
        let s1 = s0.remove(idx);
        let s2 = s1.push((k, st));
        lemma_as_map_push(s1, k, st);
        assert(entry_views(s2) =~= entry_views(s1).push((k, st@))) by {
            assert forall|j: int| 0 <= j < s2.len() implies entry_views(s2)[j] == entry_views(
                s1,
            ).push((k, st@))[j] by {
                if j < s1.len() {
                    assert(s2[j] == s1[j]);
                }
            }
        }
        assert(!has_key(entry_views(s1), k)) by {
            if has_key(entry_views(s1), k) {
                let j = index_of_key(entry_views(s1), k);
                assert(s1[j].0 == k);
                assert(has_key(s1, k));
            }
        }
        lemma_as_map_push(entry_views(s1), k, st@);
        assert(as_map(entry_views(s2)) =~= as_map(entry_views(s0)).insert(k, st@));
    }

    /// Integrate one finished background load: the pending entry for `coord`
    /// becomes resident on success and a failed marker otherwise. Other
    /// tiles are untouched.
    pub fn complete_one(&mut self, coord: ADTPosition, outcome: Option<TilePayload>)
        requires
            old(self).inv(),
            pending_of(old(self)@).contains(coord),
            outcome matches Some(payload) ==> payload_in_range(payload@),
        ensures
            final(self).inv(),
            final(self)@ =~= old(self)@.insert(coord, outcome_view(outcome)),
    {
        let ghost s0 = self.entries@;
        let r = self.find_index(coord);
        proof {
            self.lemma_view_dom(coord);
        }
        match r {
            Some(idx) => {
                let st = match outcome {
                    Some(payload) => TileState::Resident { payload, resources: Vec::new() },
                    None => TileState::Failed,
                };
                let (c, _prev) = self.entries.remove(idx);
                self.entries.push((c, st));
                proof {
                    Self::lemma_replace_entry(s0, idx as int, st);
                    assert(st@ == outcome_view(outcome));
                    assert(self@ =~= old(self)@.insert(coord, outcome_view(outcome)));
                    assert forall|i: int|
                        0 <= i < self.entries@.len() implies ((#[trigger] self.entries@[i]).1
                        matches TileState::Resident { payload, .. } ==> payload_in_range(
                        payload@,
                    )) by {
                        s0.remove_ensures(idx as int);
                        if i < self.entries@.len() - 1 {
                            let i0 = if i < idx {
                                i
                            } else {
                                i + 1
                            };
                            assert(self.entries@[i] == s0[i0]);
                        }
                    }
                }
            },
            None => {
                proof {
                    assert(false);
                }
            },
        }
    }

    /// Integrate every finished background load of one polling pass. Each
    /// completion's coordinate must be distinct and pending; each becomes
    /// resident or failed as its outcome says, and no other tile changes.
    pub fn poll_completions(&mut self, completions: Vec<Completion>)
        requires
            old(self).inv(),
            completion_coords(completions@).no_duplicates(),
            forall|i: int|
                0 <= i < completions@.len() ==> pending_of(old(self)@).contains(
                    (#[trigger] completions@[i]).coord,
                ),
            forall|i: int|
                0 <= i < completions@.len() ==> ((#[trigger] completions@[i]).outcome matches Some(
                payload) ==> payload_in_range(payload@)),
        ensures
            final(self).inv(),
            final(self)@.dom() =~= old(self)@.dom(),
            forall|i: int|
                0 <= i < completions@.len() ==> final(self)@[(#[trigger] completions@[i]).coord]
                    == outcome_view(completions@[i].outcome),
            forall|c: ADTPosition|
                old(self)@.dom().contains(c) && !completion_coords(completions@).contains(c)
                    ==> final(self)@[c] == old(self)@[c],
    {
        let ghost all = completions@;
        let mut completions = completions;
        while completions.len() > 0
            invariant
                self.inv(),
                completions@ =~= all.take(completions@.len() as int),
                completions@.len() <= all.len(),
                completion_coords(all).no_duplicates(),
                self@.dom() =~= old(self)@.dom(),
                forall|i: int|
                    0 <= i < completions@.len() ==> pending_of(self@).contains(
                        (#[trigger] all[i]).coord,
                    ),
                forall|i: int|
                    0 <= i < all.len() ==> ((#[trigger] all[i]).outcome matches Some(payload)
                        ==> payload_in_range(payload@)),
                forall|i: int|
                    completions@.len() <= i < all.len() ==> self@[(#[trigger] all[i]).coord]
                        == outcome_view(all[i].outcome),
                forall|c: ADTPosition|
                    old(self)@.dom().contains(c) && !completion_coords(all).contains(c) ==> self@[c]
                        == old(self)@[c],
            decreases completions@.len(),
        {
            let ghost k = completions@.len() - 1;
            let cmp = match completions.pop() {
                Some(cmp) => cmp,
                None => {
                    proof {
                        assert(false);
                    }
                    continue
                    ;
                },
            };
            proof {
                assert(cmp == all[k]);
                assert(pending_of(self@).contains(cmp.coord));
            }
            let ghost before = self@;
            self.complete_one(cmp.coord, cmp.outcome);
            proof {
                assert forall|i: int| 0 <= i < completions@.len() implies pending_of(
                    self@,
                ).contains((#[trigger] all[i]).coord) by {
                    assert(completion_coords(all)[i] == all[i].coord);
                    assert(completion_coords(all)[k] == all[k].coord);
                    assert(all[i].coord != cmp.coord);
                }
                assert forall|i: int| completions@.len() <= i < all.len() implies self@[(
                #[trigger] all[i]).coord] == outcome_view(all[i].outcome) by {
                    if i != k {
                        assert(completion_coords(all)[i] == all[i].coord);
                        assert(completion_coords(all)[k] == all[k].coord);
                        assert(all[i].coord != cmp.coord);
                        assert(self@[all[i].coord] == before[all[i].coord]);
                    }
                }
                assert forall|c: ADTPosition|
                    old(self)@.dom().contains(c) && !completion_coords(all).contains(c) implies
                    self@[c] == old(self)@[c] by {
                    assert(completion_coords(all)[k] == all[k].coord);
                    assert(c != cmp.coord);
                }
            }
        }
    }

    /// Evict a resident tile: remove its entry and hand back exactly the
    /// presentation-resource identifiers it owned, for the caller to
    /// release. Every other tile and its resources are untouched. Only a
    /// resident tile can be evicted; a pending load is never cancelled.
    pub fn evict(&mut self, coord: ADTPosition) -> (resources: Vec<u64>)
        requires
            old(self).inv(),
            resident_of(old(self)@).contains(coord),
        ensures
            final(self).inv(),
            final(self)@ =~= old(self)@.remove(coord),
            old(self)@[coord] matches TileView::Resident { resources: owned, .. } && resources@
                == owned,
    {
        let ghost s0 = self.entries@;
        let r = self.find_index(coord);
        proof {
            self.lemma_view_dom(coord);
        }
        match r {
            Some(idx) => {
                proof {
                    self.lemma_view_entry(idx as int);
                }
                let (_c, st) = self.entries.remove(idx);
                proof {
                    Self::lemma_remove_entry(s0, idx as int);
                    assert forall|i: int|
                        0 <= i < self.entries@.len() implies ((#[trigger] self.entries@[i]).1
                        matches TileState::Resident { payload, .. } ==> payload_in_range(
                        payload@,
                    )) by {
                        s0.remove_ensures(idx as int);
                        let i0 = if i < idx {
                            i
                        } else {
                            i + 1
                        };
                        assert(self.entries@[i] == s0[i0]);
                    }
                }
                match st {
                    TileState::Resident { payload: _, resources } => resources,
                    _ => {
                        proof {
                            assert(false);
                        }
                        Vec::new()
                    },
                }
            },
            None => {
                proof {
                    assert(false);
                }
                Vec::new()
            },
        }
    }

    /// Record the presentation resources the rendering collaborator derived
    /// from a resident tile's payload. The tile owns them from here on and
    /// `evict` hands them back for release.
    pub fn attach_resources(&mut self, coord: ADTPosition, ids: Vec<u64>)
        requires
            old(self).inv(),
            resident_of(old(self)@).contains(coord),
        ensures
            final(self).inv(),
            old(self)@[coord] matches TileView::Resident { units, resources } ==> final(self)@
                =~= old(self)@.insert(coord, TileView::Resident { units, resources: resources + ids@ }),
    {
        let ghost s0 = self.entries@;
        let r = self.find_index(coord);
        proof {
            self.lemma_view_dom(coord);
        }
        match r {
            Some(idx) => {
                proof {
                    self.lemma_view_entry(idx as int);
                }
                let (c, st) = self.entries.remove(idx);
                match st {
                    TileState::Resident { payload, resources } => {
                        let mut resources = resources;
                        let mut ids = ids;
                        resources.append(&mut ids);
                        let st2 = TileState::Resident { payload, resources };
                        self.entries.push((c, st2));
                        proof {
                            Self::lemma_replace_entry(s0, idx as int, st2);
                            assert forall|i: int|
                                0 <= i < self.entries@.len() implies ((
                            #[trigger] self.entries@[i]).1 matches TileState::Resident {
                                payload,
                                ..
                            } ==> payload_in_range(payload@)) by {
                                s0.remove_ensures(idx as int);
                                if i < self.entries@.len() - 1 {
                                    let i0 = if i < idx {
                                        i
                                    } else {
                                        i + 1
                                    };
                                    assert(self.entries@[i] == s0[i0]);
                                } else {
                                    assert(s0[idx as int].1 matches TileState::Resident {
                                        payload,
                                        ..
                                    } ==> payload_in_range(payload@));
                                }
                            }
                        }
                    },
                    _ => {
                        proof {
                            assert(false);
                        }
                    },
                }
            },
            None => {
                proof {
                    assert(false);
                }
            },
        }
    }

    /// A state's view is the same variant as the state.
    proof fn lemma_state_variants(t: &TileState)
        ensures
            t@ is Resident <==> t is Resident,
            t@ is Pending <==> t is Pending,
            t@ is Failed <==> t is Failed,
    {
        match t {
            TileState::Pending => {},
            TileState::Resident { .. } => {},
            TileState::Failed => {},
        }
    }

    /// Drop every resident tile that is not desired, keeping everything
    /// else, and hand back the dropped tiles with the resources they owned.
    fn retain_wanted(&mut self, desired: &Vec<ADTPosition>) -> (evicted: Vec<
        (ADTPosition, Vec<u64>),
    >)
        requires
            old(self).inv(),
        ensures
            final(self).inv(),
            final(self)@ =~= old(self)@.restrict(
                Set::new(|c: ADTPosition| keeps_tile(old(self)@, desired@.to_set(), c)),
            ),
            evicted_coords(evicted@).no_duplicates(),
            forall|i: int|
                0 <= i < evicted@.len() ==> evicted_of(old(self)@, desired@.to_set()).contains(
                    (#[trigger] evicted@[i]).0,
                ) && (old(self)@[evicted@[i].0] matches TileView::Resident { resources, .. }
                    && evicted@[i].1@ == resources),
            forall|c: ADTPosition|
                evicted_of(old(self)@, desired@.to_set()).contains(c) ==> evicted_coords(
                    evicted@,
                ).contains(c),
    {
        broadcast use vstd::seq_lib::group_seq_properties;

        let ghost s0 = self.entries@;
        let ghost d = desired@.to_set();
        let mut kept: Vec<(ADTPosition, TileState)> = Vec::new();
        let mut evicted: Vec<(ADTPosition, Vec<u64>)> = Vec::new();
        let ghost mut k: int = 0;
        let ghost mut esrc: Seq<int> = Seq::empty();
        let ghost mut ksrc: Seq<int> = Seq::empty();
        while self.entries.len() > 0
            invariant
                old(self).inv(),
                0 <= k <= s0.len(),
                s0 == old(self).entries@,
                d == desired@.to_set(),
                self.entries@ == s0.skip(k),
                ksrc.len() == kept@.len(),
                forall|i: int| 0 <= i < kept@.len() ==> 0 <= #[trigger] ksrc[i] < k,
                forall|a: int, b: int|
                    #![trigger ksrc[a], ksrc[b]]
                    0 <= a < b < kept@.len() ==> ksrc[a] < ksrc[b],
                forall|i: int|
                    0 <= i < kept@.len() ==> (#[trigger] kept@[i]) == s0[ksrc[i]] && keep_entry(
                        s0[ksrc[i]],
                        d,
                    ),
                forall|j: int|
                    0 <= j < k ==> (keep_entry(#[trigger] s0[j], d) ==> has_key(kept@, s0[j].0)),
                esrc.len() == evicted@.len(),
                forall|i: int| 0 <= i < evicted@.len() ==> 0 <= #[trigger] esrc[i] < k,
                forall|a: int, b: int|
                    #![trigger esrc[a], esrc[b]]
                    0 <= a < b < evicted@.len() ==> esrc[a] < esrc[b],
                forall|i: int|
                    0 <= i < evicted@.len() ==> s0[esrc[i]].0 == (#[trigger] evicted@[i]).0
                        && !d.contains(evicted@[i].0) && (s0[esrc[i]].1 matches
                    TileState::Resident { resources, .. } && evicted@[i].1@ == resources@),
                forall|j: int|
                    0 <= j < k ==> (!keep_entry(#[trigger] s0[j], d) ==> evicted_coords(
                        evicted@,
                    ).contains(s0[j].0)),
            decreases self.entries@.len(),
        {
            let (c, st) = self.entries.remove(0);
            proof {
                assert(self.entries@ =~= s0.skip(k + 1));
                assert((c, st) == s0[k]);
            }
            let wanted = contains_coord(desired, c);
            proof {
                assert(d.contains(c) == desired@.contains(c));
            }
            let is_res = match &st {
                TileState::Resident { .. } => true,
                _ => false,
            };
            let ghost kept_before = kept@;
            let ghost evicted_before = evicted@;
            if wanted || !is_res {
                kept.push((c, st));
                proof {
                    ksrc = ksrc.push(k);
                    assert(kept@ == kept_before.push(s0[k]));
                    assert(keep_entry(s0[k], d));
                    assert(kept@[kept_before.len() as int] == s0[k]);
                    assert forall|j: int| 0 <= j < k + 1 && keep_entry(#[trigger] s0[j], d) implies
                        has_key(kept@, s0[j].0) by {
                        if j < k {
                            let i = index_of_key(kept_before, s0[j].0);
                            assert(kept@[i].0 == s0[j].0);
                        } else {
                            assert(kept@[kept_before.len() as int].0 == s0[k].0);
                        }
                    }
                }
            } else {
                match st {
                    TileState::Resident { payload: _payload, resources } => {
                        evicted.push((c, resources));
                        proof {
                            assert(!keep_entry(s0[k], d));
                            esrc = esrc.push(k);
                            let last = evicted_before.len() as int;
                            assert(evicted@[last] == (c, evicted@[last].1));
                            assert(s0[k].1 matches TileState::Resident { resources: rr, .. }
                                && evicted@[last].1@ == rr@);
                            assert forall|j: int|
                                0 <= j < k + 1 && !keep_entry(#[trigger] s0[j], d) implies
                                evicted_coords(evicted@).contains(s0[j].0) by {
                                if j < k {
                                    let i = choose|i: int|
                                        0 <= i < evicted_coords(evicted_before).len()
                                            && evicted_coords(evicted_before)[i] == s0[j].0;
                                    assert(evicted_coords(evicted_before)[i]
                                        == evicted_before[i].0);
                                    assert(evicted@[i] == evicted_before[i]);
                                    assert(evicted_coords(evicted@)[i] == evicted@[i].0);
                                } else {
                                    assert(evicted_coords(evicted@)[last] == evicted@[last].0);
                                    assert(evicted@[last].0 == s0[k].0);
                                }
                            }
                        }
                    },
                    _ => {
                        proof {
                            assert(false);
                        }
                    },
                }
            }
            proof {
                k = k + 1;
            }
        }
        proof {
            assert(k == s0.len());
        }
        self.entries = kept;
        proof {
            assert(distinct_keys(kept@)) by {
                assert forall|a: int, b: int| 0 <= a < b < kept@.len() implies (
                #[trigger] kept@[a]).0 != (#[trigger] kept@[b]).0 by {
                    assert(ksrc[a] < ksrc[b]);
                    assert(s0[ksrc[a]].0 != s0[ksrc[b]].0);
                    assert(kept@[a] == s0[ksrc[a]] && kept@[b] == s0[ksrc[b]]);
                }
            }
            assert forall|i: int|
                0 <= i < self.entries@.len() implies ((#[trigger] self.entries@[i]).1 matches
                TileState::Resident { payload, .. } ==> payload_in_range(payload@)) by {
                let j = ksrc[i];
                assert(self.entries@[i] == s0[j]);
                assert(s0[j].1 matches TileState::Resident { payload, .. } ==> payload_in_range(
                    payload@,
                ));
            }
            assert(self.inv());
            let m0 = old(self)@;
            let keep_set = Set::new(|c: ADTPosition| keeps_tile(m0, d, c));
            assert forall|c: ADTPosition| #[trigger] self@.dom().contains(c) implies m0.restrict(
                keep_set,
            ).dom().contains(c) && self@[c] == m0[c] by {
                self.lemma_view_dom(c);
                let i = index_of_key(self.entries@, c);
                self.lemma_view_entry(i);
                let j = ksrc[i];
                assert(self.entries@[i] == s0[j] && keep_entry(s0[j], d));
                old(self).lemma_view_entry(j);
                Self::lemma_state_variants(&s0[j].1);
                assert(keeps_tile(m0, d, c));
            }
            assert forall|c: ADTPosition|
                m0.restrict(keep_set).dom().contains(c) implies #[trigger] self@.dom().contains(
                c,
            ) by {
                old(self).lemma_view_dom(c);
                let j = index_of_key(s0, c);
                old(self).lemma_view_entry(j);
                Self::lemma_state_variants(&s0[j].1);
                assert(keep_entry(s0[j], d));
                assert(has_key(kept@, c));
                self.lemma_view_dom(c);
            }
            assert(self@ =~= m0.restrict(keep_set));
            assert forall|i: int| 0 <= i < evicted@.len() implies evicted_of(m0, d).contains(
                (#[trigger] evicted@[i]).0,
            ) && (m0[evicted@[i].0] matches TileView::Resident { resources, .. } && evicted@[i].1@
                == resources) by {
                let j = esrc[i];
                assert(s0[j].0 == evicted@[i].0);
                old(self).lemma_view_entry(j);
                Self::lemma_state_variants(&s0[j].1);
            }
            assert(evicted_coords(evicted@).no_duplicates()) by {
                assert forall|a: int, b: int| 0 <= a < b < evicted@.len() implies (
                #[trigger] evicted@[a]).0 != (#[trigger] evicted@[b]).0 by {
                    assert(esrc[a] < esrc[b]);
                    assert(s0[esrc[a]].0 != s0[esrc[b]].0);
                }
                assert forall|a: int, b: int|
                    0 <= a < evicted_coords(evicted@).len() && 0 <= b < evicted_coords(
                        evicted@,
                    ).len() && a != b implies evicted_coords(evicted@)[a] != evicted_coords(
                    evicted@,
                )[b] by {
                    assert(evicted_coords(evicted@)[a] == evicted@[a].0);
                    assert(evicted_coords(evicted@)[b] == evicted@[b].0);
                }
            }
            assert forall|c: ADTPosition| evicted_of(m0, d).contains(c) implies evicted_coords(
                evicted@,
            ).contains(c) by {
                old(self).lemma_view_dom(c);
                let j = index_of_key(s0, c);
                old(self).lemma_view_entry(j);
                Self::lemma_state_variants(&s0[j].1);
                assert(!keep_entry(s0[j], d));
            }
        }
        evicted
    }


    /// Insert a pending entry for every desired coordinate not yet known,
    /// and hand the newly requested coordinates back.
    fn add_pending(&mut self, desired: &Vec<ADTPosition>) -> (requested: Vec<ADTPosition>)
        requires
            old(self).inv(),
            desired@.no_duplicates(),
        ensures
            final(self).inv(),
            final(self)@ =~= Map::new(
                |c: ADTPosition| old(self)@.dom().contains(c) || desired@.contains(c),
                |c: ADTPosition|
                    if old(self)@.dom().contains(c) {
                        old(self)@[c]
                    } else {
                        TileView::Pending
                    },
            ),
            requested@.no_duplicates(),
            forall|c: ADTPosition|
                requested@.contains(c) <==> desired@.contains(c) && !old(self)@.dom().contains(c),
    {
        broadcast use vstd::seq_lib::group_seq_properties;

        let mut requested: Vec<ADTPosition> = Vec::new();
        let mut t: usize = 0;
        while t < desired.len()
            invariant
                self.inv(),
                desired@.no_duplicates(),
                t <= desired@.len(),
                self@ =~= Map::new(
                    |c: ADTPosition| old(self)@.dom().contains(c) || desired@.take(t as int).contains(c),
                    |c: ADTPosition|
                        if old(self)@.dom().contains(c) {
                            old(self)@[c]
                        } else {
                            TileView::Pending
                        },
                ),
                requested@.no_duplicates(),
                forall|c: ADTPosition|
                    requested@.contains(c) <==> desired@.take(t as int).contains(c) && !old(
                        self,
                    )@.dom().contains(c),
            decreases desired@.len() - t,
        {
            let c = desired[t];
            proof {
                self.lemma_view_dom(c);
                assert(desired@.take(t as int + 1) =~= desired@.take(t as int).push(c));
                assert forall|c2: ADTPosition| #[trigger] desired@.take(t as int + 1).contains(
                    c2,
                ) implies desired@.take(t as int).contains(c2) || c2 == c by {
                    let w = choose|w: int|
                        0 <= w < desired@.take(t as int + 1).len() && (#[trigger] desired@.take(
                            t as int + 1,
                        )[w]) == c2;
                    if w < t {
                        assert(desired@.take(t as int)[w] == c2);
                    }
                }
                assert forall|c2: ADTPosition|
                    desired@.take(t as int).contains(c2) || c2 == c implies #[trigger] desired@.take(
                    t as int + 1,
                ).contains(c2) by {
                    if desired@.take(t as int).contains(c2) {
                        let w = choose|w: int|
                            0 <= w < desired@.take(t as int).len() && (#[trigger] desired@.take(
                                t as int,
                            )[w]) == c2;
                        assert(desired@.take(t as int + 1)[w] == c2);
                    } else {
                        assert(desired@.take(t as int + 1)[t as int] == c2);
                    }
                }
            }
            let ghost entries_before = self.entries@;
            let ghost requested_before = requested@;
            let r = self.find_index(c);
            if r.is_none() {
                self.entries.push((c, TileState::Pending));
                requested.push(c);
                proof {
                    lemma_as_map_push(entries_before, c, TileState::Pending);
                    assert(entry_views(self.entries@) =~= entry_views(entries_before).push(
                        (c, TileView::Pending),
                    )) by {
                        assert forall|j: int|
                            0 <= j < self.entries@.len() implies entry_views(self.entries@)[j]
                            == entry_views(entries_before).push((c, TileView::Pending))[j] by {
                            if j < entries_before.len() {
                                assert(self.entries@[j] == entries_before[j]);
                            }
                        }
                    }
                    assert(!has_key(entry_views(entries_before), c)) by {
                        if has_key(entry_views(entries_before), c) {
                            let j = index_of_key(entry_views(entries_before), c);
                            assert(entries_before[j].0 == c);
                        }
                    }
                    lemma_as_map_push(entry_views(entries_before), c, TileView::Pending);
                    assert forall|i: int|
                        0 <= i < self.entries@.len() implies ((#[trigger] self.entries@[i]).1
                        matches TileState::Resident { payload, .. } ==> payload_in_range(
                        payload@,
                    )) by {
                        if i < entries_before.len() {
                            assert(self.entries@[i] == entries_before[i]);
                        }
                    }
                    assert forall|c2: ADTPosition| #[trigger] requested@.contains(c2) implies
                        desired@.take(t as int + 1).contains(c2) && !old(self)@.dom().contains(
                        c2,
                    ) by {
                        let i = choose|i: int|
                            0 <= i < requested@.len() && requested@[i] == c2;
                        if i < requested_before.len() {
                            assert(requested_before[i] == c2);
                            assert(requested_before.contains(c2));
                        }
                    }
                    assert forall|c2: ADTPosition|
                        desired@.take(t as int + 1).contains(c2) && !old(self)@.dom().contains(
                            c2,
                        ) implies #[trigger] requested@.contains(c2) by {
                        if c2 == c {
                            assert(requested@[requested_before.len() as int] == c);
                        } else {
                            assert(desired@.take(t as int).contains(c2));
                            assert(requested_before.contains(c2));
                            let i = choose|i: int|
                                0 <= i < requested_before.len() && requested_before[i] == c2;
                            assert(requested@[i] == c2);
                        }
                    }
                    assert(requested@.no_duplicates()) by {
                        assert forall|a: int, b: int|
                            0 <= a < b < requested@.len() implies requested@[a] != requested@[b] by {
                            if b < requested_before.len() {
                                assert(requested_before[a] == requested@[a] && requested_before[b]
                                    == requested@[b]);
                            } else {
                                assert(requested@[a] == requested_before[a]);
                                assert(requested_before.contains(requested@[a]));
                                assert(desired@.take(t as int).contains(requested@[a]));
                                let i = choose|i: int|
                                    0 <= i < t && desired@.take(t as int)[i] == requested@[a];
                                assert(desired@[i] == requested@[a]);
                                assert(desired@[t as int] != desired@[i]);
                            }
                        }
                    }
                    assert(self@ =~= Map::new(
                        |c2: ADTPosition| old(self)@.dom().contains(c2) || desired@.take(
                            t as int + 1,
                        ).contains(c2),
                        |c2: ADTPosition|
                            if old(self)@.dom().contains(c2) {
                                old(self)@[c2]
                            } else {
                                TileView::Pending
                            },
                    ));
                }
            } else {
                proof {
                    assert(self@.dom().contains(c));
                    assert forall|c2: ADTPosition| #[trigger] requested@.contains(c2) implies
                        desired@.take(t as int + 1).contains(c2) && !old(self)@.dom().contains(
                        c2,
                    ) by {}
                    assert forall|c2: ADTPosition|
                        desired@.take(t as int + 1).contains(c2) && !old(self)@.dom().contains(
                            c2,
                        ) implies #[trigger] requested@.contains(c2) by {
                        if c2 == c {
                            assert(old(self)@.dom().contains(c) || desired@.take(
                                t as int,
                            ).contains(c));
                            assert(false);
                        } else {
                            assert(desired@.take(t as int).contains(c2));
                        }
                    }
                    assert(self@ =~= Map::new(
                        |c2: ADTPosition| old(self)@.dom().contains(c2) || desired@.take(
                            t as int + 1,
                        ).contains(c2),
                        |c2: ADTPosition|
                            if old(self)@.dom().contains(c2) {
                                old(self)@[c2]
                            } else {
                                TileView::Pending
                            },
                    ));
                }
            }
            t = t + 1;
        }
        proof {
            assert(desired@.take(desired@.len() as int) =~= desired@);
        }
        requested
    }

    /// Reconcile the desired window against the current state: evict each
    /// resident tile that is no longer desired, and create a pending entry
    /// for each desired coordinate not known in any state. The returned
    /// actions carry, for each evicted tile, the presentation resources it
    /// owned (for the caller to release synchronously), and the coordinates
    /// whose background load jobs the caller must now submit. Tiles already
    /// pending or failed are never re-requested: an unwanted in-flight load
    /// is left to finish, and a failed coordinate is not retried.
    pub fn reconcile(&mut self, desired: &Vec<ADTPosition>) -> (actions: ReconcileActions)
        requires
            old(self).inv(),
            desired@.no_duplicates(),
        ensures
            final(self).inv(),
            final(self)@ =~= reconcile_model(old(self)@, desired@.to_set()),
            actions.requested@.no_duplicates(),
            forall|c: ADTPosition|
                actions.requested@.contains(c) <==> requested_of(
                    old(self)@,
                    desired@.to_set(),
                ).contains(c),
            evicted_coords(actions.evicted@).no_duplicates(),
            forall|i: int|
                0 <= i < actions.evicted@.len() ==> evicted_of(
                    old(self)@,
                    desired@.to_set(),
                ).contains((#[trigger] actions.evicted@[i]).0) && (old(
                    self,
                )@[actions.evicted@[i].0] matches TileView::Resident { resources, .. }
                    && actions.evicted@[i].1@ == resources),
            forall|c: ADTPosition|
                evicted_of(old(self)@, desired@.to_set()).contains(c) ==> evicted_coords(
                    actions.evicted@,
                ).contains(c),
    {
        let ghost m0 = self@;
        let ghost d = desired@.to_set();
        let evicted = self.retain_wanted(desired);
        let ghost m1 = self@;
        let requested = self.add_pending(desired);
        proof {
            let keep_set = Set::new(|c: ADTPosition| keeps_tile(m0, d, c));
            assert(m1 =~= m0.restrict(keep_set));
            assert forall|c: ADTPosition| #[trigger] d.contains(c) && m0.dom().contains(c) implies
                m1.dom().contains(c) by {
                assert(keeps_tile(m0, d, c));
            }
            assert(self@ =~= reconcile_model(m0, d));
            assert forall|c: ADTPosition| #[trigger] requested@.contains(c) <==> requested_of(
                m0,
                d,
            ).contains(c) by {
                if requested@.contains(c) {
                    assert(desired@.contains(c) && !m1.dom().contains(c));
                }
                if requested_of(m0, d).contains(c) {
                    assert(!m1.dom().contains(c));
                }
            }
        }
        ReconcileActions { evicted, requested }
    }

    /// The resident tiles and their payloads, in the order the cache stores
    /// them (the order the coordinates became known), each coordinate once.
    /// This is the snapshot the cell index is rebuilt from and the payload
    /// source for the rendering collaborator.
    pub fn resident_tiles(&self) -> (tiles: Vec<(ADTPosition, TilePayload)>)
        requires
            self.inv(),
        ensures
            forall|a: int, b: int|
                0 <= a < b < tiles@.len() ==> (#[trigger] tiles@[a]).0 != (#[trigger] tiles@[b]).0,
            forall|i: int|
                0 <= i < tiles@.len() ==> resident_of(self@).contains((#[trigger] tiles@[i]).0)
                    && (self@[tiles@[i].0] matches TileView::Resident { units, .. }
                    && tiles@[i].1@ == units) && payload_in_range(tiles@[i].1@),
            forall|c: ADTPosition|
                resident_of(self@).contains(c) ==> exists|i: int|
                    0 <= i < tiles@.len() && (#[trigger] tiles@[i]).0 == c,
    {
        let mut tiles: Vec<(ADTPosition, TilePayload)> = Vec::new();
        let mut k: usize = 0;
        let ghost mut tsrc: Seq<int> = Seq::empty();
        while k < self.entries.len()
            invariant
                self.inv(),
                k <= self.entries@.len(),
                tsrc.len() == tiles@.len(),
                forall|i: int| 0 <= i < tiles@.len() ==> 0 <= #[trigger] tsrc[i] < k,
                forall|a: int, b: int|
                    #![trigger tsrc[a], tsrc[b]]
                    0 <= a < b < tiles@.len() ==> tsrc[a] < tsrc[b],
                forall|i: int|
                    0 <= i < tiles@.len() ==> self.entries@[tsrc[i]].0 == (#[trigger] tiles@[i]).0
                        && (self.entries@[tsrc[i]].1 matches TileState::Resident { payload, .. }
                        && tiles@[i].1@ == payload@),
                forall|j: int|
                    0 <= j < k ==> ((#[trigger] self.entries@[j]).1 is Resident ==> exists|i: int|
                        0 <= i < tiles@.len() && (#[trigger] tiles@[i]).0 == self.entries@[j].0),
            decreases self.entries@.len() - k,
        {
            let ghost tiles_before = tiles@;
            match &self.entries[k].1 {
                TileState::Resident { payload, .. } => {
                    let copied = clone_payload(payload);
                    tiles.push((self.entries[k].0, copied));
                    proof {
                        tsrc = tsrc.push(k as int);
                        assert(tiles@[tiles_before.len() as int].0 == self.entries@[k as int].0);
                        assert forall|j: int|
                            0 <= j < k + 1 && (#[trigger] self.entries@[j]).1 is Resident implies
                            exists|i: int|
                                0 <= i < tiles@.len() && (#[trigger] tiles@[i]).0
                                    == self.entries@[j].0 by {
                            if j < k {
                                let i = choose|i: int|
                                    0 <= i < tiles_before.len() && (#[trigger] tiles_before[i]).0
                                        == self.entries@[j].0;
                                assert(tiles@[i].0 == self.entries@[j].0);
                            } else {
                                assert(tiles@[tiles_before.len() as int].0
                                    == self.entries@[j].0);
                            }
                        }
                    }
                },
                _ => {
                    proof {
                        assert forall|j: int|
                            0 <= j < k + 1 && (#[trigger] self.entries@[j]).1 is Resident implies
                            exists|i: int|
                                0 <= i < tiles@.len() && (#[trigger] tiles@[i]).0
                                    == self.entries@[j].0 by {
                            if j < k {
                                let i = choose|i: int|
                                    0 <= i < tiles@.len() && (#[trigger] tiles@[i]).0
                                        == self.entries@[j].0;
                            }
                        }
                    }
                },
            }
            k = k + 1;
        }
        proof {
            assert forall|a: int, b: int| 0 <= a < b < tiles@.len() implies (
            #[trigger] tiles@[a]).0 != (#[trigger] tiles@[b]).0 by {
                assert(tsrc[a] < tsrc[b]);
                assert(self.entries@[tsrc[a]].0 != self.entries@[tsrc[b]].0);
            }
            assert forall|i: int| 0 <= i < tiles@.len() implies resident_of(self@).contains(
                (#[trigger] tiles@[i]).0,
            ) && (self@[tiles@[i].0] matches TileView::Resident { units, .. } && tiles@[i].1@
                == units) && payload_in_range(tiles@[i].1@) by {
                let j = tsrc[i];
                self.lemma_view_entry(j);
                Self::lemma_state_variants(&self.entries@[j].1);
            }
            assert forall|c: ADTPosition| resident_of(self@).contains(c) implies exists|i: int|
                0 <= i < tiles@.len() && (#[trigger] tiles@[i]).0 == c by {
                self.lemma_view_dom(c);
                let j = index_of_key(self.entries@, c);
                self.lemma_view_entry(j);
                Self::lemma_state_variants(&self.entries@[j].1);
                assert(self.entries@[j].1 is Resident);
            }
        }
        tiles
    }

    /// Whether every coordinate of `coords` is already known to the cache.
    /// The control loop skips reconciliation entirely while this holds.
    pub fn all_known(&self, coords: &Vec<ADTPosition>) -> (r: bool)
        requires
            self.inv(),
        ensures
            r == forall|i: int| 0 <= i < coords@.len() ==> self@.dom().contains(#[trigger] coords@[i]),
    {
        let mut k: usize = 0;
        while k < coords.len()
            invariant
                self.inv(),
                k <= coords@.len(),
                forall|i: int| 0 <= i < k ==> self@.dom().contains(#[trigger] coords@[i]),
            decreases coords@.len() - k,
        {
            if !self.contains_tile(coords[k]) {
                return false;
            }
            k = k + 1;
        }
        true
    }
}

/// Reconciling an empty cache against a desired set leaves every desired
/// coordinate pending and nothing else: the requests are exactly the desired
/// set, and nothing is resident or failed.
pub proof fn lemma_reconcile_empty(d: Set<ADTPosition>)
    ensures
        pending_of(reconcile_model(Map::<ADTPosition, TileView>::empty(), d)) =~= d,
        resident_of(reconcile_model(Map::<ADTPosition, TileView>::empty(), d)) =~= Set::<
            ADTPosition,
        >::empty(),
        failed_of(reconcile_model(Map::<ADTPosition, TileView>::empty(), d)) =~= Set::<
            ADTPosition,
        >::empty(),
        requested_of(Map::<ADTPosition, TileView>::empty(), d) =~= d,
{
    let m1 = reconcile_model(Map::<ADTPosition, TileView>::empty(), d);
    assert forall|c: ADTPosition| #[trigger] d.contains(c) implies pending_of(m1).contains(c) by {
        assert(m1.dom().contains(c));
        assert(m1[c] is Pending);
    }
}

/// Reconciling twice in succession against the same desired set changes
/// nothing the second time: the state map is unchanged and no load is
/// requested again, in particular none for a coordinate already pending.
pub proof fn lemma_reconcile_idempotent(m: Map<ADTPosition, TileView>, d: Set<ADTPosition>)
    ensures
        reconcile_model(reconcile_model(m, d), d) =~= reconcile_model(m, d),
        requested_of(reconcile_model(m, d), d) =~= Set::<ADTPosition>::empty(),
{
    let m1 = reconcile_model(m, d);
    assert forall|c: ADTPosition| #[trigger] d.contains(c) implies m1.dom().contains(c) by {
        if m.dom().contains(c) {
            assert(keeps_tile(m, d, c));
        } else {
            assert(requested_of(m, d).contains(c));
        }
    }
    let m2 = reconcile_model(m1, d);
    assert forall|c: ADTPosition| #[trigger] m2.dom().contains(c) implies m1.dom().contains(c)
        && m2[c] == m1[c] by {}
    assert forall|c: ADTPosition| #[trigger] m1.dom().contains(c) implies m2.dom().contains(c) by {
        if m1[c] is Resident {
            assert(m.dom().contains(c) && keeps_tile(m, d, c));
            assert(m[c] is Resident ==> d.contains(c));
            assert(keeps_tile(m1, d, c));
        } else {
            assert(keeps_tile(m1, d, c));
        }
    }
}

/// A coordinate is in at most one of the resident, pending and failed sets:
/// the cache maps each known coordinate to exactly one state.
pub proof fn lemma_states_disjoint(m: Map<ADTPosition, TileView>)
    ensures
        resident_of(m).intersect(pending_of(m)) =~= Set::<ADTPosition>::empty(),
        resident_of(m).intersect(failed_of(m)) =~= Set::<ADTPosition>::empty(),
        pending_of(m).intersect(failed_of(m)) =~= Set::<ADTPosition>::empty(),
{
}

} // verus!
