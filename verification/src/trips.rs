//! Per-station trip records and the merge of freshly fetched departures
//! into them.
//!
//! A station's record maps each trip id to the latest observed state of
//! that trip. Merging a batch of raw departure entries overwrites the
//! record per trip id unconditionally, so a merge is idempotent and
//! last-write-wins; entries without a trip id are dropped and counted but
//! never abort the rest of the batch.

use vstd::prelude::*;

verus! {

/// Sentinel delay recorded for a cancelled trip, distinguishing
/// "cancelled" from "on time".
pub const CANCELLED_DELAY: i32 = -1;

/// Latest observed state of one trip at one station.
#[derive(Debug)]
pub struct Trip {
    /// Delay in seconds, or `CANCELLED_DELAY` for a cancelled trip.
    pub delay: i32,
    /// Product category string of the line, `"unknown"` when the fetch
    /// reported none.
    pub product_type: String,
}

/// Spec-level image of a `Trip`.
pub ghost struct TripView {
    pub delay: int,
    pub product_type: Seq<char>,
}

impl View for Trip {
    type V = TripView;

    open spec fn view(&self) -> TripView {
        TripView { delay: self.delay as int, product_type: self.product_type@ }
    }
}

/// One departure entry as the fetch boundary hands it over: exactly the
/// fields the merge reads, with absence made explicit.
pub struct RawDeparture {
    /// Stable identifier of the journey; an entry without one is malformed.
    pub trip_id: Option<String>,
    /// Product category from the nested line information of the entry.
    pub product: Option<String>,
    /// Whether the entry is marked cancelled.
    pub cancelled: bool,
    /// Delay in seconds; `None` stands for an absent or null field.
    pub delay: Option<i32>,
}

/// Error for a departure entry that lacks the required trip id. The entry
/// is dropped; the rest of its batch is still merged.
#[derive(Debug)]
pub struct MalformedEntry;

/// An entry can be merged exactly when it carries a trip id.
pub open spec fn entry_valid(e: RawDeparture) -> bool {
    e.trip_id is Some
}

/// Delay recorded for an entry: the cancellation sentinel wins over any
/// numeric field, and an absent delay counts as on time.
pub open spec fn derived_delay(e: RawDeparture) -> int {
    if e.cancelled {
        CANCELLED_DELAY as int
    } else if e.delay is Some {
        e.delay->0 as int
    } else {
        0
    }
}

/// Product recorded for an entry: the reported category, or `"unknown"`
/// when the entry carries none.
pub open spec fn derived_product(e: RawDeparture) -> Seq<char> {
    if e.product is Some {
        e.product->0@
    } else {
        "unknown"@
    }
}

/// The trip state a valid entry is merged as.
pub open spec fn derived_trip(e: RawDeparture) -> TripView {
    TripView { delay: derived_delay(e), product_type: derived_product(e) }
}

/// Turns one raw departure entry into the record it is merged as, or
/// reports it malformed when the trip id is absent. A cancelled entry
/// always yields the sentinel delay, whatever numeric delay it also
/// carries.
pub fn derive_trip(entry: &RawDeparture) -> (r: Result<(String, Trip), MalformedEntry>)
    ensures
        r is Ok <==> entry_valid(*entry),
        r is Ok ==> r->Ok_0.0@ == entry.trip_id->0@,
        r is Ok ==> r->Ok_0.1@ == derived_trip(*entry),
        r is Ok && entry.cancelled ==> r->Ok_0.1.delay == CANCELLED_DELAY,
{
    match &entry.trip_id {
        None => Err(MalformedEntry),
        Some(id) => {
            let product_type = match &entry.product {
                Some(p) => p.clone(),
                None => "unknown".to_owned(),
            };
            let delay: i32 = if entry.cancelled {
                CANCELLED_DELAY
            } else {
                match entry.delay {
                    Some(d) => d,
                    None => 0,
                }
            };
            Ok((id.clone(), Trip { delay, product_type }))
        },
    }
}

/// The persisted record of one station: its trips, keyed by trip id.
/// The pairs carry distinct keys (`wf`), so the record is read as a map
/// from trip id to trip state.
#[derive(Debug)]
pub struct StationData {
    pub trips: Vec<(String, Trip)>,
}

/// No two pairs carry the same trip id.
pub open spec fn unique_keys(s: Seq<(String, Trip)>) -> bool {
    forall|i: int, j: int| 0 <= i < j < s.len() ==> s[i].0@ != s[j].0@
}

/// The map a sequence of keyed pairs stands for; a later pair with the
/// same key would win, and under `unique_keys` there is none.
pub open spec fn trips_map(s: Seq<(String, Trip)>) -> Map<Seq<char>, TripView>
    decreases s.len(),
{
    if s.len() == 0 {
        Map::empty()
    } else {
        trips_map(s.drop_last()).insert(s.last().0@, s.last().1@)
    }
}

impl View for StationData {
    type V = Map<Seq<char>, TripView>;

    open spec fn view(&self) -> Map<Seq<char>, TripView> {
        trips_map(self.trips@)
    }
}

/// Overwriting the pair that carries a key updates the map at that key
/// and keeps the keys unique.
proof fn lemma_trips_map_update(s: Seq<(String, Trip)>, i: int, p: (String, Trip))
    requires
        unique_keys(s),
        0 <= i < s.len(),
        s[i].0@ == p.0@,
    ensures
        trips_map(s.update(i, p)) == trips_map(s).insert(p.0@, p.1@),
        unique_keys(s.update(i, p)),
    decreases s.len(),
{
    let t = s.update(i, p);
    assert forall|a: int, b: int| 0 <= a < b < t.len() implies t[a].0@ != t[b].0@ by {
        assert(s[a].0@ != s[b].0@);
    }
    if i == s.len() - 1 {
        assert(t.drop_last() =~= s.drop_last());
        assert(t.last() == p);
        assert(trips_map(t) == trips_map(s.drop_last()).insert(p.0@, p.1@));
        assert(trips_map(s) == trips_map(s.drop_last()).insert(s.last().0@, s.last().1@));
        assert(trips_map(s.drop_last()).insert(s.last().0@, s.last().1@).insert(p.0@, p.1@)
            =~= trips_map(s.drop_last()).insert(p.0@, p.1@));
    } else {
        lemma_trips_map_update(s.drop_last(), i, p);
        assert(t.drop_last() =~= s.drop_last().update(i, p));
        assert(t.last() == s.last());
        // The overwritten key differs from the last pair's key, so the two
        // inserts commute.
        assert(s.last().0@ != p.0@);
        assert(trips_map(s.drop_last()).insert(p.0@, p.1@).insert(s.last().0@, s.last().1@)
            =~= trips_map(s.drop_last()).insert(s.last().0@, s.last().1@).insert(p.0@, p.1@));
    }
}

/// What merging a whole batch into a record yields: each valid entry
/// overwrites its trip id in order, so within the batch the last entry
/// for an id wins; invalid entries change nothing.
pub open spec fn merged_map(m: Map<Seq<char>, TripView>, b: Seq<RawDeparture>) -> Map<
    Seq<char>,
    TripView,
>
    decreases b.len(),
{
    if b.len() == 0 {
        m
    } else {
        let prev = merged_map(m, b.drop_last());
        let e = b.last();
        if entry_valid(e) {
            prev.insert(e.trip_id->0@, derived_trip(e))
        } else {
            prev
        }
    }
}

/// How many entries of a batch lack a trip id and are dropped by a merge.
pub open spec fn invalid_count(b: Seq<RawDeparture>) -> nat
    decreases b.len(),
{
    if b.len() == 0 {
        0
    } else {
        invalid_count(b.drop_last()) + if entry_valid(b.last()) {
            0nat
        } else {
            1nat
        }
    }
}

/// Some valid entry of the batch carries this trip id.
pub open spec fn batch_has_id(b: Seq<RawDeparture>, k: Seq<char>) -> bool {
    exists|i: int| 0 <= i < b.len() && entry_valid(b[i]) && b[i].trip_id->0@ == k
}

/// Derived trip of the last valid entry of the batch with the given id.
pub open spec fn batch_last_trip(b: Seq<RawDeparture>, k: Seq<char>) -> TripView
    decreases b.len(),
{
    if b.len() == 0 {
        arbitrary()
    } else if entry_valid(b.last()) && b.last().trip_id->0@ == k {
        derived_trip(b.last())
    } else {
        batch_last_trip(b.drop_last(), k)
    }
}

/// What a merge leaves at each key: ids the batch carries end at the
/// batch's last derived trip for them, every other key keeps its prior
/// state, and no other key appears.
pub proof fn lemma_merged_map_key(m: Map<Seq<char>, TripView>, b: Seq<RawDeparture>, k: Seq<char>)
    ensures
        merged_map(m, b).contains_key(k) <==> (m.contains_key(k) || batch_has_id(b, k)),
        batch_has_id(b, k) ==> merged_map(m, b)[k] == batch_last_trip(b, k),
        !batch_has_id(b, k) && m.contains_key(k) ==> merged_map(m, b)[k] == m[k],
    decreases b.len(),
{
    if b.len() == 0 {
    } else {
        lemma_merged_map_key(m, b.drop_last(), k);
        let e = b.last();
        if entry_valid(e) && e.trip_id->0@ == k {
            assert(batch_has_id(b, k)) by {
                assert(entry_valid(b[b.len() - 1]) && b[b.len() - 1].trip_id->0@ == k);
            }
        } else {
            assert(batch_has_id(b, k) <==> batch_has_id(b.drop_last(), k)) by {
                if batch_has_id(b, k) {
                    let i = choose|i: int|
                        0 <= i < b.len() && entry_valid(b[i]) && b[i].trip_id->0@ == k;
                    assert(i < b.len() - 1);
                    assert(entry_valid(b.drop_last()[i]) && b.drop_last()[i].trip_id->0@ == k);
                }
                if batch_has_id(b.drop_last(), k) {
                    let i = choose|i: int|
                        0 <= i < b.drop_last().len() && entry_valid(b.drop_last()[i])
                            && b.drop_last()[i].trip_id->0@ == k;
                    assert(entry_valid(b[i]) && b[i].trip_id->0@ == k);
                }
            }
        }
    }
}

/// Idempotence of the merge: applying the same batch a second time is a
/// no-op, whatever record it started from.
pub proof fn lemma_merge_idempotent(m: Map<Seq<char>, TripView>, b: Seq<RawDeparture>)
    ensures
        merged_map(merged_map(m, b), b) == merged_map(m, b),
{
    let m1 = merged_map(m, b);
    let m2 = merged_map(m1, b);
    assert forall|k: Seq<char>| #[trigger] m2.contains_key(k) == m1.contains_key(k) by {
        lemma_merged_map_key(m, b, k);
        lemma_merged_map_key(m1, b, k);
    }
    assert forall|k: Seq<char>| m1.contains_key(k) implies #[trigger] m2[k] == m1[k] by {
        lemma_merged_map_key(m, b, k);
        lemma_merged_map_key(m1, b, k);
    }
    assert(m2 =~= m1);
}

/// Within one batch the last entry for a trip id wins: if no later valid
/// entry carries the same id, the merged record holds exactly that
/// entry's derived trip under that id.
pub proof fn lemma_merge_last_wins(m: Map<Seq<char>, TripView>, b: Seq<RawDeparture>, i: int)
    requires
        0 <= i < b.len(),
        entry_valid(b[i]),
        forall|j: int| i < j < b.len() && entry_valid(b[j]) ==> b[j].trip_id->0@ != b[i].trip_id->0@,
    ensures
        merged_map(m, b).contains_key(b[i].trip_id->0@),
        merged_map(m, b)[b[i].trip_id->0@] == derived_trip(b[i]),
{
    let k = b[i].trip_id->0@;
    lemma_merged_map_key(m, b, k);
    assert(batch_has_id(b, k));
    lemma_batch_last_trip_at(b, i);
}

/// The batch's last derived trip for an id is the derived trip of the
/// last valid entry that carries it.
proof fn lemma_batch_last_trip_at(b: Seq<RawDeparture>, i: int)
    requires
        0 <= i < b.len(),
        entry_valid(b[i]),
        forall|j: int| i < j < b.len() && entry_valid(b[j]) ==> b[j].trip_id->0@ != b[i].trip_id->0@,
    ensures
        batch_last_trip(b, b[i].trip_id->0@) == derived_trip(b[i]),
    decreases b.len(),
{
    let k = b[i].trip_id->0@;
    if i == b.len() - 1 {
    } else {
        assert(!(entry_valid(b.last()) && b.last().trip_id->0@ == k));
        assert(b.drop_last()[i] == b[i]);
        lemma_batch_last_trip_at(b.drop_last(), i);
    }
}

impl StationData {
    /// The record is well formed: one pair per trip id.
    pub open spec fn wf(self) -> bool {
        unique_keys(self.trips@)
    }

    /// The empty record a first-time station starts from.
    pub fn new() -> (d: StationData)
        ensures
            d.wf(),
            d@ == Map::<Seq<char>, TripView>::empty(),
    {
        StationData { trips: Vec::new() }
    }

    /// How many trips the record holds.
    pub fn len(&self) -> (n: usize)
        ensures
            n == self.trips@.len(),
    {
        self.trips.len()
    }

    /// Overwrites or adds the record's entry for one trip id.
    fn insert_trip(&mut self, trip_id: String, trip: Trip)
        requires
            old(self).wf(),
        ensures
            final(self).wf(),
            final(self)@ == old(self)@.insert(trip_id@, trip@),
    {
        let n = self.trips.len();
        let mut i: usize = 0;
        while i < n
            invariant
                n == self.trips@.len(),
                self.wf(),
                self.trips@ == old(self).trips@,
                forall|j: int| 0 <= j < i ==> self.trips@[j].0@ != trip_id@,
            decreases n - i,
        {
            if self.trips[i].0 == trip_id {
                proof {
                    lemma_trips_map_update(self.trips@, i as int, (trip_id, trip));
                }
                self.trips[i] = (trip_id, trip);
                return ;
            }
            i += 1;
        }
        proof {
            assert(self.trips@.push((trip_id, trip)).drop_last() =~= self.trips@);
        }
        self.trips.push((trip_id, trip));
    }

    /// Merges a batch of raw departures into the record: every valid entry
    /// overwrites its trip id unconditionally, entries without a trip id
    /// are dropped, and the count of dropped entries comes back.
    pub fn merge(&mut self, batch: &Vec<RawDeparture>) -> (dropped: usize)
        requires
            old(self).wf(),
        ensures
            final(self).wf(),
            final(self)@ == merged_map(old(self)@, batch@),
            dropped == invalid_count(batch@),
    {
        let ghost m0 = self@;
        let mut dropped: usize = 0;
        let mut k: usize = 0;
        while k < batch.len()
            invariant
                k <= batch@.len(),
                dropped <= k,
                self.wf(),
                self@ == merged_map(m0, batch@.take(k as int)),
                dropped == invalid_count(batch@.take(k as int)),
            decreases batch@.len() - k,
        {
            proof {
                assert(batch@.take(k as int + 1).drop_last() =~= batch@.take(k as int));
                assert(batch@.take(k as int + 1).last() == batch@[k as int]);
            }
            match derive_trip(&batch[k]) {
                Ok((trip_id, trip)) => {
                    self.insert_trip(trip_id, trip);
                },
                Err(_) => {
                    dropped = dropped + 1;
                },
            }
            k += 1;
        }
        proof {
            assert(batch@.take(batch@.len() as int) =~= batch@);
        }
        dropped
    }
}

} // verus!
