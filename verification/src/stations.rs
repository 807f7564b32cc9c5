//! The station registry's shape of a station and the snapshot filtering
//! that builds the registry: keeping the first occurrence of each station
//! id and dropping stations under a weight cutoff.

use vstd::prelude::*;

verus! {

/// One registered station. Identity is `id`; a station is immutable once
/// loaded.
#[derive(Debug)]
pub struct Station {
    /// Station identifier, unique within the registry.
    pub id: u64,
    /// Human-readable station name.
    pub name: String,
    /// Importance weight of the station in the upstream snapshot.
    pub weight: u64,
}

/// Some station of the sequence carries this id.
pub open spec fn has_station_id(s: Seq<Station>, id: u64) -> bool {
    exists|i: int| 0 <= i < s.len() && s[i].id == id
}

/// No two stations of the sequence carry the same id.
pub open spec fn unique_station_ids(s: Seq<Station>) -> bool {
    forall|i: int, j: int| 0 <= i < j < s.len() ==> s[i].id != s[j].id
}

/// The sequence with later repetitions of an id removed: only the first
/// station with each id stays, in its original position.
pub open spec fn dedup_by_id(s: Seq<Station>) -> Seq<Station>
    decreases s.len(),
{
    if s.len() == 0 {
        s
    } else {
        let rest = dedup_by_id(s.drop_last());
        if has_station_id(rest, s.last().id) {
            rest
        } else {
            rest.push(s.last())
        }
    }
}

/// The stations whose weight lies strictly above the cutoff, in order.
pub open spec fn filter_min_weight(s: Seq<Station>, minimum_weight: u64) -> Seq<Station>
    decreases s.len(),
{
    if s.len() == 0 {
        s
    } else {
        let rest = filter_min_weight(s.drop_last(), minimum_weight);
        if s.last().weight > minimum_weight {
            rest.push(s.last())
        } else {
            rest
        }
    }
}

/// Deduplication leaves each id at most once.
pub proof fn lemma_dedup_unique(s: Seq<Station>)
    ensures
        unique_station_ids(dedup_by_id(s)),
    decreases s.len(),
{
    if s.len() == 0 {
    } else {
        lemma_dedup_unique(s.drop_last());
        let rest = dedup_by_id(s.drop_last());
        if !has_station_id(rest, s.last().id) {
            let r = rest.push(s.last());
            assert forall|i: int, j: int| 0 <= i < j < r.len() implies r[i].id != r[j].id by {
                if j == r.len() - 1 {
                    assert(r[i] == rest[i]);
                    assert(!(exists|a: int| 0 <= a < rest.len() && rest[a].id == s.last().id));
                }
            }
        }
    }
}

/// An id in the weight-filtered sequence was in the sequence before.
proof fn lemma_filter_has_id(s: Seq<Station>, minimum_weight: u64, id: u64)
    ensures
        has_station_id(filter_min_weight(s, minimum_weight), id) ==> has_station_id(s, id),
    decreases s.len(),
{
    if s.len() == 0 {
    } else {
        lemma_filter_has_id(s.drop_last(), minimum_weight, id);
        let rest = filter_min_weight(s.drop_last(), minimum_weight);
        let f = filter_min_weight(s, minimum_weight);
        if has_station_id(f, id) {
            if s.last().weight > minimum_weight && s.last().id == id {
                assert(s[s.len() - 1].id == id);
            } else {
                assert(has_station_id(rest, id)) by {
                    let i = choose|i: int| 0 <= i < f.len() && f[i].id == id;
                    if s.last().weight > minimum_weight {
                        assert(f[i] == rest[i]);
                    }
                }
                let i = choose|i: int| 0 <= i < s.drop_last().len() && s.drop_last()[i].id == id;
                assert(s[i].id == id);
            }
        }
    }
}

/// Filtering by weight keeps the ids unique.
pub proof fn lemma_filter_unique(s: Seq<Station>, minimum_weight: u64)
    requires
        unique_station_ids(s),
    ensures
        unique_station_ids(filter_min_weight(s, minimum_weight)),
    decreases s.len(),
{
    if s.len() == 0 {
    } else {
        assert(unique_station_ids(s.drop_last())) by {
            assert forall|i: int, j: int|
                0 <= i < j < s.drop_last().len() implies s.drop_last()[i].id
                != s.drop_last()[j].id by {
                assert(s[i].id != s[j].id);
            }
        }
        lemma_filter_unique(s.drop_last(), minimum_weight);
        let rest = filter_min_weight(s.drop_last(), minimum_weight);
        if s.last().weight > minimum_weight {
            let r = rest.push(s.last());
            assert forall|i: int, j: int| 0 <= i < j < r.len() implies r[i].id != r[j].id by {
                if j == r.len() - 1 {
                    assert(r[i] == rest[i]);
                    if r[i].id == s.last().id {
                        lemma_filter_has_id(s.drop_last(), minimum_weight, r[i].id);
                        let a = choose|a: int|
                            0 <= a < s.drop_last().len() && s.drop_last()[a].id == r[i].id;
                        assert(s[a].id == s[s.len() - 1].id);
                    }
                }
            }
        }
    }
}

/// Whether some already-collected station carries the id.
fn contains_id(v: &Vec<Station>, id: u64) -> (b: bool)
    ensures
        b == has_station_id(v@, id),
{
    let mut i: usize = 0;
    while i < v.len()
        invariant
            i <= v@.len(),
            forall|j: int| 0 <= j < i ==> v@[j].id != id,
        decreases v@.len() - i,
    {
        if v[i].id == id {
            return true;
        }
        i += 1;
    }
    false
}

/// Builds the registry snapshot: keeps the first occurrence of each
/// station id, then drops every station whose weight is not strictly
/// above the cutoff. The result carries each id at most once.
pub fn filter_stations(stations: &Vec<Station>, minimum_weight: u64) -> (r: Vec<Station>)
    ensures
        r@ == filter_min_weight(dedup_by_id(stations@), minimum_weight),
        unique_station_ids(r@),
{
    let mut deduped: Vec<Station> = Vec::new();
    let mut i: usize = 0;
    while i < stations.len()
        invariant
            i <= stations@.len(),
            deduped@ == dedup_by_id(stations@.take(i as int)),
        decreases stations@.len() - i,
    {
        proof {
            assert(stations@.take(i as int + 1).drop_last() =~= stations@.take(i as int));
            assert(stations@.take(i as int + 1).last() == stations@[i as int]);
        }
        let st = &stations[i];
        if !contains_id(&deduped, st.id) {
            let copied = Station { id: st.id, name: st.name.clone(), weight: st.weight };
            assert(copied == stations@[i as int]);
            deduped.push(copied);
        }
        i += 1;
    }
    proof {
        assert(stations@.take(stations@.len() as int) =~= stations@);
    }

    let mut out: Vec<Station> = Vec::new();
    let mut j: usize = 0;
    while j < deduped.len()
        invariant
            j <= deduped@.len(),
            deduped@ == dedup_by_id(stations@),
            out@ == filter_min_weight(deduped@.take(j as int), minimum_weight),
        decreases deduped@.len() - j,
    {
        proof {
            assert(deduped@.take(j as int + 1).drop_last() =~= deduped@.take(j as int));
            assert(deduped@.take(j as int + 1).last() == deduped@[j as int]);
        }
        let st = &deduped[j];
        if st.weight > minimum_weight {
            let copied = Station { id: st.id, name: st.name.clone(), weight: st.weight };
            assert(copied == deduped@[j as int]);
            out.push(copied);
        }
        j += 1;
    }
    proof {
        assert(deduped@.take(deduped@.len() as int) =~= deduped@);
        lemma_dedup_unique(stations@);
        lemma_filter_unique(dedup_by_id(stations@), minimum_weight);
    }
    out
}

} // verus!
