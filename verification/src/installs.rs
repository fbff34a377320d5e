//! What is computed over a network, and what installing something new
//! leaves of it.

use crate::checks::{bound_to, lent, policy_outcome, unbound_text, Binding, BoundSet};
use crate::digest::{loaded_identity, Source};
use crate::dispatch::{date_of, emissions_choice, time_choice, TransferChoice, Window};
use crate::ids::{trip_lookup, TripIndex};
use crate::options::{named_tier, parse_provenance, DistanceProvenance};
use crate::text::{joined_text, ValueError};
use vstd::prelude::*;

verus! {

/// The sets computed over a network, each with what it was computed for:
/// shortcut sets with their departure window, the emission ones with their
/// factors (doubles' bits) too; cached trip transfers with their date; and the
/// merged mode and carriage transfers with their binding. With them goes the
/// file that all of it was loaded from, as long as nothing has changed.
pub struct Computed {
    pub ultra: Option<Window>,
    pub mcultra: Option<(Window, Vec<u64>)>,
    pub tbtr: Option<String>,
    pub mctbtr: Option<(String, Vec<u64>)>,
    pub mode: Option<Binding>,
    pub carriage: Option<Binding>,
    pub source: Option<Source>,
}

/// A change to a network: something new is installed, or a set is computed.
pub enum Change {
    /// New footpaths.
    Transfers,
    TripDistances,
    /// A new walking network.
    StreetNetwork,
    MultimodalStreets,
    /// Leg geometries, street attributes, elevations or a walking hierarchy:
    /// no set rests on them.
    Annotation,
    Ultra(Window),
    McUltra(Window, Vec<u64>),
    Tbtr(String),
    McTbtr(String, Vec<u64>),
    VehicleSet(BoundSet, Binding),
}

impl Computed {
    /// Nothing is computed over a new network.
    pub fn new() -> (computed: Computed)
        ensures
            computed == (Computed {
                ultra: None,
                mcultra: None,
                tbtr: None,
                mctbtr: None,
                mode: None,
                carriage: None,
                source: None,
            }),
    {
        Computed {
            ultra: None,
            mcultra: None,
            tbtr: None,
            mctbtr: None,
            mode: None,
            carriage: None,
            source: None,
        }
    }

    /// What a change leaves. New footpaths and a new multimodal graph drop
    /// the merged mode and carriage sets, which folded the old ones. New trip
    /// distances drop the emission sets; the time sets are distance-free and
    /// stay. A new walking network drops both shortcut sets, which were
    /// derived from the old one. A computed set takes the place of the one
    /// before it. Whatever the change, the network is no longer what its file
    /// holds.
    pub open spec fn changed(self, change: Change) -> Computed {
        let kept = Computed { source: None, ..self };
        match change {
            Change::Transfers => Computed { mode: None, carriage: None, ..kept },
            Change::TripDistances => Computed { mcultra: None, mctbtr: None, ..kept },
            Change::StreetNetwork => Computed { ultra: None, mcultra: None, ..kept },
            Change::MultimodalStreets => Computed { mode: None, carriage: None, ..kept },
            Change::Annotation => kept,
            Change::Ultra(window) => Computed { ultra: Some(window), ..kept },
            Change::McUltra(window, factors) => Computed {
                mcultra: Some((window, factors)),
                ..kept
            },
            Change::Tbtr(date) => Computed { tbtr: Some(date), ..kept },
            Change::McTbtr(date, factors) => Computed { mctbtr: Some((date, factors)), ..kept },
            Change::VehicleSet(BoundSet::Mode, binding) => Computed {
                mode: Some(binding),
                ..kept
            },
            Change::VehicleSet(BoundSet::Carriage, binding) => Computed {
                carriage: Some(binding),
                ..kept
            },
        }
    }

    /// Takes account of a change.
    pub fn apply(&mut self, change: Change)
        ensures
            *final(self) == old(self).changed(change),
    {
        self.source = None;
        match change {
            Change::Transfers => {
                self.mode = None;
                self.carriage = None;
            },
            Change::TripDistances => {
                self.mcultra = None;
                self.mctbtr = None;
            },
            Change::StreetNetwork => {
                self.ultra = None;
                self.mcultra = None;
            },
            Change::MultimodalStreets => {
                self.mode = None;
                self.carriage = None;
            },
            Change::Annotation => {},
            Change::Ultra(window) => {
                self.ultra = Some(window);
            },
            Change::McUltra(window, factors) => {
                self.mcultra = Some((window, factors));
            },
            Change::Tbtr(date) => {
                self.tbtr = Some(date);
            },
            Change::McTbtr(date, factors) => {
                self.mctbtr = Some((date, factors));
            },
            Change::VehicleSet(set, binding) => match set {
                BoundSet::Mode => {
                    self.mode = Some(binding);
                },
                BoundSet::Carriage => {
                    self.carriage = Some(binding);
                },
            },
        }
    }

    /// What a vehicle's set is bound to, where it is computed.
    pub open spec fn held(self, set: BoundSet) -> Option<Binding> {
        match set {
            BoundSet::Mode => self.mode,
            BoundSet::Carriage => self.carriage,
        }
    }

    /// What a vehicle's set is bound to, where it is computed.
    pub fn vehicle_set(&self, set: BoundSet) -> (binding: Option<&Binding>)
        ensures
            lent(binding) == self.held(set),
    {
        match set {
            BoundSet::Mode => self.mode.as_ref(),
            BoundSet::Carriage => self.carriage.as_ref(),
        }
    }

    /// The window of the emission shortcut set.
    pub open spec fn emissions_window(&self) -> Option<Window> {
        match self.mcultra {
            Some((window, _)) => Some(window),
            None => None,
        }
    }

    /// The date of the cached time transfers, which `auto` resolves by.
    pub fn time_date(&self) -> (date: Option<&str>)
        ensures
            date_of(date) == match self.tbtr {
                Some(date) => Some(date@),
                None => None,
            },
    {
        match &self.tbtr {
            Some(date) => Some(date.as_str()),
            None => None,
        }
    }

    /// The date of the cached multicriteria transfers.
    pub fn mc_date(&self) -> (date: Option<&str>)
        ensures
            date_of(date) == match self.mctbtr {
                Some((date, _)) => Some(date@),
                None => None,
            },
    {
        match &self.mctbtr {
            Some((date, _)) => Some(date.as_str()),
            None => None,
        }
    }
}

/// A set that an installation made stale never serves a query: after a new
/// walking network time and emission queries relax the closure again; after
/// new distances emission queries do, and time queries go on as they did; and
/// after new footpaths, or a new multimodal graph, every policy query for a
/// vehicle's set is refused, whatever it asks for.
pub proof fn law_stale_sets_never_serve(before: Computed, same_factors: bool)
    ensures
        time_choice(before.changed(Change::StreetNetwork).ultra) == TransferChoice::Closure,
        emissions_choice(
            before.changed(Change::StreetNetwork).emissions_window(),
            same_factors,
        ) == TransferChoice::Closure,
        emissions_choice(
            before.changed(Change::TripDistances).emissions_window(),
            same_factors,
        ) == TransferChoice::Closure,
        time_choice(before.changed(Change::TripDistances).ultra) == time_choice(before.ultra),
        forall|set: BoundSet, wanted: Binding| #[trigger]
            policy_outcome(set, before.changed(Change::Transfers).held(set), Some(wanted)) == Err::<
                bool,
                Seq<char>,
            >(unbound_text(set)),
        forall|set: BoundSet, wanted: Binding| #[trigger]
            policy_outcome(
                set,
                before.changed(Change::MultimodalStreets).held(set),
                Some(wanted),
            ) == Err::<bool, Seq<char>>(unbound_text(set)),
{
}

/// A network that has changed since it was loaded is identified by its
/// content: whatever the change, and whatever its file holds by now, the file
/// has no say.
pub proof fn law_changed_networks_digest_their_content(
    before: Computed,
    change: Change,
    file: Option<Seq<u8>>,
)
    ensures
        loaded_identity(before.changed(change).source, file) is None,
{
}

/// A computed set serves the query that asks for what it was computed for,
/// until something it rests on changes.
pub proof fn law_computed_sets_serve(before: Computed, set: BoundSet, binding: Binding)
    requires
        bound_to(binding, binding),
    ensures
        policy_outcome(
            set,
            before.changed(Change::VehicleSet(set, binding)).held(set),
            Some(binding),
        ) == Ok::<bool, Seq<char>>(true),
{
}

/// The trip that a public id names, if it is routable.
pub open spec fn trip_named(index: TripIndex, id: Seq<char>) -> Option<u32> {
    trip_lookup(index.trips(), index.feed_count(), id, index.trips().len() as int)
}

/// The first `count` rows whose trip is routable, as row and trip; the others
/// are ignored.
pub open spec fn known_rows(index: TripIndex, ids: Seq<String>, count: int) -> Seq<(usize, u32)>
    decreases count,
{
    if count <= 0 {
        Seq::empty()
    } else {
        let before = known_rows(index, ids, count - 1);
        match trip_named(index, ids[count - 1]@) {
            Some(trip) => before.push(((count - 1) as usize, trip)),
            None => before,
        }
    }
}

/// Which rows of a leg geometry table locate a routable trip.
pub fn known_trips(index: &TripIndex, ids: &Vec<String>) -> (rows: Vec<(usize, u32)>)
    requires
        index.wf(),
    ensures
        rows@ == known_rows(*index, ids@, ids@.len() as int),
{
    let mut rows: Vec<(usize, u32)> = Vec::new();
    let mut at: usize = 0;
    while at < ids.len()
        invariant
            index.wf(),
            at <= ids@.len(),
            rows@ == known_rows(*index, ids@, at as int),
        decreases ids.len() - at,
    {
        if let Some(trip) = index.find(ids[at].as_str()) {
            rows.push((at, trip));
        }
        at += 1;
    }
    rows
}

/// The first `count` distance rows of routable trips, as row, trip and tier,
/// or what the first unknown tier among them is refused with. The tier of a
/// row that is ignored is not read.
pub open spec fn distance_entries(
    index: TripIndex,
    rows: Seq<(String, String)>,
    count: int,
) -> Result<Seq<(usize, u32, DistanceProvenance)>, Seq<char>>
    decreases count,
{
    if count <= 0 {
        Ok(Seq::empty())
    } else {
        match distance_entries(index, rows, count - 1) {
            Err(text) => Err(text),
            Ok(before) => match trip_named(index, rows[count - 1].0@) {
                None => Ok(before),
                Some(trip) => match named_tier(rows[count - 1].1@) {
                    Some(tier) => Ok(before.push(((count - 1) as usize, trip, tier))),
                    None => Err(
                        joined_text(
                            seq!["unknown distance provenance '"@, rows[count - 1].1@, "'"@],
                        ),
                    ),
                },
            },
        }
    }
}

proof fn lemma_entries_stay_refused(
    index: TripIndex,
    rows: Seq<(String, String)>,
    refused: int,
    count: int,
)
    requires
        0 <= refused <= count,
        distance_entries(index, rows, refused) is Err,
    ensures
        distance_entries(index, rows, count) == distance_entries(index, rows, refused),
    decreases count,
{
    if refused < count {
        lemma_entries_stay_refused(index, rows, refused, count - 1);
    }
}

/// Which `(trip id, tier)` rows of a trip distance table are installed, and
/// under which tier.
pub fn set_trip_distances(index: &TripIndex, rows: &Vec<(String, String)>) -> (entries: Result<
    Vec<(usize, u32, DistanceProvenance)>,
    ValueError,
>)
    requires
        index.wf(),
    ensures
        match distance_entries(*index, rows@, rows@.len() as int) {
            Ok(expected) => entries matches Ok(entries) && entries@ == expected,
            Err(text) => entries matches Err(error) && error.message@ == text,
        },
{
    let mut entries: Vec<(usize, u32, DistanceProvenance)> = Vec::new();
    let mut at: usize = 0;
    while at < rows.len()
        invariant
            index.wf(),
            at <= rows@.len(),
            distance_entries(*index, rows@, at as int) == Ok::<
                Seq<(usize, u32, DistanceProvenance)>,
                Seq<char>,
            >(entries@),
        decreases rows.len() - at,
    {
        if let Some(trip) = index.find(rows[at].0.as_str()) {
            match parse_provenance(rows[at].1.as_str()) {
                Ok(tier) => {
                    entries.push((at, trip, tier));
                },
                Err(error) => {
                    proof {
                        lemma_entries_stay_refused(*index, rows@, at + 1, rows@.len() as int);
                    }
                    return Err(error);
                },
            }
        }
        at += 1;
    }
    Ok(entries)
}

/// What a change leaves alone stays as it was, set by set: the time shortcuts
/// go with a new walking network only, the emission shortcuts with it or new
/// distances, the cached emission transfers with new distances, the cached
/// time transfers with nothing, and the vehicles' sets with new footpaths or a
/// new multimodal graph. A computed set is there as it was computed.
pub proof fn law_changes_drop_what_rests_on_them(before: Computed, change: Change)
    ensures
        ({
            let after = before.changed(change);
            &&& after.source is None
            &&& match change {
                Change::Ultra(window) => after.ultra == Some(window),
                Change::StreetNetwork => after.ultra is None,
                _ => after.ultra == before.ultra,
            }
            &&& match change {
                Change::McUltra(window, factors) => after.mcultra == Some((window, factors)),
                Change::StreetNetwork | Change::TripDistances => after.mcultra is None,
                _ => after.mcultra == before.mcultra,
            }
            &&& match change {
                Change::Tbtr(date) => after.tbtr == Some(date),
                _ => after.tbtr == before.tbtr,
            }
            &&& match change {
                Change::McTbtr(date, factors) => after.mctbtr == Some((date, factors)),
                Change::TripDistances => after.mctbtr is None,
                _ => after.mctbtr == before.mctbtr,
            }
            &&& match change {
                Change::VehicleSet(BoundSet::Mode, binding) => after.mode == Some(binding),
                Change::Transfers | Change::MultimodalStreets => after.mode is None,
                _ => after.mode == before.mode,
            }
            &&& match change {
                Change::VehicleSet(BoundSet::Carriage, binding) => after.carriage == Some(binding),
                Change::Transfers | Change::MultimodalStreets => after.carriage is None,
                _ => after.carriage == before.carriage,
            }
        }),
{
}

/// The rows whose trip is known are kept, once each, in order, with that trip.
pub proof fn law_known_rows_name_their_trip(index: TripIndex, ids: Seq<String>, count: int)
    requires
        0 <= count <= ids.len() <= usize::MAX,
    ensures
        ({
            let rows = known_rows(index, ids, count);
            &&& forall|i: int|
                0 <= i < count && trip_named(index, (#[trigger] ids[i])@) is Some ==> rows.contains(
                    (i as usize, trip_named(index, ids[i]@)->0),
                )
            &&& forall|k: int|
                0 <= k < rows.len() ==> (#[trigger] rows[k]).0 < count && trip_named(
                    index,
                    ids[rows[k].0 as int]@,
                ) == Some(rows[k].1)
            &&& forall|j: int, k: int|
                0 <= j < k < rows.len() ==> (#[trigger] rows[j]).0 < (#[trigger] rows[k]).0
        }),
    decreases count,
{
    if count > 0 {
        law_known_rows_name_their_trip(index, ids, count - 1);
        let before = known_rows(index, ids, count - 1);
        let rows = known_rows(index, ids, count);
        assert forall|i: int|
            0 <= i < count && trip_named(index, (#[trigger] ids[i])@)
                is Some implies rows.contains((i as usize, trip_named(index, ids[i]@)->0)) by {
            let row = (i as usize, trip_named(index, ids[i]@)->0);
            if i < count - 1 {
                assert(before.contains(row));
                let at = choose|at: int| 0 <= at < before.len() && before[at] == row;
                assert(rows[at] == row);
            } else {
                assert(rows[rows.len() - 1] == row);
            }
        }
    }
}

/// The distance rows of known trips are kept with their trip and tier, once
/// each, in order; a known trip's row with an unknown tier is refused, and the
/// tier of an unknown trip's row does not matter.
pub proof fn law_distance_rows_keep_their_tier(
    index: TripIndex,
    rows: Seq<(String, String)>,
    count: int,
)
    requires
        0 <= count <= rows.len() <= usize::MAX,
    ensures
        distance_entries(index, rows, count) is Err ==> exists|i: int|
            0 <= i < count && trip_named(index, (#[trigger] rows[i]).0@) is Some && named_tier(
                rows[i].1@,
            ) is None,
        distance_entries(index, rows, count) matches Ok(entries) ==> {
            &&& forall|i: int|
                0 <= i < count && trip_named(index, (#[trigger] rows[i]).0@) is Some ==> named_tier(
                    rows[i].1@,
                ) is Some && entries.contains(
                    (
                        i as usize,
                        trip_named(index, rows[i].0@)->0,
                        named_tier(rows[i].1@)->0,
                    ),
                )
            &&& forall|k: int|
                0 <= k < entries.len() ==> (#[trigger] entries[k]).0 < count && trip_named(
                    index,
                    rows[entries[k].0 as int].0@,
                ) == Some(entries[k].1) && named_tier(rows[entries[k].0 as int].1@) == Some(
                    entries[k].2,
                )
            &&& forall|j: int, k: int|
                0 <= j < k < entries.len() ==> (#[trigger] entries[j]).0 < (#[trigger] entries[k]).0
        },
    decreases count,
{
    if count > 0 {
        law_distance_rows_keep_their_tier(index, rows, count - 1);
        if distance_entries(index, rows, count) is Err {
            if distance_entries(index, rows, count - 1) is Ok {
                assert(trip_named(index, rows[count - 1].0@) is Some);
            } else {
                let i = choose|i: int|
                    0 <= i < count - 1 && trip_named(index, (#[trigger] rows[i]).0@) is Some
                        && named_tier(rows[i].1@) is None;
                assert(trip_named(index, rows[i].0@) is Some);
            }
        } else {
            let before = distance_entries(index, rows, count - 1)->Ok_0;
            let entries = distance_entries(index, rows, count)->Ok_0;
            assert forall|i: int|
                0 <= i < count && trip_named(index, (#[trigger] rows[i]).0@)
                    is Some implies named_tier(rows[i].1@) is Some && entries.contains(
                (i as usize, trip_named(index, rows[i].0@)->0, named_tier(rows[i].1@)->0),
            ) by {
                let entry = (
                    i as usize,
                    trip_named(index, rows[i].0@)->0,
                    named_tier(rows[i].1@)->0,
                );
                if i < count - 1 {
                    assert(before.contains(entry));
                    let at = choose|at: int| 0 <= at < before.len() && before[at] == entry;
                    assert(entries[at] == entry);
                } else {
                    assert(entries[entries.len() - 1] == entry);
                }
            }
        }
    }
}

} // verus!
