//! Refining fare folds to the exact zone-fare optimum: which slots a search
//! must settle, under which ceiling, and what its answers leave.

use crate::bytes::{
    equal, f64_equal, f64_is_finite, f64_is_nan, f64_less, f64_rank, is_finite, is_nan, less,
    F64_INFINITY,
};
use crate::fares::{ZoneProduct, NO_FARE, ZONE_LIMIT};
use vstd::prelude::*;

verus! {

/// The lesser of two amounts; one that is not a number counts for nothing.
pub open spec fn lesser_of(held: u64, other: u64) -> u64 {
    if f64_is_nan(held) || f64_less(other, held) {
        other
    } else {
        held
    }
}

fn lesser(held: u64, other: u64) -> (least: u64)
    ensures
        least == lesser_of(held, other),
{
    if is_nan(held) || less(other, held) {
        other
    } else {
        held
    }
}

/// The cheapest price among the first `count` products.
pub open spec fn cheapest_of(products: Seq<ZoneProduct>, count: int) -> u64
    decreases count,
{
    if count <= 0 {
        F64_INFINITY
    } else {
        lesser_of(cheapest_of(products, count - 1), products[count - 1].price)
    }
}

/// The dearest price among the first `count` products, at least nothing.
pub open spec fn dearest_of(products: Seq<ZoneProduct>, count: int) -> u64
    decreases count,
{
    if count <= 0 {
        0
    } else {
        let held = dearest_of(products, count - 1);
        if f64_less(held, products[count - 1].price) {
            products[count - 1].price
        } else {
            held
        }
    }
}

/// The cheapest and the dearest price of a tariff; none where it sells
/// nothing or a price is without bound, which leaves nothing to refine.
pub fn price_range(products: &Vec<ZoneProduct>) -> (range: Option<(u64, u64)>)
    ensures
        range == ({
            let count = products@.len() as int;
            let dearest = dearest_of(products@, count);
            if count == 0 || !f64_is_finite(dearest) {
                None
            } else {
                Some((cheapest_of(products@, count), dearest))
            }
        }),
{
    let mut cheapest: u64 = F64_INFINITY;
    let mut dearest: u64 = 0;
    let mut index: usize = 0;
    while index < products.len()
        invariant
            index <= products@.len(),
            cheapest == cheapest_of(products@, index as int),
            dearest == dearest_of(products@, index as int),
        decreases products.len() - index,
    {
        let price: u64 = products[index].price;
        cheapest = lesser(cheapest, price);
        if less(dearest, price) {
            dearest = price;
        }
        index += 1;
    }
    if products.len() == 0 || !is_finite(dearest) {
        return None;
    }
    Some((cheapest, dearest))
}

/// Every zone that some of the first `count` products covers.
pub open spec fn union_of(products: Seq<ZoneProduct>, count: int) -> u128
    decreases count,
{
    if count <= 0 {
        0
    } else {
        union_of(products, count - 1) | products[count - 1].zones
    }
}

/// The zones that a tariff covers at all.
pub fn zone_union(products: &Vec<ZoneProduct>) -> (union: u128)
    ensures
        union == union_of(products@, products@.len() as int),
{
    let mut union: u128 = 0;
    let mut index: usize = 0;
    while index < products.len()
        invariant
            index <= products@.len(),
            union == union_of(products@, index as int),
        decreases products.len() - index,
    {
        union = union | products[index].zones;
        index += 1;
    }
    union
}

/// How many tickets of one product pay for any journey within a duration: a
/// product that covers every zone on unlimited boardings, `whole` seconds
/// long or without end. A product that covers less, or lasts no whole
/// second, bounds nothing.
pub open spec fn tickets_for(
    product: ZoneProduct,
    union: u128,
    whole: Option<u64>,
    within: u32,
) -> Option<int> {
    if product.zones & union != union || product.transfers != NO_FARE {
        None
    } else {
        match whole {
            None => Some(1),
            Some(seconds) => if seconds == 0 {
                None
            } else {
                Some(within as int / seconds as int + 1)
            },
        }
    }
}

/// The tickets of one product that bound every fare within a duration.
pub fn span_tickets(product: &ZoneProduct, union: u128, whole: Option<u64>, within: u32) -> (tickets:
    Option<u64>)
    ensures
        match tickets_for(*product, union, whole, within) {
            Some(count) => tickets matches Some(bound) && bound == count,
            None => tickets is None,
        },
{
    if product.zones & union != union || product.transfers != NO_FARE {
        return None;
    }
    match whole {
        None => Some(1),
        Some(seconds) => {
            if seconds == 0 {
                return None;
            }
            let full: u64 = within as u64 / seconds;
            assert(full <= within) by (nonlinear_arith)
                requires
                    full == within as u64 / seconds,
                    seconds > 0,
            ;
            Some(full + 1)
        },
    }
}

/// Tickets bought one after the other outlast a journey: their number times
/// the product's length is more than the duration.
pub proof fn law_tickets_outlast(product: ZoneProduct, union: u128, seconds: u64, within: u32)
    requires
        tickets_for(product, union, Some(seconds), within) is Some,
    ensures
        tickets_for(product, union, Some(seconds), within)->0 * seconds > within,
{
    let full = within as int / seconds as int;
    assert((full + 1) * seconds > within) by (nonlinear_arith)
        requires
            full == within as int / seconds as int,
            seconds > 0,
    ;
}

/// The least of the first `count` caps.
pub open spec fn least_of(caps: Seq<u64>, count: int) -> Option<u64>
    decreases count,
{
    if count <= 0 {
        None
    } else {
        match least_of(caps, count - 1) {
            None => Some(caps[count - 1]),
            Some(held) => Some(lesser_of(held, caps[count - 1])),
        }
    }
}

/// A least cap is one of the caps and none is below it; caps that are no
/// numbers count only where no other is there.
pub proof fn law_least_cap(caps: Seq<u64>, count: int)
    requires
        0 <= count <= caps.len(),
    ensures
        match least_of(caps, count) {
            None => count == 0,
            Some(least) => {
                &&& exists|i: int| 0 <= i < count && #[trigger] caps[i] == least
                &&& forall|i: int| 0 <= i < count ==> !f64_less(#[trigger] caps[i], least)
                &&& f64_is_nan(least) ==> forall|i: int|
                    0 <= i < count ==> f64_is_nan(#[trigger] caps[i])
            },
        },
    decreases count,
{
    if count > 0 {
        law_least_cap(caps, count - 1);
        let last = caps[count - 1];
        if let Some(held) = least_of(caps, count - 1) {
            let i = choose|i: int| 0 <= i < count - 1 && #[trigger] caps[i] == held;
            let least = lesser_of(held, last);
            assert(caps[i] == least || caps[count - 1] == least);
        }
    }
}

/// The least of several caps on a fare; one that is no number counts only
/// where no other is there.
pub fn least_cap(caps: &Vec<u64>) -> (least: Option<u64>)
    ensures
        least == least_of(caps@, caps@.len() as int),
{
    let mut least: Option<u64> = None;
    let mut index: usize = 0;
    while index < caps.len()
        invariant
            index <= caps@.len(),
            least == least_of(caps@, index as int),
        decreases caps.len() - index,
    {
        let cap: u64 = caps[index];
        least = match least {
            None => Some(cap),
            Some(held) => Some(lesser(held, cap)),
        };
        index += 1;
    }
    least
}

/// Whether a stop lies in a zone that tickets can cover.
pub open spec fn zoned(stop_zone: Seq<u32>, stop: u32) -> bool {
    stop < stop_zone.len() && stop_zone[stop as int] != NO_FARE && stop_zone[stop as int]
        < ZONE_LIMIT
}

fn is_zoned(stop_zone: &Vec<u32>, stop: u32) -> (within: bool)
    ensures
        within == zoned(stop_zone@, stop),
{
    if (stop as usize) < stop_zone.len() {
        let zone: u32 = stop_zone[stop as usize];
        zone != NO_FARE && zone < ZONE_LIMIT
    } else {
        false
    }
}

/// Whether a stop is one footpath from a zoned stop among the first `count`.
pub open spec fn walked_from_zoned(
    stop_zone: Seq<u32>,
    targets: Seq<Vec<u32>>,
    stop: u32,
    count: int,
) -> bool {
    exists|from: int|
        0 <= from < count && zoned(stop_zone, from as u32) && (#[trigger] targets[from])@.contains(
            stop,
        )
}

/// Which stops are one footpath from a zoned stop.
pub fn from_zoned(stop_zone: &Vec<u32>, targets: &Vec<Vec<u32>>) -> (flags: Vec<bool>)
    requires
        targets@.len() <= u32::MAX,
        forall|f: int, e: int|
            0 <= f < targets@.len() && 0 <= e < targets@[f]@.len() ==> (
            #[trigger] targets@[f]@[e]) < targets@.len(),
    ensures
        flags@.len() == targets@.len(),
        forall|s: int|
            0 <= s < flags@.len() ==> #[trigger] flags@[s] == walked_from_zoned(
                stop_zone@,
                targets@,
                s as u32,
                targets@.len() as int,
            ),
{
    let stops: usize = targets.len();
    let mut flags: Vec<bool> = Vec::new();
    while flags.len() < stops
        invariant
            flags@.len() <= stops,
            forall|s: int| 0 <= s < flags@.len() ==> !(#[trigger] flags@[s]),
        decreases stops - flags.len(),
    {
        flags.push(false);
    }
    let mut from: usize = 0;
    while from < stops
        invariant
            from <= stops == targets@.len() == flags@.len(),
            stops <= u32::MAX,
            forall|f: int, e: int|
                0 <= f < targets@.len() && 0 <= e < targets@[f]@.len() ==> (
                #[trigger] targets@[f]@[e]) < targets@.len(),
            forall|s: int|
                0 <= s < flags@.len() ==> #[trigger] flags@[s] == walked_from_zoned(
                    stop_zone@,
                    targets@,
                    s as u32,
                    from as int,
                ),
        decreases stops - from,
    {
        let ghost before = flags@;
        if is_zoned(stop_zone, from as u32) {
            let edges = &targets[from];
            let mut edge: usize = 0;
            while edge < edges.len()
                invariant
                    edge <= edges@.len(),
                    from < stops == targets@.len() == flags@.len() == before.len(),
                    stops <= u32::MAX,
                    edges@ == targets@[from as int]@,
                    forall|f: int, e: int|
                        0 <= f < targets@.len() && 0 <= e < targets@[f]@.len() ==> (
                        #[trigger] targets@[f]@[e]) < targets@.len(),
                    forall|s: int|
                        0 <= s < flags@.len() ==> #[trigger] flags@[s] == (before[s]
                            || edges@.subrange(0, edge as int).contains(s as u32)),
                decreases edges.len() - edge,
            {
                assert(targets@[from as int]@[edge as int] < targets@.len());
                let to: u32 = edges[edge];
                let ghost held = flags@;
                flags.set(to as usize, true);
                proof {
                    let upto = edges@.subrange(0, edge as int);
                    let next = edges@.subrange(0, edge + 1);
                    assert(next =~= upto.push(to));
                    assert forall|s: int| 0 <= s < flags@.len() implies #[trigger] flags@[s] == (
                    before[s] || next.contains(s as u32)) by {
                        if s == to {
                            assert(next[edge as int] == to);
                        } else {
                            assert(flags@[s] == held[s]);
                            if next.contains(s as u32) {
                                let at = choose|at: int|
                                    0 <= at < next.len() && next[at] == s as u32;
                                assert(upto[at] == s as u32);
                            }
                            if upto.contains(s as u32) {
                                let at = choose|at: int|
                                    0 <= at < upto.len() && upto[at] == s as u32;
                                assert(next[at] == s as u32);
                            }
                        }
                    }
                }
                edge += 1;
            }
            assert(edges@.subrange(0, edges@.len() as int) =~= edges@);
        }
        proof {
            assert forall|s: int| 0 <= s < flags@.len() implies #[trigger] flags@[s]
                == walked_from_zoned(stop_zone@, targets@, s as u32, from + 1) by {
                assert(before[s] == walked_from_zoned(
                    stop_zone@,
                    targets@,
                    s as u32,
                    from as int,
                ));
                if flags@[s] && !before[s] {
                    assert(targets@[from as int]@.contains(s as u32));
                }
                if before[s] {
                    let f = choose|f: int|
                        0 <= f < from && zoned(stop_zone@, f as u32) && (
                        #[trigger] targets@[f])@.contains(s as u32);
                    assert(targets@[f]@.contains(s as u32));
                }
            }
        }
        from += 1;
    }
    flags
}

/// Whether a link's stop can carry a priced arrival: zoned, or one footpath
/// from a zoned stop. Rides only alight at zoned stops and walks never
/// chain.
pub open spec fn priceable_link(stop_zone: Seq<u32>, walked: Seq<bool>, stop: u32) -> bool {
    zoned(stop_zone, stop) || walked[stop as int]
}

pub open spec fn priceable_slot(
    stop_zone: Seq<u32>,
    walked: Seq<bool>,
    links: Seq<(u32, u32, u64)>,
) -> bool {
    exists|l: int|
        0 <= l < links.len() && priceable_link(stop_zone, walked, (#[trigger] links[l]).0)
}

/// Whether any link of a slot can carry a priced arrival.
pub fn statically_priceable(
    stop_zone: &Vec<u32>,
    walked: &Vec<bool>,
    links: &Vec<(u32, u32, u64)>,
) -> (priceable: bool)
    requires
        forall|l: int| 0 <= l < links@.len() ==> (#[trigger] links@[l]).0 < walked@.len(),
    ensures
        priceable == priceable_slot(stop_zone@, walked@, links@),
{
    let mut link: usize = 0;
    while link < links.len()
        invariant
            link <= links@.len(),
            forall|l: int| 0 <= l < links@.len() ==> (#[trigger] links@[l]).0 < walked@.len(),
            forall|l: int|
                0 <= l < link ==> !priceable_link(stop_zone@, walked@, (#[trigger] links@[l]).0),
        decreases links.len() - link,
    {
        assert(links@[link as int].0 < walked@.len());
        let stop: u32 = links[link].0;
        if is_zoned(stop_zone, stop) || walked[stop as usize] {
            assert(priceable_link(stop_zone@, walked@, links@[link as int].0));
            return true;
        }
        link += 1;
    }
    false
}

/// Whether the search's seeds touch a stop: an access stop itself, or, with
/// seed walks, one footpath from one.
pub open spec fn seeded(
    access: Seq<(u32, u32)>,
    targets: Seq<Vec<u32>>,
    seed_walks: bool,
    stop: u32,
) -> bool {
    exists|a: int|
        0 <= a < access.len() && ((#[trigger] access[a]).0 == stop || (seed_walks
            && targets[access[a].0 as int]@.contains(stop)))
}

pub open spec fn seed_reached(
    access: Seq<(u32, u32)>,
    targets: Seq<Vec<u32>>,
    seed_walks: bool,
    links: Seq<(u32, u32, u64)>,
) -> bool {
    exists|l: int|
        0 <= l < links.len() && seeded(access, targets, seed_walks, (#[trigger] links[l]).0)
}

fn contains_stop(stops: &Vec<u32>, stop: u32) -> (found: bool)
    ensures
        found == stops@.contains(stop),
{
    let mut index: usize = 0;
    while index < stops.len()
        invariant
            index <= stops@.len(),
            forall|i: int| 0 <= i < index ==> #[trigger] stops@[i] != stop,
        decreases stops.len() - index,
    {
        if stops[index] == stop {
            assert(stops@[index as int] == stop);
            return true;
        }
        index += 1;
    }
    false
}

fn is_seeded(access: &Vec<(u32, u32)>, targets: &Vec<Vec<u32>>, seed_walks: bool, stop: u32) -> (
    touched: bool)
    requires
        forall|a: int| 0 <= a < access@.len() ==> (#[trigger] access@[a]).0 < targets@.len(),
    ensures
        touched == seeded(access@, targets@, seed_walks, stop),
{
    let mut index: usize = 0;
    while index < access.len()
        invariant
            index <= access@.len(),
            forall|a: int| 0 <= a < access@.len() ==> (#[trigger] access@[a]).0 < targets@.len(),
            forall|a: int|
                0 <= a < index ==> !((#[trigger] access@[a]).0 == stop || (seed_walks
                    && targets@[access@[a].0 as int]@.contains(stop))),
        decreases access.len() - index,
    {
        assert(access@[index as int].0 < targets@.len());
        let from: u32 = access[index].0;
        if from == stop || (seed_walks && contains_stop(&targets[from as usize], stop)) {
            assert(access@[index as int].0 == stop || (seed_walks
                && targets@[access@[index as int].0 as int]@.contains(stop)));
            return true;
        }
        index += 1;
    }
    false
}

/// Whether the search's seeds touch any link of a slot.
pub fn seed_reach(
    access: &Vec<(u32, u32)>,
    targets: &Vec<Vec<u32>>,
    seed_walks: bool,
    links: &Vec<(u32, u32, u64)>,
) -> (reached: bool)
    requires
        forall|a: int| 0 <= a < access@.len() ==> (#[trigger] access@[a]).0 < targets@.len(),
    ensures
        reached == seed_reached(access@, targets@, seed_walks, links@),
{
    let mut link: usize = 0;
    while link < links.len()
        invariant
            link <= links@.len(),
            forall|a: int| 0 <= a < access@.len() ==> (#[trigger] access@[a]).0 < targets@.len(),
            forall|l: int|
                0 <= l < link ==> !seeded(access@, targets@, seed_walks, (#[trigger] links@[l]).0),
        decreases links.len() - link,
    {
        if is_seeded(access, targets, seed_walks, links[link].0) {
            assert(seeded(access@, targets@, seed_walks, links@[link as int].0));
            return true;
        }
        link += 1;
    }
    false
}

/// A fold's row: its destination, fare and seconds.
#[derive(Debug, Clone, Copy, PartialEq, Eq, Structural)]
pub struct FoldRow {
    pub to: u32,
    pub fare: u64,
    pub seconds: u32,
}

/// The last row to a destination among the first `count`.
pub open spec fn fold_at(rows: Seq<FoldRow>, to: u32, count: int) -> Option<int>
    decreases count,
{
    if count <= 0 {
        None
    } else if rows[count - 1].to == to {
        Some(count - 1)
    } else {
        fold_at(rows, to, count - 1)
    }
}

fn find_fold(rows: &Vec<FoldRow>, to: u32) -> (found: Option<usize>)
    ensures
        match fold_at(rows@, to, rows@.len() as int) {
            Some(at) => found matches Some(index) && index == at && index < rows@.len(),
            None => found is None,
        },
{
    let mut found: Option<usize> = None;
    let mut index: usize = 0;
    while index < rows.len()
        invariant
            index <= rows@.len(),
            match fold_at(rows@, to, index as int) {
                Some(at) => found matches Some(held) && held == at && held < index,
                None => found is None,
            },
        decreases rows.len() - index,
    {
        if rows[index].to == to {
            found = Some(index);
        }
        index += 1;
    }
    found
}

/// Where a slot stands: settled, bounded by its fold's own fare, or climbing
/// a staircase of ceilings. Ceilings are doubles' bits.
#[derive(Debug, Clone, Copy, PartialEq, Eq, Structural)]
pub enum SlotBound {
    Closed,
    Warm { ceiling: u64, seed: u32 },
    Climbing { ceiling: u64 },
}

/// A slot without a price climbs from the dearest product, where it can be
/// priced at all.
pub open spec fn unpriced_bound(reachable: bool, dearest: u64) -> SlotBound {
    if reachable {
        SlotBound::Climbing { ceiling: dearest }
    } else {
        SlotBound::Closed
    }
}

/// A slot's first bound. A fold's fare is a real journey's price, so it is a
/// ceiling; one no dearer than the cheapest product, which `floor` is with
/// its tolerance, cannot be beaten.
pub open spec fn first_bound(
    rows: Seq<FoldRow>,
    to: u32,
    reachable: bool,
    floor: u64,
    dearest: u64,
) -> SlotBound {
    match fold_at(rows, to, rows.len() as int) {
        Some(at) => {
            let row = rows[at];
            if !f64_is_finite(row.fare) {
                unpriced_bound(reachable, dearest)
            } else if f64_less(row.fare, floor) || f64_equal(row.fare, floor) {
                SlotBound::Closed
            } else {
                SlotBound::Warm { ceiling: row.fare, seed: row.seconds }
            }
        },
        None => unpriced_bound(reachable, dearest),
    }
}

/// The first bounds of an origin's slots.
pub fn working_bounds(
    rows: &Vec<FoldRow>,
    slot_to: &Vec<u32>,
    reachable: &Vec<bool>,
    floor: u64,
    dearest: u64,
) -> (bounds: Vec<SlotBound>)
    requires
        reachable@.len() == slot_to@.len(),
    ensures
        bounds@ == Seq::new(
            slot_to@.len(),
            |slot: int| first_bound(rows@, slot_to@[slot], reachable@[slot], floor, dearest),
        ),
{
    let mut bounds: Vec<SlotBound> = Vec::new();
    let mut slot: usize = 0;
    while slot < slot_to.len()
        invariant
            slot <= slot_to@.len() == reachable@.len(),
            bounds@.len() == slot,
            forall|s: int|
                0 <= s < slot ==> #[trigger] bounds@[s] == first_bound(
                    rows@,
                    slot_to@[s],
                    reachable@[s],
                    floor,
                    dearest,
                ),
        decreases slot_to.len() - slot,
    {
        let unpriced: SlotBound = if reachable[slot] {
            SlotBound::Climbing { ceiling: dearest }
        } else {
            SlotBound::Closed
        };
        let bound: SlotBound = match find_fold(rows, slot_to[slot]) {
            Some(at) => {
                let row: FoldRow = rows[at];
                if !is_finite(row.fare) {
                    unpriced
                } else if less(row.fare, floor) || equal(row.fare, floor) {
                    SlotBound::Closed
                } else {
                    SlotBound::Warm { ceiling: row.fare, seed: row.seconds }
                }
            },
            None => unpriced,
        };
        bounds.push(bound);
        slot += 1;
    }
    bounds
}

pub open spec fn link_arrives(links: Seq<(u32, u32, u64)>, arrivals: Seq<Option<u32>>) -> bool {
    exists|l: int| 0 <= l < links.len() && arrivals[(#[trigger] links[l]).0 as int] is Some
}

/// Closes every climbing slot that an earliest-arrival pass does not reach:
/// priced journeys are a subset of what it reaches.
pub fn close_unreached(
    bounds: &mut Vec<SlotBound>,
    slots: &Vec<Vec<(u32, u32, u64)>>,
    arrivals: &Vec<Option<u32>>,
)
    requires
        old(bounds)@.len() == slots@.len(),
        forall|s: int, l: int|
            0 <= s < slots@.len() && 0 <= l < slots@[s]@.len() ==> (#[trigger] slots@[s]@[l]).0
                < arrivals@.len(),
    ensures
        final(bounds)@ == Seq::new(
            old(bounds)@.len(),
            |slot: int|
                if old(bounds)@[slot] is Climbing && !link_arrives(slots@[slot]@, arrivals@) {
                    SlotBound::Closed
                } else {
                    old(bounds)@[slot]
                },
        ),
        forall|s: int|
            0 <= s < old(bounds)@.len() && #[trigger] final(bounds)@[s] != old(bounds)@[s]
                ==> final(bounds)@[s] is Closed && old(bounds)@[s] is Climbing && forall|l: int|
                0 <= l < slots@[s]@.len() ==> arrivals@[(#[trigger] slots@[s]@[l]).0 as int] is None,
{
    let ghost start = bounds@;
    let ghost expected = Seq::new(
        start.len(),
        |slot: int|
            if start[slot] is Climbing && !link_arrives(slots@[slot]@, arrivals@) {
                SlotBound::Closed
            } else {
                start[slot]
            },
    );
    let mut slot: usize = 0;
    while slot < slots.len()
        invariant
            slot <= slots@.len() == bounds@.len() == start.len(),
            expected.len() == start.len(),
            forall|s: int, l: int|
                0 <= s < slots@.len() && 0 <= l < slots@[s]@.len() ==> (
                #[trigger] slots@[s]@[l]).0 < arrivals@.len(),
            expected == Seq::new(
                start.len(),
                |slot: int|
                    if start[slot] is Climbing && !link_arrives(slots@[slot]@, arrivals@) {
                        SlotBound::Closed
                    } else {
                        start[slot]
                    },
            ),
            forall|s: int| slot <= s < start.len() ==> #[trigger] bounds@[s] == start[s],
            forall|s: int| 0 <= s < slot ==> #[trigger] bounds@[s] == expected[s],
        decreases slots.len() - slot,
    {
        let climbing: bool = match bounds[slot] {
            SlotBound::Climbing { .. } => true,
            _ => false,
        };
        if climbing && !arrives(&slots[slot], arrivals) {
            bounds.set(slot, SlotBound::Closed);
        }
        slot += 1;
    }
    assert(bounds@ =~= expected);
}

fn arrives(links: &Vec<(u32, u32, u64)>, arrivals: &Vec<Option<u32>>) -> (reached: bool)
    requires
        forall|l: int| 0 <= l < links@.len() ==> (#[trigger] links@[l]).0 < arrivals@.len(),
    ensures
        reached == link_arrives(links@, arrivals@),
{
    let mut link: usize = 0;
    while link < links.len()
        invariant
            link <= links@.len(),
            forall|l: int| 0 <= l < links@.len() ==> (#[trigger] links@[l]).0 < arrivals@.len(),
            forall|l: int|
                0 <= l < link ==> arrivals@[(#[trigger] links@[l]).0 as int] is None,
        decreases links.len() - link,
    {
        assert(links@[link as int].0 < arrivals@.len());
        if arrivals[links[link].0 as usize].is_some() {
            assert(arrivals@[links@[link as int].0 as int] is Some);
            return true;
        }
        link += 1;
    }
    false
}

/// Whether any slot is climbing, so that an earliest-arrival pass pays.
pub fn any_climbing(bounds: &Vec<SlotBound>) -> (climbing: bool)
    ensures
        climbing == exists|s: int| 0 <= s < bounds@.len() && (#[trigger] bounds@[s]) is Climbing,
{
    let mut slot: usize = 0;
    while slot < bounds.len()
        invariant
            slot <= bounds@.len(),
            forall|s: int| 0 <= s < slot ==> !((#[trigger] bounds@[s]) is Climbing),
        decreases bounds.len() - slot,
    {
        if let SlotBound::Climbing { .. } = bounds[slot] {
            assert(bounds@[slot as int] is Climbing);
            return true;
        }
        slot += 1;
    }
    false
}

/// Whether every slot is settled, so that the fold stands as it is.
pub fn all_closed(bounds: &Vec<SlotBound>) -> (closed: bool)
    ensures
        closed == forall|s: int|
            0 <= s < bounds@.len() ==> (#[trigger] bounds@[s]) == SlotBound::Closed,
{
    let mut slot: usize = 0;
    while slot < bounds.len()
        invariant
            slot <= bounds@.len(),
            forall|s: int| 0 <= s < slot ==> (#[trigger] bounds@[s]) == SlotBound::Closed,
        decreases bounds.len() - slot,
    {
        if bounds[slot] != SlotBound::Closed {
            assert(bounds@[slot as int] != SlotBound::Closed);
            return false;
        }
        slot += 1;
    }
    true
}

/// What a bounded search under a slot's ceiling came back with.
#[derive(Debug, Clone, Copy, PartialEq, Eq, Structural)]
pub enum Answer {
    /// Nothing beat the fold's own journey.
    Seed,
    /// A journey at a fare.
    Priced { fare: u64 },
    Nothing,
}

/// Where a slot goes after an answer, and whether the answer is its exact
/// journey. `limit` is the ceiling with its tolerance, `doubled` twice the
/// ceiling, `hard_cap` the most any fare can come to.
pub open spec fn after_answer(
    bound: SlotBound,
    answer: Answer,
    limit: u64,
    doubled: u64,
    hard_cap: u64,
) -> (SlotBound, bool) {
    match answer {
        Answer::Seed => (SlotBound::Closed, false),
        Answer::Priced { fare } => if f64_less(fare, limit) || f64_equal(fare, limit) {
            (SlotBound::Closed, true)
        } else {
            (climbed(bound, doubled, hard_cap), false)
        },
        Answer::Nothing => (climbed(bound, doubled, hard_cap), false),
    }
}

/// A climbing slot's next step: twice the ceiling up to the hard cap, past
/// which it closes. A ceiling of nothing cannot double.
pub open spec fn climbed(bound: SlotBound, doubled: u64, hard_cap: u64) -> SlotBound {
    match bound {
        SlotBound::Climbing { ceiling } => if f64_less(ceiling, hard_cap) && f64_less(0, ceiling) {
            SlotBound::Climbing { ceiling: lesser_of(doubled, hard_cap) }
        } else {
            SlotBound::Closed
        },
        _ => SlotBound::Closed,
    }
}

/// Applies an answer to a slot.
pub fn apply_answer(bound: SlotBound, answer: Answer, limit: u64, doubled: u64, hard_cap: u64) -> (
    next: (SlotBound, bool))
    ensures
        next == after_answer(bound, answer, limit, doubled, hard_cap),
{
    match answer {
        Answer::Seed => {
            return (SlotBound::Closed, false);
        },
        Answer::Priced { fare } => {
            if less(fare, limit) || equal(fare, limit) {
                return (SlotBound::Closed, true);
            }
        },
        Answer::Nothing => {},
    }
    let next: SlotBound = match bound {
        SlotBound::Climbing { ceiling } => {
            if less(ceiling, hard_cap) && less(0, ceiling) {
                SlotBound::Climbing { ceiling: lesser(doubled, hard_cap) }
            } else {
                SlotBound::Closed
            }
        },
        _ => SlotBound::Closed,
    };
    (next, false)
}

/// The staircase ends: a step never rises past the hard cap, a slot at the
/// hard cap closes with its next answer, and only climbing slots climb.
pub proof fn law_staircase_is_bounded(
    bound: SlotBound,
    answer: Answer,
    limit: u64,
    doubled: u64,
    hard_cap: u64,
)
    ensures
        after_answer(bound, answer, limit, doubled, hard_cap).0 matches SlotBound::Climbing {
            ceiling,
        } ==> !f64_less(hard_cap, ceiling) && bound is Climbing && f64_less(
            bound->Climbing_ceiling,
            hard_cap,
        ),
        !(after_answer(bound, answer, limit, doubled, hard_cap).0 is Warm),
        after_answer(bound, answer, limit, doubled, hard_cap).1 ==> after_answer(
            bound,
            answer,
            limit,
            doubled,
            hard_cap,
        ).0 == SlotBound::Closed,
{
}

/// Where a slot's final row comes from.
#[derive(Debug, Clone, Copy, PartialEq, Eq, Structural)]
pub enum RowChoice {
    Exact { slot: usize },
    Fold { row: usize },
}

/// The rows of the first `count` slots: the exact journey where there is
/// one, else the fold's.
pub open spec fn choices_upto(
    exact: Seq<bool>,
    rows: Seq<FoldRow>,
    slot_to: Seq<u32>,
    count: int,
) -> Seq<RowChoice>
    decreases count,
{
    if count <= 0 {
        Seq::empty()
    } else {
        let before = choices_upto(exact, rows, slot_to, count - 1);
        if exact[count - 1] {
            before.push(RowChoice::Exact { slot: (count - 1) as usize })
        } else {
            match fold_at(rows, slot_to[count - 1], rows.len() as int) {
                Some(at) => before.push(RowChoice::Fold { row: at as usize }),
                None => before,
            }
        }
    }
}

/// The refined rows of an origin, slot by slot.
pub fn refined_rows(exact: &Vec<bool>, rows: &Vec<FoldRow>, slot_to: &Vec<u32>) -> (choices: Vec<
    RowChoice,
>)
    requires
        exact@.len() == slot_to@.len(),
    ensures
        choices@ == choices_upto(exact@, rows@, slot_to@, slot_to@.len() as int),
{
    let mut choices: Vec<RowChoice> = Vec::new();
    let mut slot: usize = 0;
    while slot < slot_to.len()
        invariant
            slot <= slot_to@.len() == exact@.len(),
            choices@ == choices_upto(exact@, rows@, slot_to@, slot as int),
        decreases slot_to.len() - slot,
    {
        if exact[slot] {
            choices.push(RowChoice::Exact { slot });
        } else if let Some(at) = find_fold(rows, slot_to[slot]) {
            choices.push(RowChoice::Fold { row: at });
        }
        slot += 1;
    }
    choices
}

/// No stop: a journey that rides nothing boards and alights nowhere.
pub const NO_STOP: u32 = 0xFFFF_FFFF;

/// A step of a winning chain.
#[derive(Debug, Clone, Copy, PartialEq, Eq, Structural)]
pub enum ChainStep {
    Ride { trip: u32, board: u32, alight: u32, alight_stop: u32 },
    Walk { from: u32, to: u32 },
}

/// What a winning chain's cost row is summed from: the walked meters in
/// order, the rides in order, and the stops it boards first and alights
/// last at.
pub struct ChainPlan {
    pub access_stop: u32,
    pub egress_stop: u32,
    pub walk_meters: Vec<u64>,
    pub rides: Vec<(u32, u32, u32)>,
    pub resolved: bool,
}

/// The meters of the first footpath between two stops, nothing without one.
pub open spec fn walked_between(edges: Seq<(u32, u64)>, to: u32, from: int) -> u64
    decreases edges.len() - from,
{
    if from >= edges.len() {
        0
    } else if edges[from].0 == to {
        edges[from].1
    } else {
        walked_between(edges, to, from + 1)
    }
}

fn meters_between(edges: &Vec<(u32, u64)>, to: u32) -> (meters: u64)
    ensures
        meters == walked_between(edges@, to, 0),
{
    let mut index: usize = 0;
    while index < edges.len()
        invariant
            index <= edges@.len(),
            walked_between(edges@, to, 0) == walked_between(edges@, to, index as int),
        decreases edges.len() - index,
    {
        if edges[index].0 == to {
            return edges[index].1;
        }
        index += 1;
    }
    0
}

/// The meters last listed for a stop, nothing where it is not listed.
pub open spec fn listed_meters(listed: Seq<(u32, u64)>, stop: u32, count: int) -> u64
    decreases count,
{
    if count <= 0 {
        0
    } else if listed[count - 1].0 == stop {
        listed[count - 1].1
    } else {
        listed_meters(listed, stop, count - 1)
    }
}

/// The meters of the walk to where a chain starts: the access link's own
/// for points; for stops, a footpath where the chain starts elsewhere.
pub open spec fn access_walk(
    access: Seq<(u32, u32)>,
    access_meters: Option<Seq<(u32, u64)>>,
    edges: Seq<Vec<(u32, u64)>>,
    seed_stop: u32,
) -> Seq<u64> {
    match access_meters {
        Some(listed) => seq![listed_meters(listed, seed_stop, listed.len() as int)],
        None => if access.len() > 0 && forall|a: int|
            0 <= a < access.len() ==> (#[trigger] access[a]).0 != seed_stop {
            seq![walked_between(edges[access[0].0 as int]@, seed_stop, 0)]
        } else {
            Seq::empty()
        },
    }
}

/// The walked meters of the first `count` steps.
pub open spec fn step_walks(edges: Seq<Vec<(u32, u64)>>, steps: Seq<ChainStep>, count: int) -> Seq<
    u64,
>
    decreases count,
{
    if count <= 0 {
        Seq::empty()
    } else {
        match steps[count - 1] {
            ChainStep::Walk { from, to } => step_walks(edges, steps, count - 1).push(
                walked_between(edges[from as int]@, to, 0),
            ),
            ChainStep::Ride { .. } => step_walks(edges, steps, count - 1),
        }
    }
}

/// The rides of the first `count` steps.
pub open spec fn step_rides(steps: Seq<ChainStep>, count: int) -> Seq<(u32, u32, u32)>
    decreases count,
{
    if count <= 0 {
        Seq::empty()
    } else {
        match steps[count - 1] {
            ChainStep::Ride { trip, board, alight, .. } => step_rides(steps, count - 1).push(
                (trip, board, alight),
            ),
            ChainStep::Walk { .. } => step_rides(steps, count - 1),
        }
    }
}

/// Where a chain stands after the first `count` steps.
pub open spec fn standing(seed_stop: u32, steps: Seq<ChainStep>, count: int) -> u32
    decreases count,
{
    if count <= 0 {
        seed_stop
    } else {
        match steps[count - 1] {
            ChainStep::Ride { alight_stop, .. } => alight_stop,
            ChainStep::Walk { to, .. } => to,
        }
    }
}

/// The stop last alighted at within the first `count` steps.
pub open spec fn last_alighted(steps: Seq<ChainStep>, count: int) -> u32
    decreases count,
{
    if count <= 0 {
        NO_STOP
    } else {
        match steps[count - 1] {
            ChainStep::Ride { alight_stop, .. } => alight_stop,
            ChainStep::Walk { .. } => last_alighted(steps, count - 1),
        }
    }
}

/// Whether every ridden trip of the first `count` steps has an emission
/// factor.
pub open spec fn factors_known(factors: Seq<u64>, steps: Seq<ChainStep>, count: int) -> bool
    decreases count,
{
    if count <= 0 {
        true
    } else {
        factors_known(factors, steps, count - 1) && match steps[count - 1] {
            ChainStep::Ride { trip, .. } => f64_is_finite(factors[trip as int]),
            ChainStep::Walk { .. } => true,
        }
    }
}

/// The meters of the egress link that joined the destination, nothing where
/// none did.
pub open spec fn egress_walk(
    links: Seq<(u32, u32, u64)>,
    at: u32,
    seconds: u32,
    from: int,
) -> u64
    decreases links.len() - from,
{
    if from >= links.len() {
        0
    } else if links[from].0 == at && links[from].1 == seconds {
        links[from].2
    } else {
        egress_walk(links, at, seconds, from + 1)
    }
}

fn egress_meters(links: &Vec<(u32, u32, u64)>, at: u32, seconds: u32) -> (meters: u64)
    ensures
        meters == egress_walk(links@, at, seconds, 0),
{
    let mut index: usize = 0;
    while index < links.len()
        invariant
            index <= links@.len(),
            egress_walk(links@, at, seconds, 0) == egress_walk(links@, at, seconds, index as int),
        decreases links.len() - index,
    {
        if links[index].0 == at && links[index].1 == seconds {
            return links[index].2;
        }
        index += 1;
    }
    0
}

fn start_walk(
    access: &Vec<(u32, u32)>,
    access_meters: &Option<Vec<(u32, u64)>>,
    edges: &Vec<Vec<(u32, u64)>>,
    seed_stop: u32,
) -> (walks: Vec<u64>)
    requires
        forall|a: int| 0 <= a < access@.len() ==> (#[trigger] access@[a]).0 < edges@.len(),
    ensures
        walks@ == access_walk(
            access@,
            match access_meters {
                Some(listed) => Some(listed@),
                None => None,
            },
            edges@,
            seed_stop,
        ),
{
    let mut walks: Vec<u64> = Vec::new();
    match access_meters {
        Some(listed) => {
            let mut meters: u64 = 0;
            let mut index: usize = 0;
            while index < listed.len()
                invariant
                    index <= listed@.len(),
                    meters == listed_meters(listed@, seed_stop, index as int),
                decreases listed.len() - index,
            {
                if listed[index].0 == seed_stop {
                    meters = listed[index].1;
                }
                index += 1;
            }
            walks.push(meters);
        },
        None => {
            let mut elsewhere: bool = true;
            let mut index: usize = 0;
            while index < access.len()
                invariant
                    index <= access@.len(),
                    elsewhere == forall|a: int|
                        0 <= a < index ==> (#[trigger] access@[a]).0 != seed_stop,
                decreases access.len() - index,
            {
                if access[index].0 == seed_stop {
                    assert(access@[index as int].0 == seed_stop);
                    elsewhere = false;
                }
                index += 1;
            }
            if access.len() > 0 && elsewhere {
                assert(access@[0].0 < edges@.len());
                walks.push(meters_between(&edges[access[0].0 as usize], seed_stop));
            }
        },
    }
    walks
}

pub open spec fn steps_fit(steps: Seq<ChainStep>, stops: nat, trips: nat) -> bool {
    forall|s: int|
        0 <= s < steps.len() ==> match #[trigger] steps[s] {
            ChainStep::Ride { trip, .. } => trip < trips,
            ChainStep::Walk { from, .. } => from < stops,
        }
}

/// Takes a winning chain apart into what its cost row is summed from.
pub fn chain_plan(
    seed_stop: u32,
    steps: &Vec<ChainStep>,
    access: &Vec<(u32, u32)>,
    access_meters: &Option<Vec<(u32, u64)>>,
    edges: &Vec<Vec<(u32, u64)>>,
    egress_links: &Vec<(u32, u32, u64)>,
    egress_seconds: u32,
    factors: &Vec<u64>,
) -> (plan: ChainPlan)
    requires
        forall|a: int| 0 <= a < access@.len() ==> (#[trigger] access@[a]).0 < edges@.len(),
        steps_fit(steps@, edges@.len(), factors@.len()),
    ensures
        ({
            let count = steps@.len() as int;
            &&& plan.rides@ == step_rides(steps@, count)
            &&& plan.access_stop == if step_rides(steps@, count).len() > 0 {
                seed_stop
            } else {
                NO_STOP
            }
            &&& plan.egress_stop == last_alighted(steps@, count)
            &&& plan.resolved == factors_known(factors@, steps@, count)
            &&& plan.walk_meters@ == (access_walk(
                access@,
                match access_meters {
                    Some(listed) => Some(listed@),
                    None => None,
                },
                edges@,
                seed_stop,
            ) + step_walks(edges@, steps@, count)).push(
                egress_walk(egress_links@, standing(seed_stop, steps@, count), egress_seconds, 0),
            )
        }),
{
    let mut walk_meters: Vec<u64> = start_walk(access, access_meters, edges, seed_stop);
    let ghost start = walk_meters@;
    let mut rides: Vec<(u32, u32, u32)> = Vec::new();
    let mut at: u32 = seed_stop;
    let mut egress_stop: u32 = NO_STOP;
    let mut resolved: bool = true;
    let mut index: usize = 0;
    assert(start + step_walks(edges@, steps@, 0) =~= start);
    while index < steps.len()
        invariant
            index <= steps@.len(),
            steps_fit(steps@, edges@.len(), factors@.len()),
            rides@ == step_rides(steps@, index as int),
            at == standing(seed_stop, steps@, index as int),
            egress_stop == last_alighted(steps@, index as int),
            resolved == factors_known(factors@, steps@, index as int),
            walk_meters@ == start + step_walks(edges@, steps@, index as int),
        decreases steps.len() - index,
    {
        let ghost step = steps@[index as int];
        assert(match step {
            ChainStep::Ride { trip, .. } => trip < factors@.len(),
            ChainStep::Walk { from, .. } => from < edges@.len(),
        });
        match steps[index] {
            ChainStep::Ride { trip, board, alight, alight_stop } => {
                if !is_finite(factors[trip as usize]) {
                    resolved = false;
                }
                rides.push((trip, board, alight));
                at = alight_stop;
                egress_stop = alight_stop;
            },
            ChainStep::Walk { from, to } => {
                walk_meters.push(meters_between(&edges[from as usize], to));
                at = to;
                assert(walk_meters@ =~= start + step_walks(edges@, steps@, index + 1));
            },
        }
        index += 1;
    }
    walk_meters.push(egress_meters(egress_links, at, egress_seconds));
    let access_stop: u32 = if rides.len() > 0 {
        seed_stop
    } else {
        NO_STOP
    };
    ChainPlan { access_stop, egress_stop, walk_meters, rides, resolved }
}

/// A fold row is the last to its destination: the one a slot is judged by.
proof fn lemma_fold_at(rows: Seq<FoldRow>, to: u32, at: int, count: int)
    requires
        0 <= at < count <= rows.len(),
        rows[at].to == to,
        forall|i: int| at < i < count ==> (#[trigger] rows[i]).to != to,
    ensures
        fold_at(rows, to, count) == Some(at),
    decreases count,
{
    if at < count - 1 {
        assert(rows[count - 1].to != to);
        lemma_fold_at(rows, to, at, count - 1);
    }
}

proof fn lemma_no_fold(rows: Seq<FoldRow>, to: u32, count: int)
    requires
        0 <= count <= rows.len(),
        forall|i: int| 0 <= i < count ==> (#[trigger] rows[i]).to != to,
    ensures
        fold_at(rows, to, count) is None,
    decreases count,
{
    if count > 0 {
        assert(rows[count - 1].to != to);
        lemma_no_fold(rows, to, count - 1);
    }
}

/// A fold's finite fare settles its slot only where the floor is no less than
/// it; any dearer fare is searched under, whatever the dearest product costs,
/// with the fold's own seconds to beat. A fare that is no amount leaves the
/// slot climbing from the dearest product where it can be priced at all, and
/// settled where it cannot.
pub proof fn law_fold_fares_are_searched_under(
    rows: Seq<FoldRow>,
    at: int,
    reachable: bool,
    floor: u64,
    dearest: u64,
)
    requires
        0 <= at < rows.len(),
        forall|i: int| at < i < rows.len() ==> (#[trigger] rows[i]).to != rows[at].to,
    ensures
        ({
            let fare = rows[at].fare;
            let bound = first_bound(rows, rows[at].to, reachable, floor, dearest);
            &&& f64_is_finite(fare) && !f64_is_nan(floor) && f64_rank(fare) <= f64_rank(floor)
                ==> bound is Closed
            &&& f64_is_finite(fare) && !f64_is_nan(floor) && f64_rank(floor) < f64_rank(fare)
                ==> bound == (SlotBound::Warm { ceiling: fare, seed: rows[at].seconds })
            &&& f64_is_finite(fare) && f64_is_nan(floor) ==> bound == (SlotBound::Warm {
                ceiling: fare,
                seed: rows[at].seconds,
            })
            &&& !f64_is_finite(fare) && reachable ==> bound == (SlotBound::Climbing {
                ceiling: dearest,
            })
            &&& !f64_is_finite(fare) && !reachable ==> bound is Closed
        }),
{
    lemma_fold_at(rows, rows[at].to, at, rows.len() as int);
}

/// A slot that no fold reaches climbs from the dearest product where it can
/// be priced, and is settled where it cannot.
pub proof fn law_unfolded_slots_climb(
    rows: Seq<FoldRow>,
    to: u32,
    reachable: bool,
    floor: u64,
    dearest: u64,
)
    requires
        forall|i: int| 0 <= i < rows.len() ==> (#[trigger] rows[i]).to != to,
    ensures
        reachable ==> first_bound(rows, to, reachable, floor, dearest) == (SlotBound::Climbing {
            ceiling: dearest,
        }),
        !reachable ==> first_bound(rows, to, reachable, floor, dearest) is Closed,
{
    lemma_no_fold(rows, to, rows.len() as int);
}

/// The range of a tariff's prices holds every price that is a number, and its
/// ends are prices themselves: the cheapest without bound where there is no
/// number, the dearest nothing where none is above it.
pub proof fn law_price_range_holds_prices(products: Seq<ZoneProduct>, count: int)
    requires
        0 <= count <= products.len(),
    ensures
        !f64_is_nan(cheapest_of(products, count)),
        !f64_is_nan(dearest_of(products, count)),
        f64_rank(dearest_of(products, count)) >= 0,
        forall|i: int|
            0 <= i < count && !f64_is_nan((#[trigger] products[i]).price) ==> f64_rank(
                cheapest_of(products, count),
            ) <= f64_rank(products[i].price) <= f64_rank(dearest_of(products, count)),
        cheapest_of(products, count) == F64_INFINITY || exists|i: int|
            0 <= i < count && (#[trigger] products[i]).price == cheapest_of(products, count),
        dearest_of(products, count) == 0 || exists|i: int|
            0 <= i < count && (#[trigger] products[i]).price == dearest_of(products, count),
    decreases count,
{
    if count > 0 {
        law_price_range_holds_prices(products, count - 1);
        let price = products[count - 1].price;
        let held = cheapest_of(products, count - 1);
        if cheapest_of(products, count) != price && held != F64_INFINITY {
            let i = choose|i: int| 0 <= i < count - 1 && (#[trigger] products[i]).price == held;
            assert(products[i].price == cheapest_of(products, count));
        }
        let most = dearest_of(products, count - 1);
        if dearest_of(products, count) != price && most != 0 {
            let i = choose|i: int| 0 <= i < count - 1 && (#[trigger] products[i]).price == most;
            assert(products[i].price == dearest_of(products, count));
        }
    }
}

/// The zones of a tariff are those of its products and no others.
pub proof fn law_zone_union(products: Seq<ZoneProduct>, count: int, mask: u128)
    requires
        0 <= count <= products.len(),
    ensures
        union_of(products, count) & mask == 0 <==> forall|i: int|
            0 <= i < count ==> (#[trigger] products[i]).zones & mask == 0,
    decreases count,
{
    if count > 0 {
        law_zone_union(products, count - 1, mask);
        let held = union_of(products, count - 1);
        let more = products[count - 1].zones;
        assert((held | more) & mask == 0 <==> held & mask == 0 && more & mask == 0)
            by (bit_vector);
    } else {
        assert(0u128 & mask == 0) by (bit_vector);
    }
}

/// The tickets that bound a fare are as few as outlast the journey: one less
/// would not. A product that lasts for ever needs one. Only a product that
/// covers every zone on unlimited boardings, and lasts a second at all, bounds
/// anything.
pub proof fn law_tickets_are_needed(
    product: ZoneProduct,
    union: u128,
    whole: Option<u64>,
    within: u32,
)
    ensures
        tickets_for(product, union, whole, within) is Some <==> product.zones & union == union
            && product.transfers == NO_FARE && (whole matches Some(seconds) ==> seconds > 0),
        tickets_for(product, union, whole, within) matches Some(tickets) ==> {
            &&& tickets >= 1
            &&& whole is None ==> tickets == 1
            &&& whole matches Some(seconds) ==> (tickets - 1) * seconds <= within < tickets
                * seconds
        },
{
    if let Some(seconds) = whole {
        if seconds > 0 {
            let full = within as int / seconds as int;
            assert(full * seconds <= within < (full + 1) * seconds && full >= 0)
                by (nonlinear_arith)
                requires
                    full == within as int / seconds as int,
                    seconds > 0,
                    within >= 0,
            ;
        }
    }
}

/// An answer is exact only where it is a journey priced within the limit, and
/// it then settles the slot; so does the fold's own journey standing. A
/// bounded slot is settled by whatever comes back. A climbing slot that is not
/// settled goes on under the lesser of twice its ceiling and the hard cap, as
/// long as its ceiling lies between nothing and the cap.
pub proof fn law_answers_settle_slots(
    bound: SlotBound,
    answer: Answer,
    limit: u64,
    doubled: u64,
    hard_cap: u64,
)
    requires
        !f64_is_nan(limit),
        !f64_is_nan(doubled),
        !f64_is_nan(hard_cap),
    ensures
        ({
            let (next, exact) = after_answer(bound, answer, limit, doubled, hard_cap);
            let within = answer matches Answer::Priced { fare } && !f64_is_nan(fare) && f64_rank(
                fare,
            ) <= f64_rank(limit);
            &&& exact == within
            &&& within || answer is Seed || !(bound is Climbing) ==> next is Closed
            &&& !within && !(answer is Seed) ==> (bound matches SlotBound::Climbing { ceiling }
                ==> {
                let climbs = !f64_is_nan(ceiling) && 0 < f64_rank(ceiling) && f64_rank(ceiling)
                    < f64_rank(hard_cap);
                &&& !climbs ==> next is Closed
                &&& climbs ==> next is Climbing && {
                    let step = next->Climbing_ceiling;
                    &&& step == doubled || step == hard_cap
                    &&& f64_rank(step) <= f64_rank(doubled)
                    &&& f64_rank(step) <= f64_rank(hard_cap)
                }
            })
        }),
{
}

/// A slot that an exact journey answered reports it; another one reports the
/// last fold row to its destination, or nothing where there is none. Rows come
/// in the order of the slots.
pub proof fn law_refined_rows_are_the_slots(
    exact: Seq<bool>,
    rows: Seq<FoldRow>,
    slot_to: Seq<u32>,
    slots: int,
    count: int,
)
    requires
        0 <= slots < count <= slot_to.len() <= usize::MAX,
        exact.len() == slot_to.len(),
        rows.len() <= usize::MAX,
    ensures
        ({
            let before = choices_upto(exact, rows, slot_to, slots);
            let after = choices_upto(exact, rows, slot_to, slots + 1);
            let all = choices_upto(exact, rows, slot_to, count);
            &&& after.len() <= all.len()
            &&& all.subrange(0, after.len() as int) == after
            &&& before.len() <= after.len() <= before.len() + 1
            &&& after.subrange(0, before.len() as int) == before
            &&& exact[slots] ==> after == before.push(RowChoice::Exact { slot: slots as usize })
            &&& !exact[slots] ==> (after == before <==> forall|i: int|
                0 <= i < rows.len() ==> (#[trigger] rows[i]).to != slot_to[slots])
            &&& forall|at: int|
                !exact[slots] && 0 <= at < rows.len() && (#[trigger] rows[at]).to == slot_to[slots]
                    && (forall|i: int|
                    at < i < rows.len() ==> (#[trigger] rows[i]).to != slot_to[slots]) ==> after
                    == before.push(RowChoice::Fold { row: at as usize })
        }),
    decreases count,
{
    let before = choices_upto(exact, rows, slot_to, slots);
    let after = choices_upto(exact, rows, slot_to, slots + 1);
    let to = slot_to[slots];
    lemma_fold_found(rows, to, rows.len() as int);
    assert(after.subrange(0, before.len() as int) =~= before);
    assert(after.subrange(0, after.len() as int) =~= after);
    if after.len() == before.len() + 1 {
        assert(after != before);
    }
    assert forall|at: int|
        !exact[slots] && 0 <= at < rows.len() && (#[trigger] rows[at]).to == to && (forall|i: int|
            at < i < rows.len() ==> (#[trigger] rows[i]).to != to) implies after == before.push(
        RowChoice::Fold { row: at as usize },
    ) by {
        lemma_fold_at(rows, to, at, rows.len() as int);
    }
    if slots + 1 < count {
        law_refined_rows_are_the_slots(exact, rows, slot_to, slots, count - 1);
        let fewer = choices_upto(exact, rows, slot_to, count - 1);
        let all = choices_upto(exact, rows, slot_to, count);
        assert(all.subrange(0, after.len() as int) =~= fewer.subrange(0, after.len() as int));
    }
}

proof fn lemma_fold_found(rows: Seq<FoldRow>, to: u32, count: int)
    requires
        0 <= count <= rows.len(),
    ensures
        match fold_at(rows, to, count) {
            Some(at) => 0 <= at < count && rows[at].to == to && forall|i: int|
                at < i < count ==> (#[trigger] rows[i]).to != to,
            None => forall|i: int| 0 <= i < count ==> (#[trigger] rows[i]).to != to,
        },
    decreases count,
{
    if count > 0 {
        lemma_fold_found(rows, to, count - 1);
    }
}

/// A chain's rides and the meters of its walks are those of its parts, one
/// part after the other: a ride adds itself and no meters, a walk adds the
/// meters of the first footpath to where it goes.
pub proof fn law_chains_add_up(
    edges: Seq<Vec<(u32, u64)>>,
    steps: Seq<ChainStep>,
    step: ChainStep,
    at: int,
)
    requires
        step matches ChainStep::Walk { from, to } ==> from < edges.len() && 0 <= at
            <= edges[from as int]@.len() && (forall|e: int|
            0 <= e < at ==> (#[trigger] edges[from as int]@[e]).0 != to) && (at
            < edges[from as int]@.len() ==> edges[from as int]@[at].0 == to),
    ensures
        ({
            let count = steps.len() as int;
            let more = steps.push(step);
            &&& step matches ChainStep::Ride { trip, board, alight, .. } ==> {
                &&& step_rides(more, count + 1) == step_rides(steps, count).push(
                    (trip, board, alight),
                )
                &&& step_walks(edges, more, count + 1) == step_walks(edges, steps, count)
            }
            &&& step matches ChainStep::Walk { from, to } ==> {
                &&& step_rides(more, count + 1) == step_rides(steps, count)
                &&& step_walks(edges, more, count + 1) == step_walks(edges, steps, count).push(
                    if at < edges[from as int]@.len() {
                        edges[from as int]@[at].1
                    } else {
                        0
                    },
                )
            }
        }),
{
    let count = steps.len() as int;
    lemma_steps_prefix(edges, steps, step, count);
    if let ChainStep::Walk { from, to } = step {
        lemma_walked_between(edges[from as int]@, to, 0, at);
    }
}

proof fn lemma_steps_prefix(
    edges: Seq<Vec<(u32, u64)>>,
    steps: Seq<ChainStep>,
    step: ChainStep,
    count: int,
)
    requires
        0 <= count <= steps.len(),
    ensures
        step_rides(steps.push(step), count) == step_rides(steps, count),
        step_walks(edges, steps.push(step), count) == step_walks(edges, steps, count),
    decreases count,
{
    if count > 0 {
        lemma_steps_prefix(edges, steps, step, count - 1);
        assert(steps.push(step)[count - 1] == steps[count - 1]);
    }
}

proof fn lemma_walked_between(edges: Seq<(u32, u64)>, to: u32, from: int, at: int)
    requires
        0 <= from <= at <= edges.len(),
        forall|e: int| from <= e < at ==> (#[trigger] edges[e]).0 != to,
        at < edges.len() ==> edges[at].0 == to,
    ensures
        walked_between(edges, to, from) == if at < edges.len() {
            edges[at].1
        } else {
            0
        },
    decreases at - from,
{
    if from < at {
        assert(edges[from].0 != to);
        lemma_walked_between(edges, to, from + 1, at);
    }
}

/// A chain stands where its last step leads and has last alighted where its
/// last ride ended; it is resolved where every ride's trip has a factor.
pub proof fn law_chains_end_where_they_lead(
    factors: Seq<u64>,
    seed_stop: u32,
    steps: Seq<ChainStep>,
    last: int,
)
    requires
        -1 <= last < steps.len(),
        last >= 0 ==> steps[last] is Ride,
        forall|s: int| last < s < steps.len() ==> (#[trigger] steps[s]) is Walk,
    ensures
        last >= 0 ==> last_alighted(steps, steps.len() as int) == steps[last]->alight_stop,
        last < 0 ==> last_alighted(steps, steps.len() as int) == NO_STOP,
        steps.len() == 0 ==> standing(seed_stop, steps, steps.len() as int) == seed_stop,
        steps.len() > 0 && last == steps.len() - 1 ==> standing(
            seed_stop,
            steps,
            steps.len() as int,
        ) == steps[last]->alight_stop,
        steps.len() > 0 && last < steps.len() - 1 ==> standing(
            seed_stop,
            steps,
            steps.len() as int,
        ) == steps[steps.len() - 1]->to,
        factors_known(factors, steps, steps.len() as int) <==> forall|s: int|
            0 <= s < steps.len() ==> ((#[trigger] steps[s]) is Ride ==> f64_is_finite(
                factors[steps[s]->trip as int],
            )),
{
    lemma_last_alighted(steps, last, steps.len() as int);
    lemma_factors_known(factors, steps, steps.len() as int);
    if steps.len() > 0 && last < steps.len() - 1 {
        assert(steps[steps.len() - 1] is Walk);
    }
}

proof fn lemma_last_alighted(steps: Seq<ChainStep>, last: int, count: int)
    requires
        -1 <= last < count <= steps.len() || last == -1 && count == 0,
        last >= 0 ==> steps[last] is Ride,
        forall|s: int| last < s < count ==> (#[trigger] steps[s]) is Walk,
    ensures
        last_alighted(steps, count) == if last >= 0 {
            steps[last]->alight_stop
        } else {
            NO_STOP
        },
    decreases count,
{
    if last < count - 1 {
        assert(steps[count - 1] is Walk);
        lemma_last_alighted(steps, last, count - 1);
    }
}

proof fn lemma_factors_known(factors: Seq<u64>, steps: Seq<ChainStep>, count: int)
    requires
        0 <= count <= steps.len(),
    ensures
        factors_known(factors, steps, count) <==> forall|s: int|
            0 <= s < count ==> ((#[trigger] steps[s]) is Ride ==> f64_is_finite(
                factors[steps[s]->trip as int],
            )),
    decreases count,
{
    if count > 0 {
        lemma_factors_known(factors, steps, count - 1);
    }
}

/// The walk that ends a chain has the meters of the first egress link from
/// where the chain stands that takes its seconds.
pub proof fn law_egress_meters(links: Seq<(u32, u32, u64)>, stop: u32, seconds: u32, at: int)
    requires
        0 <= at <= links.len(),
        forall|l: int|
            0 <= l < at ==> (#[trigger] links[l]).0 != stop || links[l].1 != seconds,
        at < links.len() ==> links[at].0 == stop && links[at].1 == seconds,
    ensures
        at < links.len() ==> egress_walk(links, stop, seconds, 0) == links[at].2,
        at == links.len() ==> egress_walk(links, stop, seconds, 0) == 0,
{
    lemma_egress_walk(links, stop, seconds, 0, at);
}

proof fn lemma_egress_walk(
    links: Seq<(u32, u32, u64)>,
    stop: u32,
    seconds: u32,
    from: int,
    at: int,
)
    requires
        0 <= from <= at <= links.len(),
        forall|l: int|
            from <= l < at ==> (#[trigger] links[l]).0 != stop || links[l].1 != seconds,
        at < links.len() ==> links[at].0 == stop && links[at].1 == seconds,
    ensures
        egress_walk(links, stop, seconds, from) == if at < links.len() {
            links[at].2
        } else {
            0
        },
    decreases at - from,
{
    if from < at {
        assert(links[from].0 != stop || links[from].1 != seconds);
        lemma_egress_walk(links, stop, seconds, from + 1, at);
    }
}

/// The walk that starts a chain from a point has the meters last listed for
/// its stop. Between stops there is one only where the chain starts at none of
/// the access stops: the first one's footpath to it.
pub proof fn law_start_meters(
    access: Seq<(u32, u32)>,
    listed: Seq<(u32, u64)>,
    edges: Seq<Vec<(u32, u64)>>,
    seed_stop: u32,
    at: int,
    edge: int,
)
    requires
        0 <= at < listed.len() ==> listed[at].0 == seed_stop && forall|i: int|
            at < i < listed.len() ==> (#[trigger] listed[i]).0 != seed_stop,
        access.len() > 0 ==> 0 <= edge < edges[access[0].0 as int]@.len() && edges[access[0].0 as int]@[edge].0
            == seed_stop && forall|e: int|
            0 <= e < edge ==> (#[trigger] edges[access[0].0 as int]@[e]).0 != seed_stop,
    ensures
        0 <= at < listed.len() ==> access_walk(access, Some(listed), edges, seed_stop)
            == seq![listed[at].1],
        access_walk(access, None, edges, seed_stop) == if access.len() == 0 || (exists|a: int|
            0 <= a < access.len() && (#[trigger] access[a]).0 == seed_stop) {
            Seq::<u64>::empty()
        } else {
            seq![edges[access[0].0 as int]@[edge].1]
        },
{
    if 0 <= at < listed.len() {
        lemma_listed_meters(listed, seed_stop, at, listed.len() as int);
    }
    if access.len() > 0 {
        lemma_walked_between(edges[access[0].0 as int]@, seed_stop, 0, edge);
    }
}

proof fn lemma_listed_meters(listed: Seq<(u32, u64)>, stop: u32, at: int, count: int)
    requires
        0 <= at < count <= listed.len(),
        listed[at].0 == stop,
        forall|i: int| at < i < count ==> (#[trigger] listed[i]).0 != stop,
    ensures
        listed_meters(listed, stop, count) == listed[at].1,
    decreases count,
{
    if at < count - 1 {
        assert(listed[count - 1].0 != stop);
        lemma_listed_meters(listed, stop, at, count - 1);
    }
}

/// A stop is zoned exactly where the network has it and its zone is one of the
/// first hundred and twenty-eight.
pub proof fn law_zoned_stops_have_a_zone(stop_zone: Seq<u32>, stop: u32)
    ensures
        zoned(stop_zone, stop) <==> stop < stop_zone.len() && stop_zone[stop as int] < 128,
{
}

/// A stop is walked to from a zoned one exactly where some zoned stop has a
/// footpath there.
pub proof fn law_walked_stops_are_beside_zoned_ones(
    stop_zone: Seq<u32>,
    targets: Seq<Vec<u32>>,
    stop: u32,
    count: int,
    from: int,
    path: int,
)
    requires
        0 <= count <= targets.len(),
        targets.len() <= u32::MAX,
    ensures
        0 <= from < count && from < stop_zone.len() && stop_zone[from] < 128 && 0 <= path
            < targets[from]@.len() && targets[from]@[path] == stop ==> walked_from_zoned(
            stop_zone,
            targets,
            stop,
            count,
        ),
        (forall|f: int, p: int|
            0 <= f < count && f < stop_zone.len() && stop_zone[f] < 128 && 0 <= p
                < targets[f]@.len() ==> #[trigger] targets[f]@[p] != stop) ==> !walked_from_zoned(
            stop_zone,
            targets,
            stop,
            count,
        ),
{
    if 0 <= from < count && from < stop_zone.len() && stop_zone[from] < 128 && 0 <= path
        < targets[from]@.len() && targets[from]@[path] == stop {
        assert(zoned(stop_zone, from as u32));
        assert(targets[from]@.contains(stop));
    }
    if forall|f: int, p: int|
        0 <= f < count && f < stop_zone.len() && stop_zone[f] < 128 && 0 <= p < targets[f]@.len()
            ==> #[trigger] targets[f]@[p] != stop {
        if walked_from_zoned(stop_zone, targets, stop, count) {
            let f = choose|f: int|
                0 <= f < count && zoned(stop_zone, f as u32) && (
                #[trigger] targets[f])@.contains(stop);
            let p = choose|p: int| 0 <= p < targets[f]@.len() && targets[f]@[p] == stop;
            assert(targets[f]@[p] != stop);
        }
    }
}

/// A slot can be priced exactly where some link's stop is zoned or walked to
/// from a zoned one.
pub proof fn law_priceable_slots_have_a_zoned_link(
    stop_zone: Seq<u32>,
    walked: Seq<bool>,
    links: Seq<(u32, u32, u64)>,
    at: int,
)
    ensures
        0 <= at < links.len() && (walked[links[at].0 as int] || links[at].0 < stop_zone.len()
            && stop_zone[links[at].0 as int] < 128) ==> priceable_slot(stop_zone, walked, links),
        (forall|l: int|
            0 <= l < links.len() ==> !walked[(#[trigger] links[l]).0 as int] && !(links[l].0
                < stop_zone.len() && stop_zone[links[l].0 as int] < 128)) ==> !priceable_slot(
            stop_zone,
            walked,
            links,
        ),
{
    if 0 <= at < links.len() {
        assert(links[at].0 == links[at].0);
    }
}

/// A slot is reached by the search's seeds exactly where some link's stop is
/// an access stop or, with seed walks, one footpath from one.
pub proof fn law_seeds_reach_their_own_stops(
    access: Seq<(u32, u32)>,
    targets: Seq<Vec<u32>>,
    seed_walks: bool,
    links: Seq<(u32, u32, u64)>,
    a: int,
    l: int,
)
    requires
        0 <= a < access.len(),
        0 <= l < links.len(),
    ensures
        access[a].0 == links[l].0 ==> seed_reached(access, targets, seed_walks, links),
        seed_walks && targets[access[a].0 as int]@.contains(links[l].0) ==> seed_reached(
            access,
            targets,
            seed_walks,
            links,
        ),
        !seed_walks && (forall|i: int, j: int|
            0 <= i < access.len() && 0 <= j < links.len() ==> (#[trigger] access[i]).0 != (
            #[trigger] links[j]).0) ==> !seed_reached(access, targets, seed_walks, links),
        seed_reached(access, targets, false, links) ==> seed_reached(access, targets, true, links),
{
    if access[a].0 == links[l].0 || seed_walks && targets[access[a].0 as int]@.contains(
        links[l].0,
    ) {
        assert(seeded(access, targets, seed_walks, links[l].0));
    }
    if seed_reached(access, targets, false, links) {
        let j = choose|j: int|
            0 <= j < links.len() && seeded(access, targets, false, (#[trigger] links[j]).0);
        let i = choose|i: int|
            0 <= i < access.len() && ((#[trigger] access[i]).0 == links[j].0 || (false
                && targets[access[i].0 as int]@.contains(links[j].0)));
        assert(access[i].0 == links[j].0);
        assert(seeded(access, targets, true, links[j].0));
    }
}

/// A slot is arrived at exactly where some link's stop is.
pub proof fn law_slots_are_arrived_at_over_a_link(
    links: Seq<(u32, u32, u64)>,
    arrivals: Seq<Option<u32>>,
    at: int,
)
    ensures
        0 <= at < links.len() && arrivals[links[at].0 as int] is Some ==> link_arrives(
            links,
            arrivals,
        ),
        (forall|l: int| 0 <= l < links.len() ==> arrivals[(#[trigger] links[l]).0 as int] is None)
            ==> !link_arrives(links, arrivals),
{
}

} // verus!
