use vstd::prelude::*;

use crate::components::{Intersect, Position};
use crate::events::IntersectEvent;
use crate::store::{records_wf, EntityRecord, World};

verus! {

pub open spec fn abs(x: int) -> int {
    if x < 0 { -x } else { x }
}

/// Two rectangles overlap when, on each axis, the distance between the centres
/// is less than the sum of the half-extents.
pub open spec fn overlaps(pa: Position, sa: Intersect, pb: Position, sb: Intersect) -> bool {
    &&& abs(pa.x - pb.x) < sa.size.x + sb.size.x
    &&& abs(pa.y - pb.y) < sa.size.y + sb.size.y
}

/// A record that takes part in intersection tests.
pub open spec fn is_body(r: EntityRecord) -> bool {
    r.position is Some && r.intersect is Some
}

/// Records `a` and `b` are distinct bodies whose rectangles overlap.
pub open spec fn pair_hits(a: EntityRecord, b: EntityRecord) -> bool {
    &&& a.id != b.id
    &&& is_body(a)
    &&& is_body(b)
    &&& overlaps(a.position->0, a.intersect->0, b.position->0, b.intersect->0)
}

/// The events for record `i` against the first `j` records.
pub open spec fn row_events(recs: Seq<EntityRecord>, i: int, j: int) -> Seq<IntersectEvent>
    decreases j,
{
    if j <= 0 {
        Seq::empty()
    } else {
        let rest = row_events(recs, i, j - 1);
        if pair_hits(recs[i], recs[j - 1]) {
            rest.push(IntersectEvent { ab: (recs[i].id, recs[j - 1].id) })
        } else {
            rest
        }
    }
}

/// The events of the first `i` records against all records, row by row.
pub open spec fn pair_events(recs: Seq<EntityRecord>, i: int) -> Seq<IntersectEvent>
    decreases i,
{
    if i <= 0 {
        Seq::empty()
    } else {
        pair_events(recs, i - 1) + row_events(recs, i - 1, recs.len() as int)
    }
}

/// All intersection events of a store.
pub open spec fn all_events(recs: Seq<EntityRecord>) -> Seq<IntersectEvent> {
    pair_events(recs, recs.len() as int)
}

fn abs_diff(a: i64, b: i64) -> (r: i128)
    ensures
        r == abs(a - b),
{
    let d: i128 = a as i128 - b as i128;
    if d < 0 { -d } else { d }
}

/// Whether two rectangles overlap.
pub fn rect_overlap(pa: Position, sa: Intersect, pb: Position, sb: Intersect) -> (b: bool)
    ensures
        b == overlaps(pa, sa, pb, sb),
{
    let dx = abs_diff(pa.x, pb.x);
    let dy = abs_diff(pa.y, pb.y);
    dx < sa.size.x as i128 + sb.size.x as i128 && dy < sa.size.y as i128 + sb.size.y as i128
}

/// Tests every ordered pair of distinct bodies and returns one event per
/// overlapping pair, in both orders.
pub fn check_intersect(world: &World) -> (evs: Vec<IntersectEvent>)
    ensures
        evs@ == all_events(world.records@),
{
    let ghost recs = world.records@;
    let n = world.records.len();
    let mut evs: Vec<IntersectEvent> = Vec::new();
    let mut i: usize = 0;
    while i < n
        invariant
            n == recs.len(),
            recs == world.records@,
            i <= n,
            evs@ == pair_events(recs, i as int),
        decreases n - i,
    {
        let ghost before = evs@;
        let a = world.records[i];
        let mut j: usize = 0;
        while j < n
            invariant
                n == recs.len(),
                recs == world.records@,
                i < n,
                j <= n,
                a == recs[i as int],
                evs@ == before + row_events(recs, i as int, j as int),
            decreases n - j,
        {
            let b = world.records[j];
            if a.id != b.id {
                match (a.position, a.intersect, b.position, b.intersect) {
                    (Some(pa), Some(sa), Some(pb), Some(sb)) => {
                        if rect_overlap(pa, sa, pb, sb) {
                            evs.push(IntersectEvent { ab: (a.id, b.id) });
                        }
                    },
                    _ => {},
                }
            }
            proof {
                assert(before + row_events(recs, i as int, j + 1) =~= evs@);
            }
            j = j + 1;
        }
        i = i + 1;
    }
    evs
}

/// The event with `a` acting on `b`.
pub open spec fn event_of(a: EntityRecord, b: EntityRecord) -> IntersectEvent {
    IntersectEvent { ab: (a.id, b.id) }
}

proof fn lemma_row_contains(recs: Seq<EntityRecord>, i: int, j: int, ev: IntersectEvent)
    requires
        0 <= i < recs.len(),
        0 <= j <= recs.len(),
    ensures
        row_events(recs, i, j).contains(ev) <==> exists|k: int|
            0 <= k < j && pair_hits(recs[i], #[trigger] recs[k]) && ev == event_of(recs[i], recs[k]),
    decreases j,
{
    if j > 0 {
        lemma_row_contains(recs, i, j - 1, ev);
        let rest = row_events(recs, i, j - 1);
        if pair_hits(recs[i], recs[j - 1]) {
            let e2 = event_of(recs[i], recs[j - 1]);
            assert(rest.push(e2)[rest.len() as int] == e2);
            if rest.push(e2).contains(ev) {
                let m = choose|m: int| 0 <= m < rest.push(e2).len() && rest.push(e2)[m] == ev;
                if m < rest.len() {
                    assert(rest[m] == ev);
                }
            }
            if rest.contains(ev) {
                let m = choose|m: int| 0 <= m < rest.len() && rest[m] == ev;
                assert(rest.push(e2)[m] == ev);
            }
        }
    }
}

proof fn lemma_pairs_contains(recs: Seq<EntityRecord>, i: int, ev: IntersectEvent)
    requires
        0 <= i <= recs.len(),
    ensures
        pair_events(recs, i).contains(ev) <==> exists|r: int, k: int|
            0 <= r < i && 0 <= k < recs.len() && pair_hits(#[trigger] recs[r], #[trigger] recs[k])
                && ev == event_of(recs[r], recs[k]),
    decreases i,
{
    if i > 0 {
        lemma_pairs_contains(recs, i - 1, ev);
        lemma_row_contains(recs, i - 1, recs.len() as int, ev);
        let a = pair_events(recs, i - 1);
        let b = row_events(recs, i - 1, recs.len() as int);
        if (a + b).contains(ev) {
            let m = choose|m: int| 0 <= m < (a + b).len() && (a + b)[m] == ev;
            if m < a.len() {
                assert(a[m] == ev);
            } else {
                assert(b[m - a.len()] == ev);
            }
        }
        if a.contains(ev) {
            let m = choose|m: int| 0 <= m < a.len() && a[m] == ev;
            assert((a + b)[m] == ev);
        }
        if b.contains(ev) {
            let m = choose|m: int| 0 <= m < b.len() && b[m] == ev;
            assert((a + b)[m + a.len()] == ev);
        }
        if exists|r: int, k: int|
            0 <= r < i && 0 <= k < recs.len() && pair_hits(#[trigger] recs[r], #[trigger] recs[k])
                && ev == event_of(recs[r], recs[k]) {
            let (r, k) = choose|r: int, k: int|
                0 <= r < i && 0 <= k < recs.len() && pair_hits(#[trigger] recs[r], #[trigger] recs[k])
                    && ev == event_of(recs[r], recs[k]);
            if r == i - 1 {
                assert(b.contains(ev));
            } else {
                assert(a.contains(ev));
            }
        }
    }
}

/// The intersection test is symmetric: the events of a store hold `a` acting
/// on `b` exactly when the two are distinct bodies whose rectangles overlap, and
/// then they also hold `b` acting on `a`. Rectangles apart on one axis give no event.
pub proof fn lemma_intersection_symmetric(recs: Seq<EntityRecord>, next_id: u64, i: int, j: int)
    requires
        records_wf(recs, next_id),
        0 <= i < recs.len(),
        0 <= j < recs.len(),
    ensures
        all_events(recs).contains(event_of(recs[i], recs[j])) <==> pair_hits(recs[i], recs[j]),
        all_events(recs).contains(event_of(recs[i], recs[j]))
            <==> all_events(recs).contains(event_of(recs[j], recs[i])),
        is_body(recs[i]) && is_body(recs[j]) && !overlaps(
            recs[i].position->0,
            recs[i].intersect->0,
            recs[j].position->0,
            recs[j].intersect->0,
        ) ==> !all_events(recs).contains(event_of(recs[i], recs[j])),
{
    let n = recs.len() as int;
    assert forall|a: int, b: int| 0 <= a < n && 0 <= b < n && recs[a].id == recs[b].id implies a == b by {
        if a < b {
            assert(recs[a].id.0 < recs[b].id.0);
        } else if b < a {
            assert(recs[b].id.0 < recs[a].id.0);
        }
    }
    lemma_pairs_contains(recs, n, event_of(recs[i], recs[j]));
    lemma_pairs_contains(recs, n, event_of(recs[j], recs[i]));
    if pair_hits(recs[i], recs[j]) {
        assert(pair_hits(recs[j], recs[i]));
    }
    if pair_hits(recs[j], recs[i]) {
        assert(pair_hits(recs[i], recs[j]));
    }
}

} // verus!
