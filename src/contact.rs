use vstd::prelude::*;
use crate::registry::{Entity, Registry};
use crate::tag::Tag;

verus! {

/// The direction of a change in contact between two entities.
#[derive(Clone, Copy, Debug, PartialEq, Eq, Structural)]
pub enum Transition {
    Started,
    Stopped,
}

/// One change in contact reported by the physics backend for this tick.
#[derive(Clone, Copy, Debug, PartialEq, Eq, Structural)]
pub struct ContactEvent {
    pub first: Entity,
    pub second: Entity,
    pub transition: Transition,
}

/// The pair that `ev` yields for the query `(a, b, tr)`, with the endpoint
/// holding `a` first. Endpoints that are not live never qualify, and an
/// entity is not paired with itself when `a` and `b` are the same tag.
pub open spec fn pair_of(
    reg: Registry,
    ev: ContactEvent,
    a: Tag,
    b: Tag,
    tr: Transition,
) -> Option<(Entity, Entity)> {
    if ev.transition != tr {
        None
    } else if a == b && ev.first == ev.second {
        None
    } else if reg.holds(ev.first, a) && reg.holds(ev.second, b) {
        Some((ev.first, ev.second))
    } else if reg.holds(ev.second, a) && reg.holds(ev.first, b) {
        Some((ev.second, ev.first))
    } else {
        None
    }
}

/// The qualifying pairs of `evs`, in the order of the events.
pub open spec fn qualifying(
    reg: Registry,
    evs: Seq<ContactEvent>,
    a: Tag,
    b: Tag,
    tr: Transition,
) -> Seq<(Entity, Entity)>
    decreases evs.len(),
{
    if evs.len() == 0 {
        Seq::empty()
    } else {
        let rest = qualifying(reg, evs.drop_last(), a, b, tr);
        match pair_of(reg, evs.last(), a, b, tr) {
            Some(p) => rest.push(p),
            None => rest,
        }
    }
}

/// The pair that `ev` yields for the query `(a, b, tr)`, if any.
pub fn pair_for(reg: &Registry, ev: &ContactEvent, a: Tag, b: Tag, tr: Transition) -> (r: Option<
    (Entity, Entity),
>)
    ensures
        r == pair_of(*reg, *ev, a, b, tr),
{
    if ev.transition != tr {
        return None;
    }
    if a == b && ev.first == ev.second {
        return None;
    }
    let first_holds_a = holds(reg, ev.first, a);
    let second_holds_b = holds(reg, ev.second, b);
    if first_holds_a && second_holds_b {
        return Some((ev.first, ev.second));
    }
    let second_holds_a = holds(reg, ev.second, a);
    let first_holds_b = holds(reg, ev.first, b);
    if second_holds_a && first_holds_b {
        Some((ev.second, ev.first))
    } else {
        None
    }
}

fn holds(reg: &Registry, e: Entity, tag: Tag) -> (r: bool)
    ensures
        r == reg.holds(e, tag),
{
    match reg.tags_of(e) {
        Ok(tags) => tags.has(tag),
        Err(_) => false,
    }
}

/// Every qualifying pair of `events` for the query `(a, b, tr)`, with the
/// endpoint holding `a` first, in the order of the events.
pub fn classify(
    reg: &Registry,
    events: &Vec<ContactEvent>,
    a: Tag,
    b: Tag,
    tr: Transition,
) -> (r: Vec<(Entity, Entity)>)
    ensures
        r@ == qualifying(*reg, events@, a, b, tr),
{
    let mut out: Vec<(Entity, Entity)> = Vec::new();
    let mut i: usize = 0;
    while i < events.len()
        invariant
            i <= events.len(),
            out@ == qualifying(*reg, events@.subrange(0, i as int), a, b, tr),
        decreases events.len() - i,
    {
        proof {
            assert(events@.subrange(0, i + 1).drop_last() =~= events@.subrange(0, i as int));
        }
        match pair_for(reg, &events[i], a, b, tr) {
            Some(p) => out.push(p),
            None => {},
        }
        i = i + 1;
    }
    assert(events@.subrange(0, events.len() as int) =~= events@);
    out
}

/// Whether `events` holds at least one qualifying pair for `(a, b, tr)`.
/// Stops at the first one.
pub fn any_pair(
    reg: &Registry,
    events: &Vec<ContactEvent>,
    a: Tag,
    b: Tag,
    tr: Transition,
) -> (r: bool)
    ensures
        r == (qualifying(*reg, events@, a, b, tr).len() > 0),
{
    let mut i: usize = 0;
    while i < events.len()
        invariant
            i <= events.len(),
            qualifying(*reg, events@.subrange(0, i as int), a, b, tr).len() == 0,
        decreases events.len() - i,
    {
        proof {
            assert(events@.subrange(0, i + 1).drop_last() =~= events@.subrange(0, i as int));
        }
        if pair_for(reg, &events[i], a, b, tr).is_some() {
            proof {
                lemma_qualifying_prefix_len(*reg, events@, i + 1, a, b, tr);
                assert(events@.subrange(0, events.len() as int) =~= events@);
            }
            return true;
        }
        i = i + 1;
    }
    assert(events@.subrange(0, events.len() as int) =~= events@);
    false
}

/// A longer prefix of events never yields fewer pairs.
proof fn lemma_qualifying_prefix_len(
    reg: Registry,
    evs: Seq<ContactEvent>,
    n: int,
    a: Tag,
    b: Tag,
    tr: Transition,
)
    requires
        0 <= n <= evs.len(),
    ensures
        qualifying(reg, evs.subrange(0, n), a, b, tr).len() <= qualifying(
            reg,
            evs,
            a,
            b,
            tr,
        ).len(),
    decreases evs.len() - n,
{
    if n < evs.len() {
        lemma_qualifying_prefix_len(reg, evs, n + 1, a, b, tr);
        assert(evs.subrange(0, n + 1).drop_last() =~= evs.subrange(0, n));
    } else {
        assert(evs.subrange(0, n) =~= evs);
    }
}

/// Whether some event of `evs` has transition `tr` and joins `x` and `y`, in
/// either order.
pub open spec fn reported(evs: Seq<ContactEvent>, x: Entity, y: Entity, tr: Transition) -> bool {
    exists|i: int|
        0 <= i < evs.len() && #[trigger] evs[i].transition == tr && ((evs[i].first == x
            && evs[i].second == y) || (evs[i].first == y && evs[i].second == x))
}

/// For any batch of events, each pair that the query `(a, b, tr)` yields has
/// a live entity holding `a` first and a live entity holding `b` second, and
/// comes from an event of transition `tr` between the two, whichever of them
/// that event named first.
pub proof fn lemma_pairs_hold_their_tags(
    reg: Registry,
    evs: Seq<ContactEvent>,
    a: Tag,
    b: Tag,
    tr: Transition,
)
    ensures
        forall|k: int|
            0 <= k < qualifying(reg, evs, a, b, tr).len() ==> {
                let p = #[trigger] qualifying(reg, evs, a, b, tr)[k];
                &&& reg.holds(p.0, a)
                &&& reg.holds(p.1, b)
                &&& reported(evs, p.0, p.1, tr)
            },
    decreases evs.len(),
{
    if evs.len() > 0 {
        let rest = evs.drop_last();
        lemma_pairs_hold_their_tags(reg, rest, a, b, tr);
        let q = qualifying(reg, evs, a, b, tr);
        let qr = qualifying(reg, rest, a, b, tr);
        assert forall|k: int| 0 <= k < q.len() implies {
            let p = #[trigger] q[k];
            &&& reg.holds(p.0, a)
            &&& reg.holds(p.1, b)
            &&& reported(evs, p.0, p.1, tr)
        } by {
            if k < qr.len() {
                let p = qr[k];
                let i = choose|i: int|
                    0 <= i < rest.len() && #[trigger] rest[i].transition == tr && ((
                    rest[i].first == p.0 && rest[i].second == p.1) || (rest[i].first == p.1
                        && rest[i].second == p.0));
                assert(evs[i] == rest[i]);
            } else {
                let last = evs.len() - 1;
                assert(evs[last].transition == tr);
            }
        }
    }
}

} // verus!
