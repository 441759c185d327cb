//! Write-path events and their subscription keys.
//!
//! A subscription key names an event type and optionally a database and
//! a table; a missing field is a wildcard. Emitting an event addresses
//! the three keys that can carry it: table-exact, database-wide and
//! global.

use vstd::prelude::*;

use crate::json::JsonValue;
use crate::sys::now_seconds;

verus! {

/// What kind of write an event reports.
#[derive(Clone, Copy, Debug, PartialEq, Eq, Hash, Structural)]
pub enum EventType {
    TableUpdate,
    TablePersist,
    TableQuery,
}

/// One event: the kind of write, where it happened, what it carried,
/// and when.
pub struct Event {
    pub event_type: EventType,
    pub database: String,
    pub table: String,
    pub data: Option<JsonValue>,
    pub timestamp: u64,
}

/// A subscription key; a missing field is a wildcard.
#[derive(Clone, Debug, PartialEq, Eq, Hash)]
pub struct EventSubscription {
    pub event_type: EventType,
    pub database: Option<String>,
    pub table: Option<String>,
}

impl Event {
    /// A fresh event stamped with the present time.
    pub fn new(event_type: EventType, database: &str, table: &str, data: Option<JsonValue>) -> (r:
        Event)
        ensures
            r.event_type == event_type,
            r.database@ == database@,
            r.table@ == table@,
            r.data == data,
    {
        Event {
            event_type,
            database: database.to_owned(),
            table: table.to_owned(),
            data,
            timestamp: now_seconds(),
        }
    }
}

/// Whether an event falls under a subscription key: the type is the
/// same, and each named field is the event's.
pub open spec fn sub_matches(sub: EventSubscription, ev: Event) -> bool {
    &&& sub.event_type == ev.event_type
    &&& match sub.database {
        Option::Some(d) => d@ == ev.database@,
        Option::None => true,
    }
    &&& match sub.table {
        Option::Some(t) => t@ == ev.table@,
        Option::None => true,
    }
}

/// A key names no table without naming its database.
pub open spec fn sub_shaped(sub: EventSubscription) -> bool {
    sub.table is Some ==> sub.database is Some
}

/// The three keys an event is sent to, most specific first: table-exact,
/// database-wide, global.
pub fn candidate_subscriptions(ev: &Event) -> (r: Vec<EventSubscription>)
    ensures
        r@.len() == 3,
        r@[0].event_type == ev.event_type && r@[0].database is Some && r@[0].database->0@
            == ev.database@ && r@[0].table is Some && r@[0].table->0@ == ev.table@,
        r@[1].event_type == ev.event_type && r@[1].database is Some && r@[1].database->0@
            == ev.database@ && r@[1].table is None,
        r@[2].event_type == ev.event_type && r@[2].database is None && r@[2].table is None,
        forall|i: int| 0 <= i < 3 ==> sub_matches(#[trigger] r@[i], *ev) && sub_shaped(r@[i]),
{
    let mut out: Vec<EventSubscription> = Vec::new();
    out.push(
        EventSubscription {
            event_type: ev.event_type,
            database: Some(ev.database.clone()),
            table: Some(ev.table.clone()),
        },
    );
    out.push(
        EventSubscription {
            event_type: ev.event_type,
            database: Some(ev.database.clone()),
            table: None,
        },
    );
    out.push(EventSubscription { event_type: ev.event_type, database: None, table: None });
    out
}

/// Sending to the three candidate keys reaches exactly the well-shaped
/// keys that the event falls under: a well-shaped subscription matches
/// the event if and only if its texts agree with one of the candidates.
pub proof fn lemma_candidates_cover(ev: Event, sub: EventSubscription, cands: Seq<EventSubscription>)
    requires
        cands.len() == 3,
        cands[0].event_type == ev.event_type && cands[0].database is Some && cands[0].database->0@
            == ev.database@ && cands[0].table is Some && cands[0].table->0@ == ev.table@,
        cands[1].event_type == ev.event_type && cands[1].database is Some && cands[1].database->0@
            == ev.database@ && cands[1].table is None,
        cands[2].event_type == ev.event_type && cands[2].database is None && cands[2].table
            is None,
        sub_shaped(sub),
    ensures
        sub_matches(sub, ev) <==> exists|i: int|
            0 <= i < 3 && sub_like(sub, #[trigger] cands[i]),
{
    if sub_matches(sub, ev) {
        if sub.database is Some && sub.table is Some {
            assert(sub_like(sub, cands[0]));
        } else if sub.database is Some {
            assert(sub_like(sub, cands[1]));
        } else {
            assert(sub_like(sub, cands[2]));
        }
    }
}

/// Two keys with the same type and the same texts.
pub open spec fn sub_like(a: EventSubscription, b: EventSubscription) -> bool {
    &&& a.event_type == b.event_type
    &&& match (a.database, b.database) {
        (Option::Some(x), Option::Some(y)) => x@ == y@,
        (Option::None, Option::None) => true,
        _ => false,
    }
    &&& match (a.table, b.table) {
        (Option::Some(x), Option::Some(y)) => x@ == y@,
        (Option::None, Option::None) => true,
        _ => false,
    }
}

} // verus!
