//! Replies (confirmations) and what the coordinator reads out of them.
use vstd::prelude::*;
use crate::number::{i32_of, parse_i32};

verus! {

/// One key/value pair of an event.
pub struct Attribute {
    pub key: String,
    pub value: String,
}

/// One event record of a reply: its type and its ordered attributes.
pub struct Event {
    pub ty: String,
    pub attributes: Vec<Attribute>,
}

/// A reply delivered for an earlier request: the tag that the request
/// carried, and the events that executing it emitted.
pub struct Reply {
    pub id: u64,
    pub events: Vec<Event>,
}

pub type AttributeView = (Seq<char>, Seq<char>);

pub type EventView = (Seq<char>, Seq<AttributeView>);

impl View for Attribute {
    type V = AttributeView;

    open spec fn view(&self) -> AttributeView {
        (self.key@, self.value@)
    }
}

impl View for Event {
    type V = EventView;

    open spec fn view(&self) -> EventView {
        (self.ty@, self.attributes@.map_values(|a: Attribute| a@))
    }
}

impl View for Reply {
    type V = (u64, Seq<EventView>);

    open spec fn view(&self) -> (u64, Seq<EventView>) {
        (self.id, self.events@.map_values(|e: Event| e@))
    }
}

/// Why a reply could not be applied to the registry.
#[derive(Debug, PartialEq, Eq, Structural)]
pub enum ReplyError {
    /// The reply carried a tag that no request uses.
    UnknownReplyId { id: u64 },
    /// No event of the reply carries the fact looked for.
    NoMatchingEvent,
    /// The reported value is not a decimal `i32`.
    InvalidNumber,
    /// The reply names a child that the registry does not hold.
    NotFound,
    /// Incrementing would leave the range of `i32`.
    Overflow,
}

/// Which fact an event scan looks for.
#[derive(Clone, Copy, Debug, PartialEq, Eq, Structural)]
pub enum Marker {
    /// The child's address: a `wasm` event whose first attribute has key
    /// `_contract_addr`; the fact is that attribute's value.
    Address,
    /// A reset's outcome: a `wasm` event of exactly three attributes whose
    /// second value is `reset`; the fact is the third value.
    Reset,
}

pub open spec fn marks(m: Marker, e: EventView) -> bool {
    &&& e.0 == "wasm"@
    &&& match m {
        Marker::Address => e.1.len() >= 1 && e.1[0].0 == "_contract_addr"@,
        Marker::Reset => e.1.len() == 3 && e.1[1].1 == "reset"@,
    }
}

/// The fact that a marked event carries.
pub open spec fn fact_of(m: Marker, e: EventView) -> Seq<char> {
    match m {
        Marker::Address => e.1[0].1,
        Marker::Reset => e.1[2].1,
    }
}

/// The facts of all marked events, joined in order.
pub open spec fn joined_facts(m: Marker, events: Seq<EventView>) -> Seq<char>
    decreases events.len(),
{
    if events.len() == 0 {
        Seq::empty()
    } else {
        let e = events.last();
        joined_facts(m, events.drop_last()) + if marks(m, e) {
            fact_of(m, e)
        } else {
            Seq::empty()
        }
    }
}

pub open spec fn any_marked(m: Marker, events: Seq<EventView>) -> bool {
    exists|i: int| 0 <= i < events.len() && marks(m, #[trigger] events[i])
}

/// The address a reply reports: the joined address facts, where one exists.
pub open spec fn reported_address(events: Seq<EventView>) -> Result<Seq<char>, ReplyError> {
    if any_marked(Marker::Address, events) {
        Ok(joined_facts(Marker::Address, events))
    } else {
        Err(ReplyError::NoMatchingEvent)
    }
}

/// The value a reset reply reports: the joined reset facts read as an `i32`.
pub open spec fn reported_count(events: Seq<EventView>) -> Result<i32, ReplyError> {
    if !any_marked(Marker::Reset, events) {
        Err(ReplyError::NoMatchingEvent)
    } else {
        match i32_of(joined_facts(Marker::Reset, events)) {
            Some(v) => Ok(v),
            None => Err(ReplyError::InvalidNumber),
        }
    }
}

/// True iff the two strings hold the same characters.
pub fn text_eq(a: &str, b: &str) -> (r: bool)
    ensures
        r == (a@ == b@),
{
    let n = a.unicode_len();
    if n != b.unicode_len() {
        return false;
    }
    let mut i: usize = 0;
    while i < n
        invariant
            n == a@.len(),
            n == b@.len(),
            i <= n,
            forall|k: int| 0 <= k < i ==> a@[k] == b@[k],
        decreases n - i,
    {
        if a.get_char(i) != b.get_char(i) {
            return false;
        }
        i = i + 1;
    }
    assert(a@ =~= b@);
    true
}

/// True iff the event is one that `m` looks for.
pub fn is_marked(m: Marker, e: &Event) -> (r: bool)
    ensures
        r == marks(m, e@),
{
    if !text_eq(e.ty.as_str(), "wasm") {
        return false;
    }
    match m {
        Marker::Address => e.attributes.len() >= 1 && text_eq(
            e.attributes[0].key.as_str(),
            "_contract_addr",
        ),
        Marker::Reset => e.attributes.len() == 3 && text_eq(
            e.attributes[1].value.as_str(),
            "reset",
        ),
    }
}

/// Joins the facts of the events that `m` marks; the flag says whether
/// there was any.
pub fn collect_facts(m: Marker, events: &Vec<Event>) -> (r: (String, bool))
    ensures
        r.0@ == joined_facts(m, events@.map_values(|e: Event| e@)),
        r.1 == any_marked(m, events@.map_values(|e: Event| e@)),
{
    let ghost all = events@.map_values(|e: Event| e@);
    let mut text = String::new();
    let mut found = false;
    let mut i: usize = 0;
    while i < events.len()
        invariant
            i <= events.len(),
            all == events@.map_values(|e: Event| e@),
            text@ == joined_facts(m, all.subrange(0, i as int)),
            found == any_marked(m, all.subrange(0, i as int)),
        decreases events.len() - i,
    {
        let e = &events[i];
        let ghost prev = all.subrange(0, i as int);
        let ghost next = all.subrange(0, i as int + 1);
        assert(next.drop_last() =~= prev);
        assert(next.last() == e@);
        if is_marked(m, e) {
            let fact = match m {
                Marker::Address => e.attributes[0].value.as_str(),
                Marker::Reset => e.attributes[2].value.as_str(),
            };
            text.append(fact);
            found = true;
            assert(marks(m, next[i as int]));
        } else {
            assert(text@ =~= text@ + Seq::<char>::empty());
            assert(found == any_marked(m, next)) by {
                if any_marked(m, next) {
                    let k = choose|k: int| 0 <= k < next.len() && marks(m, #[trigger] next[k]);
                    assert(k < i ==> prev[k] == next[k]);
                }
                if any_marked(m, prev) {
                    let k = choose|k: int| 0 <= k < prev.len() && marks(m, #[trigger] prev[k]);
                    assert(prev[k] == next[k]);
                }
            }
        }
        i = i + 1;
    }
    assert(all.subrange(0, events.len() as int) =~= all);
    (text, found)
}

/// The address of the child that a reply speaks of.
pub fn get_contract_address(msg: &Reply) -> (r: Result<String, ReplyError>)
    ensures
        match r {
            Ok(a) => reported_address(msg@.1) == Ok::<Seq<char>, ReplyError>(a@),
            Err(e) => reported_address(msg@.1) == Err::<Seq<char>, ReplyError>(e),
        },
{
    let (text, found) = collect_facts(Marker::Address, &msg.events);
    if found {
        Ok(text)
    } else {
        Err(ReplyError::NoMatchingEvent)
    }
}

/// The value that a reset reply reports.
pub fn get_reset_count(msg: &Reply) -> (r: Result<i32, ReplyError>)
    ensures
        r == reported_count(msg@.1),
{
    let (text, found) = collect_facts(Marker::Reset, &msg.events);
    if !found {
        return Err(ReplyError::NoMatchingEvent);
    }
    match parse_i32(text.as_str()) {
        Some(v) => Ok(v),
        None => Err(ReplyError::InvalidNumber),
    }
}

} // verus!
