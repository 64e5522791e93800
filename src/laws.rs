//! Properties of the coordinator over whole runs of replies.
use vstd::prelude::*;
use crate::contract::{
    kind_of, reply_effect, EXECUTE_INCREMENT_REPLY_ID, EXECUTE_RESET_REPLY_ID,
    INSTANTIATE_REPLY_ID,
};
use crate::number::{decimal_text, lemma_decimal_text_parses};
use crate::reply::{joined_facts, marks, reported_address, reported_count, EventView, Marker, ReplyError};
use crate::order::{lemma_text_lt_total, lemma_text_lt_transitive, text_lt};
use crate::state::{has_key, is_slot, keys_ascending, lemma_insert, lemma_with_value, value_of, with_record, with_value, RecordView};

verus! {

/// The registry after each reply of `rs` was applied in turn, as `reply`
/// applies it: a reply that fails leaves the registry as it was.
pub open spec fn after_replies(s: Seq<RecordView>, rs: Seq<(u64, Seq<EventView>)>) -> Seq<RecordView>
    decreases rs.len(),
{
    if rs.len() == 0 {
        s
    } else {
        let prev = after_replies(s, rs.drop_last());
        match reply_effect(prev, rs.last().0, rs.last().1) {
            Ok((next, _)) => next,
            Err(_) => prev,
        }
    }
}

/// Every absent address has a slot among ascending addresses.
pub proof fn lemma_slot_exists(s: Seq<RecordView>, a: Seq<char>)
    requires
        keys_ascending(s),
        !has_key(s, a),
    ensures
        exists|p: int| is_slot(s, a, p),
    decreases s.len(),
{
    if s.len() == 0 {
        assert(is_slot(s, a, 0));
    } else {
        let n = s.len() - 1;
        let s0 = s.drop_last();
        assert(keys_ascending(s0)) by {
            assert forall|i: int, j: int| 0 <= i < j < s0.len() implies text_lt(#[trigger] s0[i].0, #[trigger] s0[j].0) by {
                assert(s0[i] == s[i] && s0[j] == s[j]);
            }
        }
        assert(!has_key(s0, a)) by {
            if has_key(s0, a) {
                let k = choose|k: int| 0 <= k < s0.len() && (#[trigger] s0[k]).0 == a;
                assert(s[k] == s0[k]);
            }
        }
        lemma_slot_exists(s0, a);
        let p0 = choose|p: int| is_slot(s0, a, p);
        assert(s[n].0 != a);
        lemma_text_lt_total(s[n].0, a);
        if text_lt(s[n].0, a) {
            assert forall|i: int| 0 <= i < s.len() implies text_lt(#[trigger] s[i].0, a) by {
                if i < n {
                    lemma_text_lt_transitive(s[i].0, s[n].0, a);
                }
            }
            assert(is_slot(s, a, s.len() as int));
        } else {
            assert forall|i: int| 0 <= i < p0 implies text_lt(#[trigger] s[i].0, a) by {
                assert(s[i] == s0[i]);
            }
            assert forall|i: int| p0 <= i < s.len() implies text_lt(a, #[trigger] s[i].0) by {
                if i < n {
                    assert(s[i] == s0[i]);
                }
            }
            assert(is_slot(s, a, p0));
        }
    }
}

/// Creating children whose replies report pairwise distinct addresses,
/// starting from an empty registry, yields exactly one record per creation,
/// each with value 0, listed in ascending address order.
pub proof fn lemma_creates_count(rs: Seq<(u64, Seq<EventView>)>, addrs: Seq<Seq<char>>)
    requires
        rs.len() == addrs.len(),
        forall|i: int| 0 <= i < rs.len() ==> (#[trigger] rs[i]).0 == INSTANTIATE_REPLY_ID,
        forall|i: int| 0 <= i < rs.len() ==> reported_address((#[trigger] rs[i]).1) == Ok::<Seq<char>, ReplyError>(addrs[i]),
        forall|i: int, j: int| 0 <= i < addrs.len() && 0 <= j < addrs.len() && i != j ==> (#[trigger] addrs[i]) != (#[trigger] addrs[j]),
    ensures
        after_replies(Seq::empty(), rs).len() == rs.len(),
        keys_ascending(after_replies(Seq::empty(), rs)),
        forall|i: int| 0 <= i < addrs.len() ==> has_key(after_replies(Seq::empty(), rs), #[trigger] addrs[i])
            && value_of(after_replies(Seq::empty(), rs), addrs[i]) == 0,
        forall|b: Seq<char>| has_key(after_replies(Seq::empty(), rs), b) ==> exists|i: int| 0 <= i < addrs.len() && addrs[i] == b,
    decreases rs.len(),
{
    if rs.len() > 0 {
        let n = rs.len() - 1;
        let rs0 = rs.drop_last();
        let addrs0 = addrs.drop_last();
        assert forall|i: int| 0 <= i < rs0.len() implies (#[trigger] rs0[i]).0 == INSTANTIATE_REPLY_ID
            && reported_address(rs0[i].1) == Ok::<Seq<char>, ReplyError>(addrs0[i]) by {
            assert(rs0[i] == rs[i]);
        }
        assert forall|i: int, j: int|
            0 <= i < addrs0.len() && 0 <= j < addrs0.len() && i != j implies (#[trigger] addrs0[i]) != (#[trigger] addrs0[j]) by {
            assert(addrs0[i] == addrs[i] && addrs0[j] == addrs[j]);
        }
        lemma_creates_count(rs0, addrs0);
        let prev = after_replies(Seq::empty(), rs0);
        let a = addrs[n];
        assert(rs.last() == rs[n]);
        assert(!has_key(prev, a)) by {
            if has_key(prev, a) {
                let i = choose|i: int| 0 <= i < addrs0.len() && addrs0[i] == a;
                assert(addrs[i] == addrs0[i]);
            }
        }
        lemma_slot_exists(prev, a);
        let p = choose|p: int| is_slot(prev, a, p);
        lemma_insert(prev, a, 0, p);
        let t = with_record(prev, a, 0);
        assert forall|i: int| 0 <= i < addrs.len() implies has_key(t, #[trigger] addrs[i]) && value_of(t, addrs[i]) == 0 by {
            if i < n {
                assert(addrs[i] == addrs0[i]);
                assert(has_key(prev, addrs0[i]));
            }
        }
        assert forall|b: Seq<char>| has_key(t, b) implies exists|i: int| 0 <= i < addrs.len() && addrs[i] == b by {
            if b == a {
                assert(addrs[n] == b);
            } else {
                assert(has_key(prev, b));
                let i = choose|i: int| 0 <= i < addrs0.len() && addrs0[i] == b;
                assert(addrs[i] == addrs0[i]);
            }
        }
    }
}

/// Creating children whose replies report addresses that ascend in creation
/// order, starting from an empty registry, lists exactly those addresses in
/// creation order, each with value 0.
pub proof fn lemma_creates_in_order(rs: Seq<(u64, Seq<EventView>)>, addrs: Seq<Seq<char>>)
    requires
        rs.len() == addrs.len(),
        forall|i: int| 0 <= i < rs.len() ==> (#[trigger] rs[i]).0 == INSTANTIATE_REPLY_ID,
        forall|i: int| 0 <= i < rs.len() ==> reported_address((#[trigger] rs[i]).1) == Ok::<Seq<char>, ReplyError>(addrs[i]),
        forall|i: int, j: int| 0 <= i < j < addrs.len() ==> text_lt(#[trigger] addrs[i], #[trigger] addrs[j]),
    ensures
        after_replies(Seq::empty(), rs) == addrs.map_values(|a: Seq<char>| (a, 0i32)),
        keys_ascending(after_replies(Seq::empty(), rs)),
    decreases rs.len(),
{
    let want = addrs.map_values(|a: Seq<char>| (a, 0i32));
    if rs.len() == 0 {
        assert(want =~= Seq::<RecordView>::empty());
    } else {
        let n = rs.len() - 1;
        let rs0 = rs.drop_last();
        let addrs0 = addrs.drop_last();
        assert forall|i: int| 0 <= i < rs0.len() implies (#[trigger] rs0[i]).0 == INSTANTIATE_REPLY_ID
            && reported_address(rs0[i].1) == Ok::<Seq<char>, ReplyError>(addrs0[i]) by {
            assert(rs0[i] == rs[i]);
        }
        assert forall|i: int, j: int| 0 <= i < j < addrs0.len() implies text_lt(#[trigger] addrs0[i], #[trigger] addrs0[j]) by {
            assert(addrs0[i] == addrs[i] && addrs0[j] == addrs[j]);
        }
        lemma_creates_in_order(rs0, addrs0);
        let prev = after_replies(Seq::empty(), rs0);
        let a = addrs[n];
        assert(rs.last() == rs[n]);
        assert forall|i: int| 0 <= i < prev.len() implies text_lt(#[trigger] prev[i].0, a) by {
            assert(prev[i].0 == addrs[i]);
        }
        assert(is_slot(prev, a, prev.len() as int));
        lemma_insert(prev, a, 0, prev.len() as int);
        assert(prev.insert(prev.len() as int, (a, 0i32)) =~= want);
    }
}

/// Each increment reply for a present child adds one to its value, so K of
/// them raise it by exactly K (from a fresh child: to K). Addresses, order
/// and the other records stay as they were.
pub proof fn lemma_increments_count(s: Seq<RecordView>, a: Seq<char>, rs: Seq<(u64, Seq<EventView>)>)
    requires
        keys_ascending(s),
        has_key(s, a),
        value_of(s, a) + rs.len() <= i32::MAX,
        forall|i: int| 0 <= i < rs.len() ==> (#[trigger] rs[i]).0 == EXECUTE_INCREMENT_REPLY_ID,
        forall|i: int| 0 <= i < rs.len() ==> reported_address((#[trigger] rs[i]).1) == Ok::<Seq<char>, ReplyError>(a),
    ensures
        keys_ascending(after_replies(s, rs)),
        has_key(after_replies(s, rs), a),
        value_of(after_replies(s, rs), a) == value_of(s, a) + rs.len(),
        after_replies(s, rs).len() == s.len(),
        forall|i: int| 0 <= i < s.len() && s[i].0 != a ==> (#[trigger] after_replies(s, rs)[i]) == s[i],
    decreases rs.len(),
{
    if rs.len() > 0 {
        let n = rs.len() - 1;
        let rs0 = rs.drop_last();
        assert forall|i: int| 0 <= i < rs0.len() implies (#[trigger] rs0[i]).0 == EXECUTE_INCREMENT_REPLY_ID
            && reported_address(rs0[i].1) == Ok::<Seq<char>, ReplyError>(a) by {
            assert(rs0[i] == rs[i]);
        }
        lemma_increments_count(s, a, rs0);
        let prev = after_replies(s, rs0);
        assert(rs.last() == rs[n]);
        let v = (value_of(prev, a) + 1) as i32;
        lemma_with_value(prev, a, v);
        let t = with_value(prev, a, v);
        assert forall|i: int| 0 <= i < s.len() && s[i].0 != a implies (#[trigger] after_replies(s, rs)[i]) == s[i] by {
            assert(prev[i] == s[i]);
            assert(t[i] == prev[i]);
        }
    }
}

/// A reset reply for a present child sets its value to the reported one,
/// whatever it was before, and changes no other record.
pub proof fn lemma_reset_sets_value(s: Seq<RecordView>, a: Seq<char>, events: Seq<EventView>, v: i32)
    requires
        keys_ascending(s),
        has_key(s, a),
        reported_address(events) == Ok::<Seq<char>, ReplyError>(a),
        reported_count(events) == Ok::<i32, ReplyError>(v),
    ensures
        reply_effect(s, EXECUTE_RESET_REPLY_ID, events) matches Ok((t, rec)) && rec == (a, v) && value_of(t, a) == v
            && keys_ascending(t) && t.len() == s.len() && forall|i: int| 0 <= i < s.len() && s[i].0 != a ==> (#[trigger] t[i]) == s[i],
{
    lemma_with_value(s, a, v);
}

/// Applying the same reset reply twice leaves the registry as applying it
/// once: the value set does not depend on the value before.
pub proof fn lemma_reset_twice(s: Seq<RecordView>, events: Seq<EventView>)
    requires
        keys_ascending(s),
    ensures
        after_replies(s, seq![(EXECUTE_RESET_REPLY_ID, events), (EXECUTE_RESET_REPLY_ID, events)])
            == after_replies(s, seq![(EXECUTE_RESET_REPLY_ID, events)]),
{
    let r = (EXECUTE_RESET_REPLY_ID, events);
    let one = seq![r];
    let two = seq![r, r];
    assert(one.drop_last() =~= Seq::<(u64, Seq<EventView>)>::empty());
    assert(two.drop_last() =~= one);
    assert(after_replies(s, one.drop_last()) == s);
    let once = after_replies(s, one);
    if let (Ok(a), Ok(v)) = (reported_address(events), reported_count(events)) {
        if has_key(s, a) {
            lemma_with_value(s, a, v);
            assert(once == with_value(s, a, v));
            assert(with_value(once, a, v) =~= once);
        }
    }
}

/// A reply whose tag no request uses fails with `UnknownReplyId`, so the
/// registry stays as it was.
pub proof fn lemma_unknown_tag(s: Seq<RecordView>, id: u64, events: Seq<EventView>)
    requires
        kind_of(id) is None,
    ensures
        reply_effect(s, id, events) == Err::<(Seq<RecordView>, RecordView), ReplyError>(ReplyError::UnknownReplyId { id }),
        after_replies(s, seq![(id, events)]) == s,
{
    let rs = seq![(id, events)];
    assert(rs.drop_last() =~= Seq::<(u64, Seq<EventView>)>::empty());
    assert(rs.last() == (id, events));
    assert(after_replies(s, rs.drop_last()) == s);
}

/// A reply with one `wasm` event whose first attribute is
/// `_contract_addr = a` reports the address `a`.
pub proof fn lemma_address_round_trip(a: Seq<char>, rest: Seq<(Seq<char>, Seq<char>)>)
    ensures
        reported_address(seq![("wasm"@, seq![("_contract_addr"@, a)] + rest)]) == Ok::<Seq<char>, ReplyError>(a),
{
    let e: EventView = ("wasm"@, seq![("_contract_addr"@, a)] + rest);
    let events = seq![e];
    assert(e.1[0] == ("_contract_addr"@, a));
    assert(marks(Marker::Address, events[0]));
    assert(events.drop_last() =~= Seq::<EventView>::empty());
    assert(joined_facts(Marker::Address, events.drop_last()) == Seq::<char>::empty());
    assert(joined_facts(Marker::Address, events) =~= a);
}

/// A reply with one `wasm` event of three attributes whose second value is
/// `reset` and whose third value is the decimal text of `n` reports `n`.
pub proof fn lemma_reset_round_trip(
    first: (Seq<char>, Seq<char>),
    action_key: Seq<char>,
    count_key: Seq<char>,
    n: i32,
)
    ensures
        reported_count(seq![("wasm"@, seq![first, (action_key, "reset"@), (count_key, decimal_text(n as int))])])
            == Ok::<i32, ReplyError>(n),
{
    let t = decimal_text(n as int);
    lemma_decimal_text_parses(n);
    let e: EventView = ("wasm"@, seq![first, (action_key, "reset"@), (count_key, t)]);
    let events = seq![e];
    assert(marks(Marker::Reset, events[0]));
    assert(events.drop_last() =~= Seq::<EventView>::empty());
    assert(joined_facts(Marker::Reset, events.drop_last()) == Seq::<char>::empty());
    assert(joined_facts(Marker::Reset, events) =~= t);
}

} // verus!
