//! Child records and the registry that holds them.
use vstd::prelude::*;
use crate::order::{lemma_text_lt_irreflexive, lemma_text_lt_total, lemma_text_lt_transitive, text_less, text_lt};

verus! {

/// What the registry knows of one child: its address and the last value
/// that a reply reported.
pub struct State {
    pub count: i32,
    pub address: String,
}

/// A record as the contracts see it: address, then value.
pub type RecordView = (Seq<char>, i32);

impl View for State {
    type V = RecordView;

    open spec fn view(&self) -> RecordView {
        (self.address@, self.count)
    }
}

impl State {
    /// A copy of the record.
    pub fn duplicate(&self) -> (r: State)
        ensures
            r@ == self@,
    {
        State { count: self.count, address: self.address.clone() }
    }
}

/// True when some record of `s` has address `a`.
pub open spec fn has_key(s: Seq<RecordView>, a: Seq<char>) -> bool {
    exists|i: int| 0 <= i < s.len() && (#[trigger] s[i]).0 == a
}

/// No address occurs twice.
pub open spec fn keys_unique(s: Seq<RecordView>) -> bool {
    forall|i: int, j: int| 0 <= i < s.len() && 0 <= j < s.len() && i != j ==> (#[trigger] s[i]).0 != (#[trigger] s[j]).0
}

/// The value recorded under `a` (meaningful where `has_key(s, a)`).
pub open spec fn value_of(s: Seq<RecordView>, a: Seq<char>) -> i32 {
    s[choose|i: int| 0 <= i < s.len() && (#[trigger] s[i]).0 == a].1
}

/// `s` with the value under `a` replaced by `v`, everything else kept.
pub open spec fn with_value(s: Seq<RecordView>, a: Seq<char>, v: i32) -> Seq<RecordView> {
    Seq::new(s.len(), |i: int| if s[i].0 == a { (a, v) } else { s[i] })
}

/// Addresses strictly ascend (so none occurs twice).
pub open spec fn keys_ascending(s: Seq<RecordView>) -> bool {
    forall|i: int, j: int| 0 <= i < j < s.len() ==> text_lt(#[trigger] s[i].0, #[trigger] s[j].0)
}

/// `p` is where `a` belongs among the addresses of `s`: after every smaller
/// one and before every larger one.
pub open spec fn is_slot(s: Seq<RecordView>, a: Seq<char>, p: int) -> bool {
    &&& 0 <= p <= s.len()
    &&& forall|i: int| 0 <= i < p ==> text_lt(#[trigger] s[i].0, a)
    &&& forall|i: int| p <= i < s.len() ==> text_lt(a, #[trigger] s[i].0)
}

/// Saving the record `(a, v)`: overwrites the record under `a` where there is
/// one, else inserts it at its place in address order.
pub open spec fn with_record(s: Seq<RecordView>, a: Seq<char>, v: i32) -> Seq<RecordView> {
    if has_key(s, a) {
        with_value(s, a, v)
    } else {
        s.insert(choose|p: int| is_slot(s, a, p), (a, v))
    }
}

/// The mapping from child address to child record, in ascending address
/// order.
pub struct Registry {
    records: Vec<State>,
}

impl View for Registry {
    type V = Seq<RecordView>;

    closed spec fn view(&self) -> Seq<RecordView> {
        self.records@.map_values(|r: State| r@)
    }
}

impl Registry {
    pub open spec fn wf(&self) -> bool {
        keys_ascending(self@)
    }

    /// An empty registry.
    pub fn new() -> (r: Registry)
        ensures
            r.wf(),
            r@ == Seq::<RecordView>::empty(),
    {
        let r = Registry { records: Vec::new() };
        assert(r@ =~= Seq::<RecordView>::empty());
        r
    }

    /// The position of the record under `a`.
    fn position(&self, a: &String) -> (r: Option<usize>)
        requires
            self.wf(),
        ensures
            match r {
                Some(i) => i < self@.len() && self@[i as int].0 == a@,
                None => !has_key(self@, a@),
            },
    {
        let mut i: usize = 0;
        while i < self.records.len()
            invariant
                i <= self.records.len(),
                forall|k: int| 0 <= k < i ==> (#[trigger] self@[k]).0 != a@,
            decreases self.records.len() - i,
        {
            if self.records[i].address == *a {
                return Some(i);
            }
            i = i + 1;
        }
        None
    }

    /// True iff a record exists under `a`.
    pub fn has(&self, a: &String) -> (r: bool)
        requires
            self.wf(),
        ensures
            r == has_key(self@, a@),
    {
        self.position(a).is_some()
    }

    /// The record under `a`, if any.
    pub fn get(&self, a: &String) -> (r: Option<State>)
        requires
            self.wf(),
        ensures
            match r {
                Some(s) => has_key(self@, a@) && s@ == (a@, value_of(self@, a@)),
                None => !has_key(self@, a@),
            },
    {
        match self.position(a) {
            Some(i) => {
                proof {
                    lemma_ascending_unique(self@);
                    lemma_value_at(self@, a@, i as int);
                }
                Some(self.records[i].duplicate())
            },
            None => None,
        }
    }

    /// Replaces the value under `a` with `v`; false, and nothing changed,
    /// where there is no record under `a`.
    pub fn set_value(&mut self, a: &String, v: i32) -> (r: bool)
        requires
            old(self).wf(),
        ensures
            final(self).wf(),
            r == has_key(old(self)@, a@),
            r ==> final(self)@ == with_value(old(self)@, a@, v),
            r ==> value_of(final(self)@, a@) == v,
            !r ==> final(self)@ == old(self)@,
    {
        match self.position(a) {
            Some(i) => {
                self.overwrite(i, v);
                proof {
                    lemma_with_value(old(self)@, a@, v);
                }
                true
            },
            None => false,
        }
    }

    fn overwrite(&mut self, i: usize, v: i32)
        requires
            old(self).wf(),
            i < old(self)@.len(),
        ensures
            final(self).wf(),
            final(self)@ == with_value(old(self)@, old(self)@[i as int].0, v),
    {
        let ghost a = self@[i as int].0;
        proof {
            lemma_ascending_unique(self@);
        }
        let address = self.records[i].address.clone();
        self.records.set(i, State { count: v, address });
        assert(self@ =~= with_value(old(self)@, a, v));
        assert forall|j: int, k: int| 0 <= j < k < self@.len() implies text_lt(#[trigger] self@[j].0, #[trigger] self@[k].0) by {
            assert(self@[j].0 == old(self)@[j].0 && self@[k].0 == old(self)@[k].0);
        }
    }

    /// Saves `(a, v)`: overwrites the value where `a` is present, else
    /// inserts a new record at its place in address order.
    pub fn put(&mut self, a: String, v: i32)
        requires
            old(self).wf(),
        ensures
            final(self).wf(),
            final(self)@ == with_record(old(self)@, a@, v),
            has_key(final(self)@, a@),
            value_of(final(self)@, a@) == v,
    {
        let n = self.records.len();
        let mut i: usize = 0;
        while i < n
            invariant
                n == self@.len(),
                self.wf(),
                self@ == old(self)@,
                i <= n,
                forall|k: int| 0 <= k < i ==> text_lt(#[trigger] self@[k].0, a@),
            decreases n - i,
        {
            if !text_less(self.records[i].address.as_str(), a.as_str()) {
                self.place(i, a, v);
                return;
            }
            i = i + 1;
        }
        self.place(n, a, v);
    }

    /// Saves `(a, v)` given that `i` is the first position whose address
    /// does not sort before `a`.
    fn place(&mut self, i: usize, a: String, v: i32)
        requires
            old(self).wf(),
            i <= old(self)@.len(),
            forall|k: int| 0 <= k < i ==> text_lt(#[trigger] old(self)@[k].0, a@),
            i < old(self)@.len() ==> !text_lt(old(self)@[i as int].0, a@),
        ensures
            final(self).wf(),
            final(self)@ == with_record(old(self)@, a@, v),
            has_key(final(self)@, a@),
            value_of(final(self)@, a@) == v,
    {
        if i < self.records.len() && self.records[i].address == a {
            proof {
                lemma_ascending_unique(self@);
            }
            self.overwrite(i, v);
            proof {
                lemma_with_value(old(self)@, a@, v);
            }
        } else {
            let ghost s = self@;
            let ghost key = a@;
            proof {
                assert forall|k: int| i <= k < s.len() implies text_lt(key, #[trigger] s[k].0) by {
                    lemma_text_lt_total(key, s[i as int].0);
                    if k > i {
                        lemma_text_lt_transitive(key, s[i as int].0, s[k].0);
                    }
                }
                lemma_insert(s, key, v, i as int);
            }
            self.records.insert(i, State { count: v, address: a });
            assert(self@ =~= s.insert(i as int, (key, v)));
        }
    }

    /// Every record, in order, each beside its address.
    pub fn list_all(&self) -> (r: Vec<(String, State)>)
        ensures
            r@.len() == self@.len(),
            forall|i: int| 0 <= i < r@.len() ==> (#[trigger] r@[i]).0@ == self@[i].0 && r@[i].1@ == self@[i],
            self.wf() ==> forall|i: int, j: int| 0 <= i < j < r@.len() ==> text_lt(#[trigger] r@[i].0@, #[trigger] r@[j].0@),
    {
        let mut out: Vec<(String, State)> = Vec::new();
        let mut i: usize = 0;
        while i < self.records.len()
            invariant
                i <= self.records.len(),
                out@.len() == i,
                forall|k: int| 0 <= k < i ==> (#[trigger] out@[k]).0@ == self@[k].0 && out@[k].1@ == self@[k],
            decreases self.records.len() - i,
        {
            let rec = self.records[i].duplicate();
            out.push((self.records[i].address.clone(), rec));
            i = i + 1;
        }
        out
    }
}

/// Where unique keys hold, the record found at position `i` gives `value_of`.
pub proof fn lemma_value_at(s: Seq<RecordView>, a: Seq<char>, i: int)
    requires
        keys_unique(s),
        0 <= i < s.len(),
        s[i].0 == a,
    ensures
        has_key(s, a),
        value_of(s, a) == s[i].1,
{
    let j = choose|j: int| 0 <= j < s.len() && (#[trigger] s[j]).0 == a;
    assert(s[j].0 == a);
}

/// Setting the value under a present address keeps the addresses, their
/// order and every other record, and the new value is read back.
pub proof fn lemma_with_value(s: Seq<RecordView>, a: Seq<char>, v: i32)
    requires
        keys_ascending(s),
        has_key(s, a),
    ensures
        keys_ascending(with_value(s, a, v)),
        has_key(with_value(s, a, v), a),
        value_of(with_value(s, a, v), a) == v,
        with_value(s, a, v).len() == s.len(),
        forall|i: int| 0 <= i < s.len() ==> (#[trigger] with_value(s, a, v)[i]).0 == s[i].0,
        forall|i: int| 0 <= i < s.len() && s[i].0 != a ==> (#[trigger] with_value(s, a, v)[i]) == s[i],
{
    let t = with_value(s, a, v);
    lemma_ascending_unique(s);
    assert forall|i: int, j: int| 0 <= i < j < t.len() implies text_lt(#[trigger] t[i].0, #[trigger] t[j].0) by {
        assert(t[i].0 == s[i].0 && t[j].0 == s[j].0);
    }
    let i = choose|i: int| 0 <= i < s.len() && (#[trigger] s[i]).0 == a;
    assert(t[i].0 == a);
    let j = choose|j: int| 0 <= j < t.len() && (#[trigger] t[j]).0 == a;
    assert(t[j].0 == s[j].0);
}

/// Ascending addresses are unique.
pub proof fn lemma_ascending_unique(s: Seq<RecordView>)
    requires
        keys_ascending(s),
    ensures
        keys_unique(s),
{
    assert forall|i: int, j: int| 0 <= i < s.len() && 0 <= j < s.len() && i != j implies (#[trigger] s[i]).0
        != (#[trigger] s[j]).0 by {
        if i < j {
            assert(text_lt(s[i].0, s[j].0));
        } else {
            assert(text_lt(s[j].0, s[i].0));
        }
        lemma_text_lt_irreflexive(s[i].0);
    }
}

/// Inserting an absent address at its slot: the slot is the one that
/// `with_record` picks, addresses still ascend, the new record is read
/// back, and every other address keeps its record.
pub proof fn lemma_insert(s: Seq<RecordView>, a: Seq<char>, v: i32, p: int)
    requires
        keys_ascending(s),
        is_slot(s, a, p),
    ensures
        !has_key(s, a),
        with_record(s, a, v) == s.insert(p, (a, v)),
        keys_ascending(with_record(s, a, v)),
        with_record(s, a, v).len() == s.len() + 1,
        has_key(with_record(s, a, v), a),
        value_of(with_record(s, a, v), a) == v,
        forall|b: Seq<char>| b != a ==> (has_key(with_record(s, a, v), b) <==> has_key(s, b)),
        forall|b: Seq<char>| b != a && has_key(s, b) ==> value_of(with_record(s, a, v), b) == value_of(s, b),
{
    lemma_text_lt_irreflexive(a);
    if has_key(s, a) {
        let k = choose|k: int| 0 <= k < s.len() && (#[trigger] s[k]).0 == a;
        if k < p {
            assert(text_lt(s[k].0, a));
        } else {
            assert(text_lt(a, s[k].0));
        }
    }
    let q = choose|q: int| is_slot(s, a, q);
    if q < p {
        assert(text_lt(a, s[q].0));
        assert(text_lt(s[q].0, a));
        lemma_text_lt_transitive(a, s[q].0, a);
    } else if q > p {
        assert(text_lt(a, s[p].0));
        assert(text_lt(s[p].0, a));
        lemma_text_lt_transitive(a, s[p].0, a);
    }
    let t = s.insert(p, (a, v));
    assert forall|i: int, j: int| 0 <= i < j < t.len() implies text_lt(#[trigger] t[i].0, #[trigger] t[j].0) by {
        if j < p {
            assert(t[i] == s[i] && t[j] == s[j]);
        } else if j == p {
            assert(t[i] == s[i]);
        } else if i == p {
            assert(t[j] == s[j - 1]);
        } else if i < p {
            assert(t[i] == s[i] && t[j] == s[j - 1]);
        } else {
            assert(t[i] == s[i - 1] && t[j] == s[j - 1]);
        }
    }
    lemma_ascending_unique(t);
    lemma_ascending_unique(s);
    assert(t[p].0 == a);
    lemma_value_at(t, a, p);
    assert forall|b: Seq<char>| b != a implies (has_key(t, b) <==> has_key(s, b)) by {
        if has_key(t, b) {
            let k = choose|k: int| 0 <= k < t.len() && (#[trigger] t[k]).0 == b;
            if k < p {
                assert(s[k] == t[k]);
            } else {
                assert(s[k - 1] == t[k]);
            }
        }
        if has_key(s, b) {
            let k = choose|k: int| 0 <= k < s.len() && (#[trigger] s[k]).0 == b;
            if k < p {
                assert(s[k] == t[k]);
            } else {
                assert(s[k] == t[k + 1]);
            }
        }
    }
    assert forall|b: Seq<char>| b != a && has_key(s, b) implies value_of(t, b) == value_of(s, b) by {
        let k = choose|k: int| 0 <= k < s.len() && (#[trigger] s[k]).0 == b;
        lemma_value_at(s, b, k);
        if k < p {
            assert(s[k] == t[k]);
            lemma_value_at(t, b, k);
        } else {
            assert(s[k] == t[k + 1]);
            lemma_value_at(t, b, k + 1);
        }
    }
}

} // verus!
