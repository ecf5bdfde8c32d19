//! One ordered namespace: keys in byte-lexicographic order, each with a value
//! or a tombstone.

use crate::keys::{
    in_range, lemma_lex_asymmetric, lemma_lex_irreflexive, lemma_lex_transitive, lex_le, lex_lt,
    rank, Rank,
};
use vstd::prelude::*;
use vstd::slice::slice_to_vec;

verus! {

/// A key with its value; `None` marks a tombstone.
pub type Slot = (Seq<u8>, Option<Seq<u8>>);

/// A key with its live value.
pub type Pair = (Seq<u8>, Seq<u8>);

/// The direction of a range iteration.
#[derive(Clone, Copy, Debug)]
pub enum IterOrder {
    Asc,
    Desc,
}

pub open spec fn value_view(v: Option<Vec<u8>>) -> Option<Seq<u8>> {
    match v {
        Some(bytes) => Some(bytes@),
        None => None,
    }
}

pub open spec fn slot_view(e: (Vec<u8>, Option<Vec<u8>>)) -> Slot {
    (e.0@, value_view(e.1))
}

pub open spec fn slots_view(v: Seq<(Vec<u8>, Option<Vec<u8>>)>) -> Seq<Slot> {
    Seq::new(v.len(), |i: int| slot_view(v[i]))
}

pub open spec fn pair_view(p: (Vec<u8>, Vec<u8>)) -> Pair {
    (p.0@, p.1@)
}

pub open spec fn pairs_view(v: Seq<(Vec<u8>, Vec<u8>)>) -> Seq<Pair> {
    Seq::new(v.len(), |i: int| pair_view(v[i]))
}

pub open spec fn bounds_view(b: Option<(&[u8], &[u8])>) -> Option<(Seq<u8>, Seq<u8>)> {
    match b {
        Some((lower, upper)) => Some((lower@, upper@)),
        None => None,
    }
}

/// The keys of `s` strictly increase.
pub open spec fn ascending(s: Seq<Slot>) -> bool {
    forall|i: int, j: int| #![trigger s[i], s[j]] 0 <= i < j < s.len() ==> lex_lt(s[i].0, s[j].0)
}

pub open spec fn has_key(s: Seq<Slot>, k: Seq<u8>) -> bool {
    exists|i: int| #![trigger s[i]] 0 <= i < s.len() && s[i].0 == k
}

pub open spec fn index_of(s: Seq<Slot>, k: Seq<u8>) -> int {
    choose|i: int| #![trigger s[i]] 0 <= i < s.len() && s[i].0 == k
}

/// The mapping that a sequence of slots stands for.
pub open spec fn slot_map(s: Seq<Slot>) -> Map<Seq<u8>, Option<Seq<u8>>> {
    Map::new(|k: Seq<u8>| has_key(s, k), |k: Seq<u8>| s[index_of(s, k)].1)
}

/// What a read of `k` returns: the value, unless `k` is absent or tombstoned.
pub open spec fn live(m: Map<Seq<u8>, Option<Seq<u8>>>, k: Seq<u8>) -> Option<Seq<u8>> {
    if m.contains_key(k) {
        m[k]
    } else {
        None
    }
}

/// The mapping after the writes of `batch`, applied first to last.
pub open spec fn apply_batch(m: Map<Seq<u8>, Option<Seq<u8>>>, batch: Seq<Slot>) -> Map<
    Seq<u8>,
    Option<Seq<u8>>,
>
    decreases batch.len(),
{
    if batch.len() == 0 {
        m
    } else {
        apply_batch(m, batch.drop_last()).insert(batch.last().0, batch.last().1)
    }
}

/// `k` lies within the bounds; without bounds every key does.
pub open spec fn in_bounds(k: Seq<u8>, bounds: Option<(Seq<u8>, Seq<u8>)>) -> bool {
    match bounds {
        Some((lower, upper)) => in_range(k, lower, upper),
        None => true,
    }
}

/// The slot is live and its key lies within the bounds.
pub open spec fn selected(e: Slot, bounds: Option<(Seq<u8>, Seq<u8>)>) -> bool {
    e.1 is Some && in_bounds(e.0, bounds)
}

pub open spec fn pair_of(e: Slot) -> Pair {
    (
        e.0,
        match e.1 {
            Some(v) => v,
            None => Seq::empty(),
        },
    )
}

/// The live pairs of `s` within the bounds, in the order of `s`.
pub open spec fn listing(s: Seq<Slot>, bounds: Option<(Seq<u8>, Seq<u8>)>) -> Seq<Pair> {
    s.filter(|e: Slot| selected(e, bounds)).map_values(|e: Slot| pair_of(e))
}

/// The listing in the direction asked for.
pub open spec fn directed_listing(
    s: Seq<Slot>,
    bounds: Option<(Seq<u8>, Seq<u8>)>,
    order: IterOrder,
) -> Seq<Pair> {
    match order {
        IterOrder::Asc => listing(s, bounds),
        IterOrder::Desc => listing(s, bounds).reverse(),
    }
}

/// In an ascending sequence every slot is the one its key maps to.
pub proof fn lemma_slot_at(s: Seq<Slot>, i: int)
    requires
        ascending(s),
        0 <= i < s.len(),
    ensures
        slot_map(s).contains_key(s[i].0),
        slot_map(s)[s[i].0] == s[i].1,
{
    let k = s[i].0;
    assert(has_key(s, k));
    let j = index_of(s, k);
    lemma_lex_irreflexive(k);
    if j < i {
        assert(lex_lt(s[j].0, s[i].0));
    } else if i < j {
        assert(lex_lt(s[i].0, s[j].0));
    }
}

/// Writing `(k, v)` at position `pos`, where every key before is smaller and
/// every key from there on is larger, keeps the order and maps `k` to `v`.
pub(crate) proof fn lemma_insert_slot(s: Seq<Slot>, pos: int, k: Seq<u8>, v: Option<Seq<u8>>)
    requires
        ascending(s),
        0 <= pos <= s.len(),
        forall|j: int| 0 <= j < pos ==> lex_lt(#[trigger] s[j].0, k),
        forall|j: int| pos <= j < s.len() ==> lex_lt(k, #[trigger] s[j].0),
    ensures
        ascending(s.insert(pos, (k, v))),
        slot_map(s.insert(pos, (k, v))) == slot_map(s).insert(k, v),
{
    let t = s.insert(pos, (k, v));
    assert forall|i: int, j: int| #![trigger t[i], t[j]] 0 <= i < j < t.len() implies lex_lt(
        t[i].0,
        t[j].0,
    ) by {
        if j < pos {
            assert(t[i] == s[i] && t[j] == s[j]);
        } else if j == pos {
            assert(t[i] == s[i]);
        } else if i < pos {
            assert(t[i] == s[i] && t[j] == s[j - 1]);
            if j - 1 == pos {
                lemma_lex_transitive(s[i].0, k, s[j - 1].0);
            }
        } else if i == pos {
            assert(t[j] == s[j - 1]);
        } else {
            assert(t[i] == s[i - 1] && t[j] == s[j - 1]);
        }
    }
    let m = slot_map(s).insert(k, v);
    assert forall|x: Seq<u8>| slot_map(t).contains_key(x) <==> m.contains_key(x) by {
        if has_key(t, x) {
            let i = index_of(t, x);
            if i < pos {
                assert(s[i].0 == x);
            } else if i > pos {
                assert(s[i - 1].0 == x);
            }
        }
        if has_key(s, x) {
            let i = index_of(s, x);
            if i < pos {
                assert(t[i].0 == x);
            } else {
                assert(t[i + 1].0 == x);
            }
        }
        if x == k {
            assert(t[pos].0 == x);
        }
    }
    assert forall|x: Seq<u8>| slot_map(t).contains_key(x) implies slot_map(t)[x] == m[x] by {
        let i = index_of(t, x);
        lemma_slot_at(t, i);
        if i < pos {
            assert(t[i] == s[i]);
            lemma_slot_at(s, i);
            lemma_lex_asymmetric(s[i].0, k);
        } else if i > pos {
            assert(t[i] == s[i - 1]);
            lemma_slot_at(s, i - 1);
            lemma_lex_asymmetric(k, s[i - 1].0);
        }
    }
    assert(slot_map(t) =~= m);
}

/// Replacing the value at `pos` keeps the order and maps that key to `v`.
proof fn lemma_update_slot(s: Seq<Slot>, pos: int, v: Option<Seq<u8>>)
    requires
        ascending(s),
        0 <= pos < s.len(),
    ensures
        ascending(s.update(pos, (s[pos].0, v))),
        slot_map(s.update(pos, (s[pos].0, v))) == slot_map(s).insert(s[pos].0, v),
{
    let k = s[pos].0;
    let t = s.update(pos, (k, v));
    assert forall|i: int, j: int| #![trigger t[i], t[j]] 0 <= i < j < t.len() implies lex_lt(
        t[i].0,
        t[j].0,
    ) by {
        assert(t[i].0 == s[i].0 && t[j].0 == s[j].0);
    }
    let m = slot_map(s).insert(k, v);
    assert forall|x: Seq<u8>| slot_map(t).contains_key(x) <==> m.contains_key(x) by {
        if has_key(t, x) {
            let i = index_of(t, x);
            assert(s[i].0 == x);
        }
        if has_key(s, x) {
            let i = index_of(s, x);
            assert(t[i].0 == x);
        }
        if x == k {
            assert(t[pos].0 == x);
        }
    }
    assert forall|x: Seq<u8>| slot_map(t).contains_key(x) implies slot_map(t)[x] == m[x] by {
        let i = index_of(t, x);
        lemma_slot_at(t, i);
        if i != pos {
            assert(t[i] == s[i]);
            lemma_slot_at(s, i);
            lemma_slot_at(s, pos);
            if i < pos {
                lemma_lex_asymmetric(s[i].0, s[pos].0);
            } else {
                lemma_lex_asymmetric(s[pos].0, s[i].0);
            }
        }
    }
    assert(slot_map(t) =~= m);
}

/// An ordered mapping from keys to values or tombstones.
pub struct Namespace {
    slots: Vec<(Vec<u8>, Option<Vec<u8>>)>,
}

impl View for Namespace {
    type V = Map<Seq<u8>, Option<Seq<u8>>>;

    /// The mapping from each key that holds a slot to its value or tombstone.
    open spec fn view(&self) -> Map<Seq<u8>, Option<Seq<u8>>> {
        slot_map(self.ordered())
    }
}

impl Namespace {
    /// The slots in key order.
    pub closed spec fn ordered(&self) -> Seq<Slot> {
        slots_view(self.slots@)
    }

    /// The keys strictly increase, so no key holds two slots.
    pub open spec fn wf(&self) -> bool {
        ascending(self.ordered())
    }

    /// A namespace without slots.
    pub fn new() -> (r: Namespace)
        ensures
            r.wf(),
            r.ordered() == Seq::<Slot>::empty(),
            r@ == Map::<Seq<u8>, Option<Seq<u8>>>::empty(),
    {
        let r = Namespace { slots: Vec::new() };
        proof {
            assert(r.ordered() =~= Seq::<Slot>::empty());
            assert(r@ =~= Map::<Seq<u8>, Option<Seq<u8>>>::empty());
        }
        r
    }

    /// Finds the slot of `key`: `Ok` with its position, or `Err` with the
    /// position at which it would stand.
    fn search(&self, key: &[u8]) -> (r: Result<usize, usize>)
        requires
            self.wf(),
        ensures
            match r {
                Ok(i) => i < self.ordered().len() && self.ordered()[i as int].0 == key@,
                Err(i) => {
                    &&& i <= self.ordered().len()
                    &&& forall|j: int| 0 <= j < i ==> lex_lt(#[trigger] self.ordered()[j].0, key@)
                    &&& forall|j: int|
                        i <= j < self.ordered().len() ==> lex_lt(
                            key@,
                            #[trigger] self.ordered()[j].0,
                        )
                },
            },
    {
        let ghost s = self.ordered();
        let mut lo: usize = 0;
        let mut hi: usize = self.slots.len();
        while lo < hi
            invariant
                s == self.ordered(),
                ascending(s),
                s.len() == self.slots.len(),
                lo <= hi <= s.len(),
                forall|j: int| 0 <= j < lo ==> lex_lt(#[trigger] s[j].0, key@),
                forall|j: int| hi <= j < s.len() ==> lex_lt(key@, #[trigger] s[j].0),
            decreases hi - lo,
        {
            let mid: usize = lo + (hi - lo) / 2;
            assert(s[mid as int].0 == self.slots[mid as int].0@);
            match rank(self.slots[mid].0.as_slice(), key) {
                Rank::Equal => {
                    return Ok(mid);
                },
                Rank::Less => {
                    proof {
                        assert forall|j: int| 0 <= j < mid + 1 implies lex_lt(
                            #[trigger] s[j].0,
                            key@,
                        ) by {
                            if j < mid {
                                assert(lex_lt(s[j].0, s[mid as int].0));
                                lemma_lex_transitive(s[j].0, s[mid as int].0, key@);
                            }
                        }
                    }
                    lo = mid + 1;
                },
                Rank::Greater => {
                    proof {
                        assert forall|j: int| mid <= j < s.len() implies lex_lt(
                            key@,
                            #[trigger] s[j].0,
                        ) by {
                            if mid < j {
                                assert(lex_lt(s[mid as int].0, s[j].0));
                                lemma_lex_transitive(key@, s[mid as int].0, s[j].0);
                            }
                        }
                    }
                    hi = mid;
                },
            }
        }
        Err(lo)
    }

    /// The value of `key`, unless the key is absent or tombstoned.
    pub fn get(&self, key: &[u8]) -> (r: Option<Vec<u8>>)
        requires
            self.wf(),
        ensures
            value_view(r) == live(self@, key@),
    {
        match self.search(key) {
            Ok(i) => {
                proof {
                    lemma_slot_at(self.ordered(), i as int);
                }
                match &self.slots[i].1 {
                    Some(v) => Some(slice_to_vec(v.as_slice())),
                    None => None,
                }
            },
            Err(i) => {
                proof {
                    let s = self.ordered();
                    if has_key(s, key@) {
                        let j = index_of(s, key@);
                        lemma_lex_irreflexive(key@);
                        if j < i {
                            assert(lex_lt(s[j].0, key@));
                        } else {
                            assert(lex_lt(key@, s[j].0));
                        }
                    }
                }
                None
            },
        }
    }

    /// Writes one slot: `value` replaces what `key` held, and `None` leaves a
    /// tombstone in its place.
    pub fn put(&mut self, key: Vec<u8>, value: Option<Vec<u8>>)
        requires
            old(self).wf(),
        ensures
            final(self).wf(),
            final(self)@ == old(self)@.insert(key@, value_view(value)),
    {
        let ghost s = self.ordered();
        match self.search(key.as_slice()) {
            Ok(i) => {
                proof {
                    lemma_update_slot(s, i as int, value_view(value));
                }
                self.slots[i] = (key, value);
                proof {
                    assert(self.ordered() =~= s.update(i as int, (s[i as int].0, value_view(value))));
                }
            },
            Err(i) => {
                proof {
                    lemma_insert_slot(s, i as int, key@, value_view(value));
                }
                self.slots.insert(i, (key, value));
                proof {
                    assert(self.ordered() =~= s.insert(i as int, (key@, value_view(value))));
                }
            },
        }
    }

    /// Drops every slot, tombstones too.
    pub fn clear(&mut self)
        ensures
            final(self).wf(),
            final(self).ordered() == Seq::<Slot>::empty(),
            final(self)@ == Map::<Seq<u8>, Option<Seq<u8>>>::empty(),
    {
        self.slots.clear();
        proof {
            assert(self.ordered() =~= Seq::<Slot>::empty());
            assert(self@ =~= Map::<Seq<u8>, Option<Seq<u8>>>::empty());
        }
    }
}

/// The listing grows slot by slot: a selected last slot adds its pair at the
/// end, another one adds nothing.
pub proof fn lemma_listing_step(s: Seq<Slot>, bounds: Option<(Seq<u8>, Seq<u8>)>)
    requires
        s.len() > 0,
    ensures
        listing(s, bounds) == if selected(s.last(), bounds) {
            listing(s.drop_last(), bounds).push(pair_of(s.last()))
        } else {
            listing(s.drop_last(), bounds)
        },
{
    reveal(Seq::filter);
    let keep = |e: Slot| selected(e, bounds);
    let rest = s.drop_last().filter(keep);
    if selected(s.last(), bounds) {
        assert(s.filter(keep) == rest.push(s.last()));
        assert(listing(s, bounds) =~= listing(s.drop_last(), bounds).push(pair_of(s.last())));
    } else {
        assert(s.filter(keep) == rest);
    }
}

/// Slots past position `n` that are not selected add nothing to the listing.
proof fn lemma_listing_prefix(s: Seq<Slot>, bounds: Option<(Seq<u8>, Seq<u8>)>, n: int)
    requires
        0 <= n <= s.len(),
        forall|j: int| n <= j < s.len() ==> !selected(#[trigger] s[j], bounds),
    ensures
        listing(s, bounds) == listing(s.take(n), bounds),
    decreases s.len(),
{
    if s.len() == n {
        assert(s.take(n) =~= s);
    } else {
        let d = s.drop_last();
        lemma_listing_step(s, bounds);
        assert(!selected(s[s.len() - 1], bounds));
        assert forall|j: int| n <= j < d.len() implies !selected(#[trigger] d[j], bounds) by {
            assert(d[j] == s[j]);
        }
        lemma_listing_prefix(d, bounds, n);
        assert(d.take(n) =~= s.take(n));
    }
}

/// A sequence without a selected slot has an empty listing.
proof fn lemma_listing_none(s: Seq<Slot>, bounds: Option<(Seq<u8>, Seq<u8>)>)
    requires
        forall|j: int| 0 <= j < s.len() ==> !selected(#[trigger] s[j], bounds),
    ensures
        listing(s, bounds) == Seq::<Pair>::empty(),
{
    lemma_listing_prefix(s, bounds, 0);
    reveal(Seq::filter);
    assert(s.take(0).len() == 0);
    assert(listing(s.take(0), bounds) =~= Seq::<Pair>::empty());
}

/// The pairs in reverse order.
fn reversed(mut pairs: Vec<(Vec<u8>, Vec<u8>)>) -> (r: Vec<(Vec<u8>, Vec<u8>)>)
    ensures
        pairs_view(r@) == pairs_view(pairs@).reverse(),
{
    let ghost all = pairs@;
    let mut r: Vec<(Vec<u8>, Vec<u8>)> = Vec::new();
    while pairs.len() > 0
        invariant
            pairs@.len() + r@.len() == all.len(),
            pairs@ == all.take(pairs@.len() as int),
            forall|j: int| 0 <= j < r@.len() ==> r@[j] == all[all.len() - 1 - j],
        decreases pairs.len(),
    {
        let p = pairs.pop().unwrap();
        r.push(p);
        proof {
            assert(pairs@ =~= all.take(pairs@.len() as int));
        }
    }
    proof {
        assert(pairs_view(r@) =~= pairs_view(all).reverse());
    }
    r
}

impl Namespace {
    /// Applies the writes of `batch`, first to last: a later write of a key
    /// overrides an earlier one.
    pub fn apply(&mut self, batch: &Vec<(Vec<u8>, Option<Vec<u8>>)>)
        requires
            old(self).wf(),
        ensures
            final(self).wf(),
            final(self)@ == apply_batch(old(self)@, slots_view(batch@)),
    {
        let ghost b = slots_view(batch@);
        let ghost start = self@;
        let mut i: usize = 0;
        while i < batch.len()
            invariant
                i <= batch.len(),
                b == slots_view(batch@),
                self.wf(),
                self@ == apply_batch(start, b.take(i as int)),
            decreases batch.len() - i,
        {
            let key = slice_to_vec(batch[i].0.as_slice());
            let value = match &batch[i].1 {
                Some(v) => Some(slice_to_vec(v.as_slice())),
                None => None,
            };
            proof {
                assert(b.take(i + 1).drop_last() =~= b.take(i as int));
                assert(b.take(i + 1).last() == (key@, value_view(value)));
            }
            self.put(key, value);
            i += 1;
        }
        proof {
            assert(b.take(i as int) =~= b);
        }
    }

    /// The namespace that the writes of `batch` leave, starting from none.
    pub fn from_batch(batch: &Vec<(Vec<u8>, Option<Vec<u8>>)>) -> (r: Namespace)
        ensures
            r.wf(),
            r@ == apply_batch(Map::empty(), slots_view(batch@)),
    {
        let mut r = Namespace::new();
        r.apply(batch);
        r
    }

    /// The slots in key order, tombstones included.
    pub fn slots(&self) -> (r: &Vec<(Vec<u8>, Option<Vec<u8>>)>)
        ensures
            slots_view(r@) == self.ordered(),
    {
        &self.slots
    }

    /// The position of the first slot whose key is `key` or comes after it.
    fn lower_bound(&self, key: &[u8]) -> (r: usize)
        requires
            self.wf(),
        ensures
            r <= self.ordered().len(),
            forall|j: int| 0 <= j < r ==> lex_lt(#[trigger] self.ordered()[j].0, key@),
            forall|j: int|
                r <= j < self.ordered().len() ==> lex_le(key@, #[trigger] self.ordered()[j].0),
    {
        match self.search(key) {
            Ok(i) => {
                proof {
                    let s = self.ordered();
                    assert forall|j: int| 0 <= j < i implies lex_lt(#[trigger] s[j].0, key@) by {
                        assert(lex_lt(s[j].0, s[i as int].0));
                    }
                    assert forall|j: int| i <= j < s.len() implies lex_le(
                        key@,
                        #[trigger] s[j].0,
                    ) by {
                        if i < j {
                            assert(lex_lt(s[i as int].0, s[j].0));
                        }
                    }
                }
                i
            },
            Err(i) => i,
        }
    }

    /// The live pairs whose keys lie within the bounds (all live pairs
    /// without bounds), by increasing key for `Asc` and by decreasing key for
    /// `Desc`. Bounds whose lower end is not below the upper one hold no key.
    pub fn range(&self, bounds: Option<(&[u8], &[u8])>, order: IterOrder) -> (r: Vec<
        (Vec<u8>, Vec<u8>),
    >)
        requires
            self.wf(),
        ensures
            pairs_view(r@) == directed_listing(self.ordered(), bounds_view(bounds), order),
    {
        let ghost s = self.ordered();
        let ghost b = bounds_view(bounds);
        let (start, end) = match bounds {
            Some((lower, upper)) => {
                let start = self.lower_bound(lower);
                let end = self.lower_bound(upper);
                proof {
                    assert forall|j: int| 0 <= j < s.len() implies (in_bounds(
                        (#[trigger] s[j]).0,
                        b,
                    ) <==> start <= j < end) by {
                        if j < start {
                            lemma_lex_asymmetric(s[j].0, lower@);
                        }
                        if j >= end && lex_lt(s[j].0, upper@) {
                            lemma_lex_asymmetric(s[j].0, upper@);
                        }
                    }
                }
                (start, if end < start { start } else { end })
            },
            None => (0, self.slots.len()),
        };
        let mut out: Vec<(Vec<u8>, Vec<u8>)> = Vec::new();
        let mut i: usize = start;
        proof {
            let head = s.take(start as int);
            assert forall|j: int| 0 <= j < head.len() implies !selected(#[trigger] head[j], b) by {
                assert(head[j] == s[j]);
            }
            lemma_listing_none(head, b);
            assert(pairs_view(out@) =~= Seq::<Pair>::empty());
        }
        while i < end
            invariant
                start <= i <= end <= self.slots.len(),
                s == self.ordered(),
                s.len() == self.slots.len(),
                forall|j: int| start <= j < end ==> in_bounds((#[trigger] s[j]).0, b),
                pairs_view(out@) == listing(s.take(i as int), b),
            decreases end - i,
        {
            proof {
                assert(s.take(i + 1).drop_last() =~= s.take(i as int));
                assert(s.take(i + 1).last() == s[i as int]);
                assert(s[i as int] == slot_view(self.slots@[i as int]));
                lemma_listing_step(s.take(i + 1), b);
            }
            let ghost before = out@;
            match &self.slots[i].1 {
                Some(v) => {
                    let key = slice_to_vec(self.slots[i].0.as_slice());
                    let value = slice_to_vec(v.as_slice());
                    out.push((key, value));
                    proof {
                        assert(pairs_view(out@) =~= pairs_view(before).push(pair_of(s[i as int])));
                    }
                },
                None => {},
            }
            i += 1;
        }
        proof {
            assert forall|j: int| end <= j < s.len() implies !selected(#[trigger] s[j], b) by {}
            lemma_listing_prefix(s, b, end as int);
        }
        match order {
            IterOrder::Asc => out,
            IterOrder::Desc => reversed(out),
        }
    }
}

} // verus!
