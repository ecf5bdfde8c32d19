//! What holds of reads, writes and iteration, for every store and every key.

use crate::keys::{lemma_lex_asymmetric, lemma_lex_irreflexive, lex_lt};
use crate::namespace::{
    apply_batch, ascending, directed_listing, has_key, in_bounds, index_of, lemma_insert_slot,
    lemma_listing_step, lemma_slot_at, listing, live, pair_of, selected, slot_map, IterOrder,
    Namespace, Pair, Slot,
};
use crate::store::{
    is_fresh, is_restored, opened_from, reads_back, wrote_aux, wrote_main, MemoryDB,
};
use vstd::prelude::*;

verus! {

/// The keys of `l` strictly increase.
pub open spec fn pairs_ascending(l: Seq<Pair>) -> bool {
    forall|i: int, j: int| #![trigger l[i], l[j]] 0 <= i < j < l.len() ==> lex_lt(l[i].0, l[j].0)
}

/// The keys of `l` strictly decrease.
pub open spec fn pairs_descending(l: Seq<Pair>) -> bool {
    forall|i: int, j: int| #![trigger l[i], l[j]] 0 <= i < j < l.len() ==> lex_lt(l[j].0, l[i].0)
}

/// A key that was never written reads as not found.
pub proof fn lemma_empty_reads_nothing(k: Seq<u8>)
    ensures
        live(Map::<Seq<u8>, Option<Seq<u8>>>::empty(), k) is None,
{
}

/// A batch that does not write `k` leaves the read of `k` as it was.
pub proof fn lemma_unwritten_key_unchanged(
    m: Map<Seq<u8>, Option<Seq<u8>>>,
    batch: Seq<Slot>,
    k: Seq<u8>,
)
    requires
        forall|i: int| 0 <= i < batch.len() ==> (#[trigger] batch[i]).0 != k,
    ensures
        live(apply_batch(m, batch), k) == live(m, k),
    decreases batch.len(),
{
    if batch.len() > 0 {
        let rest = batch.drop_last();
        assert forall|i: int| 0 <= i < rest.len() implies (#[trigger] rest[i]).0 != k by {
            assert(rest[i] == batch[i]);
        }
        lemma_unwritten_key_unchanged(m, rest, k);
        assert(batch.last() == batch[batch.len() - 1]);
    }
}

/// After a batch, a key reads as its last write in the batch says: the value
/// written, or not found where the write was a tombstone, whatever the key
/// held before.
pub proof fn lemma_last_write_wins(m: Map<Seq<u8>, Option<Seq<u8>>>, batch: Seq<Slot>, i: int)
    requires
        0 <= i < batch.len(),
        forall|j: int| i < j < batch.len() ==> (#[trigger] batch[j]).0 != batch[i].0,
    ensures
        live(apply_batch(m, batch), batch[i].0) == batch[i].1,
    decreases batch.len(),
{
    let rest = batch.drop_last();
    if i < batch.len() - 1 {
        assert(rest[i] == batch[i]);
        assert forall|j: int| i < j < rest.len() implies (#[trigger] rest[j]).0 != rest[i].0 by {
            assert(rest[j] == batch[j]);
        }
        lemma_last_write_wins(m, rest, i);
        assert(batch.last() == batch[batch.len() - 1]);
    }
}

/// A read after a single write gives what was written: the value, or not
/// found after a tombstone, even where the key held a value before.
pub proof fn lemma_get_after_put(
    pre: MemoryDB,
    post: MemoryDB,
    k: Seq<u8>,
    v: Option<Seq<u8>>,
)
    requires
        wrote_main(pre, post, seq![(k, v)]),
    ensures
        live(post.primary()@, k) == v,
{
    lemma_last_write_wins(pre.primary()@, seq![(k, v)], 0);
}

/// A key that reads as not found keeps doing so through every batch that
/// does not write it; so a key never written is never found.
pub proof fn lemma_unwritten_stays_not_found(
    pre: MemoryDB,
    post: MemoryDB,
    batch: Seq<Slot>,
    k: Seq<u8>,
)
    requires
        wrote_main(pre, post, batch),
        live(pre.primary()@, k) is None,
        forall|i: int| 0 <= i < batch.len() ==> (#[trigger] batch[i]).0 != k,
    ensures
        live(post.primary()@, k) is None,
{
    lemma_unwritten_key_unchanged(pre.primary()@, batch, k);
}

/// A store without slots reads every key as not found, in both namespaces.
pub proof fn lemma_fresh_reads_nothing(db: MemoryDB, path: Seq<char>, k: Seq<u8>)
    requires
        is_fresh(db, path),
    ensures
        live(db.primary()@, k) is None,
        live(db.auxiliary()@, k) is None,
{
}

/// The two namespaces are independent: after `k` is written with `v` to the
/// main namespace and with `w` to the auxiliary one, the main read of `k`
/// gives `v` and the auxiliary read gives `w`; and each write leaves the
/// other namespace's reads as they were.
pub proof fn lemma_namespaces_independent(
    before: MemoryDB,
    between: MemoryDB,
    after: MemoryDB,
    k: Seq<u8>,
    v: Seq<u8>,
    w: Seq<u8>,
    other: Seq<u8>,
)
    requires
        wrote_main(before, between, seq![(k, Some(v))]),
        wrote_aux(between, after, seq![(k, Some(w))]),
    ensures
        live(after.primary()@, k) == Some(v),
        live(after.auxiliary()@, k) == Some(w),
        live(between.auxiliary()@, other) == live(before.auxiliary()@, other),
        live(after.primary()@, other) == live(between.primary()@, other),
{
    lemma_last_write_wins(before.primary()@, seq![(k, Some(v))], 0);
    lemma_last_write_wins(between.auxiliary()@, seq![(k, Some(w))], 0);
}

/// Each pair of a listing comes from a selected slot.
proof fn lemma_listing_origin(s: Seq<Slot>, bounds: Option<(Seq<u8>, Seq<u8>)>, j: int) -> (i: int)
    requires
        0 <= j < listing(s, bounds).len(),
    ensures
        0 <= i < s.len(),
        selected(s[i], bounds),
        listing(s, bounds)[j] == pair_of(s[i]),
    decreases s.len(),
{
    if s.len() == 0 {
        reveal(Seq::filter);
        assert(listing(s, bounds).len() == 0);
        0
    } else {
        lemma_listing_step(s, bounds);
        let rest = listing(s.drop_last(), bounds);
        if selected(s.last(), bounds) && j == rest.len() {
            s.len() - 1
        } else {
            let i = lemma_listing_origin(s.drop_last(), bounds, j);
            assert(s.drop_last()[i] == s[i]);
            i
        }
    }
}

/// Each selected slot has its pair in the listing.
proof fn lemma_listing_covers(s: Seq<Slot>, bounds: Option<(Seq<u8>, Seq<u8>)>, i: int) -> (j: int)
    requires
        0 <= i < s.len(),
        selected(s[i], bounds),
    ensures
        0 <= j < listing(s, bounds).len(),
        listing(s, bounds)[j] == pair_of(s[i]),
    decreases s.len(),
{
    lemma_listing_step(s, bounds);
    let rest = listing(s.drop_last(), bounds);
    if i == s.len() - 1 {
        rest.len() as int
    } else {
        assert(s.drop_last()[i] == s[i]);
        lemma_listing_covers(s.drop_last(), bounds, i)
    }
}

/// The listing of slots in key order is in key order.
pub proof fn lemma_listing_ascending(s: Seq<Slot>, bounds: Option<(Seq<u8>, Seq<u8>)>)
    requires
        ascending(s),
    ensures
        pairs_ascending(listing(s, bounds)),
    decreases s.len(),
{
    if s.len() > 0 {
        let d = s.drop_last();
        lemma_listing_step(s, bounds);
        assert(ascending(d)) by {
            assert forall|i: int, j: int| #![trigger d[i], d[j]] 0 <= i < j < d.len() implies lex_lt(
                d[i].0,
                d[j].0,
            ) by {
                assert(d[i] == s[i] && d[j] == s[j]);
            }
        }
        lemma_listing_ascending(d, bounds);
        let l = listing(s, bounds);
        let r = listing(d, bounds);
        assert forall|a: int, b: int| #![trigger l[a], l[b]] 0 <= a < b < l.len() implies lex_lt(
            l[a].0,
            l[b].0,
        ) by {
            if b < r.len() {
                assert(l[a] == r[a] && l[b] == r[b]);
            } else {
                let i = lemma_listing_origin(d, bounds, a);
                assert(d[i] == s[i]);
                assert(l[a] == r[a]);
                assert(lex_lt(s[i].0, s[s.len() - 1].0));
            }
        }
    } else {
        reveal(Seq::filter);
        assert(listing(s, bounds).len() == 0);
    }
}

/// Range iteration never yields a tombstoned or absent key, nor one outside
/// the bounds: each pair it yields is a key within the bounds with the value
/// that a read of that key gives.
pub proof fn lemma_iteration_yields_live(
    s: Seq<Slot>,
    bounds: Option<(Seq<u8>, Seq<u8>)>,
    order: IterOrder,
    j: int,
)
    requires
        ascending(s),
        0 <= j < directed_listing(s, bounds, order).len(),
    ensures
        in_bounds(directed_listing(s, bounds, order)[j].0, bounds),
        live(slot_map(s), directed_listing(s, bounds, order)[j].0) == Some(
            directed_listing(s, bounds, order)[j].1,
        ),
{
    let l = listing(s, bounds);
    let at = match order {
        IterOrder::Asc => j,
        IterOrder::Desc => l.len() - 1 - j,
    };
    assert(directed_listing(s, bounds, order)[j] == l[at]);
    let i = lemma_listing_origin(s, bounds, at);
    lemma_slot_at(s, i);
}

/// Range iteration yields every live key within the bounds, with its value,
/// in either direction.
pub proof fn lemma_iteration_yields_all(
    s: Seq<Slot>,
    bounds: Option<(Seq<u8>, Seq<u8>)>,
    order: IterOrder,
    k: Seq<u8>,
)
    requires
        ascending(s),
        in_bounds(k, bounds),
        live(slot_map(s), k) is Some,
    ensures
        directed_listing(s, bounds, order).contains((k, live(slot_map(s), k)->Some_0)),
{
    let i = index_of(s, k);
    assert(has_key(s, k));
    lemma_slot_at(s, i);
    let j = lemma_listing_covers(s, bounds, i);
    let l = listing(s, bounds);
    match order {
        IterOrder::Asc => {
            assert(directed_listing(s, bounds, order)[j] == l[j]);
        },
        IterOrder::Desc => {
            assert(directed_listing(s, bounds, order)[l.len() - 1 - j] == l[j]);
        },
    }
}

/// Descending iteration yields what ascending iteration yields, in reverse:
/// the same pairs, by decreasing key where the other goes by increasing key.
pub proof fn lemma_descending_mirrors_ascending(s: Seq<Slot>, bounds: Option<(Seq<u8>, Seq<u8>)>)
    requires
        ascending(s),
    ensures
        directed_listing(s, bounds, IterOrder::Desc) == directed_listing(
            s,
            bounds,
            IterOrder::Asc,
        ).reverse(),
        directed_listing(s, bounds, IterOrder::Desc).len() == directed_listing(
            s,
            bounds,
            IterOrder::Asc,
        ).len(),
        forall|p: Pair|
            directed_listing(s, bounds, IterOrder::Desc).contains(p) <==> directed_listing(
                s,
                bounds,
                IterOrder::Asc,
            ).contains(p),
        pairs_ascending(directed_listing(s, bounds, IterOrder::Asc)),
        pairs_descending(directed_listing(s, bounds, IterOrder::Desc)),
{
    let a = directed_listing(s, bounds, IterOrder::Asc);
    let d = directed_listing(s, bounds, IterOrder::Desc);
    lemma_listing_ascending(s, bounds);
    assert(d.len() == a.len());
    assert forall|p: Pair| d.contains(p) <==> a.contains(p) by {
        if d.contains(p) {
            let j = choose|j: int| 0 <= j < d.len() && d[j] == p;
            assert(a[a.len() - 1 - j] == p);
        }
        if a.contains(p) {
            let j = choose|j: int| 0 <= j < a.len() && a[j] == p;
            assert(d[d.len() - 1 - j] == p);
        }
    }
    assert forall|i: int, j: int| #![trigger d[i], d[j]] 0 <= i < j < d.len() implies lex_lt(
        d[j].0,
        d[i].0,
    ) by {
        assert(d[i] == a[a.len() - 1 - i]);
        assert(d[j] == a[a.len() - 1 - j]);
    }
}

/// Writing the slots of an ascending sequence in turn, starting from
/// nothing, gives the mapping that the sequence stands for.
pub proof fn lemma_rebuild(s: Seq<Slot>)
    requires
        ascending(s),
    ensures
        apply_batch(Map::empty(), s) == slot_map(s),
    decreases s.len(),
{
    if s.len() == 0 {
        assert(slot_map(s) =~= Map::<Seq<u8>, Option<Seq<u8>>>::empty());
    } else {
        lemma_drop_last(s);
        lemma_rebuild(s.drop_last());
    }
}

/// An ascending sequence stands for the mapping of all but its last slot,
/// with the last slot written; the rest is ascending and lacks that key.
proof fn lemma_drop_last(s: Seq<Slot>)
    requires
        ascending(s),
        s.len() > 0,
    ensures
        ascending(s.drop_last()),
        !slot_map(s.drop_last()).contains_key(s.last().0),
        slot_map(s) == slot_map(s.drop_last()).insert(s.last().0, s.last().1),
{
    let d = s.drop_last();
    let e = s.last();
    assert forall|i: int, j: int| #![trigger d[i], d[j]] 0 <= i < j < d.len() implies lex_lt(
        d[i].0,
        d[j].0,
    ) by {
        assert(d[i] == s[i] && d[j] == s[j]);
    }
    assert forall|j: int| 0 <= j < d.len() implies lex_lt(#[trigger] d[j].0, e.0) by {
        assert(d[j] == s[j]);
        assert(lex_lt(s[j].0, s[s.len() - 1].0));
    }
    lemma_insert_slot(d, d.len() as int, e.0, e.1);
    assert(d.insert(d.len() as int, e) =~= s);
    if has_key(d, e.0) {
        let i = index_of(d, e.0);
        lemma_lex_irreflexive(e.0);
    }
}

/// A mapping has one ascending sequence of slots: two ascending sequences
/// that stand for the same mapping are the same sequence.
pub proof fn lemma_ascending_unique(a: Seq<Slot>, b: Seq<Slot>)
    requires
        ascending(a),
        ascending(b),
        slot_map(a) == slot_map(b),
    ensures
        a == b,
    decreases a.len(),
{
    if a.len() == 0 {
        if b.len() > 0 {
            assert(has_key(b, b[0].0));
            assert(slot_map(b).contains_key(b[0].0));
            assert(has_key(a, b[0].0));
        }
        assert(a =~= b);
    } else if b.len() == 0 {
        assert(has_key(a, a[0].0));
        assert(slot_map(a).contains_key(a[0].0));
        assert(has_key(b, a[0].0));
    } else {
        let x = a.last();
        let y = b.last();
        lemma_slot_at(a, a.len() - 1);
        lemma_slot_at(b, b.len() - 1);
        assert(has_key(b, x.0));
        assert(has_key(a, y.0));
        let i = index_of(b, x.0);
        let j = index_of(a, y.0);
        if i < b.len() - 1 {
            assert(lex_lt(b[i].0, b[b.len() - 1].0));
            if j < a.len() - 1 {
                assert(lex_lt(a[j].0, a[a.len() - 1].0));
                lemma_lex_asymmetric(x.0, y.0);
            }
            lemma_lex_irreflexive(x.0);
        }
        assert(x.0 == y.0);
        assert(x == y);
        lemma_drop_last(a);
        lemma_drop_last(b);
        let da = a.drop_last();
        let db = b.drop_last();
        let ma = slot_map(da).insert(x.0, x.1);
        let mb = slot_map(db).insert(x.0, x.1);
        assert(ma == mb);
        assert(slot_map(da) =~= slot_map(db)) by {
            assert forall|k: Seq<u8>| slot_map(da).contains_key(k) <==> slot_map(db).contains_key(
                k,
            ) by {
                if k != x.0 {
                    assert(ma.contains_key(k) <==> slot_map(da).contains_key(k));
                    assert(mb.contains_key(k) <==> slot_map(db).contains_key(k));
                }
            }
            assert forall|k: Seq<u8>| slot_map(da).contains_key(k) implies slot_map(da)[k]
                == slot_map(db)[k] by {
                assert(ma[k] == slot_map(da)[k]);
                assert(mb[k] == slot_map(db)[k]);
            }
        }
        lemma_ascending_unique(da, db);
        assert(a =~= da.push(x));
        assert(b =~= db.push(y));
    }
}

/// Iteration is a function of the mapping: two namespaces that map the same
/// keys to the same values and tombstones iterate alike.
pub proof fn lemma_iteration_follows_mapping(
    a: Namespace,
    b: Namespace,
    bounds: Option<(Seq<u8>, Seq<u8>)>,
    order: IterOrder,
)
    requires
        a.wf(),
        b.wf(),
        a@ == b@,
    ensures
        directed_listing(a.ordered(), bounds, order) == directed_listing(
            b.ordered(),
            bounds,
            order,
        ),
{
    lemma_ascending_unique(a.ordered(), b.ordered());
}

/// Opening what a snapshot wrote reproduces the store: the copy is bound to
/// the path it was opened at, and every read and every iteration of either
/// namespace gives what it gave before the snapshot.
pub proof fn lemma_snapshot_round_trip(
    db: MemoryDB,
    bytes: Seq<u8>,
    path: Seq<char>,
    copy: MemoryDB,
    k: Seq<u8>,
    bounds: Option<(Seq<u8>, Seq<u8>)>,
    order: IterOrder,
)
    requires
        db.wf(),
        reads_back(db, bytes),
        opened_from(copy, path, bytes),
    ensures
        copy.wf(),
        copy.path() == path,
        live(copy.primary()@, k) == live(db.primary()@, k),
        live(copy.auxiliary()@, k) == live(db.auxiliary()@, k),
        directed_listing(copy.primary().ordered(), bounds, order) == directed_listing(
            db.primary().ordered(),
            bounds,
            order,
        ),
        directed_listing(copy.auxiliary().ordered(), bounds, order) == directed_listing(
            db.auxiliary().ordered(),
            bounds,
            order,
        ),
        copy.primary().ordered() == db.primary().ordered(),
        copy.auxiliary().ordered() == db.auxiliary().ordered(),
{
    lemma_restore_reproduces(db, path, copy);
}

/// A store restored at `path` from the slots of `db` reads and iterates as
/// `db` does: same mappings, same slots in the same order, bound to `path`.
pub proof fn lemma_restore_reproduces(db: MemoryDB, path: Seq<char>, copy: MemoryDB)
    requires
        db.wf(),
        is_restored(copy, path, db.primary().ordered(), db.auxiliary().ordered()),
    ensures
        copy.path() == path,
        copy.primary()@ == db.primary()@,
        copy.auxiliary()@ == db.auxiliary()@,
        copy.primary().ordered() == db.primary().ordered(),
        copy.auxiliary().ordered() == db.auxiliary().ordered(),
{
    lemma_rebuild(db.primary().ordered());
    lemma_rebuild(db.auxiliary().ordered());
    lemma_ascending_unique(copy.primary().ordered(), db.primary().ordered());
    lemma_ascending_unique(copy.auxiliary().ordered(), db.auxiliary().ordered());
}

} // verus!
