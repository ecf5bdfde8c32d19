//! The store: a main and an auxiliary namespace, bound to a snapshot path.

use crate::codec::{bincode_image, bincode_parse, decode_state, encode_state};
use crate::namespace::{
    apply_batch, directed_listing, live, pairs_view, slots_view, value_view, IterOrder,
    Namespace, Slot,
};
use vstd::prelude::*;

verus! {

/// Why a call on the store failed.
#[derive(Clone, Copy, Debug, PartialEq, Eq, Structural)]
pub enum StoreError {
    /// The bytes of a snapshot could not be read back.
    DeserializeFailure,
    /// The state could not be turned into the bytes of a snapshot.
    SerializeFailure,
}

/// An in-memory key-value store with two independent namespaces.
pub struct MemoryDB {
    temp: String,
    inner: Namespace,
    aux: Namespace,
}

/// `db` is bound to `path` and holds no slot in either namespace.
pub open spec fn is_fresh(db: MemoryDB, path: Seq<char>) -> bool {
    &&& db.wf()
    &&& db.path() == path
    &&& db.primary().ordered() == Seq::<Slot>::empty()
    &&& db.auxiliary().ordered() == Seq::<Slot>::empty()
    &&& db.primary()@ == Map::<Seq<u8>, Option<Seq<u8>>>::empty()
    &&& db.auxiliary()@ == Map::<Seq<u8>, Option<Seq<u8>>>::empty()
}

/// `db` is what the parts of a snapshot give: bound to `path`, each namespace
/// built by writing its slots in turn.
pub open spec fn is_restored(db: MemoryDB, path: Seq<char>, main: Seq<Slot>, aux: Seq<Slot>) -> bool {
    &&& db.wf()
    &&& db.path() == path
    &&& db.primary()@ == apply_batch(Map::empty(), main)
    &&& db.auxiliary()@ == apply_batch(Map::empty(), aux)
}

/// `post` is `pre` after the writes of `batch` to the main namespace.
pub open spec fn wrote_main(pre: MemoryDB, post: MemoryDB, batch: Seq<Slot>) -> bool {
    &&& post.wf()
    &&& post.path() == pre.path()
    &&& post.primary()@ == apply_batch(pre.primary()@, batch)
    &&& post.auxiliary() == pre.auxiliary()
}

/// `post` is `pre` after the writes of `batch` to the auxiliary namespace.
pub open spec fn wrote_aux(pre: MemoryDB, post: MemoryDB, batch: Seq<Slot>) -> bool {
    &&& post.wf()
    &&& post.path() == pre.path()
    &&& post.auxiliary()@ == apply_batch(pre.auxiliary()@, batch)
    &&& post.primary() == pre.primary()
}

/// The bytes of a snapshot of `db`, or `None` where the encoder fails.
pub open spec fn snapshot_of(db: MemoryDB) -> Option<Seq<u8>> {
    bincode_image(db.path(), db.primary().ordered(), db.auxiliary().ordered())
}

/// `bytes` are read back as the state of `db`: its path and the slots of both
/// namespaces, tombstones included.
pub open spec fn reads_back(db: MemoryDB, bytes: Seq<u8>) -> bool {
    bincode_parse(bytes) == Some(
        (db.path(), db.primary().ordered(), db.auxiliary().ordered()),
    )
}

/// `copy` is what opening at `path` gives where `bytes` were found there: the
/// namespaces that the bytes hold, bound to `path`. The path that the bytes
/// record is not taken up.
pub open spec fn opened_from(copy: MemoryDB, path: Seq<char>, bytes: Seq<u8>) -> bool {
    match bincode_parse(bytes) {
        Some((_, m, a)) => is_restored(copy, path, m, a),
        None => false,
    }
}

/// What a snapshot call hands back for each outcome of the encoder.
pub fn snapshot_outcome(encoded: Result<Vec<u8>, Box<bincode::ErrorKind>>) -> (r: Result<
    Vec<u8>,
    StoreError,
>)
    ensures
        match encoded {
            Ok(bytes) => r == Ok::<Vec<u8>, StoreError>(bytes),
            Err(_) => r == Err::<Vec<u8>, StoreError>(StoreError::SerializeFailure),
        },
{
    match encoded {
        Ok(bytes) => Ok(bytes),
        Err(_) => Err(StoreError::SerializeFailure),
    }
}

impl MemoryDB {
    /// The path that the store is bound to.
    pub closed spec fn path(&self) -> Seq<char> {
        self.temp@
    }

    /// The main namespace.
    pub closed spec fn primary(&self) -> Namespace {
        self.inner
    }

    /// The auxiliary namespace.
    pub closed spec fn auxiliary(&self) -> Namespace {
        self.aux
    }

    /// Both namespaces are in key order.
    pub open spec fn wf(&self) -> bool {
        self.primary().wf() && self.auxiliary().wf()
    }

    /// An empty store bound to `path`.
    pub fn new(path: String) -> (r: MemoryDB)
        ensures
            is_fresh(r, path@),
    {
        MemoryDB { temp: path, inner: Namespace::new(), aux: Namespace::new() }
    }

    /// The store that the parts of a snapshot give: bound to `path`, with
    /// each namespace built by writing its slots in turn.
    pub fn restore(
        path: String,
        main: &Vec<(Vec<u8>, Option<Vec<u8>>)>,
        aux: &Vec<(Vec<u8>, Option<Vec<u8>>)>,
    ) -> (r: MemoryDB)
        ensures
            is_restored(r, path@, slots_view(main@), slots_view(aux@)),
    {
        MemoryDB { temp: path, inner: Namespace::from_batch(main), aux: Namespace::from_batch(aux) }
    }

    /// Opens the store at `path`. `contents` holds the bytes found there, or
    /// `None` where nothing is there yet: the store is then empty and bound to
    /// `path`. Bytes that are no snapshot are an error; those of a snapshot
    /// give back both namespaces, bound to `path` whatever path the snapshot
    /// recorded.
    pub fn open(path: String, contents: Option<Vec<u8>>) -> (r: Result<MemoryDB, StoreError>)
        ensures
            match contents {
                None => r is Ok && is_fresh(r->Ok_0, path@),
                Some(bytes) => match bincode_parse(bytes@) {
                    Some((_, m, a)) => r is Ok && is_restored(r->Ok_0, path@, m, a),
                    None => r is Err && r->Err_0 == StoreError::DeserializeFailure,
                },
            },
    {
        match contents {
            None => Ok(MemoryDB::new(path)),
            Some(bytes) => match decode_state(bytes.as_slice()) {
                Ok(state) => Ok(MemoryDB::restore(path, &state.1, &state.2)),
                Err(_) => Err(StoreError::DeserializeFailure),
            },
        }
    }

    /// Clears both namespaces; the store stays bound to its path.
    pub fn destroy(&mut self)
        ensures
            is_fresh(*final(self), old(self).path()),
    {
        self.inner.clear();
        self.aux.clear();
    }

    /// The path that the store is bound to.
    pub fn temp_path(&self) -> (r: &String)
        ensures
            r@ == self.path(),
    {
        &self.temp
    }

    /// The root hash, which this store never computes: always empty.
    pub fn root_hash(&self) -> (r: Vec<u8>)
        ensures
            r@ == Seq::<u8>::empty(),
    {
        Vec::new()
    }

    /// The value of `key` in the main namespace; `None` where the key is
    /// absent or tombstoned. Never an error.
    pub fn get(&self, key: &[u8]) -> (r: Result<Option<Vec<u8>>, StoreError>)
        requires
            self.wf(),
        ensures
            r is Ok,
            value_view(r->Ok_0) == live(self.primary()@, key@),
    {
        Ok(self.inner.get(key))
    }

    /// The value of `key` in the auxiliary namespace; `None` where the key is
    /// absent or tombstoned. Never an error.
    pub fn get_aux(&self, key: &[u8]) -> (r: Result<Option<Vec<u8>>, StoreError>)
        requires
            self.wf(),
        ensures
            r is Ok,
            value_view(r->Ok_0) == live(self.auxiliary()@, key@),
    {
        Ok(self.aux.get(key))
    }

    /// Writes a batch to the main namespace, first to last; `None` as a value
    /// leaves a tombstone. Always succeeds.
    pub fn put_batch(&mut self, kvs: Vec<(Vec<u8>, Option<Vec<u8>>)>) -> (r: Result<
        (),
        StoreError,
    >)
        requires
            old(self).wf(),
        ensures
            r is Ok,
            wrote_main(*old(self), *final(self), slots_view(kvs@)),
    {
        self.inner.apply(&kvs);
        Ok(())
    }

    /// Every live pair of the main namespace, in the order asked for.
    pub fn db_all_iterator(&self, order: IterOrder) -> (r: Vec<(Vec<u8>, Vec<u8>)>)
        requires
            self.wf(),
        ensures
            pairs_view(r@) == directed_listing(self.primary().ordered(), None, order),
    {
        self.inner.range(None, order)
    }

    /// The live pairs of the main namespace with `lower <= key < upper`, in
    /// the order asked for.
    pub fn iter(&self, lower: &[u8], upper: &[u8], order: IterOrder) -> (r: Vec<
        (Vec<u8>, Vec<u8>),
    >)
        requires
            self.wf(),
        ensures
            pairs_view(r@) == directed_listing(
                self.primary().ordered(),
                Some((lower@, upper@)),
                order,
            ),
    {
        self.inner.range(Some((lower, upper)), order)
    }

    /// The live pairs of the auxiliary namespace with `lower <= key < upper`,
    /// in the order asked for.
    pub fn iter_aux(&self, lower: &[u8], upper: &[u8], order: IterOrder) -> (r: Vec<
        (Vec<u8>, Vec<u8>),
    >)
        requires
            self.wf(),
        ensures
            pairs_view(r@) == directed_listing(
                self.auxiliary().ordered(),
                Some((lower@, upper@)),
                order,
            ),
    {
        self.aux.range(Some((lower, upper)), order)
    }

    /// Writes a batch to the auxiliary namespace. With `flush` the whole
    /// state is encoded afterwards, and the bytes are handed back for the
    /// caller to write at the bound path; without it nothing is encoded.
    /// The batch stays written where the encoder fails.
    pub fn commit(&mut self, aux: Vec<(Vec<u8>, Option<Vec<u8>>)>, flush: bool) -> (r: Result<
        Option<Vec<u8>>,
        StoreError,
    >)
        requires
            old(self).wf(),
        ensures
            wrote_aux(*old(self), *final(self), slots_view(aux@)),
            !flush ==> r is Ok && r->Ok_0 is None,
            flush ==> match snapshot_of(*final(self)) {
                Some(bytes) => {
                    &&& r is Ok
                    &&& value_view(r->Ok_0) == Some(bytes)
                    &&& reads_back(*final(self), bytes)
                },
                None => r is Err && r->Err_0 == StoreError::SerializeFailure,
            },
    {
        self.aux.apply(&aux);
        if flush {
            match self.snapshot() {
                Ok(bytes) => Ok(Some(bytes)),
                Err(e) => Err(e),
            }
        } else {
            Ok(None)
        }
    }

    /// The bytes of a snapshot of the whole state: the bound path and both
    /// namespaces, tombstones included. The store is left as it is.
    pub fn snapshot(&self) -> (r: Result<Vec<u8>, StoreError>)
        ensures
            match snapshot_of(*self) {
                Some(bytes) => r is Ok && r->Ok_0@ == bytes && reads_back(*self, bytes),
                None => r is Err && r->Err_0 == StoreError::SerializeFailure,
            },
    {
        snapshot_outcome(encode_state(&self.temp, self.inner.slots(), self.aux.slots()))
    }

    /// A pair as an iteration yields it, as a key and a value.
    pub fn decode_kv(&self, kv_pair: (Box<[u8]>, Box<[u8]>)) -> (r: (Vec<u8>, Vec<u8>))
        ensures
            r.0@ == kv_pair.0@,
            r.1@ == kv_pair.1@,
    {
        (kv_pair.0.into_vec(), kv_pair.1.into_vec())
    }

    /// Clears the auxiliary namespace and leaves the main one as it is.
    /// Always succeeds.
    pub fn clean_aux(&mut self) -> (r: Result<(), StoreError>)
        requires
            old(self).wf(),
        ensures
            r is Ok,
            final(self).wf(),
            final(self).path() == old(self).path(),
            final(self).primary() == old(self).primary(),
            final(self).auxiliary().ordered() == Seq::<Slot>::empty(),
            final(self).auxiliary()@ == Map::<Seq<u8>, Option<Seq<u8>>>::empty(),
    {
        self.aux.clear();
        Ok(())
    }
}

} // verus!
