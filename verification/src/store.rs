//! The object store: compressed objects under their fingerprints.
//!
//! The store only ever grows. Objects are kept in the order in which they
//! were put, so that writing them out in that order puts every object
//! behind the ones it was built from.

use vstd::prelude::*;
use crate::digest::{fingerprint, fingerprint_of, Fingerprint};
use crate::error::Error;
use crate::layout::{encode_blob, encode_tree, lemma_parse_inverts_layout, parse_object};
use crate::object::{entry_views, Entry, Object, ObjectView};
use crate::packing::{stored_form, unpack, unpacked, StoredObject, StoredView};
use crate::text::copy_bytes;
use crate::zlib::{compress, zlib_deflated};

verus! {

/// The position of the first object under `key` in `log`, or `log.len()`
/// when there is none.
pub open spec fn position_of(log: Seq<StoredView>, key: Seq<u8>) -> int
    decreases log.len(),
{
    if log.len() == 0 || log[0].key == key {
        0
    } else {
        1 + position_of(log.drop_first(), key)
    }
}

/// Whether `log` holds an object under `key`.
pub open spec fn holds(log: Seq<StoredView>, key: Seq<u8>) -> bool {
    exists|i: int| 0 <= i < log.len() && (#[trigger] log[i]).key == key
}

/// Whether no key occurs twice in `log`.
pub open spec fn distinct_keys(log: Seq<StoredView>) -> bool {
    forall|i: int, j: int|
        0 <= i < j < log.len() ==> (#[trigger] log[i]).key != (#[trigger] log[j]).key
}

/// The bytes stored under `key`, if any.
pub open spec fn bytes_of(log: Seq<StoredView>, key: Seq<u8>) -> Option<Seq<u8>> {
    if holds(log, key) {
        Some(log[position_of(log, key)].bytes)
    } else {
        None
    }
}

/// Whether everything that `object` refers to is held: for a tree, an object
/// is stored under the target of each of its entries.
pub open spec fn resolvable(log: Seq<StoredView>, object: ObjectView) -> bool {
    object matches ObjectView::Tree { entries } ==> forall|i: int|
        0 <= i < entries.len() ==> holds(log, (#[trigger] entries[i]).target)
}

/// The store after `bytes` were put under `key`: unchanged where the key is
/// taken, one object longer where it is not.
pub open spec fn after_put(log: Seq<StoredView>, key: Seq<u8>, bytes: Seq<u8>) -> Seq<StoredView> {
    if holds(log, key) {
        log
    } else {
        log.push(StoredView { key, bytes })
    }
}

/// What reading the object under `key` gives: `ObjectNotFound` where nothing
/// is stored under it, `CorruptObject` where what is stored cannot be
/// decompressed, and else what the decompressed bytes decode to.
pub open spec fn object_under(log: Seq<StoredView>, key: Seq<u8>) -> Result<ObjectView, Error> {
    match bytes_of(log, key) {
        None => Err(Error::ObjectNotFound),
        Some(stream) => unpacked(stream),
    }
}

/// `position_of` is the first position with the key, or the length.
pub proof fn lemma_position_of(log: Seq<StoredView>, key: Seq<u8>)
    ensures
        0 <= position_of(log, key) <= log.len(),
        forall|i: int| 0 <= i < position_of(log, key) ==> (#[trigger] log[i]).key != key,
        position_of(log, key) < log.len() ==> log[position_of(log, key)].key == key,
        holds(log, key) <==> position_of(log, key) < log.len(),
    decreases log.len(),
{
    if log.len() != 0 && log[0].key != key {
        let tail = log.drop_first();
        lemma_position_of(tail, key);
        assert forall|i: int| 0 <= i < position_of(log, key) implies (#[trigger] log[i]).key
            != key by {
            if i > 0 {
                assert(log[i] == tail[i - 1]);
            }
        }
        if holds(log, key) {
            let i = choose|i: int| 0 <= i < log.len() && (#[trigger] log[i]).key == key;
            assert(tail[i - 1].key == key);
        }
        if position_of(tail, key) < tail.len() {
            assert(log[position_of(log, key)].key == key);
        }
    }
}

/// The store after each of `writes` was put in turn.
pub open spec fn after_puts(log: Seq<StoredView>, writes: Seq<StoredView>) -> Seq<StoredView>
    decreases writes.len(),
{
    if writes.len() == 0 {
        log
    } else {
        after_put(after_puts(log, writes.drop_last()), writes.last().key, writes.last().bytes)
    }
}

/// Putting two runs in turn is putting them as one run.
pub proof fn lemma_after_puts_concat(
    log: Seq<StoredView>,
    first: Seq<StoredView>,
    second: Seq<StoredView>,
)
    ensures
        after_puts(log, first + second) == after_puts(after_puts(log, first), second),
    decreases second.len(),
{
    if second.len() == 0 {
        assert(first + second =~= first);
    } else {
        lemma_after_puts_concat(log, first, second.drop_last());
        assert((first + second).drop_last() =~= first + second.drop_last());
        assert((first + second).last() == second.last());
    }
}

/// Putting objects takes nothing away: the store as it was is the front of
/// the store as it is.
pub proof fn lemma_after_puts_keeps(log: Seq<StoredView>, writes: Seq<StoredView>)
    ensures
        after_puts(log, writes).len() >= log.len(),
        after_puts(log, writes).take(log.len() as int) == log,
        forall|key: Seq<u8>| holds(log, key) ==> holds(after_puts(log, writes), key),
    decreases writes.len(),
{
    if writes.len() == 0 {
        assert(log.take(log.len() as int) =~= log);
    } else {
        let before = after_puts(log, writes.drop_last());
        let after = after_puts(log, writes);
        lemma_after_puts_keeps(log, writes.drop_last());
        assert(after.take(log.len() as int) =~= before.take(log.len() as int));
        assert forall|key: Seq<u8>| holds(log, key) implies holds(after, key) by {
            assert(holds(before, key));
            let i = choose|i: int| 0 <= i < before.len() && (#[trigger] before[i]).key == key;
            assert(after[i].key == key);
        }
    }
}

/// Whatever was put is held: every key among `writes` is taken afterwards.
pub proof fn lemma_after_puts_holds(log: Seq<StoredView>, writes: Seq<StoredView>, at: int)
    requires
        0 <= at < writes.len(),
    ensures
        holds(after_puts(log, writes), writes[at].key),
    decreases writes.len(),
{
    let front = writes.drop_last();
    let before = after_puts(log, front);
    let after = after_puts(log, writes);
    let last = writes.last();
    if at == writes.len() - 1 {
        if !holds(before, last.key) {
            assert(after[before.len() as int].key == last.key);
        }
    } else {
        lemma_after_puts_holds(log, front, at);
        assert(front[at] == writes[at]);
        let i = choose|i: int| 0 <= i < before.len() && (#[trigger] before[i]).key == writes[at].key;
        assert(after[i].key == writes[at].key);
    }
}

/// Putting is idempotent: a second put of the same key and bytes leaves the
/// store as the first left it, with one object under the key.
pub proof fn law_put_is_idempotent(log: Seq<StoredView>, key: Seq<u8>, bytes: Seq<u8>)
    requires
        distinct_keys(log),
    ensures
        ({
            let once = after_put(log, key, bytes);
            &&& after_put(once, key, bytes) == once
            &&& holds(once, key)
            &&& distinct_keys(once)
            &&& forall|i: int, j: int|
                0 <= i < once.len() && 0 <= j < once.len() && (#[trigger] once[i]).key == key && (
                #[trigger] once[j]).key == key ==> i == j
        }),
{
    let once = after_put(log, key, bytes);
    if !holds(log, key) {
        assert(once[log.len() as int].key == key);
        assert forall|i: int, j: int| 0 <= i < j < once.len() implies (#[trigger] once[i]).key != (
        #[trigger] once[j]).key by {
            if j == log.len() {
                assert(once[i] == log[i]);
            } else {
                assert(once[i] == log[i] && once[j] == log[j]);
            }
        }
    }
    assert forall|i: int, j: int|
        0 <= i < once.len() && 0 <= j < once.len() && (#[trigger] once[i]).key == key && (
        #[trigger] once[j]).key == key implies i == j by {
        if i < j {
            assert(once[i].key != once[j].key);
        } else if j < i {
            assert(once[j].key != once[i].key);
        }
    }
}

/// A content-addressed store held in memory.
pub struct ObjectStore {
    objects: Vec<StoredObject>,
}

impl View for ObjectStore {
    type V = Seq<StoredView>;

    closed spec fn view(&self) -> Seq<StoredView> {
        self.objects@.map_values(|o: StoredObject| o@)
    }
}

impl ObjectStore {
    /// No key occurs twice. This holds of every store.
    #[verifier::type_invariant]
    pub open spec fn well_formed(&self) -> bool {
        distinct_keys(self@)
    }

    /// An empty store.
    pub fn new() -> (store: ObjectStore)
        ensures
            store@ == Seq::<StoredView>::empty(),
    {
        let store = ObjectStore { objects: Vec::new() };
        proof {
            assert(store@ =~= Seq::<StoredView>::empty());
        }
        store
    }

    /// The number of stored objects.
    pub fn len(&self) -> (n: usize)
        ensures
            n == self@.len(),
    {
        self.objects.len()
    }

    /// The object at position `i`, in the order in which objects were put.
    pub fn object_at(&self, i: usize) -> (object: &StoredObject)
        requires
            i < self@.len(),
        ensures
            object@ == self@[i as int],
    {
        &self.objects[i]
    }

    /// Where the object under `fingerprint` stands, or `len()` for none.
    fn find(&self, fingerprint: &Fingerprint) -> (at: usize)
        ensures
            at == position_of(self@, fingerprint@),
            at <= self@.len(),
    {
        let mut i: usize = 0;
        while i < self.objects.len()
            invariant
                i <= self.objects@.len(),
                forall|k: int| 0 <= k < i ==> (#[trigger] self@[k]).key != fingerprint@,
            decreases self.objects@.len() - i,
        {
            if self.objects[i].fingerprint.same_as(fingerprint) {
                proof {
                    lemma_position_of(self@, fingerprint@);
                    let at = position_of(self@, fingerprint@);
                    assert(self@[i as int].key == fingerprint@);
                    if at < i {
                        assert(self@[at].key == fingerprint@);
                    }
                }
                return i;
            }
            proof {
                assert(self@[i as int].key != fingerprint@);
            }
            i += 1;
        }
        proof {
            lemma_position_of(self@, fingerprint@);
            let at = position_of(self@, fingerprint@);
            if at < i {
                assert(self@[at].key == fingerprint@);
            }
        }
        i
    }

    /// Whether an object is stored under `fingerprint`.
    pub fn contains(&self, fingerprint: &Fingerprint) -> (yes: bool)
        ensures
            yes == holds(self@, fingerprint@),
    {
        let at = self.find(fingerprint);
        proof {
            lemma_position_of(self@, fingerprint@);
        }
        at < self.objects.len()
    }

    /// Stores `bytes` under `fingerprint` unless the fingerprint is taken.
    ///
    /// A taken fingerprint makes the call a successful no-op: what is stored
    /// under it stays as it is and `bytes` is not looked at.
    pub fn put(&mut self, fingerprint: Fingerprint, bytes: Vec<u8>)
        ensures
            final(self)@ == after_put(old(self)@, fingerprint@, bytes@),
            holds(final(self)@, fingerprint@),
    {
        proof {
            use_type_invariant(&*self);
            lemma_position_of(self@, fingerprint@);
        }
        let at = self.find(&fingerprint);
        if at == self.objects.len() {
            let ghost before = self@;
            let mut objects: Vec<StoredObject> = Vec::new();
            core::mem::swap(&mut objects, &mut self.objects);
            objects.push(StoredObject { fingerprint, bytes });
            proof {
                let after = objects@.map_values(|o: StoredObject| o@);
                assert(after =~= before.push(StoredView { key: fingerprint@, bytes: bytes@ }));
                assert(distinct_keys(after));
                assert(after[before.len() as int].key == fingerprint@);
            }
            self.objects = objects;
        }
    }

    /// The bytes stored under `fingerprint`.
    ///
    /// Fails with `ObjectNotFound` exactly when nothing is stored under it.
    pub fn get(&self, fingerprint: &Fingerprint) -> (bytes: Result<Vec<u8>, Error>)
        ensures
            match bytes {
                Ok(found) => bytes_of(self@, fingerprint@) == Some(found@),
                Err(e) => e == Error::ObjectNotFound && bytes_of(self@, fingerprint@).is_none(),
            },
    {
        let at = self.find(fingerprint);
        proof {
            lemma_position_of(self@, fingerprint@);
        }
        if at < self.objects.len() {
            Ok(copy_bytes(self.objects[at].bytes.as_slice()))
        } else {
            Err(Error::ObjectNotFound)
        }
    }

    /// Puts canonical bytes under their fingerprint, compressed.
    fn put_canonical(&mut self, bytes: Vec<u8>) -> (fp: Fingerprint)
        ensures
            fp@ == fingerprint_of(bytes@),
            final(self)@ == after_put(old(self)@, fp@, zlib_deflated(bytes@)),
            holds(final(self)@, fp@),
            !holds(old(self)@, fp@) ==> object_under(final(self)@, fp@) == parse_object(bytes@),
    {
        let fp = fingerprint(bytes.as_slice());
        let stream = compress(bytes.as_slice());
        let ghost before = self@;
        self.put(fp, stream);
        proof {
            lemma_position_of(before, fp@);
            lemma_position_of(self@, fp@);
            if !holds(before, fp@) {
                let at = position_of(self@, fp@);
                if at < before.len() {
                    assert(before[at] == self@[at]);
                }
            }
        }
        fp
    }

    /// Stores `content` as a blob and hands back its fingerprint.
    ///
    /// The fingerprint depends on the content alone. Unless the fingerprint
    /// was taken, reading it gives the blob back.
    pub fn store_blob(&mut self, content: &[u8]) -> (fp: Fingerprint)
        ensures
            fp@ == stored_form(ObjectView::Blob { content: content@ }).key,
            final(self)@ == after_put(
                old(self)@,
                fp@,
                stored_form(ObjectView::Blob { content: content@ }).bytes,
            ),
            holds(final(self)@, fp@),
            !holds(old(self)@, fp@) ==> object_under(final(self)@, fp@) == Ok::<ObjectView, Error>(
                ObjectView::Blob { content: content@ },
            ),
    {
        proof {
            lemma_parse_inverts_layout(ObjectView::Blob { content: content@ });
        }
        self.put_canonical(encode_blob(content))
    }

    /// Stores the tree with the given entries, in the order in which they
    /// stand, and hands back its fingerprint.
    ///
    /// Unless the fingerprint was taken, reading it gives the tree back,
    /// provided that no name holds a zero byte.
    pub fn store_tree(&mut self, entries: &Vec<Entry>) -> (fp: Fingerprint)
        ensures
            fp@ == stored_form(ObjectView::Tree { entries: entry_views(entries@) }).key,
            final(self)@ == after_put(
                old(self)@,
                fp@,
                stored_form(ObjectView::Tree { entries: entry_views(entries@) }).bytes,
            ),
            holds(final(self)@, fp@),
            !holds(old(self)@, fp@) && (ObjectView::Tree { entries: entry_views(entries@) }).readable()
                ==> object_under(final(self)@, fp@) == Ok::<ObjectView, Error>(
                ObjectView::Tree { entries: entry_views(entries@) },
            ),
    {
        proof {
            let tree = ObjectView::Tree { entries: entry_views(entries@) };
            if tree.readable() {
                lemma_parse_inverts_layout(tree);
            }
        }
        self.put_canonical(encode_tree(entries))
    }

    /// Stores `object` and hands back its fingerprint.
    ///
    /// Unless the fingerprint was taken, reading it gives the object back,
    /// provided that no name in it holds a zero byte.
    pub fn store_object(&mut self, object: &Object) -> (fp: Fingerprint)
        ensures
            fp@ == stored_form(object@).key,
            final(self)@ == after_put(old(self)@, fp@, stored_form(object@).bytes),
            holds(final(self)@, fp@),
            !holds(old(self)@, fp@) && object@.readable() ==> object_under(final(self)@, fp@)
                == Ok::<ObjectView, Error>(object@),
    {
        match object {
            Object::Blob { content } => self.store_blob(content.as_slice()),
            Object::Tree { entries } => self.store_tree(entries),
        }
    }

    /// Reads the object under `fingerprint`: gets it, decompresses it and
    /// decodes it. Each step's failure comes out unchanged.
    pub fn read_object(&self, fingerprint: &Fingerprint) -> (object: Result<Object, Error>)
        ensures
            match object {
                Ok(o) => object_under(self@, fingerprint@) == Ok::<ObjectView, Error>(o@),
                Err(e) => object_under(self@, fingerprint@) == Err::<ObjectView, Error>(e),
            },
    {
        match self.get(fingerprint) {
            Ok(stream) => unpack(stream.as_slice()),
            Err(e) => Err(e),
        }
    }
}

} // verus!
