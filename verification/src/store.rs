//! The content-addressed object store.
//!
//! The store keeps every object's compressed record under its payload
//! hash. On disk each object lives in a shard directory named by the
//! first two hex characters of the hash; in memory the store is the
//! mapping from hash to compressed record, which is what the contracts
//! speak about.

use vstd::prelude::*;
use crate::bytes::{bytes_clone, bytes_eq, sub_bytes};
use crate::compress::{zstd_compress, zstd_decompress, zstd_frame_of};
use crate::hashing::{hash_hex, hash_hex_of};
use crate::object::{
    encode_record, lemma_encode_injective, parse_record, spec_encode_record, ObjectKind,
    ObjectRecord, StoreError,
};

verus! {

/// One stored object: its 64-character hex hash and its compressed record.
pub struct StoredObject {
    pub hash: Vec<u8>,
    pub data: Vec<u8>,
}

/// The mapping a sequence of stored objects stands for.
pub open spec fn map_of(s: Seq<StoredObject>) -> Map<Seq<u8>, Seq<u8>>
    decreases s.len(),
{
    if s.len() == 0 {
        Map::empty()
    } else {
        map_of(s.drop_last()).insert(s.last().hash@, s.last().data@)
    }
}

/// No two stored objects share a hash.
pub open spec fn unique_hashes(s: Seq<StoredObject>) -> bool {
    forall|i: int, j: int| 0 <= i < j < s.len() ==> s[i].hash@ != s[j].hash@
}

proof fn lemma_map_of_contains(s: Seq<StoredObject>, h: Seq<u8>)
    ensures
        map_of(s).contains_key(h) <==> exists|i: int| 0 <= i < s.len() && s[i].hash@ == h,
    decreases s.len(),
{
    if s.len() > 0 {
        lemma_map_of_contains(s.drop_last(), h);
        if s.last().hash@ == h {
            assert(s[s.len() - 1].hash@ == h);
        } else if map_of(s).contains_key(h) {
            let i = choose|i: int| 0 <= i < s.drop_last().len() && s.drop_last()[i].hash@ == h;
            assert(s[i].hash@ == h);
        } else if exists|i: int| 0 <= i < s.len() && s[i].hash@ == h {
            let i = choose|i: int| 0 <= i < s.len() && s[i].hash@ == h;
            assert(s.drop_last()[i].hash@ == h);
        }
    }
}

proof fn lemma_map_of_index(s: Seq<StoredObject>, i: int)
    requires
        unique_hashes(s),
        0 <= i < s.len(),
    ensures
        map_of(s).contains_key(s[i].hash@),
        map_of(s)[s[i].hash@] == s[i].data@,
    decreases s.len(),
{
    if i == s.len() - 1 {
    } else {
        assert(unique_hashes(s.drop_last())) by {
            assert(forall|x: int, y: int|
                0 <= x < y < s.drop_last().len() ==> s.drop_last()[x].hash@ != s.drop_last()[y].hash@);
        }
        lemma_map_of_index(s.drop_last(), i);
        assert(s.drop_last()[i] == s[i]);
        assert(s.last().hash@ != s[i].hash@);
    }
}

proof fn lemma_map_of_len(s: Seq<StoredObject>)
    requires
        unique_hashes(s),
    ensures
        map_of(s).len() == s.len(),
        map_of(s).dom().finite(),
    decreases s.len(),
{
    if s.len() > 0 {
        assert(unique_hashes(s.drop_last()));
        lemma_map_of_len(s.drop_last());
        lemma_map_of_contains(s.drop_last(), s.last().hash@);
        assert(!map_of(s.drop_last()).contains_key(s.last().hash@)) by {
            if exists|i: int| 0 <= i < s.drop_last().len() && s.drop_last()[i].hash@
                == s.last().hash@ {
                let i = choose|i: int|
                    0 <= i < s.drop_last().len() && s.drop_last()[i].hash@ == s.last().hash@;
                assert(s[i].hash@ == s[s.len() - 1].hash@);
            }
        }
    }
}

/// Updating the object at `i` with one of the same hash updates the map.
proof fn lemma_map_of_update(s: Seq<StoredObject>, i: int, x: StoredObject)
    requires
        unique_hashes(s),
        0 <= i < s.len(),
        s[i].hash@ == x.hash@,
    ensures
        map_of(s.update(i, x)) == map_of(s).insert(x.hash@, x.data@),
    decreases s.len(),
{
    let s2 = s.update(i, x);
    if i == s.len() - 1 {
        assert(s2.drop_last() =~= s.drop_last());
        assert(s2.last() == x);
        assert(map_of(s.drop_last()).insert(x.hash@, x.data@) =~= map_of(s).insert(
            x.hash@,
            x.data@,
        ));
    } else {
        assert(unique_hashes(s.drop_last()));
        assert(s.drop_last()[i] == s[i]);
        lemma_map_of_update(s.drop_last(), i, x);
        assert(s2.drop_last() =~= s.drop_last().update(i, x));
        assert(s2.last() == s.last());
        assert(s.last().hash@ != x.hash@);
        assert(map_of(s.drop_last()).insert(x.hash@, x.data@).insert(
            s.last().hash@,
            s.last().data@,
        ) =~= map_of(s.drop_last()).insert(s.last().hash@, s.last().data@).insert(
            x.hash@,
            x.data@,
        ));
    }
}

/// The in-memory object store.
pub struct ObjectStore {
    objects: Vec<StoredObject>,
}

impl View for ObjectStore {
    type V = Map<Seq<u8>, Seq<u8>>;

    closed spec fn view(&self) -> Map<Seq<u8>, Seq<u8>> {
        map_of(self.objects@)
    }
}

impl ObjectStore {
    /// Hashes are unique and each is the 64-character hex digest form.
    pub closed spec fn wf(self) -> bool {
        &&& unique_hashes(self.objects@)
        &&& forall|i: int| 0 <= i < self.objects@.len() ==> (#[trigger] self.objects@[i]).hash@.len()
            == 64
    }

    /// An empty store.
    pub fn new() -> (r: ObjectStore)
        ensures
            r.wf(),
            r@ == Map::<Seq<u8>, Seq<u8>>::empty(),
    {
        ObjectStore { objects: Vec::new() }
    }

    fn find_index(&self, hash: &Vec<u8>) -> (r: Option<usize>)
        ensures
            r matches Some(i) ==> i < self.objects@.len() && self.objects@[i as int].hash@
                == hash@,
            r is None ==> forall|i: int|
                0 <= i < self.objects@.len() ==> (#[trigger] self.objects@[i]).hash@ != hash@,
    {
        let mut i: usize = 0;
        while i < self.objects.len()
            invariant
                i <= self.objects@.len(),
                forall|j: int| 0 <= j < i ==> (#[trigger] self.objects@[j]).hash@ != hash@,
            decreases self.objects@.len() - i,
        {
            if bytes_eq(&self.objects[i].hash, hash) {
                return Some(i);
            }
            i = i + 1;
        }
        None
    }

    /// How many distinct objects the store holds.
    pub fn object_count(&self) -> (r: usize)
        requires
            self.wf(),
        ensures
            r as nat == self@.len(),
    {
        proof {
            lemma_map_of_len(self.objects@);
        }
        self.objects.len()
    }

    /// The stored objects, for persisting them; their hashes are the
    /// store's keys.
    pub fn objects(&self) -> (r: &Vec<StoredObject>)
        requires
            self.wf(),
        ensures
            map_of(r@) == self@,
            forall|i: int| 0 <= i < r@.len() ==> (#[trigger] r@[i]).hash@.len() == 64,
    {
        &self.objects
    }

    /// Whether an object is stored under `hash`.
    pub fn contains(&self, hash: &Vec<u8>) -> (r: bool)
        ensures
            r <==> self@.contains_key(hash@),
    {
        proof {
            lemma_map_of_contains(self.objects@, hash@);
        }
        self.find_index(hash).is_some()
    }

    /// Store `payload` as an object of kind `kind`: encode the record,
    /// compress it, and file it under the payload's hash. Writing content
    /// that is already present overwrites it with identical bytes. The
    /// in-memory store always succeeds: compression of a record cannot
    /// fail.
    pub fn put(&mut self, kind: ObjectKind, payload: &Vec<u8>) -> (r: Result<Vec<u8>, StoreError>)
        requires
            old(self).wf(),
        ensures
            final(self).wf(),
            r is Ok,
            r matches Ok(h) ==> h@ == hash_hex_of(payload@) && h@.len() == 64 && final(self)@
                == old(self)@.insert(
                hash_hex_of(payload@),
                zstd_frame_of(spec_encode_record(kind, payload@)),
            ),
    {
        let enc = encode_record(kind, payload);
        let frame = zstd_compress(&enc).unwrap();
        let h = hash_hex(payload);
        let obj = StoredObject { hash: bytes_clone(&h), data: frame };
        let ghost gobj = obj;
        let ghost sold = self.objects@;
        match self.find_index(&obj.hash) {
            Some(i) => {
                proof {
                    lemma_map_of_update(sold, i as int, gobj);
                }
                self.objects.remove(i);
                self.objects.insert(i, obj);
                proof {
                    assert(self.objects@ =~= sold.update(i as int, gobj));
                    assert(unique_hashes(self.objects@)) by {
                        assert(forall|x: int|
                            0 <= x < self.objects@.len() && x != i ==> #[trigger] self.objects@[x]
                                == sold[x]);
                    }
                }
            },
            None => {
                self.objects.push(obj);
                proof {
                    assert(self.objects@.drop_last() =~= sold);
                    assert(unique_hashes(self.objects@)) by {
                        assert(forall|x: int|
                            0 <= x < sold.len() ==> #[trigger] self.objects@[x] == sold[x]);
                    }
                }
            },
        }
        Ok(h)
    }

    /// Look up the object stored under `hash`, decompress it, and parse
    /// its record.
    pub fn get(&self, hash: &Vec<u8>) -> (r: Result<ObjectRecord, StoreError>)
        requires
            self.wf(),
        ensures
            (r matches Err(e) && e == StoreError::NotFound) <==> !self@.contains_key(hash@),
            forall|k: ObjectKind, p: Seq<u8>|
                self@.contains_key(hash@) && self@[hash@] == zstd_frame_of(
                    spec_encode_record(k, p),
                ) ==> (r matches Ok(rec) && rec.kind == k && rec.payload@ == p && rec.size
                    == p.len()),
            r matches Ok(rec) ==> self@.contains_key(hash@) && rec.size == rec.payload@.len(),
            r matches Err(e) ==> e == StoreError::NotFound || e == StoreError::CorruptObject,
    {
        proof {
            lemma_map_of_contains(self.objects@, hash@);
        }
        match self.find_index(hash) {
            Some(i) => {
                proof {
                    lemma_map_of_index(self.objects@, i as int);
                }
                decode_object(&self.objects[i].data)
            },
            None => Err(StoreError::NotFound),
        }
    }
}

/// Decompress a stored object file and parse its record.
pub fn decode_object(data: &Vec<u8>) -> (r: Result<ObjectRecord, StoreError>)
    ensures
        forall|k: ObjectKind, p: Seq<u8>|
            data@ == zstd_frame_of(spec_encode_record(k, p)) ==> (r matches Ok(rec) && rec.kind
                == k && rec.payload@ == p && rec.size == p.len()),
        r matches Ok(rec) ==> rec.size == rec.payload@.len(),
        r matches Err(e) ==> e == StoreError::CorruptObject,
{
    let d = match zstd_decompress(data) {
        Some(d) => d,
        None => {
            return Err(StoreError::CorruptObject);
        },
    };
    match parse_record(&d) {
        Some(rec) => {
            proof {
                assert forall|k: ObjectKind, p: Seq<u8>|
                    data@ == zstd_frame_of(spec_encode_record(k, p)) implies rec.kind == k
                    && rec.payload@ == p by {
                    lemma_encode_injective(rec.kind, rec.payload@, k, p);
                }
            }
            Ok(rec)
        },
        None => Err(StoreError::CorruptObject),
    }
}

/// The payload of a stored object file: decompress, parse, and strip the
/// record header.
pub fn cat_file(data: &Vec<u8>) -> (r: Result<Vec<u8>, StoreError>)
    ensures
        forall|k: ObjectKind, p: Seq<u8>|
            data@ == zstd_frame_of(spec_encode_record(k, p)) ==> (r matches Ok(pl) && pl@ == p),
        r matches Err(e) ==> e == StoreError::CorruptObject,
{
    match decode_object(data) {
        Ok(rec) => Ok(rec.payload),
        Err(e) => Err(e),
    }
}

/// The shard directory an object hash names: its first two characters.
pub fn shard_dir(hash: &Vec<u8>) -> (r: Vec<u8>)
    requires
        hash@.len() >= 2,
    ensures
        r@ == hash@.subrange(0, 2),
{
    sub_bytes(hash, 0, 2)
}

/// The file name an object hash names inside its shard directory: the
/// characters after the first two.
pub fn shard_file(hash: &Vec<u8>) -> (r: Vec<u8>)
    requires
        hash@.len() >= 2,
    ensures
        r@ == hash@.subrange(2, hash@.len() as int),
{
    sub_bytes(hash, 2, hash.len())
}

} // verus!
