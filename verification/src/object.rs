//! Object records and their encoding.
//!
//! An object is stored as the record `"<kind> <size>\0<payload>"`,
//! compressed as one zstd frame, and addressed by the hex SHA-256 hash of
//! the payload.

use vstd::prelude::*;
use crate::bytes::{bytes_eq, dec_digits, lemma_dec_digits_range, push_all, sub_bytes, u64_dec};

verus! {

/// The kind of a stored object: a file payload or a directory manifest.
#[derive(Clone, Copy, PartialEq, Eq, Structural, Debug)]
pub enum ObjectKind {
    Blob,
    Tree,
}

/// Why a store operation failed.
#[derive(Clone, Copy, PartialEq, Eq, Structural, Debug)]
pub enum StoreError {
    /// No object is stored under the requested hash.
    NotFound,
    /// The stored bytes do not decompress to a well-formed record.
    CorruptObject,
    /// A record could not be compressed; the in-memory store's `put`
    /// proves this never occurs.
    EncodingError,
}

/// A decoded object record.
pub struct ObjectRecord {
    pub kind: ObjectKind,
    pub size: usize,
    pub payload: Vec<u8>,
}

/// The four ASCII bytes naming an object kind.
pub open spec fn kind_bytes(k: ObjectKind) -> Seq<u8> {
    match k {
        ObjectKind::Blob => seq![98u8, 108u8, 111u8, 98u8],
        ObjectKind::Tree => seq![116u8, 114u8, 101u8, 101u8],
    }
}

/// The record written for an object: `"<kind> <size>\0<payload>"`.
pub open spec fn spec_encode_record(k: ObjectKind, payload: Seq<u8>) -> Seq<u8> {
    kind_bytes(k) + seq![32u8] + dec_digits(payload.len()) + seq![0u8] + payload
}

/// Build the record `"<kind> <size>\0<payload>"`.
pub fn encode_record(kind: ObjectKind, payload: &Vec<u8>) -> (r: Vec<u8>)
    ensures
        r@ == spec_encode_record(kind, payload@),
{
    let mut r: Vec<u8> = Vec::new();
    match kind {
        ObjectKind::Blob => {
            r.push(98);
            r.push(108);
            r.push(111);
            r.push(98);
        },
        ObjectKind::Tree => {
            r.push(116);
            r.push(114);
            r.push(101);
            r.push(101);
        },
    }
    r.push(32);
    let digits = u64_dec(payload.len() as u64);
    push_all(&mut r, &digits);
    r.push(0);
    push_all(&mut r, payload);
    proof {
        assert(r@ =~= spec_encode_record(kind, payload@));
    }
    r
}

/// How the bytes of a record lie: the kind, the separating space, the size
/// digits, the single zero byte that ends the header, and the payload.
proof fn lemma_record_shape(k: ObjectKind, p: Seq<u8>)
    ensures
        ({
            let enc = spec_encode_record(k, p);
            let d = dec_digits(p.len());
            let z = 5 + d.len();
            &&& enc.len() == z + 1 + p.len()
            &&& forall|j: int| 0 <= j < 4 ==> enc[j] == kind_bytes(k)[j]
            &&& enc[4] == 32
            &&& forall|j: int| 0 <= j < d.len() ==> enc[5 + j] == d[j]
            &&& enc[z as int] == 0
            &&& forall|j: int| 0 <= j < p.len() ==> enc[z + 1 + j] == p[j]
            &&& forall|j: int| 0 <= j < z ==> enc[j] != 0
            &&& z >= 6
        }),
{
    let enc = spec_encode_record(k, p);
    let d = dec_digits(p.len());
    let z = 5 + d.len();
    lemma_dec_digits_range(p.len());
    assert forall|j: int| 0 <= j < z implies enc[j] != 0 by {
        if j < 4 {
            assert(enc[j] == kind_bytes(k)[j]);
        } else if j == 4 {
            assert(enc[4] == 32);
        } else {
            assert(enc[j] == d[j - 5]);
        }
    }
}

/// Two equal records came from the same kind and payload.
pub proof fn lemma_encode_injective(k1: ObjectKind, p1: Seq<u8>, k2: ObjectKind, p2: Seq<u8>)
    requires
        spec_encode_record(k1, p1) == spec_encode_record(k2, p2),
    ensures
        k1 == k2,
        p1 == p2,
{
    let e1 = spec_encode_record(k1, p1);
    let e2 = spec_encode_record(k2, p2);
    lemma_record_shape(k1, p1);
    lemma_record_shape(k2, p2);
    assert(e1[0] == kind_bytes(k1)[0]);
    assert(e2[0] == kind_bytes(k2)[0]);
    let d1 = dec_digits(p1.len());
    let d2 = dec_digits(p2.len());
    let z1 = 5 + d1.len();
    let z2 = 5 + d2.len();
    assert(d1.len() == d2.len()) by {
        if z1 < z2 {
            assert(e1[z1 as int] == 0);
            assert(e2[z1 as int] != 0);
        }
        if z2 < z1 {
            assert(e2[z2 as int] == 0);
            assert(e1[z2 as int] != 0);
        }
    }
    assert(p1 =~= p2) by {
        assert(e1.len() == e2.len());
        assert forall|j: int| 0 <= j < p1.len() implies p1[j] == p2[j] by {
            assert(e1[z1 + 1 + j] == p1[j]);
            assert(e2[z1 + 1 + j] == p2[j]);
        }
    }
}

/// The index of the first zero byte, if any.
fn find_first_zero(data: &Vec<u8>) -> (r: Option<usize>)
    ensures
        r matches Some(z) ==> z < data@.len() && data@[z as int] == 0 && forall|j: int|
            0 <= j < z ==> data@[j] != 0,
        r is None ==> forall|j: int| 0 <= j < data@.len() ==> data@[j] != 0,
{
    let mut i: usize = 0;
    while i < data.len()
        invariant
            i <= data@.len(),
            forall|j: int| 0 <= j < i ==> data@[j] != 0,
        decreases data@.len() - i,
    {
        if data[i] == 0 {
            return Some(i);
        }
        i = i + 1;
    }
    None
}

/// Parse a record back into its kind, size and payload. Returns `None`
/// exactly when the bytes are not `encode_record` output.
pub fn parse_record(data: &Vec<u8>) -> (r: Option<ObjectRecord>)
    ensures
        r matches Some(rec) ==> data@ == spec_encode_record(rec.kind, rec.payload@)
            && rec.size == rec.payload@.len(),
        forall|k: ObjectKind, p: Seq<u8>| data@ == spec_encode_record(k, p) ==> r is Some,
{
    let ghost valid = exists|k: ObjectKind, p: Seq<u8>| data@ == spec_encode_record(k, p);
    proof {
        if valid {
            let (k, p) = choose|k: ObjectKind, p: Seq<u8>| data@ == spec_encode_record(k, p);
            lemma_record_shape(k, p);
        }
    }
    let zo = find_first_zero(data);
    if zo.is_none() {
        return None;
    }
    let z = zo.unwrap();
    assert(z < data@.len());
    if z < 6 {
        return None;
    }
    let kind = if data[0] == 98 && data[1] == 108 && data[2] == 111 && data[3] == 98 {
        ObjectKind::Blob
    } else if data[0] == 116 && data[1] == 114 && data[2] == 101 && data[3] == 101 {
        ObjectKind::Tree
    } else {
        return None;
    };
    let n = data.len();
    let payload = sub_bytes(data, z + 1, n);
    let enc = encode_record(kind, &payload);
    let same = bytes_eq(&enc, data);
    proof {
        if valid {
            let (k, p) = choose|k: ObjectKind, p: Seq<u8>| data@ == spec_encode_record(k, p);
            lemma_record_shape(k, p);
            let zv = 5 + dec_digits(p.len()).len();
            assert(data@[zv as int] == 0);
            assert(z == zv);
            assert(data@[0] == kind_bytes(k)[0]);
            assert(k == kind);
            assert(payload@ =~= p);
            assert(enc@ == data@);
        }
    }
    if !same {
        return None;
    }
    Some(ObjectRecord { kind, size: payload.len(), payload })
}

} // verus!
