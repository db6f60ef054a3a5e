//! Objects as they are stored: under the fingerprint of their canonical
//! bytes, those bytes compressed.

use vstd::prelude::*;
use crate::digest::{fingerprint, fingerprint_of, Fingerprint};
use crate::error::Error;
use crate::layout::{canonical_bytes, decode, encode, lemma_parse_inverts_layout, parse_object};
use crate::object::{Object, ObjectView};
use crate::zlib::{compress, decompress, zlib_deflated, zlib_inflated};

verus! {

/// One stored object: its address and its compressed bytes.
#[derive(Clone, Debug, PartialEq, Eq)]
pub struct StoredObject {
    pub fingerprint: Fingerprint,
    pub bytes: Vec<u8>,
}

/// The mathematical value of a `StoredObject`.
pub struct StoredView {
    pub key: Seq<u8>,
    pub bytes: Seq<u8>,
}

impl View for StoredObject {
    type V = StoredView;

    open spec fn view(&self) -> StoredView {
        StoredView { key: self.fingerprint@, bytes: self.bytes@ }
    }
}

/// An object as it is stored: under the fingerprint of its canonical bytes,
/// those bytes compressed.
pub open spec fn stored_form(object: ObjectView) -> StoredView {
    StoredView {
        key: fingerprint_of(canonical_bytes(object)),
        bytes: zlib_deflated(canonical_bytes(object)),
    }
}

/// The object that a stored stream holds: `CorruptObject` where the stream
/// cannot be decompressed, and else what the decompressed bytes decode to.
pub open spec fn unpacked(stream: Seq<u8>) -> Result<ObjectView, Error> {
    match zlib_inflated(stream) {
        None => Err(Error::CorruptObject),
        Some(bytes) => parse_object(bytes),
    }
}

/// The fingerprint of `object`: that of its canonical bytes, header and
/// payload hashed as one buffer.
pub fn fingerprint_object(object: &Object) -> (fp: Fingerprint)
    ensures
        fp@ == stored_form(object@).key,
{
    let bytes = encode(object);
    fingerprint(bytes.as_slice())
}

/// The fingerprint is a function of the object's value alone: objects of
/// the same value have the same fingerprint, whenever and wherever it is
/// computed.
pub proof fn law_fingerprint_is_determined(one: Object, other: Object)
    requires
        one@ == other@,
    ensures
        stored_form(one@).key == stored_form(other@).key,
        stored_form(one@).bytes == stored_form(other@).bytes,
{
}

/// Makes `object` ready for storing: its fingerprint and its compressed
/// canonical bytes. Unpacking those gives the object back, provided that no
/// name in it holds a zero byte.
pub fn pack(object: &Object) -> (packed: StoredObject)
    ensures
        packed@ == stored_form(object@),
        unpacked(packed@.bytes) == parse_object(canonical_bytes(object@)),
        object@.readable() ==> unpacked(packed@.bytes) == Ok::<ObjectView, Error>(object@),
{
    proof {
        if object@.readable() {
            lemma_parse_inverts_layout(object@);
        }
    }
    let bytes = encode(object);
    StoredObject {
        fingerprint: fingerprint(bytes.as_slice()),
        bytes: compress(bytes.as_slice()),
    }
}

/// Decompresses and decodes a stored stream. The failure of either step
/// comes out unchanged.
pub fn unpack(stream: &[u8]) -> (object: Result<Object, Error>)
    ensures
        match object {
            Ok(o) => unpacked(stream@) == Ok::<ObjectView, Error>(o@),
            Err(e) => unpacked(stream@) == Err::<ObjectView, Error>(e),
        },
{
    match decompress(stream) {
        Ok(bytes) => decode(bytes.as_slice()),
        Err(e) => Err(e),
    }
}

} // verus!
