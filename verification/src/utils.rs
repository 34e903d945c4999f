//! Node and record ids.

use sha1::Digest;
use vstd::prelude::*;

verus! {

/// Length of a node or record id in bytes.
pub const ID_LEN: usize = 20;

/// What SHA-1 makes of `data`.
pub uninterp spec fn sha1_of(data: Seq<u8>) -> Seq<u8>;

/// The id of a record key.
pub open spec fn digest_of(key: Seq<char>) -> Seq<u8> {
    sha1_of(vstd::utf8::encode_utf8(key))
}

/// `sha1::Sha1::digest`. Claimed: the result is a function of the bytes alone,
/// named [`sha1_of`]. Nothing is said of its values.
#[verifier::external_body]
fn sha1_digest(data: &[u8]) -> (id: [u8; ID_LEN])
    ensures
        id@ == sha1_of(data@),
{
    sha1::Sha1::digest(data).into()
}

/// The digest of raw bytes.
pub fn digest_bytes(data: &[u8]) -> (id: [u8; ID_LEN])
    ensures
        id@ == sha1_of(data@),
{
    sha1_digest(data)
}

/// The id under which the record `key` is stored: the digest of its UTF-8 bytes.
pub fn digest(key: &str) -> (id: [u8; ID_LEN])
    ensures
        id@ == digest_of(key@),
{
    digest_bytes(key.as_bytes())
}

/// `rand::thread_rng` and its `fill_bytes`. Claimed: `len` bytes come back; which
/// ones is up to chance. Panics if the operating system has no entropy to give.
#[verifier::external_body]
pub(crate) fn random_bytes(len: usize) -> (bytes: Vec<u8>)
    ensures
        bytes@.len() == len,
{
    let mut bytes = vec![0u8; len];
    rand::RngCore::fill_bytes(&mut rand::thread_rng(), &mut bytes);
    bytes
}

/// Compares two ids byte by byte.
pub fn id_eq(a: &[u8; ID_LEN], b: &[u8; ID_LEN]) -> (equal: bool)
    ensures
        equal <==> a@ == b@,
{
    let mut i: usize = 0;
    while i < ID_LEN
        invariant
            i <= ID_LEN,
            forall|j: int| 0 <= j < i ==> a@[j] == b@[j],
        decreases ID_LEN - i,
    {
        if a[i] != b[i] {
            return false;
        }
        i = i + 1;
    }
    assert(a@ =~= b@);
    true
}

/// Compares two byte strings.
pub fn bytes_eq(a: &[u8], b: &[u8]) -> (equal: bool)
    ensures
        equal <==> a@ == b@,
{
    if a.len() != b.len() {
        return false;
    }
    let mut i: usize = 0;
    while i < a.len()
        invariant
            i <= a@.len(),
            a@.len() == b@.len(),
            forall|j: int| 0 <= j < i ==> a@[j] == b@[j],
        decreases a@.len() - i,
    {
        if a[i] != b[i] {
            return false;
        }
        i = i + 1;
    }
    assert(a@ =~= b@);
    true
}

/// The id that `bytes` holds.
pub(crate) fn id_of(bytes: &[u8]) -> (id: [u8; ID_LEN])
    requires
        bytes@.len() == ID_LEN,
    ensures
        id@ == bytes@,
{
    let mut id: [u8; ID_LEN] = [0u8; 20];
    let mut i: usize = 0;
    while i < ID_LEN
        invariant
            i <= ID_LEN,
            bytes@.len() == ID_LEN,
            forall|j: int| 0 <= j < i ==> id@[j] == bytes@[j],
        decreases ID_LEN - i,
    {
        id[i] = bytes[i];
        i = i + 1;
    }
    assert(id@ =~= bytes@);
    id
}

/// The id that `bytes` holds, or `None` if it is not as long as an id.
pub fn id_from_slice(bytes: &[u8]) -> (id: Option<[u8; ID_LEN]>)
    ensures
        match id {
            Some(id) => id@ == bytes@,
            None => bytes@.len() != ID_LEN,
        },
{
    if bytes.len() == ID_LEN {
        Some(id_of(bytes))
    } else {
        None
    }
}

/// A copy of a byte string.
pub fn copy_bytes(bytes: &Vec<u8>) -> (copy: Vec<u8>)
    ensures
        copy@ == bytes@,
{
    let copy = bytes.clone();
    assert(copy@ =~= bytes@);
    copy
}

} // verus!
