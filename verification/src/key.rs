//! File identity: the size of a file together with its name.
//!
//! Two files count as the same file exactly when their identity keys are
//! equal. Keys are ordered by size first, then by name, the names compared
//! byte by byte in their UTF-8 encoding: the order has no meaning beyond
//! making every walk over an index deterministic.

use vstd::prelude::*;
use vstd::utf8::{encode_utf8, encode_utf8_decode_utf8};

verus! {

/// The identity of a file: its length in bytes and its file name.
#[derive(Clone, Debug, PartialEq, Eq)]
pub struct IdentityKey {
    pub size: u64,
    pub name: String,
}

/// The mathematical value of an identity key.
pub struct KeyModel {
    pub size: nat,
    pub name: Seq<char>,
}

impl View for IdentityKey {
    type V = KeyModel;

    open spec fn view(&self) -> KeyModel {
        KeyModel { size: self.size as nat, name: self.name@ }
    }
}

/// Strict lexicographic order on byte sequences.
pub open spec fn bytes_before(a: Seq<u8>, b: Seq<u8>) -> bool
    decreases a.len(),
{
    if b.len() == 0 {
        false
    } else if a.len() == 0 {
        true
    } else if a[0] != b[0] {
        a[0] < b[0]
    } else {
        bytes_before(a.drop_first(), b.drop_first())
    }
}

/// The strict order of identity keys: by size, then by the bytes of the name.
pub open spec fn key_before(a: KeyModel, b: KeyModel) -> bool {
    a.size < b.size || (a.size == b.size && bytes_before(
        encode_utf8(a.name),
        encode_utf8(b.name),
    ))
}

/// No byte sequence comes before itself.
pub proof fn lemma_bytes_irreflexive(a: Seq<u8>)
    ensures
        !bytes_before(a, a),
    decreases a.len(),
{
    if a.len() > 0 {
        lemma_bytes_irreflexive(a.drop_first());
    }
}

/// The order on byte sequences is transitive.
pub proof fn lemma_bytes_transitive(a: Seq<u8>, b: Seq<u8>, c: Seq<u8>)
    requires
        bytes_before(a, b),
        bytes_before(b, c),
    ensures
        bytes_before(a, c),
    decreases a.len(),
{
    if a.len() > 0 && a[0] == b[0] && b[0] == c[0] {
        lemma_bytes_transitive(a.drop_first(), b.drop_first(), c.drop_first());
    }
}

/// Of two different byte sequences one comes before the other.
pub proof fn lemma_bytes_connected(a: Seq<u8>, b: Seq<u8>)
    requires
        a != b,
    ensures
        bytes_before(a, b) || bytes_before(b, a),
    decreases a.len(),
{
    if a.len() > 0 && b.len() > 0 && a[0] == b[0] {
        if a.drop_first() == b.drop_first() {
            assert(a =~= seq![a[0]] + a.drop_first());
            assert(b =~= seq![b[0]] + b.drop_first());
        }
        lemma_bytes_connected(a.drop_first(), b.drop_first());
    } else if a.len() == 0 && b.len() == 0 {
        assert(a =~= b);
    }
}

/// No key comes before itself.
pub proof fn lemma_key_irreflexive(a: KeyModel)
    ensures
        !key_before(a, a),
{
    lemma_bytes_irreflexive(encode_utf8(a.name));
}

/// The order of keys is transitive.
pub proof fn lemma_key_transitive(a: KeyModel, b: KeyModel, c: KeyModel)
    requires
        key_before(a, b),
        key_before(b, c),
    ensures
        key_before(a, c),
{
    if a.size == b.size && b.size == c.size {
        lemma_bytes_transitive(encode_utf8(a.name), encode_utf8(b.name), encode_utf8(c.name));
    }
}

/// Of two different keys one comes before the other.
pub proof fn lemma_key_connected(a: KeyModel, b: KeyModel)
    requires
        a != b,
    ensures
        key_before(a, b) || key_before(b, a),
{
    if a.size == b.size {
        assert(a.name != b.name);
        if encode_utf8(a.name) == encode_utf8(b.name) {
            encode_utf8_decode_utf8(a.name);
            encode_utf8_decode_utf8(b.name);
        }
        lemma_bytes_connected(encode_utf8(a.name), encode_utf8(b.name));
    }
}

/// Whether the bytes `a` come before the bytes `b`.
fn slice_before(a: &[u8], b: &[u8]) -> (before: bool)
    ensures
        before == bytes_before(a@, b@),
{
    let mut i: usize = 0;
    assert(a@.skip(0) =~= a@ && b@.skip(0) =~= b@);
    while i < a.len() && i < b.len()
        invariant
            i <= a.len(),
            i <= b.len(),
            bytes_before(a@, b@) == bytes_before(a@.skip(i as int), b@.skip(i as int)),
        decreases a.len() - i,
    {
        assert(a@.skip(i as int).drop_first() =~= a@.skip(i + 1));
        assert(b@.skip(i as int).drop_first() =~= b@.skip(i + 1));
        if a[i] != b[i] {
            return a[i] < b[i];
        }
        i += 1;
    }
    i < b.len()
}

impl IdentityKey {
    /// The key of a file of the given size and name.
    pub fn new(size: u64, name: String) -> (key: IdentityKey)
        ensures
            key@ == (KeyModel { size: size as nat, name: name@ }),
    {
        IdentityKey { size, name }
    }

    /// A copy of this key.
    pub fn duplicate(&self) -> (copy: IdentityKey)
        ensures
            copy@ == self@,
    {
        IdentityKey { size: self.size, name: self.name.clone() }
    }

    /// Whether the two keys identify the same file.
    pub fn same_as(&self, other: &IdentityKey) -> (same: bool)
        ensures
            same == (self@ == other@),
    {
        self.size == other.size && self.name == other.name
    }

    /// Whether this key comes before `other` in the order of keys.
    pub fn before(&self, other: &IdentityKey) -> (before: bool)
        ensures
            before == key_before(self@, other@),
    {
        if self.size != other.size {
            self.size < other.size
        } else {
            slice_before(self.name.as_str().as_bytes(), other.name.as_str().as_bytes())
        }
    }
}

} // verus!
