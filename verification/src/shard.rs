//! Which shard a document belongs to.
use crate::json::{json_text, value_key};
use crate::query::some_text;
use crate::value::{member, Json, JsonView};
use vstd::prelude::*;

verus! {

/// The hash of no bytes.
pub const FNV_OFFSET: u64 = 14695981039346656037;

/// The factor of the hash.
pub const FNV_PRIME: u64 = 1099511628211;

/// The 64-bit FNV-1a hash of a sequence of bytes.
pub open spec fn fnv1a_of(bytes: Seq<u8>) -> u64
    decreases bytes.len(),
{
    if bytes.len() == 0 {
        FNV_OFFSET
    } else {
        (((fnv1a_of(bytes.drop_last()) ^ (bytes.last() as u64)) * FNV_PRIME) % 0x1_0000_0000_0000_0000) as u64
    }
}

/// Hashes the UTF-8 bytes of a string.
pub fn fnv1a(s: &str) -> (hash: u64)
    ensures
        hash == fnv1a_of(vstd::utf8::encode_utf8(s@)),
{
    let bytes = s.as_bytes();
    let mut hash: u64 = FNV_OFFSET;
    let mut i: usize = 0;
    assert(bytes@.take(0) =~= Seq::<u8>::empty());
    while i < bytes.len()
        invariant
            i <= bytes.len(),
            hash == fnv1a_of(bytes@.take(i as int)),
        decreases bytes.len() - i,
    {
        assert(bytes@.take(i + 1).drop_last() =~= bytes@.take(i as int));
        hash = (hash ^ (bytes[i] as u64)).wrapping_mul(FNV_PRIME);
        i = i + 1;
    }
    assert(bytes@.take(i as int) =~= bytes@);
    hash
}

/// Whether a document belongs to a shard: the one that the hash of its value under the shard key
/// gives. Every shard has the documents that have no such value.
pub open spec fn owned(total: u64, shard: u64, key: Option<Seq<char>>, doc: JsonView) -> bool {
    total <= 1 || match key {
        None => true,
        Some(k) => match member(doc, k) {
            None => true,
            Some(v) => fnv1a_of(vstd::utf8::encode_utf8(json_text(v))) % total == shard,
        },
    }
}

/// Whether a document belongs to a shard.
pub fn owns_doc(total: u64, shard: u64, key: &Option<String>, doc: &Json) -> (r: bool)
    ensures
        r == owned(total, shard, some_text(*key), doc@),
{
    if total <= 1 {
        return true;
    }
    match key {
        None => true,
        Some(k) => match doc.get(k.as_str()) {
            None => true,
            Some(v) => fnv1a(value_key(v).as_str()) % total == shard,
        },
    }
}

/// A document with a value under the shard key belongs to exactly one of several shards.
pub proof fn lemma_one_owner(total: u64, key: Seq<char>, doc: JsonView)
    requires
        total > 1,
        member(doc, key) is Some,
    ensures
        exists|shard: u64| shard < total && #[trigger] owned(total, shard, Some(key), doc),
        forall|a: u64, b: u64| #[trigger] owned(total, a, Some(key), doc) && #[trigger] owned(total, b, Some(key), doc) ==> a == b,
{
    let hash = fnv1a_of(vstd::utf8::encode_utf8(json_text(member(doc, key)->Some_0)));
    let shard = (hash % total) as u64;
    assert(owned(total, shard, Some(key), doc));
}

/// Documents with one value under the shard key belong to one shard.
pub proof fn lemma_same_value_same_shard(total: u64, shard: u64, key: Seq<char>, a: JsonView, b: JsonView)
    requires
        member(a, key) == member(b, key),
    ensures
        owned(total, shard, Some(key), a) == owned(total, shard, Some(key), b),
{
}

} // verus!
