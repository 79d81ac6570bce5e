//! Hashes of contents, and the keys under which records stand in the DHT.

use crate::endpoints::text_bytes;
use crate::ids::Id32;
use vstd::prelude::*;

verus! {

/// The BLAKE3 hash of bytes.
pub uninterp spec fn hash_of(bytes: Seq<u8>) -> Seq<u8>;

/// The 32 bytes that BLAKE3 derives from material in a context.
pub uninterp spec fn derived_key(context: Seq<char>, material: Seq<u8>) -> Seq<u8>;

/// The BLAKE3 hash of bytes.
///
/// Calls `blake3::hash`; the hash is a function of the bytes.
#[verifier::external_body]
pub(crate) fn blake3_hash(bytes: &[u8]) -> (hash: [u8; 32])
    ensures
        hash@ == hash_of(bytes@),
{
    *blake3::hash(bytes).as_bytes()
}

/// The bytes that BLAKE3 derives from material in a context.
///
/// Calls `blake3::Hasher::new_derive_key`, `update` and `finalize`; the bytes
/// are a function of the context and the material.
#[verifier::external_body]
fn blake3_derive(context: &str, material: &[u8]) -> (key: [u8; 32])
    ensures
        key@ == derived_key(context@, material@),
{
    let mut hasher = blake3::Hasher::new_derive_key(context);
    hasher.update(material);
    *hasher.finalize().as_bytes()
}

/// The hash of contents.
pub fn content_hash(bytes: &[u8]) -> (hash: Id32)
    ensures
        hash@ == hash_of(bytes@),
{
    Id32(blake3_hash(bytes))
}

/// A number as eight bytes, least significant first.
pub open spec fn length_bytes(n: nat) -> Seq<u8> {
    vstd::bytes::spec_u64_to_le_bytes(n as u64)
}

/// Parts, each behind its length.
pub open spec fn framed_parts(parts: Seq<Seq<u8>>) -> Seq<u8>
    decreases parts.len(),
{
    if parts.len() == 0 {
        Seq::empty()
    } else {
        framed_parts(parts.drop_last()) + length_bytes(parts.last().len()) + parts.last()
    }
}

/// The material of a DHT key: its kind and its parts.
pub open spec fn key_material(kind: Seq<u8>, parts: Seq<Seq<u8>>) -> Seq<u8> {
    kind + framed_parts(parts)
}

/// The context of DHT keys.
pub open spec fn dht_context() -> Seq<char> {
    "mutualbackup kademlia key v1"@
}

/// The key of a record in the DHT.
pub open spec fn record_key(kind: Seq<char>, parts: Seq<Seq<u8>>) -> Seq<u8> {
    derived_key(dht_context(), key_material(text_bytes(kind), parts))
}

/// The key under which those stand who keep recovery records of a node.
pub open spec fn mailbox_key(subject: Id32) -> Seq<u8> {
    record_key("mailbox"@, seq![subject@])
}

/// The key under which a publisher's recovery record of a node stands.
pub open spec fn bundle_key(subject: Id32, publisher_peer_id: Seq<char>) -> Seq<u8> {
    record_key("recovery-bundle"@, seq![subject@, text_bytes(publisher_peer_id)])
}

/// The key under which a peer's endpoints stand.
pub open spec fn endpoint_key(publisher_peer_id: Seq<char>) -> Seq<u8> {
    record_key("endpoint"@, seq![text_bytes(publisher_peer_id)])
}

fn append_bytes(list: &mut Vec<u8>, bytes: &[u8])
    ensures
        final(list)@ == old(list)@ + bytes@,
{
    let mut i: usize = 0;
    assert(list@ =~= old(list)@ + bytes@.take(0));
    while i < bytes.len()
        invariant
            i <= bytes@.len(),
            list@ == old(list)@ + bytes@.take(i as int),
        decreases bytes@.len() - i,
    {
        list.push(bytes[i]);
        assert(list@ =~= old(list)@ + bytes@.take(i + 1));
        i += 1;
    }
    assert(bytes@.take(i as int) =~= bytes@);
}

fn append_part(material: &mut Vec<u8>, part: &[u8])
    ensures
        final(material)@ == old(material)@ + length_bytes(part@.len()) + part@,
{
    let length = vstd::bytes::u64_to_le_bytes(part.len() as u64);
    append_bytes(material, length.as_slice());
    append_bytes(material, part);
}

fn key_of(material: &Vec<u8>) -> (key: Vec<u8>)
    ensures
        key@ == derived_key(dht_context(), material@),
        key@.len() == 32,
{
    let derived = blake3_derive("mutualbackup kademlia key v1", material.as_slice());
    let mut key: Vec<u8> = Vec::new();
    append_bytes(&mut key, derived.as_slice());
    assert(key@ =~= derived@);
    key
}

/// The key under which those stand who keep recovery records of a node.
pub fn recovery_mailbox_key(subject: &Id32) -> (key: Vec<u8>)
    ensures
        key@ == mailbox_key(*subject),
        key@.len() == 32,
{
    let mut material: Vec<u8> = Vec::new();
    append_bytes(&mut material, "mailbox".as_bytes());
    append_part(&mut material, subject.0.as_slice());
    proof {
        reveal_with_fuel(framed_parts, 2);
        assert(seq![subject@].drop_last() =~= Seq::empty());
        assert(material@ =~= key_material(text_bytes("mailbox"@), seq![subject@]));
    }
    key_of(&material)
}

/// The key under which a publisher's recovery record of a node stands.
pub fn recovery_bundle_key(subject: &Id32, publisher_peer_id: &str) -> (key: Vec<u8>)
    ensures
        key@ == bundle_key(*subject, publisher_peer_id@),
        key@.len() == 32,
{
    let mut material: Vec<u8> = Vec::new();
    append_bytes(&mut material, "recovery-bundle".as_bytes());
    append_part(&mut material, subject.0.as_slice());
    append_part(&mut material, publisher_peer_id.as_bytes());
    proof {
        let parts = seq![subject@, text_bytes(publisher_peer_id@)];
        reveal_with_fuel(framed_parts, 3);
        assert(parts.drop_last() =~= seq![subject@]);
        assert(seq![subject@].drop_last() =~= Seq::empty());
        assert(material@ =~= key_material(text_bytes("recovery-bundle"@), parts));
    }
    key_of(&material)
}

/// The key under which a peer's endpoints stand.
pub fn endpoint_record_key(publisher_peer_id: &str) -> (key: Vec<u8>)
    ensures
        key@ == endpoint_key(publisher_peer_id@),
        key@.len() == 32,
{
    let mut material: Vec<u8> = Vec::new();
    append_bytes(&mut material, "endpoint".as_bytes());
    append_part(&mut material, publisher_peer_id.as_bytes());
    proof {
        let parts = seq![text_bytes(publisher_peer_id@)];
        reveal_with_fuel(framed_parts, 2);
        assert(parts.drop_last() =~= Seq::empty());
        assert(material@ =~= key_material(text_bytes("endpoint"@), parts));
    }
    key_of(&material)
}

/// The material of a key tells its parts apart: of the same kind and with the
/// same number of parts, two materials are the same only if all parts are.
pub proof fn key_material_tells_parts_apart(kind: Seq<u8>, a: Seq<Seq<u8>>, b: Seq<Seq<u8>>)
    requires
        a.len() == b.len(),
        forall|i: int| 0 <= i < a.len() ==> (#[trigger] a[i]).len() <= u64::MAX,
        forall|i: int| 0 <= i < b.len() ==> (#[trigger] b[i]).len() <= u64::MAX,
        key_material(kind, a) == key_material(kind, b),
    ensures
        a == b,
{
    let x = framed_parts(a);
    let y = framed_parts(b);
    assert(key_material(kind, a).len() == kind.len() + x.len());
    assert(key_material(kind, b).len() == kind.len() + y.len());
    assert forall|i: int| 0 <= i < x.len() implies x[i] == y[i] by {
        assert(key_material(kind, a)[kind.len() + i] == x[i]);
        assert(key_material(kind, b)[kind.len() + i] == y[i]);
    }
    assert(x =~= y);
    lemma_front(a);
    lemma_front(b);
    lemma_parts_apart(a, b);
}

/// The framed parts, first part first.
pub open spec fn framed_front(parts: Seq<Seq<u8>>) -> Seq<u8>
    decreases parts.len(),
{
    if parts.len() == 0 {
        Seq::empty()
    } else {
        length_bytes(parts[0].len()) + parts[0] + framed_front(parts.drop_first())
    }
}

proof fn lemma_front(parts: Seq<Seq<u8>>)
    ensures
        framed_parts(parts) == framed_front(parts),
    decreases parts.len(),
{
    if parts.len() == 1 {
        reveal_with_fuel(framed_parts, 2);
        reveal_with_fuel(framed_front, 2);
        assert(parts.drop_last() =~= Seq::empty());
        assert(parts.drop_first() =~= Seq::empty());
        assert(framed_parts(parts) =~= framed_front(parts));
    } else if parts.len() > 1 {
        let first = length_bytes(parts[0].len()) + parts[0];
        let last = length_bytes(parts.last().len()) + parts.last();
        let rest = parts.drop_first();
        let init = parts.drop_last();
        lemma_front(init);
        lemma_front(rest);
        lemma_front(init.drop_first());
        assert(rest.drop_last() =~= init.drop_first());
        assert(rest.last() == parts.last());
        assert(init[0] == parts[0]);
        assert(framed_parts(rest) =~= framed_front(init.drop_first()) + last);
        assert(framed_parts(parts) =~= first + framed_front(init.drop_first()) + last);
        assert(framed_front(parts) =~= first + (framed_front(init.drop_first()) + last));
        assert(framed_parts(parts) =~= framed_front(parts));
    }
}

proof fn lemma_parts_apart(a: Seq<Seq<u8>>, b: Seq<Seq<u8>>)
    requires
        a.len() == b.len(),
        forall|i: int| 0 <= i < a.len() ==> (#[trigger] a[i]).len() <= u64::MAX,
        forall|i: int| 0 <= i < b.len() ==> (#[trigger] b[i]).len() <= u64::MAX,
        framed_front(a) == framed_front(b),
    ensures
        a == b,
    decreases a.len(),
{
    vstd::bytes::lemma_auto_spec_u64_to_from_le_bytes();
    if a.len() == 0 {
        assert(a =~= b);
    } else {
        let x = framed_front(a);
        let y = framed_front(b);
        let p = length_bytes(a[0].len());
        let q = length_bytes(b[0].len());
        assert(p.len() == 8 && q.len() == 8);
        assert(p =~= x.take(8));
        assert(q =~= y.take(8));
        assert(vstd::bytes::spec_u64_from_le_bytes(p) == a[0].len() as u64);
        assert(vstd::bytes::spec_u64_from_le_bytes(q) == b[0].len() as u64);
        assert(a[0].len() == b[0].len());
        let n = a[0].len() as int;
        assert(a[0] =~= x.subrange(8, 8 + n));
        assert(b[0] =~= y.subrange(8, 8 + n));
        let s = a.drop_first();
        let t = b.drop_first();
        assert(framed_front(s) =~= x.skip(8 + n));
        assert(framed_front(t) =~= y.skip(8 + n));
        assert forall|i: int| 0 <= i < s.len() implies (#[trigger] s[i]).len() <= u64::MAX by {
            assert(s[i] == a[i + 1]);
        }
        assert forall|i: int| 0 <= i < t.len() implies (#[trigger] t[i]).len() <= u64::MAX by {
            assert(t[i] == b[i + 1]);
        }
        lemma_parts_apart(s, t);
        assert forall|i: int| 0 <= i < a.len() implies a[i] == b[i] by {
            if i > 0 {
                assert(a[i] == s[i - 1]);
                assert(b[i] == t[i - 1]);
            }
        }
        assert(a =~= b);
    }
}

/// The materials of mailbox, bundle and endpoint keys are never the same,
/// whatever their parts.
pub proof fn key_kinds_are_apart(a: Seq<Seq<u8>>, b: Seq<Seq<u8>>, c: Seq<Seq<u8>>)
    ensures
        key_material(text_bytes("mailbox"@), a) != key_material(
            text_bytes("recovery-bundle"@),
            b,
        ),
        key_material(text_bytes("mailbox"@), a) != key_material(text_bytes("endpoint"@), c),
        key_material(text_bytes("recovery-bundle"@), b) != key_material(
            text_bytes("endpoint"@),
            c,
        ),
{
    reveal_strlit("mailbox");
    reveal_strlit("recovery-bundle");
    reveal_strlit("endpoint");
    let m = text_bytes("mailbox"@);
    let r = text_bytes("recovery-bundle"@);
    let e = text_bytes("endpoint"@);
    vstd::utf8::is_ascii_chars_encode_utf8("mailbox"@);
    vstd::utf8::is_ascii_chars_encode_utf8("recovery-bundle"@);
    vstd::utf8::is_ascii_chars_encode_utf8("endpoint"@);
    assert(m[0] == 'm' as u8 && r[0] == 'r' as u8 && e[0] == 'e' as u8);
    assert(key_material(m, a)[0] == m[0]);
    assert(key_material(r, b)[0] == r[0]);
    assert(key_material(e, c)[0] == e[0]);
}

/// A key in the DHT is derived, in the one context of such keys, from the name of its
/// kind and, each behind its length in eight bytes, the node and the publisher that it
/// is about.
pub proof fn keys_are_derived_from_what_they_are_about(subject: Id32, publisher: Seq<char>)
    ensures
        mailbox_key(subject) == derived_key(
            "mutualbackup kademlia key v1"@,
            text_bytes("mailbox"@) + vstd::bytes::spec_u64_to_le_bytes(32) + subject@,
        ),
        bundle_key(subject, publisher) == derived_key(
            "mutualbackup kademlia key v1"@,
            text_bytes("recovery-bundle"@) + vstd::bytes::spec_u64_to_le_bytes(32) + subject@
                + vstd::bytes::spec_u64_to_le_bytes(text_bytes(publisher).len() as u64)
                + text_bytes(publisher),
        ),
        endpoint_key(publisher) == derived_key(
            "mutualbackup kademlia key v1"@,
            text_bytes("endpoint"@) + vstd::bytes::spec_u64_to_le_bytes(
                text_bytes(publisher).len() as u64,
            ) + text_bytes(publisher),
        ),
{
    let one = seq![subject@];
    let two = seq![subject@, text_bytes(publisher)];
    let other = seq![text_bytes(publisher)];
    assert(subject@.len() == 32);
    assert(one.drop_last() =~= Seq::empty());
    assert(other.drop_last() =~= Seq::empty());
    assert(two.drop_last() =~= one);
    assert(framed_parts(Seq::empty()) =~= Seq::empty());
    let eight = vstd::bytes::spec_u64_to_le_bytes(32);
    let length = vstd::bytes::spec_u64_to_le_bytes(text_bytes(publisher).len() as u64);
    assert(framed_parts(one) =~= eight + subject@);
    assert(framed_parts(other) =~= length + text_bytes(publisher));
    assert(framed_parts(two) =~= eight + subject@ + length + text_bytes(publisher));
    assert(key_material(text_bytes("mailbox"@), one) =~= text_bytes("mailbox"@) + eight + subject@);
    assert(key_material(text_bytes("endpoint"@), other) =~= text_bytes("endpoint"@) + length
        + text_bytes(publisher));
    assert(key_material(text_bytes("recovery-bundle"@), two) =~= text_bytes("recovery-bundle"@)
        + eight + subject@ + length + text_bytes(publisher));
}

} // verus!
