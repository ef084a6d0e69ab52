//! The storage traversal engine: it answers value, hash, descendant and
//! closest-merkle-value queries against the sorted storage entries of one
//! block, and batches the resulting items under the pagination limit, with
//! a waiting-for-continue pause after every full batch while items remain.
//!
//! The closest-descendant merkle value is a model of the backend's trie
//! digest, not the trie node encoding itself: it is the digest of the
//! length-prefixed entries of the subtree under the queried key. It keeps
//! the observable properties of the real merkle value — equal for keys
//! that reach the same node, changed whenever anything below changes, and
//! stable for untouched branches — while the trie layout itself stays
//! with the excluded storage backend.

use vstd::prelude::*;

use crate::bytesord::{bytes_eq, bytes_is_prefix, is_prefix_of};
use crate::client::entries_view;
use crate::digest::{blake2_256, blake2_256_of};
use crate::events::{
    EventV, FollowEvent, StorageQueryType, StorageResultItem, StorageResultItemV,
    StorageResultType, StorageResultTypeV,
};
use crate::hexcodec::{hex_str_of, hex_string};

verus! {

/// A storage query whose key has been decoded from hex to raw bytes.
pub struct DecodedQuery {
    pub key: Vec<u8>,
    pub query_type: StorageQueryType,
}

/// Spec view of `DecodedQuery`.
pub struct QueryV {
    pub key: Seq<u8>,
    pub query_type: StorageQueryType,
}

impl View for DecodedQuery {
    type V = QueryV;

    open spec fn view(&self) -> QueryV {
        QueryV { key: self.key@, query_type: self.query_type }
    }
}

/// The reserved child-storage key prefix, `:child_storage:` in raw bytes.
/// The default child prefix `:child_storage:default:` extends it, so one
/// check covers both reserved namespaces.
pub open spec fn child_storage_prefix() -> Seq<u8> {
    seq![
        58u8,
        99u8,
        104u8,
        105u8,
        108u8,
        100u8,
        95u8,
        115u8,
        116u8,
        111u8,
        114u8,
        97u8,
        103u8,
        101u8,
        58u8,
    ]
}

/// The reserved child-storage key prefix as bytes.
pub fn child_storage_prefix_bytes() -> (r: Vec<u8>)
    ensures
        r@ == child_storage_prefix(),
{
    let v: Vec<u8> = vec![58, 99, 104, 105, 108, 100, 95, 115, 116, 111, 114, 97, 103, 101, 58];
    proof {
        assert(v@ =~= child_storage_prefix());
    }
    v
}

/// A key is queryable unless it lies in the reserved child-storage
/// namespace.
pub open spec fn queryable_key(k: Seq<u8>) -> bool {
    !is_prefix_of(child_storage_prefix(), k)
}

/// Whether a key is queryable.
pub fn is_queryable_key(k: &Vec<u8>) -> (r: bool)
    ensures
        r == queryable_key(k@),
{
    let p = child_storage_prefix_bytes();
    !bytes_is_prefix(&p, k)
}

/// Appends the bytes of `src` to `dst`.
fn push_bytes(dst: &mut Vec<u8>, src: &Vec<u8>)
    ensures
        final(dst)@ == old(dst)@ + src@,
{
    let mut i: usize = 0;
    while i < src.len()
        invariant
            i <= src@.len(),
            dst@ == old(dst)@ + src@.take(i as int),
        decreases src@.len() - i,
    {
        dst.push(src[i]);
        proof {
            assert(old(dst)@ + src@.take(i as int) + seq![src@[i as int]] =~= old(dst)@
                + src@.take(i as int + 1));
        }
        i = i + 1;
    }
    proof {
        assert(src@.take(src@.len() as int) =~= src@);
    }
}

/// The first value stored under exactly `k`.
pub open spec fn value_of(s: Seq<(Seq<u8>, Seq<u8>)>, k: Seq<u8>) -> Option<Seq<u8>>
    decreases s.len(),
{
    if s.len() == 0 {
        None
    } else if s[0].0 == k {
        Some(s[0].1)
    } else {
        value_of(s.drop_first(), k)
    }
}

/// The entries whose keys extend `p`, in storage order.
pub open spec fn prefix_entries(s: Seq<(Seq<u8>, Seq<u8>)>, p: Seq<u8>) -> Seq<(Seq<u8>, Seq<u8>)>
    decreases s.len(),
{
    if s.len() == 0 {
        Seq::empty()
    } else {
        (if is_prefix_of(p, s[0].0) {
            seq![s[0]]
        } else {
            Seq::empty()
        }) + prefix_entries(s.drop_first(), p)
    }
}

/// The encoding of one entry inside a subtree digest: length-prefixed key
/// and value.
pub open spec fn enc_entry(e: (Seq<u8>, Seq<u8>)) -> Seq<u8> {
    vstd::bytes::spec_u64_to_le_bytes(e.0.len() as u64) + e.0 + vstd::bytes::spec_u64_to_le_bytes(
        e.1.len() as u64,
    ) + e.1
}

/// The byte string whose digest stands for the merkle value of a subtree:
/// the concatenation of its length-prefixed entries.
pub open spec fn subtree_enc(s: Seq<(Seq<u8>, Seq<u8>)>) -> Seq<u8>
    decreases s.len(),
{
    if s.len() == 0 {
        Seq::empty()
    } else {
        enc_entry(s[0]) + subtree_enc(s.drop_first())
    }
}

/// The item reported for a value hit.
pub open spec fn value_item(k: Seq<u8>, v: Seq<u8>) -> StorageResultItemV {
    StorageResultItemV { key: hex_str_of(k), result: StorageResultTypeV::Value(hex_str_of(v)) }
}

/// The item reported for a hash hit: the digest of the stored value.
pub open spec fn hash_item(k: Seq<u8>, v: Seq<u8>) -> StorageResultItemV {
    StorageResultItemV {
        key: hex_str_of(k),
        result: StorageResultTypeV::Hash(hex_str_of(blake2_256_of(v))),
    }
}

/// The item reported for a closest-descendant merkle value: the digest of
/// the subtree under the queried key.
pub open spec fn merkle_item(k: Seq<u8>, sub: Seq<(Seq<u8>, Seq<u8>)>) -> StorageResultItemV {
    StorageResultItemV {
        key: hex_str_of(k),
        result: StorageResultTypeV::ClosestDescendantMerkleValue(
            hex_str_of(blake2_256_of(subtree_enc(sub))),
        ),
    }
}

/// The items one query yields against one entry list, in emission order.
pub open spec fn query_items(entries: Seq<(Seq<u8>, Seq<u8>)>, q: QueryV) -> Seq<
    StorageResultItemV,
> {
    if !queryable_key(q.key) {
        Seq::empty()
    } else {
        match q.query_type {
            StorageQueryType::Value => match value_of(entries, q.key) {
                Some(v) => seq![value_item(q.key, v)],
                None => Seq::empty(),
            },
            StorageQueryType::Hash => match value_of(entries, q.key) {
                Some(v) => seq![hash_item(q.key, v)],
                None => Seq::empty(),
            },
            StorageQueryType::DescendantsValues => prefix_entries(entries, q.key).map_values(
                |e: (Seq<u8>, Seq<u8>)| value_item(e.0, e.1),
            ),
            StorageQueryType::DescendantsHashes => prefix_entries(entries, q.key).map_values(
                |e: (Seq<u8>, Seq<u8>)| hash_item(e.0, e.1),
            ),
            StorageQueryType::ClosestDescendantMerkleValue => {
                let sub = prefix_entries(entries, q.key);
                if sub.len() > 0 {
                    seq![merkle_item(q.key, sub)]
                } else {
                    Seq::empty()
                }
            },
        }
    }
}

/// The spec view of a vector of storage items.
pub open spec fn items_view(s: Seq<StorageResultItem>) -> Seq<StorageResultItemV> {
    s.map_values(|it: StorageResultItem| it@)
}

/// Finds the index of the first entry with exactly key `k`.
fn find_value(entries: &Vec<(Vec<u8>, Vec<u8>)>, k: &Vec<u8>) -> (r: Option<usize>)
    ensures
        match r {
            Some(i) => {
                &&& i < entries@.len()
                &&& entries@[i as int].0@ == k@
                &&& value_of(entries_view(entries@), k@) == Some(entries@[i as int].1@)
            },
            None => value_of(entries_view(entries@), k@) is None,
        },
{
    let ghost ev = entries_view(entries@);
    let mut i: usize = 0;
    proof {
        assert(ev.skip(0) =~= ev);
    }
    while i < entries.len()
        invariant
            ev == entries_view(entries@),
            i <= entries@.len(),
            value_of(ev, k@) == value_of(ev.skip(i as int), k@),
        decreases entries@.len() - i,
    {
        proof {
            assert(ev.skip(i as int)[0] == ev[i as int]);
            assert(ev[i as int] == (entries@[i as int].0@, entries@[i as int].1@));
            assert(ev.skip(i as int).drop_first() =~= ev.skip(i as int + 1));
        }
        if bytes_eq(&entries[i].0, k) {
            return Some(i);
        }
        i = i + 1;
    }
    proof {
        assert(ev.skip(entries@.len() as int).len() == 0);
    }
    None
}

/// Computes the merkle digest bytes of the subtree under `k`, if any
/// entry's key extends `k`.
fn compute_merkle(entries: &Vec<(Vec<u8>, Vec<u8>)>, k: &Vec<u8>) -> (r: Option<Vec<u8>>)
    ensures
        ({
            let sub = prefix_entries(entries_view(entries@), k@);
            match r {
                Some(d) => sub.len() > 0 && d@ == blake2_256_of(subtree_enc(sub)),
                None => sub.len() == 0,
            }
        }),
{
    let ghost ev = entries_view(entries@);
    let ghost full = prefix_entries(ev, k@);
    let mut enc: Vec<u8> = Vec::new();
    let mut found = false;
    let ghost mut done: Seq<(Seq<u8>, Seq<u8>)> = Seq::empty();
    let mut i: usize = 0;
    proof {
        assert(ev.skip(0) =~= ev);
        assert(full =~= done + prefix_entries(ev.skip(0), k@));
        assert(subtree_enc(done) =~= enc@);
    }
    while i < entries.len()
        invariant
            ev == entries_view(entries@),
            full == prefix_entries(ev, k@),
            i <= entries@.len(),
            full =~= done + prefix_entries(ev.skip(i as int), k@),
            subtree_enc(done) =~= enc@,
            found == (done.len() > 0),
        decreases entries@.len() - i,
    {
        proof {
            assert(ev.skip(i as int)[0] == ev[i as int]);
            assert(ev[i as int] == (entries@[i as int].0@, entries@[i as int].1@));
            assert(ev.skip(i as int).drop_first() =~= ev.skip(i as int + 1));
        }
        let ghost pre_done = done;
        if bytes_is_prefix(k, &entries[i].0) {
            let klen = entries[i].0.len();
            let vlen = entries[i].1.len();
            let kb = vstd::bytes::u64_to_le_bytes(klen as u64);
            push_bytes(&mut enc, &kb);
            push_bytes(&mut enc, &entries[i].0);
            let vb = vstd::bytes::u64_to_le_bytes(vlen as u64);
            push_bytes(&mut enc, &vb);
            push_bytes(&mut enc, &entries[i].1);
            found = true;
            proof {
                done = pre_done.push(ev[i as int]);
                assert(subtree_enc(pre_done.push(ev[i as int])) =~= subtree_enc(pre_done)
                    + enc_entry(ev[i as int])) by {
                    lemma_subtree_enc_snoc(pre_done, ev[i as int]);
                }
                assert(enc@ =~= subtree_enc(done));
                assert(full =~= done + prefix_entries(ev.skip(i as int + 1), k@));
            }
        } else {
            proof {
                assert(full =~= done + prefix_entries(ev.skip(i as int + 1), k@));
            }
        }
        i = i + 1;
    }
    proof {
        assert(prefix_entries(ev.skip(entries@.len() as int), k@).len() == 0);
        assert(full =~= done);
    }
    if found {
        Some(blake2_256(&enc))
    } else {
        None
    }
}

/// Concatenating one more entry extends a subtree encoding at the end.
proof fn lemma_subtree_enc_snoc(s: Seq<(Seq<u8>, Seq<u8>)>, e: (Seq<u8>, Seq<u8>))
    ensures
        subtree_enc(s.push(e)) == subtree_enc(s) + enc_entry(e),
    decreases s.len(),
{
    if s.len() == 0 {
        let t = s.push(e);
        assert(t[0] == e);
        assert(t.drop_first() =~= Seq::<(Seq<u8>, Seq<u8>)>::empty());
        assert(subtree_enc(t) == enc_entry(t[0]) + subtree_enc(t.drop_first()));
        assert(subtree_enc(t.drop_first()) =~= Seq::<u8>::empty());
        assert(subtree_enc(t) =~= subtree_enc(s) + enc_entry(e));
    } else {
        lemma_subtree_enc_snoc(s.drop_first(), e);
        assert(s.push(e)[0] == s[0]);
        assert(s.push(e).drop_first() =~= s.drop_first().push(e));
        assert(subtree_enc(s.push(e)) =~= enc_entry(s[0]) + subtree_enc(s.drop_first().push(e)));
        assert(enc_entry(s[0]) + (subtree_enc(s.drop_first()) + enc_entry(e)) =~= (enc_entry(s[0])
            + subtree_enc(s.drop_first())) + enc_entry(e));
    }
}

/// Collects the items of one query, returning the window
/// `[skip_n, skip_n + max_take)` of them together with their total count.
pub fn collect_query_window(
    entries: &Vec<(Vec<u8>, Vec<u8>)>,
    q: &DecodedQuery,
    skip_n: usize,
    max_take: usize,
) -> (r: (Vec<StorageResultItem>, usize))
    ensures
        ({
            let items = query_items(entries_view(entries@), q@);
            let lo = vstd::math::min(skip_n as int, items.len() as int);
            let hi = vstd::math::min(skip_n as int + max_take as int, items.len() as int);
            &&& r.1 == items.len()
            &&& items_view(r.0@) == items.subrange(lo, hi)
        }),
{
    let ghost items = query_items(entries_view(entries@), q@);
    if !is_queryable_key(&q.key) {
        let out: Vec<StorageResultItem> = Vec::new();
        proof {
            assert(items_view(out@) =~= items.subrange(0, 0));
        }
        return (out, 0);
    }
    match q.query_type {
        StorageQueryType::Value => {
            match find_value(entries, &q.key) {
                Some(i) => {
                    let mut out: Vec<StorageResultItem> = Vec::new();
                    if skip_n == 0 && max_take > 0 {
                        out.push(
                            StorageResultItem {
                                key: hex_string(&q.key),
                                result: StorageResultType::Value(hex_string(&entries[i].1)),
                            },
                        );
                        proof {
                            assert(items =~= seq![value_item(q.key@, entries@[i as int].1@)]);
                            assert(items_view(out@) =~= items.subrange(0, 1));
                        }
                    } else {
                        proof {
                            let lo = vstd::math::min(skip_n as int, items.len() as int);
                            let hi = vstd::math::min(
                                skip_n as int + max_take as int,
                                items.len() as int,
                            );
                            assert(items_view(out@) =~= items.subrange(lo, hi));
                        }
                    }
                    (out, 1)
                },
                None => {
                    let out: Vec<StorageResultItem> = Vec::new();
                    proof {
                        assert(items.len() == 0);
                        assert(items_view(out@) =~= items.subrange(0, 0));
                    }
                    (out, 0)
                },
            }
        },
        StorageQueryType::Hash => {
            match find_value(entries, &q.key) {
                Some(i) => {
                    let mut out: Vec<StorageResultItem> = Vec::new();
                    if skip_n == 0 && max_take > 0 {
                        let d = blake2_256(&entries[i].1);
                        out.push(
                            StorageResultItem {
                                key: hex_string(&q.key),
                                result: StorageResultType::Hash(hex_string(&d)),
                            },
                        );
                        proof {
                            assert(items =~= seq![hash_item(q.key@, entries@[i as int].1@)]);
                            assert(items_view(out@) =~= items.subrange(0, 1));
                        }
                    } else {
                        proof {
                            let lo = vstd::math::min(skip_n as int, items.len() as int);
                            let hi = vstd::math::min(
                                skip_n as int + max_take as int,
                                items.len() as int,
                            );
                            assert(items_view(out@) =~= items.subrange(lo, hi));
                        }
                    }
                    (out, 1)
                },
                None => {
                    let out: Vec<StorageResultItem> = Vec::new();
                    proof {
                        assert(items.len() == 0);
                        assert(items_view(out@) =~= items.subrange(0, 0));
                    }
                    (out, 0)
                },
            }
        },
        StorageQueryType::ClosestDescendantMerkleValue => {
            match compute_merkle(entries, &q.key) {
                Some(d) => {
                    let mut out: Vec<StorageResultItem> = Vec::new();
                    if skip_n == 0 && max_take > 0 {
                        out.push(
                            StorageResultItem {
                                key: hex_string(&q.key),
                                result: StorageResultType::ClosestDescendantMerkleValue(
                                    hex_string(&d),
                                ),
                            },
                        );
                        proof {
                            assert(items =~= seq![
                                merkle_item(q.key@, prefix_entries(entries_view(entries@), q.key@)),
                            ]);
                            assert(items_view(out@) =~= items.subrange(0, 1));
                        }
                    } else {
                        proof {
                            let lo = vstd::math::min(skip_n as int, items.len() as int);
                            let hi = vstd::math::min(
                                skip_n as int + max_take as int,
                                items.len() as int,
                            );
                            assert(items_view(out@) =~= items.subrange(lo, hi));
                        }
                    }
                    (out, 1)
                },
                None => {
                    let out: Vec<StorageResultItem> = Vec::new();
                    proof {
                        assert(items.len() == 0);
                        assert(items_view(out@) =~= items.subrange(0, 0));
                    }
                    (out, 0)
                },
            }
        },
        StorageQueryType::DescendantsValues => collect_descendants(
            entries,
            q,
            false,
            skip_n,
            max_take,
        ),
        StorageQueryType::DescendantsHashes => collect_descendants(
            entries,
            q,
            true,
            skip_n,
            max_take,
        ),
    }
}

/// Collects a window of descendant items (values or hashes).
fn collect_descendants(
    entries: &Vec<(Vec<u8>, Vec<u8>)>,
    q: &DecodedQuery,
    hash_mode: bool,
    skip_n: usize,
    max_take: usize,
) -> (r: (Vec<StorageResultItem>, usize))
    requires
        queryable_key(q.key@),
        hash_mode ==> q.query_type == StorageQueryType::DescendantsHashes,
        !hash_mode ==> q.query_type == StorageQueryType::DescendantsValues,
    ensures
        ({
            let items = query_items(entries_view(entries@), q@);
            let lo = vstd::math::min(skip_n as int, items.len() as int);
            let hi = vstd::math::min(skip_n as int + max_take as int, items.len() as int);
            &&& r.1 == items.len()
            &&& items_view(r.0@) == items.subrange(lo, hi)
        }),
{
    let ghost ev = entries_view(entries@);
    let ghost items = query_items(ev, q@);
    let ghost itemf = if hash_mode {
        |e: (Seq<u8>, Seq<u8>)| hash_item(e.0, e.1)
    } else {
        |e: (Seq<u8>, Seq<u8>)| value_item(e.0, e.1)
    };
    proof {
        assert(items == prefix_entries(ev, q.key@).map_values(itemf));
    }
    let mut out: Vec<StorageResultItem> = Vec::new();
    let mut count: usize = 0;
    let ghost mut done: Seq<(Seq<u8>, Seq<u8>)> = Seq::empty();
    let mut i: usize = 0;
    proof {
        assert(ev.skip(0) =~= ev);
        assert(prefix_entries(ev, q.key@) =~= done + prefix_entries(ev.skip(0), q.key@));
        assert(items_view(out@) =~= done.map_values(itemf).subrange(0, 0));
    }
    while i < entries.len()
        invariant
            ev == entries_view(entries@),
            items == query_items(ev, q@),
            items == prefix_entries(ev, q.key@).map_values(itemf),
            hash_mode ==> itemf == (|e: (Seq<u8>, Seq<u8>)| hash_item(e.0, e.1)),
            !hash_mode ==> itemf == (|e: (Seq<u8>, Seq<u8>)| value_item(e.0, e.1)),
            i <= entries@.len(),
            count == done.len(),
            count <= i,
            prefix_entries(ev, q.key@) =~= done + prefix_entries(ev.skip(i as int), q.key@),
            items_view(out@) =~= done.map_values(itemf).subrange(
                vstd::math::min(skip_n as int, done.len() as int),
                vstd::math::min(skip_n as int + max_take as int, done.len() as int),
            ),
        decreases entries@.len() - i,
    {
        proof {
            assert(ev.skip(i as int)[0] == ev[i as int]);
            assert(ev[i as int] == (entries@[i as int].0@, entries@[i as int].1@));
            assert(ev.skip(i as int).drop_first() =~= ev.skip(i as int + 1));
        }
        let ghost pre_done = done;
        let ghost pre_out = out@;
        if bytes_is_prefix(&q.key, &entries[i].0) {
            if skip_n <= count && count - skip_n < max_take {
                let item = if hash_mode {
                    let d = blake2_256(&entries[i].1);
                    StorageResultItem {
                        key: hex_string(&entries[i].0),
                        result: StorageResultType::Hash(hex_string(&d)),
                    }
                } else {
                    StorageResultItem {
                        key: hex_string(&entries[i].0),
                        result: StorageResultType::Value(hex_string(&entries[i].1)),
                    }
                };
                proof {
                    assert(item@ == itemf(ev[i as int]));
                }
                out.push(item);
            }
            count = count + 1;
            proof {
                done = pre_done.push(ev[i as int]);
                let pm = pre_done.map_values(itemf);
                let dm = done.map_values(itemf);
                assert(dm =~= pm.push(itemf(ev[i as int])));
                assert(prefix_entries(ev, q.key@) =~= done + prefix_entries(
                    ev.skip(i as int + 1),
                    q.key@,
                ));
                let c = pre_done.len() as int;
                let lo0 = vstd::math::min(skip_n as int, c);
                let hi0 = vstd::math::min(skip_n as int + max_take as int, c);
                let lo = vstd::math::min(skip_n as int, c + 1);
                let hi = vstd::math::min(skip_n as int + max_take as int, c + 1);
                assert(items_view(pre_out) =~= pm.subrange(lo0, hi0));
                if skip_n as int <= c && c < skip_n as int + max_take as int {
                    assert(items_view(out@) =~= items_view(pre_out).push(itemf(ev[i as int])));
                    assert(dm.subrange(lo, hi) =~= pm.subrange(lo0, hi0).push(itemf(ev[i as int])));
                } else {
                    assert(out@ == pre_out);
                    assert(dm.subrange(lo, hi) =~= pm.subrange(lo0, hi0));
                }
                assert(items_view(out@) =~= dm.subrange(lo, hi));
            }
        } else {
            proof {
                assert(prefix_entries(ev, q.key@) =~= done + prefix_entries(
                    ev.skip(i as int + 1),
                    q.key@,
                ));
            }
        }
        i = i + 1;
    }
    proof {
        assert(prefix_entries(ev.skip(entries@.len() as int), q.key@).len() == 0);
        assert(prefix_entries(ev, q.key@) =~= done);
        assert(items =~= done.map_values(itemf));
    }
    (out, count)
}

/// The total number of items a query yields.
pub fn query_total(entries: &Vec<(Vec<u8>, Vec<u8>)>, q: &DecodedQuery) -> (r: usize)
    ensures
        r == query_items(entries_view(entries@), q@).len(),
{
    let (_, total) = collect_query_window(entries, q, 0, 0);
    total
}

/// The entries of the child trie stored under `ck`, or none.
pub open spec fn child_entries(
    cs: Seq<(Seq<u8>, Seq<(Seq<u8>, Seq<u8>)>)>,
    ck: Seq<u8>,
) -> Seq<(Seq<u8>, Seq<u8>)>
    decreases cs.len(),
{
    if cs.len() == 0 {
        Seq::empty()
    } else if cs[0].0 == ck {
        cs[0].1
    } else {
        child_entries(cs.drop_first(), ck)
    }
}

/// The entries a storage request resolves against: the block's main
/// storage, or the named child trie; a reserved child key resolves to
/// nothing.
pub open spec fn resolved_entries(
    b: crate::client::BlockV,
    child: Option<Seq<u8>>,
) -> Seq<(Seq<u8>, Seq<u8>)> {
    match child {
        None => b.storage,
        Some(ck) => if !queryable_key(ck) {
            Seq::empty()
        } else {
            child_entries(b.child_storage, ck)
        },
    }
}

/// The spec view of a vector of decoded queries.
pub open spec fn queries_view(s: Seq<DecodedQuery>) -> Seq<QueryV> {
    s.map_values(|q: DecodedQuery| q@)
}

/// Whether any item remains at or after cursor `(qi, off)`.
pub open spec fn has_remaining(
    entries: Seq<(Seq<u8>, Seq<u8>)>,
    qs: Seq<QueryV>,
    qi: int,
    off: int,
) -> bool {
    exists|j: int|
        qi <= j < qs.len() && (if j == qi {
            off
        } else {
            0
        }) < query_items(entries, #[trigger] qs[j]).len()
}

/// One resumption of a storage operation, starting at cursor `(qi, off)`:
/// the events it emits, and the cursor at which it pauses, or `None` when
/// the operation completes. Items of the current query are emitted in
/// batches of at most `max`; after a full batch with items still remaining
/// anywhere in the request, the engine asks for a continue and pauses;
/// when no query has items left it reports completion.
pub open spec fn run_step(
    entries: Seq<(Seq<u8>, Seq<u8>)>,
    qs: Seq<QueryV>,
    max: nat,
    op: Seq<char>,
    qi: int,
    off: int,
) -> (Seq<EventV>, Option<(int, int)>)
    decreases
            qs.len() - qi,
            (if 0 <= qi < qs.len() {
                query_items(entries, qs[qi]).len() + 1 - off
            } else {
                0
            }),
{
    if max == 0 || qi < 0 || off < 0 || qi >= qs.len() {
        (seq![EventV::OperationStorageDone { operation_id: op }], None)
    } else {
        let items = query_items(entries, qs[qi]);
        if off >= items.len() {
            run_step(entries, qs, max, op, qi + 1, 0)
        } else {
            let end = vstd::math::min(off + max as int, items.len() as int);
            let ev = EventV::OperationStorageItems {
                operation_id: op,
                items: items.subrange(off, end),
            };
            if end - off == max && has_remaining(entries, qs, qi, end) {
                (seq![ev, EventV::OperationWaitingForContinue { operation_id: op }], Some(
                    (qi, end),
                ))
            } else {
                let r = run_step(entries, qs, max, op, qi, end);
                (seq![ev] + r.0, r.1)
            }
        }
    }
}

/// Whether any item remains at or after cursor `(qi, off)`.
fn any_remaining(
    entries: &Vec<(Vec<u8>, Vec<u8>)>,
    queries: &Vec<DecodedQuery>,
    qi: usize,
    off: usize,
) -> (r: bool)
    requires
        qi < usize::MAX,
    ensures
        r == has_remaining(entries_view(entries@), queries_view(queries@), qi as int, off as int),
{
    let ghost ev = entries_view(entries@);
    let ghost qv = queries_view(queries@);
    if qi < queries.len() {
        let total = query_total(entries, &queries[qi]);
        if off < total {
            proof {
                assert(qv[qi as int] == queries@[qi as int]@);
                assert(has_remaining(ev, qv, qi as int, off as int));
            }
            return true;
        }
    }
    let mut j: usize = qi + 1;
    while j < queries.len()
        invariant
            ev == entries_view(entries@),
            qv == queries_view(queries@),
            qi < j,
            qi >= queries@.len() || off >= query_items(ev, qv[qi as int]).len(),
            forall|k: int|
                qi < k < j ==> query_items(ev, #[trigger] qv[k]).len() == 0,
        decreases queries@.len() - j,
    {
        let total = query_total(entries, &queries[j]);
        proof {
            assert(qv[j as int] == queries@[j as int]@);
        }
        if total > 0 {
            proof {
                assert((if j as int == qi as int {
                    off as int
                } else {
                    0
                }) < query_items(ev, qv[j as int]).len());
            }
            return true;
        }
        j = j + 1;
    }
    proof {
        if has_remaining(ev, qv, qi as int, off as int) {
            let k = choose|k: int|
                qi as int <= k < qv.len() && (if k == qi as int {
                    off as int
                } else {
                    0
                }) < query_items(ev, #[trigger] qv[k]).len();
            assert(k == qi as int || qi < k < queries@.len());
            assert(false);
        }
    }
    false
}

/// Runs a storage operation from cursor `(qi0, off0)` until it pauses or
/// completes, returning the emitted events and the pause cursor, if any.
pub fn storage_run(
    entries: &Vec<(Vec<u8>, Vec<u8>)>,
    queries: &Vec<DecodedQuery>,
    max: usize,
    op_id: &String,
    qi0: usize,
    off0: usize,
) -> (r: (Vec<FollowEvent>, Option<(usize, usize)>))
    requires
        max >= 1,
    ensures
        ({
            let s = run_step(
                entries_view(entries@),
                queries_view(queries@),
                max as nat,
                op_id@,
                qi0 as int,
                off0 as int,
            );
            &&& crate::events::events_view(r.0@) == s.0
            &&& (match r.1 {
                Some(c) => s.1 == Some((c.0 as int, c.1 as int)) && c.0 < queries@.len(),
                None => s.1 is None,
            })
        }),
{
    let ghost ev = entries_view(entries@);
    let ghost qv = queries_view(queries@);
    let ghost target = run_step(ev, qv, max as nat, op_id@, qi0 as int, off0 as int);
    let mut evs: Vec<FollowEvent> = Vec::new();
    let mut qi = qi0;
    let mut off = off0;
    proof {
        assert(crate::events::events_view(evs@) =~= Seq::<EventV>::empty());
        assert(target.0 =~= crate::events::events_view(evs@) + run_step(
            ev,
            qv,
            max as nat,
            op_id@,
            qi as int,
            off as int,
        ).0);
    }
    loop
        invariant
            max >= 1,
            ev == entries_view(entries@),
            qv == queries_view(queries@),
            target == run_step(ev, qv, max as nat, op_id@, qi0 as int, off0 as int),
            target.0 =~= crate::events::events_view(evs@) + run_step(
                ev,
                qv,
                max as nat,
                op_id@,
                qi as int,
                off as int,
            ).0,
            target.1 == run_step(ev, qv, max as nat, op_id@, qi as int, off as int).1,
        decreases
                qv.len() - qi,
                (if 0 <= qi < qv.len() {
                    query_items(ev, qv[qi as int]).len() + 1 - off
                } else {
                    0
                }),
    {
        let ghost step = run_step(ev, qv, max as nat, op_id@, qi as int, off as int);
        if qi >= queries.len() {
            evs.push(FollowEvent::OperationStorageDone { operation_id: op_id.clone() });
            proof {
                assert(step.0 =~= seq![EventV::OperationStorageDone { operation_id: op_id@ }]);
                assert(crate::events::events_view(evs@) =~= target.0);
            }
            return (evs, None);
        }
        proof {
            assert(qv[qi as int] == queries@[qi as int]@);
        }
        let total = query_total(entries, &queries[qi]);
        if off >= total {
            qi = qi + 1;
            off = 0;
            continue ;
        }
        let end = if max < total - off {
            off + max
        } else {
            total
        };
        let blen = end - off;
        let (batch, _t) = collect_query_window(entries, &queries[qi], off, max);
        proof {
            let items = query_items(ev, qv[qi as int]);
            assert(vstd::math::min(off as int, items.len() as int) == off as int);
            assert(vstd::math::min(off as int + max as int, items.len() as int) == end as int);
            assert(items_view(batch@) == items.subrange(off as int, end as int));
        }
        let items_ev = FollowEvent::OperationStorageItems {
            operation_id: op_id.clone(),
            items: batch,
        };
        let ghost pre_evs = evs@;
        evs.push(items_ev);
        proof {
            let items = query_items(ev, qv[qi as int]);
            assert(crate::events::events_view(evs@) =~= crate::events::events_view(pre_evs).push(
                EventV::OperationStorageItems {
                    operation_id: op_id@,
                    items: items.subrange(off as int, end as int),
                },
            ));
        }
        if blen == max {
            let more = any_remaining(entries, queries, qi, end);
            if more {
                evs.push(FollowEvent::OperationWaitingForContinue { operation_id: op_id.clone() });
                proof {
                    let items = query_items(ev, qv[qi as int]);
                    let ev0 = EventV::OperationStorageItems {
                        operation_id: op_id@,
                        items: items.subrange(off as int, end as int),
                    };
                    assert(step.0 =~= seq![
                        ev0,
                        EventV::OperationWaitingForContinue { operation_id: op_id@ },
                    ]);
                    assert(step.1 == Some((qi as int, end as int)));
                    assert(crate::events::events_view(evs@) =~= target.0);
                }
                return (evs, Some((qi, end)));
            }
        }
        proof {
            let items = query_items(ev, qv[qi as int]);
            let ev0 = EventV::OperationStorageItems {
                operation_id: op_id@,
                items: items.subrange(off as int, end as int),
            };
            let rest = run_step(ev, qv, max as nat, op_id@, qi as int, end as int);
            assert(step.0 =~= seq![ev0] + rest.0);
            assert(step.1 == rest.1);
            assert(crate::events::events_view(pre_evs) + step.0 =~= crate::events::events_view(
                evs@,
            ) + rest.0);
        }
        off = end;
    }
}

/// The spec view of an optional child-trie key.
pub open spec fn opt_bytes_view(o: Option<Vec<u8>>) -> Option<Seq<u8>> {
    match o {
        None => None,
        Some(v) => Some(v@),
    }
}

/// Borrows the entry list a storage request resolves against.
pub fn resolve_entries<'a>(
    client: &'a crate::client::ClientModel,
    bi: usize,
    child: &Option<Vec<u8>>,
    empty: &'a Vec<(Vec<u8>, Vec<u8>)>,
) -> (r: &'a Vec<(Vec<u8>, Vec<u8>)>)
    requires
        client.wf(),
        bi < client.blocks@.len(),
        empty@.len() == 0,
    ensures
        entries_view(r@) == resolved_entries(client.recs()[bi as int], opt_bytes_view(*child)),
{
    let ghost b = client.recs()[bi as int];
    match child {
        None => {
            proof {
                assert(entries_view(client.blocks@[bi as int].storage@) == b.storage);
            }
            &client.blocks[bi].storage
        },
        Some(ck) => {
            if !is_queryable_key(ck) {
                proof {
                    assert(entries_view(empty@) =~= Seq::<(Seq<u8>, Seq<u8>)>::empty());
                }
                empty
            } else {
                let cs = &client.blocks[bi].child_storage;
                let ghost csv = b.child_storage;
                let mut i: usize = 0;
                proof {
                    assert(csv =~= client.blocks@[bi as int].child_storage@.map_values(
                        |c: (Vec<u8>, Vec<(Vec<u8>, Vec<u8>)>)| (c.0@, entries_view(c.1@)),
                    ));
                    assert(csv.skip(0) =~= csv);
                }
                while i < cs.len()
                    invariant
                        client.wf(),
                        bi < client.blocks@.len(),
                        b == client.recs()[bi as int],
                        csv == b.child_storage,
                        i <= cs@.len(),
                        cs@.len() == csv.len(),
                        cs == client.blocks@[bi as int].child_storage,
                        queryable_key(ck@),
                        opt_bytes_view(*child) == Some(ck@),
                        forall|j: int| 0 <= j < csv.len() ==> (#[trigger] csv[j]) == (
                            cs@[j].0@,
                            entries_view(cs@[j].1@),
                        ),
                        child_entries(csv, ck@) == child_entries(csv.skip(i as int), ck@),
                    decreases cs@.len() - i,
                {
                    proof {
                        assert(csv.skip(i as int)[0] == csv[i as int]);
                        assert(csv.skip(i as int).drop_first() =~= csv.skip(i as int + 1));
                    }
                    if crate::bytesord::bytes_eq(&cs[i].0, ck) {
                        proof {
                            assert(child_entries(csv, ck@) == entries_view(cs@[i as int].1@));
                        }
                        return &cs[i].1;
                    }
                    i = i + 1;
                }
                proof {
                    assert(csv.skip(csv.len() as int).len() == 0);
                    assert(child_entries(csv, ck@) =~= Seq::<(Seq<u8>, Seq<u8>)>::empty());
                    assert(entries_view(empty@) =~= Seq::<(Seq<u8>, Seq<u8>)>::empty());
                }
                empty
            }
        },
    }
}

/// The events of one storage resumption all belong to the operation: each
/// carries its id and refers to no block; the step ends with exactly one
/// closing event — `OperationStorageDone` when the operation completes,
/// `OperationWaitingForContinue` when it pauses — and the terminal
/// completion event appears nowhere else.
pub proof fn lemma_run_step_events(
    entries: Seq<(Seq<u8>, Seq<u8>)>,
    qs: Seq<QueryV>,
    max: nat,
    op: Seq<char>,
    qi: int,
    off: int,
)
    ensures
        ({
            let r = run_step(entries, qs, max, op, qi, off);
            &&& (forall|i: int|
                0 <= i < r.0.len() ==> crate::events::event_op_id(#[trigger] r.0[i]) == Some(op)
                    && crate::events::event_refs(r.0[i]) == Set::<u64>::empty())
            &&& r.0.len() > 0
            &&& (r.1 is None ==> r.0.last() == EventV::OperationStorageDone { operation_id: op })
            &&& (r.1 is Some ==> r.0.last() == EventV::OperationWaitingForContinue {
                operation_id: op,
            })
            &&& (forall|i: int|
                0 <= i < r.0.len() - 1 ==> !crate::events::is_terminal_op_event(
                    #[trigger] r.0[i],
                ) && !((#[trigger] r.0[i]) is OperationWaitingForContinue))
        }),
    decreases
            qs.len() - qi,
            (if 0 <= qi < qs.len() {
                query_items(entries, qs[qi]).len() + 1 - off
            } else {
                0
            }),
{
    let r = run_step(entries, qs, max, op, qi, off);
    if max == 0 || qi < 0 || off < 0 || qi >= qs.len() {
        assert(r.0 =~= seq![EventV::OperationStorageDone { operation_id: op }]);
        assert(crate::events::event_refs(r.0[0]) =~= Set::<u64>::empty());
    } else {
        let items = query_items(entries, qs[qi]);
        if off >= items.len() {
            lemma_run_step_events(entries, qs, max, op, qi + 1, 0);
        } else {
            let end = vstd::math::min(off + max as int, items.len() as int);
            let ev = EventV::OperationStorageItems {
                operation_id: op,
                items: items.subrange(off, end),
            };
            assert(crate::events::event_refs(ev) =~= Set::<u64>::empty());
            if end - off == max && has_remaining(entries, qs, qi, end) {
                assert(r.0 =~= seq![
                    ev,
                    EventV::OperationWaitingForContinue { operation_id: op },
                ]);
                assert(crate::events::event_refs(r.0[1]) =~= Set::<u64>::empty());
            } else {
                lemma_run_step_events(entries, qs, max, op, qi, end);
                let rest = run_step(entries, qs, max, op, qi, end);
                assert(r.0 =~= seq![ev] + rest.0);
                assert forall|i: int|
                    0 <= i < r.0.len() implies crate::events::event_op_id(#[trigger] r.0[i])
                    == Some(op) && crate::events::event_refs(r.0[i]) == Set::<u64>::empty() by {
                    if i > 0 {
                        assert(r.0[i] == rest.0[i - 1]);
                    }
                }
                assert(r.0.last() == rest.0.last());
                assert forall|i: int|
                    0 <= i < r.0.len() - 1 implies !crate::events::is_terminal_op_event(
                    #[trigger] r.0[i],
                ) && !((#[trigger] r.0[i]) is OperationWaitingForContinue) by {
                    if i > 0 {
                        assert(r.0[i] == rest.0[i - 1]);
                    }
                }
            }
        }
    }
}

} // verus!
