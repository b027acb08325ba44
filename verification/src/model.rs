//! The mathematical model of the store: what a batch of pairs does to the
//! contents, which pairs one block commit writes, what a historical read
//! resolves to, and which keys belong to a height's scan range.

use vstd::prelude::*;

use crate::keys::{hash_key, height_prefix, is_hash_path, is_root_path, is_store_path,
    is_subspace_path, known_path, root_key, store_key, subspace_addr_of, subspace_col_of,
    subspace_key};
use crate::order::{key_le, key_lt};
use crate::types::{valid_address, Address, BlockHash, MerkleTree, HASH_LEN};

verus! {

/// The scanned pairs as mathematical byte strings, in scan order.
pub open spec fn entries_view(es: Seq<(Vec<u8>, Vec<u8>)>) -> Seq<(Seq<u8>, Seq<u8>)> {
    es.map_values(|p: (Vec<u8>, Vec<u8>)| (p.0@, p.1@))
}

/// A scanned pair that recovery must reject with a recoverable error: a root
/// or block hash of the wrong size, or a subspace key whose address segment
/// does not parse.
pub open spec fn entry_temp_defect(k: Seq<u8>, v: Seq<u8>) -> bool {
    ||| is_root_path(k) && v.len() != HASH_LEN
    ||| is_hash_path(k) && v.len() != HASH_LEN
    ||| is_subspace_path(k) && !valid_address(subspace_addr_of(k))
}

/// A scanned pair recovery consumes without complaint.
pub open spec fn entry_ok(k: Seq<u8>, v: Seq<u8>) -> bool {
    known_path(k) && !entry_temp_defect(k, v)
}

/// Every scanned pair is consumable.
pub open spec fn entries_ok(es: Seq<(Seq<u8>, Seq<u8>)>) -> bool {
    forall|i: int| 0 <= i < es.len() ==> entry_ok(#[trigger] es[i].0, es[i].1)
}

/// The value of the last root-shaped entry, if any.
pub open spec fn last_root(es: Seq<(Seq<u8>, Seq<u8>)>) -> Option<Seq<u8>>
    decreases es.len(),
{
    if es.len() == 0 {
        None
    } else if is_root_path(es.last().0) {
        Some(es.last().1)
    } else {
        last_root(es.drop_last())
    }
}

/// The value of the last store-shaped entry, if any.
pub open spec fn last_store(es: Seq<(Seq<u8>, Seq<u8>)>) -> Option<Seq<u8>>
    decreases es.len(),
{
    if es.len() == 0 {
        None
    } else if is_store_path(es.last().0) {
        Some(es.last().1)
    } else {
        last_store(es.drop_last())
    }
}

/// The value of the last hash-shaped entry, if any.
pub open spec fn last_hash(es: Seq<(Seq<u8>, Seq<u8>)>) -> Option<Seq<u8>>
    decreases es.len(),
{
    if es.len() == 0 {
        None
    } else if is_hash_path(es.last().0) {
        Some(es.last().1)
    } else {
        last_hash(es.drop_last())
    }
}

/// The subspace mapping the scanned pairs build up, address by address,
/// later writes of the same column winning.
pub open spec fn subs_map(es: Seq<(Seq<u8>, Seq<u8>)>) -> Map<Seq<u8>, Map<Seq<u8>, Seq<u8>>>
    decreases es.len(),
{
    if es.len() == 0 {
        Map::empty()
    } else {
        let m = subs_map(es.drop_last());
        let k = es.last().0;
        let v = es.last().1;
        if is_subspace_path(k) {
            m.insert(
                subspace_addr_of(k),
                (if m.contains_key(subspace_addr_of(k)) {
                    m[subspace_addr_of(k)]
                } else {
                    Map::<Seq<u8>, Seq<u8>>::empty()
                }).insert(subspace_col_of(k), v),
            )
        } else {
            m
        }
    }
}

/// All three essential slots were seen.
pub open spec fn essentials_present(es: Seq<(Seq<u8>, Seq<u8>)>) -> bool {
    last_root(es) is Some && last_store(es) is Some && last_hash(es) is Some
}

/// The map after the pairs are applied in order, later pairs winning.
pub open spec fn apply_entries(m: Map<Seq<u8>, Seq<u8>>, es: Seq<(Seq<u8>, Seq<u8>)>) -> Map<
    Seq<u8>,
    Seq<u8>,
>
    decreases es.len(),
{
    if es.len() == 0 {
        m
    } else {
        apply_entries(m, es.drop_last()).insert(es.last().0, es.last().1)
    }
}

/// The pairs one block commit batches: the Merkle root, the Merkle store,
/// the block hash, and one pair per subspace write.
pub open spec fn batch_spec(
    h: u64,
    tree: MerkleTree,
    hash: BlockHash,
    groups: Seq<(Address, Vec<(Vec<u8>, Vec<u8>)>)>,
) -> Seq<(Seq<u8>, Seq<u8>)> {
    seq![
        (root_key(h), tree.spec_root()),
        (store_key(h), tree.spec_store()),
        (hash_key(h), hash@),
    ] + subs_entries(h, groups)
}

/// The batched pairs of all subspace writes, in group order.
pub open spec fn subs_entries(h: u64, groups: Seq<(Address, Vec<(Vec<u8>, Vec<u8>)>)>) -> Seq<
    (Seq<u8>, Seq<u8>),
>
    decreases groups.len(),
{
    if groups.len() == 0 {
        Seq::empty()
    } else {
        subs_entries(h, groups.drop_last()) + group_entries(
            h,
            groups.last().0@,
            groups.last().1@,
        )
    }
}

/// The batched pairs of one address's subspace writes, in column order.
pub open spec fn group_entries(h: u64, a: Seq<u8>, cols: Seq<(Vec<u8>, Vec<u8>)>) -> Seq<
    (Seq<u8>, Seq<u8>),
>
    decreases cols.len(),
{
    if cols.len() == 0 {
        Seq::empty()
    } else {
        group_entries(h, a, cols.drop_last()).push(
            (subspace_key(h, a, cols.last().0@), cols.last().1@),
        )
    }
}

/// The value a lookup of `(h, a, c)` resolves to: the column's value at the
/// exact height if it was written there, else the value at the nearest
/// earlier height that wrote it, else nothing.
pub open spec fn read_spec(m: Map<Seq<u8>, Seq<u8>>, h: u64, a: Seq<u8>, c: Seq<u8>) -> Option<
    Seq<u8>,
>
    decreases h,
{
    if m.contains_key(subspace_key(h, a, c)) {
        Some(m[subspace_key(h, a, c)])
    } else if h > 0 {
        read_spec(m, (h - 1) as u64, a, c)
    } else {
        None
    }
}

/// The key lies in the scan range of height `h`: at or after `<h>/` and
/// before `<h+1>/`, under the store's comparator.
pub open spec fn in_height_range(k: Seq<u8>, h: u64) -> bool {
    key_le(height_prefix(h), k) && key_lt(k, height_prefix((h + 1) as u64))
}

/// Every key in the height's range can be consumed by recovery.
pub open spec fn range_entries_ok(m: Map<Seq<u8>, Seq<u8>>, h: u64) -> bool {
    forall|k: Seq<u8>|
        m.contains_key(k) && in_height_range(k, h) ==> entry_ok(k, #[trigger] m[k])
}

/// The height's range holds a root-shaped key.
pub open spec fn range_has_root(m: Map<Seq<u8>, Seq<u8>>, h: u64) -> bool {
    exists|k: Seq<u8>|
        #[trigger] m.contains_key(k) && in_height_range(k, h) && crate::keys::is_root_path(k)
}

/// The height's range holds a store-shaped key.
pub open spec fn range_has_store(m: Map<Seq<u8>, Seq<u8>>, h: u64) -> bool {
    exists|k: Seq<u8>|
        #[trigger] m.contains_key(k) && in_height_range(k, h) && crate::keys::is_store_path(k)
}

/// The height's range holds a hash-shaped key.
pub open spec fn range_has_hash(m: Map<Seq<u8>, Seq<u8>>, h: u64) -> bool {
    exists|k: Seq<u8>|
        #[trigger] m.contains_key(k) && in_height_range(k, h) && crate::keys::is_hash_path(k)
}

/// Every key in the height's range is one the schema itself writes for that
/// height: the three essential keys or a canonical subspace key. This is the
/// state every sequence of commits leaves behind.
pub open spec fn canonical_range(m: Map<Seq<u8>, Seq<u8>>, h: u64) -> bool {
    forall|k: Seq<u8>|
        #[trigger] m.contains_key(k) && in_height_range(k, h) ==> (k == root_key(h) || k
            == store_key(h) || k == hash_key(h) || exists|a: Seq<u8>, c: Seq<u8>|
            valid_address(a) && k == #[trigger] subspace_key(h, a, c))
}


} // verus!
