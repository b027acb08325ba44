//! Rebuilding a block's typed state from the raw key-value pairs scanned out
//! of its height range: each key is classified by its path, the last write
//! of each essential slot wins, and any key that fits no known shape aborts
//! the whole reconstruction.

use vstd::prelude::*;
use vstd::slice::slice_to_vec;

use crate::error::Error;
use crate::keys::{classify_key, is_hash_path, is_root_path, is_store_path, is_subspace_path,
    known_path, subspace_addr_of, subspace_col_of, PathClass};
use crate::model::{entries_view, entries_ok, entry_ok, entry_temp_defect, essentials_present,
    last_hash, last_root, last_store, subs_map};
use crate::types::{valid_address, Address, BlockHash, MerkleTree, Subspaces, HASH_LEN};

verus! {

/// Rebuilds a block's typed state from the pairs scanned out of its height
/// range, in scan order. It succeeds exactly when every key matches a known
/// shape, every root and block hash has the right size, every address parses,
/// and all three essential slots (root, store, hash) were seen; the first
/// offending pair otherwise decides the error, an unrecognized key fatally.
#[verifier::loop_isolation(false)]
pub fn recover_block(entries: &Vec<(Vec<u8>, Vec<u8>)>) -> (r: Result<
    (MerkleTree, BlockHash, Subspaces),
    Error,
>)
    ensures
        ({
            let es = entries_view(entries@);
            match r {
                Ok((tree, hash, subs)) => {
                    &&& entries_ok(es)
                    &&& last_root(es) == Some(tree.spec_root())
                    &&& last_store(es) == Some(tree.spec_store())
                    &&& last_hash(es) == Some(hash@)
                    &&& subs.wf()
                    &&& subs@ == subs_map(es)
                },
                Err(e) => {
                    &&& !(entries_ok(es) && essentials_present(es))
                    &&& match e {
                        Error::UnknownKey { key } => exists|i: int|
                            0 <= i < es.len() && #[trigger] es[i].0 == key@ && !known_path(key@)
                                && (forall|j: int| 0 <= j < i ==> entry_ok(
                                #[trigger] es[j].0,
                                es[j].1,
                            )),
                        Error::Temporary { .. } => (exists|i: int|
                            0 <= i < es.len() && entry_temp_defect(#[trigger] es[i].0, es[i].1)
                                && (forall|j: int| 0 <= j < i ==> entry_ok(
                                #[trigger] es[j].0,
                                es[j].1,
                            ))) || (entries_ok(es) && !essentials_present(es)),
                        _ => false,
                    }
                },
            }
        }),
{
    let ghost es = entries_view(entries@);
    let mut root: Option<Vec<u8>> = None;
    let mut store: Option<Vec<u8>> = None;
    let mut hash: Option<Vec<u8>> = None;
    let mut subs = Subspaces::new();
    let mut i: usize = 0;
    proof {
        assert(es.take(0) =~= Seq::<(Seq<u8>, Seq<u8>)>::empty());
    }
    while i < entries.len()
        invariant
            0 <= i <= entries@.len(),
            es == entries_view(entries@),
            forall|j: int| 0 <= j < i ==> entry_ok(#[trigger] es[j].0, es[j].1),
            root is Some <==> last_root(es.take(i as int)) is Some,
            root matches Some(b) ==> last_root(es.take(i as int)) == Some(b@) && b@.len()
                == HASH_LEN,
            store is Some <==> last_store(es.take(i as int)) is Some,
            store matches Some(b) ==> last_store(es.take(i as int)) == Some(b@),
            hash is Some <==> last_hash(es.take(i as int)) is Some,
            hash matches Some(b) ==> last_hash(es.take(i as int)) == Some(b@) && b@.len()
                == HASH_LEN,
            subs.wf(),
            subs@ == subs_map(es.take(i as int)),
        decreases entries@.len() - i,
    {
        let k = &entries[i].0;
        let v = &entries[i].1;
        proof {
            assert(es[i as int] == (k@, v@));
            assert(es.take(i + 1).drop_last() =~= es.take(i as int));
            assert(es.take(i + 1).last() == es[i as int]);
        }
        match classify_key(k.as_slice()) {
            PathClass::Root => {
                if v.len() != HASH_LEN {
                    proof {
                        assert(entry_temp_defect(es[i as int].0, es[i as int].1));
                        assert(!entry_ok(es[i as int].0, es[i as int].1));
                    }
                    return Err(
                        Error::Temporary { error: "a Merkle root with a wrong length".to_owned() },
                    );
                }
                root = Some(slice_to_vec(v.as_slice()));
            },
            PathClass::Store => {
                store = Some(slice_to_vec(v.as_slice()));
            },
            PathClass::Hash => {
                if v.len() != HASH_LEN {
                    proof {
                        assert(entry_temp_defect(es[i as int].0, es[i as int].1));
                        assert(!entry_ok(es[i as int].0, es[i as int].1));
                    }
                    return Err(
                        Error::Temporary { error: "a block hash with a wrong length".to_owned() },
                    );
                }
                hash = Some(slice_to_vec(v.as_slice()));
            },
            PathClass::Subspace { address, column } => {
                match Address::from_key_seg(address.as_slice()) {
                    Some(addr) => {
                        subs.insert(addr, column, slice_to_vec(v.as_slice()));
                    },
                    None => {
                        proof {
                            assert(entry_temp_defect(es[i as int].0, es[i as int].1));
                            assert(!entry_ok(es[i as int].0, es[i as int].1));
                        }
                        return Err(
                            Error::Temporary {
                                error: "cannot parse an address from a key segment".to_owned(),
                            },
                        );
                    },
                }
            },
            PathClass::Unrecognized => {
                proof {
                    assert(!known_path(es[i as int].0));
                    assert(!entry_ok(es[i as int].0, es[i as int].1));
                }
                return Err(Error::UnknownKey { key: slice_to_vec(k.as_slice()) });
            },
        }
        i = i + 1;
    }
    proof {
        assert(es.take(i as int) =~= es);
    }
    let root_bytes = match root {
        Some(b) => b,
        None => {
            return Err(
                Error::Temporary { error: "essential block data is missing".to_owned() },
            );
        },
    };
    let store_bytes = match store {
        Some(b) => b,
        None => {
            return Err(
                Error::Temporary { error: "essential block data is missing".to_owned() },
            );
        },
    };
    let hash_bytes = match hash {
        Some(b) => b,
        None => {
            return Err(
                Error::Temporary { error: "essential block data is missing".to_owned() },
            );
        },
    };
    let tree = match MerkleTree::new(root_bytes, store_bytes) {
        Some(t) => t,
        None => {
            return Err(
                Error::Temporary { error: "a Merkle root with a wrong length".to_owned() },
            );
        },
    };
    let block_hash = match BlockHash::new(hash_bytes) {
        Some(h) => h,
        None => {
            return Err(
                Error::Temporary { error: "a block hash with a wrong length".to_owned() },
            );
        },
    };
    Ok((tree, block_hash, subs))
}

} // verus!
