//! The on-disk key schema. Every key the store writes is one of:
//! `chain_id`, `height`, `<h>/tree/root`, `<h>/tree/store`, `<h>/hash`, or
//! `<h>/subspace/<address>/<column...>`, where `<h>` is the canonical decimal
//! encoding of a block height and a column name may itself contain `/`.
//! A key read back from disk is classified by its segments; one that matches
//! none of the known shapes is a schema violation.

use vstd::prelude::*;
use vstd::slice::slice_to_vec;

use crate::codec::{dec_seq, encode_dec, join_segs, join_tail, lemma_join_split,
    lemma_split_prepend_seg, lemma_split_segs_len, bytes_eq, push_bytes, split_key, split_segs,
    SEP};
use crate::types::valid_address;

verus! {

pub open spec fn tree_tag() -> Seq<u8> {
    seq![116u8, 114u8, 101u8, 101u8]
}

pub open spec fn root_tag() -> Seq<u8> {
    seq![114u8, 111u8, 111u8, 116u8]
}

pub open spec fn store_tag() -> Seq<u8> {
    seq![115u8, 116u8, 111u8, 114u8, 101u8]
}

pub open spec fn hash_tag() -> Seq<u8> {
    seq![104u8, 97u8, 115u8, 104u8]
}

pub open spec fn subspace_tag() -> Seq<u8> {
    seq![115u8, 117u8, 98u8, 115u8, 112u8, 97u8, 99u8, 101u8]
}

/// The well-known key holding the chain identifier.
pub open spec fn chain_id_key() -> Seq<u8> {
    seq![99u8, 104u8, 97u8, 105u8, 110u8, 95u8, 105u8, 100u8]
}

/// The well-known key holding the latest committed height: the global
/// pointer a commit advances last.
pub open spec fn height_ptr_key() -> Seq<u8> {
    seq![104u8, 101u8, 105u8, 103u8, 104u8, 116u8]
}

fn tree_tag_vec() -> (r: Vec<u8>)
    ensures
        r@ == tree_tag(),
{
    let r = vec![116u8, 114u8, 101u8, 101u8];
    proof {
        assert(r@ =~= tree_tag());
    }
    r
}

fn root_tag_vec() -> (r: Vec<u8>)
    ensures
        r@ == root_tag(),
{
    let r = vec![114u8, 111u8, 111u8, 116u8];
    proof {
        assert(r@ =~= root_tag());
    }
    r
}

fn store_tag_vec() -> (r: Vec<u8>)
    ensures
        r@ == store_tag(),
{
    let r = vec![115u8, 116u8, 111u8, 114u8, 101u8];
    proof {
        assert(r@ =~= store_tag());
    }
    r
}

fn hash_tag_vec() -> (r: Vec<u8>)
    ensures
        r@ == hash_tag(),
{
    let r = vec![104u8, 97u8, 115u8, 104u8];
    proof {
        assert(r@ =~= hash_tag());
    }
    r
}

fn subspace_tag_vec() -> (r: Vec<u8>)
    ensures
        r@ == subspace_tag(),
{
    let r = vec![115u8, 117u8, 98u8, 115u8, 112u8, 97u8, 99u8, 101u8];
    proof {
        assert(r@ =~= subspace_tag());
    }
    r
}

/// The key `chain_id`, as fresh bytes.
pub fn chain_id_key_vec() -> (r: Vec<u8>)
    ensures
        r@ == chain_id_key(),
{
    let r = vec![99u8, 104u8, 97u8, 105u8, 110u8, 95u8, 105u8, 100u8];
    proof {
        assert(r@ =~= chain_id_key());
    }
    r
}

/// The key `height`, as fresh bytes.
pub fn height_ptr_key_vec() -> (r: Vec<u8>)
    ensures
        r@ == height_ptr_key(),
{
    let r = vec![104u8, 101u8, 105u8, 103u8, 104u8, 116u8];
    proof {
        assert(r@ =~= height_ptr_key());
    }
    r
}

/// The key `<h>/<rest>` for the canonical decimal encoding of `h`.
pub open spec fn height_key_with(h: u64, rest: Seq<u8>) -> Seq<u8> {
    dec_seq(h as nat) + seq![SEP] + rest
}

/// The key `<h>/` itself: the lower bound of height `h`'s scan range.
pub open spec fn height_prefix(h: u64) -> Seq<u8> {
    height_key_with(h, Seq::empty())
}

/// The key `<h>/tree/root`.
pub open spec fn root_key(h: u64) -> Seq<u8> {
    height_key_with(h, tree_tag() + seq![SEP] + root_tag())
}

/// The key `<h>/tree/store`.
pub open spec fn store_key(h: u64) -> Seq<u8> {
    height_key_with(h, tree_tag() + seq![SEP] + store_tag())
}

/// The key `<h>/hash`.
pub open spec fn hash_key(h: u64) -> Seq<u8> {
    height_key_with(h, hash_tag())
}

/// The key `<h>/subspace/<addr>/<col>`.
pub open spec fn subspace_key(h: u64, addr: Seq<u8>, col: Seq<u8>) -> Seq<u8> {
    height_key_with(h, subspace_tag() + seq![SEP] + addr + seq![SEP] + col)
}

/// Splitting `<h>/rest` yields the height digits first, then `rest`'s own
/// segments.
pub proof fn lemma_split_height_key(h: u64, rest: Seq<u8>)
    ensures
        split_segs(height_key_with(h, rest)) == seq![dec_seq(h as nat)] + split_segs(rest),
        crate::codec::parse_dec(split_segs(height_key_with(h, rest))[0]) == Some(h),
{
    crate::codec::lemma_dec_seq_is_digits(h as nat);
    lemma_split_prepend_seg(dec_seq(h as nat), rest);
    crate::codec::lemma_parse_dec_seq(h);
    crate::codec::lemma_split_segs_len(rest);
}

/// The prefix `<h>/` as fresh bytes.
pub fn height_prefix_vec(h: u64) -> (r: Vec<u8>)
    ensures
        r@ == height_prefix(h),
{
    let mut r = encode_dec(h);
    r.push(SEP);
    proof {
        assert(r@ =~= height_prefix(h));
    }
    r
}

/// The key `<h>/tree/root` as fresh bytes.
pub fn root_key_vec(h: u64) -> (r: Vec<u8>)
    ensures
        r@ == root_key(h),
{
    let mut r = encode_dec(h);
    r.push(SEP);
    push_bytes(&mut r, tree_tag_vec().as_slice());
    r.push(SEP);
    push_bytes(&mut r, root_tag_vec().as_slice());
    proof {
        assert(r@ =~= root_key(h));
    }
    r
}

/// The key `<h>/tree/store` as fresh bytes.
pub fn store_key_vec(h: u64) -> (r: Vec<u8>)
    ensures
        r@ == store_key(h),
{
    let mut r = encode_dec(h);
    r.push(SEP);
    push_bytes(&mut r, tree_tag_vec().as_slice());
    r.push(SEP);
    push_bytes(&mut r, store_tag_vec().as_slice());
    proof {
        assert(r@ =~= store_key(h));
    }
    r
}

/// The key `<h>/hash` as fresh bytes.
pub fn hash_key_vec(h: u64) -> (r: Vec<u8>)
    ensures
        r@ == hash_key(h),
{
    let mut r = encode_dec(h);
    r.push(SEP);
    push_bytes(&mut r, hash_tag_vec().as_slice());
    proof {
        assert(r@ =~= hash_key(h));
    }
    r
}

/// The key `<h>/subspace/<addr>/<col>` as fresh bytes.
pub fn subspace_key_vec(h: u64, addr: &[u8], col: &[u8]) -> (r: Vec<u8>)
    ensures
        r@ == subspace_key(h, addr@, col@),
{
    let mut r = encode_dec(h);
    r.push(SEP);
    push_bytes(&mut r, subspace_tag_vec().as_slice());
    r.push(SEP);
    push_bytes(&mut r, addr);
    r.push(SEP);
    push_bytes(&mut r, col);
    proof {
        assert(r@ =~= subspace_key(h, addr@, col@));
    }
    r
}

/// The key's second segment says `tree` and its third says `root`.
pub open spec fn is_root_path(k: Seq<u8>) -> bool {
    let ss = split_segs(k);
    ss.len() >= 3 && ss[1] == tree_tag() && ss[2] == root_tag()
}

/// The key's second segment says `tree` and its third says `store`.
pub open spec fn is_store_path(k: Seq<u8>) -> bool {
    let ss = split_segs(k);
    ss.len() >= 3 && ss[1] == tree_tag() && ss[2] == store_tag()
}

/// The key's second segment says `hash`.
pub open spec fn is_hash_path(k: Seq<u8>) -> bool {
    let ss = split_segs(k);
    ss.len() >= 2 && ss[1] == hash_tag()
}

/// The key's second segment says `subspace` and an address segment follows.
pub open spec fn is_subspace_path(k: Seq<u8>) -> bool {
    let ss = split_segs(k);
    ss.len() >= 3 && ss[1] == subspace_tag()
}

/// The address segment of a subspace key.
pub open spec fn subspace_addr_of(k: Seq<u8>) -> Seq<u8> {
    split_segs(k)[2]
}

/// The column name of a subspace key: everything after the address, rejoined
/// on `/`.
pub open spec fn subspace_col_of(k: Seq<u8>) -> Seq<u8> {
    join_segs(split_segs(k).skip(3))
}

/// A key within a height's range that matches one of the shapes the store
/// writes. Any other key found there is corruption or a schema change.
pub open spec fn known_path(k: Seq<u8>) -> bool {
    is_root_path(k) || is_store_path(k) || is_hash_path(k) || is_subspace_path(k)
}

/// What a scanned key turns out to hold.
pub enum PathClass {
    /// The height's Merkle root hash.
    Root,
    /// The height's encoded Merkle store.
    Store,
    /// The height's block hash.
    Hash,
    /// A subspace write: the address segment and the rejoined column name.
    Subspace { address: Vec<u8>, column: Vec<u8> },
    /// None of the known shapes.
    Unrecognized,
}

/// Classifies a scanned key by its second segment (and, under `tree`, its
/// third), exactly as the recovery scan demands.
pub fn classify_key(k: &[u8]) -> (r: PathClass)
    ensures
        (r is Root) == is_root_path(k@),
        (r is Store) == is_store_path(k@),
        (r is Hash) == is_hash_path(k@),
        (r is Subspace) == is_subspace_path(k@),
        (r is Unrecognized) == !known_path(k@),
        r matches PathClass::Subspace { address, column } ==> address@ == subspace_addr_of(k@)
            && column@ == subspace_col_of(k@),
{
    let segs = split_key(k);
    let ghost ss = split_segs(k@);
    proof {
        lemma_split_segs_len(k@);
    }
    if segs.len() >= 2 {
        if bytes_eq(segs[1].as_slice(), tree_tag_vec().as_slice()) {
            if segs.len() >= 3 {
                if bytes_eq(segs[2].as_slice(), root_tag_vec().as_slice()) {
                    return PathClass::Root;
                }
                if bytes_eq(segs[2].as_slice(), store_tag_vec().as_slice()) {
                    return PathClass::Store;
                }
            }
            return PathClass::Unrecognized;
        }
        if bytes_eq(segs[1].as_slice(), hash_tag_vec().as_slice()) {
            return PathClass::Hash;
        }
        if bytes_eq(segs[1].as_slice(), subspace_tag_vec().as_slice()) {
            if segs.len() >= 3 {
                let address = slice_to_vec(segs[2].as_slice());
                let column = join_tail(&segs, 3);
                proof {
                    if ss.len() == 2 {
                        // impossible here, segs.len() >= 3
                    }
                    assert(ss.skip(3) =~= segs@.map_values(|s: Vec<u8>| s@).skip(3));
                }
                return PathClass::Subspace { address, column };
            }
            return PathClass::Unrecognized;
        }
    }
    PathClass::Unrecognized
}

/// The canonical per-height keys classify as what they were written as, and
/// a subspace key gives back its address and column exactly.
pub proof fn lemma_classify_canonical(h: u64, addr: Seq<u8>, col: Seq<u8>)
    requires
        valid_address(addr),
    ensures
        is_root_path(root_key(h)) && !is_store_path(root_key(h)) && !is_hash_path(root_key(h))
            && !is_subspace_path(root_key(h)),
        is_store_path(store_key(h)) && !is_root_path(store_key(h)) && !is_hash_path(store_key(h))
            && !is_subspace_path(store_key(h)),
        is_hash_path(hash_key(h)) && !is_root_path(hash_key(h)) && !is_store_path(hash_key(h))
            && !is_subspace_path(hash_key(h)),
        is_subspace_path(subspace_key(h, addr, col)) && !is_root_path(subspace_key(h, addr, col))
            && !is_store_path(subspace_key(h, addr, col)) && !is_hash_path(
            subspace_key(h, addr, col),
        ),
        subspace_addr_of(subspace_key(h, addr, col)) == addr,
        subspace_col_of(subspace_key(h, addr, col)) == col,
{
    lemma_split_height_key(h, tree_tag() + seq![SEP] + root_tag());
    lemma_split_height_key(h, tree_tag() + seq![SEP] + store_tag());
    lemma_split_height_key(h, hash_tag());
    lemma_split_height_key(h, subspace_tag() + seq![SEP] + addr + seq![SEP] + col);
    assert(split_segs(tree_tag() + seq![SEP] + root_tag()) =~= seq![tree_tag(), root_tag()]) by {
        lemma_split_prepend_seg(tree_tag(), root_tag());
        lemma_split_one_seg(root_tag());
    }
    assert(split_segs(tree_tag() + seq![SEP] + store_tag()) =~= seq![tree_tag(), store_tag()]) by {
        lemma_split_prepend_seg(tree_tag(), store_tag());
        lemma_split_one_seg(store_tag());
    }
    assert(split_segs(hash_tag()) =~= seq![hash_tag()]) by {
        lemma_split_one_seg(hash_tag());
    }
    let srest = subspace_tag() + seq![SEP] + addr + seq![SEP] + col;
    assert(split_segs(srest) =~= seq![subspace_tag(), addr] + split_segs(col)) by {
        assert(addr + seq![SEP] + col =~= (addr + seq![SEP] + col));
        lemma_split_prepend_seg(addr, col);
        assert(srest =~= subspace_tag() + seq![SEP] + (addr + seq![SEP] + col));
        lemma_split_prepend_seg(subspace_tag(), addr + seq![SEP] + col);
    }
    crate::codec::lemma_split_segs_len(col);
    assert(split_segs(subspace_key(h, addr, col)).skip(3) =~= split_segs(col));
    lemma_join_split(col);
    // The tags are pairwise distinct, so the shapes exclude one another.
    assert(tree_tag() != hash_tag());
    assert(tree_tag() != subspace_tag());
    assert(hash_tag() != subspace_tag());
    assert(root_tag() != store_tag());
}

/// A separator-free byte string is a single segment.
pub proof fn lemma_split_one_seg(s: Seq<u8>)
    requires
        forall|i: int| 0 <= i < s.len() ==> #[trigger] s[i] != SEP,
    ensures
        split_segs(s) == seq![s],
    decreases s.len(),
{
    if s.len() == 0 {
        assert(s =~= Seq::<u8>::empty());
        assert(split_segs(s) =~~= seq![s]);
    } else {
        lemma_split_one_seg(s.skip(1));
        let rest = split_segs(s.skip(1));
        assert(rest == seq![s.skip(1)]);
        assert(seq![s[0]] + s.skip(1) =~= s);
        assert(rest.skip(1) =~= Seq::<Seq<u8>>::empty());
        assert(split_segs(s) =~~= seq![s]);
    }
}

} // verus!
