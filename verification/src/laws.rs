//! The laws the store obeys, proved once and for all: which keys fall into a
//! height's scan range, what applying a commit batch does to the contents,
//! and — building on those — commit atomicity, historical fallback, and
//! round-trip recovery.

use core::cmp::Ordering;
use vstd::prelude::*;

use crate::codec::{dec_seq, lemma_dec_seq_is_digits, lemma_split_segs_len, parse_dec, split_segs,
    SEP};
use crate::keys::{chain_id_key, hash_key, height_key_with, height_prefix, height_ptr_key,
    is_hash_path, is_root_path, is_store_path, is_subspace_path, lemma_classify_canonical,
    lemma_split_height_key, lemma_split_one_seg, root_key, store_key, subspace_addr_of,
    subspace_col_of, subspace_key};
use crate::model::{apply_entries, batch_spec, canonical_range, group_entries, in_height_range,
    last_hash, last_root, last_store, range_entries_ok, range_has_hash, range_has_root,
    range_has_store, read_spec, subs_entries, subs_map};
use crate::types::{Address, BlockHash, BlockHeight, MerkleTree, Subspaces, HASH_LEN};
use crate::order::{cmp_keys, key_le, key_lt, lex_bytes, lex_segs};
use crate::types::valid_address;

verus! {

/// A key of the form `<h>/...` lies in the scan range of height `h0` exactly
/// when `h == h0`.
pub proof fn lemma_height_key_in_range(h: u64, rest: Seq<u8>, h0: u64)
    requires
        h0 < u64::MAX,
    ensures
        in_height_range(height_key_with(h, rest), h0) <==> h == h0,
{
    let k = height_key_with(h, rest);
    let lo = height_prefix(h0);
    let hi = height_prefix((h0 + 1) as u64);
    lemma_split_height_key(h, rest);
    lemma_split_height_key(h0, Seq::empty());
    lemma_split_height_key((h0 + 1) as u64, Seq::empty());
    let sk = split_segs(k);
    let slo = split_segs(lo);
    let shi = split_segs(hi);
    assert(split_segs(Seq::<u8>::empty()) == seq![Seq::<u8>::empty()]);
    let sr = split_segs(rest);
    lemma_split_segs_len(rest);
    assert(sk.skip(1) =~= sr);
    assert(slo.skip(1) =~= seq![Seq::<u8>::empty()]);
    assert(shi.skip(1) =~= seq![Seq::<u8>::empty()]);
    let e1: Seq<Seq<u8>> = seq![Seq::<u8>::empty()];
    if h == h0 {
        // Lower bound: the prefix's remaining segment is the empty one.
        assert(cmp_keys(lo, k) != Ordering::Greater) by {
            assert(lex_segs(e1, sr) != Ordering::Greater) by {
                if sr[0].len() == 0 {
                    assert(lex_bytes(e1[0], sr[0]) == Ordering::Equal);
                    assert(e1.skip(1) =~= Seq::<Seq<u8>>::empty());
                    assert(lex_segs(e1.skip(1), sr.skip(1)) != Ordering::Greater) by {
                        if sr.len() > 1 {
                            assert(lex_segs(Seq::<Seq<u8>>::empty(), sr.skip(1))
                                == Ordering::Less);
                        }
                    }
                } else {
                    assert(lex_bytes(e1[0], sr[0]) == Ordering::Less);
                }
            }
        }
        // Upper bound: numerically below the next height.
        assert(cmp_keys(k, hi) == Ordering::Less);
    } else if h < h0 {
        assert(cmp_keys(lo, k) == Ordering::Greater);
        assert(!key_le(lo, k));
    } else if h > h0 + 1 {
        assert(cmp_keys(k, hi) == Ordering::Greater);
        assert(!key_lt(k, hi));
    } else {
        // h == h0 + 1: the bare prefix of the next height is not above the
        // keys of that height.
        assert(cmp_keys(k, hi) == lex_segs(sr, e1));
        assert(lex_segs(sr, e1) != Ordering::Less) by {
            if sr[0].len() == 0 {
                assert(lex_bytes(sr[0], e1[0]) == Ordering::Equal);
                assert(e1.skip(1) =~= Seq::<Seq<u8>>::empty());
                assert(lex_segs(sr.skip(1), e1.skip(1)) != Ordering::Less) by {
                    if sr.len() > 1 {
                        assert(lex_segs(sr.skip(1), Seq::<Seq<u8>>::empty())
                            == Ordering::Greater);
                    }
                }
            } else {
                assert(lex_bytes(sr[0], e1[0]) == Ordering::Greater);
            }
        }
        assert(!key_lt(k, hi));
    }
}

/// The two well-known non-numeric keys never fall into any height's range:
/// their first byte is a letter, which sorts after every digit.
pub proof fn lemma_fixed_keys_out_of_range(h: u64)
    requires
        h < u64::MAX,
    ensures
        !in_height_range(chain_id_key(), h),
        !in_height_range(height_ptr_key(), h),
{
    let hi = height_prefix((h + 1) as u64);
    lemma_split_height_key((h + 1) as u64, Seq::empty());
    lemma_dec_seq_is_digits((h + 1) as nat);
    assert(hi[0] == dec_seq((h + 1) as nat)[0]);
    assert(48 <= hi[0] <= 57);
    lemma_one_seg_key_out(chain_id_key(), hi);
    lemma_one_seg_key_out(height_ptr_key(), hi);
}

/// A separator-free key that opens with a byte above the digits compares
/// greater than any key that opens with a digit, so it is below no height's
/// upper bound.
proof fn lemma_one_seg_key_out(k: Seq<u8>, hi: Seq<u8>)
    requires
        k.len() > 0,
        k[0] > 57,
        forall|i: int| 0 <= i < k.len() ==> #[trigger] k[i] != SEP,
        hi.len() > 0,
        48 <= hi[0] <= 57,
    ensures
        cmp_keys(k, hi) == Ordering::Greater,
{
    lemma_split_one_seg(k);
    assert(split_segs(k)[0] == k);
    assert(!crate::codec::is_digits(k));
    assert(parse_dec(k) is None);
    assert(lex_bytes(k, hi) == Ordering::Greater);
}

/// Applying pairs that never touch `k` leaves `k` alone.
pub proof fn lemma_apply_entries_absent(
    m: Map<Seq<u8>, Seq<u8>>,
    es: Seq<(Seq<u8>, Seq<u8>)>,
    k: Seq<u8>,
)
    requires
        forall|i: int| 0 <= i < es.len() ==> (#[trigger] es[i].0) != k,
    ensures
        apply_entries(m, es).contains_key(k) == m.contains_key(k),
        m.contains_key(k) ==> apply_entries(m, es)[k] == m[k],
    decreases es.len(),
{
    if es.len() > 0 {
        assert(forall|i: int|
            0 <= i < es.len() - 1 ==> #[trigger] es.drop_last()[i] == es[i]);
        lemma_apply_entries_absent(m, es.drop_last(), k);
        assert(es.last().0 != k);
    }
}

/// The pair that wrote a key last decides what the key holds afterwards.
pub proof fn lemma_apply_entries_last(
    m: Map<Seq<u8>, Seq<u8>>,
    es: Seq<(Seq<u8>, Seq<u8>)>,
    i: int,
)
    requires
        0 <= i < es.len(),
        forall|j: int| i < j < es.len() ==> (#[trigger] es[j].0) != es[i].0,
    ensures
        apply_entries(m, es).contains_key(es[i].0),
        apply_entries(m, es)[es[i].0] == es[i].1,
    decreases es.len(),
{
    if i == es.len() - 1 {
    } else {
        assert(forall|j: int|
            0 <= j < es.len() - 1 ==> #[trigger] es.drop_last()[j] == es[j]);
        lemma_apply_entries_last(m, es.drop_last(), i);
        assert(es.last().0 != es[i].0);
    }
}

/// A key the application holds was either there before or was written by one
/// of the pairs.
pub proof fn lemma_apply_entries_domain(
    m: Map<Seq<u8>, Seq<u8>>,
    es: Seq<(Seq<u8>, Seq<u8>)>,
    k: Seq<u8>,
)
    requires
        apply_entries(m, es).contains_key(k),
    ensures
        m.contains_key(k) || exists|i: int| 0 <= i < es.len() && (#[trigger] es[i].0) == k,
    decreases es.len(),
{
    if es.len() > 0 {
        if k == es.last().0 {
            assert(es[es.len() - 1].0 == k);
        } else {
            lemma_apply_entries_domain(m, es.drop_last(), k);
            if exists|i: int| 0 <= i < es.len() - 1 && (#[trigger] es.drop_last()[i].0) == k {
                let i = choose|i: int|
                    0 <= i < es.len() - 1 && (#[trigger] es.drop_last()[i].0) == k;
                assert(es[i].0 == k);
            }
        }
    }
}

/// The last root-shaped pair decides `last_root`, and a root-shaped pair
/// exists exactly when `last_root` is set. The same holds for the store and
/// hash slots.
pub proof fn lemma_last_root_bridge(es: Seq<(Seq<u8>, Seq<u8>)>)
    ensures
        (last_root(es) is Some) <==> exists|i: int|
            0 <= i < es.len() && is_root_path(#[trigger] es[i].0),
        last_root(es) matches Some(v) ==> exists|i: int|
            0 <= i < es.len() && is_root_path(#[trigger] es[i].0) && es[i].1 == v,
    decreases es.len(),
{
    if es.len() > 0 {
        lemma_last_root_bridge(es.drop_last());
        assert(forall|i: int|
            0 <= i < es.len() - 1 ==> #[trigger] es.drop_last()[i] == es[i]);
        if is_root_path(es.last().0) {
            assert(is_root_path(es[es.len() - 1].0));
        } else {
            if last_root(es.drop_last()) is Some {
                let i = choose|i: int|
                    0 <= i < es.len() - 1 && is_root_path(#[trigger] es.drop_last()[i].0)
                        && es.drop_last()[i].1 == last_root(es.drop_last()).unwrap();
                assert(is_root_path(es[i].0));
            }
            if exists|i: int| 0 <= i < es.len() && is_root_path(#[trigger] es[i].0) {
                let i = choose|i: int| 0 <= i < es.len() && is_root_path(#[trigger] es[i].0);
                assert(i < es.len() - 1);
                assert(is_root_path(es.drop_last()[i].0));
            }
        }
    }
}

/// See `lemma_last_root_bridge`.
pub proof fn lemma_last_store_bridge(es: Seq<(Seq<u8>, Seq<u8>)>)
    ensures
        (last_store(es) is Some) <==> exists|i: int|
            0 <= i < es.len() && is_store_path(#[trigger] es[i].0),
        last_store(es) matches Some(v) ==> exists|i: int|
            0 <= i < es.len() && is_store_path(#[trigger] es[i].0) && es[i].1 == v,
    decreases es.len(),
{
    if es.len() > 0 {
        lemma_last_store_bridge(es.drop_last());
        assert(forall|i: int|
            0 <= i < es.len() - 1 ==> #[trigger] es.drop_last()[i] == es[i]);
        if is_store_path(es.last().0) {
            assert(is_store_path(es[es.len() - 1].0));
        } else {
            if last_store(es.drop_last()) is Some {
                let i = choose|i: int|
                    0 <= i < es.len() - 1 && is_store_path(#[trigger] es.drop_last()[i].0)
                        && es.drop_last()[i].1 == last_store(es.drop_last()).unwrap();
                assert(is_store_path(es[i].0));
            }
            if exists|i: int| 0 <= i < es.len() && is_store_path(#[trigger] es[i].0) {
                let i = choose|i: int| 0 <= i < es.len() && is_store_path(#[trigger] es[i].0);
                assert(i < es.len() - 1);
                assert(is_store_path(es.drop_last()[i].0));
            }
        }
    }
}

/// See `lemma_last_root_bridge`.
pub proof fn lemma_last_hash_bridge(es: Seq<(Seq<u8>, Seq<u8>)>)
    ensures
        (last_hash(es) is Some) <==> exists|i: int|
            0 <= i < es.len() && is_hash_path(#[trigger] es[i].0),
        last_hash(es) matches Some(v) ==> exists|i: int|
            0 <= i < es.len() && is_hash_path(#[trigger] es[i].0) && es[i].1 == v,
    decreases es.len(),
{
    if es.len() > 0 {
        lemma_last_hash_bridge(es.drop_last());
        assert(forall|i: int|
            0 <= i < es.len() - 1 ==> #[trigger] es.drop_last()[i] == es[i]);
        if is_hash_path(es.last().0) {
            assert(is_hash_path(es[es.len() - 1].0));
        } else {
            if last_hash(es.drop_last()) is Some {
                let i = choose|i: int|
                    0 <= i < es.len() - 1 && is_hash_path(#[trigger] es.drop_last()[i].0)
                        && es.drop_last()[i].1 == last_hash(es.drop_last()).unwrap();
                assert(is_hash_path(es[i].0));
            }
            if exists|i: int| 0 <= i < es.len() && is_hash_path(#[trigger] es[i].0) {
                let i = choose|i: int| 0 <= i < es.len() && is_hash_path(#[trigger] es[i].0);
                assert(i < es.len() - 1);
                assert(is_hash_path(es.drop_last()[i].0));
            }
        }
    }
}

/// With each `(address, column)` pair appearing at most once among the
/// subspace-shaped pairs, the built mapping reads back exactly those pairs.
pub proof fn lemma_subs_map_char(es: Seq<(Seq<u8>, Seq<u8>)>)
    requires
        forall|i: int, j: int|
            0 <= i < j < es.len() && is_subspace_path(#[trigger] es[i].0) && is_subspace_path(
                #[trigger] es[j].0,
            ) ==> !(subspace_addr_of(es[i].0) == subspace_addr_of(es[j].0) && subspace_col_of(
                es[i].0,
            ) == subspace_col_of(es[j].0)),
    ensures
        forall|a: Seq<u8>|
            #[trigger] subs_map(es).contains_key(a) <==> exists|i: int|
                0 <= i < es.len() && is_subspace_path(#[trigger] es[i].0) && subspace_addr_of(
                    es[i].0,
                ) == a,
        forall|a: Seq<u8>, c: Seq<u8>|
            subs_map(es).contains_key(a) && #[trigger] subs_map(es)[a].contains_key(c)
                <==> exists|i: int|
                0 <= i < es.len() && is_subspace_path(#[trigger] es[i].0) && subspace_addr_of(
                    es[i].0,
                ) == a && subspace_col_of(es[i].0) == c,
        forall|i: int|
            0 <= i < es.len() && is_subspace_path(#[trigger] es[i].0) ==> subs_map(
                es,
            ).contains_key(subspace_addr_of(es[i].0)) && subs_map(es)[subspace_addr_of(
                es[i].0,
            )].contains_key(subspace_col_of(es[i].0)) && subs_map(es)[subspace_addr_of(
                es[i].0,
            )][subspace_col_of(es[i].0)] == es[i].1,
    decreases es.len(),
{
    if es.len() > 0 {
        let dl = es.drop_last();
        assert(forall|i: int| 0 <= i < es.len() - 1 ==> #[trigger] dl[i] == es[i]);
        lemma_subs_map_char(dl);
        let m0 = subs_map(dl);
        let m1 = subs_map(es);
        let k = es.last().0;
        let v = es.last().1;
        if is_subspace_path(k) {
            let a = subspace_addr_of(k);
            let c = subspace_col_of(k);
            assert(is_subspace_path(es[es.len() - 1].0));
            assert(subspace_addr_of(es[es.len() - 1].0) == a);
            // The last pair's column is fresh for its address.
            assert(forall|i: int|
                0 <= i < es.len() - 1 && is_subspace_path(#[trigger] es[i].0)
                    && subspace_addr_of(es[i].0) == a ==> subspace_col_of(es[i].0) != c);
            assert forall|x: Seq<u8>| #[trigger] m1.contains_key(x) implies exists|i: int|
                0 <= i < es.len() && is_subspace_path(#[trigger] es[i].0) && subspace_addr_of(
                    es[i].0,
                ) == x by {
                if x == a {
                    assert(is_subspace_path(es[es.len() - 1].0) && subspace_addr_of(
                        es[es.len() - 1].0,
                    ) == x);
                } else {
                    assert(m0.contains_key(x));
                    let i = choose|i: int|
                        0 <= i < dl.len() && is_subspace_path(#[trigger] dl[i].0)
                            && subspace_addr_of(dl[i].0) == x;
                    assert(is_subspace_path(es[i].0) && subspace_addr_of(es[i].0) == x);
                }
            }
            assert forall|x: Seq<u8>| (exists|i: int|
                0 <= i < es.len() && is_subspace_path(#[trigger] es[i].0) && subspace_addr_of(
                    es[i].0,
                ) == x) implies m1.contains_key(x) by {
                let i = choose|i: int|
                    0 <= i < es.len() && is_subspace_path(#[trigger] es[i].0)
                        && subspace_addr_of(es[i].0) == x;
                if i < es.len() - 1 {
                    assert(is_subspace_path(dl[i].0) && subspace_addr_of(dl[i].0) == x);
                    assert(m0.contains_key(x));
                }
            }
            assert forall|x: Seq<u8>, y: Seq<u8>|
                m1.contains_key(x) && #[trigger] m1[x].contains_key(y) implies exists|i: int|
                0 <= i < es.len() && is_subspace_path(#[trigger] es[i].0) && subspace_addr_of(
                    es[i].0,
                ) == x && subspace_col_of(es[i].0) == y by {
                if x == a && y == c {
                    assert(is_subspace_path(es[es.len() - 1].0));
                } else if x == a {
                    assert(m1[a] == (if m0.contains_key(a) {
                        m0[a]
                    } else {
                        Map::<Seq<u8>, Seq<u8>>::empty()
                    }).insert(c, v));
                    assert(m0.contains_key(a) && m0[a].contains_key(y));
                    let i = choose|i: int|
                        0 <= i < dl.len() && is_subspace_path(#[trigger] dl[i].0)
                            && subspace_addr_of(dl[i].0) == x && subspace_col_of(dl[i].0) == y;
                    assert(is_subspace_path(es[i].0));
                } else {
                    assert(m0.contains_key(x) && m0[x].contains_key(y));
                    let i = choose|i: int|
                        0 <= i < dl.len() && is_subspace_path(#[trigger] dl[i].0)
                            && subspace_addr_of(dl[i].0) == x && subspace_col_of(dl[i].0) == y;
                    assert(is_subspace_path(es[i].0));
                }
            }
            assert forall|i: int|
                0 <= i < es.len() && is_subspace_path(#[trigger] es[i].0) implies m1.contains_key(
                subspace_addr_of(es[i].0),
            ) && m1[subspace_addr_of(es[i].0)].contains_key(subspace_col_of(es[i].0))
                && m1[subspace_addr_of(es[i].0)][subspace_col_of(es[i].0)] == es[i].1 by {
                let x = subspace_addr_of(es[i].0);
                let y = subspace_col_of(es[i].0);
                if i == es.len() - 1 {
                } else {
                    assert(is_subspace_path(dl[i].0));
                    assert(m0.contains_key(x) && m0[x].contains_key(y) && m0[x][y] == es[i].1);
                    if x == a {
                        assert(y != c);
                        assert(m1[x] == m0[x].insert(c, v));
                    } else {
                        assert(m1[x] == m0[x]);
                    }
                }
            }
        } else {
            assert(m1 == m0);
            assert forall|x: Seq<u8>| #[trigger] m1.contains_key(x) implies exists|i: int|
                0 <= i < es.len() && is_subspace_path(#[trigger] es[i].0) && subspace_addr_of(
                    es[i].0,
                ) == x by {
                let i = choose|i: int|
                    0 <= i < dl.len() && is_subspace_path(#[trigger] dl[i].0)
                        && subspace_addr_of(dl[i].0) == x;
                assert(is_subspace_path(es[i].0) && subspace_addr_of(es[i].0) == x);
            }
            assert forall|x: Seq<u8>| (exists|i: int|
                0 <= i < es.len() && is_subspace_path(#[trigger] es[i].0) && subspace_addr_of(
                    es[i].0,
                ) == x) implies m1.contains_key(x) by {
                let i = choose|i: int|
                    0 <= i < es.len() && is_subspace_path(#[trigger] es[i].0)
                        && subspace_addr_of(es[i].0) == x;
                assert(i < es.len() - 1);
                assert(is_subspace_path(dl[i].0) && subspace_addr_of(dl[i].0) == x);
            }
            assert forall|x: Seq<u8>, y: Seq<u8>|
                m1.contains_key(x) && #[trigger] m1[x].contains_key(y) implies exists|i: int|
                0 <= i < es.len() && is_subspace_path(#[trigger] es[i].0) && subspace_addr_of(
                    es[i].0,
                ) == x && subspace_col_of(es[i].0) == y by {
                let i = choose|i: int|
                    0 <= i < dl.len() && is_subspace_path(#[trigger] dl[i].0)
                        && subspace_addr_of(dl[i].0) == x && subspace_col_of(dl[i].0) == y;
                assert(is_subspace_path(es[i].0));
            }
            assert forall|i: int|
                0 <= i < es.len() && is_subspace_path(#[trigger] es[i].0) implies m1.contains_key(
                subspace_addr_of(es[i].0),
            ) && m1[subspace_addr_of(es[i].0)].contains_key(subspace_col_of(es[i].0))
                && m1[subspace_addr_of(es[i].0)][subspace_col_of(es[i].0)] == es[i].1 by {
                assert(i < es.len() - 1);
                assert(is_subspace_path(dl[i].0));
            }
        }
    }
}

/// Two canonical subspace keys at one height are the same exactly when their
/// address and column are.
pub proof fn lemma_subspace_key_injective(
    h: u64,
    a1: Seq<u8>,
    c1: Seq<u8>,
    a2: Seq<u8>,
    c2: Seq<u8>,
)
    requires
        valid_address(a1),
        valid_address(a2),
        subspace_key(h, a1, c1) == subspace_key(h, a2, c2),
    ensures
        a1 == a2,
        c1 == c2,
{
    lemma_classify_canonical(h, a1, c1);
    lemma_classify_canonical(h, a2, c2);
}

/// Each pair of one address's group carries that address's canonical key for
/// its column.
pub proof fn lemma_group_entries_char(h: u64, a: Seq<u8>, cols: Seq<(Vec<u8>, Vec<u8>)>)
    ensures
        group_entries(h, a, cols).len() == cols.len(),
        forall|t: int|
            0 <= t < cols.len() ==> #[trigger] group_entries(h, a, cols)[t] == (subspace_key(
                h,
                a,
                cols[t].0@,
            ), cols[t].1@),
    decreases cols.len(),
{
    if cols.len() > 0 {
        lemma_group_entries_char(h, a, cols.drop_last());
        assert(forall|t: int|
            0 <= t < cols.len() - 1 ==> #[trigger] cols.drop_last()[t] == cols[t]);
        let ge = group_entries(h, a, cols);
        assert(forall|t: int|
            0 <= t < cols.len() - 1 ==> #[trigger] ge[t] == group_entries(
                h,
                a,
                cols.drop_last(),
            )[t]);
    }
}

/// Every batched subspace pair is one grouped write's canonical pair.
pub proof fn lemma_subs_entries_forward(h: u64, groups: Seq<(Address, Vec<(Vec<u8>, Vec<u8>)>)>)
    ensures
        forall|i: int|
            0 <= i < subs_entries(h, groups).len() ==> exists|j: int, t: int|
                0 <= j < groups.len() && 0 <= t < groups[j].1@.len() && #[trigger] subs_entries(
                    h,
                    groups,
                )[i] == (subspace_key(h, groups[j].0@, groups[j].1@[t].0@), groups[j].1@[t].1@),
    decreases groups.len(),
{
    if groups.len() > 0 {
        let dl = groups.drop_last();
        assert(forall|j: int| 0 <= j < groups.len() - 1 ==> #[trigger] dl[j] == groups[j]);
        lemma_subs_entries_forward(h, dl);
        let sd = subs_entries(h, dl);
        let g = groups.last();
        let ge = group_entries(h, g.0@, g.1@);
        lemma_group_entries_char(h, g.0@, g.1@);
        let se = subs_entries(h, groups);
        assert forall|i: int| 0 <= i < se.len() implies exists|j: int, t: int|
            0 <= j < groups.len() && 0 <= t < groups[j].1@.len() && #[trigger] se[i] == (
            subspace_key(h, groups[j].0@, groups[j].1@[t].0@),
            groups[j].1@[t].1@,
            ) by {
            if i < sd.len() {
                assert(se[i] == sd[i]);
                let (j, t) = choose|j: int, t: int|
                    0 <= j < dl.len() && 0 <= t < dl[j].1@.len() && #[trigger] sd[i] == (
                    subspace_key(h, dl[j].0@, dl[j].1@[t].0@),
                    dl[j].1@[t].1@,
                    );
                assert(groups[j] == dl[j]);
                assert(se[i] == (subspace_key(h, groups[j].0@, groups[j].1@[t].0@), groups[j].1@[
                    t].1@));
            } else {
                let t = i - sd.len();
                let j = groups.len() - 1;
                assert(se[i] == ge[t]);
                assert(se[i] == (subspace_key(h, groups[j].0@, groups[j].1@[t].0@), groups[j].1@[
                    t].1@));
            }
        }
    }
}

/// Every grouped write is batched as its canonical pair.
pub proof fn lemma_subs_entries_backward(h: u64, groups: Seq<(Address, Vec<(Vec<u8>, Vec<u8>)>)>)
    ensures
        forall|j: int, t: int|
            0 <= j < groups.len() && 0 <= t < (#[trigger] groups[j].1@).len() ==> exists|i: int|
                0 <= i < subs_entries(h, groups).len() && subs_entries(h, groups)[i] == (
                #[trigger] subspace_key(h, groups[j].0@, groups[j].1@[t].0@),
                groups[j].1@[t].1@,
                ),
    decreases groups.len(),
{
    if groups.len() > 0 {
        let dl = groups.drop_last();
        assert(forall|j: int| 0 <= j < groups.len() - 1 ==> #[trigger] dl[j] == groups[j]);
        lemma_subs_entries_backward(h, dl);
        let sd = subs_entries(h, dl);
        let g = groups.last();
        let ge = group_entries(h, g.0@, g.1@);
        lemma_group_entries_char(h, g.0@, g.1@);
        let se = subs_entries(h, groups);
        assert forall|j: int, t: int|
            0 <= j < groups.len() && 0 <= t < (#[trigger] groups[j].1@).len() implies exists|
            i: int,
        |
            0 <= i < se.len() && se[i] == (
            #[trigger] subspace_key(h, groups[j].0@, groups[j].1@[t].0@),
            groups[j].1@[t].1@,
            ) by {
            if j < groups.len() - 1 {
                assert(dl[j] == groups[j]);
                let i = choose|i: int|
                    0 <= i < sd.len() && sd[i] == (
                    #[trigger] subspace_key(h, dl[j].0@, dl[j].1@[t].0@),
                    dl[j].1@[t].1@,
                    );
                assert(se[i] == sd[i]);
            } else {
                let i = sd.len() + t;
                assert(se[i] == ge[t]);
            }
        }
    }
}

/// With well-formed groups no subspace key is batched twice.
#[verifier::rlimit(50)]
pub proof fn lemma_subs_entries_distinct(h: u64, groups: Seq<(Address, Vec<(Vec<u8>, Vec<u8>)>)>)
    requires
        crate::types::groups_distinct(groups),
        forall|j: int|
            0 <= j < groups.len() ==> crate::types::cols_distinct(#[trigger] groups[j].1@),
        forall|j: int| 0 <= j < groups.len() ==> valid_address(#[trigger] groups[j].0@),
    ensures
        forall|i1: int, i2: int|
            0 <= i1 < i2 < subs_entries(h, groups).len() ==> (#[trigger] subs_entries(
                h,
                groups,
            )[i1]).0 != (#[trigger] subs_entries(h, groups)[i2]).0,
    decreases groups.len(),
{
    if groups.len() > 0 {
        let dl = groups.drop_last();
        assert(forall|j: int| 0 <= j < groups.len() - 1 ==> #[trigger] dl[j] == groups[j]);
        assert(crate::types::groups_distinct(dl));
        lemma_subs_entries_distinct(h, dl);
        lemma_subs_entries_forward(h, dl);
        let sd = subs_entries(h, dl);
        let g = groups.last();
        let ge = group_entries(h, g.0@, g.1@);
        lemma_group_entries_char(h, g.0@, g.1@);
        let se = subs_entries(h, groups);
        assert forall|i1: int, i2: int| 0 <= i1 < i2 < se.len() implies (#[trigger] se[i1]).0
            != (#[trigger] se[i2]).0 by {
            if i2 < sd.len() {
                assert(se[i1] == sd[i1] && se[i2] == sd[i2]);
            } else if i1 >= sd.len() {
                let t1 = i1 - sd.len();
                let t2 = i2 - sd.len();
                assert(se[i1] == ge[t1] && se[i2] == ge[t2]);
                assert(g.1@[t1].0@ != g.1@[t2].0@);
                if subspace_key(h, g.0@, g.1@[t1].0@) == subspace_key(h, g.0@, g.1@[t2].0@) {
                    lemma_subspace_key_injective(h, g.0@, g.1@[t1].0@, g.0@, g.1@[t2].0@);
                }
            } else {
                let (j, t) = choose|j: int, t: int|
                    0 <= j < dl.len() && 0 <= t < dl[j].1@.len() && #[trigger] sd[i1] == (
                    subspace_key(h, dl[j].0@, dl[j].1@[t].0@),
                    dl[j].1@[t].1@,
                    );
                let t2 = i2 - sd.len();
                assert(se[i1] == sd[i1] && se[i2] == ge[t2]);
                assert(groups[j] == dl[j]);
                assert(groups[j].0@ != g.0@);
                if subspace_key(h, groups[j].0@, groups[j].1@[t].0@) == subspace_key(
                    h,
                    g.0@,
                    g.1@[t2].0@,
                ) {
                    lemma_subspace_key_injective(
                        h,
                        groups[j].0@,
                        groups[j].1@[t].0@,
                        g.0@,
                        g.1@[t2].0@,
                    );
                }
            }
        }
    }
}

/// Every batched pair, grouped or essential, carries a key of its own
/// height: the batch touches nothing outside that height's range.
pub proof fn lemma_batch_keys_prefixed(
    h: u64,
    tree: MerkleTree,
    hash: BlockHash,
    groups: Seq<(Address, Vec<(Vec<u8>, Vec<u8>)>)>,
)
    ensures
        forall|i: int|
            0 <= i < batch_spec(h, tree, hash, groups).len() ==> exists|rest: Seq<u8>|
                (#[trigger] batch_spec(h, tree, hash, groups)[i]).0 == height_key_with(h, rest),
{
    let b = batch_spec(h, tree, hash, groups);
    lemma_subs_entries_weak(h, groups);
    assert forall|i: int| 0 <= i < b.len() implies exists|rest: Seq<u8>| (#[trigger] b[i]).0
        == height_key_with(h, rest) by {
        if i < 3 {
            if i == 0 {
                assert(b[i].0 == height_key_with(
                    h,
                    crate::keys::tree_tag() + seq![SEP] + crate::keys::root_tag(),
                ));
            } else if i == 1 {
                assert(b[i].0 == height_key_with(
                    h,
                    crate::keys::tree_tag() + seq![SEP] + crate::keys::store_tag(),
                ));
            } else {
                assert(b[i].0 == height_key_with(h, crate::keys::hash_tag()));
            }
        } else {
            let se = subs_entries(h, groups);
            assert(b[i] == se[i - 3]);
            let (a, c) = choose|a: Seq<u8>, c: Seq<u8>|
                (#[trigger] se[i - 3]).0 == subspace_key(h, a, c);
            assert(se[i - 3].0 == height_key_with(
                h,
                crate::keys::subspace_tag() + seq![SEP] + a + seq![SEP] + c,
            ));
        }
    }
}

/// Every batched subspace pair carries some subspace key of its height.
proof fn lemma_subs_entries_weak(h: u64, groups: Seq<(Address, Vec<(Vec<u8>, Vec<u8>)>)>)
    ensures
        forall|i: int|
            0 <= i < subs_entries(h, groups).len() ==> exists|a: Seq<u8>, c: Seq<u8>|
                (#[trigger] subs_entries(h, groups)[i]).0 == subspace_key(h, a, c),
    decreases groups.len(),
{
    if groups.len() > 0 {
        let dl = groups.drop_last();
        lemma_subs_entries_weak(h, dl);
        let sd = subs_entries(h, dl);
        let g = groups.last();
        let ge = group_entries(h, g.0@, g.1@);
        lemma_group_entries_char(h, g.0@, g.1@);
        let se = subs_entries(h, groups);
        assert forall|i: int| 0 <= i < se.len() implies exists|a: Seq<u8>, c: Seq<u8>|
            (#[trigger] se[i]).0 == subspace_key(h, a, c) by {
            if i < sd.len() {
                assert(se[i] == sd[i]);
                let (a, c) = choose|a: Seq<u8>, c: Seq<u8>|
                    (#[trigger] sd[i]).0 == subspace_key(h, a, c);
                assert(se[i].0 == subspace_key(h, a, c));
            } else {
                assert(se[i] == ge[i - sd.len()]);
                assert(se[i].0 == subspace_key(h, g.0@, g.1@[i - sd.len()].0@));
            }
        }
    }
}

/// Historical fallback: with a column written only at heights 1 and 5, a
/// read at height 5 sees the later value, a read at heights 1 through 4
/// falls back to the earlier one, and a read at height 0 sees nothing.
pub proof fn lemma_historical_fallback(
    m: Map<Seq<u8>, Seq<u8>>,
    a: Seq<u8>,
    c: Seq<u8>,
    v1: Seq<u8>,
    v5: Seq<u8>,
)
    requires
        m.contains_key(subspace_key(1, a, c)) && m[subspace_key(1, a, c)] == v1,
        m.contains_key(subspace_key(5, a, c)) && m[subspace_key(5, a, c)] == v5,
        forall|h: u64| h != 1 && h != 5 ==> !m.contains_key(#[trigger] subspace_key(h, a, c)),
    ensures
        read_spec(m, 3, a, c) == Some(v1),
        read_spec(m, 5, a, c) == Some(v5),
        read_spec(m, 0, a, c) is None,
{
    assert(!m.contains_key(subspace_key(3, a, c)));
    assert(!m.contains_key(subspace_key(2, a, c)));
    assert(!m.contains_key(subspace_key(0, a, c)));
    assert(read_spec(m, 3, a, c) == read_spec(m, 2, a, c));
    assert(read_spec(m, 2, a, c) == read_spec(m, 1, a, c));
    assert(read_spec(m, 1, a, c) == Some(v1));
}

} // verus!
