//! The total order on storage keys. Keys whose first '/'-separated segment is
//! a decimal block height sort by that height first, numerically, so that
//! `9/...` comes before `10/...`; keys at the same height sort by their
//! remaining segments; all other keys sort byte-wise.

use core::cmp::Ordering;
use vstd::prelude::*;

use crate::codec::{parse_dec, parse_dec_exec, split_segs, split_key};
use crate::keys::{height_key_with, lemma_split_height_key};

verus! {

/// Byte-wise lexicographic order; a proper prefix comes first.
pub open spec fn lex_bytes(a: Seq<u8>, b: Seq<u8>) -> Ordering
    decreases a.len(),
{
    if a.len() == 0 && b.len() == 0 {
        Ordering::Equal
    } else if a.len() == 0 {
        Ordering::Less
    } else if b.len() == 0 {
        Ordering::Greater
    } else if a[0] < b[0] {
        Ordering::Less
    } else if a[0] > b[0] {
        Ordering::Greater
    } else {
        lex_bytes(a.skip(1), b.skip(1))
    }
}

/// Lexicographic order over segment sequences, each segment compared
/// byte-wise; a proper prefix comes first.
pub open spec fn lex_segs(a: Seq<Seq<u8>>, b: Seq<Seq<u8>>) -> Ordering
    decreases a.len(),
{
    if a.len() == 0 && b.len() == 0 {
        Ordering::Equal
    } else if a.len() == 0 {
        Ordering::Less
    } else if b.len() == 0 {
        Ordering::Greater
    } else if lex_bytes(a[0], b[0]) == Ordering::Equal {
        lex_segs(a.skip(1), b.skip(1))
    } else {
        lex_bytes(a[0], b[0])
    }
}

/// The order the store's keys are kept in. If both keys open with a numeric
/// height segment, the heights decide, numerically; on a tie the remaining
/// segments decide. Otherwise the whole keys compare byte-wise.
pub open spec fn cmp_keys(a: Seq<u8>, b: Seq<u8>) -> Ordering {
    let sa = split_segs(a);
    let sb = split_segs(b);
    match (parse_dec(sa[0]), parse_dec(sb[0])) {
        (Some(ha), Some(hb)) => if ha < hb {
            Ordering::Less
        } else if ha > hb {
            Ordering::Greater
        } else {
            lex_segs(sa.skip(1), sb.skip(1))
        },
        _ => lex_bytes(a, b),
    }
}

/// `a` is at or before `b`: the start bound of a forward scan admits `a`.
pub open spec fn key_le(a: Seq<u8>, b: Seq<u8>) -> bool {
    cmp_keys(a, b) != Ordering::Greater
}

/// `a` is strictly before `b`: an exclusive end bound at `b` admits `a`.
pub open spec fn key_lt(a: Seq<u8>, b: Seq<u8>) -> bool {
    cmp_keys(a, b) == Ordering::Less
}

fn lex_bytes_exec(a: &[u8], b: &[u8]) -> (r: Ordering)
    ensures
        r == lex_bytes(a@, b@),
{
    let mut i: usize = 0;
    proof {
        assert(a@.skip(0) =~= a@);
        assert(b@.skip(0) =~= b@);
    }
    loop
        invariant
            0 <= i <= a@.len(),
            0 <= i <= b@.len(),
            lex_bytes(a@, b@) == lex_bytes(a@.skip(i as int), b@.skip(i as int)),
        decreases a@.len() - i,
    {
        let ghost ra = a@.skip(i as int);
        let ghost rb = b@.skip(i as int);
        if i == a.len() && i == b.len() {
            assert(ra.len() == 0 && rb.len() == 0);
            return Ordering::Equal;
        } else if i == a.len() {
            assert(ra.len() == 0 && rb.len() > 0);
            return Ordering::Less;
        } else if i == b.len() {
            return Ordering::Greater;
        }
        let x = a[i];
        let y = b[i];
        proof {
            assert(ra[0] == x && rb[0] == y);
            assert(ra.skip(1) =~= a@.skip(i + 1));
            assert(rb.skip(1) =~= b@.skip(i + 1));
        }
        if x < y {
            return Ordering::Less;
        } else if x > y {
            return Ordering::Greater;
        }
        i = i + 1;
    }
}

fn lex_segs_exec(a: &Vec<Vec<u8>>, b: &Vec<Vec<u8>>, start: usize) -> (r: Ordering)
    requires
        start <= a@.len(),
        start <= b@.len(),
    ensures
        r == lex_segs(
            a@.map_values(|s: Vec<u8>| s@).skip(start as int),
            b@.map_values(|s: Vec<u8>| s@).skip(start as int),
        ),
{
    let ghost va = a@.map_values(|s: Vec<u8>| s@);
    let ghost vb = b@.map_values(|s: Vec<u8>| s@);
    let mut i: usize = start;
    loop
        invariant
            start <= i <= a@.len(),
            start <= i <= b@.len(),
            va == a@.map_values(|s: Vec<u8>| s@),
            vb == b@.map_values(|s: Vec<u8>| s@),
            lex_segs(va.skip(start as int), vb.skip(start as int))
                == lex_segs(va.skip(i as int), vb.skip(i as int)),
        decreases a@.len() - i,
    {
        let ghost ra = va.skip(i as int);
        let ghost rb = vb.skip(i as int);
        if i == a.len() && i == b.len() {
            assert(ra.len() == 0 && rb.len() == 0);
            return Ordering::Equal;
        } else if i == a.len() {
            assert(ra.len() == 0 && rb.len() > 0);
            return Ordering::Less;
        } else if i == b.len() {
            return Ordering::Greater;
        }
        proof {
            assert(ra[0] == va[i as int] && rb[0] == vb[i as int]);
            assert(ra.skip(1) =~= va.skip(i + 1));
            assert(rb.skip(1) =~= vb.skip(i + 1));
        }
        let c = lex_bytes_exec(a[i].as_slice(), b[i].as_slice());
        if !matches!(c, Ordering::Equal) {
            return c;
        }
        i = i + 1;
    }
}

/// Compares two raw keys in the order the store is kept in. This is the
/// comparator the store must be opened with for its whole life; it is total
/// over arbitrary byte strings, so no key can be miscompared.
pub fn key_comparator(a: &[u8], b: &[u8]) -> (r: Ordering)
    ensures
        r == cmp_keys(a@, b@),
{
    let sa = split_key(a);
    let sb = split_key(b);
    proof {
        crate::codec::lemma_split_segs_len(a@);
        crate::codec::lemma_split_segs_len(b@);
    }
    let ha = parse_dec_exec(sa[0].as_slice());
    let hb = parse_dec_exec(sb[0].as_slice());
    match (ha, hb) {
        (Some(x), Some(y)) => {
            if x < y {
                Ordering::Less
            } else if x > y {
                Ordering::Greater
            } else {
                lex_segs_exec(&sa, &sb, 1)
            }
        },
        _ => lex_bytes_exec(a, b),
    }
}

/// The ordering law: a key for a numerically smaller height comes before
/// every key for a larger height, regardless of how many digits the two
/// encodings have.
pub proof fn lemma_height_ordering(h1: u64, h2: u64, rest1: Seq<u8>, rest2: Seq<u8>)
    requires
        h1 < h2,
    ensures
        cmp_keys(height_key_with(h1, rest1), height_key_with(h2, rest2)) == Ordering::Less,
{
    lemma_split_height_key(h1, rest1);
    lemma_split_height_key(h2, rest2);
}

} // verus!
