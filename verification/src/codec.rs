//! Byte-level codecs for storage keys: the canonical decimal encoding of a
//! block height, splitting and joining of '/'-delimited key segments, and a
//! little-endian integer codec for stored counters.

use vstd::prelude::*;

verus! {

/// The '/' byte that separates key segments.
pub const SEP: u8 = 47;

/// The canonical decimal digits of `n`, most significant first.
pub open spec fn dec_seq(n: nat) -> Seq<u8>
    decreases n,
{
    if n < 10 {
        seq![(48 + n) as u8]
    } else {
        dec_seq(n / 10).push((48 + n % 10) as u8)
    }
}

/// Every byte of `s` is an ASCII decimal digit, and there is at least one.
pub open spec fn is_digits(s: Seq<u8>) -> bool {
    s.len() > 0 && forall|i: int| 0 <= i < s.len() ==> 48 <= #[trigger] s[i] <= 57
}

/// The numeric value of a digit string, most significant digit first.
pub open spec fn dec_val(s: Seq<u8>) -> nat
    decreases s.len(),
{
    if s.len() == 0 {
        0
    } else {
        (dec_val(s.drop_last()) * 10 + (s.last() - 48)) as nat
    }
}

/// What it means for a key segment to parse as a block height: all decimal
/// digits, nonempty, and a value that fits in a `u64`.
pub open spec fn parse_dec(s: Seq<u8>) -> Option<u64> {
    if is_digits(s) && dec_val(s) <= u64::MAX {
        Some(dec_val(s) as u64)
    } else {
        None
    }
}

pub proof fn lemma_dec_seq_is_digits(n: nat)
    ensures
        is_digits(dec_seq(n)),
        forall|i: int| 0 <= i < dec_seq(n).len() ==> #[trigger] dec_seq(n)[i] != SEP,
    decreases n,
{
    if n >= 10 {
        lemma_dec_seq_is_digits(n / 10);
    }
}

pub proof fn lemma_dec_seq_val(n: nat)
    ensures
        dec_val(dec_seq(n)) == n,
    decreases n,
{
    if n < 10 {
        assert(dec_seq(n) =~= seq![(48 + n) as u8]);
        assert(dec_val(dec_seq(n)) == dec_val(seq![(48 + n) as u8].drop_last()) * 10 + n);
        assert(seq![(48 + n) as u8].drop_last() =~= Seq::<u8>::empty());
    } else {
        lemma_dec_seq_val(n / 10);
        assert(dec_seq(n).drop_last() =~= dec_seq(n / 10));
        assert(dec_val(dec_seq(n)) == (n / 10) * 10 + n % 10);
        assert((n / 10) * 10 + n % 10 == n) by (nonlinear_arith);
    }
}

/// The canonical decimal encoding parses back to the number it encodes.
pub proof fn lemma_parse_dec_seq(n: u64)
    ensures
        parse_dec(dec_seq(n as nat)) == Some(n),
{
    lemma_dec_seq_is_digits(n as nat);
    lemma_dec_seq_val(n as nat);
}

/// Appends the decimal digits of `n` to `out`.
pub fn push_dec(n: u64, out: &mut Vec<u8>)
    ensures
        final(out)@ == old(out)@ + dec_seq(n as nat),
    decreases n,
{
    if n < 10 {
        out.push(48 + n as u8);
        assert(out@ =~= old(out)@ + dec_seq(n as nat));
    } else {
        push_dec(n / 10, out);
        out.push(48 + (n % 10) as u8);
        assert(out@ =~= old(out)@ + dec_seq(n as nat));
    }
}

/// The decimal digits of `n` as a fresh key segment.
pub fn encode_dec(n: u64) -> (r: Vec<u8>)
    ensures
        r@ == dec_seq(n as nat),
{
    let mut out: Vec<u8> = Vec::new();
    push_dec(n, &mut out);
    out
}

/// Extending a digit string never shrinks its value.
proof fn lemma_dec_val_prefix(s: Seq<u8>, i: int)
    requires
        0 <= i <= s.len(),
        forall|j: int| 0 <= j < s.len() ==> 48 <= #[trigger] s[j] <= 57,
    ensures
        dec_val(s.take(i)) <= dec_val(s),
    decreases s.len() - i,
{
    if i < s.len() {
        lemma_dec_val_prefix(s, i + 1);
        assert(s.take(i + 1).drop_last() =~= s.take(i));
        assert(dec_val(s.take(i + 1)) == dec_val(s.take(i)) * 10 + (s[i] - 48));
        assert(dec_val(s.take(i)) <= dec_val(s.take(i)) * 10) by (nonlinear_arith);
    } else {
        assert(s.take(i) =~= s);
    }
}

/// Parses a key segment as a decimal block height; `None` on a byte that is
/// no digit, on an empty segment, and on overflow.
pub fn parse_dec_exec(s: &[u8]) -> (r: Option<u64>)
    ensures
        r == parse_dec(s@),
{
    if s.len() == 0 {
        return None;
    }
    let mut acc: u64 = 0;
    let mut i: usize = 0;
    while i < s.len()
        invariant
            0 <= i <= s@.len(),
            forall|j: int| 0 <= j < i ==> 48 <= #[trigger] s@[j] <= 57,
            acc == dec_val(s@.take(i as int)),
        decreases s@.len() - i,
    {
        let b = s[i];
        if b < 48 || b > 57 {
            assert(!(48 <= s@[i as int] <= 57));
            assert(!is_digits(s@));
            return None;
        }
        let d = b - 48;
        proof {
            assert(s@.take(i + 1).drop_last() =~= s@.take(i as int));
            assert(s@.take(i + 1).last() == s@[i as int]);
            assert(dec_val(s@.take(i + 1)) == acc * 10 + d);
        }
        let next = match acc.checked_mul(10) {
            Some(x) => x.checked_add(d as u64),
            None => None,
        };
        match next {
            Some(y) => {
                acc = y;
                i = i + 1;
            },
            None => {
                proof {
                    assert(dec_val(s@.take(i + 1)) > u64::MAX);
                    if is_digits(s@) {
                        lemma_dec_val_prefix(s@, i + 1);
                    }
                }
                return None;
            },
        }
    }
    proof {
        assert(s@.take(i as int) =~= s@);
    }
    Some(acc)
}

/// The segments of a key, split on '/'. An empty key has one empty segment,
/// exactly as `str::split` would have it.
pub open spec fn split_segs(k: Seq<u8>) -> Seq<Seq<u8>>
    decreases k.len(),
{
    if k.len() == 0 {
        seq![Seq::<u8>::empty()]
    } else if k[0] == SEP {
        seq![Seq::<u8>::empty()] + split_segs(k.skip(1))
    } else {
        let rest = split_segs(k.skip(1));
        seq![seq![k[0]] + rest[0]] + rest.skip(1)
    }
}

/// The segments joined back with '/' between them.
pub open spec fn join_segs(ss: Seq<Seq<u8>>) -> Seq<u8>
    decreases ss.len(),
{
    if ss.len() == 0 {
        Seq::empty()
    } else if ss.len() == 1 {
        ss[0]
    } else {
        ss[0] + seq![SEP] + join_segs(ss.skip(1))
    }
}

pub proof fn lemma_split_segs_len(k: Seq<u8>)
    ensures
        split_segs(k).len() >= 1,
    decreases k.len(),
{
    if k.len() > 0 {
        lemma_split_segs_len(k.skip(1));
    }
}

/// No segment of a split key contains the separator.
pub proof fn lemma_split_segs_no_sep(k: Seq<u8>)
    ensures
        forall|i: int, j: int|
            0 <= i < split_segs(k).len() && 0 <= j < split_segs(k)[i].len()
                ==> #[trigger] split_segs(k)[i][j] != SEP,
    decreases k.len(),
{
    if k.len() > 0 {
        lemma_split_segs_no_sep(k.skip(1));
        lemma_split_segs_len(k.skip(1));
    }
}

/// Joining the split of a key gives the key back.
pub proof fn lemma_join_split(k: Seq<u8>)
    ensures
        join_segs(split_segs(k)) == k,
    decreases k.len(),
{
    if k.len() == 0 {
        assert(join_segs(split_segs(k)) =~= k);
    } else if k[0] == SEP {
        lemma_join_split(k.skip(1));
        lemma_split_segs_len(k.skip(1));
        let ss = split_segs(k);
        assert(ss.skip(1) =~= split_segs(k.skip(1)));
        assert(join_segs(ss) =~= k);
    } else {
        lemma_join_split(k.skip(1));
        lemma_split_segs_len(k.skip(1));
        let rest = split_segs(k.skip(1));
        let ss = split_segs(k);
        assert(ss == seq![seq![k[0]] + rest[0]] + rest.skip(1));
        assert(ss[0] == seq![k[0]] + rest[0]);
        if rest.len() == 1 {
            assert(rest.skip(1) =~= Seq::<Seq<u8>>::empty());
            assert(ss.len() == 1);
            assert(join_segs(ss) == ss[0]);
            assert(join_segs(rest) == rest[0]);
            assert(rest[0] == k.skip(1));
            assert(seq![k[0]] + k.skip(1) =~= k);
        } else {
            assert(ss.len() >= 2);
            assert(ss.skip(1) =~= rest.skip(1));
            assert(join_segs(ss) == ss[0] + seq![SEP] + join_segs(ss.skip(1)));
            assert(join_segs(rest) == rest[0] + seq![SEP] + join_segs(rest.skip(1)));
            assert(join_segs(rest) == k.skip(1));
            assert(join_segs(ss) =~= seq![k[0]] + (rest[0] + seq![SEP] + join_segs(rest.skip(1))));
            assert(seq![k[0]] + k.skip(1) =~= k);
        }
    }
}

/// Splitting `a ++ '/' ++ b` where `a` is one separator-free segment yields
/// `a` followed by the segments of `b`.
pub proof fn lemma_split_prepend_seg(a: Seq<u8>, b: Seq<u8>)
    requires
        forall|i: int| 0 <= i < a.len() ==> #[trigger] a[i] != SEP,
    ensures
        split_segs(a + seq![SEP] + b) == seq![a] + split_segs(b),
    decreases a.len(),
{
    let k = a + seq![SEP] + b;
    if a.len() == 0 {
        assert(k[0] == SEP);
        assert(k.skip(1) =~= b);
        assert(split_segs(k) =~~= seq![a] + split_segs(b));
    } else {
        assert(k[0] == a[0]);
        assert(k[0] != SEP);
        assert(k.skip(1) =~= a.skip(1) + seq![SEP] + b);
        lemma_split_prepend_seg(a.skip(1), b);
        let rest = split_segs(k.skip(1));
        assert(rest == seq![a.skip(1)] + split_segs(b));
        lemma_split_segs_len(b);
        assert(rest[0] == a.skip(1));
        assert(rest[0] == a.skip(1));
        assert(seq![k[0]] + rest[0] =~= a);
        assert(rest.skip(1) =~= split_segs(b));
        assert(split_segs(k) =~~= seq![a] + split_segs(b));
    }
}

/// Splits a key into its '/'-separated segments.
pub fn split_key(k: &[u8]) -> (r: Vec<Vec<u8>>)
    ensures
        r@.map_values(|s: Vec<u8>| s@) == split_segs(k@),
{
    let mut segs: Vec<Vec<u8>> = Vec::new();
    let mut cur: Vec<u8> = Vec::new();
    let mut i: usize = k.len();
    proof {
        assert(k@.skip(i as int) =~= Seq::<u8>::empty());
        assert(split_segs(k@.skip(k@.len() as int)) =~= seq![Seq::<u8>::empty()]);
    }
    // Walk backwards so the spec's head recursion unfolds directly.
    while i > 0
        invariant
            0 <= i <= k@.len(),
            seq![cur@] + segs@.map_values(|s: Vec<u8>| s@) == split_segs(k@.skip(i as int)),
        decreases i,
    {
        let b = k[i - 1];
        let ghost old_cur = cur@;
        let ghost old_map = segs@.map_values(|s: Vec<u8>| s@);
        proof {
            assert(k@.skip(i - 1)[0] == b);
            assert(k@.skip(i - 1).skip(1) =~= k@.skip(i as int));
        }
        if b == SEP {
            segs.insert(0, cur);
            cur = Vec::new();
            proof {
                assert(segs@.map_values(|s: Vec<u8>| s@) =~~= seq![old_cur] + old_map);
                assert(seq![cur@] + segs@.map_values(|s: Vec<u8>| s@)
                    =~~= split_segs(k@.skip(i - 1)));
            }
        } else {
            cur.insert(0, b);
            proof {
                let rest = split_segs(k@.skip(i as int));
                assert(rest == seq![old_cur] + old_map);
                assert(rest[0] == old_cur);
                assert(rest.skip(1) =~= old_map);
                assert(cur@ =~= seq![b] + old_cur);
                assert(seq![cur@] + segs@.map_values(|s: Vec<u8>| s@)
                    =~~= seq![seq![b] + rest[0]] + rest.skip(1));
                assert(seq![seq![b] + rest[0]] + rest.skip(1) =~~= split_segs(k@.skip(i - 1)));
            }
        }
        i = i - 1;
    }
    proof {
        assert(k@.skip(0) =~= k@);
    }
    let ghost pre_map = segs@.map_values(|s: Vec<u8>| s@);
    let ghost pre_cur = cur@;
    segs.insert(0, cur);
    proof {
        assert(segs@.map_values(|s: Vec<u8>| s@) =~~= seq![pre_cur] + pre_map);
        assert(segs@.map_values(|s: Vec<u8>| s@) =~~= split_segs(k@));
    }
    segs
}

/// Joins `segs[start..]` with '/' between the segments.
pub fn join_tail(segs: &Vec<Vec<u8>>, start: usize) -> (r: Vec<u8>)
    requires
        start <= segs@.len(),
    ensures
        r@ == join_segs(segs@.map_values(|s: Vec<u8>| s@).skip(start as int)),
{
    let ghost all = segs@.map_values(|s: Vec<u8>| s@);
    let mut out: Vec<u8> = Vec::new();
    let mut i: usize = segs.len();
    proof {
        assert(all.skip(i as int) =~= Seq::<Seq<u8>>::empty());
    }
    while i > start
        invariant
            start <= i <= segs@.len(),
            all == segs@.map_values(|s: Vec<u8>| s@),
            out@ == join_segs(all.skip(i as int)),
        decreases i,
    {
        let mut piece: Vec<u8> = Vec::new();
        let mut j: usize = 0;
        let seg = &segs[i - 1];
        while j < seg.len()
            invariant
                0 <= j <= seg@.len(),
                piece@ == seg@.take(j as int),
            decreases seg@.len() - j,
        {
            piece.push(seg[j]);
            proof {
                assert(piece@ =~= seg@.take(j + 1));
            }
            j = j + 1;
        }
        proof {
            assert(piece@ =~= seg@);
        }
        if i < segs.len() {
            piece.push(SEP);
        }
        piece.append(&mut out);
        out = piece;
        proof {
            let tail = all.skip(i as int);
            assert(all.skip(i - 1)[0] == all[i - 1]);
            assert(all.skip(i - 1).skip(1) =~= tail);
            if i < segs.len() {
                assert(tail.len() >= 1);
                assert(out@ =~= all[i - 1] + seq![SEP] + join_segs(tail));
            } else {
                assert(tail.len() == 0);
                assert(out@ =~= all[i - 1]);
            }
            assert(out@ =~= join_segs(all.skip(i - 1)));
        }
        i = i - 1;
    }
    out
}

/// Appends all of `s` to `out`.
pub fn push_bytes(out: &mut Vec<u8>, s: &[u8])
    ensures
        final(out)@ == old(out)@ + s@,
{
    let mut i: usize = 0;
    while i < s.len()
        invariant
            0 <= i <= s@.len(),
            out@ == old(out)@ + s@.take(i as int),
        decreases s@.len() - i,
    {
        out.push(s[i]);
        proof {
            assert(old(out)@ + s@.take(i + 1) =~= (old(out)@ + s@.take(i as int)).push(s@[i as int]));
        }
        i = i + 1;
    }
    proof {
        assert(s@.take(i as int) =~= s@);
    }
}

/// Byte-wise equality of two slices.
pub fn bytes_eq(a: &[u8], b: &[u8]) -> (r: bool)
    ensures
        r == (a@ == b@),
{
    if a.len() != b.len() {
        return false;
    }
    let mut i: usize = 0;
    while i < a.len()
        invariant
            0 <= i <= a@.len(),
            a@.len() == b@.len(),
            forall|j: int| 0 <= j < i ==> a@[j] == b@[j],
        decreases a@.len() - i,
    {
        if a[i] != b[i] {
            assert(a@ != b@);
            return false;
        }
        i = i + 1;
    }
    proof {
        assert(a@ =~= b@);
    }
    true
}

/// The value of a little-endian byte string.
pub open spec fn le_val(s: Seq<u8>) -> nat
    decreases s.len(),
{
    if s.len() == 0 {
        0
    } else {
        (s[0] + 256 * le_val(s.skip(1))) as nat
    }
}

} // verus!

