//! The storage engine the store runs on: a key-value store providing the
//! capabilities the schema requires — point lookups, batched writes applied
//! as one unit, and bounded forward scans under the key comparator. This
//! in-memory engine is the verified reference for that interface; a durable
//! on-disk engine configured with the same comparator can stand in its place
//! behind the same contracts.

use vstd::prelude::*;
use vstd::slice::slice_to_vec;

use crate::codec::bytes_eq;
use crate::laws::{lemma_apply_entries_absent, lemma_apply_entries_domain,
    lemma_apply_entries_last};
use crate::model::{apply_entries, entries_view};
use crate::order::{key_comparator, key_le, key_lt};

verus! {

/// The engine's contents: raw keys to raw values, writes applied in order.
pub open spec fn pairs_map(es: Seq<(Seq<u8>, Seq<u8>)>) -> Map<Seq<u8>, Seq<u8>> {
    apply_entries(Map::empty(), es)
}

/// The open engine: its entire contents, with each key held once.
pub struct Engine {
    entries: Vec<(Vec<u8>, Vec<u8>)>,
}

impl Engine {
    /// The engine's contents.
    pub closed spec fn view(&self) -> Map<Seq<u8>, Seq<u8>> {
        pairs_map(entries_view(self.entries@))
    }

    #[verifier::type_invariant]
    spec fn wf(self) -> bool {
        forall|i: int, j: int|
            0 <= i < j < self.entries@.len() ==> (#[trigger] self.entries@[i].0@)
                != (#[trigger] self.entries@[j].0@)
    }

    /// An empty engine.
    pub fn new() -> (r: Engine)
        ensures
            r@ == Map::<Seq<u8>, Seq<u8>>::empty(),
    {
        let r = Engine { entries: Vec::new() };
        proof {
            assert(entries_view(r.entries@) =~= Seq::<(Seq<u8>, Seq<u8>)>::empty());
        }
        r
    }

    /// With every key held once, the contents read back exactly the pairs.
    proof fn lemma_char(&self)
        requires
            self.wf(),
        ensures
            forall|k: Seq<u8>|
                #[trigger] self@.contains_key(k) <==> exists|i: int|
                    0 <= i < self.entries@.len() && (#[trigger] self.entries@[i].0@) == k,
            forall|i: int|
                0 <= i < self.entries@.len() ==> self@.contains_key(
                    #[trigger] self.entries@[i].0@,
                ) && self@[self.entries@[i].0@] == self.entries@[i].1@,
    {
        let ev = entries_view(self.entries@);
        assert forall|k: Seq<u8>| #[trigger] self@.contains_key(k) implies exists|i: int|
            0 <= i < self.entries@.len() && (#[trigger] self.entries@[i].0@) == k by {
            lemma_apply_entries_domain(Map::empty(), ev, k);
            let i = choose|i: int| 0 <= i < ev.len() && (#[trigger] ev[i].0) == k;
            assert(self.entries@[i].0@ == k);
        }
        assert forall|i: int| 0 <= i < self.entries@.len() implies self@.contains_key(
            #[trigger] self.entries@[i].0@,
        ) && self@[self.entries@[i].0@] == self.entries@[i].1@ by {
            assert(forall|j: int|
                i < j < ev.len() ==> (#[trigger] ev[j].0) != ev[i].0);
            lemma_apply_entries_last(Map::empty(), ev, i);
        }
    }

    /// A point lookup.
    #[verifier::loop_isolation(false)]
    pub fn get(&self, key: &Vec<u8>) -> (r: Option<Vec<u8>>)
        ensures
            match r {
                Some(v) => self@.contains_key(key@) && v@ == self@[key@],
                None => !self@.contains_key(key@),
            },
    {
        proof {
            use_type_invariant(self);
            self.lemma_char();
        }
        let mut i: usize = 0;
        while i < self.entries.len()
            invariant
                0 <= i <= self.entries@.len(),
                forall|j: int| 0 <= j < i ==> (#[trigger] self.entries@[j].0@) != key@,
            decreases self.entries@.len() - i,
        {
            if bytes_eq(self.entries[i].0.as_slice(), key.as_slice()) {
                return Some(slice_to_vec(self.entries[i].1.as_slice()));
            }
            i = i + 1;
        }
        None
    }

    /// Writes one key, replacing what it held.
    #[verifier::loop_isolation(false)]
    pub fn put(&mut self, key: Vec<u8>, value: Vec<u8>)
        ensures
            final(self)@ == old(self)@.insert(key@, value@),
    {
        proof {
            use_type_invariant(&*self);
            self.lemma_char();
        }
        let ghost es0 = self.entries@;
        let mut es: Vec<(Vec<u8>, Vec<u8>)> = Vec::new();
        core::mem::swap(&mut es, &mut self.entries);
        let mut i: usize = 0;
        while i < es.len()
            invariant
                0 <= i <= es@.len(),
                es@ == es0,
                forall|j: int| 0 <= j < i ==> (#[trigger] es0[j].0@) != key@,
            decreases es@.len() - i,
        {
            if bytes_eq(es[i].0.as_slice(), key.as_slice()) {
                es.set(i, (key, value));
                proof {
                    let e = es@[i as int];
                    assert(es@ == es0.update(i as int, e));
                    lemma_pairs_map_update(es0, i as int, e);
                    assert(forall|t1: int, t2: int|
                        0 <= t1 < t2 < es@.len() ==> (#[trigger] es@[t1].0@)
                            != (#[trigger] es@[t2].0@)) by {
                        assert(forall|t: int|
                            0 <= t < es@.len() && t != i ==> #[trigger] es@[t] == es0[t]);
                    }
                }
                self.entries = es;
                return ;
            }
            i = i + 1;
        }
        es.push((key, value));
        proof {
            let ev = entries_view(es@);
            assert(ev.drop_last() =~= entries_view(es0));
            assert(pairs_map(ev) == old(self)@.insert(key@, value@));
            assert(forall|t: int| 0 <= t < es0.len() ==> #[trigger] es@[t] == es0[t]);
            assert(forall|t1: int, t2: int|
                0 <= t1 < t2 < es@.len() ==> (#[trigger] es@[t1].0@) != (#[trigger] es@[t2].0@));
        }
        self.entries = es;
    }

    /// Applies the pairs as one batch, in order, later pairs winning on an
    /// equal key: all of it becomes visible together.
    #[verifier::loop_isolation(false)]
    pub fn write_batch(&mut self, batch: &Vec<(Vec<u8>, Vec<u8>)>)
        ensures
            final(self)@ == apply_entries(old(self)@, entries_view(batch@)),
    {
        let ghost bv = entries_view(batch@);
        let mut i: usize = 0;
        proof {
            assert(bv.take(0) =~= Seq::<(Seq<u8>, Seq<u8>)>::empty());
        }
        while i < batch.len()
            invariant
                0 <= i <= batch@.len(),
                bv == entries_view(batch@),
                self@ == apply_entries(old(self)@, bv.take(i as int)),
            decreases batch@.len() - i,
        {
            let key = slice_to_vec(batch[i].0.as_slice());
            let value = slice_to_vec(batch[i].1.as_slice());
            self.put(key, value);
            proof {
                assert(bv.take(i + 1).drop_last() =~= bv.take(i as int));
                assert(bv.take(i + 1).last() == bv[i as int]);
            }
            i = i + 1;
        }
        proof {
            assert(bv.take(i as int) =~= bv);
        }
    }

    /// A bounded forward scan: exactly the contents whose key is at or after
    /// `lo` and before `hi` under the key comparator, each key once.
    #[verifier::loop_isolation(false)]
    #[verifier::rlimit(50)]
    pub fn scan_range(&self, lo: &Vec<u8>, hi: &Vec<u8>) -> (r: Vec<(Vec<u8>, Vec<u8>)>)
        ensures
            ({
                let ev = entries_view(r@);
                &&& forall|i: int, j: int|
                    0 <= i < j < ev.len() ==> (#[trigger] ev[i].0) != (#[trigger] ev[j].0)
                &&& forall|i: int|
                    0 <= i < ev.len() ==> self@.contains_key(#[trigger] ev[i].0) && ev[i].1
                        == self@[ev[i].0] && key_le(lo@, ev[i].0) && key_lt(ev[i].0, hi@)
                &&& forall|k: Seq<u8>|
                    self@.contains_key(k) && key_le(lo@, k) && key_lt(k, hi@) ==> exists|i: int|
                        0 <= i < ev.len() && (#[trigger] ev[i].0) == k
            }),
    {
        proof {
            use_type_invariant(self);
            self.lemma_char();
        }
        let ghost es0 = self.entries@;
        let mut out: Vec<(Vec<u8>, Vec<u8>)> = Vec::new();
        let mut i: usize = 0;
        while i < self.entries.len()
            invariant
                0 <= i <= es0.len(),
                forall|t: int|
                    0 <= t < out@.len() ==> exists|j: int|
                        0 <= j < i && (#[trigger] out@[t]).0@ == es0[j].0@ && out@[t].1@
                            == es0[j].1@,
                forall|t: int|
                    0 <= t < out@.len() ==> key_le(lo@, (#[trigger] out@[t]).0@) && key_lt(
                        out@[t].0@,
                        hi@,
                    ),
                forall|t1: int, t2: int|
                    0 <= t1 < t2 < out@.len() ==> (#[trigger] out@[t1].0@)
                        != (#[trigger] out@[t2].0@),
                forall|j: int|
                    0 <= j < i && key_le(lo@, (#[trigger] es0[j]).0@) && key_lt(es0[j].0@, hi@)
                        ==> exists|t: int|
                        0 <= t < out@.len() && (#[trigger] out@[t]).0@ == es0[j].0@,
            decreases es0.len() - i,
        {
            let k = &self.entries[i].0;
            let above = !matches!(
                key_comparator(lo.as_slice(), k.as_slice()),
                core::cmp::Ordering::Greater
            );
            let below = matches!(
                key_comparator(k.as_slice(), hi.as_slice()),
                core::cmp::Ordering::Less
            );
            if above && below {
                let ghost out0 = out@;
                out.push(
                    (slice_to_vec(self.entries[i].0.as_slice()), slice_to_vec(
                        self.entries[i].1.as_slice(),
                    )),
                );
                proof {
                    assert(out@[out@.len() - 1].0@ == es0[i as int].0@);
                    assert(out@[out@.len() - 1].1@ == es0[i as int].1@);
                    assert(forall|t: int| 0 <= t < out0.len() ==> #[trigger] out@[t] == out0[t]);
                    assert forall|t1: int, t2: int|
                        0 <= t1 < t2 < out@.len() implies (#[trigger] out@[t1].0@)
                        != (#[trigger] out@[t2].0@) by {
                        if t2 == out@.len() - 1 {
                            let j = choose|j: int|
                                0 <= j < i && (#[trigger] out0[t1]).0@ == es0[j].0@
                                    && out0[t1].1@ == es0[j].1@;
                            assert(es0[j].0@ != es0[i as int].0@);
                        }
                    }
                    assert forall|j: int|
                        0 <= j < i + 1 && key_le(lo@, (#[trigger] es0[j]).0@) && key_lt(
                        es0[j].0@,
                        hi@,
                    ) implies exists|t: int|
                        0 <= t < out@.len() && (#[trigger] out@[t]).0@ == es0[j].0@ by {
                        if j == i {
                            assert(out@[out@.len() - 1].0@ == es0[j].0@);
                        } else {
                            let t = choose|t: int|
                                0 <= t < out0.len() && (#[trigger] out0[t]).0@ == es0[j].0@;
                            assert(out@[t].0@ == es0[j].0@);
                        }
                    }
                }
            } else {
                proof {
                    assert(!(key_le(lo@, es0[i as int].0@) && key_lt(es0[i as int].0@, hi@)));
                }
            }
            i = i + 1;
        }
        proof {
            let ev = entries_view(out@);
            assert forall|t: int| 0 <= t < ev.len() implies self@.contains_key(
                #[trigger] ev[t].0,
            ) && ev[t].1 == self@[ev[t].0] && key_le(lo@, ev[t].0) && key_lt(ev[t].0, hi@) by {
                let j = choose|j: int|
                    0 <= j < es0.len() && (#[trigger] out@[t]).0@ == es0[j].0@ && out@[t].1@
                        == es0[j].1@;
                assert(self@.contains_key(es0[j].0@) && self@[es0[j].0@] == es0[j].1@);
            }
            assert forall|k: Seq<u8>|
                self@.contains_key(k) && key_le(lo@, k) && key_lt(k, hi@) implies exists|t: int|
                0 <= t < entries_view(out@).len() && (#[trigger] entries_view(out@)[t].0)
                    == k by {
                let j = choose|j: int| 0 <= j < es0.len() && (#[trigger] es0[j].0@) == k;
                assert(key_le(lo@, es0[j].0@) && key_lt(es0[j].0@, hi@));
                let t = choose|t: int|
                    0 <= t < out@.len() && (#[trigger] out@[t]).0@ == es0[j].0@;
                assert(entries_view(out@)[t].0 == k);
            }
        }
        out
    }
}

/// Replacing the pair at one index replaces what its key holds.
proof fn lemma_pairs_map_update(es: Seq<(Vec<u8>, Vec<u8>)>, i: int, e: (Vec<u8>, Vec<u8>))
    requires
        0 <= i < es.len(),
        es[i].0@ == e.0@,
        forall|t1: int, t2: int|
            0 <= t1 < t2 < es.len() ==> (#[trigger] es[t1].0@) != (#[trigger] es[t2].0@),
    ensures
        pairs_map(entries_view(es.update(i, e))) == pairs_map(entries_view(es)).insert(
            e.0@,
            e.1@,
        ),
    decreases es.len(),
{
    if i == es.len() - 1 {
        assert(entries_view(es.update(i, e)).drop_last() =~= entries_view(es.drop_last()));
        assert(entries_view(es.update(i, e)).last() == (e.0@, e.1@));
        assert(entries_view(es).drop_last() =~= entries_view(es.drop_last()));
        assert(pairs_map(entries_view(es.update(i, e))) =~= pairs_map(entries_view(es)).insert(
            e.0@,
            e.1@,
        ));
    } else {
        assert(forall|t: int|
            0 <= t < es.len() - 1 ==> #[trigger] es.drop_last()[t] == es[t]);
        lemma_pairs_map_update(es.drop_last(), i, e);
        assert(es.update(i, e).drop_last() =~= es.drop_last().update(i, e));
        assert(es.update(i, e).last() == es.last());
        assert(entries_view(es.update(i, e)).drop_last() =~= entries_view(
            es.drop_last().update(i, e),
        ));
        assert(entries_view(es.update(i, e)).last() == (es.last().0@, es.last().1@));
        assert(entries_view(es).drop_last() =~= entries_view(es.drop_last()));
        assert(es.last().0@ != e.0@);
        assert(pairs_map(entries_view(es.drop_last())).insert(e.0@, e.1@).insert(
            es.last().0@,
            es.last().1@,
        ) =~= pairs_map(entries_view(es.drop_last())).insert(es.last().0@, es.last().1@).insert(
            e.0@,
            e.1@,
        ));
        assert(pairs_map(entries_view(es.update(i, e))) =~= pairs_map(entries_view(es)).insert(
            e.0@,
            e.1@,
        ));
    }
}

} // verus!
