//! The store itself: a key-value engine under the schema's key order,
//! written through atomic batches and read back either pointwise (with
//! historical fallback) or by the recovery scan that rebuilds the latest
//! committed block.
//!
//! The commit protocol is write-then-advance: a block's batch is committed
//! first, and only then is the global `height` pointer written. A store whose
//! pointer was never advanced past a batch never exposes that batch as
//! latest, so a half-present block is never reported.

use vstd::prelude::*;

use crate::codec::{dec_seq, parse_dec, parse_dec_exec, encode_dec};
use crate::engine::Engine;
use crate::error::Error;
use crate::keys::{chain_id_key, chain_id_key_vec, hash_key, hash_key_vec, height_prefix,
    height_prefix_vec, height_ptr_key, height_ptr_key_vec, is_hash_path, is_root_path,
    is_store_path, is_subspace_path, known_path, lemma_classify_canonical, root_key, root_key_vec,
    store_key, store_key_vec, subspace_addr_of, subspace_col_of, subspace_key, subspace_key_vec};
use crate::laws::{lemma_height_key_in_range, lemma_last_hash_bridge, lemma_last_root_bridge,
    lemma_last_store_bridge, lemma_subs_map_char, lemma_subspace_key_injective};
use crate::model::{apply_entries, batch_spec, canonical_range, entries_view, entry_ok,
    entry_temp_defect, essentials_present, group_entries, in_height_range, last_hash, last_root,
    last_store, range_entries_ok, range_has_hash, range_has_root, range_has_store, read_spec,
    subs_entries, subs_map};
use crate::order::{key_le, key_lt};
use crate::recover::recover_block;
use crate::types::{valid_address, Address, BlockHash, BlockHeight, MerkleTree, Subspaces};

verus! {

/// The store: the persistent state layer, keyed and ordered as the schema
/// prescribes.
pub struct DB(Engine);

/// Opens a fresh store at `path`. The engine is the verified in-memory one,
/// which starts empty; a caller that persists the contents elsewhere reloads
/// them through `write_raw`.
pub fn open(path: &str) -> (r: Result<DB, Error>)
    ensures
        r matches Ok(db) ==> db@ == Map::<Seq<u8>, Seq<u8>>::empty(),
        r is Ok,
{
    let _ = path;
    Ok(DB(Engine::new()))
}

impl DB {
    /// The store's entire contents.
    pub closed spec fn view(&self) -> Map<Seq<u8>, Seq<u8>> {
        self.0@
    }

    /// Waits until outstanding writes are stable. The in-memory engine's
    /// writes are visible as soon as they are applied, so there is nothing
    /// left to wait for.
    pub fn flush(&self) -> (r: Result<(), Error>)
        ensures
            r is Ok,
    {
        Ok(())
    }

    /// Writes one raw key, bypassing the schema: what direct interference
    /// with the underlying engine — or corruption — would leave behind.
    pub fn write_raw(&mut self, key: Vec<u8>, value: Vec<u8>)
        ensures
            final(self)@ == old(self)@.insert(key@, value@),
    {
        self.0.put(key, value);
    }

    /// Durably records the chain identifier under its well-known key; always
    /// safe to retry.
    pub fn write_chain_id(&mut self, chain_id: &Vec<u8>) -> (r: Result<(), Error>)
        ensures
            r is Ok,
            final(self)@ == old(self)@.insert(chain_id_key(), chain_id@),
    {
        let key = chain_id_key_vec();
        let value = vstd::slice::slice_to_vec(chain_id.as_slice());
        self.0.put(key, value);
        Ok(())
    }

    /// Commits one block: first the atomic batch holding the Merkle root and
    /// store, the block hash and all subspace writes; then, only after that
    /// batch is applied, the global height pointer. The pointer is the last
    /// step, so no state ever shows this height with only part of its batch.
    pub fn write_block(
        &mut self,
        tree: &MerkleTree,
        hash: &BlockHash,
        height: BlockHeight,
        subspaces: &Subspaces,
    ) -> (r: Result<(), Error>)
        requires
            subspaces.wf(),
        ensures
            r is Ok,
            final(self)@ == apply_entries(
                old(self)@,
                batch_spec(height.0, *tree, *hash, subspaces.groups@),
            ).insert(height_ptr_key(), dec_seq(height.0 as nat)),
    {
        let ghost gbatch = batch_spec(height.0, *tree, *hash, subspaces.groups@);
        let mut batch: Vec<(Vec<u8>, Vec<u8>)> = Vec::new();
        batch.push((root_key_vec(height.0), tree.root()));
        batch.push((store_key_vec(height.0), tree.store()));
        batch.push((hash_key_vec(height.0), hash.encode()));
        proof {
            assert(entries_view(batch@) =~= seq![
                (root_key(height.0), tree.spec_root()),
                (store_key(height.0), tree.spec_store()),
                (hash_key(height.0), hash@),
            ]);
            assert(subs_entries(height.0, subspaces.groups@.take(0))
                =~= Seq::<(Seq<u8>, Seq<u8>)>::empty());
        }
        let ghost head = entries_view(batch@);
        let mut j: usize = 0;
        proof {
            assert(entries_view(batch@) =~= head + subs_entries(
                height.0,
                subspaces.groups@.take(0),
            ));
        }
        while j < subspaces.groups.len()
            invariant
                0 <= j <= subspaces.groups@.len(),
                entries_view(batch@) == head + subs_entries(
                    height.0,
                    subspaces.groups@.take(j as int),
                ),
            decreases subspaces.groups@.len() - j,
        {
            let aseg = subspaces.groups[j].0.to_key_seg();
            let ghost a = subspaces.groups@[j as int].0@;
            let ghost cols = subspaces.groups@[j as int].1@;
            let ghost base = entries_view(batch@);
            proof {
                assert(group_entries(height.0, a, cols.take(0))
                    =~= Seq::<(Seq<u8>, Seq<u8>)>::empty());
                assert(base + group_entries(height.0, a, cols.take(0)) =~= base);
            }
            let mut t: usize = 0;
            while t < subspaces.groups[j].1.len()
                invariant
                    0 <= j < subspaces.groups@.len(),
                    0 <= t <= cols.len(),
                    a == subspaces.groups@[j as int].0@,
                    cols == subspaces.groups@[j as int].1@,
                    aseg@ == a,
                    entries_view(batch@) == base + group_entries(height.0, a, cols.take(t as int)),
                decreases cols.len() - t,
            {
                let col = &subspaces.groups[j].1[t];
                let key = subspace_key_vec(height.0, aseg.as_slice(), col.0.as_slice());
                let val = vstd::slice::slice_to_vec(col.1.as_slice());
                batch.push((key, val));
                proof {
                    assert(cols.take(t + 1).drop_last() =~= cols.take(t as int));
                    assert(cols.take(t + 1).last() == cols[t as int]);
                    assert(entries_view(batch@) =~= (base + group_entries(
                        height.0,
                        a,
                        cols.take(t as int),
                    )).push((subspace_key(height.0, a, cols[t as int].0@), cols[t as int].1@)));
                    assert(entries_view(batch@) =~= base + group_entries(
                        height.0,
                        a,
                        cols.take(t + 1),
                    ));
                }
                t = t + 1;
            }
            proof {
                assert(cols.take(cols.len() as int) =~= cols);
                assert(subspaces.groups@.take(j + 1).drop_last() =~= subspaces.groups@.take(
                    j as int,
                ));
                assert(subspaces.groups@.take(j + 1).last() == subspaces.groups@[j as int]);
                assert(entries_view(batch@) =~= head + subs_entries(
                    height.0,
                    subspaces.groups@.take(j + 1),
                ));
            }
            j = j + 1;
        }
        proof {
            assert(subspaces.groups@.take(subspaces.groups@.len() as int) =~= subspaces.groups@);
            assert(entries_view(batch@) =~= gbatch);
        }
        self.0.write_batch(&batch);
        let ptr_key = height_ptr_key_vec();
        let enc = encode_dec(height.0);
        self.0.put(ptr_key, enc);
        Ok(())
    }


    /// Reconstructs the latest committed block purely from the stored keys:
    /// the chain id, the Merkle tree rebuilt from its root and store, the
    /// block hash, the height, and every subspace write of that height.
    /// A missing chain id or height pointer means no committed state yet and
    /// is no error. A key in the height's range that matches no known shape
    /// aborts recovery naming that key; a range whose root, store or hash is
    /// missing aborts it as incomplete essential data.
    #[verifier::rlimit(80)]
    pub fn read_last_block(&self) -> (r: Result<
        Option<(Vec<u8>, MerkleTree, BlockHash, BlockHeight, Subspaces)>,
        Error,
    >)
        ensures
            ({
                let m = self@;
                match r {
                    Ok(None) => !m.contains_key(chain_id_key()) || !m.contains_key(
                        height_ptr_key(),
                    ),
                    Ok(Some((cid, tree, hash, bh, subs))) => {
                        &&& m.contains_key(chain_id_key()) && cid@ == m[chain_id_key()]
                        &&& m.contains_key(height_ptr_key()) && parse_dec(m[height_ptr_key()])
                            == Some(bh.0)
                        &&& bh.0 < u64::MAX
                        &&& range_entries_ok(m, bh.0)
                        &&& range_has_root(m, bh.0) && range_has_store(m, bh.0) && range_has_hash(
                            m,
                            bh.0,
                        )
                        &&& subs.wf()
                        &&& canonical_range(m, bh.0) ==> {
                            &&& m.contains_key(root_key(bh.0)) && tree.spec_root() == m[root_key(
                                bh.0,
                            )]
                            &&& m.contains_key(store_key(bh.0)) && tree.spec_store() == m[
                                store_key(bh.0)]
                            &&& m.contains_key(hash_key(bh.0)) && hash@ == m[hash_key(bh.0)]
                            &&& forall|a: Seq<u8>, c: Seq<u8>|
                                valid_address(a) && m.contains_key(
                                    #[trigger] subspace_key(bh.0, a, c),
                                ) ==> subs@.contains_key(a) && subs@[a].contains_key(c)
                                    && subs@[a][c] == m[subspace_key(bh.0, a, c)]
                            &&& forall|a: Seq<u8>, c: Seq<u8>|
                                subs@.contains_key(a) && #[trigger] subs@[a].contains_key(c)
                                    ==> valid_address(a) && m.contains_key(subspace_key(bh.0, a, c))
                                    && subs@[a][c] == m[subspace_key(bh.0, a, c)]
                        }
                    },
                    Err(e) => m.contains_key(chain_id_key()) && m.contains_key(height_ptr_key())
                        && ({
                        let hp = parse_dec(m[height_ptr_key()]);
                        match e {
                            Error::Temporary { .. } => hp is None || hp == Some(u64::MAX) || (
                            exists|k: Seq<u8>|
                                #[trigger] m.contains_key(k) && in_height_range(k, hp.unwrap())
                                    && entry_temp_defect(k, m[k])) || (range_entries_ok(
                                m,
                                hp.unwrap(),
                            ) && !(range_has_root(m, hp.unwrap()) && range_has_store(
                                m,
                                hp.unwrap(),
                            ) && range_has_hash(m, hp.unwrap()))),
                            Error::UnknownKey { key } => hp is Some && hp != Some(u64::MAX)
                                && m.contains_key(key@) && in_height_range(key@, hp.unwrap())
                                && !known_path(key@),
                            _ => false,
                        }
                    }),
                }
            }),
    {
        let ghost m = self@;
        let chain_key = chain_id_key_vec();
        let cid = match self.0.get(&chain_key) {
            Some(v) => v,
            None => {
                return Ok(None);
            },
        };
        let ptr_key = height_ptr_key_vec();
        let hbytes = match self.0.get(&ptr_key) {
            Some(v) => v,
            None => {
                return Ok(None);
            },
        };
        let h = match parse_dec_exec(hbytes.as_slice()) {
            Some(h) => h,
            None => {
                return Err(
                    Error::Temporary { error: "cannot parse the latest height".to_owned() },
                );
            },
        };
        if h == u64::MAX {
            return Err(
                Error::Temporary { error: "the latest height is out of range".to_owned() },
            );
        }
        let lo = height_prefix_vec(h);
        let hi = height_prefix_vec(h + 1);
        let entries = self.0.scan_range(&lo, &hi);
        let ghost ev = entries_view(entries@);
        proof {
            assert(forall|k: Seq<u8>|
                in_height_range(k, h) == (key_le(lo@, k) && key_lt(k, hi@)));
            assert(forall|t: int|
                0 <= t < ev.len() ==> m.contains_key(#[trigger] ev[t].0) && ev[t].1 == m[ev[t].0]
                    && in_height_range(ev[t].0, h));
            assert(forall|k: Seq<u8>|
                m.contains_key(k) && in_height_range(k, h) ==> exists|t: int|
                    0 <= t < ev.len() && (#[trigger] ev[t].0) == k);
        }
        match recover_block(&entries) {
            Err(e) => {
                proof {
                    match &e {
                        Error::UnknownKey { key } => {
                            let i = choose|i: int|
                                0 <= i < ev.len() && (#[trigger] ev[i].0) == key@ && !known_path(
                                    key@,
                                ) && (forall|j: int|
                                    0 <= j < i ==> entry_ok(#[trigger] ev[j].0, ev[j].1));
                            assert(m.contains_key(key@) && in_height_range(key@, h));
                        },
                        Error::Temporary { .. } => {
                            if exists|i: int|
                                0 <= i < ev.len() && entry_temp_defect(
                                    #[trigger] ev[i].0,
                                    ev[i].1,
                                ) && (forall|j: int|
                                    0 <= j < i ==> entry_ok(#[trigger] ev[j].0, ev[j].1)) {
                                let i = choose|i: int|
                                    0 <= i < ev.len() && entry_temp_defect(
                                        #[trigger] ev[i].0,
                                        ev[i].1,
                                    ) && (forall|j: int|
                                        0 <= j < i ==> entry_ok(#[trigger] ev[j].0, ev[j].1));
                                let k = ev[i].0;
                                assert(m.contains_key(k) && in_height_range(k, h)
                                    && entry_temp_defect(k, m[k]));
                            } else {
                                lemma_scan_ok_bridge(m, ev, h);
                            }
                        },
                        _ => {},
                    }
                }
                Err(e)
            },
            Ok((tree, hash, subs)) => {
                proof {
                    lemma_scan_ok_bridge(m, ev, h);
                    lemma_last_root_bridge(ev);
                    lemma_last_store_bridge(ev);
                    lemma_last_hash_bridge(ev);
                    assert(range_has_root(m, h)) by {
                        let i = choose|i: int|
                            0 <= i < ev.len() && is_root_path(#[trigger] ev[i].0) && ev[i].1
                                == last_root(ev).unwrap();
                        assert(m.contains_key(ev[i].0) && in_height_range(ev[i].0, h)
                            && is_root_path(ev[i].0));
                    }
                    assert(range_has_store(m, h)) by {
                        let i = choose|i: int|
                            0 <= i < ev.len() && is_store_path(#[trigger] ev[i].0) && ev[i].1
                                == last_store(ev).unwrap();
                        assert(m.contains_key(ev[i].0) && in_height_range(ev[i].0, h)
                            && is_store_path(ev[i].0));
                    }
                    assert(range_has_hash(m, h)) by {
                        let i = choose|i: int|
                            0 <= i < ev.len() && is_hash_path(#[trigger] ev[i].0) && ev[i].1
                                == last_hash(ev).unwrap();
                        assert(m.contains_key(ev[i].0) && in_height_range(ev[i].0, h)
                            && is_hash_path(ev[i].0));
                    }
                    if canonical_range(m, h) {
                        lemma_recovered_canonical(m, ev, h, tree, hash, subs@);
                    }
                }
                Ok(Some((cid, tree, hash, BlockHeight(h), subs)))
            },
        }
    }

    /// Looks the column up at the given height; a column not written there
    /// keeps the value last written at the nearest earlier height. A pure
    /// lookup: nothing is mutated.
    pub fn read(&self, height: BlockHeight, addr: &Address, column: &[u8]) -> (r: Result<
        Option<Vec<u8>>,
        Error,
    >)
        ensures
            r is Ok,
            r matches Ok(o) ==> {
                &&& (o is Some) == (read_spec(self@, height.0, addr@, column@) is Some)
                &&& o matches Some(v) ==> read_spec(self@, height.0, addr@, column@) == Some(v@)
            },
        decreases height.0,
    {
        let aseg = addr.to_key_seg();
        let key = subspace_key_vec(height.0, aseg.as_slice(), column);
        match self.0.get(&key) {
            Some(v) => Ok(Some(v)),
            None => {
                match height.prev_height() {
                    Some(prev) => self.read(prev, addr, column),
                    None => Ok(None),
                }
            },
        }
    }
}

/// What a clean scan says of the range: every key in it is consumable, and a
/// slot that no scanned pair filled is absent from the whole range.
proof fn lemma_scan_ok_bridge(m: Map<Seq<u8>, Seq<u8>>, ev: Seq<(Seq<u8>, Seq<u8>)>, h: u64)
    requires
        forall|t: int|
            0 <= t < ev.len() ==> m.contains_key(#[trigger] ev[t].0) && ev[t].1 == m[ev[t].0]
                && in_height_range(ev[t].0, h),
        forall|k: Seq<u8>|
            m.contains_key(k) && in_height_range(k, h) ==> exists|t: int|
                0 <= t < ev.len() && (#[trigger] ev[t].0) == k,
        crate::model::entries_ok(ev),
    ensures
        range_entries_ok(m, h),
        last_root(ev) is None ==> !range_has_root(m, h),
        last_store(ev) is None ==> !range_has_store(m, h),
        last_hash(ev) is None ==> !range_has_hash(m, h),
{
    assert forall|k: Seq<u8>| m.contains_key(k) && in_height_range(k, h) implies entry_ok(
        k,
        #[trigger] m[k],
    ) by {
        let t = choose|t: int| 0 <= t < ev.len() && (#[trigger] ev[t].0) == k;
        assert(entry_ok(ev[t].0, ev[t].1));
    }
    lemma_last_root_bridge(ev);
    lemma_last_store_bridge(ev);
    lemma_last_hash_bridge(ev);
    if last_root(ev) is None && range_has_root(m, h) {
        let k = choose|k: Seq<u8>|
            #[trigger] m.contains_key(k) && in_height_range(k, h) && is_root_path(k);
        let t = choose|t: int| 0 <= t < ev.len() && (#[trigger] ev[t].0) == k;
        assert(is_root_path(ev[t].0));
    }
    if last_store(ev) is None && range_has_store(m, h) {
        let k = choose|k: Seq<u8>|
            #[trigger] m.contains_key(k) && in_height_range(k, h) && is_store_path(k);
        let t = choose|t: int| 0 <= t < ev.len() && (#[trigger] ev[t].0) == k;
        assert(is_store_path(ev[t].0));
    }
    if last_hash(ev) is None && range_has_hash(m, h) {
        let k = choose|k: Seq<u8>|
            #[trigger] m.contains_key(k) && in_height_range(k, h) && is_hash_path(k);
        let t = choose|t: int| 0 <= t < ev.len() && (#[trigger] ev[t].0) == k;
        assert(is_hash_path(ev[t].0));
    }
}

/// Over a range holding only the schema's own keys, what recovery rebuilt is
/// exactly what the range stores: the essential slots come from their
/// canonical keys and the subspace mapping mirrors the subspace keys.
#[verifier::rlimit(100)]
proof fn lemma_recovered_canonical(
    m: Map<Seq<u8>, Seq<u8>>,
    ev: Seq<(Seq<u8>, Seq<u8>)>,
    h: u64,
    tree: MerkleTree,
    hash: BlockHash,
    sv: Map<Seq<u8>, Map<Seq<u8>, Seq<u8>>>,
)
    requires
        h < u64::MAX,
        forall|t: int|
            0 <= t < ev.len() ==> m.contains_key(#[trigger] ev[t].0) && ev[t].1 == m[ev[t].0]
                && in_height_range(ev[t].0, h),
        forall|k: Seq<u8>|
            m.contains_key(k) && in_height_range(k, h) ==> exists|t: int|
                0 <= t < ev.len() && (#[trigger] ev[t].0) == k,
        forall|t1: int, t2: int|
            0 <= t1 < t2 < ev.len() ==> (#[trigger] ev[t1].0) != (#[trigger] ev[t2].0),
        canonical_range(m, h),
        last_root(ev) == Some(tree.spec_root()),
        last_store(ev) == Some(tree.spec_store()),
        last_hash(ev) == Some(hash@),
        sv == subs_map(ev),
    ensures
        m.contains_key(root_key(h)) && tree.spec_root() == m[root_key(h)],
        m.contains_key(store_key(h)) && tree.spec_store() == m[store_key(h)],
        m.contains_key(hash_key(h)) && hash@ == m[hash_key(h)],
        forall|a: Seq<u8>, c: Seq<u8>|
            valid_address(a) && m.contains_key(#[trigger] subspace_key(h, a, c))
                ==> sv.contains_key(a) && sv[a].contains_key(c) && sv[a][c] == m[subspace_key(
                h,
                a,
                c,
            )],
        forall|a: Seq<u8>, c: Seq<u8>|
            sv.contains_key(a) && #[trigger] sv[a].contains_key(c) ==> valid_address(a)
                && m.contains_key(subspace_key(h, a, c)) && sv[a][c] == m[subspace_key(h, a, c)],
{
    let some_addr: Seq<u8> = seq![97u8];
    assert(valid_address(some_addr));
    lemma_classify_canonical(h, some_addr, Seq::empty());
    // Every key of the range is pinned by its shape.
    assert forall|t: int| 0 <= t < ev.len() && is_root_path(#[trigger] ev[t].0) implies ev[t].0
        == root_key(h) by {
        lemma_canonical_shape(m, ev[t].0, h);
    }
    assert forall|t: int| 0 <= t < ev.len() && is_store_path(#[trigger] ev[t].0) implies ev[t].0
        == store_key(h) by {
        lemma_canonical_shape(m, ev[t].0, h);
    }
    assert forall|t: int| 0 <= t < ev.len() && is_hash_path(#[trigger] ev[t].0) implies ev[t].0
        == hash_key(h) by {
        lemma_canonical_shape(m, ev[t].0, h);
    }
    assert forall|t: int|
        0 <= t < ev.len() && is_subspace_path(#[trigger] ev[t].0) implies valid_address(
        subspace_addr_of(ev[t].0),
    ) && ev[t].0 == subspace_key(h, subspace_addr_of(ev[t].0), subspace_col_of(ev[t].0)) by {
        lemma_canonical_shape(m, ev[t].0, h);
    }
    lemma_last_root_bridge(ev);
    lemma_last_store_bridge(ev);
    lemma_last_hash_bridge(ev);
    {
        let i = choose|i: int|
            0 <= i < ev.len() && is_root_path(#[trigger] ev[i].0) && ev[i].1 == last_root(
                ev,
            ).unwrap();
        assert(ev[i].0 == root_key(h));
        assert(m.contains_key(root_key(h)) && m[root_key(h)] == tree.spec_root());
    }
    {
        let i = choose|i: int|
            0 <= i < ev.len() && is_store_path(#[trigger] ev[i].0) && ev[i].1 == last_store(
                ev,
            ).unwrap();
        assert(ev[i].0 == store_key(h));
        assert(m.contains_key(store_key(h)) && m[store_key(h)] == tree.spec_store());
    }
    {
        let i = choose|i: int|
            0 <= i < ev.len() && is_hash_path(#[trigger] ev[i].0) && ev[i].1 == last_hash(
                ev,
            ).unwrap();
        assert(ev[i].0 == hash_key(h));
        assert(m.contains_key(hash_key(h)) && m[hash_key(h)] == hash@);
    }
    // Distinct keys give distinct (address, column) pairs.
    assert forall|i: int, j: int|
        0 <= i < j < ev.len() && is_subspace_path(#[trigger] ev[i].0) && is_subspace_path(
            #[trigger] ev[j].0,
        ) implies !(subspace_addr_of(ev[i].0) == subspace_addr_of(ev[j].0) && subspace_col_of(
        ev[i].0,
    ) == subspace_col_of(ev[j].0)) by {
        if subspace_addr_of(ev[i].0) == subspace_addr_of(ev[j].0) && subspace_col_of(ev[i].0)
            == subspace_col_of(ev[j].0) {
            assert(ev[i].0 == subspace_key(
                h,
                subspace_addr_of(ev[i].0),
                subspace_col_of(ev[i].0),
            ));
            assert(ev[j].0 == subspace_key(
                h,
                subspace_addr_of(ev[j].0),
                subspace_col_of(ev[j].0),
            ));
        }
    }
    lemma_subs_map_char(ev);
    assert forall|a: Seq<u8>, c: Seq<u8>|
        valid_address(a) && m.contains_key(#[trigger] subspace_key(h, a, c)) implies
        sv.contains_key(a) && sv[a].contains_key(c) && sv[a][c] == m[subspace_key(h, a, c)] by {
        let k = subspace_key(h, a, c);
        lemma_classify_canonical(h, a, c);
        lemma_height_key_in_range(
            h,
            crate::keys::subspace_tag() + seq![crate::codec::SEP] + a + seq![crate::codec::SEP]
                + c,
            h,
        );
        assert(in_height_range(k, h));
        let t = choose|t: int| 0 <= t < ev.len() && (#[trigger] ev[t].0) == k;
        assert(is_subspace_path(ev[t].0) && subspace_addr_of(ev[t].0) == a && subspace_col_of(
            ev[t].0,
        ) == c);
        assert(sv[a][c] == ev[t].1);
    }
    assert forall|a: Seq<u8>, c: Seq<u8>|
        sv.contains_key(a) && #[trigger] sv[a].contains_key(c) implies valid_address(a)
        && m.contains_key(subspace_key(h, a, c)) && sv[a][c] == m[subspace_key(h, a, c)] by {
        let i = choose|i: int|
            0 <= i < ev.len() && is_subspace_path(#[trigger] ev[i].0) && subspace_addr_of(
                ev[i].0,
            ) == a && subspace_col_of(ev[i].0) == c;
        assert(ev[i].0 == subspace_key(h, a, c));
        assert(valid_address(subspace_addr_of(ev[i].0)));
        assert(sv[a][c] == ev[i].1);
        assert(m[subspace_key(h, a, c)] == ev[i].1);
    }
}

/// A canonical key of the range is decided by its shape: root-shaped means
/// the root key, and so on; subspace-shaped means the canonical key of its
/// own address and column.
proof fn lemma_canonical_shape(m: Map<Seq<u8>, Seq<u8>>, k: Seq<u8>, h: u64)
    requires
        m.contains_key(k),
        in_height_range(k, h),
        canonical_range(m, h),
    ensures
        is_root_path(k) ==> k == root_key(h),
        is_store_path(k) ==> k == store_key(h),
        is_hash_path(k) ==> k == hash_key(h),
        is_subspace_path(k) ==> valid_address(subspace_addr_of(k)) && k == subspace_key(
            h,
            subspace_addr_of(k),
            subspace_col_of(k),
        ),
{
    let some_addr: Seq<u8> = seq![97u8];
    assert(valid_address(some_addr));
    lemma_classify_canonical(h, some_addr, Seq::empty());
    if k == root_key(h) || k == store_key(h) || k == hash_key(h) {
    } else {
        let (a, c) = choose|a: Seq<u8>, c: Seq<u8>|
            valid_address(a) && k == #[trigger] subspace_key(h, a, c);
        lemma_classify_canonical(h, a, c);
    }
}

} // verus!
