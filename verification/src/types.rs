//! The typed state a block commit records: heights, addresses, block hashes,
//! the Merkle commitment, and the per-address subspace writes.

use vstd::prelude::*;
use vstd::slice::slice_to_vec;
use vstd::pervasive::VecAdditionalExecFns;

use crate::codec::{bytes_eq, dec_seq, encode_dec, SEP};

verus! {

/// Number of bytes in a block hash and in a Merkle root hash.
pub const HASH_LEN: usize = 32;

/// The height of a committed block.
#[derive(Clone, Copy, Debug, PartialEq, Eq, Structural)]
pub struct BlockHeight(pub u64);

impl BlockHeight {
    /// The height of the block before this one, if any.
    pub fn prev_height(&self) -> (r: Option<BlockHeight>)
        ensures
            self.0 == 0 ==> r is None,
            self.0 > 0 ==> r == Some(BlockHeight((self.0 - 1) as u64)),
    {
        if self.0 == 0 {
            None
        } else {
            Some(BlockHeight(self.0 - 1))
        }
    }

    /// The height of the block after this one.
    pub fn next_height(&self) -> (r: BlockHeight)
        requires
            self.0 < u64::MAX,
        ensures
            r.0 == self.0 + 1,
    {
        BlockHeight(self.0 + 1)
    }

    /// The canonical decimal key segment for this height.
    pub fn to_key_seg(&self) -> (r: Vec<u8>)
        ensures
            r@ == dec_seq(self.0 as nat),
    {
        encode_dec(self.0)
    }
}

/// What a byte string must look like to be an address key segment: nonempty
/// and free of the segment separator, so that it occupies exactly one
/// segment of a subspace key.
pub open spec fn valid_address(s: Seq<u8>) -> bool {
    s.len() > 0 && forall|i: int| 0 <= i < s.len() ==> #[trigger] s[i] != SEP
}

/// An account or module identifier, stored as its canonical key segment.
pub struct Address {
    raw: Vec<u8>,
}

impl Address {
    /// The canonical key segment of this address.
    pub closed spec fn view(&self) -> Seq<u8> {
        self.raw@
    }

    #[verifier::type_invariant]
    pub closed spec fn wf(self) -> bool {
        valid_address(self.raw@)
    }

    /// Parses an address back from one key segment; fails exactly on a
    /// segment that is no valid address encoding.
    pub fn from_key_seg(seg: &[u8]) -> (r: Option<Address>)
        ensures
            match r {
                Some(a) => valid_address(seg@) && a@ == seg@,
                None => !valid_address(seg@),
            },
    {
        if seg.len() == 0 {
            return None;
        }
        let mut i: usize = 0;
        while i < seg.len()
            invariant
                0 <= i <= seg@.len(),
                forall|j: int| 0 <= j < i ==> #[trigger] seg@[j] != SEP,
            decreases seg@.len() - i,
        {
            if seg[i] == SEP {
                return None;
            }
            i = i + 1;
        }
        Some(Address { raw: slice_to_vec(seg) })
    }

    /// The canonical key segment of this address, as fresh bytes.
    pub fn to_key_seg(&self) -> (r: Vec<u8>)
        ensures
            r@ == self@,
    {
        slice_to_vec(self.raw.as_slice())
    }

    /// A second owned handle on the same address.
    pub fn duplicate(&self) -> (r: Address)
        ensures
            r@ == self@,
    {
        proof {
            use_type_invariant(self);
        }
        Address { raw: slice_to_vec(self.raw.as_slice()) }
    }
}

/// The content hash of a block: a fixed-size byte string.
pub struct BlockHash {
    bytes: Vec<u8>,
}

impl BlockHash {
    pub closed spec fn view(&self) -> Seq<u8> {
        self.bytes@
    }

    #[verifier::type_invariant]
    pub closed spec fn wf(self) -> bool {
        self.bytes@.len() == HASH_LEN
    }

    /// Wraps hash bytes; fails exactly on a byte string of the wrong length.
    pub fn new(bytes: Vec<u8>) -> (r: Option<BlockHash>)
        ensures
            match r {
                Some(h) => bytes@.len() == HASH_LEN && h@ == bytes@,
                None => bytes@.len() != HASH_LEN,
            },
    {
        if bytes.len() == HASH_LEN {
            Some(BlockHash { bytes })
        } else {
            None
        }
    }

    /// The encoded form written to the store: the raw hash bytes.
    pub fn encode(&self) -> (r: Vec<u8>)
        ensures
            r@ == self@,
    {
        slice_to_vec(self.bytes.as_slice())
    }
}

/// The authenticated commitment to a height's state: a root hash plus the
/// encoded bytes of the tree's backing store. The root is only ever obtained
/// together with the store it commits, through the one constructor.
pub struct MerkleTree {
    root: Vec<u8>,
    store: Vec<u8>,
}

impl MerkleTree {
    /// The root hash.
    pub closed spec fn spec_root(&self) -> Seq<u8> {
        self.root@
    }

    /// The encoded backing store.
    pub closed spec fn spec_store(&self) -> Seq<u8> {
        self.store@
    }

    #[verifier::type_invariant]
    pub closed spec fn wf(self) -> bool {
        self.root@.len() == HASH_LEN
    }

    /// Builds the tree from a root and its backing store; fails exactly on a
    /// root of the wrong length.
    pub fn new(root: Vec<u8>, store: Vec<u8>) -> (r: Option<MerkleTree>)
        ensures
            match r {
                Some(t) => root@.len() == HASH_LEN && t.spec_root() == root@ && t.spec_store()
                    == store@,
                None => root@.len() != HASH_LEN,
            },
    {
        if root.len() == HASH_LEN {
            Some(MerkleTree { root, store })
        } else {
            None
        }
    }

    /// The root hash, as the bytes written under the `tree/root` key.
    pub fn root(&self) -> (r: Vec<u8>)
        ensures
            r@ == self.spec_root(),
    {
        slice_to_vec(self.root.as_slice())
    }

    /// The encoded store, as the bytes written under the `tree/store` key.
    pub fn store(&self) -> (r: Vec<u8>)
        ensures
            r@ == self.spec_store(),
    {
        slice_to_vec(self.store.as_slice())
    }
}

/// The columns written for one address: column name to raw value.
pub open spec fn cols_view(cols: Seq<(Vec<u8>, Vec<u8>)>) -> Map<Seq<u8>, Seq<u8>>
    decreases cols.len(),
{
    if cols.len() == 0 {
        Map::empty()
    } else {
        cols_view(cols.drop_last()).insert(cols.last().0@, cols.last().1@)
    }
}

/// The subspace writes of one block, grouped by address.
pub open spec fn groups_view(groups: Seq<(Address, Vec<(Vec<u8>, Vec<u8>)>)>) -> Map<
    Seq<u8>,
    Map<Seq<u8>, Seq<u8>>,
>
    decreases groups.len(),
{
    if groups.len() == 0 {
        Map::empty()
    } else {
        groups_view(groups.drop_last()).insert(
            groups.last().0@,
            cols_view(groups.last().1@),
        )
    }
}

/// The per-address subspace writes of one block: for each written address, a
/// flat map of column name to raw value bytes.
pub struct Subspaces {
    /// The writes, grouped by address in first-write order. Read it freely;
    /// build it through `insert`, which keeps the grouping well-formed.
    pub groups: Vec<(Address, Vec<(Vec<u8>, Vec<u8>)>)>,
}

impl Subspaces {
    pub open spec fn view(&self) -> Map<Seq<u8>, Map<Seq<u8>, Seq<u8>>> {
        groups_view(self.groups@)
    }

    /// No subspace writes at all.
    pub fn new() -> (r: Subspaces)
        ensures
            r.wf(),
            r@ == Map::<Seq<u8>, Map<Seq<u8>, Seq<u8>>>::empty(),
    {
        let r = Subspaces { groups: Vec::new() };
        proof {
            assert(r@ =~= Map::<Seq<u8>, Map<Seq<u8>, Seq<u8>>>::empty());
        }
        r
    }

    /// Addresses are grouped once each, and within a group each column is
    /// written once.
    pub open spec fn wf(&self) -> bool {
        &&& groups_distinct(self.groups@)
        &&& forall|i: int|
            0 <= i < self.groups@.len() ==> cols_distinct(#[trigger] self.groups@[i].1@)
        &&& forall|i: int|
            0 <= i < self.groups@.len() ==> valid_address(#[trigger] self.groups@[i].0@)
    }

    /// Records `value` under `column` for `addr`, overwriting an earlier
    /// write of the same column.
    #[verifier::loop_isolation(false)]
    pub fn insert(&mut self, addr: Address, column: Vec<u8>, value: Vec<u8>)
        requires
            old(self).wf(),
        ensures
            final(self).wf(),
            final(self)@ == old(self)@.insert(
                addr@,
                (if old(self)@.contains_key(addr@) {
                    old(self)@[addr@]
                } else {
                    Map::<Seq<u8>, Seq<u8>>::empty()
                }).insert(column@, value@),
            ),
    {
        proof {
            use_type_invariant(&addr);
            lemma_groups_view_char(self.groups@);
        }
        let ghost gs0 = self.groups@;
        let ghost m0 = groups_view(gs0);
        let mut j: usize = 0;
        while j < self.groups.len()
            invariant
                0 <= j <= self.groups@.len(),
                self.groups@ == gs0,
                forall|t: int| 0 <= t < j ==> #[trigger] gs0[t].0@ != addr@,
            decreases self.groups@.len() - j,
        {
            if bytes_eq(self.groups[j].0.raw.as_slice(), addr.raw.as_slice()) {
                // The address already has a group: update it in place.
                proof {
                    assert(gs0[j as int].0@ == addr@);
                    assert(m0.contains_key(addr@));
                    assert(m0[addr@] == cols_view(gs0[j as int].1@));
                }
                let mut g = self.groups.remove(j);
                proof {
                    lemma_cols_view_char(g.1@);
                }
                let ghost cols0 = g.1@;
                let mut t: usize = 0;
                let mut found = false;
                while t < g.1.len() && !found
                    invariant
                        0 <= t <= g.1@.len(),
                        g.1@ == cols0,
                        !found ==> forall|u: int| 0 <= u < t ==> #[trigger] cols0[u].0@
                            != column@,
                        found ==> t < cols0.len() && cols0[t as int].0@ == column@,
                    decreases g.1@.len() - t + (if found { 0int } else { 1int }),
                {
                    if bytes_eq(g.1[t].0.as_slice(), column.as_slice()) {
                        found = true;
                    } else {
                        t = t + 1;
                    }
                }
                if found {
                    g.1.set(t, (column, value));
                    proof {
                        let e = g.1@[t as int];
                        assert(g.1@ == cols0.update(t as int, e));
                        assert(e.0@ == column@ && e.1@ == value@);
                        lemma_cols_view_update(cols0, t as int, e);
                        assert(cols_view(g.1@) == cols_view(cols0).insert(column@, value@));
                        assert(cols_distinct(g.1@)) by {
                            assert(forall|u: int|
                                0 <= u < g.1@.len() && u != t ==> #[trigger] g.1@[u]
                                    == cols0[u]);
                        }
                    }
                } else {
                    proof {
                        assert(!cols_view(cols0).contains_key(column@));
                    }
                    g.1.push((column, value));
                    proof {
                        assert(g.1@.drop_last() =~= cols0);
                        assert(cols_view(g.1@) == cols_view(cols0).insert(column@, value@));
                        assert(cols_distinct(g.1@)) by {
                            assert(forall|u: int|
                                0 <= u < cols0.len() ==> #[trigger] g.1@[u] == cols0[u]);
                            assert(forall|u: int|
                                0 <= u < cols0.len() ==> #[trigger] cols0[u].0@ != column@);
                        }
                    }
                }
                proof {
                    lemma_groups_view_update(gs0, j as int, (g.0, g.1));
                }
                self.groups.insert(j, g);
                proof {
                    assert(self.groups@ =~= gs0.update(j as int, self.groups@[j as int]));
                    assert(forall|u: int|
                        0 <= u < gs0.len() && u != j ==> #[trigger] self.groups@[u] == gs0[u]);
                    assert(self.groups@[j as int].0@ == addr@);
                    assert(self@ == m0.insert(addr@, m0[addr@].insert(column@, value@)));
                    assert(groups_distinct(self.groups@));
                    assert(self.wf());
                }
                return ;
            }
            j = j + 1;
        }
        // A new address: append a fresh group.
        proof {
            assert(!m0.contains_key(addr@));
        }
        let mut cols: Vec<(Vec<u8>, Vec<u8>)> = Vec::new();
        cols.push((column, value));
        let ghost a = addr@;
        self.groups.push((addr, cols));
        proof {
            assert(self.groups@.drop_last() =~= gs0);
            assert(self.groups@.last().0@ == a);
            assert(self.groups@.last().1@.drop_last() =~= Seq::<(Vec<u8>, Vec<u8>)>::empty());
            assert(cols_view(self.groups@.last().1@.drop_last())
                =~= Map::<Seq<u8>, Seq<u8>>::empty());
            assert(self.groups@.last().1@.len() == 1);
            assert(cols_view(self.groups@.last().1@)
                =~= Map::<Seq<u8>, Seq<u8>>::empty().insert(column@, value@));
            assert(self@ == m0.insert(a, Map::<Seq<u8>, Seq<u8>>::empty().insert(
                column@,
                value@,
            )));
            assert(forall|u: int|
                0 <= u < gs0.len() ==> #[trigger] self.groups@[u] == gs0[u]);
            assert(groups_distinct(self.groups@)) by {
                assert(forall|u: int| 0 <= u < gs0.len() ==> #[trigger] gs0[u].0@ != a);
            }
            assert(cols_distinct(self.groups@.last().1@));
            assert(valid_address(a));
            assert(self.wf());
        }
    }

    /// The value written for `addr` at `column`, if any.
    #[verifier::loop_isolation(false)]
    pub fn get(&self, addr: &Address, column: &[u8]) -> (r: Option<&Vec<u8>>)
        requires
            self.wf(),
        ensures
            match r {
                Some(v) => self@.contains_key(addr@) && self@[addr@].contains_key(column@)
                    && v@ == self@[addr@][column@],
                None => !(self@.contains_key(addr@) && self@[addr@].contains_key(column@)),
            },
    {
        proof {
            lemma_groups_view_char(self.groups@);
        }
        let mut j: usize = 0;
        while j < self.groups.len()
            invariant
                0 <= j <= self.groups@.len(),
                self.wf(),
                forall|t: int| 0 <= t < j ==> #[trigger] self.groups@[t].0@ != addr@,
            decreases self.groups@.len() - j,
        {
            if bytes_eq(self.groups[j].0.raw.as_slice(), addr.raw.as_slice()) {
                proof {
                    lemma_groups_view_char(self.groups@);
                    lemma_cols_view_char(self.groups@[j as int].1@);
                    assert(self.groups@[j as int].0@ == addr@);
                    assert(self@.contains_key(addr@));
                    assert(self@[addr@] == cols_view(self.groups@[j as int].1@));
                }
                let mut t: usize = 0;
                while t < self.groups[j].1.len()
                    invariant
                        0 <= j < self.groups@.len(),
                        0 <= t <= self.groups@[j as int].1@.len(),
                        self.wf(),
                        self.groups@[j as int].0@ == addr@,
                        self@.contains_key(addr@),
                        self@[addr@] == cols_view(self.groups@[j as int].1@),
                        forall|u: int|
                            0 <= u < t ==> #[trigger] self.groups@[j as int].1@[u].0@
                                != column@,
                    decreases self.groups@[j as int].1@.len() - t,
                {
                    if bytes_eq(self.groups[j].1[t].0.as_slice(), column) {
                        proof {
                            lemma_cols_view_char(self.groups@[j as int].1@);
                            assert(self.groups@[j as int].1@[t as int].0@ == column@);
                        }
                        return Some(&self.groups[j].1[t].1);
                    }
                    t = t + 1;
                }
                proof {
                    lemma_cols_view_char(self.groups@[j as int].1@);
                    assert(!cols_view(self.groups@[j as int].1@).contains_key(column@));
                }
                return None;
            }
            j = j + 1;
        }
        proof {
            lemma_groups_view_char(self.groups@);
        }
        None
    }

    /// How many addresses hold a write.
    pub fn addr_count(&self) -> (r: usize)
        requires
            self.wf(),
        ensures
            r as nat == self@.dom().len(),
    {
        proof {
            lemma_groups_view_dom_len(self.groups@);
        }
        self.groups.len()
    }
}

/// Each column appears once.
pub open spec fn cols_distinct(cols: Seq<(Vec<u8>, Vec<u8>)>) -> bool {
    forall|i: int, j: int|
        0 <= i < j < cols.len() ==> #[trigger] cols[i].0@ != #[trigger] cols[j].0@
}

/// Each address appears once.
pub open spec fn groups_distinct(gs: Seq<(Address, Vec<(Vec<u8>, Vec<u8>)>)>) -> bool {
    forall|i: int, j: int|
        0 <= i < j < gs.len() ==> #[trigger] gs[i].0@ != #[trigger] gs[j].0@
}

/// With distinct columns, the column map reads back exactly the entries.
pub proof fn lemma_cols_view_char(cols: Seq<(Vec<u8>, Vec<u8>)>)
    requires
        cols_distinct(cols),
    ensures
        forall|c: Seq<u8>|
            cols_view(cols).contains_key(c) <==> exists|i: int|
                0 <= i < cols.len() && #[trigger] cols[i].0@ == c,
        forall|i: int|
            0 <= i < cols.len() ==> cols_view(cols).contains_key(#[trigger] cols[i].0@)
                && cols_view(cols)[cols[i].0@] == cols[i].1@,
    decreases cols.len(),
{
    if cols.len() > 0 {
        let dl = cols.drop_last();
        assert(cols_distinct(dl)) by {
            assert(forall|i: int| 0 <= i < dl.len() ==> #[trigger] dl[i] == cols[i]);
        }
        lemma_cols_view_char(dl);
        assert(forall|i: int| 0 <= i < dl.len() ==> #[trigger] dl[i] == cols[i]);
        assert forall|c: Seq<u8>| #[trigger] cols_view(cols).contains_key(c) implies exists|i: int|
            0 <= i < cols.len() && #[trigger] cols[i].0@ == c by {
            if c == cols.last().0@ {
                assert(cols[cols.len() - 1].0@ == c);
            } else {
                assert(cols_view(dl).contains_key(c));
                let i = choose|i: int| 0 <= i < dl.len() && #[trigger] dl[i].0@ == c;
                assert(cols[i].0@ == c);
            }
        }
        assert forall|c: Seq<u8>| (exists|i: int| 0 <= i < cols.len() && #[trigger] cols[i].0@
            == c) implies cols_view(cols).contains_key(c) by {
            let i = choose|i: int| 0 <= i < cols.len() && #[trigger] cols[i].0@ == c;
            if i < cols.len() - 1 {
                assert(dl[i].0@ == c);
                assert(cols_view(dl).contains_key(c));
            }
        }
        assert forall|i: int| 0 <= i < cols.len() implies cols_view(cols).contains_key(
            #[trigger] cols[i].0@,
        ) && cols_view(cols)[cols[i].0@] == cols[i].1@ by {
            if i < cols.len() - 1 {
                assert(dl[i].0@ == cols[i].0@ && dl[i].1@ == cols[i].1@);
                assert(cols[i].0@ != cols.last().0@);
            }
        }
    }
}

/// With distinct addresses, the grouped map reads back exactly the groups.
pub proof fn lemma_groups_view_char(gs: Seq<(Address, Vec<(Vec<u8>, Vec<u8>)>)>)
    requires
        groups_distinct(gs),
    ensures
        forall|a: Seq<u8>|
            groups_view(gs).contains_key(a) <==> exists|i: int|
                0 <= i < gs.len() && #[trigger] gs[i].0@ == a,
        forall|i: int|
            0 <= i < gs.len() ==> groups_view(gs).contains_key(#[trigger] gs[i].0@)
                && groups_view(gs)[gs[i].0@] == cols_view(gs[i].1@),
    decreases gs.len(),
{
    if gs.len() > 0 {
        let dl = gs.drop_last();
        assert(groups_distinct(dl)) by {
            assert(forall|i: int| 0 <= i < dl.len() ==> #[trigger] dl[i] == gs[i]);
        }
        lemma_groups_view_char(dl);
        assert(forall|i: int| 0 <= i < dl.len() ==> #[trigger] dl[i] == gs[i]);
        assert forall|a: Seq<u8>| #[trigger] groups_view(gs).contains_key(a) implies exists|i: int|
            0 <= i < gs.len() && #[trigger] gs[i].0@ == a by {
            if a == gs.last().0@ {
                assert(gs[gs.len() - 1].0@ == a);
            } else {
                assert(groups_view(dl).contains_key(a));
                let i = choose|i: int| 0 <= i < dl.len() && #[trigger] dl[i].0@ == a;
                assert(gs[i].0@ == a);
            }
        }
        assert forall|a: Seq<u8>| (exists|i: int| 0 <= i < gs.len() && #[trigger] gs[i].0@
            == a) implies groups_view(gs).contains_key(a) by {
            let i = choose|i: int| 0 <= i < gs.len() && #[trigger] gs[i].0@ == a;
            if i < gs.len() - 1 {
                assert(dl[i].0@ == a);
                assert(groups_view(dl).contains_key(a));
            }
        }
        assert forall|i: int| 0 <= i < gs.len() implies groups_view(gs).contains_key(
            #[trigger] gs[i].0@,
        ) && groups_view(gs)[gs[i].0@] == cols_view(gs[i].1@) by {
            if i < gs.len() - 1 {
                assert(dl[i].0@ == gs[i].0@ && dl[i].1@ == gs[i].1@);
                assert(gs[i].0@ != gs.last().0@);
            }
        }
    }
}

/// With distinct addresses the map has exactly one key per group.
pub proof fn lemma_groups_view_dom_len(gs: Seq<(Address, Vec<(Vec<u8>, Vec<u8>)>)>)
    requires
        groups_distinct(gs),
    ensures
        groups_view(gs).dom().len() == gs.len(),
        groups_view(gs).dom().finite(),
    decreases gs.len(),
{
    if gs.len() == 0 {
        assert(groups_view(gs).dom() =~= Set::<Seq<u8>>::empty());
    } else {
        lemma_groups_view_dom_len(gs.drop_last());
        lemma_groups_view_char(gs.drop_last());
        let d0 = groups_view(gs.drop_last()).dom();
        assert(groups_view(gs).dom() =~= d0.insert(gs.last().0@));
        assert(!d0.contains(gs.last().0@));
        vstd::set::axiom_set_insert_len(d0, gs.last().0@);
    }
}

/// Updating one column in place updates the map at that column.
pub proof fn lemma_cols_view_update(cols: Seq<(Vec<u8>, Vec<u8>)>, i: int, e: (Vec<u8>, Vec<u8>))
    requires
        cols_distinct(cols),
        0 <= i < cols.len(),
        cols[i].0@ == e.0@,
    ensures
        cols_view(cols.update(i, e)) == cols_view(cols).insert(e.0@, e.1@),
    decreases cols.len(),
{
    if i == cols.len() - 1 {
        assert(cols.update(i, e).drop_last() =~= cols.drop_last());
        assert(cols.update(i, e).last() == e);
        assert(cols_view(cols.update(i, e)) =~= cols_view(cols).insert(e.0@, e.1@));
    } else {
        assert(cols.update(i, e).drop_last() =~= cols.drop_last().update(i, e));
        assert(cols.update(i, e).last() == cols.last());
        assert(cols_distinct(cols.drop_last())) by {
            assert(forall|t: int|
                0 <= t < cols.len() - 1 ==> #[trigger] cols.drop_last()[t] == cols[t]);
        }
        assert(cols.drop_last()[i] == cols[i]);
        lemma_cols_view_update(cols.drop_last(), i, e);
        assert(cols.last().0@ != e.0@);
        assert(cols_view(cols.drop_last()).insert(e.0@, e.1@).insert(cols.last().0@, cols.last().1@)
            =~= cols_view(cols.drop_last()).insert(cols.last().0@, cols.last().1@).insert(
            e.0@,
            e.1@,
        ));
        assert(cols_view(cols.update(i, e)) =~= cols_view(cols).insert(e.0@, e.1@));
    }
}

/// Updating one group in place updates the map at that address.
pub proof fn lemma_groups_view_update(
    gs: Seq<(Address, Vec<(Vec<u8>, Vec<u8>)>)>,
    i: int,
    g: (Address, Vec<(Vec<u8>, Vec<u8>)>),
)
    requires
        groups_distinct(gs),
        0 <= i < gs.len(),
        g.0@ == gs[i].0@,
    ensures
        groups_view(gs.update(i, g)) == groups_view(gs).insert(g.0@, cols_view(g.1@)),
    decreases gs.len(),
{
    if i == gs.len() - 1 {
        assert(gs.update(i, g).drop_last() =~= gs.drop_last());
        assert(gs.update(i, g).last() == g);
        assert(groups_view(gs.update(i, g)) =~= groups_view(gs).insert(g.0@, cols_view(g.1@)));
    } else {
        assert(gs.update(i, g).drop_last() =~= gs.drop_last().update(i, g));
        assert(gs.update(i, g).last() == gs.last());
        assert(groups_distinct(gs.drop_last())) by {
            assert(forall|t: int|
                0 <= t < gs.len() - 1 ==> #[trigger] gs.drop_last()[t] == gs[t]);
        }
        lemma_groups_view_update(gs.drop_last(), i, g);
        assert(gs.last().0@ != g.0@);
        assert(groups_view(gs.drop_last()).insert(g.0@, cols_view(g.1@)).insert(
            gs.last().0@,
            cols_view(gs.last().1@),
        ) =~= groups_view(gs.drop_last()).insert(gs.last().0@, cols_view(gs.last().1@)).insert(
            g.0@,
            cols_view(g.1@),
        ));
        assert(groups_view(gs.update(i, g)) =~= groups_view(gs).insert(g.0@, cols_view(g.1@)));
    }
}

} // verus!
