//! Writing a file: fresh blocks for its bytes, and for each block the bytes
//! to push to its first replica together with the rest of its chain.

use vstd::prelude::*;
use vstd::string::*;

use crate::address::{uri_of, AddrModel, SerializableNodeAddress};
use crate::allocator::{block_count, fresh_ids, num_blocks};
use crate::error::DfsError;
use crate::metadata::{
    has_key, keys, lemma_lookup, lemma_strs_push, lemma_views_push, lookup, strs, views,
    BlockRecord, ClusterModel, NameNodeState,
};

verus! {

/// The bytes of block `i` of a file cut into blocks of `block_size` bytes.
pub open spec fn chunk(data: Seq<u8>, block_size: nat, i: nat) -> Seq<u8> {
    let end = if (i + 1) * block_size < data.len() {
        ((i + 1) * block_size) as int
    } else {
        data.len() as int
    };
    data.subrange((i * block_size) as int, end)
}

/// One block's share of a write: its bytes, the replica to send them to,
/// and the `host:port` of each further replica of the chain, in order.
#[derive(Debug, Clone)]
pub struct BlockWrite {
    pub block_id: String,
    pub data: Vec<u8>,
    pub first: SerializableNodeAddress,
    pub remaining: Vec<String>,
}

impl View for BlockWrite {
    type V = (Seq<char>, Seq<u8>, AddrModel, Seq<Seq<char>>);

    open spec fn view(&self) -> Self::V {
        (self.block_id@, self.data@, self.first@, strs(self.remaining@))
    }
}

impl ClusterModel {
    /// The chain after the first replica, as `host:port` texts.
    pub open spec fn chain_uris(self, replicas: Seq<Seq<char>>) -> Seq<Seq<char>> {
        replicas.drop_first().map_values(|n: Seq<char>| uri_of(lookup(self.nodes, n)))
    }

    /// The writes for `data` stored in fresh blocks `ids`, all of which are
    /// held by the initial replicas.
    pub open spec fn planned_writes(self, ids: Seq<Seq<char>>, data: Seq<u8>) -> Seq<(Seq<char>, Seq<u8>, AddrModel, Seq<Seq<char>>)> {
        let reps = self.initial_replicas();
        ids.map(
            |i: int, b: Seq<char>|
                (
                    b,
                    chunk(data, self.block_size, i as nat),
                    lookup(self.nodes, reps[0]),
                    self.chain_uris(reps),
                ),
        )
    }
}

/// Relies on uuid::Uuid::new_v4, whose text form is the hyphenated form of
/// 36 characters.
#[verifier::external_body]
fn random_uuid() -> (r: String)
    ensures
        r@.len() == 36,
{
    uuid::Uuid::new_v4().to_string()
}

proof fn lemma_chunk_bounds(len: int, bs: int, i: int)
    requires
        bs >= 1,
        len >= 1,
        0 <= i < (len - 1) / bs + 1,
    ensures
        i * bs < len,
        i * bs + bs <= (i + 1) * bs,
{
    vstd::arithmetic::div_mod::lemma_fundamental_div_mod(len - 1, bs);
    let q = (len - 1) / bs;
    assert(i <= q);
    assert(i * bs <= q * bs) by (nonlinear_arith)
        requires
            i <= q,
            bs >= 1,
    ;
    assert(q * bs <= len - 1) by (nonlinear_arith)
        requires
            len - 1 == bs * q + (len - 1) % bs,
            (len - 1) % bs >= 0,
    ;
    assert(i * bs + bs == (i + 1) * bs) by (nonlinear_arith);
}

/// Once a file is written under fresh block ids, reading it lists, for each
/// of its blocks, the addresses of the replicas recorded for that block; the
/// first of them is where the write sends the block's bytes, and the others,
/// as `host:port`, are the chain that the write hands on.
pub proof fn lemma_write_then_read(m: ClusterModel, f: Seq<char>, ids: Seq<Seq<char>>, data: Seq<u8>)
    requires
        m.wf(),
        fresh_ids(m, ids),
        m.nodes.len() > 0,
        m.repl_factor > 0,
    ensures
        ({
            let a = m.assigned(f, ids);
            let lists = a.replica_addresses(lookup(a.files, f));
            let w = m.planned_writes(ids, data);
            &&& has_key(a.files, f)
            &&& lookup(a.files, f) == ids
            &&& lists.len() == ids.len()
            &&& forall|j: int| 0 <= j < ids.len() ==> lookup(a.blocks, #[trigger] ids[j]) == m.initial_replicas()
            &&& forall|j: int| 0 <= j < ids.len() ==> (#[trigger] lists[j]) == m.addresses_of(m.initial_replicas())
            &&& forall|j: int| 0 <= j < ids.len() ==> {
                &&& (#[trigger] w[j]).0 == ids[j]
                &&& w[j].2 == lists[j][0]
                &&& w[j].3 == lists[j].drop_first().map_values(|x: AddrModel| uri_of(x))
            }
        }),
{
    let a = m.assigned(f, ids);
    crate::allocator::lemma_assigned_wf(m, f, ids);
    crate::allocator::lemma_initial_replicas_ok(m);
    let fi = if has_key(m.files, f) { crate::allocator::key_index(m.files, f) } else { m.files.len() as int };
    assert(a.files[fi] == (f, ids));
    lemma_lookup(a.files, f, fi);
    let reps = m.initial_replicas();
    assert forall|j: int| 0 <= j < ids.len() implies lookup(a.blocks, #[trigger] ids[j]) == reps by {
        assert(a.blocks[m.blocks.len() + j] == (ids[j], reps));
        lemma_lookup(a.blocks, ids[j], m.blocks.len() + j);
    }
    let lists = a.replica_addresses(ids);
    assert(reps.len() > 0);
    assert(has_key(m.nodes, reps[0]));
    assert forall|j: int| 0 <= j < ids.len() implies {
        &&& (#[trigger] m.planned_writes(ids, data)[j]).0 == ids[j]
        &&& m.planned_writes(ids, data)[j].2 == lists[j][0]
        &&& m.planned_writes(ids, data)[j].3 == lists[j].drop_first().map_values(|x: AddrModel| uri_of(x))
    } by {
        assert(lookup(a.blocks, ids[j]) == reps);
        assert(lists[j] == m.addresses_of(reps));
        assert(lists[j].drop_first().map_values(|x: AddrModel| uri_of(x)) =~= m.chain_uris(reps));
    }
}

/// The shape of a minted block id: `block_` and 36 more characters.
pub open spec fn minted_shape(id: Seq<char>) -> bool {
    id.len() == 42 && id.take(6) == "block_"@
}

/// No block in use has an id of the minted shape, so a single minted id
/// cannot collide.
pub open spec fn no_minted_ids_in_use(m: ClusterModel) -> bool {
    forall|i: int| 0 <= i < m.blocks.len() ==> !minted_shape(#[trigger] m.blocks[i].0)
}

proof fn lemma_single_minted_id_fresh(m: ClusterModel, ids: Seq<Seq<char>>)
    requires
        no_minted_ids_in_use(m),
        ids.len() == 1,
        minted_shape(ids[0]),
    ensures
        fresh_ids(m, ids),
{
    assert forall|j: int| 0 <= j < ids.len() implies !has_key(m.blocks, #[trigger] ids[j]) by {
        if has_key(m.blocks, ids[j]) {
            let k = choose|k: int| 0 <= k < m.blocks.len() && m.blocks[k].0 == ids[j];
            assert(!minted_shape(m.blocks[k].0));
        }
    }
}

impl NameNodeState {
    /// `count` block ids of the form `block_<uuid>`, each with a random UUID.
    fn mint_block_ids(count: usize) -> (r: Vec<String>)
        ensures
            r@.len() == count,
            forall|i: int| 0 <= i < count ==> minted_shape(#[trigger] strs(r@)[i]),
    {
        let mut ids: Vec<String> = Vec::new();
        let mut i: usize = 0;
        while i < count
            invariant
                i <= count,
                ids@.len() == i,
                forall|k: int| 0 <= k < i ==> minted_shape(#[trigger] strs(ids@)[k]),
            decreases count - i,
        {
            proof { reveal_strlit("block_"); }
            let mut id = String::from_str("block_");
            let u = random_uuid();
            id.append(u.as_str());
            assert(id@.take(6) =~= "block_"@);
            let ghost before = ids@;
            ids.push(id);
            proof {
                lemma_strs_push(before, id);
            }
            i += 1;
        }
        ids
    }

    /// Gives `filename` fresh blocks for `byte_length` bytes under freshly
    /// minted ids, each held by the first `min(replication factor,
    /// registered nodes)` registered nodes. Refused with `InvalidArgument`
    /// when the block size is zero. Otherwise it can fail only when a
    /// minted id collides (`IdCollision`, nothing recorded), which cannot
    /// happen for a one-block file while no block id in use has the minted
    /// shape.
    pub fn assign_blocks_for_file(&mut self, filename: String, byte_length: usize) -> (r: Result<Vec<BlockRecord>, DfsError>)
        requires
            old(self)@.wf(),
        ensures
            final(self)@.wf(),
            old(self)@.block_size == 0 <==> r == Err::<Vec<BlockRecord>, DfsError>(DfsError::InvalidArgument),
            r is Err ==> final(self)@ == old(self)@,
            old(self)@.block_size > 0 && r is Err ==> r == Err::<Vec<BlockRecord>, DfsError>(DfsError::IdCollision),
            old(self)@.block_size > 0 && block_count(byte_length as nat, old(self)@.block_size) == 1
                && no_minted_ids_in_use(old(self)@) ==> r is Ok,
            r is Ok ==> ({
                let ids = keys(views(r->Ok_0@));
                &&& r->Ok_0@.len() == block_count(byte_length as nat, old(self)@.block_size)
                &&& fresh_ids(old(self)@, ids)
                &&& final(self)@ == old(self)@.assigned(filename@, ids)
                &&& views(r->Ok_0@) == old(self)@.new_blocks(ids)
            }),
    {
        if self.block_size == 0 {
            return Err(DfsError::InvalidArgument);
        }
        let count = num_blocks(byte_length, self.block_size);
        let ids = Self::mint_block_ids(count);
        let ghost sids = strs(ids@);
        proof {
            if count == 1 && no_minted_ids_in_use(self@) {
                assert(minted_shape(sids[0]));
                lemma_single_minted_id_fresh(self@, sids);
            }
        }
        match self.assign_blocks_with_ids(filename, byte_length, ids) {
            Ok(blocks) => {
                assert(keys(views(blocks@)) =~= sids);
                Ok(blocks)
            },
            Err(_) => Err(DfsError::IdCollision),
        }
    }

    /// The addresses of the nodes of a replica list.
    fn chain_of(&self, replicas: &Vec<String>) -> (r: (SerializableNodeAddress, Vec<String>))
        requires
            self@.wf(),
            self@.replicas_ok(strs(replicas@)),
            replicas@.len() > 0,
        ensures
            r.0@ == lookup(self@.nodes, strs(replicas@)[0]),
            strs(r.1@) == self@.chain_uris(strs(replicas@)),
    {
        let ghost m = self@;
        let ghost rs = strs(replicas@);
        assert(has_key(m.nodes, rs[0]));
        let first = match self.find_node(&replicas[0]) {
            Some(k) => {
                proof { lemma_lookup(m.nodes, rs[0], k as int); }
                self.id_to_data_nodes[k].address.duplicate()
            },
            None => {
                proof { assert(false); }
                SerializableNodeAddress::new(String::new(), 0)
            },
        };
        let mut rest: Vec<String> = Vec::new();
        let mut i: usize = 1;
        while i < replicas.len()
            invariant
                m == self@,
                m.wf(),
                rs == strs(replicas@),
                m.replicas_ok(rs),
                1 <= i <= replicas.len(),
                strs(rest@) == m.chain_uris(rs.take(i as int)),
            decreases replicas.len() - i,
        {
            assert(has_key(m.nodes, rs[i as int]));
            let k = match self.find_node(&replicas[i]) {
                Some(k) => k,
                None => {
                    proof { assert(false); }
                    0
                },
            };
            proof { lemma_lookup(m.nodes, rs[i as int], k as int); }
            let u = self.id_to_data_nodes[k].address.uri();
            let ghost before = rest@;
            rest.push(u);
            proof {
                lemma_strs_push(before, u);
                assert(rs.take(i + 1).drop_first() =~= rs.take(i as int).drop_first().push(rs[i as int]));
            }
            i += 1;
            assert(strs(rest@) =~= m.chain_uris(rs.take(i as int)));
        }
        assert(rs.take(i as int) =~= rs);
        (first, rest)
    }

    /// Stores `data` under fresh blocks `ids` for `filename`, and returns
    /// for each block the bytes to push and the chain to push them down.
    /// Refused with `ResourceExhausted`, before anything is recorded, when no
    /// block could get a replica; otherwise refused as
    /// `assign_blocks_with_ids` refuses.
    pub fn write_file_with_ids(&mut self, filename: String, data: &Vec<u8>, ids: Vec<String>) -> (r: Result<Vec<BlockWrite>, DfsError>)
        requires
            old(self)@.wf(),
        ensures
            final(self)@.wf(),
            ({
                let m = old(self)@;
                let placeable = m.nodes.len() > 0 && m.repl_factor > 0;
                let ok = m.block_size > 0 && ids@.len() == block_count(data@.len(), m.block_size)
                    && fresh_ids(m, strs(ids@));
                &&& !placeable ==> r == Err::<Vec<BlockWrite>, DfsError>(DfsError::ResourceExhausted)
                    && final(self)@ == m
                &&& placeable && !ok ==> r == Err::<Vec<BlockWrite>, DfsError>(DfsError::InvalidArgument)
                    && final(self)@ == m
                &&& placeable && ok ==> r is Ok && final(self)@ == m.assigned(filename@, strs(ids@))
                    && views(r->Ok_0@) == m.planned_writes(strs(ids@), data@)
            }),
    {
        if self.id_to_data_nodes.len() == 0 || self.repl_factor == 0 {
            return Err(DfsError::ResourceExhausted);
        }
        let ghost m = self@;
        let ghost sids = strs(ids@);
        let blocks = match self.assign_blocks_with_ids(filename, data.len(), ids) {
            Ok(b) => b,
            Err(e) => return Err(e),
        };
        let bs = self.block_size as usize;
        let len = data.len();
        let replicas = self.initial_replicas();
        proof {
            crate::allocator::lemma_initial_replicas_ok(m);
        }
        let ghost after = self@;
        assert(after.nodes == m.nodes);
        assert(strs(replicas@) == m.initial_replicas());
        assert(m.replicas_ok(strs(replicas@)));
        assert(after.replicas_ok(strs(replicas@)));
        let chain = self.chain_of(&replicas);
        let mut out: Vec<BlockWrite> = Vec::new();
        let mut i: usize = 0;
        while i < blocks.len()
            invariant
                self@ == after,
                after.nodes == m.nodes,
                after.block_size == m.block_size,
                bs == m.block_size,
                bs > 0,
                len == data@.len(),
                blocks@.len() == sids.len(),
                sids.len() == block_count(len as nat, bs as nat),
                views(blocks@) == m.new_blocks(sids),
                strs(replicas@) == m.initial_replicas(),
                chain.0@ == lookup(m.nodes, m.initial_replicas()[0]),
                strs(chain.1@) == m.chain_uris(m.initial_replicas()),
                i <= blocks.len(),
                views(out@) == m.planned_writes(sids, data@).take(i as int),
            decreases blocks.len() - i,
        {
            assert(views(blocks@)[i as int].0 == sids[i as int]);
            proof {
                if len > 0 {
                    crate::allocator::lemma_ceil(len as int, bs as int);
                    lemma_chunk_bounds(len as int, bs as int, i as int);
                } else {
                    assert(i == 0);
                }
            }
            let start: usize = i * bs;
            let end: usize = if len - start > bs { start + bs } else { len };
            let mut piece: Vec<u8> = Vec::new();
            let mut j: usize = start;
            while j < end
                invariant
                    start <= j <= end,
                    end <= data@.len(),
                    piece@ == data@.subrange(start as int, j as int),
                decreases end - j,
            {
                piece.push(data[j]);
                j += 1;
                assert(piece@ =~= data@.subrange(start as int, j as int));
            }
            let w = BlockWrite {
                block_id: blocks[i].block_id.clone(),
                data: piece,
                first: chain.0.duplicate(),
                remaining: crate::metadata::copy_strings(&chain.1),
            };
            proof {
                if len > 0 {
                    assert(start as int == i as int * bs as int);
                    assert((i as int + 1) * (bs as int) == (i as int) * (bs as int) + bs as int) by (nonlinear_arith);
                } else {
                    assert(0 * bs as int == 0);
                    assert(1 * (bs as int) == bs as int);
                }
                assert(piece@ == chunk(data@, bs as nat, i as nat));
                assert(w@ == m.planned_writes(sids, data@)[i as int]);
            }
            let ghost before = out@;
            out.push(w);
            proof {
                lemma_views_push(before, w);
                assert(m.planned_writes(sids, data@).take(i + 1) =~= m.planned_writes(sids, data@).take(i as int).push(w@));
            }
            i += 1;
        }
        assert(m.planned_writes(sids, data@).take(i as int) =~= m.planned_writes(sids, data@));
        Ok(out)
    }

    /// Stores `data` for `filename` under freshly minted block ids, and
    /// returns for each block the bytes to push and the chain to push them
    /// down. Refused with `ResourceExhausted` exactly when no block could get
    /// a replica, and with `InvalidArgument` exactly when, besides, the block
    /// size is zero; otherwise it fails only when a minted id collides
    /// (`IdCollision`), which cannot happen for a one-block file while no
    /// block id in use has the minted shape.
    pub fn write_file(&mut self, filename: String, data: &Vec<u8>) -> (r: Result<Vec<BlockWrite>, DfsError>)
        requires
            old(self)@.wf(),
        ensures
            final(self)@.wf(),
            ({
                let m = old(self)@;
                let placeable = m.nodes.len() > 0 && m.repl_factor > 0;
                &&& !placeable <==> r == Err::<Vec<BlockWrite>, DfsError>(DfsError::ResourceExhausted)
                &&& placeable && m.block_size == 0 <==> r == Err::<Vec<BlockWrite>, DfsError>(DfsError::InvalidArgument)
                &&& placeable && m.block_size > 0 && r is Err ==> r == Err::<Vec<BlockWrite>, DfsError>(DfsError::IdCollision)
                &&& placeable && m.block_size > 0 && block_count(data@.len(), m.block_size) == 1
                    && no_minted_ids_in_use(m) ==> r is Ok
                &&& r is Err ==> final(self)@ == m
                &&& r is Ok ==> {
                    let ids = r->Ok_0@.map_values(|w: BlockWrite| w.block_id@);
                    &&& ids.len() == block_count(data@.len(), m.block_size)
                    &&& fresh_ids(m, ids)
                    &&& final(self)@ == m.assigned(filename@, ids)
                    &&& views(r->Ok_0@) == m.planned_writes(ids, data@)
                }
            }),
    {
        if self.id_to_data_nodes.len() == 0 || self.repl_factor == 0 {
            return Err(DfsError::ResourceExhausted);
        }
        if self.block_size == 0 {
            return Err(DfsError::InvalidArgument);
        }
        let count = num_blocks(data.len(), self.block_size);
        let ids = Self::mint_block_ids(count);
        let ghost sids = strs(ids@);
        let ghost m = self@;
        proof {
            if count == 1 && no_minted_ids_in_use(m) {
                assert(minted_shape(sids[0]));
                lemma_single_minted_id_fresh(m, sids);
            }
        }
        let r = match self.write_file_with_ids(filename, data, ids) {
            Ok(w) => Ok(w),
            Err(_) => Err(DfsError::IdCollision),
        };
        proof {
            if r is Ok {
                let w = r->Ok_0@;
                let p = m.planned_writes(sids, data@);
                assert(views(w).len() == w.len());
                assert(p.len() == sids.len());
                assert forall|k: int| 0 <= k < sids.len() implies w.map_values(|x: BlockWrite| x.block_id@)[k] == sids[k] by {
                    assert(views(w)[k] == p[k]);
                }
                assert(w.map_values(|x: BlockWrite| x.block_id@) =~= sids);
            }
        }
        r
    }
}

} // verus!
