//! Block allocation: how many blocks a file needs, and which nodes hold them.

use vstd::prelude::*;

use crate::error::DfsError;
use crate::metadata::{
    copy_strings, has_key, lemma_strs_push, lemma_views_push, strs, views, BlockRecord,
    ClusterModel, FileRecord, NameNodeState,
};

verus! {

/// The number of blocks of a file of `byte_length` bytes: the length divided
/// by the block size, rounded up, and never less than one.
pub open spec fn block_count(byte_length: nat, block_size: nat) -> nat
    recommends
        block_size > 0,
{
    if byte_length == 0 {
        1
    } else {
        ((byte_length + block_size - 1) / block_size as int) as nat
    }
}

pub(crate) proof fn lemma_ceil(n: int, b: int)
    requires
        n >= 1,
        b >= 1,
    ensures
        (n - 1) / b + 1 == (n + b - 1) / b,
        (n + b - 1) / b <= n,
{
    vstd::arithmetic::div_mod::lemma_fundamental_div_mod(n - 1, b);
    let q = (n - 1) / b;
    let r = (n - 1) % b;
    assert(n + b - 1 == (q + 1) * b + r) by (nonlinear_arith)
        requires
            n - 1 == b * q + r,
    ;
    assert(0 <= r < b);
    vstd::arithmetic::div_mod::lemma_fundamental_div_mod_converse(n + b - 1, b, q + 1, r);
    assert(q >= 0) by (nonlinear_arith)
        requires
            n - 1 == b * q + r,
            0 <= r < b,
            n >= 1,
    ;
    assert(q + 1 <= n) by (nonlinear_arith)
        requires
            n - 1 == b * q + r,
            0 <= r,
            b >= 1,
            q >= 0,
    ;
}

/// The number of blocks of a file of `byte_length` bytes.
pub fn num_blocks(byte_length: usize, block_size: u32) -> (r: usize)
    requires
        block_size > 0,
    ensures
        r == block_count(byte_length as nat, block_size as nat),
        1 <= r,
        byte_length > 0 ==> r <= byte_length,
{
    if byte_length == 0 {
        1
    } else {
        proof { lemma_ceil(byte_length as int, block_size as int); }
        (byte_length - 1) / (block_size as usize) + 1
    }
}

/// The first position of `k` in an association list.
pub open spec fn key_index<V>(s: Seq<(Seq<char>, V)>, k: Seq<char>) -> int {
    choose|i: int| 0 <= i < s.len() && s[i].0 == k
}

/// Block ids that no block uses and that are pairwise different.
pub open spec fn fresh_ids(m: ClusterModel, ids: Seq<Seq<char>>) -> bool {
    &&& ids.no_duplicates()
    &&& forall|j: int| 0 <= j < ids.len() ==> !has_key(m.blocks, #[trigger] ids[j])
}

impl ClusterModel {
    /// The replicas of a fresh block: the first `min(replication factor,
    /// registered nodes)` registered nodes.
    pub open spec fn initial_replicas(self) -> Seq<Seq<char>> {
        let n = if self.repl_factor < self.nodes.len() {
            self.repl_factor
        } else {
            self.nodes.len()
        };
        self.node_ids().take(n as int)
    }

    /// The records of fresh blocks under `ids`.
    pub open spec fn new_blocks(self, ids: Seq<Seq<char>>) -> Seq<(Seq<char>, Seq<Seq<char>>)> {
        ids.map_values(|b: Seq<char>| (b, self.initial_replicas()))
    }

    /// The metadata once `filename` has been given the fresh blocks `ids`:
    /// its entry lists exactly those blocks (an earlier entry is replaced),
    /// and the blocks are recorded with their replicas.
    pub open spec fn assigned(self, filename: Seq<char>, ids: Seq<Seq<char>>) -> ClusterModel {
        let files = if has_key(self.files, filename) {
            self.files.update(key_index(self.files, filename), (filename, ids))
        } else {
            self.files.push((filename, ids))
        };
        ClusterModel { files, blocks: self.blocks + self.new_blocks(ids), ..self }
    }
}

pub(crate) proof fn lemma_initial_replicas_ok(m: ClusterModel)
    requires
        m.wf(),
    ensures
        m.replicas_ok(m.initial_replicas()),
{
    let r = m.initial_replicas();
    assert forall|a: int, b: int| 0 <= a < r.len() && 0 <= b < r.len() && a != b implies r[a] != r[b] by {
        assert(r[a] == m.nodes[a].0);
        assert(r[b] == m.nodes[b].0);
    }
    assert forall|j: int| 0 <= j < r.len() implies has_key(m.nodes, #[trigger] r[j]) by {
        assert(r[j] == m.nodes[j].0);
    }
}

pub(crate) proof fn lemma_assigned_wf(m: ClusterModel, filename: Seq<char>, ids: Seq<Seq<char>>)
    requires
        m.wf(),
        fresh_ids(m, ids),
    ensures
        m.assigned(filename, ids).wf(),
{
    let a = m.assigned(filename, ids);
    let nb = m.new_blocks(ids);
    lemma_initial_replicas_ok(m);
    assert forall|i: int, j: int| 0 <= i < a.blocks.len() && 0 <= j < a.blocks.len() && i != j implies a.blocks[i].0 != a.blocks[j].0 by {
        if i < m.blocks.len() && j >= m.blocks.len() {
            assert(a.blocks[j].0 == ids[j - m.blocks.len()]);
            assert(!has_key(m.blocks, ids[j - m.blocks.len()]));
        } else if j < m.blocks.len() && i >= m.blocks.len() {
            assert(a.blocks[i].0 == ids[i - m.blocks.len()]);
            assert(!has_key(m.blocks, ids[i - m.blocks.len()]));
        } else if i >= m.blocks.len() && j >= m.blocks.len() {
            assert(a.blocks[i].0 == ids[i - m.blocks.len()]);
            assert(a.blocks[j].0 == ids[j - m.blocks.len()]);
        }
    }
    assert forall|i: int| 0 <= i < a.blocks.len() implies a.replicas_ok(#[trigger] a.blocks[i].1) by {
        if i < m.blocks.len() {
            assert(a.blocks[i] == m.blocks[i]);
        } else {
            assert(a.blocks[i].1 == m.initial_replicas());
        }
    }
    assert forall|i: int, j: int| 0 <= i < a.files.len() && 0 <= j < a.files[i].1.len() implies has_key(
        a.blocks,
        #[trigger] a.files[i].1[j],
    ) by {
        let b = a.files[i].1[j];
        if a.files[i].0 == filename {
            assert(a.files[i].1 == ids) by {
                if has_key(m.files, filename) {
                    let k = key_index(m.files, filename);
                    if i != k {
                        assert(m.files[i].0 == m.files[k].0);
                    }
                }
            }
            assert(a.blocks[m.blocks.len() + j].0 == b);
        } else {
            assert(a.files[i] == m.files[i]);
            assert(has_key(m.blocks, b));
            let k = choose|k: int| 0 <= k < m.blocks.len() && m.blocks[k].0 == b;
            assert(a.blocks[k].0 == b);
        }
    }
    assert forall|i: int, j: int| 0 <= i < a.files.len() && 0 <= j < a.files.len() && i != j implies a.files[i].0 != a.files[j].0 by {
        if has_key(m.files, filename) {
            let k = key_index(m.files, filename);
            assert(m.files[k].0 == filename);
        } else {
            if i == m.files.len() {
                assert(m.files[j].0 != filename);
            }
            if j == m.files.len() {
                assert(m.files[i].0 != filename);
            }
        }
    }
}

/// Every block allocated for a file gets `min(replication factor,
/// registered nodes)` replicas, all registered and pairwise different.
pub proof fn lemma_fresh_block_replica_count(m: ClusterModel, ids: Seq<Seq<char>>)
    requires
        m.wf(),
    ensures
        forall|j: int|
            0 <= j < ids.len() ==> {
                let r = (#[trigger] m.new_blocks(ids)[j]).1;
                &&& r.len() == if m.repl_factor < m.nodes.len() {
                    m.repl_factor
                } else {
                    m.nodes.len()
                }
                &&& m.replicas_ok(r)
            },
{
    lemma_initial_replicas_ok(m);
}

impl NameNodeState {
    /// The ids of the first `min(replication factor, registered nodes)` nodes.
    pub fn initial_replicas(&self) -> (r: Vec<String>)
        ensures
            strs(r@) == self@.initial_replicas(),
    {
        let n: usize = if (self.repl_factor as usize) < self.id_to_data_nodes.len() {
            self.repl_factor as usize
        } else {
            self.id_to_data_nodes.len()
        };
        let mut out: Vec<String> = Vec::new();
        let mut i: usize = 0;
        while i < n
            invariant
                n <= self.id_to_data_nodes.len(),
                n == self@.initial_replicas().len(),
                i <= n,
                strs(out@) == self@.node_ids().take(i as int),
            decreases n - i,
        {
            let ghost before = out@;
            let id = self.id_to_data_nodes[i].id.clone();
            out.push(id);
            proof { lemma_strs_push(before, id); }
            i += 1;
            assert(strs(out@) =~= self@.node_ids().take(i as int));
        }
        out
    }

    /// Whether `ids` are pairwise different and used by no block.
    pub fn ids_are_fresh(&self, ids: &Vec<String>) -> (r: bool)
        ensures
            r == fresh_ids(self@, strs(ids@)),
    {
        let ghost s = strs(ids@);
        let mut i: usize = 0;
        while i < ids.len()
            invariant
                s == strs(ids@),
                i <= ids.len(),
                forall|a: int, b: int| 0 <= a < i && 0 <= b < i && a != b ==> s[a] != s[b],
                forall|j: int| 0 <= j < i ==> !has_key(self@.blocks, #[trigger] s[j]),
            decreases ids.len() - i,
        {
            match self.find_block(&ids[i]) {
                Some(k) => {
                    assert(self@.blocks[k as int].0 == s[i as int]);
                    assert(has_key(self@.blocks, s[i as int]));
                    return false;
                },
                None => {},
            }
            let mut j: usize = 0;
            while j < i
                invariant
                    s == strs(ids@),
                    i < ids.len(),
                    j <= i,
                    forall|b: int| 0 <= b < j ==> s[i as int] != s[b],
                decreases i - j,
            {
                if ids[i] == ids[j] {
                    assert(s[i as int] == s[j as int]);
                    assert(!s.no_duplicates());
                    return false;
                }
                j += 1;
            }
            i += 1;
        }
        true
    }

    /// Gives `filename` fresh blocks under the given ids, enough for
    /// `byte_length` bytes, each held by the first `min(replication factor,
    /// registered nodes)` registered nodes; refused when the block size is
    /// zero, when the number of ids does not match, or when an id is repeated
    /// or already in use.
    pub fn assign_blocks_with_ids(&mut self, filename: String, byte_length: usize, ids: Vec<String>) -> (r: Result<Vec<BlockRecord>, DfsError>)
        requires
            old(self)@.wf(),
        ensures
            final(self)@.wf(),
            ({
                let m = old(self)@;
                let ok = m.block_size > 0 && ids@.len() == block_count(byte_length as nat, m.block_size)
                    && fresh_ids(m, strs(ids@));
                &&& ok ==> r is Ok && final(self)@ == m.assigned(filename@, strs(ids@))
                    && views(r->Ok_0@) == m.new_blocks(strs(ids@))
                &&& !ok ==> r == Err::<Vec<BlockRecord>, DfsError>(DfsError::InvalidArgument)
                    && final(self)@ == m
            }),
    {
        if self.block_size == 0 {
            return Err(DfsError::InvalidArgument);
        }
        let count = num_blocks(byte_length, self.block_size);
        if ids.len() != count || !self.ids_are_fresh(&ids) {
            return Err(DfsError::InvalidArgument);
        }
        let ghost m = self@;
        let ghost sids = strs(ids@);
        let replicas = self.initial_replicas();
        let mut out: Vec<BlockRecord> = Vec::new();
        let mut i: usize = 0;
        while i < ids.len()
            invariant
                sids == strs(ids@),
                strs(replicas@) == m.initial_replicas(),
                i <= ids.len(),
                self@ == (ClusterModel { blocks: m.blocks + m.new_blocks(sids.take(i as int)), ..m }),
                views(out@) == m.new_blocks(sids.take(i as int)),
            decreases ids.len() - i,
        {
            let reps = copy_strings(&replicas);
            let reps2 = copy_strings(&replicas);
            let ghost before_blocks = self.block_to_data_node_ids@;
            let ghost before_out = out@;
            let b1 = BlockRecord { block_id: ids[i].clone(), replica_node_ids: reps };
            let b2 = BlockRecord { block_id: ids[i].clone(), replica_node_ids: reps2 };
            proof {
                assert(b1@ == (sids[i as int], m.initial_replicas()));
                assert(b2@ == b1@);
            }
            self.block_to_data_node_ids.push(b1);
            out.push(b2);
            proof {
                lemma_views_push(before_blocks, b1);
                lemma_views_push(before_out, b2);
                assert(sids.take(i + 1) =~= sids.take(i as int).push(sids[i as int]));
                assert(m.new_blocks(sids.take(i + 1)) =~= m.new_blocks(sids.take(i as int)).push(b1@));
            }
            i += 1;
            proof {
                assert(views(self.block_to_data_node_ids@) =~= m.blocks + m.new_blocks(sids.take(i as int)));
                assert(self@ =~= (ClusterModel { blocks: m.blocks + m.new_blocks(sids.take(i as int)), ..m }));
            }
        }
        assert(sids.take(i as int) =~= sids);
        let ghost mid = self@;
        match self.find_file(&filename) {
            Some(fi) => {
                self.file_name_to_blocks[fi] = FileRecord { filename, block_ids: ids };
                proof {
                    let k = key_index(m.files, filename@);
                    assert(m.files[k].0 == filename@);
                    if k != fi {
                        assert(m.files[fi as int].0 == filename@);
                    }
                    assert(self@.files =~= m.assigned(filename@, sids).files);
                }
            },
            None => {
                self.file_name_to_blocks.push(FileRecord { filename, block_ids: ids });
                proof {
                    assert(self@.files =~= m.assigned(filename@, sids).files);
                }
            },
        }
        proof {
            assert(self@ =~= m.assigned(filename@, sids));
            lemma_assigned_wf(m, filename@, sids);
        }
        Ok(out)
    }
}

} // verus!
