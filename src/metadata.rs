//! The name node's metadata: files, blocks, data nodes, and the invariants
//! that tie them together.

use vstd::prelude::*;

use crate::address::{AddrModel, SerializableNodeAddress};
use crate::error::DfsError;

verus! {

/// The views of a sequence of values.
pub open spec fn views<T: View>(v: Seq<T>) -> Seq<T::V> {
    v.map_values(|x: T| x@)
}

/// The texts of a sequence of strings.
pub open spec fn strs(v: Seq<String>) -> Seq<Seq<char>> {
    v.map_values(|s: String| s@)
}

/// An association list has an entry under `k`.
pub open spec fn has_key<V>(s: Seq<(Seq<char>, V)>, k: Seq<char>) -> bool {
    exists|i: int| 0 <= i < s.len() && s[i].0 == k
}

/// No two entries of an association list share a key.
pub open spec fn keys_distinct<V>(s: Seq<(Seq<char>, V)>) -> bool {
    forall|i: int, j: int| 0 <= i < s.len() && 0 <= j < s.len() && i != j ==> s[i].0 != s[j].0
}

/// The value under `k` of an association list.
pub open spec fn lookup<V>(s: Seq<(Seq<char>, V)>, k: Seq<char>) -> V
    recommends
        has_key(s, k),
{
    s[choose|i: int| 0 <= i < s.len() && s[i].0 == k].1
}

/// The keys of an association list, in order.
pub open spec fn keys<V>(s: Seq<(Seq<char>, V)>) -> Seq<Seq<char>> {
    s.map_values(|e: (Seq<char>, V)| e.0)
}

pub proof fn lemma_views_push<T: View>(s: Seq<T>, x: T)
    ensures
        views(s.push(x)) == views(s).push(x@),
{
    assert(views(s.push(x)) =~= views(s).push(x@));
}

pub proof fn lemma_strs_push(s: Seq<String>, x: String)
    ensures
        strs(s.push(x)) == strs(s).push(x@),
{
    assert(strs(s.push(x)) =~= strs(s).push(x@));
}

pub proof fn lemma_lookup<V>(s: Seq<(Seq<char>, V)>, k: Seq<char>, i: int)
    requires
        keys_distinct(s),
        0 <= i < s.len(),
        s[i].0 == k,
    ensures
        has_key(s, k),
        lookup(s, k) == s[i].1,
{
    let j = choose|j: int| 0 <= j < s.len() && s[j].0 == k;
    assert(0 <= j < s.len() && s[j].0 == k);
}

/// A registered data node.
#[derive(Debug, Clone)]
pub struct DataNodeRecord {
    pub id: String,
    pub address: SerializableNodeAddress,
}

impl View for DataNodeRecord {
    type V = (Seq<char>, AddrModel);

    open spec fn view(&self) -> (Seq<char>, AddrModel) {
        (self.id@, self.address@)
    }
}

/// A block and the nodes that hold it; the first replica is contacted
/// first, the others form the forwarding chain.
#[derive(Debug, Clone)]
pub struct BlockRecord {
    pub block_id: String,
    pub replica_node_ids: Vec<String>,
}

impl View for BlockRecord {
    type V = (Seq<char>, Seq<Seq<char>>);

    open spec fn view(&self) -> (Seq<char>, Seq<Seq<char>>) {
        (self.block_id@, strs(self.replica_node_ids@))
    }
}

/// A file and its blocks, in the order of their bytes.
#[derive(Debug, Clone)]
pub struct FileRecord {
    pub filename: String,
    pub block_ids: Vec<String>,
}

impl View for FileRecord {
    type V = (Seq<char>, Seq<Seq<char>>);

    open spec fn view(&self) -> (Seq<char>, Seq<Seq<char>>) {
        (self.filename@, strs(self.block_ids@))
    }
}

/// The metadata as values.
pub struct ClusterModel {
    pub block_size: nat,
    pub repl_factor: nat,
    pub configured: Seq<(AddrModel, bool)>,
    pub files: Seq<(Seq<char>, Seq<Seq<char>>)>,
    pub blocks: Seq<(Seq<char>, Seq<Seq<char>>)>,
    pub nodes: Seq<(Seq<char>, AddrModel)>,
}

/// Some registered node has address `a`.
pub open spec fn address_registered(nodes: Seq<(Seq<char>, AddrModel)>, a: AddrModel) -> bool {
    exists|i: int| 0 <= i < nodes.len() && nodes[i].1 == a
}

impl ClusterModel {
    /// The invariant of the metadata: keys are unique, no two nodes share an
    /// address, every block of a file is recorded, and every replica list is
    /// free of repeats, no longer than the replication factor, and names
    /// registered nodes only.
    pub open spec fn wf(self) -> bool {
        &&& keys_distinct(self.files)
        &&& keys_distinct(self.blocks)
        &&& keys_distinct(self.nodes)
        &&& forall|i: int, j: int|
            0 <= i < self.nodes.len() && 0 <= j < self.nodes.len() && i != j ==> self.nodes[i].1
                != self.nodes[j].1
        &&& forall|i: int, j: int|
            0 <= i < self.files.len() && 0 <= j < self.files[i].1.len() ==> has_key(
                self.blocks,
                #[trigger] self.files[i].1[j],
            )
        &&& forall|i: int| 0 <= i < self.blocks.len() ==> self.replicas_ok(#[trigger] self.blocks[i].1)
    }

    /// A replica list that the invariant accepts.
    pub open spec fn replicas_ok(self, r: Seq<Seq<char>>) -> bool {
        &&& r.no_duplicates()
        &&& r.len() <= self.repl_factor
        &&& forall|j: int| 0 <= j < r.len() ==> has_key(self.nodes, #[trigger] r[j])
    }

    /// The ids of the registered nodes, in order of registration.
    pub open spec fn node_ids(self) -> Seq<Seq<char>> {
        keys(self.nodes)
    }

    /// For each block of a file, the addresses of its replicas.
    pub open spec fn replica_addresses(self, block_ids: Seq<Seq<char>>) -> Seq<Seq<AddrModel>> {
        block_ids.map_values(|b: Seq<char>| self.addresses_of(lookup(self.blocks, b)))
    }

    /// The addresses of a list of registered nodes.
    pub open spec fn addresses_of(self, ids: Seq<Seq<char>>) -> Seq<AddrModel> {
        ids.map_values(|n: Seq<char>| lookup(self.nodes, n))
    }
}

/// The views of a list of address lists.
pub open spec fn address_lists(v: Seq<Vec<SerializableNodeAddress>>) -> Seq<Seq<AddrModel>> {
    v.map_values(|a: Vec<SerializableNodeAddress>| views(a@))
}

/// The start-up list with every entry at `a` marked as registered.
pub open spec fn mark_registered(c: Seq<(AddrModel, bool)>, a: AddrModel) -> Seq<(AddrModel, bool)> {
    c.map_values(|e: (AddrModel, bool)| if e.0 == a { (e.0, true) } else { e })
}

/// The addresses of the entries of a start-up list not yet registered.
pub open spec fn unregistered(c: Seq<(AddrModel, bool)>) -> Seq<AddrModel>
    decreases c.len(),
{
    if c.len() == 0 {
        Seq::empty()
    } else if c.last().1 {
        unregistered(c.drop_last())
    } else {
        unregistered(c.drop_last()).push(c.last().0)
    }
}

/// The name node's state; the whole aggregate sits behind one lock.
#[derive(Debug, Clone)]
pub struct NameNodeState {
    pub block_size: u32,
    pub repl_factor: u32,
    /// The data nodes the name node was started with, and whether each has
    /// registered.
    pub data_nodes: Vec<(SerializableNodeAddress, bool)>,
    pub file_name_to_blocks: Vec<FileRecord>,
    pub block_to_data_node_ids: Vec<BlockRecord>,
    pub id_to_data_nodes: Vec<DataNodeRecord>,
}

impl View for NameNodeState {
    type V = ClusterModel;

    open spec fn view(&self) -> ClusterModel {
        ClusterModel {
            block_size: self.block_size as nat,
            repl_factor: self.repl_factor as nat,
            configured: self.data_nodes@.map_values(
                |p: (SerializableNodeAddress, bool)| (p.0@, p.1),
            ),
            files: views(self.file_name_to_blocks@),
            blocks: views(self.block_to_data_node_ids@),
            nodes: views(self.id_to_data_nodes@),
        }
    }
}

/// A copy of a list of strings.
pub fn copy_strings(v: &Vec<String>) -> (r: Vec<String>)
    ensures
        r@ == v@,
{
    let mut out: Vec<String> = Vec::new();
    let mut i: usize = 0;
    while i < v.len()
        invariant
            i <= v.len(),
            out@ == v@.take(i as int),
        decreases v.len() - i,
    {
        out.push(v[i].clone());
        i += 1;
        assert(out@ =~= v@.take(i as int));
    }
    assert(v@.take(v.len() as int) =~= v@);
    out
}

impl NameNodeState {
    /// A name node that knows no file, block or registered node yet.
    pub fn new(block_size: u32, repl_factor: u32, data_nodes: Vec<(SerializableNodeAddress, bool)>) -> (r: Self)
        ensures
            r@.block_size == block_size,
            r@.repl_factor == repl_factor,
            r.data_nodes@ == data_nodes@,
            r@.files.len() == 0,
            r@.blocks.len() == 0,
            r@.nodes.len() == 0,
            r@.wf(),
    {
        NameNodeState {
            block_size,
            repl_factor,
            data_nodes,
            file_name_to_blocks: Vec::new(),
            block_to_data_node_ids: Vec::new(),
            id_to_data_nodes: Vec::new(),
        }
    }

    /// The block size, answered only to a liveness probe.
    pub fn block_size(&self, pulse: bool) -> (r: Result<u32, DfsError>)
        ensures
            pulse ==> r == Ok::<u32, DfsError>(self.block_size),
            !pulse ==> r == Err::<u32, DfsError>(DfsError::InvalidArgument),
    {
        if pulse {
            Ok(self.block_size)
        } else {
            Err(DfsError::InvalidArgument)
        }
    }

    /// Where the file's entry stands, if it has one.
    pub fn find_file(&self, filename: &String) -> (r: Option<usize>)
        ensures
            match r {
                Some(i) => i < self@.files.len() && self@.files[i as int].0 == filename@,
                None => !has_key(self@.files, filename@),
            },
    {
        let mut i: usize = 0;
        while i < self.file_name_to_blocks.len()
            invariant
                i <= self@.files.len(),
                forall|j: int| 0 <= j < i ==> self@.files[j].0 != filename@,
            decreases self.file_name_to_blocks.len() - i,
        {
            if self.file_name_to_blocks[i].filename == *filename {
                return Some(i);
            }
            i += 1;
        }
        None
    }

    /// Where the block's entry stands, if it has one.
    pub fn find_block(&self, block_id: &String) -> (r: Option<usize>)
        ensures
            match r {
                Some(i) => i < self@.blocks.len() && self@.blocks[i as int].0 == block_id@,
                None => !has_key(self@.blocks, block_id@),
            },
    {
        let mut i: usize = 0;
        while i < self.block_to_data_node_ids.len()
            invariant
                i <= self@.blocks.len(),
                forall|j: int| 0 <= j < i ==> self@.blocks[j].0 != block_id@,
            decreases self.block_to_data_node_ids.len() - i,
        {
            if self.block_to_data_node_ids[i].block_id == *block_id {
                return Some(i);
            }
            i += 1;
        }
        None
    }

    /// Where the node's entry stands, if it has one.
    pub fn find_node(&self, node_id: &String) -> (r: Option<usize>)
        ensures
            match r {
                Some(i) => i < self@.nodes.len() && self@.nodes[i as int].0 == node_id@,
                None => !has_key(self@.nodes, node_id@),
            },
    {
        let mut i: usize = 0;
        while i < self.id_to_data_nodes.len()
            invariant
                i <= self@.nodes.len(),
                forall|j: int| 0 <= j < i ==> self@.nodes[j].0 != node_id@,
            decreases self.id_to_data_nodes.len() - i,
        {
            if self.id_to_data_nodes[i].id == *node_id {
                return Some(i);
            }
            i += 1;
        }
        None
    }

    /// Where the node with this address stands, if one is registered.
    pub fn find_node_by_address(&self, address: &SerializableNodeAddress) -> (r: Option<usize>)
        ensures
            match r {
                Some(i) => i < self@.nodes.len() && self@.nodes[i as int].1 == address@,
                None => !address_registered(self@.nodes, address@),
            },
    {
        let mut i: usize = 0;
        while i < self.id_to_data_nodes.len()
            invariant
                i <= self@.nodes.len(),
                forall|j: int| 0 <= j < i ==> self@.nodes[j].1 != address@,
            decreases self.id_to_data_nodes.len() - i,
        {
            let a = &self.id_to_data_nodes[i].address;
            if a.host == address.host && a.port == address.port {
                return Some(i);
            }
            i += 1;
        }
        None
    }

    /// The addresses of the replicas of each block of a file, in block order.
    pub fn read_file(&self, filename: &String) -> (r: Result<Vec<Vec<SerializableNodeAddress>>, DfsError>)
        requires
            self@.wf(),
        ensures
            !has_key(self@.files, filename@) ==> r == Err::<Vec<Vec<SerializableNodeAddress>>, DfsError>(DfsError::NotFound),
            has_key(self@.files, filename@) ==> r is Ok && address_lists(r->Ok_0@)
                == self@.replica_addresses(lookup(self@.files, filename@)),
    {
        let fi = match self.find_file(filename) {
            Some(fi) => fi,
            None => return Err(DfsError::NotFound),
        };
        let ghost m = self@;
        proof { lemma_lookup(m.files, filename@, fi as int); }
        let block_ids = &self.file_name_to_blocks[fi].block_ids;
        let ghost ids = strs(block_ids@);
        let mut out: Vec<Vec<SerializableNodeAddress>> = Vec::new();
        let mut i: usize = 0;
        while i < block_ids.len()
            invariant
                m == self@,
                m.wf(),
                fi < m.files.len(),
                ids == m.files[fi as int].1,
                ids == strs(block_ids@),
                i <= block_ids.len(),
                address_lists(out@) == m.replica_addresses(ids.take(i as int)),
            decreases block_ids.len() - i,
        {
            assert(has_key(m.blocks, ids[i as int]));
            let bi = match self.find_block(&block_ids[i]) {
                Some(bi) => bi,
                None => return Err(DfsError::NotFound),
            };
            proof { lemma_lookup(m.blocks, ids[i as int], bi as int); }
            let replicas = &self.block_to_data_node_ids[bi].replica_node_ids;
            let ghost rs = strs(replicas@);
            assert(m.replicas_ok(m.blocks[bi as int].1));
            let mut addrs: Vec<SerializableNodeAddress> = Vec::new();
            let mut k: usize = 0;
            while k < replicas.len()
                invariant
                    m == self@,
                    m.wf(),
                    bi < m.blocks.len(),
                    rs == m.blocks[bi as int].1,
                    rs == strs(replicas@),
                    m.replicas_ok(rs),
                    k <= replicas.len(),
                    views(addrs@) == m.addresses_of(rs.take(k as int)),
                decreases replicas.len() - k,
            {
                assert(has_key(m.nodes, rs[k as int]));
                let ni = match self.find_node(&replicas[k]) {
                    Some(ni) => ni,
                    None => return Err(DfsError::NotFound),
                };
                proof { lemma_lookup(m.nodes, rs[k as int], ni as int); }
                let ghost before = addrs@;
                assert(rs.take(k as int).len() == k);
                assert(m.addresses_of(rs.take(k as int)).len() == k);
                assert(views(before).len() == before.len());
                assert(before.len() == k);
                addrs.push(self.id_to_data_nodes[ni].address.duplicate());
                k += 1;
                assert forall|j: int| 0 <= j < k - 1 implies views(addrs@)[j] == m.addresses_of(rs.take(k as int))[j] by {
                    assert(addrs@[j] == before[j]);
                    assert(views(before)[j] == m.addresses_of(rs.take(k - 1))[j]);
                }
                assert(views(addrs@) =~= m.addresses_of(rs.take(k as int)));
            }
            assert(rs.take(k as int) =~= rs);
            let ghost before = out@;
            assert(m.replica_addresses(ids.take(i as int)).len() == i);
            assert(address_lists(before).len() == before.len());
            out.push(addrs);
            i += 1;
            assert forall|j: int| 0 <= j < i - 1 implies address_lists(out@)[j] == m.replica_addresses(ids.take(i as int))[j] by {
                assert(out@[j] == before[j]);
                assert(address_lists(before)[j] == m.replica_addresses(ids.take(i - 1))[j]);
            }
            assert(address_lists(out@) =~= m.replica_addresses(ids.take(i as int)));
        }
        assert(ids.take(i as int) =~= ids);
        Ok(out)
    }

    /// The ids of the registered nodes, in order.
    pub fn node_ids(&self) -> (r: Vec<String>)
        ensures
            strs(r@) == self@.node_ids(),
    {
        let mut out: Vec<String> = Vec::new();
        let mut i: usize = 0;
        while i < self.id_to_data_nodes.len()
            invariant
                i <= self.id_to_data_nodes.len(),
                strs(out@) == self@.node_ids().take(i as int),
            decreases self.id_to_data_nodes.len() - i,
        {
            let ghost before = out@;
            let id = self.id_to_data_nodes[i].id.clone();
            out.push(id);
            proof { lemma_strs_push(before, id); }
            i += 1;
            assert(strs(out@) =~= self@.node_ids().take(i as int));
        }
        assert(self@.node_ids().take(i as int) =~= self@.node_ids());
        out
    }

    /// The address of a registered node.
    pub fn address_of(&self, id: &String) -> (r: SerializableNodeAddress)
        requires
            keys_distinct(self@.nodes),
            has_key(self@.nodes, id@),
        ensures
            r@ == lookup(self@.nodes, id@),
    {
        match self.find_node(id) {
            Some(k) => {
                proof { lemma_lookup(self@.nodes, id@, k as int); }
                self.id_to_data_nodes[k].address.duplicate()
            },
            None => {
                proof { assert(false); }
                SerializableNodeAddress::new(String::new(), 0)
            },
        }
    }

    /// The addresses of a list of registered nodes.
    pub fn addresses_of(&self, ids: &Vec<String>) -> (r: Vec<SerializableNodeAddress>)
        requires
            keys_distinct(self@.nodes),
            forall|j: int| 0 <= j < ids@.len() ==> has_key(self@.nodes, #[trigger] strs(ids@)[j]),
        ensures
            views(r@) == self@.addresses_of(strs(ids@)),
    {
        let ghost s = strs(ids@);
        let mut out: Vec<SerializableNodeAddress> = Vec::new();
        let mut i: usize = 0;
        while i < ids.len()
            invariant
                s == strs(ids@),
                keys_distinct(self@.nodes),
                forall|j: int| 0 <= j < ids@.len() ==> has_key(self@.nodes, #[trigger] s[j]),
                i <= ids.len(),
                views(out@) == self@.addresses_of(s.take(i as int)),
            decreases ids.len() - i,
        {
            assert(has_key(self@.nodes, s[i as int]));
            let a = self.address_of(&ids[i]);
            let ghost before = out@;
            out.push(a);
            proof {
                lemma_views_push(before, a);
                assert(s.take(i + 1) =~= s.take(i as int).push(s[i as int]));
            }
            i += 1;
            assert(views(out@) =~= self@.addresses_of(s.take(i as int)));
        }
        assert(s.take(i as int) =~= s);
        out
    }

    /// Whether the metadata meets its invariant; a state read back from a
    /// snapshot is checked with this before it is used.
    pub fn is_well_formed(&self) -> (r: bool)
        ensures
            r == self@.wf(),
    {
        let ghost m = self@;
        // file names, block ids and node ids are unique, node addresses too
        let mut i: usize = 0;
        while i < self.file_name_to_blocks.len()
            invariant
                m == self@,
                i <= m.files.len(),
                forall|a: int, b: int| 0 <= a < i && 0 <= b < m.files.len() && a != b ==> m.files[a].0 != m.files[b].0,
            decreases self.file_name_to_blocks.len() - i,
        {
            let mut j: usize = 0;
            while j < self.file_name_to_blocks.len()
                invariant
                    m == self@,
                    i < m.files.len(),
                    j <= m.files.len(),
                    forall|b: int| 0 <= b < j && b != i ==> m.files[i as int].0 != m.files[b].0,
                decreases self.file_name_to_blocks.len() - j,
            {
                if j != i && self.file_name_to_blocks[i].filename == self.file_name_to_blocks[j].filename {
                    assert(m.files[i as int].0 == m.files[j as int].0);
                    assert(!keys_distinct(m.files));
                    return false;
                }
                j += 1;
            }
            i += 1;
        }
        let mut i: usize = 0;
        while i < self.block_to_data_node_ids.len()
            invariant
                m == self@,
                keys_distinct(m.files),
                i <= m.blocks.len(),
                forall|a: int, b: int| 0 <= a < i && 0 <= b < m.blocks.len() && a != b ==> m.blocks[a].0 != m.blocks[b].0,
            decreases self.block_to_data_node_ids.len() - i,
        {
            let mut j: usize = 0;
            while j < self.block_to_data_node_ids.len()
                invariant
                    m == self@,
                    i < m.blocks.len(),
                    j <= m.blocks.len(),
                    forall|b: int| 0 <= b < j && b != i ==> m.blocks[i as int].0 != m.blocks[b].0,
                decreases self.block_to_data_node_ids.len() - j,
            {
                if j != i && self.block_to_data_node_ids[i].block_id == self.block_to_data_node_ids[j].block_id {
                    assert(m.blocks[i as int].0 == m.blocks[j as int].0);
                    assert(!keys_distinct(m.blocks));
                    return false;
                }
                j += 1;
            }
            i += 1;
        }
        let mut i: usize = 0;
        while i < self.id_to_data_nodes.len()
            invariant
                m == self@,
                keys_distinct(m.files),
                keys_distinct(m.blocks),
                i <= m.nodes.len(),
                forall|a: int, b: int| 0 <= a < i && 0 <= b < m.nodes.len() && a != b ==> m.nodes[a].0 != m.nodes[b].0 && m.nodes[a].1 != m.nodes[b].1,
            decreases self.id_to_data_nodes.len() - i,
        {
            let mut j: usize = 0;
            while j < self.id_to_data_nodes.len()
                invariant
                    m == self@,
                    i < m.nodes.len(),
                    j <= m.nodes.len(),
                    forall|b: int| 0 <= b < j && b != i ==> m.nodes[i as int].0 != m.nodes[b].0 && m.nodes[i as int].1 != m.nodes[b].1,
                decreases self.id_to_data_nodes.len() - j,
            {
                if j != i {
                    let x = &self.id_to_data_nodes[i];
                    let y = &self.id_to_data_nodes[j];
                    if x.id == y.id {
                        assert(m.nodes[i as int].0 == m.nodes[j as int].0);
                        assert(!keys_distinct(m.nodes));
                        return false;
                    }
                    if x.address.host == y.address.host && x.address.port == y.address.port {
                        assert(m.nodes[i as int].1 == m.nodes[j as int].1);
                        return false;
                    }
                }
                j += 1;
            }
            i += 1;
        }
        // every block of a file is recorded
        let mut i: usize = 0;
        while i < self.file_name_to_blocks.len()
            invariant
                m == self@,
                i <= m.files.len(),
                forall|a: int, b: int| 0 <= a < i && 0 <= b < m.files[a].1.len() ==> has_key(m.blocks, #[trigger] m.files[a].1[b]),
            decreases self.file_name_to_blocks.len() - i,
        {
            let ids = &self.file_name_to_blocks[i].block_ids;
            let mut j: usize = 0;
            while j < ids.len()
                invariant
                    m == self@,
                    i < m.files.len(),
                    ids == &self.file_name_to_blocks@[i as int].block_ids,
                    j <= ids.len(),
                    forall|b: int| 0 <= b < j ==> has_key(m.blocks, #[trigger] m.files[i as int].1[b]),
                decreases ids.len() - j,
            {
                match self.find_block(&ids[j]) {
                    Some(k) => {
                        assert(m.blocks[k as int].0 == m.files[i as int].1[j as int]);
                    },
                    None => {
                        assert(!has_key(m.blocks, m.files[i as int].1[j as int]));
                        return false;
                    },
                }
                j += 1;
            }
            i += 1;
        }
        // every replica list is short enough, free of repeats, and names
        // registered nodes
        let mut i: usize = 0;
        while i < self.block_to_data_node_ids.len()
            invariant
                m == self@,
                i <= m.blocks.len(),
                forall|a: int| 0 <= a < i ==> m.replicas_ok(#[trigger] m.blocks[a].1),
            decreases self.block_to_data_node_ids.len() - i,
        {
            let reps = &self.block_to_data_node_ids[i].replica_node_ids;
            let ghost r = m.blocks[i as int].1;
            if reps.len() > self.repl_factor as usize {
                assert(!m.replicas_ok(m.blocks[i as int].1));
                return false;
            }
            let mut j: usize = 0;
            while j < reps.len()
                invariant
                    m == self@,
                    i < m.blocks.len(),
                    reps == &self.block_to_data_node_ids@[i as int].replica_node_ids,
                    r == m.blocks[i as int].1,
                    r == strs(reps@),
                    j <= reps.len(),
                    forall|b: int| 0 <= b < j ==> has_key(m.nodes, #[trigger] r[b]),
                    forall|a: int, b: int| 0 <= a < j && 0 <= b < r.len() && a != b ==> r[a] != r[b],
                decreases reps.len() - j,
            {
                match self.find_node(&reps[j]) {
                    Some(k) => {
                        assert(m.nodes[k as int].0 == r[j as int]);
                    },
                    None => {
                        assert(!has_key(m.nodes, r[j as int]));
                        assert(!m.replicas_ok(m.blocks[i as int].1));
                        return false;
                    },
                }
                let mut q: usize = 0;
                while q < reps.len()
                    invariant
                        m == self@,
                        i < m.blocks.len(),
                        r == m.blocks[i as int].1,
                        r == strs(reps@),
                        j < reps.len(),
                        q <= reps.len(),
                        forall|b: int| 0 <= b < q && b != j ==> r[j as int] != r[b],
                    decreases reps.len() - q,
                {
                    if q != j && reps[q] == reps[j] {
                        assert(r[q as int] == r[j as int]);
                        assert(!r.no_duplicates());
                        assert(!m.replicas_ok(m.blocks[i as int].1));
                        return false;
                    }
                    q += 1;
                }
                j += 1;
            }
            i += 1;
        }
        true
    }

    /// The addresses of the start-up list not registered yet, in order: the
    /// nodes to send a registration probe.
    pub fn unregistered_addresses(&self) -> (r: Vec<SerializableNodeAddress>)
        ensures
            views(r@) == unregistered(self@.configured),
    {
        let ghost c = self@.configured;
        let mut out: Vec<SerializableNodeAddress> = Vec::new();
        let mut i: usize = 0;
        while i < self.data_nodes.len()
            invariant
                c == self@.configured,
                i <= self.data_nodes.len(),
                views(out@) == unregistered(c.take(i as int)),
            decreases self.data_nodes.len() - i,
        {
            proof {
                assert(c.take(i + 1).drop_last() =~= c.take(i as int));
                assert(c.take(i + 1).last() == c[i as int]);
            }
            if !self.data_nodes[i].1 {
                let ghost before = out@;
                let a = self.data_nodes[i].0.duplicate();
                out.push(a);
                proof { lemma_views_push(before, a); }
            }
            i += 1;
        }
        assert(c.take(i as int) =~= c);
        out
    }

    /// The addresses of the registered nodes, in order: the nodes that a
    /// heartbeat probes.
    pub fn registered_addresses(&self) -> (r: Vec<SerializableNodeAddress>)
        ensures
            views(r@) == self@.nodes.map_values(|e: (Seq<char>, AddrModel)| e.1),
    {
        let mut out: Vec<SerializableNodeAddress> = Vec::new();
        let mut i: usize = 0;
        while i < self.id_to_data_nodes.len()
            invariant
                i <= self.id_to_data_nodes.len(),
                views(out@) == self@.nodes.take(i as int).map_values(|e: (Seq<char>, AddrModel)| e.1),
            decreases self.id_to_data_nodes.len() - i,
        {
            let ghost before = out@;
            let a = self.id_to_data_nodes[i].address.duplicate();
            out.push(a);
            proof { lemma_views_push(before, a); }
            i += 1;
            assert(views(out@) =~= self@.nodes.take(i as int).map_values(|e: (Seq<char>, AddrModel)| e.1));
        }
        assert(self@.nodes.take(i as int) =~= self@.nodes);
        out
    }

    /// Records a data node under `id`, and marks its address as registered
    /// in the start-up list; refused when the id or the address is already
    /// registered.
    pub fn register_data_node(&mut self, id: String, address: SerializableNodeAddress) -> (r: Result<(), DfsError>)
        requires
            old(self)@.wf(),
        ensures
            final(self)@.wf(),
            (has_key(old(self)@.nodes, id@) || address_registered(old(self)@.nodes, address@)) ==> {
                &&& r == Err::<(), DfsError>(DfsError::InvalidArgument)
                &&& final(self)@ == old(self)@
            },
            !(has_key(old(self)@.nodes, id@) || address_registered(old(self)@.nodes, address@)) ==> {
                &&& r is Ok
                &&& final(self)@ == (ClusterModel {
                    nodes: old(self)@.nodes.push((id@, address@)),
                    configured: mark_registered(old(self)@.configured, address@),
                    ..old(self)@
                })
            },
    {
        if self.find_node(&id).is_some() {
            return Err(DfsError::InvalidArgument);
        }
        if self.find_node_by_address(&address).is_some() {
            return Err(DfsError::InvalidArgument);
        }
        let ghost old_m = self@;
        proof {
            assert(mark_registered(old_m.configured.take(0), address@) + old_m.configured.skip(0) =~= old_m.configured);
            assert(self@ =~= (ClusterModel {
                configured: mark_registered(old_m.configured.take(0), address@) + old_m.configured.skip(0),
                ..old_m
            }));
        }
        let mut i: usize = 0;
        while i < self.data_nodes.len()
            invariant
                self@ == (ClusterModel {
                    configured: mark_registered(old_m.configured.take(i as int), address@)
                        + old_m.configured.skip(i as int),
                    ..old_m
                }),
                i <= self.data_nodes.len(),
                self.data_nodes@.len() == old_m.configured.len(),
            decreases self.data_nodes.len() - i,
        {
            let ghost before = self@.configured;
            let ghost e = old_m.configured[i as int];
            assert(before[i as int] == e);
            let hit = self.data_nodes[i].0.host == address.host && self.data_nodes[i].0.port == address.port;
            if hit {
                let a = self.data_nodes[i].0.duplicate();
                self.data_nodes[i] = (a, true);
            }
            proof {
                assert(self@.configured[i as int] == (if e.0 == address@ { (e.0, true) } else { e }));
                assert forall|k: int| 0 <= k < before.len() && k != i implies self@.configured[k] == before[k] by {}
            }
            i += 1;
            proof {
                let c = old_m.configured;
                let target = mark_registered(c.take(i as int), address@) + c.skip(i as int);
                let prev = mark_registered(c.take(i - 1), address@) + c.skip(i - 1);
                assert(before == prev);
                assert forall|k: int| 0 <= k < c.len() implies self@.configured[k] == target[k] by {
                    if k < i - 1 {
                        assert(prev[k] == mark_registered(c.take(i - 1), address@)[k]);
                        assert(target[k] == mark_registered(c.take(i as int), address@)[k]);
                    } else if k == i - 1 {
                        assert(target[k] == mark_registered(c.take(i as int), address@)[k]);
                    } else {
                        assert(prev[k] == c.skip(i - 1)[k - (i - 1)]);
                        assert(target[k] == c.skip(i as int)[k - i]);
                    }
                }
                assert(self@.configured =~= target);
                assert(self@ =~= (ClusterModel {
                    configured: mark_registered(old_m.configured.take(i as int), address@)
                        + old_m.configured.skip(i as int),
                    ..old_m
                }));
            }
        }
        proof {
            assert(old_m.configured.take(i as int) =~= old_m.configured);
            assert(old_m.configured.skip(i as int) =~= Seq::<(AddrModel, bool)>::empty());
            assert(mark_registered(old_m.configured, address@) + Seq::<(AddrModel, bool)>::empty() =~= mark_registered(old_m.configured, address@));
        }
        let ghost mid = self@;
        self.id_to_data_nodes.push(DataNodeRecord { id, address });
        proof {
            let m = self@;
            assert(m.nodes =~= old_m.nodes.push((id@, address@)));
            assert(m.files =~= old_m.files);
            assert(m.blocks =~= old_m.blocks);
            assert(m.configured =~= mark_registered(old_m.configured, address@));
            assert forall|i: int| 0 <= i < m.blocks.len() implies m.replicas_ok(#[trigger] m.blocks[i].1) by {
                assert(old_m.replicas_ok(old_m.blocks[i].1));
                let r = m.blocks[i].1;
                assert forall|j: int| 0 <= j < r.len() implies has_key(m.nodes, #[trigger] r[j]) by {
                    assert(has_key(old_m.nodes, r[j]));
                    let k = choose|k: int| 0 <= k < old_m.nodes.len() && old_m.nodes[k].0 == r[j];
                    assert(m.nodes[k].0 == r[j]);
                }
            }
        }
        Ok(())
    }
}

} // verus!
