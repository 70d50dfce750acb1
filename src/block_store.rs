//! Block stores held in memory: the key-to-bytes store that a data node
//! keeps its blocks in, and a cluster of such nodes that runs the replica
//! chain protocol end to end.

use vstd::prelude::*;

use crate::datanode::{after_local_write, check_passthrough, ChainStep};
use crate::error::DfsError;
use crate::metadata::{copy_strings, has_key, keys_distinct, lemma_lookup, lookup, strs};

verus! {

/// A copy of a byte buffer.
pub fn copy_bytes(v: &Vec<u8>) -> (r: Vec<u8>)
    ensures
        r@ == v@,
{
    let mut out: Vec<u8> = Vec::new();
    let mut i: usize = 0;
    while i < v.len()
        invariant
            i <= v.len(),
            out@ == v@.take(i as int),
        decreases v.len() - i,
    {
        out.push(v[i]);
        i += 1;
        assert(out@ =~= v@.take(i as int));
    }
    assert(v@.take(i as int) =~= v@);
    out
}

/// Blocks by id; a block written twice keeps the second bytes.
#[derive(Debug, Clone)]
pub struct BlockStore {
    pub entries: Vec<(String, Vec<u8>)>,
}

impl View for BlockStore {
    type V = Seq<(Seq<char>, Seq<u8>)>;

    open spec fn view(&self) -> Seq<(Seq<char>, Seq<u8>)> {
        self.entries@.map_values(|e: (String, Vec<u8>)| (e.0@, e.1@))
    }
}

impl BlockStore {
    /// Each block id is stored once.
    pub open spec fn wf(&self) -> bool {
        keys_distinct(self@)
    }

    pub fn new() -> (r: BlockStore)
        ensures
            r.wf(),
            r@.len() == 0,
    {
        BlockStore { entries: Vec::new() }
    }

    /// Stores `data` under `key`, replacing what was there.
    pub fn put(&mut self, key: &String, data: &Vec<u8>)
        requires
            old(self).wf(),
        ensures
            final(self).wf(),
            has_key(final(self)@, key@),
            lookup(final(self)@, key@) == data@,
            forall|k: Seq<char>| k != key@ ==> (has_key(final(self)@, k) == has_key(old(self)@, k)),
            forall|k: Seq<char>| k != key@ && has_key(old(self)@, k) ==> lookup(final(self)@, k) == lookup(old(self)@, k),
    {
        let ghost m = self@;
        let mut i: usize = 0;
        while i < self.entries.len()
            invariant
                self@ == m,
                m == old(self)@,
                keys_distinct(m),
                i <= self.entries.len(),
                forall|j: int| 0 <= j < i ==> m[j].0 != key@,
            decreases self.entries.len() - i,
        {
            if self.entries[i].0 == *key {
                let k = self.entries[i].0.clone();
                self.entries[i] = (k, copy_bytes(data));
                proof {
                    let f = self@;
                    assert(f =~= m.update(i as int, (key@, data@)));
                    assert(keys_distinct(f)) by {
                        assert forall|a: int, b: int| 0 <= a < f.len() && 0 <= b < f.len() && a != b implies f[a].0 != f[b].0 by {
                            assert(f[a].0 == m[a].0);
                            assert(f[b].0 == m[b].0);
                        }
                    }
                    lemma_lookup(f, key@, i as int);
                    assert forall|k: Seq<char>| k != key@ implies (has_key(f, k) == has_key(m, k)) by {
                        if has_key(m, k) {
                            let j = choose|j: int| 0 <= j < m.len() && m[j].0 == k;
                            assert(f[j].0 == k);
                        }
                        if has_key(f, k) {
                            let j = choose|j: int| 0 <= j < f.len() && f[j].0 == k;
                            assert(m[j].0 == k);
                        }
                    }
                    assert forall|k: Seq<char>| k != key@ && has_key(m, k) implies lookup(f, k) == lookup(m, k) by {
                        let j = choose|j: int| 0 <= j < m.len() && m[j].0 == k;
                        lemma_lookup(m, k, j);
                        assert(f[j] == m[j]);
                        lemma_lookup(f, k, j);
                    }
                }
                return;
            }
            i += 1;
        }
        self.entries.push((key.clone(), copy_bytes(data)));
        proof {
            let f = self@;
            let n = m.len() as int;
            assert(f =~= m.push((key@, data@)));
            assert(keys_distinct(f)) by {
                assert forall|a: int, b: int| 0 <= a < f.len() && 0 <= b < f.len() && a != b implies f[a].0 != f[b].0 by {
                    if a < n && b < n {
                        assert(f[a] == m[a]);
                        assert(f[b] == m[b]);
                    } else if a < n {
                        assert(f[a] == m[a]);
                    } else {
                        assert(f[b] == m[b]);
                    }
                }
            }
            lemma_lookup(f, key@, n);
            assert forall|k: Seq<char>| k != key@ implies (has_key(f, k) == has_key(m, k)) by {
                if has_key(m, k) {
                    let j = choose|j: int| 0 <= j < m.len() && m[j].0 == k;
                    assert(f[j].0 == k);
                }
                if has_key(f, k) {
                    let j = choose|j: int| 0 <= j < f.len() && f[j].0 == k;
                    assert(j != n);
                    assert(m[j].0 == k);
                }
            }
            assert forall|k: Seq<char>| k != key@ && has_key(m, k) implies lookup(f, k) == lookup(m, k) by {
                let j = choose|j: int| 0 <= j < m.len() && m[j].0 == k;
                lemma_lookup(m, k, j);
                assert(f[j] == m[j]);
                lemma_lookup(f, k, j);
            }
        }
    }

    /// The bytes stored under `key`.
    pub fn get(&self, key: &String) -> (r: Result<Vec<u8>, DfsError>)
        requires
            self.wf(),
        ensures
            has_key(self@, key@) ==> r is Ok && r->Ok_0@ == lookup(self@, key@),
            !has_key(self@, key@) ==> r == Err::<Vec<u8>, DfsError>(DfsError::NotFound),
    {
        let mut i: usize = 0;
        while i < self.entries.len()
            invariant
                self.wf(),
                i <= self.entries.len(),
                forall|j: int| 0 <= j < i ==> self@[j].0 != key@,
            decreases self.entries.len() - i,
        {
            if self.entries[i].0 == *key {
                proof { lemma_lookup(self@, key@, i as int); }
                return Ok(copy_bytes(&self.entries[i].1));
            }
            i += 1;
        }
        Err(DfsError::NotFound)
    }
}

/// Data nodes held in memory, each with its block store, that pass writes
/// down replica chains as the nodes of a real cluster do.
#[derive(Debug, Clone)]
pub struct MemoryCluster {
    pub names: Vec<String>,
    pub stores: Vec<BlockStore>,
}

impl MemoryCluster {
    /// One store per node, node names unique, every store well formed.
    pub open spec fn wf(&self) -> bool {
        &&& self.names@.len() == self.stores@.len()
        &&& strs(self.names@).no_duplicates()
        &&& forall|i: int| 0 <= i < self.stores@.len() ==> (#[trigger] self.stores@[i]).wf()
    }

    /// A node of the cluster is called `name`.
    pub open spec fn is_member(&self, name: Seq<char>) -> bool {
        strs(self.names@).contains(name)
    }

    /// The node called `name` holds `data` under `block_id`.
    pub open spec fn holds(&self, name: Seq<char>, block_id: Seq<char>, data: Seq<u8>) -> bool {
        exists|i: int|
            0 <= i < self.names@.len() && self.names@[i]@ == name && has_key(
                #[trigger] self.stores@[i]@,
                block_id,
            ) && lookup(self.stores@[i]@, block_id) == data
    }

    pub fn new() -> (r: MemoryCluster)
        ensures
            r.wf(),
            r.names@.len() == 0,
    {
        MemoryCluster { names: Vec::new(), stores: Vec::new() }
    }

    /// Where the node called `name` stands.
    fn find(&self, name: &String) -> (r: Option<usize>)
        ensures
            match r {
                Some(i) => i < self.names@.len() && self.names@[i as int]@ == name@,
                None => !self.is_member(name@),
            },
    {
        let mut i: usize = 0;
        while i < self.names.len()
            invariant
                i <= self.names.len(),
                forall|j: int| 0 <= j < i ==> strs(self.names@)[j] != name@,
            decreases self.names.len() - i,
        {
            if self.names[i] == *name {
                return Some(i);
            }
            i += 1;
        }
        None
    }

    /// Adds a node with an empty store; refused when the name is taken.
    pub fn add_node(&mut self, name: String) -> (r: Result<(), DfsError>)
        requires
            old(self).wf(),
        ensures
            final(self).wf(),
            old(self).is_member(name@) ==> r == Err::<(), DfsError>(DfsError::InvalidArgument)
                && *final(self) == *old(self),
            !old(self).is_member(name@) ==> r is Ok && strs(final(self).names@) == strs(
                old(self).names@,
            ).push(name@),
    {
        match self.find(&name) {
            Some(i) => {
                assert(strs(self.names@)[i as int] == name@);
                assert(self.is_member(name@));
                return Err(DfsError::InvalidArgument);
            },
            None => {},
        }
        let ghost before = self.names@;
        self.names.push(name);
        self.stores.push(BlockStore::new());
        proof {
            crate::metadata::lemma_strs_push(before, name);
            let s = strs(self.names@);
            assert forall|a: int, b: int| 0 <= a < s.len() && 0 <= b < s.len() && a != b implies s[a] != s[b] by {
                if a == before.len() {
                    assert(s[b] == strs(before)[b]);
                    assert(strs(before).contains(strs(before)[b]));
                } else if b == before.len() {
                    assert(s[a] == strs(before)[a]);
                    assert(strs(before).contains(strs(before)[a]));
                } else {
                    assert(s[a] == strs(before)[a]);
                    assert(s[b] == strs(before)[b]);
                }
            }
        }
        Ok(())
    }

    /// The bytes that node `name` holds under `block_id`: `Unavailable`
    /// when there is no such node, `NotFound` when it holds no such block.
    pub fn get_data(&self, name: &String, block_id: &String) -> (r: Result<Vec<u8>, DfsError>)
        requires
            self.wf(),
        ensures
            !self.is_member(name@) ==> r == Err::<Vec<u8>, DfsError>(DfsError::Unavailable),
            self.is_member(name@) ==> (r is Ok <==> exists|d: Seq<u8>| self.holds(name@, block_id@, d)),
            r is Ok ==> self.holds(name@, block_id@, r->Ok_0@),
    {
        match self.find(name) {
            None => Err(DfsError::Unavailable),
            Some(i) => {
                let r = self.stores[i].get(block_id);
                proof {
                    assert(strs(self.names@)[i as int] == name@);
                    assert(self.is_member(name@));
                    assert(self.stores@[i as int].wf());
                    if r is Ok {
                        assert(self.holds(name@, block_id@, r->Ok_0@));
                    } else {
                        assert forall|d: Seq<u8>| !self.holds(name@, block_id@, d) by {
                            if self.holds(name@, block_id@, d) {
                                let j = choose|j: int|
                                    0 <= j < self.names@.len() && self.names@[j]@ == name@ && has_key(
                                        #[trigger] self.stores@[j]@,
                                        block_id@,
                                    ) && lookup(self.stores@[j]@, block_id@) == d;
                                assert(strs(self.names@)[j] == strs(self.names@)[i as int]);
                            }
                        }
                    }
                }
                r
            },
        }
    }

    /// Writes `data` under `block_id` on node `at` and then down the chain
    /// `remaining`, each node handing the rest of the chain to the next.
    /// Succeeds exactly when every node of the chain is in the cluster, and
    /// then every one of them holds `data` under `block_id`; otherwise
    /// `Unavailable`.
    pub fn put_data(&mut self, at: &String, block_id: &String, data: &Vec<u8>, remaining: &Vec<String>) -> (r: Result<(), DfsError>)
        requires
            old(self).wf(),
        ensures
            final(self).wf(),
            final(self).names@ == old(self).names@,
            forall|i: int|
                0 <= i < old(self).names@.len() && !(seq![at@] + strs(remaining@)).contains(
                    #[trigger] old(self).names@[i]@,
                ) ==> final(self).stores@[i] == old(self).stores@[i],
            ({
                let chain = seq![at@] + strs(remaining@);
                let reachable = forall|j: int| 0 <= j < chain.len() ==> old(self).is_member(#[trigger] chain[j]);
                &&& reachable ==> r is Ok && forall|j: int|
                    0 <= j < chain.len() ==> final(self).holds(#[trigger] chain[j], block_id@, data@)
                &&& !reachable ==> r == Err::<(), DfsError>(DfsError::Unavailable)
            }),
    {
        let ghost chain = seq![at@] + strs(remaining@);
        let mut cur = match self.find(at) {
            Some(i) => i,
            None => {
                assert(!self.is_member(chain[0]));
                return Err(DfsError::Unavailable);
            },
        };
        proof {
            assert(strs(self.names@)[cur as int] == chain[0]);
            assert(self.is_member(chain[0]));
        }
        let mut rest = copy_strings(remaining);
        let ghost mut t: int = 0;
        assert(strs(rest@) =~= chain.skip(1));
        let ghost names0 = self.names@;
        loop
            invariant
                self.wf(),
                self.names@ == names0,
                names0 == old(self).names@,
                0 <= t < chain.len(),
                chain == seq![at@] + strs(remaining@),
                cur < self.names@.len(),
                self.names@[cur as int]@ == chain[t],
                strs(rest@) == chain.skip(t + 1),
                forall|j: int| 0 <= j < t ==> self.holds(#[trigger] chain[j], block_id@, data@),
                forall|j: int| 0 <= j <= t ==> old(self).is_member(#[trigger] chain[j]),
                self.stores@.len() == old(self).stores@.len(),
                forall|i: int|
                    0 <= i < names0.len() && !chain.contains(#[trigger] names0[i]@) ==> self.stores@[i]
                        == old(self).stores@[i],
            decreases rest@.len(),
        {
            let ghost before = *self;
            self.stores[cur].put(block_id, data);
            proof {
                assert(self.stores@ == before.stores@.update(cur as int, self.stores@[cur as int]));
                assert forall|i: int| 0 <= i < self.stores@.len() implies (#[trigger] self.stores@[i]).wf() by {
                    if i != cur {
                        assert(self.stores@[i] == before.stores@[i]);
                    }
                }
                assert(chain.contains(names0[cur as int]@));
                assert forall|i: int|
                    0 <= i < names0.len() && !chain.contains(#[trigger] names0[i]@) implies self.stores@[i]
                        == old(self).stores@[i] by {
                    assert(i != cur);
                    assert(self.stores@[i] == before.stores@[i]);
                }
                assert(self.holds(chain[t], block_id@, data@)) by {
                    assert(has_key(self.stores@[cur as int]@, block_id@));
                }
                assert forall|j: int| 0 <= j <= t implies self.holds(#[trigger] chain[j], block_id@, data@) by {
                    if j < t {
                        assert(before.holds(chain[j], block_id@, data@));
                        let i = choose|i: int|
                            0 <= i < before.names@.len() && before.names@[i]@ == chain[j] && has_key(
                                #[trigger] before.stores@[i]@,
                                block_id@,
                            ) && lookup(before.stores@[i]@, block_id@) == data@;
                        if i != cur {
                            assert(self.stores@[i] == before.stores@[i]);
                        }
                    }
                }
            }
            match after_local_write(Ok(()), &rest) {
                ChainStep::Done(r) => {
                    proof {
                        assert(rest@.len() == 0);
                        assert(chain.skip(t + 1).len() == 0);
                        assert(t + 1 == chain.len());
                    }
                    return r;
                },
                ChainStep::Forward { next, rest: tail } => {
                    proof {
                        assert(strs(rest@)[0] == rest@[0]@);
                        assert(chain.skip(t + 1)[0] == chain[t + 1]);
                        assert(next@ == chain[t + 1]);
                    }
                    cur = match self.find(&next) {
                        Some(i) => i,
                        None => {
                            proof {
                                assert(!old(self).is_member(chain[t + 1]));
                            }
                            return Err(DfsError::Unavailable);
                        },
                    };
                    rest = tail;
                    proof {
                        assert(chain.skip(t + 1).drop_first() =~= chain.skip(t + 2));
                        t = t + 1;
                        assert(old(self).is_member(chain[t])) by {
                            assert(strs(self.names@)[cur as int] == chain[t]);
                        }
                    }
                },
            }
        }
    }

    /// A repair copy: refused with `InvalidArgument`, nothing written, when
    /// `data` is empty; otherwise the same chain write as `put_data`.
    pub fn replication_passthrough(&mut self, at: &String, block_id: &String, data: &Vec<u8>, remaining: &Vec<String>) -> (r: Result<(), DfsError>)
        requires
            old(self).wf(),
        ensures
            final(self).wf(),
            final(self).names@ == old(self).names@,
            data@.len() == 0 ==> r == Err::<(), DfsError>(DfsError::InvalidArgument) && final(self).stores@
                == old(self).stores@,
            data@.len() > 0 ==> {
                let chain = seq![at@] + strs(remaining@);
                let reachable = forall|j: int| 0 <= j < chain.len() ==> old(self).is_member(#[trigger] chain[j]);
                &&& reachable ==> r is Ok && forall|j: int|
                    0 <= j < chain.len() ==> final(self).holds(#[trigger] chain[j], block_id@, data@)
                &&& !reachable ==> r == Err::<(), DfsError>(DfsError::Unavailable)
            },
    {
        match check_passthrough(data) {
            Err(e) => Err(e),
            Ok(()) => self.put_data(at, block_id, data, remaining),
        }
    }
}

} // verus!