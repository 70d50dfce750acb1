//! Recovery from a dead data node ("phoenixing"): the node is forgotten,
//! every replica list drops it, and each block left under the replication
//! factor is given replacement replicas from the nodes still registered.

use vstd::prelude::*;
use vstd::string::*;

use crate::address::{uri_of, AddrModel, SerializableNodeAddress};
use crate::error::DfsError;
use crate::metadata::{
    address_registered, has_key, keys, lemma_strs_push, lemma_views_push, lookup,
    strs, views, BlockRecord, ClusterModel, NameNodeState,
};

verus! {

broadcast use vstd::seq_lib::group_seq_properties;

/// Holds of every id but `dead`.
pub open spec fn other_than(dead: Seq<char>) -> spec_fn(Seq<char>) -> bool {
    |x: Seq<char>| x != dead
}

/// Holds of the ids that `have` does not list.
pub open spec fn absent_from(have: Seq<Seq<char>>) -> spec_fn(Seq<char>) -> bool {
    |x: Seq<char>| !have.contains(x)
}

/// A replica list without `dead`.
pub open spec fn survivors(r: Seq<Seq<char>>, dead: Seq<char>) -> Seq<Seq<char>> {
    r.filter(other_than(dead))
}

/// The nodes of `ids`, in order, that `have` does not list.
pub open spec fn candidates(ids: Seq<Seq<char>>, have: Seq<Seq<char>>) -> Seq<Seq<char>> {
    ids.filter(absent_from(have))
}

/// The replacement replicas for a list `r`: none when `r` is empty (nothing
/// to copy from) or already has `rf` replicas; otherwise the first of the
/// candidates, as many as are missing and as there are.
pub open spec fn additions(r: Seq<Seq<char>>, ids: Seq<Seq<char>>, rf: nat) -> Seq<Seq<char>> {
    if r.len() == 0 || r.len() >= rf {
        Seq::empty()
    } else {
        let c = candidates(ids, r);
        let n = if rf - r.len() < c.len() {
            rf - r.len()
        } else {
            c.len() as int
        };
        c.take(n)
    }
}

impl ClusterModel {
    /// Where the node registered at `a` stands.
    pub open spec fn index_of_address(self, a: AddrModel) -> int {
        choose|i: int| 0 <= i < self.nodes.len() && self.nodes[i].1 == a
    }

    /// The registered nodes once the node at `k` is gone.
    pub open spec fn remaining_nodes(self, k: int) -> Seq<(Seq<char>, AddrModel)> {
        self.nodes.remove(k)
    }

    /// A block's record after the pass that removed `dead`, where `ids` are
    /// the nodes still registered.
    pub open spec fn repaired_block(self, b: (Seq<char>, Seq<Seq<char>>), dead: Seq<char>, ids: Seq<Seq<char>>) -> (Seq<char>, Seq<Seq<char>>) {
        let s = survivors(b.1, dead);
        (b.0, s + additions(s, ids, self.repl_factor))
    }

    /// The metadata after the node at `k` is declared dead.
    pub open spec fn phoenixed(self, k: int) -> ClusterModel {
        let dead = self.nodes[k].0;
        let nodes = self.remaining_nodes(k);
        ClusterModel {
            nodes,
            blocks: self.blocks.map_values(
                |b: (Seq<char>, Seq<Seq<char>>)| self.repaired_block(b, dead, keys(nodes)),
            ),
            ..self
        }
    }
}

proof fn lemma_filter_no_dup<A>(s: Seq<A>, p: spec_fn(A) -> bool)
    requires
        s.no_duplicates(),
    ensures
        s.filter(p).no_duplicates(),
        forall|x: A| #[trigger] s.filter(p).contains(x) ==> s.contains(x) && p(x),
    decreases s.len(),
{
    reveal(Seq::filter);
    if s.len() > 0 {
        let t = s.drop_last();
        assert(t.no_duplicates());
        lemma_filter_no_dup(t, p);
        let ft = t.filter(p);
        assert(s.filter(p) == if p(s.last()) { ft.push(s.last()) } else { ft });
        if p(s.last()) {
            assert(!t.contains(s.last()));
            assert(!ft.contains(s.last()));
            let f = ft.push(s.last());
            assert forall|a: int, b: int| 0 <= a < f.len() && 0 <= b < f.len() && a != b implies f[a] != f[b] by {
                if a == ft.len() {
                    assert(ft.contains(f[b]));
                } else if b == ft.len() {
                    assert(ft.contains(f[a]));
                }
            }
            assert forall|x: A| #[trigger] f.contains(x) implies s.contains(x) && p(x) by {
                if x != s.last() {
                    let j = choose|j: int| 0 <= j < f.len() && f[j] == x;
                    assert(ft.contains(x));
                    assert(t.contains(x));
                }
            }
        } else {
            assert forall|x: A| #[trigger] ft.contains(x) implies s.contains(x) && p(x) by {
                assert(t.contains(x));
            }
        }
    }
}

/// Dropping one id from a replica list without repeats shortens it by one.
proof fn lemma_survivors_len(s: Seq<Seq<char>>, d: Seq<char>)
    requires
        s.no_duplicates(),
        s.contains(d),
    ensures
        survivors(s, d).len() == s.len() - 1,
    decreases s.len(),
{
    reveal(Seq::filter);
    let p = other_than(d);
    let t = s.drop_last();
    if s.last() == d {
        assert forall|x: Seq<char>| t.contains(x) implies p(x) by {
            let j = choose|j: int| 0 <= j < t.len() && t[j] == x;
            assert(s[j] == x);
        }
        lemma_filter_keeps_all(t, p);
    } else {
        let j = choose|j: int| 0 <= j < s.len() && s[j] == d;
        assert(t[j] == d);
        assert(t.no_duplicates());
        lemma_survivors_len(t, d);
    }
}

proof fn lemma_filter_keeps_all<A>(s: Seq<A>, p: spec_fn(A) -> bool)
    requires
        forall|x: A| s.contains(x) ==> p(x),
    ensures
        s.filter(p) == s,
    decreases s.len(),
{
    reveal(Seq::filter);
    if s.len() > 0 {
        let t = s.drop_last();
        assert forall|x: A| t.contains(x) implies p(x) by {
            let j = choose|j: int| 0 <= j < t.len() && t[j] == x;
            assert(t[j] == s[j]);
            assert(s.contains(x));
        }
        lemma_filter_keeps_all(t, p);
        assert(s.contains(s.last()));
        assert(t.push(s.last()) =~= s);
    }
}

/// Whether `x` is in `v`.
pub fn contains_string(v: &Vec<String>, x: &String) -> (r: bool)
    ensures
        r == strs(v@).contains(x@),
{
    let mut i: usize = 0;
    while i < v.len()
        invariant
            i <= v.len(),
            forall|j: int| 0 <= j < i ==> strs(v@)[j] != x@,
        decreases v.len() - i,
    {
        if v[i] == *x {
            assert(strs(v@)[i as int] == x@);
            return true;
        }
        i += 1;
    }
    false
}

/// `v` without `dead`.
pub fn survivors_of(v: &Vec<String>, dead: &String) -> (r: Vec<String>)
    ensures
        strs(r@) == survivors(strs(v@), dead@),
{
    let ghost s = strs(v@);
    let mut out: Vec<String> = Vec::new();
    let mut i: usize = 0;
    while i < v.len()
        invariant
            s == strs(v@),
            i <= v.len(),
            strs(out@) == survivors(s.take(i as int), dead@),
        decreases v.len() - i,
    {
        proof {
            assert(s.take(i + 1) =~= s.take(i as int).push(s[i as int]));
            s.take(i as int).lemma_filter_push(s[i as int], other_than(dead@));
        }
        if v[i] != *dead {
            let ghost before = out@;
            let c = v[i].clone();
            out.push(c);
            proof { lemma_strs_push(before, c); }
        }
        i += 1;
    }
    assert(s.take(i as int) =~= s);
    out
}

/// The replacement replicas for `have` among `ids`, as `additions` states.
pub fn additions_for(have: &Vec<String>, ids: &Vec<String>, rf: u32) -> (r: Vec<String>)
    ensures
        strs(r@) == additions(strs(have@), strs(ids@), rf as nat),
{
    let mut out: Vec<String> = Vec::new();
    if have.len() == 0 || have.len() >= rf as usize {
        assert(strs(out@) =~= Seq::<Seq<char>>::empty());
        return out;
    }
    let need: usize = rf as usize - have.len();
    let ghost h = strs(have@);
    let ghost s = strs(ids@);
    let mut i: usize = 0;
    while i < ids.len()
        invariant
            h == strs(have@),
            s == strs(ids@),
            i <= ids.len(),
            0 < need,
            ({
                let c = candidates(s.take(i as int), h);
                strs(out@) == c.take(if need < c.len() { need as int } else { c.len() as int })
            }),
        decreases ids.len() - i,
    {
        let ghost c0 = candidates(s.take(i as int), h);
        proof {
            assert(s.take(i + 1) =~= s.take(i as int).push(s[i as int]));
            s.take(i as int).lemma_filter_push(s[i as int], absent_from(h));
        }
        if !contains_string(have, &ids[i]) {
            if out.len() < need {
                let ghost before = out@;
                let c = ids[i].clone();
                out.push(c);
                proof {
                    lemma_strs_push(before, c);
                    assert(c0.take(c0.len() as int) =~= c0);
                    let c1 = candidates(s.take(i + 1), h);
                    assert(c1 == c0.push(s[i as int]));
                    assert(strs(out@) =~= c1.take(if need < c1.len() { need as int } else { c1.len() as int }));
                }
            } else {
                proof {
                    let c1 = candidates(s.take(i + 1), h);
                    assert(c1 == c0.push(s[i as int]));
                    assert(c1.take(need as int) =~= c0.take(need as int));
                }
            }
        }
        i += 1;
    }
    assert(s.take(i as int) =~= s);
    out
}


/// The copy that one repaired block needs: from `source`, a surviving
/// replica, onto the nodes `new_node_ids` (at `targets`), which the block's
/// replica list now names after its survivors.
#[derive(Debug, Clone)]
pub struct Repair {
    pub block_id: String,
    pub source: SerializableNodeAddress,
    pub new_node_ids: Vec<String>,
    pub targets: Vec<SerializableNodeAddress>,
}

impl View for Repair {
    type V = (Seq<char>, AddrModel, Seq<Seq<char>>, Seq<AddrModel>);

    open spec fn view(&self) -> Self::V {
        (self.block_id@, self.source@, strs(self.new_node_ids@), views(self.targets@))
    }
}

/// What a phoenixing pass did to the metadata, and what is left to copy.
#[derive(Debug, Clone)]
pub struct PhoenixingOutcome {
    pub dead_node_id: String,
    /// One entry per block that was given replacement replicas, in block
    /// order.
    pub repairs: Vec<Repair>,
    /// The blocks still under the replication factor, in block order.
    pub unrepaired: Vec<String>,
}

impl ClusterModel {
    /// A block gets replacement replicas in the pass that removes `dead`.
    pub open spec fn gets_repair(self, b: (Seq<char>, Seq<Seq<char>>), dead: Seq<char>, ids: Seq<Seq<char>>) -> bool {
        additions(survivors(b.1, dead), ids, self.repl_factor).len() > 0
    }

    /// The copy that block `b` needs after that pass, read against the
    /// metadata `after` it.
    pub open spec fn repair_of(self, after: ClusterModel, b: (Seq<char>, Seq<Seq<char>>), dead: Seq<char>) -> (Seq<char>, AddrModel, Seq<Seq<char>>, Seq<AddrModel>) {
        let s = survivors(b.1, dead);
        let a = additions(s, after.node_ids(), self.repl_factor);
        (b.0, lookup(after.nodes, s[0]), a, after.addresses_of(a))
    }

    /// Holds of the blocks that get replacement replicas once the node at
    /// `k` is declared dead.
    pub open spec fn repair_filter(self, k: int) -> spec_fn((Seq<char>, Seq<Seq<char>>)) -> bool {
        |b: (Seq<char>, Seq<Seq<char>>)| self.gets_repair(b, self.nodes[k].0, self.phoenixed(k).node_ids())
    }

    /// The copies, in block order, once the node at `k` is declared dead.
    pub open spec fn repairs(self, k: int, blocks: Seq<(Seq<char>, Seq<Seq<char>>)>) -> Seq<(Seq<char>, AddrModel, Seq<Seq<char>>, Seq<AddrModel>)> {
        blocks.filter(self.repair_filter(k)).map_values(
            |b: (Seq<char>, Seq<Seq<char>>)| self.repair_of(self.phoenixed(k), b, self.nodes[k].0),
        )
    }

    /// Holds of the blocks under the replication factor.
    pub open spec fn short_filter(self) -> spec_fn((Seq<char>, Seq<Seq<char>>)) -> bool {
        |b: (Seq<char>, Seq<Seq<char>>)| b.1.len() < self.repl_factor
    }

    /// The blocks of `blocks` under the replication factor.
    pub open spec fn under_replicated(self, blocks: Seq<(Seq<char>, Seq<Seq<char>>)>) -> Seq<Seq<char>> {
        blocks.filter(self.short_filter()).map_values(|b: (Seq<char>, Seq<Seq<char>>)| b.0)
    }
}

proof fn lemma_remove_keeps_key(m: ClusterModel, k: int, x: Seq<char>)
    requires
        0 <= k < m.nodes.len(),
        has_key(m.nodes, x),
        x != m.nodes[k].0,
    ensures
        has_key(m.nodes.remove(k), x),
{
    let j = choose|j: int| 0 <= j < m.nodes.len() && m.nodes[j].0 == x;
    let r = m.nodes.remove(k);
    if j < k {
        assert(r[j].0 == x);
    } else {
        assert(j > k);
        assert(r[j - 1].0 == x);
    }
}

proof fn lemma_phoenixed_wf(m: ClusterModel, k: int)
    requires
        m.wf(),
        0 <= k < m.nodes.len(),
    ensures
        m.phoenixed(k).wf(),
        !has_key(m.phoenixed(k).nodes, m.nodes[k].0),
        !address_registered(m.phoenixed(k).nodes, m.nodes[k].1),
        forall|i: int| 0 <= i < m.phoenixed(k).blocks.len() ==> !(#[trigger] m.phoenixed(k).blocks[i]).1.contains(m.nodes[k].0),
{
    let a = m.phoenixed(k);
    let dead = m.nodes[k].0;
    let nodes = a.nodes;
    let ids = keys(nodes);
    assert(nodes == m.nodes.remove(k));
    assert forall|i: int, j: int| 0 <= i < nodes.len() && 0 <= j < nodes.len() && i != j implies nodes[i].0 != nodes[j].0 && nodes[i].1 != nodes[j].1 by {
        let oi = if i < k { i } else { i + 1 };
        let oj = if j < k { j } else { j + 1 };
        assert(nodes[i] == m.nodes[oi]);
        assert(nodes[j] == m.nodes[oj]);
    }
    assert forall|i: int| 0 <= i < nodes.len() implies nodes[i].0 != dead && nodes[i].1 != m.nodes[k].1 by {
        let oi = if i < k { i } else { i + 1 };
        assert(nodes[i] == m.nodes[oi]);
    }
    assert(ids.no_duplicates()) by {
        assert forall|i: int, j: int| 0 <= i < ids.len() && 0 <= j < ids.len() && i != j implies ids[i] != ids[j] by {
            assert(ids[i] == nodes[i].0);
            assert(ids[j] == nodes[j].0);
        }
    }
    assert forall|i: int| 0 <= i < a.blocks.len() implies a.replicas_ok(#[trigger] a.blocks[i].1) && !a.blocks[i].1.contains(dead) by {
        let old_r = m.blocks[i].1;
        assert(m.replicas_ok(old_r));
        let p = other_than(dead);
        let s = survivors(old_r, dead);
        lemma_filter_no_dup(old_r, p);
        let c = candidates(ids, s);
        let q = absent_from(s);
        lemma_filter_no_dup(ids, q);
        let add = additions(s, ids, m.repl_factor);
        assert(add.no_duplicates());
        assert forall|y: Seq<char>| add.contains(y) implies c.contains(y) by {
            let j = choose|j: int| 0 <= j < add.len() && add[j] == y;
            assert(c[j] == y);
        }
        assert(a.blocks[i].1 == s + add);
        assert forall|x: int, y: int| 0 <= x < s.len() && 0 <= y < add.len() implies s[x] != add[y] by {
            assert(add.contains(add[y]));
            assert(c.contains(add[y]));
            assert(s.contains(s[x]));
        }
        vstd::seq_lib::lemma_no_dup_in_concat(s, add);
        old_r.lemma_filter_len(p);
        let r = s + add;
        assert forall|j: int| 0 <= j < r.len() implies has_key(nodes, #[trigger] r[j]) && r[j] != dead by {
            if j < s.len() {
                assert(s.contains(s[j]));
                assert(old_r.contains(s[j]));
                let o = choose|o: int| 0 <= o < old_r.len() && old_r[o] == s[j];
                assert(has_key(m.nodes, old_r[o]));
                lemma_remove_keeps_key(m, k, s[j]);
            } else {
                let y = add[j - s.len()];
                assert(add.contains(y));
                assert(c.contains(y));
                assert(ids.contains(y));
                let o = choose|o: int| 0 <= o < ids.len() && ids[o] == y;
                assert(nodes[o].0 == y);
            }
        }
    }
    assert forall|i: int, j: int| 0 <= i < a.files.len() && 0 <= j < a.files[i].1.len() implies has_key(
        a.blocks,
        #[trigger] a.files[i].1[j],
    ) by {
        let b = a.files[i].1[j];
        assert(has_key(m.blocks, b));
        let o = choose|o: int| 0 <= o < m.blocks.len() && m.blocks[o].0 == b;
        assert(a.blocks[o].0 == b);
    }
    assert forall|i: int, j: int| 0 <= i < a.blocks.len() && 0 <= j < a.blocks.len() && i != j implies a.blocks[i].0 != a.blocks[j].0 by {
        assert(a.blocks[i].0 == m.blocks[i].0);
        assert(a.blocks[j].0 == m.blocks[j].0);
    }
    assert forall|i: int| 0 <= i < nodes.len() implies nodes[i].0 != dead by {}
}

impl NameNodeState {
    /// Declares the node at `dead` dead: forgets it, drops it from every
    /// replica list, and gives each block left under the replication factor
    /// replacement replicas (see `additions`). Refused with `NotFound`, the
    /// metadata unchanged, when no node is registered at `dead`.
    pub fn phoenixing(&mut self, dead: &SerializableNodeAddress) -> (r: Result<PhoenixingOutcome, DfsError>)
        requires
            old(self)@.wf(),
        ensures
            final(self)@.wf(),
            !address_registered(old(self)@.nodes, dead@) ==> r == Err::<PhoenixingOutcome, DfsError>(DfsError::NotFound)
                && final(self)@ == old(self)@,
            address_registered(old(self)@.nodes, dead@) ==> r is Ok && ({
                let m = old(self)@;
                let k = m.index_of_address(dead@);
                let o = r->Ok_0;
                &&& 0 <= k < m.nodes.len()
                &&& m.nodes[k].1 == dead@
                &&& o.dead_node_id@ == m.nodes[k].0
                &&& final(self)@ == m.phoenixed(k)
                &&& views(o.repairs@) == m.repairs(k, m.blocks)
                &&& strs(o.unrepaired@) == m.under_replicated(m.phoenixed(k).blocks)
                &&& !has_key(final(self)@.nodes, o.dead_node_id@)
                &&& !address_registered(final(self)@.nodes, dead@)
                &&& forall|i: int| 0 <= i < final(self)@.blocks.len()
                    ==> !(#[trigger] final(self)@.blocks[i]).1.contains(o.dead_node_id@)
            }),
    {
        let k = match self.find_node_by_address(dead) {
            Some(k) => k,
            None => return Err(DfsError::NotFound),
        };
        let ghost m = self@;
        proof {
            let c = m.index_of_address(dead@);
            assert(0 <= c < m.nodes.len() && m.nodes[c].1 == dead@);
            assert(c == k);
            lemma_phoenixed_wf(m, k as int);
        }
        let ghost after = m.phoenixed(k as int);
        let dead_id = self.id_to_data_nodes[k].id.clone();
        self.id_to_data_nodes.remove(k);
        proof {
            assert(self@.nodes =~= m.nodes.remove(k as int));
        }
        let ids = self.node_ids();
        let rf = self.repl_factor;
        let n = self.block_to_data_node_ids.len();
        let mut new_blocks: Vec<BlockRecord> = Vec::new();
        let mut repairs: Vec<Repair> = Vec::new();
        let mut unrepaired: Vec<String> = Vec::new();
        let mut i: usize = 0;
        while i < n
            invariant
                self@ == (ClusterModel { nodes: m.nodes.remove(k as int), ..m }),
                after == m.phoenixed(k as int),
                after.wf(),
                m.wf(),
                k < m.nodes.len(),
                dead_id@ == m.nodes[k as int].0,
                strs(ids@) == after.node_ids(),
                rf == m.repl_factor,
                n == m.blocks.len(),
                i <= n,
                views(new_blocks@) == after.blocks.take(i as int),
                views(repairs@) == m.repairs(k as int, m.blocks.take(i as int)),
                strs(unrepaired@) == m.under_replicated(after.blocks.take(i as int)),
            decreases n - i,
        {
            let ghost b = m.blocks[i as int];
            let block_id = self.block_to_data_node_ids[i].block_id.clone();
            let surv = survivors_of(&self.block_to_data_node_ids[i].replica_node_ids, &dead_id);
            let add = additions_for(&surv, &ids, rf);
            let ghost nb = after.blocks[i as int];
            assert(nb == m.repaired_block(b, dead_id@, after.node_ids()));
            proof {
                assert(m.blocks.take(i + 1) =~= m.blocks.take(i as int).push(b));
                assert(after.blocks.take(i + 1) =~= after.blocks.take(i as int).push(nb));
                m.blocks.take(i as int).lemma_filter_push(b, m.repair_filter(k as int));
                after.blocks.take(i as int).lemma_filter_push(nb, m.short_filter());
                assert(after.replicas_ok(nb.1));
            }
            if add.len() > 0 {
                proof {
                    assert(strs(surv@).len() > 0);
                    assert(nb.1 == strs(surv@) + strs(add@));
                    assert(nb.1[0] == strs(surv@)[0]);
                    assert(has_key(after.nodes, nb.1[0]));
                    assert forall|j: int| 0 <= j < add@.len() implies has_key(self@.nodes, #[trigger] strs(add@)[j]) by {
                        assert(nb.1[strs(surv@).len() + j] == strs(add@)[j]);
                    }
                }
                let source = self.address_of(&surv[0]);
                let targets = self.addresses_of(&add);
                let rep = Repair {
                    block_id: block_id.clone(),
                    source,
                    new_node_ids: crate::metadata::copy_strings(&add),
                    targets,
                };
                let ghost before = repairs@;
                proof {
                    assert(rep@ == m.repair_of(after, b, dead_id@));
                }
                repairs.push(rep);
                proof {
                    lemma_views_push(before, rep);
                    assert(views(repairs@) =~= m.repairs(k as int, m.blocks.take(i + 1)));
                }
            } else {
                assert(views(repairs@) =~= m.repairs(k as int, m.blocks.take(i + 1)));
            }
            let mut reps = surv;
            let mut more = add;
            reps.append(&mut more);
            assert(strs(reps@) =~= nb.1);
            if reps.len() < rf as usize {
                let ghost before = unrepaired@;
                let c = block_id.clone();
                unrepaired.push(c);
                proof {
                    lemma_strs_push(before, c);
                    assert(strs(unrepaired@) =~= m.under_replicated(after.blocks.take(i + 1)));
                }
            } else {
                assert(strs(unrepaired@) =~= m.under_replicated(after.blocks.take(i + 1)));
            }
            let rec = BlockRecord { block_id, replica_node_ids: reps };
            let ghost before = new_blocks@;
            new_blocks.push(rec);
            proof {
                lemma_views_push(before, rec);
            }
            i += 1;
        }
        self.block_to_data_node_ids = new_blocks;
        proof {
            assert(after.blocks.take(i as int) =~= after.blocks);
            assert(m.blocks.take(i as int) =~= m.blocks);
            assert(self@ =~= after);
        }
        Ok(PhoenixingOutcome { dead_node_id: dead_id, repairs, unrepaired })
    }
}

/// The nodes whose heartbeat went unanswered: each is declared dead.
pub open spec fn unanswered(addresses: Seq<AddrModel>, answered: Seq<bool>) -> Seq<AddrModel>
    decreases addresses.len(),
{
    if addresses.len() == 0 {
        Seq::empty()
    } else {
        let rest = unanswered(addresses.drop_last(), answered.take(addresses.len() - 1));
        if answered[addresses.len() - 1] {
            rest
        } else {
            rest.push(addresses.last())
        }
    }
}

/// The probed nodes, in order, whose heartbeat was not answered; a node
/// that misses one heartbeat is declared dead.
pub fn dead_nodes(addresses: &Vec<SerializableNodeAddress>, answered: &Vec<bool>) -> (r: Vec<SerializableNodeAddress>)
    requires
        answered@.len() == addresses@.len(),
    ensures
        views(r@) == unanswered(views(addresses@), answered@),
{
    let ghost a = views(addresses@);
    let mut out: Vec<SerializableNodeAddress> = Vec::new();
    let mut i: usize = 0;
    while i < addresses.len()
        invariant
            a == views(addresses@),
            answered@.len() == addresses@.len(),
            i <= addresses.len(),
            views(out@) == unanswered(a.take(i as int), answered@.take(i as int)),
        decreases addresses.len() - i,
    {
        proof {
            assert(a.take(i + 1).drop_last() =~= a.take(i as int));
            assert(answered@.take(i + 1).take(i as int) =~= answered@.take(i as int));
            assert(a.take(i + 1).last() == a[i as int]);
        }
        if !answered[i] {
            let ghost before = out@;
            let x = addresses[i].duplicate();
            out.push(x);
            proof { lemma_views_push(before, x); }
        }
        i += 1;
    }
    assert(a.take(i as int) =~= a);
    assert(answered@.take(i as int) =~= answered@);
    out
}

impl Repair {
    /// Where the copy goes: the first new replica, and the others as the
    /// `host:port` chain it relays to; none when the repair has no target.
    pub fn copy_chain(&self) -> (r: Option<(SerializableNodeAddress, Vec<String>)>)
        ensures
            self.targets@.len() == 0 ==> r is None,
            self.targets@.len() > 0 ==> r is Some && r->Some_0.0@ == self.targets@[0]@ && strs(r->Some_0.1@)
                == views(self.targets@).drop_first().map_values(|x: AddrModel| uri_of(x)),
    {
        if self.targets.len() == 0 {
            return None;
        }
        let ghost t = views(self.targets@).drop_first().map_values(|x: AddrModel| uri_of(x));
        let mut rest: Vec<String> = Vec::new();
        let mut i: usize = 1;
        while i < self.targets.len()
            invariant
                1 <= i <= self.targets.len(),
                t == views(self.targets@).drop_first().map_values(|x: AddrModel| uri_of(x)),
                strs(rest@) == t.take(i - 1),
            decreases self.targets.len() - i,
        {
            let ghost before = rest@;
            let u = self.targets[i].uri();
            rest.push(u);
            proof { lemma_strs_push(before, u); }
            i += 1;
            assert(strs(rest@) =~= t.take(i - 1));
        }
        assert(t.take(i - 1) =~= t);
        Some((self.targets[0].duplicate(), rest))
    }
}

/// The outcome of a phoenixing pass as it is reported to the caller.
#[derive(Debug, Clone)]
pub struct PhoenixingResult {
    pub success: bool,
    pub message: String,
    /// The addresses that now hold copies they did not hold before.
    pub new_nodes: Vec<SerializableNodeAddress>,
    /// Why the pass fell short, if it did.
    pub error: Option<DfsError>,
}

/// The targets of the repairs whose copy succeeded, in order.
pub open spec fn copied_targets(
    repairs: Seq<(Seq<char>, AddrModel, Seq<Seq<char>>, Seq<AddrModel>)>,
    copied: Seq<bool>,
) -> Seq<AddrModel>
    decreases repairs.len(),
{
    if repairs.len() == 0 {
        Seq::empty()
    } else {
        copied_targets(repairs.drop_last(), copied.take(repairs.len() - 1)) + if copied[repairs.len() - 1] {
            repairs.last().3
        } else {
            Seq::empty()
        }
    }
}

/// Why a pass fell short: blocks left under the target (for want of spare
/// nodes or of a surviving replica), else a copy that failed.
pub open spec fn shortfall(unrepaired: nat, copied: Seq<bool>) -> Option<DfsError> {
    if unrepaired > 0 {
        Some(DfsError::ResourceExhausted)
    } else if exists|j: int| 0 <= j < copied.len() && !copied[j] {
        Some(DfsError::Unavailable)
    } else {
        None
    }
}

/// The message that goes with a report.
pub open spec fn report_message(error: Option<DfsError>) -> Seq<char> {
    match error {
        Some(DfsError::ResourceExhausted) => "Some blocks remain under-replicated: no available DataNodes or no surviving replica"@,
        Some(_) => "Re-replication failed for some blocks"@,
        None => "Re-replication completed"@,
    }
}

/// The report of a pass, given for each of its repairs whether the copy
/// onto the new replicas succeeded.
pub fn phoenixing_report(outcome: &PhoenixingOutcome, copied: &Vec<bool>) -> (r: PhoenixingResult)
    requires
        copied@.len() == outcome.repairs@.len(),
    ensures
        r.error == shortfall(outcome.unrepaired@.len(), copied@),
        r.success == (r.error is None),
        r.message@ == report_message(r.error),
        views(r.new_nodes@) == copied_targets(views(outcome.repairs@), copied@),
{
    let ghost rs = views(outcome.repairs@);
    let mut new_nodes: Vec<SerializableNodeAddress> = Vec::new();
    let mut all_copied = true;
    let mut i: usize = 0;
    while i < copied.len()
        invariant
            rs == views(outcome.repairs@),
            copied@.len() == outcome.repairs@.len(),
            i <= copied.len(),
            all_copied == forall|j: int| 0 <= j < i ==> copied@[j],
            views(new_nodes@) == copied_targets(rs.take(i as int), copied@.take(i as int)),
        decreases copied.len() - i,
    {
        let ghost before = views(new_nodes@);
        proof {
            let t = rs.take(i + 1);
            assert(t.drop_last() =~= rs.take(i as int));
            assert(copied@.take(i + 1).take(i as int) =~= copied@.take(i as int));
            assert(t.last() == rs[i as int]);
        }
        if copied[i] {
            let targets = &outcome.repairs[i].targets;
            let mut j: usize = 0;
            while j < targets.len()
                invariant
                    i < outcome.repairs@.len(),
                    targets == &outcome.repairs@[i as int].targets,
                    j <= targets.len(),
                    views(new_nodes@) == before + views(targets@).take(j as int),
                decreases targets.len() - j,
            {
                let ghost b2 = new_nodes@;
                let a = targets[j].duplicate();
                new_nodes.push(a);
                proof { lemma_views_push(b2, a); }
                j += 1;
                assert(views(new_nodes@) =~= before + views(targets@).take(j as int));
            }
            assert(views(targets@).take(j as int) =~= rs[i as int].3);
        } else {
            all_copied = false;
            assert(views(new_nodes@) =~= before + Seq::<AddrModel>::empty());
        }
        i += 1;
    }
    assert(rs.take(i as int) =~= rs);
    assert(copied@.take(i as int) =~= copied@);
    let error = if outcome.unrepaired.len() > 0 {
        Some(DfsError::ResourceExhausted)
    } else if !all_copied {
        Some(DfsError::Unavailable)
    } else {
        None
    };
    let message = match error {
        Some(DfsError::ResourceExhausted) => String::from_str("Some blocks remain under-replicated: no available DataNodes or no surviving replica"),
        Some(_) => String::from_str("Re-replication failed for some blocks"),
        None => String::from_str("Re-replication completed"),
    };
    PhoenixingResult { success: error.is_none(), message, new_nodes, error }
}

impl ClusterModel {
    /// The metadata once the replicas `drop` are taken off block `block`.
    pub open spec fn without_replicas(self, block: Seq<char>, drop: Seq<Seq<char>>) -> ClusterModel {
        let i = crate::allocator::key_index(self.blocks, block);
        ClusterModel {
            blocks: self.blocks.update(i, (block, self.blocks[i].1.filter(absent_from(drop)))),
            ..self
        }
    }
}

impl NameNodeState {
    /// Takes the replicas that a repair added off its block again, after the
    /// copy onto them failed; the block stays under-replicated, eligible for
    /// a later pass. Refused with `NotFound` when the block is unknown.
    pub fn abandon_repair(&mut self, repair: &Repair) -> (r: Result<(), DfsError>)
        requires
            old(self)@.wf(),
        ensures
            final(self)@.wf(),
            !has_key(old(self)@.blocks, repair.block_id@) ==> r == Err::<(), DfsError>(DfsError::NotFound)
                && final(self)@ == old(self)@,
            has_key(old(self)@.blocks, repair.block_id@) ==> r is Ok
                && final(self)@ == old(self)@.without_replicas(repair.block_id@, strs(repair.new_node_ids@)),
    {
        let bi = match self.find_block(&repair.block_id) {
            Some(bi) => bi,
            None => return Err(DfsError::NotFound),
        };
        let ghost m = self@;
        let ghost drop = strs(repair.new_node_ids@);
        proof {
            let c = crate::allocator::key_index(m.blocks, repair.block_id@);
            assert(0 <= c < m.blocks.len() && m.blocks[c].0 == repair.block_id@);
            assert(c == bi);
        }
        let old_reps = &self.block_to_data_node_ids[bi].replica_node_ids;
        let ghost s = strs(old_reps@);
        let mut kept: Vec<String> = Vec::new();
        let mut i: usize = 0;
        while i < old_reps.len()
            invariant
                s == strs(old_reps@),
                drop == strs(repair.new_node_ids@),
                i <= old_reps.len(),
                strs(kept@) == s.take(i as int).filter(absent_from(drop)),
            decreases old_reps.len() - i,
        {
            proof {
                assert(s.take(i + 1) =~= s.take(i as int).push(s[i as int]));
                s.take(i as int).lemma_filter_push(s[i as int], absent_from(drop));
            }
            if !contains_string(&repair.new_node_ids, &old_reps[i]) {
                let ghost before = kept@;
                let c = old_reps[i].clone();
                kept.push(c);
                proof { lemma_strs_push(before, c); }
            }
            i += 1;
        }
        assert(s.take(i as int) =~= s);
        let block_id = self.block_to_data_node_ids[bi].block_id.clone();
        self.block_to_data_node_ids[bi] = BlockRecord { block_id, replica_node_ids: kept };
        proof {
            let target = m.without_replicas(repair.block_id@, drop);
            assert(self@.blocks =~= target.blocks);
            assert(self@ =~= target);
            let r = s.filter(absent_from(drop));
            assert(m.replicas_ok(s));
            lemma_filter_no_dup(s, absent_from(drop));
            s.lemma_filter_len(absent_from(drop));
            assert forall|j: int| 0 <= j < r.len() implies has_key(m.nodes, #[trigger] r[j]) by {
                assert(r.contains(r[j]));
                assert(s.contains(r[j]));
                let o = choose|o: int| 0 <= o < s.len() && s[o] == r[j];
                assert(has_key(m.nodes, s[o]));
            }
            assert(target.replicas_ok(r));
            assert forall|x: int| 0 <= x < target.blocks.len() implies target.replicas_ok(#[trigger] target.blocks[x].1) by {
                if x != bi {
                    assert(target.blocks[x] == m.blocks[x]);
                }
            }
            assert forall|x: int, y: int| 0 <= x < target.files.len() && 0 <= y < target.files[x].1.len() implies has_key(
                target.blocks,
                #[trigger] target.files[x].1[y],
            ) by {
                let b = target.files[x].1[y];
                assert(has_key(m.blocks, b));
                let o = choose|o: int| 0 <= o < m.blocks.len() && m.blocks[o].0 == b;
                assert(target.blocks[o].0 == b);
            }
            assert forall|x: int, y: int| 0 <= x < target.blocks.len() && 0 <= y < target.blocks.len() && x != y implies target.blocks[x].0 != target.blocks[y].0 by {
                assert(target.blocks[x].0 == m.blocks[x].0);
                assert(target.blocks[y].0 == m.blocks[y].0);
            }
        }
        Ok(())
    }
}

/// A block that had exactly three replicas under a replication factor of
/// three, one of them on the node declared dead, keeps its two survivors
/// first; when some other registered node does not hold it, one such node is
/// added, and it has three replicas again; otherwise it keeps the two and is
/// listed as under-replicated.
pub proof fn lemma_phoenixing_restores_replicas(m: ClusterModel, k: int, i: int)
    requires
        m.wf(),
        m.repl_factor == 3,
        0 <= k < m.nodes.len(),
        0 <= i < m.blocks.len(),
        m.blocks[i].1.len() == 3,
        m.blocks[i].1.contains(m.nodes[k].0),
    ensures
        ({
            let dead = m.nodes[k].0;
            let s = survivors(m.blocks[i].1, dead);
            let after = m.phoenixed(k);
            let spare = exists|j: int| 0 <= j < m.nodes.len() && j != k && !m.blocks[i].1.contains(#[trigger] m.nodes[j].0);
            &&& s.len() == 2
            &&& after.blocks[i].1.take(2) == s
            &&& spare ==> after.blocks[i].1.len() == 3 && !s.contains(after.blocks[i].1[2])
                && has_key(after.nodes, after.blocks[i].1[2])
            &&& !spare ==> after.blocks[i].1 == s && m.under_replicated(after.blocks).contains(m.blocks[i].0)
        }),
{
    let dead = m.nodes[k].0;
    let r = m.blocks[i].1;
    let s = survivors(r, dead);
    let after = m.phoenixed(k);
    let ids = after.node_ids();
    let c = candidates(ids, s);
    assert(m.replicas_ok(r));
    lemma_survivors_len(r, dead);
    lemma_filter_no_dup(r, other_than(dead));
    lemma_phoenixed_wf(m, k);
    assert forall|x: int, y: int| 0 <= x < ids.len() && 0 <= y < ids.len() && x != y implies ids[x] != ids[y] by {
        assert(ids[x] == after.nodes[x].0);
        assert(ids[y] == after.nodes[y].0);
    }
    lemma_filter_no_dup(ids, absent_from(s));
    let add = additions(s, ids, 3);
    assert(after.blocks[i].1 == s + add);
    assert((s + add).take(2) =~= s);
    if exists|j: int| 0 <= j < m.nodes.len() && j != k && !m.blocks[i].1.contains(#[trigger] m.nodes[j].0) {
        let j = choose|j: int| 0 <= j < m.nodes.len() && j != k && !m.blocks[i].1.contains(#[trigger] m.nodes[j].0);
        let x = m.nodes[j].0;
        let jj = if j < k { j } else { j - 1 };
        assert(after.nodes[jj] == m.nodes[j]);
        assert(ids[jj] == x);
        assert(!s.contains(x)) by {
            if s.contains(x) {
                assert(r.contains(x));
            }
        }
        ids.lemma_filter_contains(absent_from(s), jj);
        assert(c.len() >= 1);
        assert(add == c.take(1));
        assert(c.contains(c[0]));
        lemma_phoenixed_wf(m, k);
        assert(after.replicas_ok(after.blocks[i].1));
        assert((s + add)[2] == c[0]);
        assert(has_key(after.nodes, (s + add)[2]));
    } else {
        if c.len() > 0 {
            assert(c.contains(c[0]));
            let y = c[0];
            assert(ids.contains(y));
            assert(!s.contains(y));
            let o = choose|o: int| 0 <= o < ids.len() && ids[o] == y;
            let oo = if o < k { o } else { o + 1 };
            assert(after.nodes[o] == m.nodes[oo]);
            assert(oo != k);
            assert(r.contains(m.nodes[oo].0));
            lemma_phoenixed_wf(m, k);
            assert(m.nodes[oo].0 != dead);
            let w = choose|w: int| 0 <= w < r.len() && r[w] == y;
            r.lemma_filter_contains(other_than(dead), w);
            assert(false);
        }
        assert(add =~= Seq::<Seq<char>>::empty());
        assert(after.blocks[i].1 =~= s);
        after.blocks.lemma_filter_contains(m.short_filter(), i);
        let f = after.blocks.filter(m.short_filter());
        let fi = choose|fi: int| 0 <= fi < f.len() && f[fi] == after.blocks[i];
        assert(m.under_replicated(after.blocks)[fi] == m.blocks[i].0);
    }
}

} // verus!
