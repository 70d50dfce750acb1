//! The decisions of a data node: liveness answers, where a block's file
//! lives, and how a write moves down a replica chain.

use vstd::prelude::*;
use vstd::string::*;

use crate::error::DfsError;
use crate::metadata::strs;

verus! {

/// A data node's configuration: the directory that holds its blocks.
#[derive(Debug, Clone)]
pub struct DataNodeState {
    pub data_dir: String,
}

impl DataNodeState {
    pub fn new(data_dir: String) -> (r: DataNodeState)
        ensures
            r.data_dir@ == data_dir@,
    {
        DataNodeState { data_dir }
    }

    /// The file that holds a block: `<data_dir>/<block_id>`.
    pub fn block_path(&self, block_id: &String) -> (r: String)
        ensures
            r@ == self.data_dir@ + seq!['/'] + block_id@,
    {
        let mut p = self.data_dir.clone();
        proof { reveal_strlit("/"); }
        p.append("/");
        p.append(block_id.as_str());
        p
    }
}

/// The answer to a pulse. A heartbeat (`is_heartbeat`) is answered `false`
/// only when the node cannot serve requests; a registration probe is
/// answered `false` only when the node already serves another name node.
pub fn pulse(is_heartbeat: bool, can_serve: bool, bound_elsewhere: bool) -> (r: bool)
    ensures
        is_heartbeat ==> r == can_serve,
        !is_heartbeat ==> r == !bound_elsewhere,
{
    if is_heartbeat {
        can_serve
    } else {
        !bound_elsewhere
    }
}

/// What a data node does once it has tried to store a block it was sent.
#[derive(Debug)]
pub enum ChainStep {
    /// Answer the caller with this result; nothing is forwarded.
    Done(Result<(), DfsError>),
    /// Send the same block to `next`, with `rest` as its remaining chain, and
    /// answer the caller with what `next` answers.
    Forward { next: String, rest: Vec<String> },
}

/// The step after the local write of a block, given the nodes still to
/// receive it: a failed write is answered at once and not forwarded; an
/// empty chain ends in success; otherwise the block goes to the head of the
/// chain, which is handed the tail.
pub fn after_local_write(write: Result<(), DfsError>, remaining: &Vec<String>) -> (r: ChainStep)
    ensures
        write is Err ==> r == ChainStep::Done(write),
        write is Ok && remaining@.len() == 0 ==> r == ChainStep::Done(Ok(())),
        write is Ok && remaining@.len() > 0 ==> (match r {
            ChainStep::Forward { next, rest } => next@ == remaining@[0]@ && strs(rest@) == strs(
                remaining@,
            ).drop_first(),
            ChainStep::Done(_) => false,
        }),
{
    match write {
        Err(e) => ChainStep::Done(Err(e)),
        Ok(()) => {
            if remaining.len() == 0 {
                ChainStep::Done(Ok(()))
            } else {
                let next = remaining[0].clone();
                let ghost s = strs(remaining@);
                let mut rest: Vec<String> = Vec::new();
                let mut i: usize = 1;
                while i < remaining.len()
                    invariant
                        s == strs(remaining@),
                        1 <= i <= remaining.len(),
                        strs(rest@) == s.subrange(1, i as int),
                    decreases remaining.len() - i,
                {
                    let ghost before = rest@;
                    let c = remaining[i].clone();
                    rest.push(c);
                    proof { crate::metadata::lemma_strs_push(before, c); }
                    i += 1;
                    assert(strs(rest@) =~= s.subrange(1, i as int));
                }
                assert(s.subrange(1, i as int) =~= s.drop_first());
                ChainStep::Forward { next, rest }
            }
        },
    }
}

/// A repair copy carries the block's bytes; an empty payload is the
/// caller's error and is refused rather than stored as an empty block.
pub fn check_passthrough(data: &Vec<u8>) -> (r: Result<(), DfsError>)
    ensures
        data@.len() == 0 ==> r == Err::<(), DfsError>(DfsError::InvalidArgument),
        data@.len() > 0 ==> r == Ok::<(), DfsError>(()),
{
    if data.len() == 0 {
        Err(DfsError::InvalidArgument)
    } else {
        Ok(())
    }
}

} // verus!
