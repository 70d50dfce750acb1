use rs_dfs::block_store::{BlockStore, MemoryCluster};
use rs_dfs::datanode::{after_local_write, check_passthrough, pulse, ChainStep, DataNodeState};
use rs_dfs::DfsError;

fn strings(v: &[&str]) -> Vec<String> {
    v.iter().map(|s| s.to_string()).collect()
}

fn cluster(names: &[&str]) -> MemoryCluster {
    let mut c = MemoryCluster::new();
    for n in names {
        c.add_node(n.to_string()).unwrap();
    }
    c
}

#[test]
fn pulse_answers() {
    assert!(pulse(true, true, false));
    assert!(!pulse(true, false, false));
    assert!(pulse(true, true, true));
    assert!(pulse(false, true, false));
    assert!(!pulse(false, true, true));
}

#[test]
fn block_path_joins_dir_and_id() {
    let dn = DataNodeState::new("data".to_string());
    assert_eq!(dn.block_path(&"block_1".to_string()), "data/block_1");
}

#[test]
fn chain_step_forwards_head_with_tail() {
    match after_local_write(Ok(()), &strings(&["a:1", "b:2", "c:3"])) {
        ChainStep::Forward { next, rest } => {
            assert_eq!(next, "a:1");
            assert_eq!(rest, strings(&["b:2", "c:3"]));
        }
        ChainStep::Done(_) => panic!("expected a forward"),
    }
}

#[test]
fn chain_step_with_empty_chain_is_done() {
    match after_local_write(Ok(()), &vec![]) {
        ChainStep::Done(r) => assert_eq!(r, Ok(())),
        ChainStep::Forward { .. } => panic!("nothing to forward to"),
    }
}

#[test]
fn chain_step_after_failed_write_does_not_forward() {
    match after_local_write(Err(DfsError::IoError), &strings(&["a:1"])) {
        ChainStep::Done(r) => assert_eq!(r, Err(DfsError::IoError)),
        ChainStep::Forward { .. } => panic!("a failed write must not be forwarded"),
    }
}

#[test]
fn passthrough_refuses_empty_payload() {
    assert_eq!(check_passthrough(&vec![]), Err(DfsError::InvalidArgument));
    assert_eq!(check_passthrough(&vec![1]), Ok(()));
}

#[test]
fn block_store_put_get() {
    let mut s = BlockStore::new();
    assert_eq!(s.get(&"k".to_string()), Err(DfsError::NotFound));
    s.put(&"k".to_string(), &vec![1, 2, 3]);
    s.put(&"j".to_string(), &vec![9]);
    assert_eq!(s.get(&"k".to_string()), Ok(vec![1, 2, 3]));
    s.put(&"k".to_string(), &vec![4]);
    assert_eq!(s.get(&"k".to_string()), Ok(vec![4]));
    assert_eq!(s.get(&"j".to_string()), Ok(vec![9]));
}

#[test]
fn chain_write_reaches_every_node() {
    let mut c = cluster(&["x", "a", "b", "c", "d"]);
    let data = vec![5u8, 6, 7];
    c.put_data(&"x".to_string(), &"blk".to_string(), &data, &strings(&["a", "b", "c"]))
        .unwrap();
    for n in ["x", "a", "b", "c"] {
        assert_eq!(c.get_data(&n.to_string(), &"blk".to_string()), Ok(data.clone()));
    }
    assert_eq!(c.get_data(&"d".to_string(), &"blk".to_string()), Err(DfsError::NotFound));
}

#[test]
fn chain_write_with_empty_chain_stays_local() {
    let mut c = cluster(&["x", "a"]);
    c.put_data(&"x".to_string(), &"blk".to_string(), &vec![1], &vec![]).unwrap();
    assert_eq!(c.get_data(&"x".to_string(), &"blk".to_string()), Ok(vec![1]));
    assert_eq!(c.get_data(&"a".to_string(), &"blk".to_string()), Err(DfsError::NotFound));
}

#[test]
fn chain_write_to_unknown_hop_is_unavailable() {
    let mut c = cluster(&["x", "a"]);
    let r = c.put_data(&"x".to_string(), &"blk".to_string(), &vec![1], &strings(&["a", "gone"]));
    assert_eq!(r, Err(DfsError::Unavailable));
    assert_eq!(c.get_data(&"x".to_string(), &"blk".to_string()), Ok(vec![1]));
    assert_eq!(c.get_data(&"gone".to_string(), &"blk".to_string()), Err(DfsError::Unavailable));
}

#[test]
fn add_node_refuses_taken_name() {
    let mut c = cluster(&["x"]);
    assert_eq!(c.add_node("x".to_string()), Err(DfsError::InvalidArgument));
}

#[test]
fn passthrough_copies_down_the_chain() {
    let mut c = cluster(&["x", "a", "b"]);
    c.replication_passthrough(&"x".to_string(), &"blk".to_string(), &vec![3, 4], &strings(&["a"]))
        .unwrap();
    assert_eq!(c.get_data(&"x".to_string(), &"blk".to_string()), Ok(vec![3, 4]));
    assert_eq!(c.get_data(&"a".to_string(), &"blk".to_string()), Ok(vec![3, 4]));
    assert_eq!(c.get_data(&"b".to_string(), &"blk".to_string()), Err(DfsError::NotFound));
}

#[test]
fn passthrough_of_empty_payload_writes_nothing() {
    let mut c = cluster(&["x", "a"]);
    let r = c.replication_passthrough(&"x".to_string(), &"blk".to_string(), &vec![], &strings(&["a"]));
    assert_eq!(r, Err(DfsError::InvalidArgument));
    assert_eq!(c.get_data(&"x".to_string(), &"blk".to_string()), Err(DfsError::NotFound));
}

#[test]
fn chain_write_keeps_other_blocks() {
    let mut c = cluster(&["x", "a"]);
    c.put_data(&"a".to_string(), &"old".to_string(), &vec![1], &vec![]).unwrap();
    c.put_data(&"x".to_string(), &"new".to_string(), &vec![2], &strings(&["a"])).unwrap();
    assert_eq!(c.get_data(&"a".to_string(), &"old".to_string()), Ok(vec![1]));
    assert_eq!(c.get_data(&"a".to_string(), &"new".to_string()), Ok(vec![2]));
}
