use rs_dfs::allocator::num_blocks;
use rs_dfs::file_write::BlockWrite;
use rs_dfs::metadata::{BlockRecord, DataNodeRecord, FileRecord, NameNodeState};
use rs_dfs::phoenix::{dead_nodes, phoenixing_report};
use rs_dfs::{DfsError, SerializableNodeAddress};

fn addr(host: &str, port: u32) -> SerializableNodeAddress {
    SerializableNodeAddress { host: host.to_string(), port }
}

fn strings(v: &[&str]) -> Vec<String> {
    v.iter().map(|s| s.to_string()).collect()
}

fn state_with_nodes(block_size: u32, repl_factor: u32, nodes: &[(&str, u32)]) -> NameNodeState {
    let mut state = NameNodeState::new(block_size, repl_factor, vec![]);
    for (i, (host, port)) in nodes.iter().enumerate() {
        let id = format!("dn{}", i + 1);
        state.register_data_node(id, addr(host, *port)).unwrap();
    }
    state
}

fn replicas_of(state: &NameNodeState, block_id: &str) -> Vec<String> {
    state
        .block_to_data_node_ids
        .iter()
        .find(|b| b.block_id == block_id)
        .map(|b| b.replica_node_ids.clone())
        .unwrap()
}

#[test]
fn test_block_size() {
    let namenode = NameNodeState::new(1024, 3, vec![]);
    assert_eq!(namenode.block_size(true).unwrap(), 1024);
    let response = namenode.block_size(false);
    assert!(response.is_err());
}

#[test]
fn test_read_file() {
    let mut namenode = NameNodeState::new(1024, 3, vec![]);
    namenode.file_name_to_blocks.push(FileRecord {
        filename: "testfile".to_string(),
        block_ids: vec!["block1".to_string()],
    });
    namenode.block_to_data_node_ids.push(BlockRecord {
        block_id: "block1".to_string(),
        replica_node_ids: vec!["datanode1".to_string()],
    });
    namenode.id_to_data_nodes.push(DataNodeRecord {
        id: "datanode1".to_string(),
        address: addr("localhost", 8080),
    });
    let block_addresses = namenode.read_file(&"testfile".to_string()).unwrap();
    assert_eq!(block_addresses.len(), 1);
    assert_eq!(block_addresses[0].len(), 1);
    assert_eq!(block_addresses[0][0].host, "localhost");
    assert_eq!(block_addresses[0][0].port, 8080);
}

#[test]
fn test_write_file() {
    let mut namenode = state_with_nodes(1024, 3, &[("localhost", 8080)]);
    let response = namenode.write_file("testfile".to_string(), &vec![0; 2048]);
    assert!(response.is_ok());
}

#[test]
fn test_phoenixing() {
    let mut namenode = NameNodeState::new(1024, 3, vec![]);
    namenode.id_to_data_nodes.push(DataNodeRecord {
        id: "datanode1".to_string(),
        address: addr("localhost", 8080),
    });
    namenode.block_to_data_node_ids.push(BlockRecord {
        block_id: "block1".to_string(),
        replica_node_ids: vec!["datanode1".to_string()],
    });
    let outcome = namenode.phoenixing(&addr("localhost", 8080)).unwrap();
    assert_eq!(outcome.dead_node_id, "datanode1");
    assert!(namenode.id_to_data_nodes.is_empty());
    assert!(replicas_of(&namenode, "block1").is_empty());
    // block1 lost its only replica and no node is left to take it
    assert_eq!(outcome.unrepaired, strings(&["block1"]));
    let report = phoenixing_report(&outcome, &vec![]);
    assert!(!report.success);
    assert_eq!(report.error, Some(DfsError::ResourceExhausted));
}

#[test]
fn test_assign_blocks_for_file() {
    let mut namenode = NameNodeState::new(1024, 3, vec![]);
    namenode
        .register_data_node("datanode1".to_string(), addr("localhost", 8080))
        .unwrap();
    let filename = "testfile".to_string();
    let len = filename.len();
    let blocks = namenode.assign_blocks_for_file(filename, len).unwrap();
    let nodes: Vec<String> = blocks.into_iter().flat_map(|b| b.replica_node_ids).collect();
    assert_eq!(nodes.len(), 1);
    assert_eq!(nodes[0], "datanode1");
}

#[test]
fn num_blocks_rounds_up_and_never_returns_zero() {
    assert_eq!(num_blocks(0, 100), 1);
    assert_eq!(num_blocks(1, 100), 1);
    assert_eq!(num_blocks(100, 100), 1);
    assert_eq!(num_blocks(101, 100), 2);
    assert_eq!(num_blocks(250, 100), 3);
    assert_eq!(num_blocks(2048, 1024), 2);
    assert_eq!(num_blocks(usize::MAX, 1), usize::MAX);
    // 2^64 - 1 is a multiple of 2^32 - 1
    assert_eq!(num_blocks(usize::MAX, u32::MAX), (u32::MAX as usize) + 2);
    assert_eq!(num_blocks(usize::MAX - 1, u32::MAX), (u32::MAX as usize) + 2);
}

#[test]
fn assign_with_ids_makes_one_block_per_chunk() {
    let mut state = state_with_nodes(100, 3, &[("a", 1), ("b", 2), ("c", 3), ("d", 4)]);
    let blocks = state
        .assign_blocks_with_ids("f".to_string(), 250, strings(&["b1", "b2", "b3"]))
        .unwrap();
    assert_eq!(blocks.len(), 3);
    for b in &blocks {
        assert_eq!(b.replica_node_ids, strings(&["dn1", "dn2", "dn3"]));
    }
    assert_eq!(state.file_name_to_blocks.len(), 1);
    assert_eq!(state.file_name_to_blocks[0].block_ids, strings(&["b1", "b2", "b3"]));
    assert_eq!(state.block_to_data_node_ids.len(), 3);
}

#[test]
fn assign_zero_bytes_gives_one_block() {
    let mut state = state_with_nodes(100, 3, &[("a", 1)]);
    let blocks = state.assign_blocks_for_file("empty".to_string(), 0).unwrap();
    assert_eq!(blocks.len(), 1);
    assert_eq!(blocks[0].replica_node_ids, strings(&["dn1"]));
}

#[test]
fn assign_with_fewer_nodes_than_replication_factor() {
    let mut state = state_with_nodes(100, 3, &[("a", 1), ("b", 2)]);
    let blocks = state.assign_blocks_for_file("f".to_string(), 150).unwrap();
    assert_eq!(blocks.len(), 2);
    for b in &blocks {
        assert_eq!(b.replica_node_ids, strings(&["dn1", "dn2"]));
    }
}

#[test]
fn assign_with_no_nodes_gives_empty_replica_lists() {
    let mut state = NameNodeState::new(100, 3, vec![]);
    let blocks = state.assign_blocks_for_file("f".to_string(), 10).unwrap();
    assert_eq!(blocks.len(), 1);
    assert!(blocks[0].replica_node_ids.is_empty());
}

#[test]
fn assign_rejects_bad_ids_and_zero_block_size() {
    let mut state = state_with_nodes(100, 3, &[("a", 1)]);
    // wrong count
    assert_eq!(
        state.assign_blocks_with_ids("f".to_string(), 250, strings(&["x"])).unwrap_err(),
        DfsError::InvalidArgument
    );
    // repeated id
    assert_eq!(
        state.assign_blocks_with_ids("f".to_string(), 150, strings(&["x", "x"])).unwrap_err(),
        DfsError::InvalidArgument
    );
    state.assign_blocks_with_ids("f".to_string(), 50, strings(&["x"])).unwrap();
    // id already in use
    assert_eq!(
        state.assign_blocks_with_ids("g".to_string(), 50, strings(&["x"])).unwrap_err(),
        DfsError::InvalidArgument
    );
    assert_eq!(state.block_to_data_node_ids.len(), 1);
    let mut zero = NameNodeState::new(0, 3, vec![]);
    assert_eq!(
        zero.assign_blocks_for_file("f".to_string(), 10).unwrap_err(),
        DfsError::InvalidArgument
    );
}

#[test]
fn minted_block_ids_are_prefixed_uuids() {
    let mut state = state_with_nodes(10, 1, &[("a", 1)]);
    let blocks = state.assign_blocks_for_file("f".to_string(), 25).unwrap();
    assert_eq!(blocks.len(), 3);
    for b in &blocks {
        assert!(b.block_id.starts_with("block_"));
        assert_eq!(b.block_id.len(), "block_".len() + 36);
    }
    assert_ne!(blocks[0].block_id, blocks[1].block_id);
}

#[test]
fn rewriting_a_file_replaces_its_block_list() {
    let mut state = state_with_nodes(100, 1, &[("a", 1)]);
    state.assign_blocks_with_ids("f".to_string(), 150, strings(&["b1", "b2"])).unwrap();
    state.assign_blocks_with_ids("f".to_string(), 50, strings(&["b3"])).unwrap();
    assert_eq!(state.file_name_to_blocks.len(), 1);
    assert_eq!(state.file_name_to_blocks[0].block_ids, strings(&["b3"]));
    let lists = state.read_file(&"f".to_string()).unwrap();
    assert_eq!(lists.len(), 1);
}

#[test]
fn read_unknown_file_is_not_found() {
    let state = state_with_nodes(100, 3, &[("a", 1)]);
    assert_eq!(state.read_file(&"nope".to_string()).unwrap_err(), DfsError::NotFound);
}

#[test]
fn register_refuses_repeated_id_or_address() {
    let mut state = NameNodeState::new(100, 3, vec![]);
    state.register_data_node("n1".to_string(), addr("h", 1)).unwrap();
    assert_eq!(
        state.register_data_node("n1".to_string(), addr("h", 2)).unwrap_err(),
        DfsError::InvalidArgument
    );
    assert_eq!(
        state.register_data_node("n2".to_string(), addr("h", 1)).unwrap_err(),
        DfsError::InvalidArgument
    );
    assert_eq!(state.id_to_data_nodes.len(), 1);
}

#[test]
fn scenario_three_nodes_two_hundred_fifty_bytes() {
    let mut state = state_with_nodes(100, 3, &[("a", 1), ("b", 2), ("c", 3)]);
    let data = vec![7u8; 250];
    let writes = state.write_file("f".to_string(), &data).unwrap();
    assert_eq!(writes.len(), 3);
    for w in &writes {
        let reps = replicas_of(&state, &w.block_id);
        assert_eq!(reps.len(), 3);
        let mut sorted = reps.clone();
        sorted.sort();
        sorted.dedup();
        assert_eq!(sorted.len(), 3);
        for r in &reps {
            assert!(["dn1", "dn2", "dn3"].contains(&r.as_str()));
        }
    }
}

#[test]
fn write_plan_cuts_bytes_and_names_the_chain() {
    let mut state = state_with_nodes(100, 3, &[("a", 1), ("b", 2), ("c", 3)]);
    let data: Vec<u8> = (0..250u32).map(|i| i as u8).collect();
    let writes: Vec<BlockWrite> = state
        .write_file_with_ids("f".to_string(), &data, strings(&["x", "y", "z"]))
        .unwrap();
    assert_eq!(writes.len(), 3);
    assert_eq!(writes[0].data, data[0..100].to_vec());
    assert_eq!(writes[1].data, data[100..200].to_vec());
    assert_eq!(writes[2].data, data[200..250].to_vec());
    for w in &writes {
        assert_eq!(w.first.host, "a");
        assert_eq!(w.first.port, 1);
        assert_eq!(w.remaining, strings(&["b:2", "c:3"]));
    }
    assert_eq!(writes[2].block_id, "z");
}

#[test]
fn write_of_empty_file_has_one_empty_block() {
    let mut state = state_with_nodes(100, 2, &[("a", 1)]);
    let writes = state
        .write_file_with_ids("f".to_string(), &vec![], strings(&["x"]))
        .unwrap();
    assert_eq!(writes.len(), 1);
    assert!(writes[0].data.is_empty());
    assert!(writes[0].remaining.is_empty());
}

#[test]
fn write_without_nodes_is_resource_exhausted() {
    let mut state = NameNodeState::new(100, 3, vec![]);
    assert_eq!(
        state.write_file("f".to_string(), &vec![1, 2, 3]).unwrap_err(),
        DfsError::ResourceExhausted
    );
    assert!(state.file_name_to_blocks.is_empty());
    assert!(state.block_to_data_node_ids.is_empty());
}

#[test]
fn write_then_read_gives_recorded_replicas() {
    let mut state = state_with_nodes(4, 2, &[("a", 10), ("b", 20), ("c", 30)]);
    let writes = state.write_file("f".to_string(), &vec![1u8; 9]).unwrap();
    let lists = state.read_file(&"f".to_string()).unwrap();
    assert_eq!(lists.len(), writes.len());
    assert_eq!(lists.len(), 3);
    for (w, l) in writes.iter().zip(lists.iter()) {
        assert_eq!(l.len(), 2);
        assert_eq!(l[0].host, w.first.host);
        assert_eq!(l[0].port, w.first.port);
        assert_eq!(w.remaining, vec![format!("{}:{}", l[1].host, l[1].port)]);
        assert_eq!(l[0].host, "a");
        assert_eq!(l[1].host, "b");
    }
}

#[test]
fn phoenixing_unknown_address_is_not_found() {
    let mut state = state_with_nodes(100, 3, &[("a", 1)]);
    assert_eq!(state.phoenixing(&addr("zz", 9)).unwrap_err(), DfsError::NotFound);
    assert_eq!(state.id_to_data_nodes.len(), 1);
}

#[test]
fn phoenixing_replaces_the_dead_replica() {
    let mut state = state_with_nodes(100, 3, &[("a", 1), ("b", 2), ("c", 3), ("d", 4)]);
    state.assign_blocks_with_ids("f".to_string(), 50, strings(&["x"])).unwrap();
    assert_eq!(replicas_of(&state, "x"), strings(&["dn1", "dn2", "dn3"]));
    let outcome = state.phoenixing(&addr("b", 2)).unwrap();
    assert_eq!(outcome.dead_node_id, "dn2");
    assert_eq!(replicas_of(&state, "x"), strings(&["dn1", "dn3", "dn4"]));
    assert!(outcome.unrepaired.is_empty());
    assert_eq!(outcome.repairs.len(), 1);
    let r = &outcome.repairs[0];
    assert_eq!(r.block_id, "x");
    assert_eq!(r.source.host, "a");
    assert_eq!(r.new_node_ids, strings(&["dn4"]));
    assert_eq!(r.targets.len(), 1);
    assert_eq!(r.targets[0].host, "d");
    assert!(state.id_to_data_nodes.iter().all(|n| n.id != "dn2"));
    let report = phoenixing_report(&outcome, &vec![true]);
    assert!(report.success);
    assert_eq!(report.error, None);
    assert_eq!(report.new_nodes.len(), 1);
    assert_eq!(report.new_nodes[0].port, 4);
    assert_eq!(report.message, "Re-replication completed");
}

#[test]
fn phoenixing_without_spare_node_leaves_two_replicas() {
    let mut state = state_with_nodes(100, 3, &[("a", 1), ("b", 2), ("c", 3)]);
    state.assign_blocks_with_ids("f".to_string(), 50, strings(&["x"])).unwrap();
    let outcome = state.phoenixing(&addr("a", 1)).unwrap();
    assert_eq!(replicas_of(&state, "x"), strings(&["dn2", "dn3"]));
    assert_eq!(outcome.unrepaired, strings(&["x"]));
    assert!(outcome.repairs.is_empty());
    let report = phoenixing_report(&outcome, &vec![]);
    assert!(!report.success);
    assert_eq!(report.error, Some(DfsError::ResourceExhausted));
    assert_eq!(
        report.message,
        "Some blocks remain under-replicated: no available DataNodes or no surviving replica"
    );
}

#[test]
fn failed_copy_is_reported_and_abandoned() {
    let mut state = state_with_nodes(100, 2, &[("a", 1), ("b", 2), ("c", 3)]);
    state.assign_blocks_with_ids("f".to_string(), 50, strings(&["x"])).unwrap();
    let outcome = state.phoenixing(&addr("a", 1)).unwrap();
    assert_eq!(replicas_of(&state, "x"), strings(&["dn2", "dn3"]));
    let report = phoenixing_report(&outcome, &vec![false]);
    assert!(!report.success);
    assert_eq!(report.error, Some(DfsError::Unavailable));
    assert!(report.new_nodes.is_empty());
    state.abandon_repair(&outcome.repairs[0]).unwrap();
    assert_eq!(replicas_of(&state, "x"), strings(&["dn2"]));
}

#[test]
fn abandon_repair_of_unknown_block_is_not_found() {
    let mut state = state_with_nodes(100, 2, &[("a", 1), ("b", 2), ("c", 3)]);
    state.assign_blocks_with_ids("f".to_string(), 50, strings(&["x"])).unwrap();
    let mut outcome = state.phoenixing(&addr("a", 1)).unwrap();
    let mut r = outcome.repairs.remove(0);
    r.block_id = "other".to_string();
    assert_eq!(state.abandon_repair(&r).unwrap_err(), DfsError::NotFound);
}

#[test]
fn node_uri_is_host_colon_port() {
    assert_eq!(addr("localhost", 8080).uri(), "localhost:8080");
    assert_eq!(addr("h", 0).uri(), "h:0");
    assert_eq!(addr("h", 4294967295).uri(), "h:4294967295");
}

#[test]
fn well_formedness_check() {
    let mut state = state_with_nodes(100, 2, &[("a", 1), ("b", 2)]);
    state.assign_blocks_with_ids("f".to_string(), 150, strings(&["x", "y"])).unwrap();
    assert!(state.is_well_formed());
    let mut dangling = state.clone();
    dangling.file_name_to_blocks[0].block_ids.push("nope".to_string());
    assert!(!dangling.is_well_formed());
    let mut unknown_node = state.clone();
    unknown_node.block_to_data_node_ids[0].replica_node_ids[1] = "ghost".to_string();
    assert!(!unknown_node.is_well_formed());
    let mut repeated = state.clone();
    repeated.block_to_data_node_ids[0].replica_node_ids[1] = "dn1".to_string();
    assert!(!repeated.is_well_formed());
    let mut too_many = state.clone();
    too_many.repl_factor = 1;
    assert!(!too_many.is_well_formed());
    let mut same_address = state.clone();
    same_address.id_to_data_nodes[1].address = addr("a", 1);
    assert!(!same_address.is_well_formed());
}

#[test]
fn registration_marks_the_start_up_entry() {
    let mut state = NameNodeState::new(100, 3, vec![(addr("a", 1), false), (addr("b", 2), false)]);
    state.register_data_node("b:2".to_string(), addr("b", 2)).unwrap();
    assert!(!state.data_nodes[0].1);
    assert!(state.data_nodes[1].1);
    assert_eq!(state.id_to_data_nodes.len(), 1);
    assert_eq!(state.id_to_data_nodes[0].id, "b:2");
}

#[test]
fn one_block_allocation_on_fresh_state_succeeds() {
    for len in [0usize, 1, 100] {
        let mut state = state_with_nodes(100, 3, &[("a", 1), ("b", 2)]);
        let blocks = state.assign_blocks_for_file("f".to_string(), len).unwrap();
        assert_eq!(blocks.len(), 1);
        let mut state = state_with_nodes(100, 3, &[("a", 1)]);
        let writes = state.write_file("f".to_string(), &vec![1u8; len]).unwrap();
        assert_eq!(writes.len(), 1);
    }
}

#[test]
fn write_with_zero_block_size_is_invalid_argument() {
    let mut state = state_with_nodes(0, 3, &[("a", 1)]);
    assert_eq!(
        state.write_file("f".to_string(), &vec![1]).unwrap_err(),
        DfsError::InvalidArgument
    );
}

#[test]
fn start_up_list_and_probe_targets() {
    let mut state = NameNodeState::new(100, 3, vec![(addr("a", 1), false), (addr("b", 2), false)]);
    state.register_data_node("a:1".to_string(), addr("a", 1)).unwrap();
    let pending = state.unregistered_addresses();
    assert_eq!(pending.len(), 1);
    assert_eq!(pending[0].host, "b");
    let probed = state.registered_addresses();
    assert_eq!(probed.len(), 1);
    assert_eq!(probed[0].host, "a");
}

#[test]
fn unanswered_heartbeats_name_the_dead() {
    let nodes = vec![addr("a", 1), addr("b", 2), addr("c", 3)];
    let dead = dead_nodes(&nodes, &vec![true, false, false]);
    assert_eq!(dead.len(), 2);
    assert_eq!(dead[0].host, "b");
    assert_eq!(dead[1].host, "c");
    assert!(dead_nodes(&nodes, &vec![true, true, true]).is_empty());
}

#[test]
fn repair_copy_chain_splits_first_target() {
    let mut state = state_with_nodes(100, 3, &[("a", 1), ("b", 2), ("c", 3), ("d", 4), ("e", 5)]);
    state.assign_blocks_with_ids("f".to_string(), 50, strings(&["x"])).unwrap();
    let outcome = state.phoenixing(&addr("a", 1)).unwrap();
    let (first, rest) = outcome.repairs[0].copy_chain().unwrap();
    assert_eq!(first.host, "d");
    assert!(rest.is_empty());
    let mut state = state_with_nodes(100, 3, &[("a", 1), ("b", 2), ("c", 3), ("d", 4)]);
    state.assign_blocks_with_ids("f".to_string(), 50, strings(&["x"])).unwrap();
    state.register_data_node("e".to_string(), addr("e", 5)).unwrap();
    state.phoenixing(&addr("b", 2)).unwrap();
    let outcome = state.phoenixing(&addr("c", 3)).unwrap();
    assert_eq!(outcome.repairs.len(), 1);
    assert_eq!(outcome.repairs[0].new_node_ids, strings(&["e"]));
    let (first, rest) = outcome.repairs[0].copy_chain().unwrap();
    assert_eq!(first.host, "e");
    assert!(rest.is_empty());
}

#[test]
fn repair_of_two_replicas_chains_the_second() {
    let mut state = state_with_nodes(100, 3, &[("a", 1), ("b", 2), ("c", 3)]);
    state.block_to_data_node_ids.push(rs_dfs::BlockRecord {
        block_id: "x".to_string(),
        replica_node_ids: strings(&["dn1", "dn9"]),
    });
    state.id_to_data_nodes.push(rs_dfs::DataNodeRecord { id: "dn9".to_string(), address: addr("z", 9) });
    let outcome = state.phoenixing(&addr("z", 9)).unwrap();
    assert_eq!(outcome.repairs[0].new_node_ids, strings(&["dn2", "dn3"]));
    let (first, rest) = outcome.repairs[0].copy_chain().unwrap();
    assert_eq!(first.host, "b");
    assert_eq!(rest, strings(&["c:3"]));
}
