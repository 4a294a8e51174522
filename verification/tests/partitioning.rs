use peapod::chunk::{ChunkManager, ChunkStatus, CHUNK_SIZE};

#[test]
fn empty_file_has_no_chunks() {
    let mgr = ChunkManager::new();
    let chunks = mgr.calculate_chunks(0);
    assert_eq!(chunks.len(), 0);
}

#[test]
fn single_partial_chunk() {
    let mgr = ChunkManager::new();
    let chunks = mgr.calculate_chunks(1000);
    assert_eq!(chunks.len(), 1);
    assert_eq!(chunks[0].index, 0);
    assert_eq!(chunks[0].start, 0);
    assert_eq!(chunks[0].end, 1000);
    assert!(matches!(chunks[0].status, ChunkStatus::Pending));
    assert!(chunks[0].hash.is_none());
}

#[test]
fn exact_multiple_of_chunk_size() {
    let mgr = ChunkManager::new();
    let chunks = mgr.calculate_chunks(2 * CHUNK_SIZE);
    assert_eq!(chunks.len(), 2);
    assert_eq!(chunks[0].end - chunks[0].start, CHUNK_SIZE);
    assert_eq!(chunks[1].end - chunks[1].start, CHUNK_SIZE);
    assert_eq!(chunks[1].end, 2 * CHUNK_SIZE);
}

#[test]
fn one_byte_over_boundary_adds_chunk() {
    let mgr = ChunkManager::new();
    let chunks = mgr.calculate_chunks(CHUNK_SIZE + 1);
    assert_eq!(chunks.len(), 2);
    assert_eq!(chunks[1].start, CHUNK_SIZE);
    assert_eq!(chunks[1].end, CHUNK_SIZE + 1);
}

#[test]
fn partition_count_is_ceiling() {
    let mgr = ChunkManager::new();
    for total in [1u64, CHUNK_SIZE - 1, CHUNK_SIZE, CHUNK_SIZE + 1, 5 * CHUNK_SIZE - 7] {
        let chunks = mgr.calculate_chunks(total);
        let expected = ((total + CHUNK_SIZE - 1) / CHUNK_SIZE) as usize;
        assert_eq!(chunks.len(), expected);
        let sum: u64 = chunks.iter().map(|c| c.end - c.start).sum();
        assert_eq!(sum, total);
    }
}

#[test]
fn indices_and_bounds_are_contiguous() {
    let mgr = ChunkManager::new();
    let chunks = mgr.calculate_chunks(3 * CHUNK_SIZE + 12345);
    let mut expected_start = 0u64;
    for (i, c) in chunks.iter().enumerate() {
        assert_eq!(c.index, i as u64);
        assert_eq!(c.start, expected_start);
        assert!(c.end > c.start);
        expected_start = c.end;
    }
    assert_eq!(expected_start, 3 * CHUNK_SIZE + 12345);
}

#[test]
fn scenario_partition_2500000() {
    let mgr = ChunkManager::new();
    let chunks = mgr.calculate_chunks(2_500_000);
    assert_eq!(chunks.len(), 3);
    assert_eq!((chunks[0].start, chunks[0].end), (0, 1_048_576));
    assert_eq!((chunks[1].start, chunks[1].end), (1_048_576, 2_097_152));
    assert_eq!((chunks[2].start, chunks[2].end), (2_097_152, 2_500_000));
    assert_eq!(chunks[2].end - chunks[2].start, 402_848);
}

#[test]
fn start_transfer_registers_sink() {
    let mut mgr = ChunkManager::new();
    assert_eq!(mgr.get_active_transfers(), 0);
    let id = mgr.start_transfer("report.bin".to_string(), 2_500_000, "/tmp/out.bin".to_string());
    assert_eq!(mgr.get_active_transfers(), 1);
    let plan = mgr.write_chunk_plan(&id, 2).unwrap();
    assert_eq!(plan.path, "/tmp/out.bin");
    assert_eq!(plan.start, 2_097_152);
    assert_eq!(plan.len, 402_848);
    // a sink with no source path serves reads from its output path
    let rplan = mgr.read_chunk_plan(&id, 0).unwrap();
    assert_eq!(rplan.path, "/tmp/out.bin");
}

#[test]
fn register_source_serves_reads() {
    let mut mgr = ChunkManager::new();
    let id = mgr.register_source_file("/tmp/in.bin".to_string(), 2_500_000);
    let plan = mgr.read_chunk_plan(&id, 2).unwrap();
    assert_eq!(plan.path, "/tmp/in.bin");
    assert_eq!(plan.start, 2_097_152);
    assert_eq!(plan.len, 402_848);
}

#[test]
fn unknown_transfer_and_index_rejected() {
    let mut mgr = ChunkManager::new();
    assert!(mgr.read_chunk_plan("nope", 0).is_none());
    assert!(mgr.write_chunk_plan("nope", 0).is_none());
    let id = mgr.start_transfer("a".to_string(), 100, "/tmp/a".to_string());
    assert!(mgr.read_chunk_plan(&id, 1).is_none());
    assert!(mgr.write_chunk_plan(&id, 1).is_none());
    assert!(mgr.read_chunk_plan(&id, 0).is_some());
}

#[test]
fn two_transfers_keep_separate_geometry() {
    let mut mgr = ChunkManager::new();
    let a = mgr.start_transfer("a".to_string(), 100, "/tmp/a".to_string());
    let b = mgr.register_source_file("/tmp/b".to_string(), 2_500_000);
    assert_eq!(mgr.get_active_transfers(), 2);
    assert_eq!(mgr.read_chunk_plan(&a, 0).unwrap().len, 100);
    assert_eq!(mgr.read_chunk_plan(&b, 2).unwrap().len, 402_848);
}

#[test]
fn assign_chunk_walks_pending_in_order() {
    let mut mgr = ChunkManager::new();
    let id = mgr.start_transfer("a".to_string(), 2 * CHUNK_SIZE, "/tmp/a".to_string());
    let c0 = mgr.assign_chunk(&id, "peer-1".to_string()).unwrap();
    assert_eq!(c0.index, 0);
    assert!(matches!(c0.status, ChunkStatus::Downloading(ref p) if p == "peer-1"));
    let c1 = mgr.assign_chunk(&id, "peer-2".to_string()).unwrap();
    assert_eq!(c1.index, 1);
    assert!(mgr.assign_chunk(&id, "peer-3".to_string()).is_none());
    assert!(mgr.assign_chunk("nope", "peer-4".to_string()).is_none());
}

#[test]
fn mark_chunk_completed_consumes_pending() {
    let mut mgr = ChunkManager::new();
    let id = mgr.start_transfer("a".to_string(), 2 * CHUNK_SIZE, "/tmp/a".to_string());
    mgr.mark_chunk_completed(&id, 0);
    let c = mgr.assign_chunk(&id, "peer-1".to_string()).unwrap();
    assert_eq!(c.index, 1);
    // marking an unknown chunk or transfer changes nothing
    mgr.mark_chunk_completed(&id, 99);
    mgr.mark_chunk_completed("nope", 0);
    assert_eq!(mgr.get_active_transfers(), 1);
}
