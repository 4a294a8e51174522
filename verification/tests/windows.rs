use peapod::chunk::{read_window, write_window, ChunkManager};

#[test]
fn write_then_read_roundtrip() {
    let mut file: Vec<u8> = vec![7u8; 64];
    let data: Vec<u8> = (0..16u8).collect();
    write_window(&mut file, 24, &data);
    let back = read_window(&file, 24, 16).unwrap();
    assert_eq!(back, data);
    // bytes outside the window are untouched
    assert_eq!(&file[..24], &vec![7u8; 24][..]);
    assert_eq!(&file[40..], &vec![7u8; 24][..]);
}

#[test]
fn write_past_end_zero_fills_gap() {
    let mut file: Vec<u8> = vec![1, 2, 3];
    let data: Vec<u8> = vec![9, 9];
    write_window(&mut file, 6, &data);
    assert_eq!(file, vec![1, 2, 3, 0, 0, 0, 9, 9]);
}

#[test]
fn read_window_short_file_fails() {
    let file: Vec<u8> = vec![1, 2, 3];
    assert!(read_window(&file, 2, 2).is_none());
    assert!(read_window(&file, 4, 0).is_none());
    assert_eq!(read_window(&file, 1, 2).unwrap(), vec![2, 3]);
}

#[test]
fn chunk_roundtrip_via_plans() {
    // a sink and a source with matching geometry over one backing file
    let total: u64 = 2_500_000;
    let mut mgr = ChunkManager::new();
    let sink = mgr.start_transfer("f".to_string(), total, "/tmp/shared.bin".to_string());
    let source = mgr.register_source_file("/tmp/shared.bin".to_string(), total);

    let mut file: Vec<u8> = Vec::new();
    let wplan = mgr.write_chunk_plan(&sink, 1).unwrap();
    let payload: Vec<u8> = (0..wplan.len).map(|i| (i % 251) as u8).collect();
    write_window(&mut file, wplan.start as usize, &payload);

    let rplan = mgr.read_chunk_plan(&source, 1).unwrap();
    assert_eq!(rplan.start, wplan.start);
    assert_eq!(rplan.len, wplan.len);
    let back = read_window(&file, rplan.start as usize, rplan.len as usize).unwrap();
    assert_eq!(back, payload);
}

#[test]
fn end_to_end_scenario() {
    let total: u64 = 2_500_000;
    let source_bytes: Vec<u8> = (0..total).map(|i| (i % 239) as u8).collect();

    let mut mgr = ChunkManager::new();
    let source = mgr.register_source_file("/tmp/src.bin".to_string(), total);
    let sink = mgr.start_transfer("copy".to_string(), total, "/tmp/dst.bin".to_string());

    // a requester asking for index 2 receives exactly 402,848 bytes
    let plan2 = mgr.read_chunk_plan(&source, 2).unwrap();
    let served = read_window(&source_bytes, plan2.start as usize, plan2.len as usize).unwrap();
    assert_eq!(served.len(), 402_848);

    // writing all three chunks at their offsets reproduces the file
    let mut out_file: Vec<u8> = Vec::new();
    for index in 0..3u64 {
        let rp = mgr.read_chunk_plan(&source, index).unwrap();
        let data = read_window(&source_bytes, rp.start as usize, rp.len as usize).unwrap();
        let wp = mgr.write_chunk_plan(&sink, index).unwrap();
        assert_eq!(wp.len, rp.len);
        write_window(&mut out_file, wp.start as usize, &data);
        mgr.mark_chunk_completed(&sink, index);
    }
    assert!(mgr.read_chunk_plan(&sink, 3).is_none());
    assert_eq!(out_file.len() as u64, total);
    assert!(out_file == source_bytes);
}
