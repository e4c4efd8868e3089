use fence::engine::{FenceRuntime, PoolConfig};
use fence::heap_backend::HeapBackend;
use fence::layout::PoolGeometry;
use fence::temp_pool::TempPoolBuilder;

fn open_pool(config: PoolConfig) -> FenceRuntime<HeapBackend> {
    let geometry = PoolGeometry::new(config.capacity, config.payload_size, config.max_hosts);
    FenceRuntime::open(config, HeapBackend::new(geometry.total_size as usize)).unwrap()
}

fn temp_pool(builder: TempPoolBuilder) -> FenceRuntime<HeapBackend> {
    open_pool(builder.config("unused".to_string()))
}

#[test]
fn single_record_roundtrip() {
    let mut rt = temp_pool(TempPoolBuilder::default());

    let idx = rt.append(1, b"hello world").unwrap();
    assert_eq!(idx, 1);

    let rec = rt.read(idx).unwrap().unwrap();
    assert_eq!(rec.term, 1);
    assert_eq!(rec.index, 1);
    assert_eq!(rec.data, b"hello world");
    assert_eq!(rec.writer_id, 0);
}

#[test]
fn many_records_roundtrip() {
    let mut rt = temp_pool(TempPoolBuilder::default().capacity(256).payload_size(64));

    for i in 0..256u64 {
        let data = format!("record-{i}");
        let idx = rt.append(1, data.as_bytes()).unwrap();
        assert_eq!(idx, i + 1);
    }

    for i in 0..256u64 {
        let rec = rt.read(i + 1).unwrap().unwrap();
        assert_eq!(rec.data, format!("record-{i}").as_bytes());
    }
}

#[test]
fn persistence_across_reopen() {
    // Create and write.
    let backend = {
        let mut rt = open_pool(PoolConfig {
            path: "unused".to_string(),
            capacity: 64,
            payload_size: 128,
            max_hosts: 2,
            host_id: 0,
            create: true,
        });
        rt.append(1, b"persistent data").unwrap();
        rt.append(2, b"second record").unwrap();
        rt.into_backend()
    };

    // Reopen and verify.
    let config = PoolConfig {
        path: "unused".to_string(),
        capacity: 64,
        payload_size: 128,
        max_hosts: 2,
        host_id: 1,
        create: false,
    };
    let mut rt = FenceRuntime::open(config, backend).unwrap();
    assert_eq!(rt.committed_tail(), 2);

    let r1 = rt.read(1).unwrap().unwrap();
    assert_eq!(r1.data, b"persistent data");
    assert_eq!(r1.term, 1);

    let r2 = rt.read(2).unwrap().unwrap();
    assert_eq!(r2.data, b"second record");
    assert_eq!(r2.term, 2);
}

#[test]
fn roundtrip_empty_payload_roundtrip() {
    let mut rt = temp_pool(TempPoolBuilder::default());

    let idx = rt.append(5, b"").unwrap();
    let rec = rt.read(idx).unwrap().unwrap();
    assert_eq!(rec.data, b"");
    assert_eq!(rec.term, 5);
}

#[test]
fn max_payload_roundtrip() {
    let mut rt = temp_pool(TempPoolBuilder::default().payload_size(256));

    let data = vec![0xAB; 256];
    let idx = rt.append(1, &data).unwrap();
    let rec = rt.read(idx).unwrap().unwrap();
    assert_eq!(rec.data, data);
}

#[test]
fn read_range_roundtrip() {
    let mut rt = temp_pool(TempPoolBuilder::default());

    for i in 0..10 {
        rt.append(1, format!("msg-{i}").as_bytes()).unwrap();
    }

    let records = rt.read_range(3, 8).unwrap();
    assert_eq!(records.len(), 5);
    assert_eq!(records[0].data, b"msg-2");
    assert_eq!(records[4].data, b"msg-6");
}

#[test]
fn temp_pool_creates_and_drops() {
    let mut pool = temp_pool(TempPoolBuilder::default());
    let idx = pool.append(1, b"test").unwrap();
    assert_eq!(idx, 1);
}

#[test]
fn builder_customizes_capacity() {
    let mut pool = temp_pool(TempPoolBuilder::default().capacity(8));
    for i in 0..8 {
        pool.append(1, format!("msg{i}").as_bytes()).unwrap();
    }
    // 9th should fail
    assert!(pool.append(1, b"overflow").is_err());
}

#[test]
fn builder_sets_each_parameter() {
    let config = TempPoolBuilder::default().config("a".to_string());
    assert_eq!(
        (config.capacity, config.payload_size, config.max_hosts, config.host_id, config.create),
        (1024, 128, 4, 0, true)
    );
    let config = TempPoolBuilder::default()
        .capacity(9)
        .payload_size(16)
        .max_hosts(7)
        .host_id(3)
        .config("b".to_string());
    assert_eq!(
        (config.capacity, config.payload_size, config.max_hosts, config.host_id),
        (9, 16, 7, 3)
    );
    assert_eq!(config.path, "b");
    let mut rt = open_pool(config);
    let idx = rt.append(1, b"by host 3").unwrap();
    assert_eq!(rt.read(idx).unwrap().unwrap().writer_id, 3);
}
