use foyer_recover::psync::{IoError, PartitionRange, PsyncIoEngine, PsyncIoEngineBuilder};

#[test]
fn builder_keeps_device_and_runtime() {
    let engine = PsyncIoEngineBuilder::new().build("device", 3u8);
    assert_eq!(*engine.device(), "device");
    assert_eq!(*engine.runtime(), 3u8);
    let other = PsyncIoEngineBuilder::default().build(1u32, ());
    assert_eq!(*other.device(), 1u32);
}

#[test]
fn completion_returns_the_same_buffer() {
    let buf = vec![7u8; 4096];
    let ptr = buf.as_ptr();
    let (back, res) = PsyncIoEngine::<(), ()>::complete(buf, Ok(Ok(())));
    assert_eq!(back.as_ptr(), ptr);
    assert_eq!(back.len(), 4096);
    assert_eq!(res, Ok(()));
}

#[test]
fn completion_keeps_syscall_error() {
    let (back, res) =
        PsyncIoEngine::<(), ()>::complete(vec![0u8; 16], Ok(Err(IoError::Os("unexpected end of file".to_string()))));
    assert_eq!(back.len(), 16);
    assert_eq!(res, Err(IoError::Os("unexpected end of file".to_string())));
}

#[test]
fn completion_wraps_join_failure_as_other() {
    let (back, res) = PsyncIoEngine::<(), ()>::complete(vec![1u8; 8], Err("task panicked".to_string()));
    assert_eq!(back, vec![1u8; 8]);
    assert_eq!(res, Err(IoError::Other("task panicked".to_string())));
}

#[test]
fn translate_within_partition() {
    let p = PartitionRange { base: 1 << 20, size: 1 << 16 };
    assert_eq!(p.translate(4096, 4096), Ok((1 << 20) + 4096));
    assert_eq!(p.translate(0, 1 << 16), Ok(1 << 20));
}

#[test]
fn translate_outside_partition() {
    let p = PartitionRange { base: 1 << 20, size: 1 << 16 };
    assert_eq!(
        p.translate((1 << 16) - 4095, 4096),
        Err(IoError::OutOfRange { offset: (1 << 16) - 4095, len: 4096, size: 1 << 16 })
    );
    let q = PartitionRange { base: u64::MAX - 10, size: u64::MAX };
    assert_eq!(q.translate(20, 1), Err(IoError::OutOfRange { offset: 20, len: 1, size: u64::MAX }));
}
