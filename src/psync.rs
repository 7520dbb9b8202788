use vstd::prelude::*;

verus! {

/// Failure of one read or write.
#[derive(Debug, Clone, PartialEq, Eq)]
pub enum IoError {
    /// The system call failed; its message.
    Os(String),
    /// The request does not lie within the partition.
    OutOfRange { offset: u64, len: u64, size: u64 },
    /// The blocking task did not complete (it panicked or was cancelled).
    Other(String),
}

/// The byte range that a partition occupies on its device.
#[derive(Debug, Clone, Copy, PartialEq, Eq, Structural)]
pub struct PartitionRange {
    pub base: u64,
    pub size: u64,
}

impl PartitionRange {
    /// Maps `len` bytes at the partition-local `offset` to their offset on
    /// the device, or fails when they do not lie within the partition.
    pub fn translate(&self, offset: u64, len: u64) -> (r: Result<u64, IoError>)
        ensures
            offset + len <= self.size && self.base + offset <= u64::MAX ==> r == Ok::<u64, IoError>(
                (self.base + offset) as u64,
            ),
            !(offset + len <= self.size && self.base + offset <= u64::MAX) ==> r == Err::<u64, IoError>(
                IoError::OutOfRange { offset, len, size: self.size },
            ),
    {
        if offset <= self.size && len <= self.size - offset && offset <= u64::MAX - self.base {
            Ok(self.base + offset)
        } else {
            Err(IoError::OutOfRange { offset, len, size: self.size })
        }
    }
}

/// Builder for the synchronous I/O engine with pread(2)/pwrite(2).
#[derive(Debug)]
pub struct PsyncIoEngineBuilder;

impl PsyncIoEngineBuilder {
    /// Create a new synchronous I/O engine builder with default configurations.
    pub fn new() -> (r: Self) {
        PsyncIoEngineBuilder
    }

    /// Builds the engine over `device`, running its blocking calls on
    /// `runtime`.
    pub fn build<D, R>(self, device: D, runtime: R) -> (r: PsyncIoEngine<D, R>)
        ensures
            r.spec_device() == device,
            r.spec_runtime() == runtime,
    {
        PsyncIoEngine { device, runtime }
    }
}

impl Default for PsyncIoEngineBuilder {
    fn default() -> (r: Self)
        ensures
            r == PsyncIoEngineBuilder,
    {
        Self::new()
    }
}

/// Synchronous positional I/O engine: each read or write of an owned buffer
/// runs as one blocking task, and the buffer comes back with the outcome.
pub struct PsyncIoEngine<D, R> {
    device: D,
    runtime: R,
}

impl<D, R> PsyncIoEngine<D, R> {
    pub closed spec fn spec_device(&self) -> D {
        self.device
    }

    pub closed spec fn spec_runtime(&self) -> R {
        self.runtime
    }

    pub fn device(&self) -> (r: &D)
        ensures
            *r == self.spec_device(),
    {
        &self.device
    }

    pub fn runtime(&self) -> (r: &R)
        ensures
            *r == self.spec_runtime(),
    {
        &self.runtime
    }

    /// Completes one operation: the caller gets its buffer back whatever
    /// happened, with the system call's outcome, or `IoError::Other` when
    /// the blocking task did not complete.
    pub fn complete<B>(buf: B, joined: Result<Result<(), IoError>, String>) -> (r: (B, Result<(), IoError>))
        ensures
            r.0 == buf,
            r.1 == match joined {
                Ok(res) => res,
                Err(msg) => Err(IoError::Other(msg)),
            },
    {
        let res = match joined {
            Ok(res) => res,
            Err(msg) => Err(IoError::Other(msg)),
        };
        (buf, res)
    }
}

} // verus!
