use vstd::prelude::*;

verus! {

/// One process snapshot, as the ranker hands it to the renderer and the
/// analyzer. CPU usage is kept in tenths of a percent so that threshold
/// and ordering logic is exact integer arithmetic.
#[derive(Debug)]
pub struct ProcessInfo {
    /// Process identifier; unique among concurrently running processes at
    /// sample time, but identifiers may be reused over time.
    pub pid: i32,
    /// Best-effort display name.
    pub name: String,
    /// CPU usage in tenths of a percent (452 means 45.2%).
    pub cpu_tenths: u32,
    /// Resident memory in mebibytes, floor-divided from bytes.
    pub memory_mb: u64,
}

impl ProcessInfo {
    /// A field-by-field copy, equal to the source record by contract.
    pub fn duplicate(&self) -> (r: ProcessInfo)
        ensures
            r == *self,
    {
        ProcessInfo {
            pid: self.pid,
            name: self.name.clone(),
            cpu_tenths: self.cpu_tenths,
            memory_mb: self.memory_mb,
        }
    }
}

/// One per-process reading from the provider snapshot, before the CPU
/// sources are merged: identifier, display name, and resident memory in
/// bytes.
#[derive(Debug)]
pub struct ProcSample {
    pub pid: i32,
    pub name: String,
    pub memory_bytes: u64,
}

/// Bytes to whole mebibytes, truncating.
pub fn bytes_to_mib(bytes: u64) -> (mib: u64)
    ensures
        mib == bytes / 1048576,
{
    bytes / 1048576
}

/// Bytes to whole gibibytes, truncating.
pub fn bytes_to_gib(bytes: u64) -> (gib: u64)
    ensures
        gib == bytes / 1073741824,
{
    bytes / 1073741824
}

} // verus!
