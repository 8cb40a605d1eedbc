//! Trace records and the result types of the statistics.
//!
//! Timestamps are unsigned nanoseconds; latencies (`dtoc`, `ctoc`, `ctod`)
//! are signed nanoseconds.

use vstd::prelude::*;

verus! {

/// One `ufshcd_command` event of a UFS trace.
#[derive(Debug, Clone)]
pub struct UFS {
    pub time: u64,
    pub process: String,
    pub cpu: u32,
    pub action: String,
    pub tag: u32,
    pub opcode: String,
    pub lba: u64,
    /// Size in 4 KiB units.
    pub size: u32,
    pub groupid: u32,
    pub hwqid: u32,
    /// Queue depth after the event.
    pub qd: u32,
    /// Dispatch to complete latency.
    pub dtoc: i128,
    /// Complete to complete latency.
    pub ctoc: i128,
    /// Complete to dispatch latency.
    pub ctod: i128,
    pub continuous: bool,
}

/// One block layer request event (`block_rq_issue`, `block_rq_complete`, ...).
#[derive(Debug, Clone)]
pub struct Block {
    pub time: u64,
    pub process: String,
    pub cpu: u32,
    pub flags: String,
    pub action: String,
    pub devmajor: u32,
    pub devminor: u32,
    pub io_type: String,
    pub extra: u32,
    pub sector: u64,
    /// Size in 512 byte sectors.
    pub size: u32,
    pub comm: String,
    pub qd: u32,
    pub dtoc: i128,
    pub ctoc: i128,
    pub ctod: i128,
    pub continuous: bool,
}

/// One request of a custom UFS trace, given with its start and end time.
#[derive(Debug, Clone)]
pub struct UFSCUSTOM {
    pub opcode: String,
    pub lba: u64,
    pub size: u32,
    pub start_time: u64,
    pub end_time: u64,
    pub dtoc: i128,
    /// Queue depth once the request has started.
    pub start_qd: u32,
    /// Queue depth once the request has completed.
    pub end_qd: u32,
    pub ctoc: i128,
    pub ctod: i128,
    pub continuous: bool,
}

impl UFS {
    /// A copy of the record with the same field values.
    pub fn duplicate(&self) -> (r: UFS)
        ensures
            r == *self,
    {
        UFS {
            time: self.time,
            process: self.process.clone(),
            cpu: self.cpu,
            action: self.action.clone(),
            tag: self.tag,
            opcode: self.opcode.clone(),
            lba: self.lba,
            size: self.size,
            groupid: self.groupid,
            hwqid: self.hwqid,
            qd: self.qd,
            dtoc: self.dtoc,
            ctoc: self.ctoc,
            ctod: self.ctod,
            continuous: self.continuous,
        }
    }
}

impl Block {
    /// A copy of the record with the same field values.
    pub fn duplicate(&self) -> (r: Block)
        ensures
            r == *self,
    {
        Block {
            time: self.time,
            process: self.process.clone(),
            cpu: self.cpu,
            flags: self.flags.clone(),
            action: self.action.clone(),
            devmajor: self.devmajor,
            devminor: self.devminor,
            io_type: self.io_type.clone(),
            extra: self.extra,
            sector: self.sector,
            size: self.size,
            comm: self.comm.clone(),
            qd: self.qd,
            dtoc: self.dtoc,
            ctoc: self.ctoc,
            ctod: self.ctod,
            continuous: self.continuous,
        }
    }
}

impl UFSCUSTOM {
    /// A copy of the record with the same field values.
    pub fn duplicate(&self) -> (r: UFSCUSTOM)
        ensures
            r == *self,
    {
        UFSCUSTOM {
            opcode: self.opcode.clone(),
            lba: self.lba,
            size: self.size,
            start_time: self.start_time,
            end_time: self.end_time,
            dtoc: self.dtoc,
            start_qd: self.start_qd,
            end_qd: self.end_qd,
            ctoc: self.ctoc,
            ctod: self.ctod,
            continuous: self.continuous,
        }
    }
}

/// What parsing a trace file reports: the numbers of the lines no pattern
/// read (see `capped_missing`) and the Parquet files written.
pub struct TraceParseResult {
    pub missing_lines: Vec<usize>,
    pub ufs_parquet_filename: String,
    pub block_parquet_filename: String,
}

} // verus!
