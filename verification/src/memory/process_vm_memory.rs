//! Access by copying between the address spaces of two processes.

use vstd::prelude::*;
use crate::memory::kernel::{errno_text, vm_read, vm_write};
use crate::memory::{check_transfer, MemoryError, MemoryReader, MemoryWriter};
use crate::process::{MapRange, Process};
use crate::searcher::steady::lemma_search_keeps_reader;
use crate::searcher::walk::{search_outcome, search_regions};
use crate::searcher::{MemorySearcher, SearchError, SearchRule};

verus! {

/// A backend that copies between its own address space and that of the
/// process, one transfer to an operation. The process keeps running.
pub struct ProcessVmMemory {
    /// The process and its memory map.
    pub process: Process,
}

impl ProcessVmMemory {
    /// A backend for the process `pid`, with an empty memory map.
    pub fn new(pid: u32) -> (r: ProcessVmMemory)
        ensures
            r.process.pid == pid,
            r.process.maps@.len() == 0,
    {
        ProcessVmMemory { process: Process::new(pid) }
    }
}

/// The memory of a process, reached by copying between its address space and
/// one's own. It holds nothing but the identifier of the process.
pub struct Remote {
    /// The identifier of the process.
    pub pid: u32,
}

/// What a read by copying may come to: all the bytes asked for, or
/// `CrossProcReadFailed` where the kernel refuses the transfer, or
/// `ShortTransfer` where it moves another number of bytes.
pub open spec fn read_outcome(len: nat, answer: Result<Seq<u8>, MemoryError>) -> bool {
    match answer {
        Ok(bytes) => bytes.len() == len,
        Err(MemoryError::ShortTransfer { requested, transferred }) => requested == len
            && transferred != len,
        Err(MemoryError::CrossProcReadFailed(_)) => true,
        Err(_) => false,
    }
}

/// What a write by copying may come to: all the bytes handed over, or
/// `CrossProcWriteFailed` where the kernel refuses the transfer, or
/// `ShortTransfer` where it moves another number of bytes.
pub open spec fn write_outcome(len: nat, answer: Result<usize, MemoryError>) -> bool {
    match answer {
        Ok(n) => n == len,
        Err(MemoryError::ShortTransfer { requested, transferred }) => requested == len
            && transferred != len,
        Err(MemoryError::CrossProcWriteFailed(_)) => true,
        Err(_) => false,
    }
}

impl MemoryReader for Remote {
    /// A read brings all the bytes asked for or fails, see [`read_outcome`],
    /// and leaves the backend as it is.
    open spec fn may_answer(
        &self,
        after: Self,
        address: usize,
        len: nat,
        answer: Result<Seq<u8>, MemoryError>,
    ) -> bool {
        after == *self && read_outcome(len, answer)
    }

    /// Fills `buf` in one transfer.
    fn readbuf(&mut self, address: usize, buf: &mut [u8]) -> (r: Result<usize, MemoryError>) {
        let size: usize = buf.len();
        match vm_read(self.pid, address, buf) {
            Err(e) => Err(MemoryError::CrossProcReadFailed(errno_text(e))),
            Ok(moved) => {
                proof {
                    if moved == size {
                        assert(buf@.subrange(0, size as int) =~= buf@);
                    }
                }
                check_transfer(size, moved)
            },
        }
    }
}

impl MemoryWriter for Remote {
    /// A write takes all the bytes handed over or fails, see
    /// [`write_outcome`], and leaves the backend as it is.
    open spec fn may_accept(
        &self,
        after: Self,
        address: usize,
        bytes: Seq<u8>,
        answer: Result<usize, MemoryError>,
    ) -> bool {
        after == *self && write_outcome(bytes.len(), answer)
    }

    /// Writes `buf` in one transfer.
    fn writebuf(&mut self, address: usize, buf: &[u8]) -> (r: Result<usize, MemoryError>) {
        let size: usize = buf.len();
        match vm_write(self.pid, address, buf) {
            Err(e) => Err(MemoryError::CrossProcWriteFailed(errno_text(e))),
            Ok(moved) => check_transfer(size, moved),
        }
    }
}

impl MemoryReader for ProcessVmMemory {
    /// A read brings all the bytes asked for or fails, see [`read_outcome`],
    /// and leaves the backend as it is.
    open spec fn may_answer(
        &self,
        after: Self,
        address: usize,
        len: nat,
        answer: Result<Seq<u8>, MemoryError>,
    ) -> bool {
        after == *self && read_outcome(len, answer)
    }

    /// Fills `buf` in one transfer.
    fn readbuf(&mut self, address: usize, buf: &mut [u8]) -> (r: Result<usize, MemoryError>) {
        let mut remote = Remote { pid: self.process.pid };
        remote.readbuf(address, buf)
    }
}

impl MemoryWriter for ProcessVmMemory {
    /// A write takes all the bytes handed over or fails, see
    /// [`write_outcome`], and leaves the backend as it is.
    open spec fn may_accept(
        &self,
        after: Self,
        address: usize,
        bytes: Seq<u8>,
        answer: Result<usize, MemoryError>,
    ) -> bool {
        after == *self && write_outcome(bytes.len(), answer)
    }

    /// Writes `buf` in one transfer.
    fn writebuf(&mut self, address: usize, buf: &[u8]) -> (r: Result<usize, MemoryError>) {
        let mut remote = Remote { pid: self.process.pid };
        remote.writebuf(address, buf)
    }
}

impl MemorySearcher for ProcessVmMemory {
    /// Searches the regions of the memory map, reading through a [`Remote`]
    /// of the process, see [`search_outcome`]. The backend and its memory map
    /// stay as they are.
    fn search<T: SearchRule, const N: usize, F: Fn(&MapRange) -> bool>(
        &mut self,
        rule: T,
        filter: Option<F>,
    ) -> (r: Result<Vec<usize>, SearchError>)
        ensures
            *final(self) == *old(self),
            search_outcome(
                (Remote { pid: old(self).process.pid }),
                (Remote { pid: old(self).process.pid }),
                old(self).process.maps@,
                filter,
                rule,
                N as int,
                r,
            ),
    {
        let mut remote = Remote { pid: self.process.pid };
        let r = search_regions(&mut remote, &self.process.maps, rule, filter, N);
        proof {
            lemma_search_keeps_reader(
                (Remote { pid: self.process.pid }),
                remote,
                self.process.maps@,
                filter,
                rule,
                N as int,
                r,
            );
        }
        r
    }
}

} // verus!
