//! Access through the tracing facility, one machine word at a time.

use vstd::prelude::*;
use crate::memory::kernel::{
    errno_text, trace_attach, trace_detach, trace_peek, trace_poke, trace_wait,
};
use crate::memory::words::{
    failing_calls, lemma_no_words, lemma_ran_last, lemma_read_keeps_port, lemma_write_keeps_port,
    ran, read_peeks, read_went, read_words, word_address, word_count, write_calls, write_went,
    write_words, PortCall, WordPort, WORD_SIZE,
};
use crate::memory::{MemoryError, MemoryReader, MemoryWriter};
use crate::process::Process;

verus! {

/// A backend that traces the process and moves one machine word at a time.
/// The process is attached to when memory is first read or written, and stays
/// stopped until it is detached from.
pub struct PtraceMemory {
    process: Process,
    is_attach: bool,
}

impl PtraceMemory {
    /// Whether the process is attached to.
    pub closed spec fn attached(&self) -> bool {
        self.is_attach
    }

    /// The identifier of the process.
    pub closed spec fn target(&self) -> u32 {
        self.process.pid
    }

    /// A backend for the process `pid`, not attached yet and with an empty
    /// memory map.
    pub fn new(pid: u32) -> (r: PtraceMemory)
        ensures
            r.target() == pid,
            !r.attached(),
    {
        PtraceMemory { process: Process::new(pid), is_attach: false }
    }

    /// The identifier of the process.
    pub fn pid(&self) -> (r: u32)
        ensures
            r == self.target(),
    {
        self.process.pid
    }

    /// Whether the process is attached to.
    pub fn is_attached(&self) -> (r: bool)
        ensures
            r == self.attached(),
    {
        self.is_attach
    }

    /// Attaches to the process and waits until it has stopped, unless it is
    /// attached to already. Fails with `TraceAttachFailed` where the kernel
    /// refuses either; the backend is then as it was.
    pub fn attach(&mut self) -> (r: Result<(), MemoryError>)
        ensures
            final(self).target() == old(self).target(),
            old(self).attached() ==> r is Ok,
            final(self).attached() == (r is Ok),
            r matches Err(e) ==> e is TraceAttachFailed,
    {
        if self.is_attach {
            return Ok(());
        }
        match trace_attach(self.process.pid) {
            Err(e) => {
                return Err(MemoryError::TraceAttachFailed(errno_text(e)));
            },
            Ok(_) => {},
        }
        match trace_wait(self.process.pid) {
            Err(e) => {
                return Err(MemoryError::TraceAttachFailed(errno_text(e)));
            },
            Ok(_) => {},
        }
        self.is_attach = true;
        Ok(())
    }

    /// Detaches from the process, if it is attached to. Fails with
    /// `TraceDetachFailed` where the kernel refuses; the backend is then as
    /// it was.
    pub fn dettach(&mut self) -> (r: Result<(), MemoryError>)
        ensures
            final(self).target() == old(self).target(),
            !old(self).attached() ==> r is Ok,
            r is Ok ==> !final(self).attached(),
            r matches Err(e) ==> e is TraceDetachFailed && final(self).attached(),
    {
        if !self.is_attach {
            return Ok(());
        }
        match trace_detach(self.process.pid) {
            Err(e) => Err(MemoryError::TraceDetachFailed(errno_text(e))),
            Ok(_) => {
                self.is_attach = false;
                Ok(())
            },
        }
    }
}

/// The words of a traced process, reached through the tracing facility. The
/// process must be attached to and stopped.
pub struct Tracee {
    /// The identifier of the process.
    pub pid: u32,
}

impl WordPort for Tracee {
    /// A peek gives a word, or fails with `TraceReadFailed`; the port stays as
    /// it is.
    open spec fn may_peek(
        &self,
        after: Self,
        address: usize,
        answer: Result<Seq<u8>, MemoryError>,
    ) -> bool {
        &&& after == *self
        &&& match answer {
            Ok(word) => word.len() == WORD_SIZE,
            Err(e) => e is TraceReadFailed,
        }
    }

    /// A poke ends well, or fails with `TraceWriteFailed`; the port stays as
    /// it is.
    open spec fn may_poke(
        &self,
        after: Self,
        address: usize,
        word: Seq<u8>,
        answer: Result<(), MemoryError>,
    ) -> bool {
        &&& after == *self
        &&& answer matches Err(e) ==> e is TraceWriteFailed
    }

    fn peek(&mut self, address: usize) -> (r: Result<[u8; 8], MemoryError>) {
        match trace_peek(self.pid, address) {
            Ok(word) => Ok(word),
            Err(e) => Err(MemoryError::TraceReadFailed(errno_text(e))),
        }
    }

    fn poke(&mut self, address: usize, word: [u8; 8]) -> (r: Result<(), MemoryError>) {
        match trace_poke(self.pid, address, word) {
            Ok(_) => Ok(()),
            Err(e) => Err(MemoryError::TraceWriteFailed(errno_text(e))),
        }
    }
}

/// A read from a traced process fails with `TraceReadFailed` if it fails.
proof fn lemma_read_failure(
    before: Tracee,
    after: Tracee,
    address: int,
    len: int,
    buf: Seq<u8>,
    e: MemoryError,
)
    requires
        read_went(before, after, address, len, buf, Err(e)),
    ensures
        e is TraceReadFailed,
{
    let words = choose|words: Seq<Seq<u8>>|
        {
            &&& words.len() < word_count(address, len)
            &&& #[trigger] ran(
                before,
                read_peeks(address, words).push(
                    PortCall::Peek {
                        address: word_address(address, words.len() as int) as usize,
                        answer: Err(e),
                    },
                ),
                after,
            )
        };
    let calls = read_peeks(address, words).push(
        PortCall::Peek {
            address: word_address(address, words.len() as int) as usize,
            answer: Err(e),
        },
    );
    lemma_ran_last(before, calls, after);
}

/// A write to a traced process fails with `TraceReadFailed` or with
/// `TraceWriteFailed` if it fails.
proof fn lemma_write_failure(before: Tracee, after: Tracee, address: int, src: Seq<u8>, e: MemoryError)
    requires
        write_went(before, after, address, src, Err(e)),
    ensures
        e is TraceReadFailed || e is TraceWriteFailed,
{
    let (held, last, calls) = choose|held: Seq<Seq<u8>>, last: Seq<u8>, calls: Seq<PortCall>|
        {
            &&& held.len() < word_count(address, src.len() as int)
            &&& forall|k: int| 0 <= k < held.len() ==> (#[trigger] held[k]).len() == WORD_SIZE
            &&& #[trigger] failing_calls(address, src, last, held.len() as int, e, calls)
            &&& #[trigger] ran(before, write_calls(address, src, held, held.len()) + calls, after)
        };
    let all = write_calls(address, src, held, held.len()) + calls;
    assert(calls.len() > 0);
    assert(all.last() == calls.last());
    lemma_ran_last(before, all, after);
}

/// The transfer failed because the process could not be attached to.
pub open spec fn is_attach_failure<T>(r: Result<T, MemoryError>) -> bool {
    r matches Err(e) && e is TraceAttachFailed
}

impl MemoryReader for PtraceMemory {
    /// A read brings all the bytes asked for, which lie within the address
    /// space, or fails: with `TraceAttachFailed` where the process cannot be
    /// attached to, and with `TraceReadFailed` where a word cannot be read or
    /// the addresses of the range do not fit the address space.
    open spec fn may_answer(
        &self,
        after: Self,
        address: usize,
        len: nat,
        answer: Result<Seq<u8>, MemoryError>,
    ) -> bool {
        &&& after.target() == self.target()
        &&& after.attached() == !is_attach_failure(answer)
        &&& self.attached() ==> !is_attach_failure(answer)
        &&& match answer {
            Ok(bytes) => bytes.len() == len && address + len <= usize::MAX,
            Err(e) => e is TraceAttachFailed || e is TraceReadFailed,
        }
    }

    /// Fills `buf` with the bytes at `address`, after attaching to the
    /// process if need be. The backend is attached to afterwards unless
    /// attaching failed. A range that does not fit the address space fails
    /// with `TraceReadFailed` once the process is attached to. Any other
    /// range is read word by word through a [`Tracee`] of the process, as
    /// [`read_went`] says: a read of no bytes asks for no word and ends well.
    fn readbuf(&mut self, address: usize, buf: &mut [u8]) -> (r: Result<usize, MemoryError>)
        ensures
            final(self).target() == old(self).target(),
            final(self).attached() == !is_attach_failure(r),
            old(self).attached() ==> !is_attach_failure(r),
            old(self).attached() && old(buf)@.len() == 0 ==> r == Ok::<usize, MemoryError>(0),
            address + old(buf)@.len() > usize::MAX ==> (r matches Err(e) && (e is TraceAttachFailed
                || e is TraceReadFailed)),
            old(self).attached() && address + old(buf)@.len() > usize::MAX ==> (r matches Err(e)
                && e is TraceReadFailed),
            address + old(buf)@.len() <= usize::MAX && !is_attach_failure(r) ==> read_went(
                (Tracee { pid: old(self).target() }),
                (Tracee { pid: old(self).target() }),
                address as int,
                old(buf)@.len() as int,
                final(buf)@,
                r,
            ),
    {
        match self.attach() {
            Err(e) => {
                return Err(e);
            },
            Ok(_) => {},
        }
        if buf.len() > usize::MAX - address {
            return Err(MemoryError::TraceReadFailed("address out of range".to_owned()));
        }
        let mut port = Tracee { pid: self.process.pid };
        let ghost before = port;
        let r = read_words(&mut port, address, buf);
        proof {
            lemma_no_words(address as int);
            lemma_read_keeps_port(before, port, address as int, buf@.len() as int, buf@, r);
            if r is Ok {
                assert(buf@.subrange(0, buf@.len() as int) =~= buf@);
            } else {
                lemma_read_failure(
                    before,
                    port,
                    address as int,
                    buf@.len() as int,
                    buf@,
                    r->Err_0,
                );
            }
        }
        r
    }
}

impl MemoryWriter for PtraceMemory {
    /// A write takes all the bytes handed over, which lie within the address
    /// space, or fails: with `TraceAttachFailed` where the process cannot be
    /// attached to, with `TraceReadFailed` where a word cannot be read, and
    /// with `TraceWriteFailed` where a word cannot be written or the addresses
    /// of the range do not fit the address space.
    open spec fn may_accept(
        &self,
        after: Self,
        address: usize,
        bytes: Seq<u8>,
        answer: Result<usize, MemoryError>,
    ) -> bool {
        &&& after.target() == self.target()
        &&& after.attached() == !is_attach_failure(answer)
        &&& self.attached() ==> !is_attach_failure(answer)
        &&& match answer {
            Ok(n) => n == bytes.len() && address + bytes.len() <= usize::MAX,
            Err(e) => e is TraceAttachFailed || e is TraceReadFailed || e is TraceWriteFailed,
        }
    }

    /// Writes `buf` at `address`, after attaching to the process if need be.
    /// The backend is attached to afterwards unless attaching failed. A range
    /// that does not fit the address space fails with `TraceWriteFailed` once
    /// the process is attached to. Any other range is written word by word
    /// through a [`Tracee`] of the process, as [`write_went`] says: a write
    /// of no bytes touches no word and ends well.
    fn writebuf(&mut self, address: usize, buf: &[u8]) -> (r: Result<usize, MemoryError>)
        ensures
            final(self).target() == old(self).target(),
            final(self).attached() == !is_attach_failure(r),
            old(self).attached() ==> !is_attach_failure(r),
            old(self).attached() && buf@.len() == 0 ==> r == Ok::<usize, MemoryError>(0),
            address + buf@.len() > usize::MAX ==> (r matches Err(e) && (e is TraceAttachFailed
                || e is TraceWriteFailed)),
            old(self).attached() && address + buf@.len() > usize::MAX ==> (r matches Err(e)
                && e is TraceWriteFailed),
            address + buf@.len() <= usize::MAX && !is_attach_failure(r) ==> write_went(
                (Tracee { pid: old(self).target() }),
                (Tracee { pid: old(self).target() }),
                address as int,
                buf@,
                r,
            ),
    {
        match self.attach() {
            Err(e) => {
                return Err(e);
            },
            Ok(_) => {},
        }
        if buf.len() > usize::MAX - address {
            return Err(MemoryError::TraceWriteFailed("address out of range".to_owned()));
        }
        let mut port = Tracee { pid: self.process.pid };
        let ghost before = port;
        let r = write_words(&mut port, address, buf);
        proof {
            lemma_no_words(address as int);
            lemma_write_keeps_port(before, port, address as int, buf@, r);
            if r is Err {
                lemma_write_failure(before, port, address as int, buf@, r->Err_0);
            }
        }
        r
    }
}

} // verus!
