//! Reading and writing the memory of another process.

use vstd::prelude::*;
use crate::value::{decode, encode, load, store, Element};

pub mod kernel;
pub mod process_vm_memory;
pub mod ptrace_memory;
pub mod words;

verus! {

/// Why memory could not be read or written.
#[derive(Debug)]
pub enum MemoryError {
    /// An operation on a file failed; the text says which and why.
    Io(String),
    /// The backend was used before it was opened; the text names the backend.
    BackendUninitialised(String),
    /// A positioned read failed; the text gives the error of the system.
    PositionedReadFailed(String),
    /// A positioned write failed; the text gives the error of the system.
    PositionedWriteFailed(String),
    /// Fewer bytes were moved than were asked for.
    ShortTransfer { requested: usize, transferred: usize },
    /// The process could not be attached to, or did not stop.
    TraceAttachFailed(String),
    /// The process could not be detached from.
    TraceDetachFailed(String),
    /// A word could not be read from the traced process.
    TraceReadFailed(String),
    /// A word could not be written to the traced process.
    TraceWriteFailed(String),
    /// A read across processes failed.
    CrossProcReadFailed(String),
    /// A write across processes failed.
    CrossProcWriteFailed(String),
}

/// What a transfer of `requested` bytes that moved `transferred` bytes comes
/// to: the count, if all of them were moved.
pub open spec fn transfer_result(requested: usize, transferred: usize) -> Result<usize, MemoryError> {
    if transferred == requested {
        Ok(requested)
    } else {
        Err(MemoryError::ShortTransfer { requested, transferred })
    }
}

/// Holds a finished transfer to what was asked for: a transfer that moved
/// fewer bytes (or, on a request that is not empty, none) is an error.
pub fn check_transfer(requested: usize, transferred: usize) -> (r: Result<usize, MemoryError>)
    ensures
        r == transfer_result(requested, transferred),
{
    if transferred == requested {
        Ok(requested)
    } else {
        Err(MemoryError::ShortTransfer { requested, transferred })
    }
}

/// Holds a backend that must be opened before it is used to that: a backend
/// that is open may go on, one that is not fails with `BackendUninitialised`.
pub fn require_open(open: bool) -> (r: Result<(), MemoryError>)
    ensures
        open ==> r is Ok,
        !open ==> (r matches Err(MemoryError::BackendUninitialised(text)) && text@
            == "the backend is not open"@),
{
    if open {
        Ok(())
    } else {
        Err(MemoryError::BackendUninitialised("the backend is not open".to_owned()))
    }
}

/// The value that a read for a value of the type `T` gives: `bytes` is the
/// buffer after the read, and `moved` the number of bytes that it brought. A
/// read that brought fewer bytes than the type is wide is a short transfer.
pub fn value_read<T: Element>(bytes: &[u8], moved: usize) -> (r: Result<T, MemoryError>)
    requires
        bytes@.len() == T::width(),
    ensures
        match r {
            Ok(v) => moved == T::width() && v.value() == decode(bytes@, T::signed()),
            Err(e) => moved != T::width() && e == (MemoryError::ShortTransfer {
                requested: T::width() as usize,
                transferred: moved,
            }),
        },
{
    proof {
        T::lemma_width();
        assert(bytes@.subrange(0, T::width() as int) =~= bytes@);
    }
    match check_transfer(T::size(), moved) {
        Err(e) => Err(e),
        Ok(_) => Ok(load::<T>(bytes, 0)),
    }
}

/// What a read that ended with `r` brought: the bytes of the buffer that it
/// filled, or its error.
pub open spec fn read_answer(r: Result<usize, MemoryError>, buf: Seq<u8>) -> Result<
    Seq<u8>,
    MemoryError,
> {
    match r {
        Ok(n) => Ok(buf.subrange(0, n as int)),
        Err(e) => Err(e),
    }
}

/// What the answer to a read comes to for a value that is `width` bytes wide:
/// the number that the bytes hold, if there are as many as the value has, a
/// short transfer if there are fewer, or the error of the read.
pub open spec fn value_answer(width: nat, signed: bool, answer: Result<Seq<u8>, MemoryError>) -> Result<
    int,
    MemoryError,
> {
    match answer {
        Err(e) => Err(e),
        Ok(bytes) => if bytes.len() == width {
            Ok(decode(bytes, signed))
        } else {
            Err(
                MemoryError::ShortTransfer {
                    requested: width as usize,
                    transferred: bytes.len() as usize,
                },
            )
        },
    }
}

/// What the answer to a write comes to for a value that is `width` bytes
/// wide: nothing, if all its bytes were written, a short transfer if fewer
/// were, or the error of the write.
pub open spec fn write_answer(width: nat, answer: Result<usize, MemoryError>) -> Result<(), MemoryError> {
    match answer {
        Err(e) => Err(e),
        Ok(n) => if n == width {
            Ok(())
        } else {
            Err(MemoryError::ShortTransfer { requested: width as usize, transferred: n })
        },
    }
}

/// The number that a value read is, or the error of the read.
pub open spec fn value_of<T: Element>(r: Result<T, MemoryError>) -> Result<int, MemoryError> {
    match r {
        Ok(v) => Ok(v.value()),
        Err(e) => Err(e),
    }
}

/// A way to read the memory of a process.
pub trait MemoryReader: Sized {
    /// Whether the backend may answer a read of `len` bytes at `address` with
    /// `answer`, the bytes that it brought, from the first on, or an error,
    /// and be `after` then. A backend that says nothing may answer anything.
    open spec fn may_answer(
        &self,
        after: Self,
        address: usize,
        len: nat,
        answer: Result<Seq<u8>, MemoryError>,
    ) -> bool {
        true
    }

    /// Fills `buf` with the bytes at `address`, and returns how many of its
    /// bytes, from the first on, were filled.
    fn readbuf(&mut self, address: usize, buf: &mut [u8]) -> (r: Result<usize, MemoryError>)
        ensures
            final(buf)@.len() == old(buf)@.len(),
            r matches Ok(n) ==> n <= old(buf)@.len(),
            old(self).may_answer(
                *final(self),
                address,
                old(buf)@.len(),
                read_answer(r, final(buf)@),
            ),
    ;

    /// Reads the value at `address`: asks for as many bytes as the type is
    /// wide, and makes the value of the answer, see [`value_answer`].
    fn read<T: Element>(&mut self, address: usize) -> (r: Result<T, MemoryError>)
        ensures
            exists|answer: Result<Seq<u8>, MemoryError>| #[trigger]
                old(self).may_answer(*final(self), address, T::width(), answer) && value_of(r)
                    == value_answer(T::width(), T::signed(), answer),
    {
        proof {
            T::lemma_width();
        }
        let size: usize = T::size();
        let mut bytes: Vec<u8> = vec![0u8; size];
        let moved = self.readbuf(address, bytes.as_mut_slice());
        proof {
            let answer = read_answer(moved, bytes@);
            assert(old(self).may_answer(*self, address, T::width(), answer));
            if let Ok(n) = moved {
                if n == size {
                    assert(bytes@.subrange(0, n as int) =~= bytes@);
                }
            }
        }
        match moved {
            Err(e) => Err(e),
            Ok(moved) => value_read::<T>(bytes.as_slice(), moved),
        }
    }
}

/// A way to write the memory of a process.
pub trait MemoryWriter: Sized {
    /// Whether the backend may answer a write of `bytes` at `address` with
    /// `answer`, the number of bytes that it wrote, from the first on, or an
    /// error, and be `after` then. A backend that says nothing may answer
    /// anything.
    open spec fn may_accept(
        &self,
        after: Self,
        address: usize,
        bytes: Seq<u8>,
        answer: Result<usize, MemoryError>,
    ) -> bool {
        true
    }

    /// Writes `buf` at `address`, and returns how many of its bytes, from the
    /// first on, were written.
    fn writebuf(&mut self, address: usize, buf: &[u8]) -> (r: Result<usize, MemoryError>)
        ensures
            r matches Ok(n) ==> n <= buf@.len(),
            old(self).may_accept(*final(self), address, buf@, r),
    ;

    /// Writes the value at `address`: hands over the bytes that hold it, and
    /// makes the outcome of the answer, see [`write_answer`].
    fn write<T: Element>(&mut self, address: usize, value: &T) -> (r: Result<(), MemoryError>)
        ensures
            exists|answer: Result<usize, MemoryError>| #[trigger]
                old(self).may_accept(
                    *final(self),
                    address,
                    encode(value.value(), T::width()),
                    answer,
                ) && r == write_answer(T::width(), answer),
    {
        let bytes = store::<T>(*value);
        let moved = self.writebuf(address, bytes.as_slice());
        proof {
            assert(old(self).may_accept(*self, address, encode(value.value(), T::width()), moved));
        }
        match moved {
            Err(e) => Err(e),
            Ok(n) => match check_transfer(bytes.len(), n) {
                Err(e) => Err(e),
                Ok(_) => Ok(()),
            },
        }
    }
}

/// The bytes that a memory holds from the address `start` to the address
/// `end`, where it holds the byte `mem(a)` at every address `a`.
pub open spec fn memory_bytes(mem: spec_fn(int) -> u8, start: int, end: int) -> Seq<u8> {
    Seq::new((end - start) as nat, |i: int| mem(start + i))
}

/// What the reader brings are the bytes of the memory `mem`.
pub open spec fn reads_memory<M: MemoryReader>(mem: spec_fn(int) -> u8) -> bool {
    forall|before: M, after: M, a: usize, l: nat, bytes: Seq<u8>| #[trigger]
        before.may_answer(after, a, l, Ok(bytes)) ==> bytes == memory_bytes(
            mem,
            a as int,
            a + bytes.len(),
        )
}

} // verus!
