//! The calls into the kernel, through the `nix` crate. Nothing here is
//! proved: each contract states what is taken on trust of the call.

use vstd::prelude::*;
use nix::errno::Errno;
use nix::sys::ptrace::AddressType;
use nix::sys::uio::RemoteIoVec;
use nix::unistd::Pid;
use std::io::{IoSlice, IoSliceMut};

verus! {

/// The error numbers of the system, `nix::errno::Errno`. Nothing is known of
/// a value but that it is one.
#[verifier::external_type_specification]
#[verifier::external_body]
pub struct ExErrno(Errno);

/// `nix::sys::ptrace::attach`: asks to trace the process. Nothing is claimed
/// of the outcome.
#[verifier::external_body]
pub(crate) fn trace_attach(pid: u32) -> (r: Result<(), Errno>) {
    nix::sys::ptrace::attach(Pid::from_raw(pid as i32))
}

/// `nix::sys::wait::waitpid` without options: waits until the process changes
/// state. The state it reports is dropped, and nothing is claimed of the
/// outcome.
#[verifier::external_body]
pub(crate) fn trace_wait(pid: u32) -> (r: Result<(), Errno>) {
    match nix::sys::wait::waitpid(Pid::from_raw(pid as i32), None) {
        Ok(_) => Ok(()),
        Err(e) => Err(e),
    }
}

/// `nix::sys::ptrace::detach` without a signal: lets the process go. Nothing
/// is claimed of the outcome.
#[verifier::external_body]
pub(crate) fn trace_detach(pid: u32) -> (r: Result<(), Errno>) {
    nix::sys::ptrace::detach(Pid::from_raw(pid as i32), None)
}

/// `nix::sys::ptrace::read`: reads the word at `addr` in the traced process,
/// handed back as the bytes it has in memory. Nothing is claimed of them.
#[verifier::external_body]
pub(crate) fn trace_peek(pid: u32, addr: usize) -> (r: Result<[u8; 8], Errno>) {
    match nix::sys::ptrace::read(Pid::from_raw(pid as i32), addr as AddressType) {
        Ok(word) => Ok(word.to_ne_bytes()),
        Err(e) => Err(e),
    }
}

/// `nix::sys::ptrace::write`: writes the word with the given bytes at `addr`
/// in the traced process. Nothing is claimed of the outcome.
#[verifier::external_body]
pub(crate) fn trace_poke(pid: u32, addr: usize, word: [u8; 8]) -> (r: Result<(), Errno>) {
    nix::sys::ptrace::write(
        Pid::from_raw(pid as i32),
        addr as AddressType,
        nix::libc::c_long::from_ne_bytes(word),
    )
}

/// `nix::sys::uio::process_vm_readv` with one local and one remote buffer of
/// the length of `buf`: copies from `address` in the process into `buf` and
/// returns the number of bytes copied. Nothing is claimed of the count or of
/// the bytes; a slice keeps its length.
#[verifier::external_body]
pub(crate) fn vm_read(pid: u32, address: usize, buf: &mut [u8]) -> (r: Result<usize, Errno>)
    ensures
        final(buf)@.len() == old(buf)@.len(),
{
    let len = buf.len();
    let mut local = [IoSliceMut::new(buf)];
    let remote = [RemoteIoVec { base: address, len }];
    nix::sys::uio::process_vm_readv(Pid::from_raw(pid as i32), &mut local, &remote)
}

/// `nix::sys::uio::process_vm_writev` with one local and one remote buffer of
/// the length of `buf`: copies `buf` to `address` in the process and returns
/// the number of bytes copied. Nothing is claimed of the count.
#[verifier::external_body]
pub(crate) fn vm_write(pid: u32, address: usize, buf: &[u8]) -> (r: Result<usize, Errno>) {
    let local = [IoSlice::new(buf)];
    let remote = [RemoteIoVec { base: address, len: buf.len() }];
    nix::sys::uio::process_vm_writev(Pid::from_raw(pid as i32), &local, &remote)
}

/// The `Display` text of an error number of `nix`: its name and what it
/// means. Nothing is claimed of the text.
#[verifier::external_body]
pub(crate) fn errno_text(e: Errno) -> (r: String) {
    e.to_string()
}

} // verus!
