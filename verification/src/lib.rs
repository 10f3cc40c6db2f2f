//! A chat service's guilds and text channels exposed as a userspace
//! filesystem: each guild is a directory under the mount root, each text
//! channel a regular file inside it. Reading a channel file renders a
//! transcript of its recent messages; writing posts the bytes as one new
//! message.
//!
//! This crate holds the verified core: the name uniquifier, the inode table
//! and its namespace invariants, the mount-time namespace builder, and the
//! decision and rendering logic behind the kernel-facing operations. The
//! surrounding process — credential loading, the chat client, the FUSE event
//! loop — lives outside and hands this crate plain values.

pub mod attr;
pub mod builder;
pub mod digits;
pub mod name;
pub mod render;
pub mod table;

use vstd::prelude::*;

verus! {

/// The flag returned by `open` for every file: direct I/O, which bypasses the
/// kernel page cache so that each write syscall becomes exactly one posted
/// message and each read refetches fresh content.
pub const FOPEN_DIRECT_IO: u32 = 1;

/// Kernel-visible failures of a filesystem operation.
#[derive(Clone, Copy, PartialEq, Eq, Structural, Debug)]
pub enum FsError {
    /// The inode or name does not exist, or a fetch failed: `ENOENT`.
    NotFound,
    /// Posting a message failed: `EIO`.
    Io,
}

/// The entry and attribute time-to-live handed to the kernel, in seconds.
pub const TTL_SECS: u64 = 1;

/// Reply to an `open` request: file handle and open flags. Every open
/// succeeds with handle 0 and the direct-I/O flag, whatever flags were asked.
pub fn open_reply(flags: u32) -> (r: (u64, u32))
    ensures
        r.0 == 0,
        r.1 == FOPEN_DIRECT_IO,
{
    (0, FOPEN_DIRECT_IO)
}

/// Reply to a `write` on a channel file once the post came back: all of the
/// written bytes on success, `EIO` on adapter failure. The write offset plays
/// no part — every write is a whole, standalone message.
pub fn write_reply(data_len: usize, posted: bool) -> (r: Result<u32, FsError>)
    requires
        data_len <= u32::MAX as usize,
    ensures
        posted ==> r == Ok::<u32, FsError>(data_len as u32),
        !posted ==> r == Err::<u32, FsError>(FsError::Io),
{
    if posted {
        Ok(data_len as u32)
    } else {
        Err(FsError::Io)
    }
}

} // verus!
