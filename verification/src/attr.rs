use vstd::prelude::*;

verus! {

/// POSIX file kind as exposed to the kernel.
#[derive(Clone, Copy, PartialEq, Eq, Structural, Debug)]
pub enum FileKind {
    Directory,
    RegularFile,
}

/// POSIX file attributes. Timestamps are seconds since the Unix epoch; every
/// entry of this filesystem carries epoch timestamps.
#[derive(Clone, Copy, PartialEq, Eq, Structural, Debug)]
pub struct FileAttr {
    pub ino: u64,
    pub size: u64,
    pub blocks: u64,
    pub atime_secs: u64,
    pub mtime_secs: u64,
    pub ctime_secs: u64,
    pub crtime_secs: u64,
    pub kind: FileKind,
    pub perm: u16,
    pub nlink: u32,
    pub uid: u32,
    pub gid: u32,
    pub rdev: u32,
    pub flags: u32,
}

/// What a table entry stands for: a guild directory, or a channel file bound
/// to its remote guild and channel identifiers.
#[derive(Clone, Copy, PartialEq, Eq, Structural, Debug)]
pub enum NodeKind {
    Guild,
    Channel(u64, u64),
}

/// One entry of the inode table: a guild directory or a channel file.
#[derive(Debug)]
pub struct FileRecord {
    /// The table key; equal to the remote entity's identifier.
    pub inode: u64,
    /// Filesystem-visible name inside the parent directory.
    pub name: Vec<u8>,
    pub kind: NodeKind,
    /// Inode of the containing directory: 1 for guilds, the guild inode for
    /// channels.
    pub parent: u64,
    pub attr: FileAttr,
}

/// Mathematical image of a `FileRecord`.
pub struct RecordView {
    pub inode: u64,
    pub name: Seq<u8>,
    pub kind: NodeKind,
    pub parent: u64,
    pub attr: FileAttr,
}

impl View for FileRecord {
    type V = RecordView;

    open spec fn view(&self) -> RecordView {
        RecordView {
            inode: self.inode,
            name: self.name@,
            kind: self.kind,
            parent: self.parent,
            attr: self.attr,
        }
    }
}

/// Attributes of the mount root, inode 1: a directory with mode 0755, link
/// count 2 and epoch timestamps. The root has no record in the table.
pub open spec fn spec_root_attr() -> FileAttr {
    FileAttr {
        ino: 1,
        size: 0,
        blocks: 0,
        atime_secs: 0,
        mtime_secs: 0,
        ctime_secs: 0,
        crtime_secs: 0,
        kind: FileKind::Directory,
        perm: 0o755,
        nlink: 2,
        uid: 501,
        gid: 20,
        rdev: 0,
        flags: 0,
    }
}

/// Attributes of a guild directory: mode 0555, link count 2, size 0.
pub open spec fn spec_guild_attr(id: u64) -> FileAttr {
    FileAttr {
        ino: id,
        size: 0,
        blocks: 0,
        atime_secs: 0,
        mtime_secs: 0,
        ctime_secs: 0,
        crtime_secs: 0,
        kind: FileKind::Directory,
        perm: 0o555,
        nlink: 2,
        uid: 501,
        gid: 20,
        rdev: 0,
        flags: 0,
    }
}

/// Attributes of a channel file: mode 0644, link count 1, and an apparent
/// size of 4 GiB - 1 so that sequential readers keep asking for more until
/// the renderer returns empty.
pub open spec fn spec_channel_attr(id: u64) -> FileAttr {
    FileAttr {
        ino: id,
        size: 0xffff_ffff,
        blocks: 0,
        atime_secs: 0,
        mtime_secs: 0,
        ctime_secs: 0,
        crtime_secs: 0,
        kind: FileKind::RegularFile,
        perm: 0o644,
        nlink: 1,
        uid: 501,
        gid: 20,
        rdev: 0,
        flags: 0,
    }
}

pub fn root_attr() -> (r: FileAttr)
    ensures
        r == spec_root_attr(),
{
    FileAttr {
        ino: 1,
        size: 0,
        blocks: 0,
        atime_secs: 0,
        mtime_secs: 0,
        ctime_secs: 0,
        crtime_secs: 0,
        kind: FileKind::Directory,
        perm: 0o755,
        nlink: 2,
        uid: 501,
        gid: 20,
        rdev: 0,
        flags: 0,
    }
}

pub fn guild_attr(id: u64) -> (r: FileAttr)
    ensures
        r == spec_guild_attr(id),
{
    FileAttr {
        ino: id,
        size: 0,
        blocks: 0,
        atime_secs: 0,
        mtime_secs: 0,
        ctime_secs: 0,
        crtime_secs: 0,
        kind: FileKind::Directory,
        perm: 0o555,
        nlink: 2,
        uid: 501,
        gid: 20,
        rdev: 0,
        flags: 0,
    }
}

pub fn channel_attr(id: u64) -> (r: FileAttr)
    ensures
        r == spec_channel_attr(id),
{
    FileAttr {
        ino: id,
        size: 0xffff_ffff,
        blocks: 0,
        atime_secs: 0,
        mtime_secs: 0,
        ctime_secs: 0,
        crtime_secs: 0,
        kind: FileKind::RegularFile,
        perm: 0o644,
        nlink: 1,
        uid: 501,
        gid: 20,
        rdev: 0,
        flags: 0,
    }
}

} // verus!
