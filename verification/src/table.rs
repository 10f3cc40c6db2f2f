use crate::attr::{spec_root_attr, root_attr, FileAttr, FileKind, FileRecord, NodeKind, RecordView};
use crate::name::clone_bytes;
use vstd::prelude::*;

verus! {

/// Mathematical image of a sequence of records.
pub open spec fn records_view(s: Seq<FileRecord>) -> Seq<RecordView> {
    Seq::new(s.len(), |i: int| s[i]@)
}

/// The records with the given parent, in table order.
pub open spec fn children_of(s: Seq<RecordView>, parent: u64) -> Seq<RecordView>
    decreases s.len(),
{
    if s.len() == 0 {
        Seq::empty()
    } else if s.last().parent == parent {
        children_of(s.drop_last(), parent).push(s.last())
    } else {
        children_of(s.drop_last(), parent)
    }
}

/// One step of `children_of` along a growing prefix.
pub proof fn lemma_children_of_take_step(s: Seq<RecordView>, parent: u64, i: int)
    requires
        0 <= i < s.len(),
    ensures
        children_of(s.take(i + 1), parent) == if s[i].parent == parent {
            children_of(s.take(i), parent).push(s[i])
        } else {
            children_of(s.take(i), parent)
        },
{
    assert(s.take(i + 1).drop_last() =~= s.take(i));
    assert(s.take(i + 1).last() == s[i]);
}

/// The file kind a record shows in a directory listing.
pub open spec fn record_file_kind(r: RecordView) -> FileKind {
    match r.kind {
        NodeKind::Guild => FileKind::Directory,
        NodeKind::Channel(_, _) => FileKind::RegularFile,
    }
}

/// One entry of a `readdir` reply.
#[derive(Debug)]
pub struct DirEntry {
    pub ino: u64,
    /// 1-based position of this entry in the full listing.
    pub off: u64,
    pub kind: FileKind,
    pub name: Vec<u8>,
}

/// Mathematical image of a `DirEntry`.
pub struct DirEntryView {
    pub ino: u64,
    pub off: u64,
    pub kind: FileKind,
    pub name: Seq<u8>,
}

impl View for DirEntry {
    type V = DirEntryView;

    open spec fn view(&self) -> DirEntryView {
        DirEntryView { ino: self.ino, off: self.off, kind: self.kind, name: self.name@ }
    }
}

/// Mathematical image of a sequence of directory entries.
pub open spec fn entries_view(s: Seq<DirEntry>) -> Seq<DirEntryView> {
    Seq::new(s.len(), |i: int| s[i]@)
}

fn clone_entry(e: &DirEntry) -> (c: DirEntry)
    ensures
        c@ == e@,
{
    DirEntry { ino: e.ino, off: e.off, kind: e.kind, name: clone_bytes(&e.name) }
}

/// The in-memory namespace: an ordered mapping from inode to file record,
/// populated once at mount time and immutable thereafter.
pub struct InodeTable {
    records: Vec<FileRecord>,
}

impl View for InodeTable {
    type V = Seq<RecordView>;

    closed spec fn view(&self) -> Seq<RecordView> {
        records_view(self.records@)
    }
}

impl InodeTable {
    /// Inodes are table keys: pairwise distinct.
    pub open spec fn wf(self) -> bool {
        forall|i: int, j: int|
            0 <= i < j < self@.len() ==> (#[trigger] self@[i]).inode != (#[trigger] self@[j]).inode
    }

    /// Some record carries this inode.
    pub open spec fn has_inode(self, ino: u64) -> bool {
        exists|i: int| 0 <= i < self@.len() && (#[trigger] self@[i]).inode == ino
    }

    /// The record carrying this inode (unique when the table is well formed).
    pub open spec fn record_with(self, ino: u64) -> RecordView {
        self@[choose|i: int| 0 <= i < self@.len() && (#[trigger] self@[i]).inode == ino]
    }

    /// Index `i` holds a record with this parent and this exact name.
    pub open spec fn child_at(self, i: int, parent: u64, name: Seq<u8>) -> bool {
        0 <= i < self@.len() && self@[i].parent == parent && self@[i].name == name
    }

    /// Some record has this parent and this exact name.
    pub open spec fn has_child(self, parent: u64, name: Seq<u8>) -> bool {
        exists|i: int| #[trigger] self.child_at(i, parent, name)
    }

    pub fn new() -> (r: InodeTable)
        ensures
            r@ =~= Seq::<RecordView>::empty(),
            r.wf(),
    {
        InodeTable { records: Vec::new() }
    }

    pub fn len(&self) -> (r: usize)
        ensures
            r == self@.len(),
    {
        self.records.len()
    }

    /// Read access to the record at a table position, for walking the table.
    pub fn record_at(&self, i: usize) -> (r: &FileRecord)
        requires
            i < self@.len(),
        ensures
            r@ == self@[i as int],
    {
        &self.records[i]
    }

    /// Appends a record under a fresh inode; the table keeps insertion
    /// order, so `readdir` lists siblings in the order they were built.
    pub fn push_record(&mut self, rec: FileRecord)
        requires
            old(self).wf(),
            !old(self).has_inode(rec.inode),
        ensures
            final(self)@ =~= old(self)@.push(rec@),
            final(self).wf(),
    {
        self.records.push(rec);
        proof {
            assert(self@ =~= old(self)@.push(rec@));
            assert forall|i: int, j: int|
                0 <= i < j < self@.len() implies self@[i].inode != self@[j].inode by {
                assert(old(self)@[i] == self@[i]);
                if j == self@.len() - 1 {
                    if self@[i].inode == rec.inode {
                        assert(old(self).has_inode(rec.inode));
                    }
                } else {
                    assert(old(self)@[j] == self@[j]);
                }
            }
        }
    }

    /// `get(inode)`: the record stored under an inode, if any.
    pub fn get(&self, ino: u64) -> (r: Option<&FileRecord>)
        requires
            self.wf(),
        ensures
            (r is Some) == self.has_inode(ino),
            r is Some ==> r.unwrap()@ == self.record_with(ino),
    {
        let n = self.records.len();
        let mut i: usize = 0;
        while i < n
            invariant
                n == self@.len(),
                i <= n,
                self.wf(),
                forall|j: int| 0 <= j < i ==> (#[trigger] self@[j]).inode != ino,
            decreases n - i,
        {
            if self.records[i].inode == ino {
                proof {
                    assert(self@[i as int].inode == ino);
                    assert(self.has_inode(ino));
                    let i2 = choose|k: int|
                        0 <= k < self@.len() && (#[trigger] self@[k]).inode == ino;
                    if i2 != i {
                        assert(false);
                    }
                }
                return Some(&self.records[i]);
            }
            i = i + 1;
        }
        proof {
            if self.has_inode(ino) {
                let j = choose|k: int| 0 <= k < self@.len() && (#[trigger] self@[k]).inode == ino;
                assert(false);
            }
        }
        None
    }

    /// `find_child(parent, name)`: the first record, in table order, whose
    /// parent and name both match; byte-exact comparison.
    pub fn find_child(&self, parent: u64, name: &Vec<u8>) -> (r: Option<&FileRecord>)
        ensures
            (r is Some) == self.has_child(parent, name@),
            r is Some ==> exists|i: int|
                {
                    &&& #[trigger] self.child_at(i, parent, name@)
                    &&& r.unwrap()@ == self@[i]
                    &&& forall|j: int| 0 <= j < i ==> !self.child_at(j, parent, name@)
                },
    {
        let n = self.records.len();
        let mut i: usize = 0;
        while i < n
            invariant
                n == self@.len(),
                i <= n,
                forall|j: int| 0 <= j < i ==> !self.child_at(j, parent, name@),
            decreases n - i,
        {
            let rec = &self.records[i];
            if rec.parent == parent && crate::name::bytes_eq(&rec.name, name) {
                proof {
                    assert(self.child_at(i as int, parent, name@));
                }
                return Some(&self.records[i]);
            }
            proof {
                assert(!self.child_at(i as int, parent, name@));
            }
            i = i + 1;
        }
        proof {
            if self.has_child(parent, name@) {
                let j = choose|k: int| #[trigger] self.child_at(k, parent, name@);
                assert(false);
            }
        }
        None
    }

    /// `lookup(parent, name)`: attributes of the first matching child, or
    /// nothing (the kernel sees `ENOENT`).
    pub fn lookup(&self, parent: u64, name: &Vec<u8>) -> (r: Option<FileAttr>)
        ensures
            (r is Some) == self.has_child(parent, name@),
            r is Some ==> exists|i: int|
                {
                    &&& #[trigger] self.child_at(i, parent, name@)
                    &&& r.unwrap() == self@[i].attr
                    &&& forall|j: int| 0 <= j < i ==> !self.child_at(j, parent, name@)
                },
    {
        match self.find_child(parent, name) {
            Some(rec) => Some(rec.attr),
            None => None,
        }
    }

    /// What `getattr` answers: the fixed root attributes for inode 1 —
    /// whatever the table holds — else the stored attributes of the record.
    pub open spec fn spec_getattr(self, ino: u64) -> Option<FileAttr> {
        if ino == 1 {
            Some(spec_root_attr())
        } else if self.has_inode(ino) {
            Some(self.record_with(ino).attr)
        } else {
            None
        }
    }

    /// `getattr(inode)`: root attributes for inode 1 without consulting the
    /// table, stored attributes otherwise, nothing for an unknown inode.
    pub fn getattr(&self, ino: u64) -> (r: Option<FileAttr>)
        requires
            self.wf(),
        ensures
            r == self.spec_getattr(ino),
    {
        if ino == 1 {
            return Some(root_attr());
        }
        match self.get(ino) {
            Some(rec) => Some(rec.attr),
            None => None,
        }
    }

    /// What `channel_of` answers: the remote guild and channel identifiers
    /// when the inode is a channel file, nothing otherwise.
    pub open spec fn spec_channel_of(self, ino: u64) -> Option<(u64, u64)> {
        if self.has_inode(ino) {
            match self.record_with(ino).kind {
                NodeKind::Channel(g, c) => Some((g, c)),
                NodeKind::Guild => None,
            }
        } else {
            None
        }
    }

    /// The remote identifiers behind a channel-file inode; `read` and
    /// `write` are only defined where this answers.
    pub fn channel_of(&self, ino: u64) -> (r: Option<(u64, u64)>)
        requires
            self.wf(),
        ensures
            r == self.spec_channel_of(ino),
    {
        match self.get(ino) {
            Some(rec) => match rec.kind {
                NodeKind::Channel(g, c) => Some((g, c)),
                NodeKind::Guild => None,
            },
            None => None,
        }
    }

    /// `children(parent)`: the records inside a directory, in table order.
    pub fn children(&self, parent: u64) -> (r: Vec<FileRecord>)
        ensures
            records_view(r@) == children_of(self@, parent),
    {
        let n = self.records.len();
        let mut r: Vec<FileRecord> = Vec::new();
        let mut i: usize = 0;
        while i < n
            invariant
                n == self@.len(),
                i <= n,
                records_view(r@) =~= children_of(self@.take(i as int), parent),
            decreases n - i,
        {
            let ghost pre = records_view(r@);
            let rec = &self.records[i];
            if rec.parent == parent {
                let c = clone_record(rec);
                r.push(c);
                proof {
                    assert(records_view(r@) =~= pre.push(self@[i as int]));
                }
            }
            proof {
                lemma_children_of_take_step(self@, parent, i as int);
            }
            i = i + 1;
        }
        proof {
            assert(self@.take(n as int) =~= self@);
        }
        r
    }

    /// Whether `readdir` is defined on this inode: the root, or a guild
    /// directory record.
    pub open spec fn spec_is_dir(self, ino: u64) -> bool {
        ino == 1 || (self.has_inode(ino) && self.record_with(ino).kind is Guild)
    }

    /// The full `readdir` listing of a directory: the synthetic `.` and `..`
    /// entries, both inode 1 and directories, then every child in table
    /// order; entries are numbered from 1.
    pub open spec fn spec_dir_listing(self, ino: u64) -> Seq<DirEntryView> {
        let kids = children_of(self@, ino);
        seq![
            DirEntryView { ino: 1, off: 1, kind: FileKind::Directory, name: seq![46u8] },
            DirEntryView { ino: 1, off: 2, kind: FileKind::Directory, name: seq![46u8, 46u8] },
        ] + Seq::new(
            kids.len(),
            |i: int|
                DirEntryView {
                    ino: kids[i].inode,
                    off: (i + 3) as u64,
                    kind: record_file_kind(kids[i]),
                    name: kids[i].name,
                },
        )
    }

    /// The listing with its first `offset` entries skipped; each surviving
    /// entry keeps the 1-based position it has in the full listing.
    pub open spec fn spec_listing_from(self, ino: u64, offset: u64) -> Seq<DirEntryView> {
        let full = self.spec_dir_listing(ino);
        if offset >= full.len() {
            Seq::empty()
        } else {
            full.skip(offset as int)
        }
    }

    /// `readdir(inode, offset)`: the listing from `offset` on for the root
    /// or a guild directory, nothing (the kernel sees `ENOENT`) for an
    /// unknown or non-directory inode.
    pub fn readdir(&self, ino: u64, offset: u64) -> (r: Option<Vec<DirEntry>>)
        requires
            self.wf(),
            self@.len() + 3 <= u64::MAX,
        ensures
            (r is Some) == self.spec_is_dir(ino),
            r is Some ==> entries_view(r.unwrap()@) == self.spec_listing_from(ino, offset),
    {
        if ino != 1 {
            match self.get(ino) {
                None => {
                    return None;
                },
                Some(rec) => match rec.kind {
                    NodeKind::Channel(_, _) => {
                        return None;
                    },
                    NodeKind::Guild => {},
                },
            }
        }
        let kids = self.children(ino);
        let ghost listing = self.spec_dir_listing(ino);
        proof {
            assert(children_of(self@, ino).len() <= self@.len()) by {
                lemma_children_of_len(self@, ino);
            }
        }
        let mut full: Vec<DirEntry> = Vec::new();
        full.push(DirEntry { ino: 1, off: 1, kind: FileKind::Directory, name: vec![46u8] });
        full.push(DirEntry { ino: 1, off: 2, kind: FileKind::Directory, name: vec![46u8, 46u8] });
        proof {
            assert(full@[0]@.name =~= seq![46u8]);
            assert(full@[1]@.name =~= seq![46u8, 46u8]);
            assert(entries_view(full@) =~= listing.take(2));
        }
        let mut i: usize = 0;
        let n = kids.len();
        while i < n
            invariant
                n == kids@.len(),
                records_view(kids@) == children_of(self@, ino),
                n + 3 <= u64::MAX,
                i <= n,
                listing == self.spec_dir_listing(ino),
                listing.len() == n + 2,
                full@.len() == i + 2,
                entries_view(full@) =~= listing.take(i + 2),
            decreases n - i,
        {
            let ghost pre = entries_view(full@);
            let rec = &kids[i];
            let kind = match rec.kind {
                NodeKind::Guild => FileKind::Directory,
                NodeKind::Channel(_, _) => FileKind::RegularFile,
            };
            let e = DirEntry {
                ino: rec.inode,
                off: (i as u64) + 3,
                kind,
                name: clone_bytes(&rec.name),
            };
            proof {
                assert(records_view(kids@)[i as int] == kids@[i as int]@);
                assert(e@ == listing[i + 2]);
            }
            full.push(e);
            proof {
                assert(entries_view(full@) =~= pre.push(e@));
                assert(entries_view(full@) =~= listing.take(i + 3));
            }
            i = i + 1;
        }
        proof {
            assert(listing.take((n + 2) as int) =~= listing);
            assert(entries_view(full@) =~= listing);
        }
        let total = full.len();
        if offset >= total as u64 {
            proof {
                assert(self.spec_listing_from(ino, offset) =~= Seq::<DirEntryView>::empty());
            }
            return Some(Vec::new());
        }
        let start = offset as usize;
        let mut out: Vec<DirEntry> = Vec::new();
        let mut j: usize = start;
        while j < total
            invariant
                total == full@.len(),
                entries_view(full@) == listing,
                start <= j <= total,
                start < total,
                start == offset,
                entries_view(out@) =~= listing.subrange(start as int, j as int),
            decreases total - j,
        {
            let ghost pre = entries_view(out@);
            let e = clone_entry(&full[j]);
            proof {
                assert(e@ == entries_view(full@)[j as int]);
            }
            out.push(e);
            proof {
                assert(entries_view(out@) =~= pre.push(listing[j as int]));
                assert(entries_view(out@) =~= listing.subrange(start as int, j as int + 1));
            }
            j = j + 1;
        }
        proof {
            assert(listing.subrange(start as int, total as int) =~= listing.skip(start as int));
        }
        Some(out)
    }
}

/// A directory has no more children than the table has records.
pub proof fn lemma_children_of_len(s: Seq<RecordView>, parent: u64)
    ensures
        children_of(s, parent).len() <= s.len(),
    decreases s.len(),
{
    if s.len() > 0 {
        lemma_children_of_len(s.drop_last(), parent);
    }
}

/// `getattr` on inode 1 is independent of the table: any two tables answer
/// the same fixed root attributes.
pub proof fn lemma_getattr_root_ignores_table(t1: InodeTable, t2: InodeTable)
    ensures
        t1.spec_getattr(1) == t2.spec_getattr(1),
{
}

/// The shape of every `readdir` listing: exactly the two synthetic entries
/// `.` and `..`, then the children of the directory in table order, with
/// consecutive positions numbered from 1.
pub proof fn lemma_dir_listing_shape(t: InodeTable, ino: u64)
    ensures
        t.spec_dir_listing(ino).len() == 2 + children_of(t@, ino).len(),
        t.spec_dir_listing(ino)[0] == (DirEntryView {
            ino: 1,
            off: 1,
            kind: FileKind::Directory,
            name: seq![46u8],
        }),
        t.spec_dir_listing(ino)[1] == (DirEntryView {
            ino: 1,
            off: 2,
            kind: FileKind::Directory,
            name: seq![46u8, 46u8],
        }),
        forall|i: int|
            0 <= i < children_of(t@, ino).len() ==> t.spec_dir_listing(ino)[i + 2]
                == (DirEntryView {
                ino: children_of(t@, ino)[i].inode,
                off: (i + 3) as u64,
                kind: record_file_kind(children_of(t@, ino)[i]),
                name: children_of(t@, ino)[i].name,
            }),
{
}

/// Copies a record.
pub fn clone_record(r: &FileRecord) -> (c: FileRecord)
    ensures
        c@ == r@,
{
    FileRecord {
        inode: r.inode,
        name: clone_bytes(&r.name),
        kind: r.kind,
        parent: r.parent,
        attr: r.attr,
    }
}

} // verus!
