use discordfuse::attr::{root_attr, FileKind, NodeKind};
use discordfuse::builder::{build_file_tree, ChannelListing, GuildListing};
use discordfuse::table::InodeTable;

fn guild(id: u64, name: &str, channels: Vec<ChannelListing>) -> GuildListing {
    GuildListing { guild_id: id, name: name.as_bytes().to_vec(), channels }
}

fn channel(id: u64, name: &str, is_text: bool) -> ChannelListing {
    ChannelListing { channel_id: id, name: name.as_bytes().to_vec(), is_text }
}

fn two_cats() -> InodeTable {
    build_file_tree(&vec![guild(10, "Cats", vec![]), guild(20, "Cats", vec![])])
}

fn one_guild() -> InodeTable {
    build_file_tree(&vec![guild(
        5,
        "G",
        vec![
            channel(6, "general", true),
            channel(7, "general", true),
            channel(8, "voice", false),
        ],
    )])
}

#[test]
fn duplicate_guild_names_are_uniquified() {
    let t = two_cats();
    assert_eq!(t.len(), 2);
    assert_eq!(t.record_at(0).name, b"Cats".to_vec());
    assert_eq!(t.record_at(0).inode, 10);
    assert_eq!(t.record_at(1).name, b"Cats (1)".to_vec());
    assert_eq!(t.record_at(1).inode, 20);
}

#[test]
fn guild_records_hang_under_the_root() {
    let t = two_cats();
    for i in 0..t.len() {
        let rec = t.record_at(i);
        assert_eq!(rec.parent, 1);
        assert!(matches!(rec.kind, NodeKind::Guild));
    }
}

#[test]
fn text_channels_become_files_voice_is_absent() {
    let t = one_guild();
    let kids = t.children(5);
    assert_eq!(kids.len(), 2);
    assert_eq!(kids[0].name, b"general".to_vec());
    assert_eq!(kids[0].inode, 6);
    assert_eq!(kids[1].name, b"general (1)".to_vec());
    assert_eq!(kids[1].inode, 7);
    assert!(t.get(8).is_none());
}

#[test]
fn parent_is_root_iff_guild() {
    let t = one_guild();
    for i in 0..t.len() {
        let rec = t.record_at(i);
        let is_guild = matches!(rec.kind, NodeKind::Guild);
        assert_eq!(rec.parent == 1, is_guild);
    }
}

#[test]
fn sibling_names_are_unique() {
    let t = one_guild();
    for i in 0..t.len() {
        for j in 0..t.len() {
            if i != j {
                let a = t.record_at(i);
                let b = t.record_at(j);
                if a.parent == b.parent {
                    assert_ne!(a.name, b.name);
                }
            }
        }
    }
}

#[test]
fn attributes_agree_with_record() {
    let t = one_guild();
    for i in 0..t.len() {
        let rec = t.record_at(i);
        assert_eq!(rec.attr.ino, rec.inode);
        match rec.kind {
            NodeKind::Guild => {
                assert_eq!(rec.attr.kind, FileKind::Directory);
                assert_eq!(rec.attr.perm, 0o555);
                assert_eq!(rec.attr.nlink, 2);
                assert_eq!(rec.attr.size, 0);
            },
            NodeKind::Channel(g, c) => {
                assert_eq!(rec.attr.kind, FileKind::RegularFile);
                assert_eq!(rec.attr.perm, 0o644);
                assert_eq!(rec.attr.nlink, 1);
                assert_eq!(rec.attr.size, u32::MAX as u64);
                assert_eq!(g, 5);
                assert_eq!(c, rec.inode);
            },
        }
    }
}

#[test]
fn lookup_finds_children_by_exact_name() {
    let t = one_guild();
    let attr = t.lookup(5, &b"general (1)".to_vec()).expect("present");
    assert_eq!(attr.ino, 7);
    let attr = t.lookup(1, &b"G".to_vec()).expect("present");
    assert_eq!(attr.ino, 5);
}

#[test]
fn lookup_miss_is_not_found() {
    let t = one_guild();
    assert!(t.lookup(1, &b"Nonexistent".to_vec()).is_none());
    assert!(t.lookup(5, &b"voice".to_vec()).is_none());
}

#[test]
fn getattr_root_never_consults_the_table() {
    let empty = InodeTable::new();
    let t = one_guild();
    assert_eq!(empty.getattr(1), Some(root_attr()));
    assert_eq!(t.getattr(1), Some(root_attr()));
    let root = root_attr();
    assert_eq!(root.perm, 0o755);
    assert_eq!(root.nlink, 2);
    assert_eq!(root.kind, FileKind::Directory);
}

#[test]
fn getattr_unknown_inode_is_not_found() {
    let t = one_guild();
    assert!(t.getattr(999999).is_none());
    assert_eq!(t.getattr(6).expect("channel").ino, 6);
}

#[test]
fn guilds_keep_adapter_order_whatever_their_ids() {
    // The table keeps insertion order, so the first-listed guild keeps the
    // bare name and is listed first even when its id is the larger one.
    let t = build_file_tree(&vec![guild(20, "Cats", vec![]), guild(10, "Cats", vec![])]);
    assert_eq!(t.record_at(0).inode, 20);
    assert_eq!(t.record_at(0).name, b"Cats".to_vec());
    assert_eq!(t.record_at(1).inode, 10);
    assert_eq!(t.record_at(1).name, b"Cats (1)".to_vec());
}

#[test]
fn channel_names_are_scoped_per_guild() {
    // The same raw channel name in two guilds keeps the bare name in both.
    let t = build_file_tree(&vec![
        guild(2, "A", vec![channel(3, "general", true)]),
        guild(4, "B", vec![channel(9, "general", true)]),
    ]);
    assert_eq!(t.lookup(2, &b"general".to_vec()).expect("in A").ino, 3);
    assert_eq!(t.lookup(4, &b"general".to_vec()).expect("in B").ino, 9);
}

#[test]
fn lookup_matches_parent_and_name_together() {
    let t = build_file_tree(&vec![
        guild(2, "A", vec![channel(3, "news", true)]),
        guild(4, "B", vec![]),
    ]);
    assert!(t.lookup(4, &b"news".to_vec()).is_none());
    assert!(t.lookup(1, &b"news".to_vec()).is_none());
}

#[test]
fn channel_of_answers_only_for_channel_files() {
    let t = one_guild();
    assert_eq!(t.channel_of(6), Some((5, 6)));
    assert_eq!(t.channel_of(7), Some((5, 7)));
    assert_eq!(t.channel_of(5), None);
    assert_eq!(t.channel_of(1), None);
    assert_eq!(t.channel_of(999), None);
}
