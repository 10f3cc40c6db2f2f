use discordfuse::attr::FileKind;
use discordfuse::builder::{build_file_tree, ChannelListing, GuildListing};

fn guild(id: u64, name: &str, channels: Vec<ChannelListing>) -> GuildListing {
    GuildListing { guild_id: id, name: name.as_bytes().to_vec(), channels }
}

fn channel(id: u64, name: &str, is_text: bool) -> ChannelListing {
    ChannelListing { channel_id: id, name: name.as_bytes().to_vec(), is_text }
}

#[test]
fn readdir_root_lists_dot_dotdot_then_guilds_in_order() {
    let t = build_file_tree(&vec![guild(10, "Cats", vec![]), guild(20, "Cats", vec![])]);
    let entries = t.readdir(1, 0).expect("root is a directory");
    assert_eq!(entries.len(), 4);
    assert_eq!(entries[0].name, b".".to_vec());
    assert_eq!(entries[0].ino, 1);
    assert_eq!(entries[0].off, 1);
    assert_eq!(entries[0].kind, FileKind::Directory);
    assert_eq!(entries[1].name, b"..".to_vec());
    assert_eq!(entries[1].ino, 1);
    assert_eq!(entries[1].off, 2);
    assert_eq!(entries[1].kind, FileKind::Directory);
    assert_eq!(entries[2].name, b"Cats".to_vec());
    assert_eq!(entries[2].ino, 10);
    assert_eq!(entries[2].off, 3);
    assert_eq!(entries[3].name, b"Cats (1)".to_vec());
    assert_eq!(entries[3].ino, 20);
    assert_eq!(entries[3].off, 4);
}

#[test]
fn readdir_guild_lists_channel_files() {
    let t = build_file_tree(&vec![guild(
        5,
        "G",
        vec![channel(6, "general", true), channel(8, "voice", false)],
    )]);
    let entries = t.readdir(5, 0).expect("guild is a directory");
    assert_eq!(entries.len(), 3);
    assert_eq!(entries[2].name, b"general".to_vec());
    assert_eq!(entries[2].ino, 6);
    assert_eq!(entries[2].kind, FileKind::RegularFile);
}

#[test]
fn readdir_offset_skips_entries_but_keeps_numbering() {
    let t = build_file_tree(&vec![guild(10, "Cats", vec![]), guild(20, "Dogs", vec![])]);
    let entries = t.readdir(1, 2).expect("root");
    assert_eq!(entries.len(), 2);
    assert_eq!(entries[0].name, b"Cats".to_vec());
    assert_eq!(entries[0].off, 3);
    assert_eq!(entries[1].name, b"Dogs".to_vec());
    assert_eq!(entries[1].off, 4);
    let entries = t.readdir(1, 4).expect("root");
    assert!(entries.is_empty());
    let entries = t.readdir(1, 100).expect("root");
    assert!(entries.is_empty());
}

#[test]
fn readdir_repeats_the_same_listing() {
    let t = build_file_tree(&vec![guild(10, "Cats", vec![channel(11, "general", true)])]);
    let first = t.readdir(1, 0).expect("root");
    let second = t.readdir(1, 0).expect("root");
    assert_eq!(first.len(), second.len());
    for (a, b) in first.iter().zip(second.iter()) {
        assert_eq!(a.ino, b.ino);
        assert_eq!(a.off, b.off);
        assert_eq!(a.kind, b.kind);
        assert_eq!(a.name, b.name);
    }
}

#[test]
fn readdir_rejects_unknown_and_non_directory_inodes() {
    let t = build_file_tree(&vec![guild(5, "G", vec![channel(6, "general", true)])]);
    assert!(t.readdir(999, 0).is_none());
    assert!(t.readdir(6, 0).is_none());
}
