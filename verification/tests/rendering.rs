use discordfuse::render::{read_reply, render_line, render_transcript, Message};
use discordfuse::{open_reply, write_reply, FsError, FOPEN_DIRECT_IO};

fn msg(author: &str, disc: u16, content: &str, urls: &[&str]) -> Message {
    Message {
        author_name: author.as_bytes().to_vec(),
        author_discriminator: disc,
        content: content.as_bytes().to_vec(),
        attachment_urls: urls.iter().map(|u| u.as_bytes().to_vec()).collect(),
    }
}

#[test]
fn transcript_renders_newest_first_fetch_oldest_first() {
    // Fetched newest-first: alice is the newest, bob the oldest.
    let msgs = vec![msg("alice", 1, "hi", &[]), msg("bob", 42, "yo", &["http://x/y.png"])];
    let out = read_reply(&Some(msgs), 0).expect("fetch succeeded");
    assert_eq!(out, b"bob#0042: yo http://x/y.png \nalice#0001: hi\n".to_vec());
}

#[test]
fn line_keeps_trailing_space_after_each_attachment() {
    let line = render_line(&msg("eve", 7, "look", &["http://a/b", "http://c/d"]));
    assert_eq!(line, b"eve#0007: look http://a/b http://c/d \n".to_vec());
}

#[test]
fn line_without_attachments_has_no_trailing_space() {
    let line = render_line(&msg("eve", 7, "look", &[]));
    assert_eq!(line, b"eve#0007: look\n".to_vec());
}

#[test]
fn discriminators_are_zero_padded_to_four_digits() {
    let line = render_line(&msg("a", 0, "x", &[]));
    assert_eq!(line, b"a#0000: x\n".to_vec());
    let line = render_line(&msg("a", 9999, "x", &[]));
    assert_eq!(line, b"a#9999: x\n".to_vec());
}

#[test]
fn empty_fetch_renders_empty_transcript() {
    let out = render_transcript(&vec![]);
    assert!(out.is_empty());
}

#[test]
fn read_at_end_offset_returns_empty() {
    let msgs = vec![msg("bob", 42, "yo", &[])];
    let full = read_reply(&Some(msgs), 0).expect("ok");
    let len = full.len() as u64;
    let msgs = vec![msg("bob", 42, "yo", &[])];
    assert!(read_reply(&Some(msgs), len).expect("ok").is_empty());
}

#[test]
fn read_past_end_offset_returns_empty() {
    let msgs = vec![msg("bob", 42, "yo", &[])];
    assert!(read_reply(&Some(msgs), 10_000).expect("ok").is_empty());
}

#[test]
fn read_mid_offset_returns_the_tail() {
    let msgs = vec![msg("bob", 42, "yo", &[])];
    let out = read_reply(&Some(msgs), 4).expect("ok");
    assert_eq!(out, b"0042: yo\n".to_vec());
}

#[test]
fn read_failed_fetch_is_not_found() {
    assert_eq!(read_reply(&None, 0), Err(FsError::NotFound));
}

#[test]
fn open_always_grants_direct_io() {
    assert_eq!(open_reply(0), (0, FOPEN_DIRECT_IO));
    assert_eq!(open_reply(0o100002), (0, FOPEN_DIRECT_IO));
    assert_eq!(open_reply(u32::MAX), (0, FOPEN_DIRECT_IO));
}

#[test]
fn write_reports_all_bytes_on_success() {
    assert_eq!(write_reply(11, true), Ok(11));
    assert_eq!(write_reply(0, true), Ok(0));
}

#[test]
fn write_failure_is_io_error() {
    assert_eq!(write_reply(11, false), Err(FsError::Io));
}

#[test]
fn consecutive_writes_are_separate_posts() {
    // Two write syscalls are two standalone replies, never coalesced.
    assert_eq!(write_reply(1, true), Ok(1));
    assert_eq!(write_reply(1, true), Ok(1));
}
