use crate::digits::{pad4_bytes, pad4_digits};
use crate::name::{clone_bytes, lemma_u8vec_deep_view};
use crate::FsError;
use vstd::prelude::*;

verus! {

/// One fetched message, reduced to what the renderer reads: author name,
/// four-digit discriminator, content, and the attachment URLs in order.
#[derive(Debug)]
pub struct Message {
    pub author_name: Vec<u8>,
    pub author_discriminator: u16,
    pub content: Vec<u8>,
    pub attachment_urls: Vec<Vec<u8>>,
}

/// Mathematical image of a `Message`.
pub struct MessageView {
    pub author_name: Seq<u8>,
    pub author_discriminator: u16,
    pub content: Seq<u8>,
    pub attachment_urls: Seq<Seq<u8>>,
}

impl View for Message {
    type V = MessageView;

    open spec fn view(&self) -> MessageView {
        MessageView {
            author_name: self.author_name@,
            author_discriminator: self.author_discriminator,
            content: self.content@,
            attachment_urls: self.attachment_urls.deep_view(),
        }
    }
}

/// Mathematical image of a sequence of messages.
pub open spec fn messages_view(s: Seq<Message>) -> Seq<MessageView> {
    Seq::new(s.len(), |i: int| s[i]@)
}

/// `"<url1> <url2> ... "`: each attachment URL followed by one space.
pub open spec fn attachments_bytes(urls: Seq<Seq<u8>>) -> Seq<u8>
    decreases urls.len(),
{
    if urls.len() == 0 {
        Seq::empty()
    } else {
        attachments_bytes(urls.drop_last()) + urls.last() + seq![32u8]
    }
}

/// The body of a rendered line: the content alone, or the content, a space,
/// and the attachment URLs each followed by a space.
pub open spec fn body_bytes(m: MessageView) -> Seq<u8> {
    if m.attachment_urls.len() == 0 {
        m.content
    } else {
        m.content + seq![32u8] + attachments_bytes(m.attachment_urls)
    }
}

/// One rendered line: `<author>#<discriminator4>: <body>\n`.
pub open spec fn line_bytes(m: MessageView) -> Seq<u8> {
    m.author_name + seq![35u8] + pad4_digits(m.author_discriminator as nat) + seq![58u8, 32u8]
        + body_bytes(m) + seq![10u8]
}

/// The whole rendered transcript of a newest-first fetch: every message on
/// its own line, oldest first, so the newest-first input is rendered back to
/// front.
pub open spec fn transcript_bytes(newest_first: Seq<MessageView>) -> Seq<u8>
    decreases newest_first.len(),
{
    if newest_first.len() == 0 {
        Seq::empty()
    } else {
        transcript_bytes(newest_first.drop_first()) + line_bytes(newest_first.first())
    }
}

/// What `read` replies once the fetch came back: the rendered transcript
/// from `offset` on, empty at or past the end.
pub open spec fn spec_read_slice(b: Seq<u8>, offset: u64) -> Seq<u8> {
    if offset >= b.len() {
        Seq::empty()
    } else {
        b.skip(offset as int)
    }
}

/// Read boundary behaviour: an offset at or past the end yields nothing,
/// offset zero yields the whole buffer.
pub proof fn lemma_read_boundaries(b: Seq<u8>, offset: u64)
    ensures
        offset >= b.len() ==> spec_read_slice(b, offset) == Seq::<u8>::empty(),
        offset == 0 ==> spec_read_slice(b, offset) == b,
{
    if offset == 0 && b.len() > 0 {
        assert(b.skip(0) =~= b);
    }
    if offset == 0 && b.len() == 0 {
        assert(spec_read_slice(b, offset) =~= b);
    }
}

/// Appends `src` to `dst`.
pub fn append_bytes(dst: &mut Vec<u8>, src: &Vec<u8>)
    ensures
        final(dst)@ == old(dst)@ + src@,
{
    let mut i: usize = 0;
    while i < src.len()
        invariant
            i <= src@.len(),
            dst@ =~= old(dst)@ + src@.take(i as int),
        decreases src@.len() - i,
    {
        let byte = src[i];
        dst.push(byte);
        proof {
            assert(dst@ =~= old(dst)@ + src@.take(i as int + 1));
        }
        i = i + 1;
    }
    proof {
        assert(src@.take(src@.len() as int) =~= src@);
    }
}

/// One step of `attachments_bytes` along a growing prefix.
proof fn lemma_attachments_take_step(urls: Seq<Seq<u8>>, i: int)
    requires
        0 <= i < urls.len(),
    ensures
        attachments_bytes(urls.take(i + 1)) == attachments_bytes(urls.take(i)) + urls[i]
            + seq![32u8],
{
    assert(urls.take(i + 1).drop_last() =~= urls.take(i));
    assert(urls.take(i + 1).last() == urls[i]);
}

/// Renders one message as its transcript line.
pub fn render_line(m: &Message) -> (r: Vec<u8>)
    ensures
        r@ == line_bytes(m@),
{
    let mut r = clone_bytes(&m.author_name);
    r.push(35);
    let d = pad4_bytes(m.author_discriminator as u64);
    append_bytes(&mut r, &d);
    r.push(58);
    r.push(32);
    let ghost head = m.author_name@ + seq![35u8] + pad4_digits(m.author_discriminator as nat)
        + seq![58u8, 32u8];
    proof {
        assert(r@ =~= head);
    }
    append_bytes(&mut r, &m.content);
    if m.attachment_urls.len() > 0 {
        r.push(32);
        let ghost urls = m@.attachment_urls;
        let n = m.attachment_urls.len();
        let mut i: usize = 0;
        proof {
            assert(attachments_bytes(urls.take(0)) =~= Seq::<u8>::empty());
            assert(r@ =~= head + m.content@ + seq![32u8] + attachments_bytes(urls.take(0)));
        }
        while i < n
            invariant
                n == m.attachment_urls@.len(),
                urls == m@.attachment_urls,
                urls.len() == n,
                i <= n,
                head == m.author_name@ + seq![35u8]
                    + pad4_digits(m.author_discriminator as nat) + seq![58u8, 32u8],
                r@ =~= head + m.content@ + seq![32u8] + attachments_bytes(urls.take(i as int)),
            decreases n - i,
        {
            let ghost pre = r@;
            append_bytes(&mut r, &m.attachment_urls[i]);
            r.push(32);
            proof {
                lemma_u8vec_deep_view(m.attachment_urls@[i as int]);
                assert(urls[i as int] == m.attachment_urls@[i as int]@);
                lemma_attachments_take_step(urls, i as int);
                assert(r@ =~= pre + urls[i as int] + seq![32u8]);
                assert(r@ =~= head + m.content@ + seq![32u8] + attachments_bytes(
                    urls.take(i as int + 1),
                ));
            }
            i = i + 1;
        }
        r.push(10);
        proof {
            assert(urls.take(urls.len() as int) =~= urls);
            assert(r@ =~= line_bytes(m@));
        }
        r
    } else {
        r.push(10);
        proof {
            assert(m@.attachment_urls.len() == 0);
            assert(r@ =~= line_bytes(m@));
        }
        r
    }
}

/// Renders a newest-first fetch as the full transcript buffer: one line per
/// message, oldest first.
pub fn render_transcript(msgs: &Vec<Message>) -> (r: Vec<u8>)
    ensures
        r@ == transcript_bytes(messages_view(msgs@)),
{
    let ghost mv = messages_view(msgs@);
    let n = msgs.len();
    let mut r: Vec<u8> = Vec::new();
    let mut i: usize = n;
    proof {
        assert(mv.skip(n as int) =~= Seq::<MessageView>::empty());
    }
    while i > 0
        invariant
            n == msgs@.len(),
            mv == messages_view(msgs@),
            mv.len() == n,
            i <= n,
            r@ =~= transcript_bytes(mv.skip(i as int)),
        decreases i,
    {
        i = i - 1;
        let ghost pre = r@;
        let line = render_line(&msgs[i]);
        append_bytes(&mut r, &line);
        proof {
            assert(mv.skip(i as int).drop_first() =~= mv.skip(i as int + 1));
            assert(mv.skip(i as int).first() == mv[i as int]);
            assert(mv[i as int] == msgs@[i as int]@);
            assert(r@ =~= transcript_bytes(mv.skip(i as int)));
        }
    }
    proof {
        assert(mv.skip(0) =~= mv);
    }
    r
}

/// `read(inode, offset)` once the inode is known to be a channel: `None`
/// stands for a failed fetch and yields `ENOENT`; a successful fetch yields
/// the rendered transcript from `offset` on — possibly more bytes than the
/// kernel asked for, which it will truncate itself.
pub fn read_reply(fetched: &Option<Vec<Message>>, offset: u64) -> (r: Result<Vec<u8>, FsError>)
    ensures
        fetched is None ==> r == Err::<Vec<u8>, FsError>(FsError::NotFound),
        fetched matches Some(msgs) ==> (r matches Ok(out) && out@ == spec_read_slice(
            transcript_bytes(messages_view(msgs@)),
            offset,
        )),
{
    match fetched {
        None => Err(FsError::NotFound),
        Some(msgs) => {
            let buf = render_transcript(msgs);
            let total = buf.len();
            if offset >= total as u64 {
                let out: Vec<u8> = Vec::new();
                proof {
                    assert(out@ =~= spec_read_slice(buf@, offset));
                }
                Ok(out)
            } else {
                let start = offset as usize;
                let mut out: Vec<u8> = Vec::new();
                let mut j: usize = start;
                while j < total
                    invariant
                        total == buf@.len(),
                        start <= j <= total,
                        out@ =~= buf@.subrange(start as int, j as int),
                    decreases total - j,
                {
                    let byte = buf[j];
                    out.push(byte);
                    proof {
                        assert(out@ =~= buf@.subrange(start as int, j as int + 1));
                    }
                    j = j + 1;
                }
                proof {
                    assert(buf@.subrange(start as int, total as int) =~= buf@.skip(start as int));
                }
                Ok(out)
            }
        },
    }
}

} // verus!
