use crate::attr::{
    channel_attr, guild_attr, spec_channel_attr, spec_guild_attr, FileRecord, NodeKind, RecordView,
};
use crate::name::{
    clone_bytes, lemma_push_preserves_contains, lemma_u8vec_deep_view, lemma_unique_name_fresh,
    spec_unique_name, unique_name,
};
use crate::table::InodeTable;
use vstd::prelude::*;

verus! {

/// One channel as the chat adapter lists it: remote identifier, raw display
/// name, and whether it is a text channel (only those become files).
#[derive(Debug)]
pub struct ChannelListing {
    pub channel_id: u64,
    pub name: Vec<u8>,
    pub is_text: bool,
}

/// Mathematical image of a `ChannelListing`.
pub struct ChannelListingView {
    pub channel_id: u64,
    pub name: Seq<u8>,
    pub is_text: bool,
}

impl View for ChannelListing {
    type V = ChannelListingView;

    open spec fn view(&self) -> ChannelListingView {
        ChannelListingView {
            channel_id: self.channel_id,
            name: self.name@,
            is_text: self.is_text,
        }
    }
}

/// One guild as the chat adapter lists it, with its channels in the order
/// the adapter returned them.
#[derive(Debug)]
pub struct GuildListing {
    pub guild_id: u64,
    pub name: Vec<u8>,
    pub channels: Vec<ChannelListing>,
}

/// Mathematical image of a `GuildListing`.
pub struct GuildListingView {
    pub guild_id: u64,
    pub name: Seq<u8>,
    pub channels: Seq<ChannelListingView>,
}

/// Mathematical image of a sequence of channel listings.
pub open spec fn channels_view(s: Seq<ChannelListing>) -> Seq<ChannelListingView> {
    Seq::new(s.len(), |i: int| s[i]@)
}

impl View for GuildListing {
    type V = GuildListingView;

    open spec fn view(&self) -> GuildListingView {
        GuildListingView {
            guild_id: self.guild_id,
            name: self.name@,
            channels: channels_view(self.channels@),
        }
    }
}

/// Mathematical image of a sequence of guild listings.
pub open spec fn guilds_view(s: Seq<GuildListing>) -> Seq<GuildListingView> {
    Seq::new(s.len(), |i: int| s[i]@)
}

/// The filesystem names assigned to the guilds, in listing order: each is
/// the uniquified raw name against the names assigned before it.
pub open spec fn assigned_guild_names(gs: Seq<GuildListingView>) -> Seq<Seq<u8>>
    decreases gs.len(),
{
    if gs.len() == 0 {
        Seq::empty()
    } else {
        let prev = assigned_guild_names(gs.drop_last());
        prev.push(spec_unique_name(gs.last().name, prev))
    }
}

/// The filesystem names assigned to the text channels of one guild, in
/// listing order; non-text channels are skipped and get no name.
pub open spec fn assigned_channel_names(cs: Seq<ChannelListingView>) -> Seq<Seq<u8>>
    decreases cs.len(),
{
    if cs.len() == 0 {
        Seq::empty()
    } else {
        let prev = assigned_channel_names(cs.drop_last());
        if cs.last().is_text {
            prev.push(spec_unique_name(cs.last().name, prev))
        } else {
            prev
        }
    }
}

/// The channel-file records of one guild, in listing order: one per text
/// channel, bound to the guild by parent and kind tag.
pub open spec fn channel_records(gid: u64, cs: Seq<ChannelListingView>) -> Seq<RecordView>
    decreases cs.len(),
{
    if cs.len() == 0 {
        Seq::empty()
    } else {
        let prev = channel_records(gid, cs.drop_last());
        let c = cs.last();
        if c.is_text {
            prev.push(
                RecordView {
                    inode: c.channel_id,
                    name: spec_unique_name(c.name, assigned_channel_names(cs.drop_last())),
                    kind: NodeKind::Channel(gid, c.channel_id),
                    parent: gid,
                    attr: spec_channel_attr(c.channel_id),
                },
            )
        } else {
            prev
        }
    }
}

/// The guild-directory record of the last guild of `gs`.
pub open spec fn guild_record(gs: Seq<GuildListingView>) -> RecordView {
    RecordView {
        inode: gs.last().guild_id,
        name: spec_unique_name(gs.last().name, assigned_guild_names(gs.drop_last())),
        kind: NodeKind::Guild,
        parent: 1,
        attr: spec_guild_attr(gs.last().guild_id),
    }
}

/// The whole inode table the builder materialises: for each guild in
/// listing order, its directory record followed by its channel-file records.
pub open spec fn table_records(gs: Seq<GuildListingView>) -> Seq<RecordView>
    decreases gs.len(),
{
    if gs.len() == 0 {
        Seq::empty()
    } else {
        table_records(gs.drop_last()).push(guild_record(gs)) + channel_records(
            gs.last().guild_id,
            gs.last().channels,
        )
    }
}

/// The remote identifiers are a single collision-free 64-bit id space and
/// never collide with the reserved root inode 1: what makes reusing them as
/// inodes safe.
pub open spec fn ids_ok(gs: Seq<GuildListingView>) -> bool {
    &&& forall|i: int| 0 <= i < gs.len() ==> (#[trigger] gs[i]).guild_id != 1
    &&& forall|i: int, k: int|
        0 <= i < gs.len() && 0 <= k < gs[i].channels.len() ==> (#[trigger] gs[i].channels[k]).channel_id
            != 1
    &&& forall|i: int, j: int|
        0 <= i < j < gs.len() ==> (#[trigger] gs[i]).guild_id != (#[trigger] gs[j]).guild_id
    &&& forall|i: int, j: int, k: int|
        0 <= i < gs.len() && 0 <= j < gs.len() && 0 <= k < gs[j].channels.len() ==> (
        #[trigger] gs[i]).guild_id != (#[trigger] gs[j].channels[k]).channel_id
    &&& forall|i: int, k: int, j: int, l: int|
        0 <= i < gs.len() && 0 <= k < gs[i].channels.len() && 0 <= j < gs.len() && 0 <= l
            < gs[j].channels.len() && (i != j || k != l) ==> (#[trigger] gs[i].channels[k]).channel_id
            != (#[trigger] gs[j].channels[l]).channel_id
}

/// Every channel record's inode is the id of a text channel of the listing.
proof fn lemma_channel_record_inode(gid: u64, cs: Seq<ChannelListingView>, x: int)
    requires
        0 <= x < channel_records(gid, cs).len(),
    ensures
        exists|k: int|
            0 <= k < cs.len() && (#[trigger] cs[k]).is_text && cs[k].channel_id == channel_records(
                gid,
                cs,
            )[x].inode,
    decreases cs.len(),
{
    let prev = channel_records(gid, cs.drop_last());
    if cs.last().is_text && x == prev.len() {
        assert(cs[cs.len() - 1] == cs.last());
        assert(channel_records(gid, cs)[x] == channel_records(gid, cs).last());
    } else {
        lemma_channel_record_inode(gid, cs.drop_last(), x);
        let k = choose|k: int|
            0 <= k < cs.drop_last().len() && (#[trigger] cs.drop_last()[k]).is_text
                && cs.drop_last()[k].channel_id == channel_records(gid, cs.drop_last())[x].inode;
        assert(cs[k] == cs.drop_last()[k]);
        assert(channel_records(gid, cs)[x] == prev[x]);
    }
}

/// Every record's inode in the built table is a listed guild id or the id
/// of a listed text channel.
proof fn lemma_table_record_inode(gs: Seq<GuildListingView>, x: int)
    requires
        0 <= x < table_records(gs).len(),
    ensures
        (exists|i: int|
            0 <= i < gs.len() && (#[trigger] gs[i]).guild_id == table_records(gs)[x].inode)
            || (exists|i: int, k: int|
            0 <= i < gs.len() && 0 <= k < gs[i].channels.len() && (
            #[trigger] gs[i].channels[k]).is_text && gs[i].channels[k].channel_id == table_records(
                gs,
            )[x].inode),
    decreases gs.len(),
{
    let prev = table_records(gs.drop_last());
    let g = gs.last();
    assert(gs[gs.len() - 1] == g);
    if x < prev.len() {
        lemma_table_record_inode(gs.drop_last(), x);
        assert(table_records(gs)[x] == prev[x]);
        if exists|i: int|
            0 <= i < gs.drop_last().len() && (#[trigger] gs.drop_last()[i]).guild_id == prev[x].inode {
            let i = choose|i: int|
                0 <= i < gs.drop_last().len() && (#[trigger] gs.drop_last()[i]).guild_id
                    == prev[x].inode;
            assert(gs[i] == gs.drop_last()[i]);
            assert(gs[i].guild_id == table_records(gs)[x].inode);
        } else {
            let (i, k) = choose|i: int, k: int|
                0 <= i < gs.drop_last().len() && 0 <= k < gs.drop_last()[i].channels.len() && (
                #[trigger] gs.drop_last()[i].channels[k]).is_text
                    && gs.drop_last()[i].channels[k].channel_id == prev[x].inode;
            assert(gs[i] == gs.drop_last()[i]);
            assert(gs[i].channels[k].is_text && gs[i].channels[k].channel_id == table_records(
                gs,
            )[x].inode);
        }
    } else if x == prev.len() {
        assert(table_records(gs)[x] == guild_record(gs));
        assert(gs[gs.len() - 1].guild_id == table_records(gs)[x].inode);
    } else {
        let y = x - prev.len() - 1;
        assert(table_records(gs)[x] == channel_records(g.guild_id, g.channels)[y]);
        lemma_channel_record_inode(g.guild_id, g.channels, y);
        let k = choose|k: int|
            0 <= k < g.channels.len() && (#[trigger] g.channels[k]).is_text
                && g.channels[k].channel_id == channel_records(g.guild_id, g.channels)[y].inode;
        assert(gs[gs.len() - 1].channels[k].is_text && gs[gs.len() - 1].channels[k].channel_id
            == table_records(gs)[x].inode);
    }
}

/// One step of `assigned_guild_names` along a growing prefix.
proof fn lemma_assigned_guild_names_take_step(gs: Seq<GuildListingView>, i: int)
    requires
        0 <= i < gs.len(),
    ensures
        assigned_guild_names(gs.take(i + 1)) == assigned_guild_names(gs.take(i)).push(
            spec_unique_name(gs[i].name, assigned_guild_names(gs.take(i))),
        ),
{
    assert(gs.take(i + 1).drop_last() =~= gs.take(i));
    assert(gs.take(i + 1).last() == gs[i]);
}

/// One step of `assigned_channel_names` along a growing prefix.
proof fn lemma_assigned_channel_names_take_step(cs: Seq<ChannelListingView>, j: int)
    requires
        0 <= j < cs.len(),
    ensures
        assigned_channel_names(cs.take(j + 1)) == if cs[j].is_text {
            assigned_channel_names(cs.take(j)).push(
                spec_unique_name(cs[j].name, assigned_channel_names(cs.take(j))),
            )
        } else {
            assigned_channel_names(cs.take(j))
        },
{
    assert(cs.take(j + 1).drop_last() =~= cs.take(j));
    assert(cs.take(j + 1).last() == cs[j]);
}

/// One step of `channel_records` along a growing prefix.
proof fn lemma_channel_records_take_step(gid: u64, cs: Seq<ChannelListingView>, j: int)
    requires
        0 <= j < cs.len(),
    ensures
        channel_records(gid, cs.take(j + 1)) == if cs[j].is_text {
            channel_records(gid, cs.take(j)).push(
                RecordView {
                    inode: cs[j].channel_id,
                    name: spec_unique_name(cs[j].name, assigned_channel_names(cs.take(j))),
                    kind: NodeKind::Channel(gid, cs[j].channel_id),
                    parent: gid,
                    attr: spec_channel_attr(cs[j].channel_id),
                },
            )
        } else {
            channel_records(gid, cs.take(j))
        },
{
    assert(cs.take(j + 1).drop_last() =~= cs.take(j));
    assert(cs.take(j + 1).last() == cs[j]);
}

/// One step of `table_records` along a growing prefix.
proof fn lemma_table_records_take_step(gs: Seq<GuildListingView>, i: int)
    requires
        0 <= i < gs.len(),
    ensures
        table_records(gs.take(i + 1)) == table_records(gs.take(i)).push(
            RecordView {
                inode: gs[i].guild_id,
                name: spec_unique_name(gs[i].name, assigned_guild_names(gs.take(i))),
                kind: NodeKind::Guild,
                parent: 1,
                attr: spec_guild_attr(gs[i].guild_id),
            },
        ) + channel_records(gs[i].guild_id, gs[i].channels),
{
    assert(gs.take(i + 1).drop_last() =~= gs.take(i));
    assert(gs.take(i + 1).last() == gs[i]);
}

/// Runs once at mount time: materialises the inode table from what the chat
/// adapter listed. Each guild becomes a directory under the root, each of
/// its text channels a regular file inside it; raw names are uniquified
/// against the running list of sibling names, and remote ids become inodes.
pub fn build_file_tree(input: &Vec<GuildListing>) -> (t: InodeTable)
    requires
        ids_ok(guilds_view(input@)),
    ensures
        t.wf(),
        t@ == table_records(guilds_view(input@)),
        forall|x: int|
            0 <= x < t@.len() ==> ((#[trigger] t@[x]).parent == 1 <==> t@[x].kind is Guild),
        forall|x: int, y: int|
            0 <= x < y < t@.len() && (#[trigger] t@[x]).parent == (#[trigger] t@[y]).parent
                ==> t@[x].name != t@[y].name,
        forall|x: int|
            0 <= x < t@.len() ==> (#[trigger] t@[x]).attr.ino == t@[x].inode,
{
    let ghost gv = guilds_view(input@);
    let mut t = InodeTable::new();
    let mut guild_names: Vec<Vec<u8>> = Vec::new();
    let n = input.len();
    proof {
        assert(gv.take(0) =~= Seq::<GuildListingView>::empty());
        assert(t@ =~= table_records(gv.take(0)));
        assert(guild_names.deep_view() =~= assigned_guild_names(gv.take(0)));
    }
    let mut i: usize = 0;
    while i < n
        invariant
            n == input@.len(),
            gv == guilds_view(input@),
            gv.len() == n,
            ids_ok(gv),
            i <= n,
            t.wf(),
            t@ == table_records(gv.take(i as int)),
            guild_names.deep_view() == assigned_guild_names(gv.take(i as int)),
            guild_names@.len() == i,
        decreases n - i,
    {
        let g = &input[i];
        proof {
            assert(g@ == gv[i as int]);
        }
        let name = unique_name(&g.name, &guild_names);
        let ghost dv0 = guild_names.deep_view();
        let name_copy = clone_bytes(&name);
        guild_names.push(name_copy);
        proof {
            assert forall|x: int| 0 <= x < guild_names@.len() implies guild_names.deep_view()[x]
                == dv0.push(name@)[x] by {
                if x >= dv0.len() {
                    lemma_u8vec_deep_view(guild_names@[x]);
                }
            }
            assert(guild_names.deep_view() =~= dv0.push(name@));
            lemma_assigned_guild_names_take_step(gv, i as int);
        }
        let gid = g.guild_id;
        let rec = FileRecord {
            inode: gid,
            name,
            kind: NodeKind::Guild,
            parent: 1,
            attr: guild_attr(gid),
        };
        proof {
            assert forall|x: int| 0 <= x < t@.len() implies (#[trigger] t@[x]).inode != gid by {
                lemma_table_record_inode(gv.take(i as int), x);
                if exists|ii: int|
                    0 <= ii < gv.take(i as int).len() && (#[trigger] gv.take(i as int)[ii]).guild_id
                        == t@[x].inode {
                    let ii = choose|ii: int|
                        0 <= ii < gv.take(i as int).len() && (
                        #[trigger] gv.take(i as int)[ii]).guild_id == t@[x].inode;
                    assert(gv[ii].guild_id != gv[i as int].guild_id);
                } else {
                    let (ii, kk) = choose|ii: int, kk: int|
                        0 <= ii < gv.take(i as int).len() && 0 <= kk < gv.take(
                            i as int,
                        )[ii].channels.len() && (#[trigger] gv.take(
                            i as int,
                        )[ii].channels[kk]).is_text && gv.take(i as int)[ii].channels[kk].channel_id
                            == t@[x].inode;
                    assert(gv[i as int].guild_id != gv[ii].channels[kk].channel_id);
                }
            }
            if t.has_inode(gid) {
                let x = choose|x: int| 0 <= x < t@.len() && (#[trigger] t@[x]).inode == gid;
                assert(false);
            }
        }
        let ghost t_before = t@;
        t.push_record(rec);
        proof {
            assert(t@ =~= t_before.push(rec@));
        }
        let mut channel_names: Vec<Vec<u8>> = Vec::new();
        let ghost cv = gv[i as int].channels;
        let ghost grec = rec@;
        let m = g.channels.len();
        proof {
            assert(cv =~= channels_view(g.channels@));
            assert(cv.take(0) =~= Seq::<ChannelListingView>::empty());
            assert(channel_records(gid, cv.take(0)) =~= Seq::<RecordView>::empty());
            assert(t@ =~= table_records(gv.take(i as int)).push(grec) + channel_records(
                gid,
                cv.take(0),
            ));
            assert(channel_names.deep_view() =~= assigned_channel_names(cv.take(0)));
        }
        let mut j: usize = 0;
        while j < m
            invariant
                n == input@.len(),
                gv == guilds_view(input@),
                gv.len() == n,
                ids_ok(gv),
                i < n,
                g@ == gv[i as int],
                gid == gv[i as int].guild_id,
                cv == gv[i as int].channels,
                m == g.channels@.len(),
                cv.len() == m,
                j <= m,
                t.wf(),
                grec == (RecordView {
                    inode: gid,
                    name: spec_unique_name(
                        gv[i as int].name,
                        assigned_guild_names(gv.take(i as int)),
                    ),
                    kind: NodeKind::Guild,
                    parent: 1,
                    attr: spec_guild_attr(gid),
                }),
                t@ == table_records(gv.take(i as int)).push(grec) + channel_records(
                    gid,
                    cv.take(j as int),
                ),
                channel_names.deep_view() == assigned_channel_names(cv.take(j as int)),
                channel_names@.len() <= j,
            decreases m - j,
        {
            let c = &g.channels[j];
            proof {
                assert(c@ == cv[j as int]);
            }
            if c.is_text {
                let cname = unique_name(&c.name, &channel_names);
                let ghost cdv0 = channel_names.deep_view();
                let cname_copy = clone_bytes(&cname);
                channel_names.push(cname_copy);
                proof {
                    assert forall|x: int|
                        0 <= x < channel_names@.len() implies channel_names.deep_view()[x]
                        == cdv0.push(cname@)[x] by {
                        if x >= cdv0.len() {
                            lemma_u8vec_deep_view(channel_names@[x]);
                        }
                    }
                    assert(channel_names.deep_view() =~= cdv0.push(cname@));
                    lemma_assigned_channel_names_take_step(cv, j as int);
                }
                let cid = c.channel_id;
                let crec = FileRecord {
                    inode: cid,
                    name: cname,
                    kind: NodeKind::Channel(gid, cid),
                    parent: gid,
                    attr: channel_attr(cid),
                };
                proof {
                    let tp = table_records(gv.take(i as int));
                    assert(cid == gv[i as int].channels[j as int].channel_id);
                    assert forall|x: int| 0 <= x < t@.len() implies (#[trigger] t@[x]).inode
                        != cid by {
                        if x < tp.len() {
                            assert(t@[x] == tp[x]);
                            lemma_table_record_inode(gv.take(i as int), x);
                            if exists|ii: int|
                                0 <= ii < gv.take(i as int).len() && (#[trigger] gv.take(
                                    i as int,
                                )[ii]).guild_id == tp[x].inode {
                                let ii = choose|ii: int|
                                    0 <= ii < gv.take(i as int).len() && (#[trigger] gv.take(
                                        i as int,
                                    )[ii]).guild_id == tp[x].inode;
                                assert(gv[ii].guild_id != gv[i as int].channels[j as int].channel_id);
                            } else {
                                let (ii, kk) = choose|ii: int, kk: int|
                                    0 <= ii < gv.take(i as int).len() && 0 <= kk < gv.take(
                                        i as int,
                                    )[ii].channels.len() && (#[trigger] gv.take(
                                        i as int,
                                    )[ii].channels[kk]).is_text && gv.take(
                                        i as int,
                                    )[ii].channels[kk].channel_id == tp[x].inode;
                                assert(gv[ii].channels[kk].channel_id != gv[i as int].channels[
                                    j as int].channel_id);
                            }
                        } else if x == tp.len() {
                            assert(t@[x] == grec);
                            assert(gv[i as int].guild_id != gv[i as int].channels[
                                j as int].channel_id);
                        } else {
                            let y = x - tp.len() - 1;
                            assert(t@[x] == channel_records(gid, cv.take(j as int))[y]);
                            lemma_channel_record_inode(gid, cv.take(j as int), y);
                            let kk = choose|kk: int|
                                0 <= kk < cv.take(j as int).len() && (#[trigger] cv.take(
                                    j as int,
                                )[kk]).is_text && cv.take(j as int)[kk].channel_id
                                    == channel_records(gid, cv.take(j as int))[y].inode;
                            assert(gv[i as int].channels[kk].channel_id != gv[i as int].channels[
                                j as int].channel_id);
                        }
                    }
                    if t.has_inode(cid) {
                        let x = choose|x: int|
                            0 <= x < t@.len() && (#[trigger] t@[x]).inode == cid;
                        assert(false);
                    }
                }
                let ghost t_pre = t@;
                t.push_record(crec);
                proof {
                    lemma_channel_records_take_step(gid, cv, j as int);
                    assert(t@ =~= t_pre.push(crec@));
                    assert(t@ =~= table_records(gv.take(i as int)).push(grec) + channel_records(
                        gid,
                        cv.take(j as int + 1),
                    ));
                }
            } else {
                proof {
                    lemma_channel_records_take_step(gid, cv, j as int);
                    lemma_assigned_channel_names_take_step(cv, j as int);
                }
            }
            j = j + 1;
        }
        proof {
            assert(cv.take(m as int) =~= cv);
            lemma_table_records_take_step(gv, i as int);
            assert(t@ == table_records(gv.take(i as int + 1)));
        }
        i = i + 1;
    }
    proof {
        assert(gv.take(n as int) =~= gv);
        lemma_built_table_parent_root_iff_guild(gv);
        lemma_built_table_sibling_names_unique(gv);
        lemma_built_table_attrs_consistent(gv);
    }
    t
}

/// Appending a name that is not yet present keeps a name list
/// duplicate-free.
proof fn lemma_push_fresh_no_dup(s: Seq<Seq<u8>>, x: Seq<u8>)
    requires
        s.no_duplicates(),
        !s.contains(x),
    ensures
        s.push(x).no_duplicates(),
{
    assert forall|i: int, j: int|
        0 <= i < s.push(x).len() && 0 <= j < s.push(x).len() && i != j implies s.push(x)[i]
        != s.push(x)[j] by {
        if j == s.len() && i < s.len() {
            if s[i] == x {
                assert(s.contains(x));
            }
        }
        if i == s.len() && j < s.len() {
            if s[j] == x {
                assert(s.contains(x));
            }
        }
    }
}

/// The channel names assigned within one guild are pairwise distinct.
proof fn lemma_assigned_channel_names_no_dup(cs: Seq<ChannelListingView>)
    ensures
        assigned_channel_names(cs).no_duplicates(),
    decreases cs.len(),
{
    if cs.len() > 0 {
        lemma_assigned_channel_names_no_dup(cs.drop_last());
        if cs.last().is_text {
            let prev = assigned_channel_names(cs.drop_last());
            lemma_unique_name_fresh(cs.last().name, prev);
            lemma_push_fresh_no_dup(prev, spec_unique_name(cs.last().name, prev));
        }
    }
}

/// Every channel record of one guild carries that guild as parent, a
/// channel kind tag bound to its own inode, the channel attributes, and the
/// assigned channel name of its position.
proof fn lemma_channel_records_facts(gid: u64, cs: Seq<ChannelListingView>)
    ensures
        channel_records(gid, cs).len() == assigned_channel_names(cs).len(),
        forall|x: int|
            0 <= x < channel_records(gid, cs).len() ==> {
                &&& (#[trigger] channel_records(gid, cs)[x]).parent == gid
                &&& channel_records(gid, cs)[x].kind == NodeKind::Channel(
                    gid,
                    channel_records(gid, cs)[x].inode,
                )
                &&& channel_records(gid, cs)[x].attr == spec_channel_attr(
                    channel_records(gid, cs)[x].inode,
                )
                &&& channel_records(gid, cs)[x].name == assigned_channel_names(cs)[x]
            },
    decreases cs.len(),
{
    if cs.len() > 0 {
        lemma_channel_records_facts(gid, cs.drop_last());
        let prev = channel_records(gid, cs.drop_last());
        assert forall|x: int| 0 <= x < channel_records(gid, cs).len() implies {
            &&& (#[trigger] channel_records(gid, cs)[x]).parent == gid
            &&& channel_records(gid, cs)[x].kind == NodeKind::Channel(
                gid,
                channel_records(gid, cs)[x].inode,
            )
            &&& channel_records(gid, cs)[x].attr == spec_channel_attr(
                channel_records(gid, cs)[x].inode,
            )
            &&& channel_records(gid, cs)[x].name == assigned_channel_names(cs)[x]
        } by {
            if x < prev.len() {
                assert(channel_records(gid, cs)[x] == prev[x]);
                assert(assigned_channel_names(cs)[x] == assigned_channel_names(cs.drop_last())[x]);
            }
        }
    }
}

/// Restricting the listing keeps the id-space assumptions.
proof fn lemma_ids_ok_drop_last(gs: Seq<GuildListingView>)
    requires
        ids_ok(gs),
        gs.len() > 0,
    ensures
        ids_ok(gs.drop_last()),
{
    let gp = gs.drop_last();
    assert forall|i: int| 0 <= i < gp.len() implies (#[trigger] gp[i]).guild_id != 1 by {
        assert(gp[i] == gs[i]);
    }
    assert forall|i: int, k: int|
        0 <= i < gp.len() && 0 <= k < gp[i].channels.len() implies (
    #[trigger] gp[i].channels[k]).channel_id != 1 by {
        assert(gp[i] == gs[i]);
    }
    assert forall|i: int, j: int|
        0 <= i < j < gp.len() implies (#[trigger] gp[i]).guild_id != (
    #[trigger] gp[j]).guild_id by {
        assert(gp[i] == gs[i] && gp[j] == gs[j]);
    }
    assert forall|i: int, j: int, k: int|
        0 <= i < gp.len() && 0 <= j < gp.len() && 0 <= k < gp[j].channels.len() implies (
    #[trigger] gp[i]).guild_id != (#[trigger] gp[j].channels[k]).channel_id by {
        assert(gp[i] == gs[i] && gp[j] == gs[j]);
    }
    assert forall|i: int, k: int, j: int, l: int|
        0 <= i < gp.len() && 0 <= k < gp[i].channels.len() && 0 <= j < gp.len() && 0 <= l
            < gp[j].channels.len() && (i != j || k != l) implies (
    #[trigger] gp[i].channels[k]).channel_id != (#[trigger] gp[j].channels[l]).channel_id by {
        assert(gp[i] == gs[i] && gp[j] == gs[j]);
    }
}

/// A record hangs directly under the root exactly when it is a guild
/// directory.
pub proof fn lemma_built_table_parent_root_iff_guild(gs: Seq<GuildListingView>)
    requires
        ids_ok(gs),
    ensures
        forall|x: int|
            0 <= x < table_records(gs).len() ==> ((#[trigger] table_records(gs)[x]).parent == 1
                <==> table_records(gs)[x].kind is Guild),
    decreases gs.len(),
{
    if gs.len() == 0 {
        return ;
    }
    lemma_ids_ok_drop_last(gs);
    lemma_built_table_parent_root_iff_guild(gs.drop_last());
    let prev = table_records(gs.drop_last());
    let g = gs.last();
    let crecs = channel_records(g.guild_id, g.channels);
    let t = table_records(gs);
    lemma_channel_records_facts(g.guild_id, g.channels);
    assert(gs[gs.len() - 1] == g);
    assert(g.guild_id != 1);
    assert forall|x: int|
        0 <= x < t.len() implies ((#[trigger] t[x]).parent == 1 <==> t[x].kind is Guild) by {
        if x < prev.len() {
            assert(t[x] == prev[x]);
        } else if x > prev.len() {
            assert(t[x] == crecs[x - prev.len() - 1]);
            assert(t[x].parent == g.guild_id);
        }
    }
}

/// Every guild record's name stands in the assigned guild-name list.
proof fn lemma_built_table_guild_names(gs: Seq<GuildListingView>)
    ensures
        forall|x: int|
            0 <= x < table_records(gs).len() && table_records(gs)[x].kind is Guild
                ==> assigned_guild_names(gs).contains((#[trigger] table_records(gs)[x]).name),
    decreases gs.len(),
{
    if gs.len() == 0 {
        return ;
    }
    lemma_built_table_guild_names(gs.drop_last());
    let gp = gs.drop_last();
    let prev = table_records(gp);
    let g = gs.last();
    let grec = guild_record(gs);
    let crecs = channel_records(g.guild_id, g.channels);
    let t = table_records(gs);
    let gnames = assigned_guild_names(gp);
    lemma_channel_records_facts(g.guild_id, g.channels);
    assert(assigned_guild_names(gs) == gnames.push(grec.name));
    assert forall|x: int|
        0 <= x < t.len() && t[x].kind is Guild implies assigned_guild_names(gs).contains(
        (#[trigger] t[x]).name,
    ) by {
        if x < prev.len() {
            assert(t[x] == prev[x]);
            assert(gnames.contains(prev[x].name));
            lemma_push_preserves_contains(gnames, grec.name, prev[x].name);
        } else if x == prev.len() {
            assert(t[x] == grec);
            assert(assigned_guild_names(gs)[gnames.len() as int] == grec.name);
            assert(assigned_guild_names(gs).contains(grec.name));
        } else {
            assert(t[x] == crecs[x - prev.len() - 1]);
            assert(t[x].kind == NodeKind::Channel(g.guild_id, t[x].inode));
        }
    }
}

/// Every parent inode in the built table is the root or a listed guild id.
proof fn lemma_built_table_parents_listed(gs: Seq<GuildListingView>)
    ensures
        forall|x: int|
            0 <= x < table_records(gs).len() ==> ((#[trigger] table_records(gs)[x]).parent == 1
                || exists|i: int|
                0 <= i < gs.len() && (#[trigger] gs[i]).guild_id == table_records(gs)[x].parent),
    decreases gs.len(),
{
    if gs.len() == 0 {
        return ;
    }
    lemma_built_table_parents_listed(gs.drop_last());
    let gp = gs.drop_last();
    let prev = table_records(gp);
    let g = gs.last();
    let crecs = channel_records(g.guild_id, g.channels);
    let t = table_records(gs);
    lemma_channel_records_facts(g.guild_id, g.channels);
    assert forall|x: int|
        0 <= x < t.len() implies ((#[trigger] t[x]).parent == 1 || exists|i: int|
            0 <= i < gs.len() && (#[trigger] gs[i]).guild_id == t[x].parent) by {
        if x < prev.len() {
            assert(t[x] == prev[x]);
            if prev[x].parent != 1 {
                let i = choose|i: int|
                    0 <= i < gp.len() && (#[trigger] gp[i]).guild_id == prev[x].parent;
                assert(gs[i] == gp[i]);
                assert(gs[i].guild_id == t[x].parent);
            }
        } else if x > prev.len() {
            assert(t[x] == crecs[x - prev.len() - 1]);
            assert(t[x].parent == g.guild_id);
            assert(gs[gs.len() - 1].guild_id == t[x].parent);
        }
    }
}

/// Every non-root parent inode is carried by a guild-directory record of
/// the same table.
pub proof fn lemma_built_table_parents_valid(gs: Seq<GuildListingView>)
    ensures
        forall|x: int|
            0 <= x < table_records(gs).len() ==> ((#[trigger] table_records(gs)[x]).parent == 1
                || exists|y: int|
                0 <= y < table_records(gs).len() && (#[trigger] table_records(gs)[y]).kind is Guild
                    && table_records(gs)[y].inode == table_records(gs)[x].parent),
    decreases gs.len(),
{
    if gs.len() == 0 {
        return ;
    }
    lemma_built_table_parents_valid(gs.drop_last());
    let gp = gs.drop_last();
    let prev = table_records(gp);
    let g = gs.last();
    let crecs = channel_records(g.guild_id, g.channels);
    let t = table_records(gs);
    lemma_channel_records_facts(g.guild_id, g.channels);
    assert forall|x: int|
        0 <= x < t.len() implies ((#[trigger] t[x]).parent == 1 || exists|y: int|
            0 <= y < t.len() && (#[trigger] t[y]).kind is Guild && t[y].inode == t[x].parent) by {
        if x < prev.len() {
            assert(t[x] == prev[x]);
            if prev[x].parent != 1 {
                let y = choose|y: int|
                    0 <= y < prev.len() && (#[trigger] prev[y]).kind is Guild && prev[y].inode
                        == prev[x].parent;
                assert(t[y] == prev[y]);
                assert(t[y].kind is Guild && t[y].inode == t[x].parent);
            }
        } else if x > prev.len() {
            assert(t[x] == crecs[x - prev.len() - 1]);
            assert(t[x].parent == g.guild_id);
            assert(t[prev.len() as int] == guild_record(gs));
            assert(t[prev.len() as int].kind is Guild && t[prev.len() as int].inode
                == t[x].parent);
        }
    }
}

/// Two distinct records under the same parent never share a name.
#[verifier::rlimit(60)]
pub proof fn lemma_built_table_sibling_names_unique(gs: Seq<GuildListingView>)
    requires
        ids_ok(gs),
    ensures
        forall|x: int, y: int|
            0 <= x < y < table_records(gs).len() && (#[trigger] table_records(gs)[x]).parent == (
            #[trigger] table_records(gs)[y]).parent ==> table_records(gs)[x].name
                != table_records(gs)[y].name,
    decreases gs.len(),
{
    if gs.len() == 0 {
        return ;
    }
    lemma_ids_ok_drop_last(gs);
    lemma_built_table_sibling_names_unique(gs.drop_last());
    let gp = gs.drop_last();
    lemma_built_table_parent_root_iff_guild(gp);
    lemma_built_table_guild_names(gp);
    lemma_built_table_parents_listed(gp);
    let prev = table_records(gp);
    let g = gs.last();
    let grec = guild_record(gs);
    let crecs = channel_records(g.guild_id, g.channels);
    let t = table_records(gs);
    let gnames = assigned_guild_names(gp);
    lemma_channel_records_facts(g.guild_id, g.channels);
    lemma_assigned_channel_names_no_dup(g.channels);
    lemma_unique_name_fresh(g.name, gnames);
    assert(gs[gs.len() - 1] == g);
    assert(g.guild_id != 1);
    assert forall|x: int, y: int|
        0 <= x < y < t.len() && (#[trigger] t[x]).parent == (#[trigger] t[y]).parent implies t[x].name
        != t[y].name by {
        if y < prev.len() {
            assert(t[x] == prev[x] && t[y] == prev[y]);
        } else if y == prev.len() {
            assert(t[x] == prev[x]);
            assert(t[y] == grec);
            assert(prev[x].parent == 1);
            assert(prev[x].kind is Guild);
            assert(gnames.contains(prev[x].name));
            if prev[x].name == grec.name {
                assert(gnames.contains(grec.name));
                assert(false);
            }
        } else {
            let yc = y - prev.len() - 1;
            assert(t[y] == crecs[yc]);
            assert(t[y].parent == g.guild_id);
            if x < prev.len() {
                assert(t[x] == prev[x]);
                assert(prev[x].parent == g.guild_id);
                let i = choose|i: int|
                    0 <= i < gp.len() && (#[trigger] gp[i]).guild_id == prev[x].parent;
                assert(gs[i] == gp[i]);
                assert(gs[i].guild_id != gs[gs.len() - 1].guild_id);
                assert(false);
            } else if x == prev.len() {
                assert(t[x] == grec);
                assert(t[x].parent == 1);
                assert(false);
            } else {
                let xc = x - prev.len() - 1;
                assert(t[x] == crecs[xc]);
                assert(crecs[xc].name == assigned_channel_names(g.channels)[xc]);
                assert(crecs[yc].name == assigned_channel_names(g.channels)[yc]);
            }
        }
    }
}


/// Every record's stored attributes agree with its table key and kind tag:
/// the attribute inode is the key, guilds are directories, channels are
/// regular files.
pub proof fn lemma_built_table_attrs_consistent(gs: Seq<GuildListingView>)
    ensures
        forall|x: int|
            0 <= x < table_records(gs).len() ==> {
                &&& (#[trigger] table_records(gs)[x]).attr.ino == table_records(gs)[x].inode
                &&& (table_records(gs)[x].kind is Guild <==> table_records(gs)[x].attr.kind
                    is Directory)
                &&& (table_records(gs)[x].kind is Channel <==> table_records(gs)[x].attr.kind
                    is RegularFile)
            },
    decreases gs.len(),
{
    if gs.len() == 0 {
        return ;
    }
    lemma_built_table_attrs_consistent(gs.drop_last());
    let prev = table_records(gs.drop_last());
    let g = gs.last();
    let crecs = channel_records(g.guild_id, g.channels);
    let t = table_records(gs);
    lemma_channel_records_facts(g.guild_id, g.channels);
    assert forall|x: int| 0 <= x < t.len() implies {
        &&& (#[trigger] t[x]).attr.ino == t[x].inode
        &&& (t[x].kind is Guild <==> t[x].attr.kind is Directory)
        &&& (t[x].kind is Channel <==> t[x].attr.kind is RegularFile)
    } by {
        if x < prev.len() {
            assert(t[x] == prev[x]);
        } else if x == prev.len() {
            assert(t[x] == guild_record(gs));
        } else {
            assert(t[x] == crecs[x - prev.len() - 1]);
        }
    }
}

} // verus!
