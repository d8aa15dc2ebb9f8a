//! The store of the handles on the watched chat logs, one for each
//! channel of each listener, and the rules of the watch.

use crate::chat::{message_views, Channel, ChannelView, Message, MessageView};
use crate::config::{Config, ConfigView};
use crate::text::{chars_of, copy_strings, lists_word, matches_at, stands_at, texts};
use vstd::prelude::*;

verus! {

/// What tells one channel from another: its name and its listener.
pub type Identity = (Seq<char>, Seq<char>);

/// One of the handles is on the channel `id`.
pub open spec fn held(list: Seq<ChannelView>, id: Identity) -> bool {
    exists|i: int| 0 <= i < list.len() && (#[trigger] list[i]).identity() == id
}

/// The position of the handle on the channel `id`.
pub open spec fn slot(list: Seq<ChannelView>, id: Identity) -> int {
    choose|i: int| 0 <= i < list.len() && (#[trigger] list[i]).identity() == id
}

/// No two handles are on the same channel.
pub open spec fn distinct(list: Seq<ChannelView>) -> bool {
    forall|i: int, j: int| 0 <= i < j < list.len() ==> (#[trigger] list[i]).identity() != (#[trigger] list[j]).identity()
}

/// The handles by channel.
pub open spec fn store(list: Seq<ChannelView>) -> Map<Identity, ChannelView> {
    Map::new(|id: Identity| held(list, id), |id: Identity| list[slot(list, id)])
}

/// The models of a sequence of handles.
pub open spec fn channel_views(v: Seq<Channel>) -> Seq<ChannelView> {
    Seq::new(v.len(), |i: int| v[i]@)
}

/// Every handle of the store is on the channel it is kept for.
pub open spec fn keyed(handles: Map<Identity, ChannelView>) -> bool {
    forall|id: Identity| #[trigger] handles.contains_key(id) ==> handles[id].identity() == id
}

/// The handle to go on with when a log of a channel has changed: the one
/// in the store, unless the new one is of a later session.
pub open spec fn winner(handles: Map<Identity, ChannelView>, new: ChannelView) -> ChannelView {
    if handles.contains_key(new.identity()) && handles[new.identity()].header.started_at
        >= new.header.started_at {
        handles[new.identity()]
    } else {
        new
    }
}

/// The store after the candidates have been taken in, one after the
/// other: for each channel the handle of the latest session, the earlier
/// of two handles of the same session.
pub open spec fn restored(handles: Map<Identity, ChannelView>, candidates: Seq<ChannelView>) -> Map<
    Identity,
    ChannelView,
>
    decreases candidates.len(),
{
    if candidates.len() == 0 {
        handles
    } else {
        let earlier = restored(handles, candidates.drop_last());
        earlier.insert(candidates.last().identity(), winner(earlier, candidates.last()))
    }
}

/// The channel of the handle is watched: its listener is a watched player
/// and its name the name of a watched channel.
pub open spec fn watched(watch: ChannelsView, handle: ChannelView) -> bool {
    watch.players.contains(handle.header.listener) && watch.names.contains(handle.header.name)
}

/// Those of the handles that are on watched channels, in their order.
pub open spec fn relevant_of(watch: ChannelsView, list: Seq<ChannelView>) -> Seq<ChannelView>
    decreases list.len(),
{
    if list.len() == 0 {
        list
    } else if watched(watch, list.last()) {
        relevant_of(watch, list.drop_last()).push(list.last())
    } else {
        relevant_of(watch, list.drop_last())
    }
}

/// The handles on watched channels are handles of the list, and every
/// handle of the list on a watched channel is among them.
pub proof fn lemma_relevant_of(watch: ChannelsView, list: Seq<ChannelView>)
    ensures
        forall|c: ChannelView| #[trigger] relevant_of(watch, list).contains(c) <==> list.contains(c) && watched(watch, c),
    decreases list.len(),
{
    let kept = relevant_of(watch, list);
    if list.len() > 0 {
        let rest = list.drop_last();
        let before = relevant_of(watch, rest);
        lemma_relevant_of(watch, rest);
        assert forall|c: ChannelView| #[trigger] kept.contains(c) <==> list.contains(c) && watched(watch, c) by {
            if kept.contains(c) {
                let k = choose|k: int| 0 <= k < kept.len() && kept[k] == c;
                if k < before.len() {
                    assert(before[k] == c);
                    assert(before.contains(c));
                    let j = choose|j: int| 0 <= j < rest.len() && rest[j] == c;
                    assert(list[j] == c);
                } else {
                    assert(list[list.len() - 1] == c);
                }
            }
            if list.contains(c) && watched(watch, c) {
                let j = choose|j: int| 0 <= j < list.len() && list[j] == c;
                if j < rest.len() {
                    assert(rest[j] == c);
                    assert(rest.contains(c));
                    assert(before.contains(c));
                    let k = choose|k: int| 0 <= k < before.len() && before[k] == c;
                    assert(kept[k] == before[k]);
                } else {
                    assert(kept[kept.len() - 1] == c);
                }
            }
        }
    }
}

/// Every handle of the store after candidates have been taken in was in
/// the store before or is one of the candidates.
pub proof fn lemma_restored_members(handles: Map<Identity, ChannelView>, candidates: Seq<ChannelView>, id: Identity)
    requires
        restored(handles, candidates).contains_key(id),
    ensures
        (handles.contains_key(id) && restored(handles, candidates)[id] == handles[id]) || candidates.contains(
            restored(handles, candidates)[id],
        ),
    decreases candidates.len(),
{
    if candidates.len() > 0 {
        let rest = candidates.drop_last();
        let last = candidates.last();
        let earlier = restored(handles, rest);
        if id == last.identity() {
            if winner(earlier, last) == last {
                assert(candidates[candidates.len() - 1] == last);
            } else {
                lemma_restored_members(handles, rest, id);
                if rest.contains(earlier[id]) {
                    let k = choose|k: int| 0 <= k < rest.len() && rest[k] == earlier[id];
                    assert(candidates[k] == earlier[id]);
                }
            }
        } else {
            lemma_restored_members(handles, rest, id);
            if rest.contains(earlier[id]) {
                let k = choose|k: int| 0 <= k < rest.len() && rest[k] == earlier[id];
                assert(candidates[k] == earlier[id]);
            }
        }
    }
}

/// After candidates have been taken in, the store holds for the channel
/// of each of them a handle of a session that is not earlier than its
/// own.
pub proof fn lemma_restored_latest(handles: Map<Identity, ChannelView>, candidates: Seq<ChannelView>, j: int)
    requires
        0 <= j < candidates.len(),
    ensures
        restored(handles, candidates).contains_key(candidates[j].identity()),
        restored(handles, candidates)[candidates[j].identity()].header.started_at
            >= candidates[j].header.started_at,
    decreases candidates.len(),
{
    let rest = candidates.drop_last();
    if j < candidates.len() - 1 {
        assert(rest[j] == candidates[j]);
        lemma_restored_latest(handles, rest, j);
    }
}

/// A handle of a session that is not later than the one in the store
/// changes nothing when it is taken in.
pub proof fn lemma_stale_write(handles: Map<Identity, ChannelView>, new: ChannelView)
    requires
        handles.contains_key(new.identity()),
        handles[new.identity()].header.started_at >= new.header.started_at,
    ensures
        restored(handles, seq![new]) == handles,
{
    let one = seq![new];
    assert(one.drop_last() =~= Seq::<ChannelView>::empty());
    assert(one.last() == new);
    assert(restored(handles, one.drop_last()) == handles);
    assert(handles.insert(new.identity(), handles[new.identity()]) =~= handles);
}

/// A handle of a later session than the one in the store, or on a channel
/// that the store has no handle on, takes the place for its channel.
pub proof fn lemma_fresh_write(handles: Map<Identity, ChannelView>, new: ChannelView)
    requires
        !handles.contains_key(new.identity()) || handles[new.identity()].header.started_at
            < new.header.started_at,
    ensures
        restored(handles, seq![new]) == handles.insert(new.identity(), new),
{
    let one = seq![new];
    assert(one.drop_last() =~= Seq::<ChannelView>::empty());
    assert(one.last() == new);
    assert(restored(handles, one.drop_last()) == handles);
}

proof fn lemma_slot(list: Seq<ChannelView>, i: int)
    requires
        distinct(list),
        0 <= i < list.len(),
    ensures
        held(list, list[i].identity()),
        slot(list, list[i].identity()) == i,
{
    let id = list[i].identity();
    assert(list[i].identity() == id);
    let k = slot(list, id);
    assert(0 <= k < list.len() && list[k].identity() == id);
    if k < i {
        assert(list[k].identity() != list[i].identity());
    } else if i < k {
        assert(list[i].identity() != list[k].identity());
    }
}

proof fn lemma_store_keyed(list: Seq<ChannelView>)
    ensures
        keyed(store(list)),
{
    assert forall|id: Identity| #[trigger] store(list).contains_key(id) implies store(list)[id].identity() == id by {
        let k = slot(list, id);
        assert(0 <= k < list.len() && list[k].identity() == id);
    }
}

proof fn lemma_store_remove(list: Seq<ChannelView>, k: int)
    requires
        distinct(list),
        0 <= k < list.len(),
    ensures
        distinct(list.remove(k)),
        store(list.remove(k)) == store(list).remove(list[k].identity()),
{
    let rest = list.remove(k);
    let gone = list[k].identity();
    assert forall|i: int, j: int| 0 <= i < j < rest.len() implies (#[trigger] rest[i]).identity() != (
    #[trigger] rest[j]).identity() by {
        let a = if i < k { i } else { i + 1 };
        let b = if j < k { j } else { j + 1 };
        assert(rest[i] == list[a]);
        assert(rest[j] == list[b]);
        assert(list[a].identity() != list[b].identity());
    }
    assert forall|id: Identity| #[trigger] store(rest).contains_key(id) <==> store(list).remove(gone).contains_key(
        id,
    ) by {
        if held(rest, id) {
            let i = slot(rest, id);
            assert(0 <= i < rest.len() && rest[i].identity() == id);
            let a = if i < k { i } else { i + 1 };
            assert(rest[i] == list[a]);
            assert(list[a].identity() == id);
            if a < k {
                assert(list[a].identity() != list[k].identity());
            } else {
                assert(list[k].identity() != list[a].identity());
            }
        }
        if held(list, id) && id != gone {
            let a = slot(list, id);
            assert(0 <= a < list.len() && list[a].identity() == id);
            let i = if a < k { a } else { a - 1 };
            assert(rest[i] == list[a]);
            assert(rest[i].identity() == id);
        }
    }
    assert forall|id: Identity| #[trigger] store(rest).contains_key(id) implies store(rest)[id] == store(
        list,
    ).remove(gone)[id] by {
        let i = slot(rest, id);
        assert(0 <= i < rest.len() && rest[i].identity() == id);
        let a = if i < k { i } else { i + 1 };
        assert(rest[i] == list[a]);
        lemma_slot(list, a);
    }
    assert(store(rest) =~= store(list).remove(gone));
}

proof fn lemma_store_push(list: Seq<ChannelView>, c: ChannelView)
    requires
        distinct(list),
        !held(list, c.identity()),
    ensures
        distinct(list.push(c)),
        store(list.push(c)) == store(list).insert(c.identity(), c),
{
    let more = list.push(c);
    assert forall|i: int, j: int| 0 <= i < j < more.len() implies (#[trigger] more[i]).identity() != (
    #[trigger] more[j]).identity() by {
        assert(more[i] == list[i]);
        if j < list.len() {
            assert(more[j] == list[j]);
            assert(list[i].identity() != list[j].identity());
        } else {
            assert(list[i].identity() == list[i].identity());
        }
    }
    assert forall|id: Identity| #[trigger] store(more).contains_key(id) <==> store(list).insert(
        c.identity(),
        c,
    ).contains_key(id) by {
        if held(more, id) {
            let i = slot(more, id);
            assert(0 <= i < more.len() && more[i].identity() == id);
            if i < list.len() {
                assert(more[i] == list[i]);
                assert(list[i].identity() == id);
            }
        }
        if held(list, id) {
            let i = slot(list, id);
            assert(0 <= i < list.len() && list[i].identity() == id);
            assert(more[i] == list[i]);
            assert(more[i].identity() == id);
        }
        if id == c.identity() {
            assert(more[list.len() as int].identity() == id);
        }
    }
    assert forall|id: Identity| #[trigger] store(more).contains_key(id) implies store(more)[id] == store(
        list,
    ).insert(c.identity(), c)[id] by {
        let i = slot(more, id);
        assert(0 <= i < more.len() && more[i].identity() == id);
        if i < list.len() {
            assert(more[i] == list[i]);
            lemma_slot(list, i);
        }
    }
    assert(store(more) =~= store(list).insert(c.identity(), c));
}

/// The watch of the chat logs: the watched channels and players, and the
/// handle on the log of each channel of each listener.
pub struct Channels {
    players: Vec<String>,
    names: Vec<String>,
    handles: Vec<Channel>,
}

/// The mathematical model of a [`Channels`].
pub struct ChannelsView {
    /// The names of the watched players.
    pub players: Seq<Seq<char>>,
    /// The names of the watched channels.
    pub names: Seq<Seq<char>>,
    /// The handles by channel.
    pub handles: Map<Identity, ChannelView>,
}

impl View for Channels {
    type V = ChannelsView;

    closed spec fn view(&self) -> ChannelsView {
        ChannelsView {
            players: texts(self.players@),
            names: texts(self.names@),
            handles: store(channel_views(self.handles@)),
        }
    }
}

impl Channels {
    /// The store holds at most one handle on each channel.
    pub closed spec fn wf(&self) -> bool {
        distinct(channel_views(self.handles@))
    }

    /// The watch of the channel `Local` alone, for no player yet, with no
    /// handle.
    pub fn new() -> (r: Channels)
        ensures
            r.wf(),
            r@ == (ChannelsView { players: Seq::empty(), names: seq!["Local"@], handles: Map::empty() }),
            keyed(r@.handles),
    {
        let mut names: Vec<String> = Vec::new();
        names.push("Local".to_string());
        let r = Channels { players: Vec::new(), names, handles: Vec::new() };
        assert(r@.names =~= seq!["Local"@]);
        assert(r@.players =~= Seq::<Seq<char>>::empty());
        assert(r@.handles =~= Map::<Identity, ChannelView>::empty());
        r
    }

    /// The same watch, of one more channel.
    pub fn name(self, name: &str) -> (r: Channels)
        ensures
            self.wf() ==> r.wf(),
            r@ == (ChannelsView { names: self@.names.push(name@), ..self@ }),
    {
        let mut names = self.names;
        let ghost before = texts(names@);
        names.push(name.to_string());
        assert(texts(names@) =~= before.push(name@));
        Channels { players: self.players, names, handles: self.handles }
    }

    /// The same watch, for one more player.
    pub fn player(self, name: &str) -> (r: Channels)
        ensures
            self.wf() ==> r.wf(),
            r@ == (ChannelsView { players: self@.players.push(name@), ..self@ }),
    {
        let mut players = self.players;
        let ghost before = texts(players@);
        players.push(name.to_string());
        assert(texts(players@) =~= before.push(name@));
        Channels { players, names: self.names, handles: self.handles }
    }

    /// Whether the channel of the handle is watched: its listener is a
    /// watched player and its name the name of a watched channel.
    pub fn is_relevant_channel(&self, info: &Channel) -> (r: bool)
        ensures
            r == watched(self@, info@),
            keyed(self@.handles),
    {
        proof {
            lemma_store_keyed(channel_views(self.handles@));
        }
        lists_word(&self.players, &info.header.listener) && lists_word(&self.names, &info.header.name)
    }

    fn find(&self, name: &String, listener: &String) -> (r: Option<usize>)
        ensures
            match r {
                Some(k) => k < self.handles@.len() && self.handles@[k as int]@.identity() == (name@, listener@),
                None => !held(channel_views(self.handles@), (name@, listener@)),
            },
    {
        let mut i: usize = 0;
        while i < self.handles.len()
            invariant
                i <= self.handles@.len(),
                forall|k: int| 0 <= k < i ==> (#[trigger] channel_views(self.handles@)[k]).identity() != (name@, listener@),
            decreases self.handles@.len() - i,
        {
            if self.handles[i].header.name == *name && self.handles[i].header.listener == *listener {
                return Some(i);
            }
            i += 1;
        }
        None
    }

    /// Takes the handle on the channel `name` of `listener` out of the
    /// store.
    pub fn take(&mut self, name: &String, listener: &String) -> (r: Option<Channel>)
        requires
            old(self).wf(),
        ensures
            final(self).wf(),
            final(self)@ == (ChannelsView { handles: old(self)@.handles.remove((name@, listener@)), ..old(self)@ }),
            match r {
                Some(channel) => old(self)@.handles.contains_key((name@, listener@)) && channel@ == old(
                    self,
                )@.handles[(name@, listener@)],
                None => !old(self)@.handles.contains_key((name@, listener@)),
            },
            keyed(old(self)@.handles),
            keyed(final(self)@.handles),
    {
        proof {
            lemma_store_keyed(channel_views(self.handles@));
        }
        let ghost list = channel_views(self.handles@);
        match self.find(name, listener) {
            Some(k) => {
                proof {
                    lemma_store_remove(list, k as int);
                    lemma_slot(list, k as int);
                }
                let channel = self.handles.remove(k);
                proof {
                    assert(channel_views(self.handles@) =~= list.remove(k as int));
                    lemma_store_keyed(channel_views(self.handles@));
                }
                Some(channel)
            },
            None => {
                proof {
                    assert(store(list).remove((name@, listener@)) =~= store(list));
                }
                None
            },
        }
    }

    /// Puts the handle into the store, in place of the one on the same
    /// channel where there is one.
    pub fn replace(&mut self, channel: Channel)
        requires
            old(self).wf(),
        ensures
            final(self).wf(),
            final(self)@ == (ChannelsView {
                handles: old(self)@.handles.insert(channel@.identity(), channel@),
                ..old(self)@
            }),
            keyed(final(self)@.handles),
    {
        let ghost before = self@.handles;
        let ghost id = channel@.identity();
        let _ = self.take(&channel.header.name, &channel.header.listener);
        proof {
            let list = channel_views(self.handles@);
            assert(!store(list).contains_key(id));
            lemma_store_push(list, channel@);
            assert(before.remove(id).insert(id, channel@) =~= before.insert(id, channel@));
        }
        let ghost list = channel_views(self.handles@);
        self.handles.push(channel);
        proof {
            assert(channel_views(self.handles@) =~= list.push(channel@));
            lemma_store_keyed(channel_views(self.handles@));
        }
    }

    /// The handle on the channel `name` of `listener`, where the store
    /// holds one.
    pub fn get(&self, name: &String, listener: &String) -> (r: Option<&Channel>)
        requires
            self.wf(),
        ensures
            match r {
                Some(channel) => self@.handles.contains_key((name@, listener@)) && channel@ == self@.handles[(
                    name@,
                    listener@,
                )],
                None => !self@.handles.contains_key((name@, listener@)),
            },
    {
        match self.find(name, listener) {
            Some(k) => {
                proof {
                    lemma_slot(channel_views(self.handles@), k as int);
                }
                Some(&self.handles[k])
            },
            None => None,
        }
    }

    /// Copies of all handles of the store, each channel once.
    pub fn handles(&self) -> (r: Vec<Channel>)
        requires
            self.wf(),
        ensures
            distinct(channel_views(r@)),
            store(channel_views(r@)) == self@.handles,
    {
        let mut out: Vec<Channel> = Vec::new();
        let mut i: usize = 0;
        while i < self.handles.len()
            invariant
                i <= self.handles@.len(),
                out@.len() == i,
                forall|k: int| 0 <= k < i ==> out@[k]@ == self.handles@[k]@,
            decreases self.handles@.len() - i,
        {
            out.push(self.handles[i].clone());
            i += 1;
        }
        assert(channel_views(out@) =~= channel_views(self.handles@));
        out
    }

    /// The number of handles in the store.
    pub fn len(&self) -> (r: usize)
        requires
            self.wf(),
        ensures
            r == self@.handles.dom().len(),
            self@.handles.dom().finite(),
    {
        proof {
            lemma_store_size(channel_views(self.handles@));
        }
        self.handles.len()
    }
}

proof fn lemma_store_size(list: Seq<ChannelView>)
    requires
        distinct(list),
    ensures
        store(list).dom().finite(),
        store(list).dom().len() == list.len(),
    decreases list.len(),
{
    if list.len() == 0 {
        assert(store(list).dom() =~= Set::<Identity>::empty());
    } else {
        let rest = list.drop_last();
        let c = list.last();
        assert forall|i: int, j: int| 0 <= i < j < rest.len() implies (#[trigger] rest[i]).identity() != (
        #[trigger] rest[j]).identity() by {
            assert(rest[i] == list[i]);
            assert(rest[j] == list[j]);
            assert(list[i].identity() != list[j].identity());
        }
        lemma_store_size(rest);
        if held(rest, c.identity()) {
            let i = slot(rest, c.identity());
            assert(0 <= i < rest.len() && rest[i].identity() == c.identity());
            assert(rest[i] == list[i]);
            assert(list[i].identity() != list[list.len() - 1].identity());
        }
        lemma_store_push(rest, c);
        assert(rest.push(c) =~= list);
        assert(store(list).dom() =~= store(rest).dom().insert(c.identity()));
    }
}

/// The handle to go on with when the log of `new` has changed: the one on
/// the same channel in the store, unless `new` is of a later session. The
/// store gives up its handle on that channel; it is to get the handle back
/// once the log has been read.
pub fn figureout_channel(new: Channel, channels: &mut Channels) -> (r: Channel)
    requires
        old(channels).wf(),
    ensures
        final(channels).wf(),
        r@ == winner(old(channels)@.handles, new@),
        r@.identity() == new@.identity(),
        final(channels)@ == (ChannelsView {
            handles: old(channels)@.handles.remove(new@.identity()),
            ..old(channels)@
        }),
        keyed(final(channels)@.handles),
{
    match channels.take(&new.header.name, &new.header.listener) {
        Some(old) => {
            if old.header.started_at >= new.header.started_at {
                old
            } else {
                new
            }
        },
        None => new,
    }
}

/// Takes the candidates into the store, one after the other: for each
/// channel the store then holds the handle of the latest session.
pub fn restore_channels(channels: &mut Channels, candidates: Vec<Channel>)
    requires
        old(channels).wf(),
    ensures
        final(channels).wf(),
        final(channels)@ == (ChannelsView {
            handles: restored(old(channels)@.handles, channel_views(candidates@)),
            ..old(channels)@
        }),
        keyed(final(channels)@.handles),
{
    let ghost start = channels@;
    let ghost all = channel_views(candidates@);
    let mut i: usize = 0;
    let n = candidates.len();
    proof {
        assert(all.take(0) =~= Seq::<ChannelView>::empty());
    }
    while i < n
        invariant
            i <= n,
            n == candidates@.len(),
            all == channel_views(candidates@),
            channels.wf(),
            channels@ == (ChannelsView { handles: restored(start.handles, all.take(i as int)), ..start }),
        decreases n - i,
    {
        let ghost earlier = channels@.handles;
        assert(all.take(i + 1).drop_last() =~= all.take(i as int));
        assert(all.take(i + 1).last() == candidates@[i as int]@);
        let new = candidates[i].clone();
        let ghost id = new@.identity();
        let channel = figureout_channel(new, channels);
        channels.replace(channel);
        proof {
            assert(earlier.remove(id).insert(id, winner(earlier, all[i as int])) =~= earlier.insert(
                id,
                winner(earlier, all[i as int]),
            ));
        }
        i += 1;
    }
    proof {
        assert(all.take(n as int) =~= all);
        lemma_store_keyed(channel_views(channels.handles@));
    }
}


impl Channels {
    /// The handle to go on with when the log of `new` has changed, where
    /// its channel is watched: the one on the same channel in the store,
    /// unless `new` is of a later session. The store gives up its handle on
    /// that channel. A handle on a channel that is not watched is passed
    /// over.
    pub fn select(&mut self, new: Channel) -> (r: Option<Channel>)
        requires
            old(self).wf(),
        ensures
            final(self).wf(),
            keyed(final(self)@.handles),
            match r {
                Some(channel) => {
                    &&& watched(old(self)@, new@)
                    &&& channel@ == winner(old(self)@.handles, new@)
                    &&& channel@.identity() == new@.identity()
                    &&& final(self)@ == (ChannelsView {
                        handles: old(self)@.handles.remove(new@.identity()),
                        ..old(self)@
                    })
                },
                None => !watched(old(self)@, new@) && final(self)@ == old(self)@,
            },
    {
        if self.is_relevant_channel(&new) {
            Some(figureout_channel(new, self))
        } else {
            None
        }
    }

    /// Takes those of the handles read that are on watched channels into
    /// the store, one after the other: for each watched channel the store
    /// then holds the handle of the latest session.
    pub fn restore(&mut self, found: Vec<Channel>)
        requires
            old(self).wf(),
        ensures
            final(self).wf(),
            keyed(final(self)@.handles),
            final(self)@ == (ChannelsView {
                handles: restored(old(self)@.handles, relevant_of(old(self)@, channel_views(found@))),
                ..old(self)@
            }),
    {
        let ghost start = self@;
        let ghost all = channel_views(found@);
        let n = found.len();
        let mut i: usize = 0;
        proof {
            assert(all.take(0) =~= Seq::<ChannelView>::empty());
            lemma_store_keyed(channel_views(self.handles@));
        }
        while i < n
            invariant
                i <= n,
                n == found@.len(),
                all == channel_views(found@),
                self.wf(),
                keyed(self@.handles),
                self@ == (ChannelsView { handles: restored(start.handles, relevant_of(start, all.take(i as int))), ..start }),
            decreases n - i,
        {
            let ghost earlier = self@.handles;
            let ghost kept = relevant_of(start, all.take(i as int));
            assert(all.take(i + 1).drop_last() =~= all.take(i as int));
            assert(all.take(i + 1).last() == found@[i as int]@);
            if self.is_relevant_channel(&found[i]) {
                let new = found[i].clone();
                let ghost id = new@.identity();
                let channel = figureout_channel(new, self);
                self.replace(channel);
                proof {
                    assert(relevant_of(start, all.take(i + 1)) == kept.push(all[i as int]));
                    assert(kept.push(all[i as int]).drop_last() =~= kept);
                    assert(earlier.remove(id).insert(id, winner(earlier, all[i as int])) =~= earlier.insert(
                        id,
                        winner(earlier, all[i as int]),
                    ));
                }
            } else {
                assert(relevant_of(start, all.take(i + 1)) == kept);
            }
            i += 1;
        }
        proof {
            assert(all.take(n as int) =~= all);
        }
    }

    /// Of the handles read, those to watch: the handles on watched
    /// channels, for each channel the one of the latest session, and of two
    /// of the same session the one read first.
    pub fn all(&self, found: Vec<Channel>) -> (r: Vec<Channel>)
        ensures
            distinct(channel_views(r@)),
            store(channel_views(r@)) == restored(Map::empty(), relevant_of(self@, channel_views(found@))),
            forall|i: int|
                0 <= i < r@.len() ==> watched(self@, #[trigger] channel_views(r@)[i]) && channel_views(
                    found@,
                ).contains(channel_views(r@)[i]),
            forall|j: int|
                0 <= j < found@.len() && watched(self@, #[trigger] channel_views(found@)[j]) ==> exists|i: int|
                    0 <= i < r@.len() && (#[trigger] channel_views(r@)[i]).identity() == channel_views(
                        found@,
                    )[j].identity() && channel_views(r@)[i].header.started_at >= channel_views(
                        found@,
                    )[j].header.started_at,
    {
        let mut watch = Channels {
            players: copy_strings(&self.players),
            names: copy_strings(&self.names),
            handles: Vec::new(),
        };
        proof {
            assert(watch@.handles =~= Map::<Identity, ChannelView>::empty());
        }
        let ghost nothing = watch@.handles;
        let ghost fresh = watch@;
        watch.restore(found);
        let ghost after = watch@;
        let out = watch.handles;
        proof {
            let list = channel_views(out@);
            let read = channel_views(found@);
            let kept = relevant_of(self@, read);
            let latest = restored(nothing, kept);
            assert(relevant_of(fresh, read) == kept) by {
                lemma_relevant_same(self@, fresh, read);
            }
            assert(after.handles == latest);
            assert(store(list) == latest);
            lemma_relevant_of(self@, read);
            assert forall|i: int| 0 <= i < list.len() implies watched(self@, #[trigger] list[i]) && read.contains(
                list[i],
            ) by {
                lemma_slot(list, i);
                lemma_restored_members(nothing, kept, list[i].identity());
                assert(kept.contains(list[i]));
            }
            assert forall|j: int| 0 <= j < read.len() && watched(self@, #[trigger] read[j]) implies exists|i: int|
                0 <= i < list.len() && (#[trigger] list[i]).identity() == read[j].identity()
                    && list[i].header.started_at >= read[j].header.started_at by {
                assert(read.contains(read[j]));
                assert(kept.contains(read[j]));
                let k = choose|k: int| 0 <= k < kept.len() && kept[k] == read[j];
                lemma_restored_latest(nothing, kept, k);
                let id = read[j].identity();
                assert(held(list, id));
                let i = slot(list, id);
                assert(0 <= i < list.len() && list[i].identity() == id);
            }
        }
        out
    }
}

proof fn lemma_relevant_same(a: ChannelsView, b: ChannelsView, list: Seq<ChannelView>)
    requires
        a.players == b.players,
        a.names == b.names,
    ensures
        relevant_of(a, list) == relevant_of(b, list),
    decreases list.len(),
{
    if list.len() > 0 {
        lemma_relevant_same(a, b, list.drop_last());
    }
}

/// `text` begins with `prefix`.
pub open spec fn begins_with(text: Seq<char>, prefix: Seq<char>) -> bool {
    stands_at(text, prefix, 0)
}

/// Whether a log may be one of a watched channel: the name of its file,
/// without the extension, begins with the name of one.
pub fn relevant_channel_path(stem: &str, channels: &Vec<String>) -> (r: bool)
    ensures
        r == exists|i: int| 0 <= i < channels@.len() && begins_with(stem@, #[trigger] texts(channels@)[i]),
{
    let text = chars_of(stem);
    let mut i: usize = 0;
    while i < channels.len()
        invariant
            i <= channels@.len(),
            text@ == stem@,
            forall|k: int| 0 <= k < i ==> !begins_with(stem@, #[trigger] texts(channels@)[k]),
        decreases channels@.len() - i,
    {
        let name = chars_of(channels[i].as_str());
        assert(name@ == texts(channels@)[i as int]);
        if name.len() <= text.len() && matches_at(&text, &name, 0) {
            return true;
        }
        i += 1;
    }
    false
}

/// A line is passed on where it is a message of the game itself in the
/// channel `Local` in the log of a watched player, or a message of anybody
/// else in another channel.
pub open spec fn relevant(message: MessageView, conf: ConfigView) -> bool {
    (conf.players.contains(message.listener) && message.channel == "Local"@ && message.sender == "EVE System"@)
        || (message.channel != "Local"@ && message.sender != "EVE System"@)
}

/// Whether a line is passed on.
pub fn is_relevant_message(message: &Message, conf: &Config) -> (r: bool)
    ensures
        r == relevant(message@, conf@),
{
    let local = "Local".to_string();
    let game = "EVE System".to_string();
    let in_local = message.channel == local;
    let by_game = message.sender == game;
    (lists_word(&conf.players, &message.listener) && in_local && by_game) || (!in_local && !by_game)
}

/// The messages stand in the order of their times.
pub open spec fn in_order(messages: Seq<MessageView>) -> bool {
    forall|i: int, j: int| 0 <= i <= j < messages.len() ==> messages[i].received_at <= messages[j].received_at
}

/// Where a message of the time `at` goes among messages in the order of
/// their times, looked for from position `k` downwards: behind the last
/// one that is not later.
pub open spec fn slot_by_time(sorted: Seq<MessageView>, at: i64, k: int) -> int
    decreases k,
{
    if 0 < k <= sorted.len() && sorted[k - 1].received_at > at {
        slot_by_time(sorted, at, k - 1)
    } else {
        k
    }
}

/// The messages in the order of their times, those of the same time in
/// the order in which they stood.
pub open spec fn sorted_by_time(messages: Seq<MessageView>) -> Seq<MessageView>
    decreases messages.len(),
{
    if messages.len() == 0 {
        messages
    } else {
        let earlier = sorted_by_time(messages.drop_last());
        earlier.insert(
            slot_by_time(earlier, messages.last().received_at, earlier.len() as int),
            messages.last(),
        )
    }
}

/// The messages in the order of their times. Messages of the same time
/// keep their order.
pub fn sort_by_time(messages: &Vec<Message>) -> (r: Vec<Message>)
    ensures
        message_views(r@) == sorted_by_time(message_views(messages@)),
        in_order(message_views(r@)),
        message_views(r@).to_multiset() == message_views(messages@).to_multiset(),
{
    let ghost all = message_views(messages@);
    let mut out: Vec<Message> = Vec::new();
    let mut i: usize = 0;
    proof {
        assert(all.take(0) =~= Seq::<MessageView>::empty());
        assert(message_views(out@) =~= Seq::<MessageView>::empty());
    }
    while i < messages.len()
        invariant
            i <= messages@.len(),
            all == message_views(messages@),
            out@.len() == i,
            message_views(out@) == sorted_by_time(all.take(i as int)),
            in_order(message_views(out@)),
            message_views(out@).to_multiset() == all.take(i as int).to_multiset(),
        decreases messages@.len() - i,
    {
        let ghost before = message_views(out@);
        let next = messages[i].clone();
        let mut k: usize = out.len();
        while k > 0 && out[k - 1].received_at > next.received_at
            invariant
                k <= out@.len(),
                before == message_views(out@),
                slot_by_time(before, next.received_at, before.len() as int) == slot_by_time(
                    before,
                    next.received_at,
                    k as int,
                ),
                forall|j: int| k <= j < out@.len() ==> before[j].received_at > next.received_at,
            decreases k,
        {
            k -= 1;
        }
        out.insert(k, next);
        proof {
            let after = message_views(out@);
            assert(after =~= before.insert(k as int, next@));
            assert(all.take(i + 1).drop_last() =~= all.take(i as int));
            assert(all.take(i + 1).last() == next@);
            assert forall|a: int, b: int| 0 <= a <= b < after.len() implies after[a].received_at
                <= after[b].received_at by {
                let x = if a < k { a } else { a - 1 };
                let y = if b < k { b } else { b - 1 };
                if a != k && b != k {
                    assert(after[a] == before[x]);
                    assert(after[b] == before[y]);
                } else if a == k && b != k {
                    assert(after[b] == before[y]);
                } else if a != k && b == k {
                    assert(after[a] == before[x]);
                    if k > 0 {
                        assert(before[x].received_at <= before[k - 1].received_at);
                    }
                }
            }
            broadcast use vstd::seq_lib::group_to_multiset_ensures;
            assert(after.remove(k as int) =~= before);
            assert(all.take(i + 1) =~= all.take(i as int).push(next@));
            assert(after.to_multiset() =~= before.to_multiset().insert(next@));
        }
        i += 1;
    }
    proof {
        assert(all.take(messages@.len() as int) =~= all);
    }
    out
}

} // verus!
