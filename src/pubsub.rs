use vstd::prelude::*;
use vstd::utf8::*;

use crate::cmd::{frame_command, strings_view, Command, CommandV, Unknown};
use crate::frame::{text_bytes, Frame, FrameV};
use crate::parse::{text_eq, ParseError};

verus! {

broadcast use vstd::std_specs::vec::group_vec_axioms, vstd::seq::group_seq_axioms;

/// `[kind, channel, count]`, the reply to a subscription change.
pub open spec fn change_frame(kind: Seq<char>, channel: Seq<char>, count: nat) -> FrameV {
    FrameV::Array(
        seq![
            FrameV::Bulk(encode_utf8(kind)),
            FrameV::Bulk(encode_utf8(channel)),
            FrameV::Integer(count as u64),
        ],
    )
}

/// `v` with every `c` taken out.
pub open spec fn without(v: Seq<Seq<char>>, c: Seq<char>) -> Seq<Seq<char>>
    decreases v.len(),
{
    if v.len() == 0 {
        v
    } else if v.last() == c {
        without(v.drop_last(), c)
    } else {
        without(v.drop_last(), c).push(v.last())
    }
}

/// `v` with each of `ts` taken out, in turn.
pub open spec fn remove_each(v: Seq<Seq<char>>, ts: Seq<Seq<char>>) -> Seq<Seq<char>>
    decreases ts.len(),
{
    if ts.len() == 0 {
        v
    } else {
        without(remove_each(v, ts.drop_last()), ts.last())
    }
}

fn change_reply(kind: &str, channel: &str, count: usize) -> (r: Frame)
    ensures
        r@ == change_frame(kind@, channel@, count as nat),
{
    let mut f = Frame::array();
    f.push_bulk(text_bytes(kind));
    f.push_bulk(text_bytes(channel));
    f.push_int(count as u64);
    assert(f@->Array_0 =~= seq![
        FrameV::Bulk(encode_utf8(kind@)),
        FrameV::Bulk(encode_utf8(channel@)),
        FrameV::Integer(count as u64),
    ]);
    f
}

/// The reply `[subscribe, channel, count]`.
pub fn make_subscribe_frame(channel: &str, num_subs: usize) -> (r: Frame)
    ensures
        r@ == change_frame("subscribe"@, channel@, num_subs as nat),
{
    change_reply("subscribe", channel, num_subs)
}

/// The reply `[unsubscribe, channel, count]`.
pub fn make_unsubscribe_frame(channel: &str, num_subs: usize) -> (r: Frame)
    ensures
        r@ == change_frame("unsubscribe"@, channel@, num_subs as nat),
{
    change_reply("unsubscribe", channel, num_subs)
}

/// The frame `[message, channel, payload]` that delivers a published message.
pub fn make_message_frame(channel: &str, msg: Vec<u8>) -> (r: Frame)
    ensures
        r@ == FrameV::Array(
            seq![
                FrameV::Bulk(encode_utf8("message"@)),
                FrameV::Bulk(encode_utf8(channel@)),
                FrameV::Bulk(msg@),
            ],
        ),
{
    let ghost m = msg@;
    let mut f = Frame::array();
    f.push_bulk(text_bytes("message"));
    f.push_bulk(text_bytes(channel));
    f.push_bulk(msg);
    assert(f@->Array_0 =~= seq![
        FrameV::Bulk(encode_utf8("message"@)),
        FrameV::Bulk(encode_utf8(channel@)),
        FrameV::Bulk(m),
    ]);
    f
}

/// The channels an `UNSUBSCRIBE` naming `named` leaves: those, or all when
/// none is named.
pub open spec fn targets(v: Seq<Seq<char>>, named: Seq<Seq<char>>) -> Seq<Seq<char>> {
    if named.len() == 0 {
        v
    } else {
        named
    }
}

/// Leaving `named` turns the channels `v` into `after` with the replies `r`:
/// one `[unsubscribe, channel, count]` per channel left, in order, each with
/// the count that remains once that channel is taken out.
pub open spec fn unsubscribed(
    v: Seq<Seq<char>>,
    named: Seq<Seq<char>>,
    after: Seq<Seq<char>>,
    r: Seq<Frame>,
) -> bool {
    let t = targets(v, named);
    &&& after == remove_each(v, t)
    &&& r.len() == t.len()
    &&& forall|i: int|
        0 <= i < t.len() ==> (#[trigger] r[i])@ == change_frame(
            "unsubscribe"@,
            t[i],
            remove_each(v, t.subrange(0, i + 1)).len(),
        )
}

/// The name a command goes by.
pub open spec fn name_of(c: CommandV) -> Seq<char> {
    match c {
        CommandV::Get { .. } => "get"@,
        CommandV::Publish { .. } => "publish"@,
        CommandV::SetCmd { .. } => "set"@,
        CommandV::Subscribe { .. } => "subscribe"@,
        CommandV::Unsubscribe { .. } => "unsubscribe"@,
        CommandV::Ping { .. } => "ping"@,
        CommandV::Unknown { name } => name,
    }
}

/// The channels a connection listens on, each once, in the order joined.
pub struct Subscriptions {
    channels: Vec<String>,
}

impl View for Subscriptions {
    type V = Seq<Seq<char>>;

    closed spec fn view(&self) -> Seq<Seq<char>> {
        strings_view(self.channels@)
    }
}

impl Subscriptions {
    pub open spec fn wf(&self) -> bool {
        self@.no_duplicates()
    }

    pub fn new() -> (r: Subscriptions)
        ensures
            r.wf(),
            r@ == Seq::<Seq<char>>::empty(),
    {
        let r = Subscriptions { channels: Vec::new() };
        assert(r@ =~= Seq::<Seq<char>>::empty());
        r
    }

    pub fn len(&self) -> (r: usize)
        ensures
            r == self@.len(),
    {
        self.channels.len()
    }

    /// The channels, in the order joined.
    pub fn channels(&self) -> (r: &Vec<String>)
        ensures
            strings_view(r@) == self@,
    {
        &self.channels
    }

    fn position(&self, channel: &str) -> (r: Option<usize>)
        ensures
            match r {
                Some(i) => i < self@.len() && self@[i as int] == channel@,
                None => !self@.contains(channel@),
            },
    {
        let mut i: usize = 0;
        while i < self.channels.len()
            invariant
                i <= self.channels.len(),
                forall|j: int| 0 <= j < i ==> self@[j] != channel@,
            decreases self.channels.len() - i,
        {
            if text_eq(self.channels[i].as_str(), channel) {
                return Some(i);
            }
            i += 1;
        }
        None
    }

    /// Joins a channel (once) and gives the reply `[subscribe, channel, count]`.
    pub fn subscribe_to_channel(&mut self, channel: String) -> (r: Frame)
        requires
            old(self).wf(),
        ensures
            final(self).wf(),
            final(self)@ == if old(self)@.contains(channel@) {
                old(self)@
            } else {
                old(self)@.push(channel@)
            },
            r@ == change_frame("subscribe"@, channel@, final(self)@.len()),
    {
        let reply;
        match self.position(channel.as_str()) {
            Some(_) => {
                reply = make_subscribe_frame(channel.as_str(), self.channels.len());
            },
            None => {
                let ghost before = self@;
                let ghost cv = channel@;
                self.channels.push(channel);
                let n = self.channels.len();
                reply = make_subscribe_frame(self.channels[n - 1].as_str(), n);
                assert(self@ =~= before.push(cv));
            },
        }
        reply
    }

    /// The channels of `listening` that are no longer subscribed to.
    pub fn stale_channels(&self, listening: &Vec<String>) -> (r: Vec<String>)
        ensures
            forall|i: int|
                0 <= i < r@.len() ==> strings_view(listening@).contains(#[trigger] r@[i]@)
                    && !self@.contains(r@[i]@),
            forall|i: int|
                0 <= i < listening@.len() && !self@.contains(#[trigger] listening@[i]@)
                    ==> strings_view(r@).contains(listening@[i]@),
    {
        let mut out: Vec<String> = Vec::new();
        let mut i: usize = 0;
        while i < listening.len()
            invariant
                i <= listening.len(),
                forall|j: int|
                    0 <= j < out@.len() ==> strings_view(listening@).contains(#[trigger] out@[j]@)
                        && !self@.contains(out@[j]@),
                forall|j: int|
                    0 <= j < i && !self@.contains(#[trigger] listening@[j]@) ==> strings_view(
                        out@,
                    ).contains(listening@[j]@),
            decreases listening.len() - i,
        {
            let ghost lv = strings_view(listening@);
            assert(lv[i as int] == listening@[i as int]@);
            if self.position(listening[i].as_str()).is_none() {
                let c = listening[i].clone();
                let ghost before = out@;
                out.push(c);
                proof {
                    assert(strings_view(out@) =~= strings_view(before).push(c@));
                    assert forall|j: int| 0 <= j < out@.len() implies lv.contains(#[trigger] out@[j]@)
                        && !self@.contains(out@[j]@) by {
                        if j < before.len() {
                            assert(out@[j] == before[j]);
                        }
                    }
                    assert forall|j: int|
                        0 <= j <= i && !self@.contains(#[trigger] listening@[j]@) implies strings_view(
                            out@,
                        ).contains(listening@[j]@) by {
                        if j < i {
                            let m = choose|m: int| 0 <= m < before.len() && strings_view(before)[m] == listening@[j]@;
                            assert(strings_view(out@)[m] == strings_view(before)[m]);
                        } else {
                            assert(strings_view(out@)[before.len() as int] == c@);
                        }
                    }
                }
            }
            i += 1;
        }
        out
    }

    fn remove(&mut self, channel: &str)
        requires
            old(self).wf(),
        ensures
            final(self).wf(),
            final(self)@ == without(old(self)@, channel@),
    {
        let ghost v0 = self@;
        let mut kept: Vec<String> = Vec::new();
        let mut i: usize = 0;
        while i < self.channels.len()
            invariant
                i <= self.channels.len(),
                v0 == self@,
                v0.no_duplicates(),
                strings_view(kept@) == without(v0.subrange(0, i as int), channel@),
                forall|j: int| 0 <= j < kept.len() ==> v0.subrange(0, i as int).contains(#[trigger] strings_view(kept@)[j]),
                strings_view(kept@).no_duplicates(),
            decreases self.channels.len() - i,
        {
            let ghost pre = v0.subrange(0, i as int);
            let ghost kv = strings_view(kept@);
            assert(v0.subrange(0, i + 1) =~= pre.push(v0[i as int]));
            assert(pre.push(v0[i as int]).drop_last() =~= pre);
            if !text_eq(self.channels[i].as_str(), channel) {
                let c = self.channels[i].clone();
                kept.push(c);
                proof {
                    assert(strings_view(kept@) =~= kv.push(v0[i as int]));
                    assert forall|j: int| 0 <= j < kv.len() implies kv[j] != v0[i as int] by {
                        let m = choose|m: int| 0 <= m < pre.len() && pre[m] == kv[j];
                        assert(pre[m] == v0[m]);
                    }
                    assert forall|j: int| 0 <= j < kept.len() implies v0.subrange(0, i + 1).contains(
                        #[trigger] strings_view(kept@)[j],
                    ) by {
                        if j < kv.len() {
                            let m = choose|m: int| 0 <= m < pre.len() && pre[m] == kv[j];
                            assert(v0.subrange(0, i + 1)[m] == kv[j]);
                        } else {
                            assert(v0.subrange(0, i + 1)[i as int] == v0[i as int]);
                        }
                    }
                }
            } else {
                proof {
                    assert forall|j: int| 0 <= j < kept.len() implies v0.subrange(0, i + 1).contains(
                        #[trigger] strings_view(kept@)[j],
                    ) by {
                        let m = choose|m: int| 0 <= m < pre.len() && pre[m] == kv[j];
                        assert(v0.subrange(0, i + 1)[m] == kv[j]);
                    }
                }
            }
            i += 1;
        }
        assert(v0.subrange(0, v0.len() as int) =~= v0);
        self.channels = kept;
    }

    /// Leaves the named channels, or every channel when none is named, and
    /// gives one reply `[unsubscribe, channel, count]` per channel named, in
    /// order, each with the count left after that channel is taken out.
    pub fn unsubscribe(&mut self, channels: Vec<String>) -> (r: Vec<Frame>)
        requires
            old(self).wf(),
        ensures
            final(self).wf(),
            unsubscribed(old(self)@, strings_view(channels@), final(self)@, r@),
    {
        let targets = if channels.len() == 0 {
            crate::cmd::clone_strings(self.channels.as_slice())
        } else {
            channels
        };
        let ghost tv = strings_view(targets@);
        let ghost v0 = self@;
        let mut out: Vec<Frame> = Vec::new();
        let mut i: usize = 0;
        assert(tv.subrange(0, 0) =~= Seq::<Seq<char>>::empty());
        while i < targets.len()
            invariant
                i <= targets.len(),
                tv == strings_view(targets@),
                self.wf(),
                self@ == remove_each(v0, tv.subrange(0, i as int)),
                out@.len() == i,
                forall|j: int|
                    0 <= j < i ==> (#[trigger] out@[j])@ == change_frame(
                        "unsubscribe"@,
                        tv[j],
                        remove_each(v0, tv.subrange(0, j + 1)).len(),
                    ),
            decreases targets.len() - i,
        {
            self.remove(targets[i].as_str());
            proof {
                assert(tv.subrange(0, i + 1).drop_last() =~= tv.subrange(0, i as int));
            }
            let reply = make_unsubscribe_frame(targets[i].as_str(), self.channels.len());
            out.push(reply);
            i += 1;
        }
        assert(tv.subrange(0, tv.len() as int) =~= tv);
        out
    }
}

/// What a frame received in pub/sub state leads to: channels still to join,
/// and the replies to send now.
pub fn handle_command(
    frame: Frame,
    subscribe_to: &mut Vec<String>,
    subscriptions: &mut Subscriptions,
) -> (r: Result<Vec<Frame>, ParseError>)
    requires
        old(subscriptions).wf(),
    ensures
        final(subscriptions).wf(),
        match frame_command(frame@) {
            Err(e) => r == Err::<Vec<Frame>, ParseError>(e) && final(subscriptions)@ == old(
                subscriptions,
            )@ && final(subscribe_to)@ == old(subscribe_to)@,
            Ok(CommandV::Subscribe { channels }) => r matches Ok(replies) && replies@.len() == 0
                && final(subscriptions)@ == old(subscriptions)@ && strings_view(final(subscribe_to)@)
                == strings_view(old(subscribe_to)@) + channels,
            Ok(CommandV::Unsubscribe { channels }) => r matches Ok(replies) && unsubscribed(
                old(subscriptions)@,
                channels,
                final(subscriptions)@,
                replies@,
            ) && final(subscribe_to)@ == old(subscribe_to)@,
            Ok(other) => r matches Ok(replies) && replies@.len() == 1 && replies@[0]@ == FrameV::Error(
                "ERR unknown command '"@ + name_of(other) + "'"@,
            ) && final(subscriptions)@ == old(subscriptions)@ && final(subscribe_to)@ == old(
                subscribe_to,
            )@,
        },
{
    let ghost fc = frame_command(frame@);
    match Command::from_frame(frame) {
        Err(e) => {
            assert(fc == Err::<CommandV, ParseError>(e));
            Err(e)
        },
        Ok(Command::Subscribe(sub)) => {
            let mut channels = sub.into_channels();
            let ghost before = subscribe_to@;
            let ghost added = channels@;
            subscribe_to.append(&mut channels);
            assert(strings_view(subscribe_to@) =~= strings_view(before) + strings_view(added));
            Ok(Vec::new())
        },
        Ok(Command::Unsubscribe(unsub)) => {
            let channels = crate::cmd::clone_strings(unsub.channels().as_slice());
            let replies = subscriptions.unsubscribe(channels);
            assert(fc matches Ok(CommandV::Unsubscribe { channels: named }) && unsubscribed(old(subscriptions)@, named, subscriptions@, replies@));
            Ok(replies)
        },
        Ok(command) => {
            proof {
                crate::cmd::lemma_view_kind(&command);
            }
            let cmd = Unknown::new(command.get_name());
            let mut replies: Vec<Frame> = Vec::new();
            replies.push(cmd.response());
            assert(replies@[0]@ == FrameV::Error("ERR unknown command '"@ + name_of(command@) + "'"@));
            Ok(replies)
        },
    }
}

proof fn lemma_without_first(s: Seq<Seq<char>>)
    requires
        s.len() >= 1,
        s.no_duplicates(),
    ensures
        without(s, s[0]) == s.subrange(1, s.len() as int),
    decreases s.len(),
{
    if s.len() == 1 {
        assert(s.drop_last() =~= Seq::<Seq<char>>::empty());
        assert(s.last() == s[0]);
        assert(without(s.drop_last(), s[0]) == s.drop_last());
        assert(s.subrange(1, 1) =~= Seq::<Seq<char>>::empty());
    } else {
        let d = s.drop_last();
        assert(d[0] == s[0]);
        assert(d.no_duplicates()) by {
            assert forall|a: int, b: int| 0 <= a < d.len() && 0 <= b < d.len() && a != b implies d[a] != d[b] by {
                assert(d[a] == s[a] && d[b] == s[b]);
            }
        }
        lemma_without_first(d);
        assert(s.last() != s[0]) by {
            assert(s.last() == s[s.len() - 1]);
        }
        assert(without(s, s[0]) == without(d, s[0]).push(s.last()));
        assert(d.subrange(1, d.len() as int).push(s.last()) =~= s.subrange(1, s.len() as int));
    }
}

/// Leaving every channel of a connection that listens on `v`: the replies
/// go through the channels in order, the one for the channel at index `i`
/// carries the count `v.len() - 1 - i`, and no channel is left.
pub proof fn lemma_unsubscribe_all(v: Seq<Seq<char>>)
    requires
        v.no_duplicates(),
    ensures
        forall|i: int|
            0 <= i < v.len() ==> #[trigger] remove_each(v, v.subrange(0, i + 1)).len() == v.len() - 1 - i,
        remove_each(v, v) == Seq::<Seq<char>>::empty(),
{
    assert forall|i: int| 0 <= i <= v.len() implies #[trigger] remove_each(v, v.subrange(0, i)) == v.subrange(
        i,
        v.len() as int,
    ) by {
        lemma_remove_prefix(v, i);
    }
    assert forall|i: int| 0 <= i < v.len() implies #[trigger] remove_each(v, v.subrange(0, i + 1)).len()
        == v.len() - 1 - i by {
        lemma_remove_prefix(v, i + 1);
    }
    lemma_remove_prefix(v, v.len() as int);
    assert(v.subrange(0, v.len() as int) =~= v);
    assert(v.subrange(v.len() as int, v.len() as int) =~= Seq::<Seq<char>>::empty());
}

proof fn lemma_remove_prefix(v: Seq<Seq<char>>, i: int)
    requires
        v.no_duplicates(),
        0 <= i <= v.len(),
    ensures
        remove_each(v, v.subrange(0, i)) == v.subrange(i, v.len() as int),
    decreases i,
{
    if i == 0 {
        assert(v.subrange(0, 0) =~= Seq::<Seq<char>>::empty());
        assert(v.subrange(0, v.len() as int) =~= v);
    } else {
        lemma_remove_prefix(v, i - 1);
        assert(v.subrange(0, i).drop_last() =~= v.subrange(0, i - 1));
        let rest = v.subrange(i - 1, v.len() as int);
        assert(rest.no_duplicates()) by {
            assert forall|a: int, b: int| 0 <= a < rest.len() && 0 <= b < rest.len() && a != b implies rest[a]
                != rest[b] by {
                assert(rest[a] == v[a + i - 1]);
                assert(rest[b] == v[b + i - 1]);
            }
        }
        lemma_without_first(rest);
        assert(rest.subrange(1, rest.len() as int) =~= v.subrange(i, v.len() as int));
    }
}

} // verus!
