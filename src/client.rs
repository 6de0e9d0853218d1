use vstd::prelude::*;
use vstd::utf8::*;

use crate::cmd::strings_view;
use crate::connection::FrameReader;
use crate::frame::{copy_bytes, decode_at, lemma_view_items, view_items, Decoded, Frame, FrameError, FrameV};
use crate::parse::text_eq;

verus! {

broadcast use vstd::std_specs::vec::group_vec_axioms, vstd::seq::group_seq_axioms;

/// Why a reply is not the one a request expects.
#[derive(Debug)]
pub enum ClientError {
    /// The server closed the connection before replying.
    ConnectionReset,
    /// The server replied with an error.
    Server(String),
    /// The reply is of a kind the request does not allow.
    Unexpected,
    /// The reply bytes break the wire format.
    Protocol(FrameError),
}

/// A message received on a subscribed channel.
#[derive(Debug)]
pub struct Message {
    pub channel: String,
    pub content: Vec<u8>,
}

/// The client's side of a connection: the bytes received that do not yet
/// form a whole reply.
pub struct Client {
    reader: FrameReader,
}

/// A client that listens on channels.
pub struct Subscriber {
    client: Client,
    subscribed_channels: Vec<String>,
}

/// The frame is a status line or a bulk string that reads as `t`.
pub open spec fn is_text(f: FrameV, t: Seq<char>) -> bool {
    match f {
        FrameV::Simple(s) => s == t,
        FrameV::Bulk(b) => b == encode_utf8(t),
        _ => false,
    }
}

/// The text a frame carries, as a message's channel.
pub open spec fn text_in(f: FrameV) -> Option<Seq<char>> {
    match f {
        FrameV::Simple(s) => Some(s),
        FrameV::Bulk(b) => if valid_utf8(b) {
            Some(decode_utf8(b))
        } else {
            None
        },
        _ => None,
    }
}

/// The bytes a frame carries, as a message's payload.
pub open spec fn bytes_in(f: FrameV) -> Option<Seq<u8>> {
    match f {
        FrameV::Simple(s) => Some(encode_utf8(s)),
        FrameV::Bulk(b) => Some(b),
        _ => None,
    }
}

fn bytes_eq(a: &[u8], b: &[u8]) -> (r: bool)
    ensures
        r == (a@ == b@),
{
    if a.len() != b.len() {
        return false;
    }
    let mut i: usize = 0;
    while i < a.len()
        invariant
            a.len() == b.len(),
            i <= a.len(),
            forall|j: int| 0 <= j < i ==> a@[j] == b@[j],
        decreases a.len() - i,
    {
        if a[i] != b[i] {
            return false;
        }
        i += 1;
    }
    assert(a@ =~= b@);
    true
}

/// Tells whether a frame is a status line or bulk string reading as `t`.
pub fn frame_is_text(f: &Frame, t: &str) -> (r: bool)
    ensures
        r == is_text(f@, t@),
{
    match f {
        Frame::Simple(s) => text_eq(s.as_str(), t),
        Frame::Bulk(b) => bytes_eq(b.as_slice(), t.as_bytes()),
        _ => false,
    }
}

fn frame_text(f: &Frame) -> (r: Option<String>)
    ensures
        match r {
            Some(s) => text_in(f@) == Some(s@),
            None => text_in(f@) is None,
        },
{
    match f {
        Frame::Simple(s) => Some(s.clone()),
        Frame::Bulk(b) => crate::frame::string_from_utf8(copy_bytes(b.as_slice())),
        _ => None,
    }
}

fn frame_bytes(f: &Frame) -> (r: Option<Vec<u8>>)
    ensures
        match r {
            Some(b) => bytes_in(f@) == Some(b@),
            None => bytes_in(f@) is None,
        },
{
    match f {
        Frame::Simple(s) => Some(copy_bytes(s.as_str().as_bytes())),
        Frame::Bulk(b) => Some(copy_bytes(b.as_slice())),
        _ => None,
    }
}

impl Client {
    pub closed spec fn pending(&self) -> Seq<u8> {
        self.reader.pending()
    }

    pub fn new() -> (r: Client)
        ensures
            r.pending() == Seq::<u8>::empty(),
    {
        Client { reader: FrameReader::new() }
    }

    /// Adds reply bytes that have just arrived.
    pub fn feed(&mut self, bytes: &[u8])
        ensures
            final(self).pending() == old(self).pending() + bytes@,
    {
        self.reader.feed(bytes);
    }

    /// Takes the next whole reply out of what has arrived; `Ok(None)` means
    /// more bytes are needed.
    pub fn next_frame(&mut self) -> (r: Result<Option<Frame>, ClientError>)
        ensures
            match decode_at(old(self).pending(), 0) {
                Decoded::Done(fv, n) => r matches Ok(Some(f)) && f@ == fv && final(self).pending()
                    == old(self).pending().subrange(n, old(self).pending().len() as int),
                Decoded::Fail(FrameError::Incomplete) => r matches Ok(None) && final(self).pending()
                    == old(self).pending(),
                Decoded::Fail(k) => r matches Err(ClientError::Protocol(k2)) && k2 == k
                    && final(self).pending() == old(self).pending(),
            },
    {
        match self.reader.next_frame() {
            Ok(f) => Ok(f),
            Err(k) => Err(ClientError::Protocol(k)),
        }
    }

    /// Whether the connection stands between replies, where it may end.
    pub fn is_between_frames(&self) -> (r: bool)
        ensures
            r == (self.pending().len() == 0),
    {
        self.reader.is_empty()
    }

    /// A reply as the server sent it, or `None` when the connection ended:
    /// an error reply and an ended connection become errors.
    pub fn read_response(response: Option<Frame>) -> (r: Result<Frame, ClientError>)
        ensures
            match response {
                None => r matches Err(ClientError::ConnectionReset),
                Some(f) => match f@ {
                    FrameV::Error(msg) => r matches Err(ClientError::Server(m)) && m@ == msg,
                    fv => r matches Ok(g) && g@ == fv,
                },
            },
    {
        match response {
            None => Err(ClientError::ConnectionReset),
            Some(Frame::Error(msg)) => Err(ClientError::Server(msg)),
            Some(f) => Ok(f),
        }
    }

    /// The reply to `PING`: the bytes of a status line or a bulk string.
    pub fn ping_reply(frame: Frame) -> (r: Result<Vec<u8>, ClientError>)
        ensures
            match bytes_in(frame@) {
                Some(b) => r matches Ok(v) && v@ == b,
                None => r matches Err(ClientError::Unexpected),
            },
    {
        match frame_bytes(&frame) {
            Some(b) => Ok(b),
            None => Err(ClientError::Unexpected),
        }
    }

    /// The reply to `GET`: the value's bytes, or `None` for a null.
    pub fn get_reply(frame: Frame) -> (r: Result<Option<Vec<u8>>, ClientError>)
        ensures
            match frame@ {
                FrameV::Null => r matches Ok(None),
                fv => match bytes_in(fv) {
                    Some(b) => r matches Ok(Some(v)) && v@ == b,
                    None => r matches Err(ClientError::Unexpected),
                },
            },
    {
        match frame {
            Frame::Null => Ok(None),
            f => match frame_bytes(&f) {
                Some(b) => Ok(Some(b)),
                None => Err(ClientError::Unexpected),
            },
        }
    }

    /// The reply to `SET`: the status `OK`.
    pub fn set_reply(frame: Frame) -> (r: Result<(), ClientError>)
        ensures
            r is Ok <==> frame@ == FrameV::Simple("OK"@),
            r is Err ==> r matches Err(ClientError::Unexpected),
    {
        match &frame {
            Frame::Simple(s) => if text_eq(s.as_str(), "OK") {
                Ok(())
            } else {
                Err(ClientError::Unexpected)
            },
            _ => Err(ClientError::Unexpected),
        }
    }

    /// The reply to `PUBLISH`: how many subscribers got the message.
    pub fn publish_reply(frame: Frame) -> (r: Result<u64, ClientError>)
        ensures
            match frame@ {
                FrameV::Integer(n) => r matches Ok(m) && m == n,
                _ => r matches Err(ClientError::Unexpected),
            },
    {
        match frame {
            Frame::Integer(n) => Ok(n),
            _ => Err(ClientError::Unexpected),
        }
    }

    /// Whether a reply confirms joining `channel`: `[subscribe, channel, ...]`.
    pub fn confirms_subscribe(frame: &Frame, channel: &str) -> (r: bool)
        ensures
            r == (frame@ matches FrameV::Array(parts) && parts.len() >= 2 && is_text(
                parts[0],
                "subscribe"@,
            ) && is_text(parts[1], channel@)),
    {
        match frame {
            Frame::Array(parts) => {
                proof {
                    lemma_view_items(parts@);
                }
                parts.len() >= 2 && frame_is_text(&parts[0], "subscribe") && frame_is_text(
                    &parts[1],
                    channel,
                )
            },
            _ => false,
        }
    }
}

/// The channels left once every one that `ch` reads as is taken out.
pub open spec fn drop_matching(v: Seq<Seq<char>>, ch: FrameV) -> Seq<Seq<char>>
    decreases v.len(),
{
    if v.len() == 0 {
        v
    } else if is_text(ch, v.last()) {
        drop_matching(v.drop_last(), ch)
    } else {
        drop_matching(v.drop_last(), ch).push(v.last())
    }
}

/// The message a frame `[message, channel, payload]` delivers.
pub open spec fn message_in(f: FrameV) -> Option<(Seq<char>, Seq<u8>)> {
    match f {
        FrameV::Array(parts) => if parts.len() == 3 && is_text(parts[0], "message"@) {
            match (text_in(parts[1]), bytes_in(parts[2])) {
                (Some(c), Some(b)) => Some((c, b)),
                _ => None,
            }
        } else {
            None
        },
        _ => None,
    }
}

impl Subscriber {
    pub closed spec fn subscribed(&self) -> Seq<Seq<char>> {
        strings_view(self.subscribed_channels@)
    }

    /// A client that has joined `channels`.
    pub fn new(client: Client, channels: Vec<String>) -> (r: Subscriber)
        ensures
            r.subscribed() == strings_view(channels@),
    {
        Subscriber { client, subscribed_channels: channels }
    }

    /// The connection underneath.
    pub fn client(&mut self) -> (r: &mut Client) {
        &mut self.client
    }

    /// The channels listened on.
    pub fn get_subscribed(&self) -> (r: &[String])
        ensures
            strings_view(r@) == self.subscribed(),
    {
        self.subscribed_channels.as_slice()
    }

    /// Records that `channels` have been joined as well.
    pub fn add_channels(&mut self, channels: &[String])
        ensures
            final(self).subscribed() == old(self).subscribed() + strings_view(channels@),
    {
        let mut more = crate::cmd::clone_strings(channels);
        let ghost before = self.subscribed_channels@;
        let ghost added = more@;
        self.subscribed_channels.append(&mut more);
        assert(strings_view(self.subscribed_channels@) =~= strings_view(before) + strings_view(added));
    }

    /// How many replies an `UNSUBSCRIBE` naming `channels` brings: one per
    /// channel named, or one per channel listened on when none is named.
    pub fn unsubscribe_count(&self, channels: &[String]) -> (r: usize)
        ensures
            r == if channels@.len() == 0 {
                self.subscribed().len()
            } else {
                channels@.len()
            },
    {
        if channels.len() == 0 {
            self.subscribed_channels.len()
        } else {
            channels.len()
        }
    }

    /// Takes in one reply `[unsubscribe, channel, ...]`: the channel must be
    /// listened on exactly once, and is then dropped.
    pub fn apply_unsubscribe_reply(&mut self, frame: &Frame) -> (r: Result<(), ClientError>)
        ensures
            match frame@ {
                FrameV::Array(parts) => if parts.len() >= 2 && is_text(parts[0], "unsubscribe"@) {
                    let after = drop_matching(old(self).subscribed(), parts[1]);
                    if old(self).subscribed().len() > 0 && after.len() + 1 == old(self).subscribed().len() {
                        r is Ok && final(self).subscribed() == after
                    } else {
                        r matches Err(ClientError::Unexpected) && final(self).subscribed() == old(self).subscribed()
                    }
                } else {
                    r matches Err(ClientError::Unexpected) && final(self).subscribed() == old(self).subscribed()
                },
                _ => r matches Err(ClientError::Unexpected) && final(self).subscribed() == old(self).subscribed(),
            },
    {
        let parts = match frame {
            Frame::Array(parts) => parts,
            _ => {
                return Err(ClientError::Unexpected);
            },
        };
        proof {
            lemma_view_items(parts@);
        }
        if parts.len() < 2 || !frame_is_text(&parts[0], "unsubscribe") {
            return Err(ClientError::Unexpected);
        }
        let len = self.subscribed_channels.len();
        if len == 0 {
            return Err(ClientError::Unexpected);
        }
        let channel = &parts[1];
        let ghost v0 = self.subscribed();
        let mut kept: Vec<String> = Vec::new();
        let mut i: usize = 0;
        while i < self.subscribed_channels.len()
            invariant
                i <= self.subscribed_channels.len(),
                v0 == strings_view(self.subscribed_channels@),
                strings_view(kept@) == drop_matching(v0.subrange(0, i as int), channel@),
            decreases self.subscribed_channels.len() - i,
        {
            let ghost pre = v0.subrange(0, i as int);
            assert(v0.subrange(0, i + 1) =~= pre.push(v0[i as int]));
            assert(pre.push(v0[i as int]).drop_last() =~= pre);
            if !frame_is_text(channel, self.subscribed_channels[i].as_str()) {
                let c = self.subscribed_channels[i].clone();
                let ghost kv = kept@;
                kept.push(c);
                assert(strings_view(kept@) =~= strings_view(kv).push(v0[i as int]));
            }
            i += 1;
        }
        assert(v0.subrange(0, v0.len() as int) =~= v0);
        if kept.len() != len - 1 {
            return Err(ClientError::Unexpected);
        }
        self.subscribed_channels = kept;
        Ok(())
    }

    /// The message a frame delivers: `[message, channel, payload]`.
    pub fn message_of(frame: &Frame) -> (r: Result<Message, ClientError>)
        ensures
            match message_in(frame@) {
                Some((c, b)) => r matches Ok(m) && m.channel@ == c && m.content@ == b,
                None => r matches Err(ClientError::Unexpected),
            },
    {
        match frame {
            Frame::Array(parts) => {
                proof {
                    lemma_view_items(parts@);
                }
                if parts.len() == 3 && frame_is_text(&parts[0], "message") {
                    match (frame_text(&parts[1]), frame_bytes(&parts[2])) {
                        (Some(channel), Some(content)) => Ok(Message { channel, content }),
                        _ => Err(ClientError::Unexpected),
                    }
                } else {
                    Err(ClientError::Unexpected)
                }
            },
            _ => Err(ClientError::Unexpected),
        }
    }
}

} // verus!
