use vstd::prelude::*;
use vstd::utf8::*;

use crate::cmd::{frame_command, lemma_view_kind, strings_view, Command, CommandV};
use crate::db::{after_set, deadline, EntryV, State};
use crate::frame::{Frame, FrameV};
use crate::parse::ParseError;

verus! {

/// The most connections served at once.
pub const MAX_CONNECTIONS: usize = 250;

/// The longest wait, in seconds, before the accept loop gives up.
pub const MAX_BACKOFF: u64 = 64;

/// What a connection in command state does after a request.
pub enum Action {
    /// Send this frame back.
    Reply(Frame),
    /// Send the message to the channel's subscribers, then reply with how
    /// many there were.
    Publish { channel: String, message: Vec<u8> },
    /// Enter pub/sub state, joining these channels.
    Subscribe(Vec<String>),
}

pub enum ActionV {
    Reply(FrameV),
    Publish { channel: Seq<char>, message: Seq<u8> },
    Subscribe(Seq<Seq<char>>),
}

impl View for Action {
    type V = ActionV;

    open spec fn view(&self) -> ActionV {
        match self {
            Action::Reply(f) => ActionV::Reply(f@),
            Action::Publish { channel, message } => ActionV::Publish {
                channel: channel@,
                message: message@,
            },
            Action::Subscribe(v) => ActionV::Subscribe(strings_view(v@)),
        }
    }
}

/// The error text sent back for a request whose arguments cannot be read.
pub open spec fn parse_error_text(e: ParseError) -> Seq<char> {
    match e {
        ParseError::EndOfStream => "ERR wrong number of arguments"@,
        ParseError::TypeMismatch => "ERR protocol error; unexpected frame type"@,
        ParseError::Utf8 => "ERR protocol error; invalid UTF-8"@,
        ParseError::Invalid => "ERR syntax error"@,
    }
}

/// The error text sent back for `UNSUBSCRIBE` outside pub/sub state.
pub open spec fn unsubscribe_outside_text() -> Seq<char> {
    "ERR `unsubscribe` is unsupported in this context"@
}

/// The error reply for a request whose arguments cannot be read.
pub fn parse_error_reply(e: ParseError) -> (r: Frame)
    ensures
        r@ == FrameV::Error(parse_error_text(e)),
{
    let text = match e {
        ParseError::EndOfStream => "ERR wrong number of arguments",
        ParseError::TypeMismatch => "ERR protocol error; unexpected frame type",
        ParseError::Utf8 => "ERR protocol error; invalid UTF-8",
        ParseError::Invalid => "ERR syntax error",
    };
    Frame::Error(text.to_owned())
}

/// What a command does in command state, on a store read at time `now`.
pub open spec fn applied(c: CommandV, m: Map<Seq<char>, crate::db::EntryV>, now: u64) -> ActionV {
    match c {
        CommandV::Get { key } => ActionV::Reply(
            if m.contains_key(key) {
                FrameV::Bulk(m[key].data)
            } else {
                FrameV::Null
            },
        ),
        CommandV::SetCmd { .. } => ActionV::Reply(FrameV::Simple("OK"@)),
        CommandV::Publish { channel, message } => ActionV::Publish { channel, message },
        CommandV::Subscribe { channels } => ActionV::Subscribe(channels),
        CommandV::Unsubscribe { .. } => ActionV::Reply(FrameV::Error(unsubscribe_outside_text())),
        CommandV::Ping { msg } => ActionV::Reply(
            match msg {
                Some(b) => FrameV::Bulk(b),
                None => FrameV::Simple("PONG"@),
            },
        ),
        CommandV::Unknown { name } => ActionV::Reply(
            FrameV::Error("ERR unknown command '"@ + name + "'"@),
        ),
    }
}

/// The store after a command at time `now`: a `SET` stores its value, the
/// others leave it as it was.
pub open spec fn store_after(c: CommandV, m: Map<Seq<char>, EntryV>, now: u64) -> Map<Seq<char>, EntryV> {
    match c {
        CommandV::SetCmd { key, value, expire } => after_set(
            m,
            key,
            value,
            match expire {
                Some(ms) => Some(ms as u128),
                None => None,
            },
            now,
        ),
        _ => m,
    }
}

/// Whether a command at time `now` must wake the expirer: a `SET` whose
/// deadline comes before every deadline already in the store.
pub open spec fn wakes(c: CommandV, m: Map<Seq<char>, EntryV>, now: u64) -> bool {
    match c {
        CommandV::SetCmd { expire, .. } => match deadline(
            now,
            match expire {
                Some(ms) => Some(ms as u128),
                None => None,
            },
        ) {
            Some(w) => forall|k: Seq<char>|
                #![trigger m[k]]
                m.contains_key(k) && m[k].expires_at is Some ==> w < m[k].expires_at->0,
            None => false,
        },
        _ => false,
    }
}

/// Carries out a command on the store at time `now`. Returns what the
/// connection does next and whether the expirer must wake.
pub fn apply(cmd: Command, state: &mut State, now: u64) -> (r: (Action, bool))
    requires
        old(state).wf(),
    ensures
        final(state).wf(),
        final(state).is_shut() == old(state).is_shut(),
        r.0@ == applied(cmd@, old(state).map(), now),
        final(state).map() == store_after(cmd@, old(state).map(), now),
        r.1 == wakes(cmd@, old(state).map(), now),
{
    proof {
        lemma_view_kind(&cmd);
    }
    match cmd {
        Command::Get(get) => {
            let reply = match state.get(get.key()) {
                Some(v) => Frame::Bulk(v),
                None => Frame::Null,
            };
            (Action::Reply(reply), false)
        },
        Command::SetCmd(set) => {
            let (key, value, expire) = set.into_parts();
            let notify = state.set(key, value, expire, now);
            (Action::Reply(Frame::Simple("OK".to_owned())), notify)
        },
        Command::Publish(publish) => {
            let (channel, message) = publish.into_parts();
            (Action::Publish { channel, message }, false)
        },
        Command::Subscribe(subscribe) => (Action::Subscribe(subscribe.into_channels()), false),
        Command::Unsubscribe(_) => (
            Action::Reply(Frame::Error("ERR `unsubscribe` is unsupported in this context".to_owned())),
            false,
        ),
        Command::Ping(ping) => (Action::Reply(ping.response()), false),
        Command::Unknown(unknown) => (Action::Reply(unknown.response()), false),
    }
}

/// Handles one request frame in command state: a request that cannot be
/// read is answered with an error and leaves the store as it was.
pub fn handle_frame(frame: Frame, state: &mut State, now: u64) -> (r: (Action, bool))
    requires
        old(state).wf(),
    ensures
        final(state).wf(),
        final(state).is_shut() == old(state).is_shut(),
        match frame_command(frame@) {
            Ok(c) => r.0@ == applied(c, old(state).map(), now) && final(state).map() == store_after(
                c,
                old(state).map(),
                now,
            ) && r.1 == wakes(c, old(state).map(), now),
            Err(e) => r.0@ == ActionV::Reply(FrameV::Error(parse_error_text(e)))
                && final(state).map() == old(state).map() && !r.1,
        },
{
    match Command::from_frame(frame) {
        Ok(cmd) => apply(cmd, state, now),
        Err(e) => (Action::Reply(parse_error_reply(e)), false),
    }
}

/// The accept loop's waits after failed accepts: 1, 2, 4, ... seconds, up
/// to `MAX_BACKOFF`; after that the error is given up on.
pub struct Backoff {
    next: u64,
}

impl Backoff {
    /// The wait that the next failure brings.
    pub closed spec fn next_wait(&self) -> u64 {
        self.next
    }

    pub open spec fn wf(&self) -> bool {
        1 <= self.next_wait() <= 2 * MAX_BACKOFF
    }

    pub fn new() -> (r: Backoff)
        ensures
            r.wf(),
            r.next_wait() == 1,
    {
        Backoff { next: 1 }
    }

    /// After a failed accept: `Some(secs)` to wait `secs` seconds and try
    /// again, each wait twice the one before; `None` once the wait would
    /// pass `MAX_BACKOFF`.
    pub fn on_error(&mut self) -> (r: Option<u64>)
        requires
            old(self).wf(),
        ensures
            final(self).wf(),
            old(self).next_wait() > MAX_BACKOFF ==> r is None && final(self).next_wait() == old(
                self,
            ).next_wait(),
            old(self).next_wait() <= MAX_BACKOFF ==> r == Some(old(self).next_wait())
                && final(self).next_wait() == 2 * old(self).next_wait(),
    {
        if self.next > MAX_BACKOFF {
            None
        } else {
            let wait = self.next;
            self.next = self.next * 2;
            Some(wait)
        }
    }
}

/// The shutdown signal as a connection sees it: once seen, it stays seen.
pub struct ShutdownLatch {
    is_shutdown: bool,
}

impl ShutdownLatch {
    pub closed spec fn seen(&self) -> bool {
        self.is_shutdown
    }

    pub fn new() -> (r: ShutdownLatch)
        ensures
            !r.seen(),
    {
        ShutdownLatch { is_shutdown: false }
    }

    pub fn is_shutdown(&self) -> (r: bool)
        ensures
            r == self.seen(),
    {
        self.is_shutdown
    }

    /// Records that the signal has fired.
    pub fn observe(&mut self)
        ensures
            final(self).seen(),
    {
        self.is_shutdown = true;
    }
}

} // verus!
