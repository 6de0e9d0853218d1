use vstd::prelude::*;
use vstd::utf8::*;

use crate::frame::{text_bytes, Frame, FrameV};
use crate::parse::{bytes_of, int_of, string_of, text_eq, Parse, ParseError};

verus! {

broadcast use vstd::std_specs::vec::group_vec_axioms, vstd::seq::group_seq_axioms;

/// What `str::to_lowercase` gives for a text.
pub uninterp spec fn lower_of(s: Seq<char>) -> Seq<char>;

/// What `str::to_uppercase` gives for a text.
pub uninterp spec fn upper_of(s: Seq<char>) -> Seq<char>;

/// Relies on `str::to_lowercase`: the result depends on the characters alone.
#[verifier::external_body]
fn lowercase(s: &str) -> (r: String)
    ensures
        r@ == lower_of(s@),
{
    s.to_lowercase()
}

/// Relies on `str::to_uppercase`: the result depends on the characters alone.
#[verifier::external_body]
fn uppercase(s: &str) -> (r: String)
    ensures
        r@ == upper_of(s@),
{
    s.to_uppercase()
}

/// The value of a command.
pub enum CommandV {
    Get { key: Seq<char> },
    SetCmd { key: Seq<char>, value: Seq<u8>, expire: Option<nat> },
    Publish { channel: Seq<char>, message: Seq<u8> },
    Subscribe { channels: Seq<Seq<char>> },
    Unsubscribe { channels: Seq<Seq<char>> },
    Ping { msg: Option<Seq<u8>> },
    Unknown { name: Seq<char> },
}

/// Fetch the value stored at a key.
#[derive(Debug)]
pub struct Get {
    key: String,
}

/// Store a value at a key, with an optional time to live in milliseconds.
#[derive(Debug)]
pub struct SetCmd {
    key: String,
    value: Vec<u8>,
    expire: Option<u128>,
}

/// Send a message to every subscriber of a channel.
#[derive(Debug)]
pub struct Publish {
    channel: String,
    message: Vec<u8>,
}

/// Listen on one or more channels.
#[derive(Debug)]
pub struct Subscribe {
    channels: Vec<String>,
}

/// Stop listening on some channels, or on all of them when none is named.
#[derive(Debug)]
pub struct Unsubscribe {
    channels: Vec<String>,
}

/// Check that the server answers, optionally echoing a message.
#[derive(Debug)]
pub struct Ping {
    msg: Option<Vec<u8>>,
}

/// A command this server does not know.
#[derive(Debug)]
pub struct Unknown {
    command_name: String,
}

/// A request from a client.
#[derive(Debug)]
pub enum Command {
    Get(Get),
    Publish(Publish),
    SetCmd(SetCmd),
    Subscribe(Subscribe),
    Unsubscribe(Unsubscribe),
    Ping(Ping),
    Unknown(Unknown),
}

/// The texts of a list of strings.
pub open spec fn strings_view(v: Seq<String>) -> Seq<Seq<char>> {
    v.map_values(|s: String| s@)
}

impl View for Get {
    type V = CommandV;

    closed spec fn view(&self) -> CommandV {
        CommandV::Get { key: self.key@ }
    }
}

impl View for SetCmd {
    type V = CommandV;

    closed spec fn view(&self) -> CommandV {
        CommandV::SetCmd {
            key: self.key@,
            value: self.value@,
            expire: match self.expire {
                Some(ms) => Some(ms as nat),
                None => None,
            },
        }
    }
}

impl View for Publish {
    type V = CommandV;

    closed spec fn view(&self) -> CommandV {
        CommandV::Publish { channel: self.channel@, message: self.message@ }
    }
}

impl View for Subscribe {
    type V = CommandV;

    closed spec fn view(&self) -> CommandV {
        CommandV::Subscribe { channels: strings_view(self.channels@) }
    }
}

impl View for Unsubscribe {
    type V = CommandV;

    closed spec fn view(&self) -> CommandV {
        CommandV::Unsubscribe { channels: strings_view(self.channels@) }
    }
}

impl View for Ping {
    type V = CommandV;

    closed spec fn view(&self) -> CommandV {
        CommandV::Ping {
            msg: match &self.msg {
                Some(m) => Some(m@),
                None => None,
            },
        }
    }
}

impl View for Unknown {
    type V = CommandV;

    closed spec fn view(&self) -> CommandV {
        CommandV::Unknown { name: self.command_name@ }
    }
}

impl View for Command {
    type V = CommandV;

    open spec fn view(&self) -> CommandV {
        match self {
            Command::Get(c) => c@,
            Command::SetCmd(c) => c@,
            Command::Publish(c) => c@,
            Command::Subscribe(c) => c@,
            Command::Unsubscribe(c) => c@,
            Command::Ping(c) => c@,
            Command::Unknown(c) => c@,
        }
    }
}

/// The texts of all the arguments, or the first reason one is not text.
pub open spec fn strings_of(args: Seq<FrameV>) -> Result<Seq<Seq<char>>, ParseError>
    decreases args.len(),
{
    if args.len() == 0 {
        Ok(Seq::empty())
    } else {
        match strings_of(args.drop_last()) {
            Err(e) => Err(e),
            Ok(v) => match string_of(args.last()) {
                Ok(s) => Ok(v.push(s)),
                Err(e) => Err(e),
            },
        }
    }
}

/// `GET key`: the command and how many arguments it takes.
pub open spec fn get_args(args: Seq<FrameV>) -> Result<(CommandV, nat), ParseError> {
    if args.len() == 0 {
        Err(ParseError::EndOfStream)
    } else {
        match string_of(args[0]) {
            Ok(k) => Ok((CommandV::Get { key: k }, 1)),
            Err(e) => Err(e),
        }
    }
}

/// `PUBLISH channel message`.
pub open spec fn publish_args(args: Seq<FrameV>) -> Result<(CommandV, nat), ParseError> {
    if args.len() == 0 {
        Err(ParseError::EndOfStream)
    } else {
        match string_of(args[0]) {
            Err(e) => Err(e),
            Ok(c) => if args.len() == 1 {
                Err(ParseError::EndOfStream)
            } else {
                match bytes_of(args[1]) {
                    Ok(m) => Ok((CommandV::Publish { channel: c, message: m }, 2)),
                    Err(e) => Err(e),
                }
            },
        }
    }
}

/// The time to live of `SET`, from its mode keyword and its number.
pub open spec fn set_expire(args: Seq<FrameV>) -> Result<(Option<nat>, nat), ParseError> {
    if args.len() == 2 {
        Ok((None, 2))
    } else {
        match string_of(args[2]) {
            Err(e) => Err(e),
            Ok(mode) => match mode_expire(upper_of(mode), args.subrange(3, args.len() as int)) {
                Err(e) => Err(e),
                Ok((ex, used)) => Ok((ex, 3 + used)),
            },
        }
    }
}

/// The time to live that an uppercased mode keyword and the arguments after
/// it give, and how many of those arguments it takes.
pub open spec fn mode_expire(mode: Seq<char>, rest: Seq<FrameV>) -> Result<(Option<nat>, nat), ParseError> {
    if mode == "EX"@ || mode == "PX"@ {
        if rest.len() == 0 {
            Err(ParseError::EndOfStream)
        } else {
            match int_of(rest[0]) {
                Err(e) => Err(e),
                Ok(n) => if mode == "EX"@ {
                    Ok((Some((n as nat) * 1000), 1))
                } else {
                    Ok((Some(n as nat), 1))
                },
            }
        }
    } else {
        Err(ParseError::Invalid)
    }
}

/// `SET key value [EX seconds | PX milliseconds]`.
pub open spec fn set_args(args: Seq<FrameV>) -> Result<(CommandV, nat), ParseError> {
    if args.len() == 0 {
        Err(ParseError::EndOfStream)
    } else {
        match string_of(args[0]) {
            Err(e) => Err(e),
            Ok(k) => if args.len() == 1 {
                Err(ParseError::EndOfStream)
            } else {
                match bytes_of(args[1]) {
                    Err(e) => Err(e),
                    Ok(v) => match set_expire(args) {
                        Err(e) => Err(e),
                        Ok((ex, used)) => Ok((CommandV::SetCmd { key: k, value: v, expire: ex }, used)),
                    },
                }
            },
        }
    }
}

/// `SUBSCRIBE channel [channel ...]`.
pub open spec fn subscribe_args(args: Seq<FrameV>) -> Result<(CommandV, nat), ParseError> {
    if args.len() == 0 {
        Err(ParseError::EndOfStream)
    } else {
        match strings_of(args) {
            Ok(v) => Ok((CommandV::Subscribe { channels: v }, args.len())),
            Err(e) => Err(e),
        }
    }
}

/// `UNSUBSCRIBE [channel ...]`.
pub open spec fn unsubscribe_args(args: Seq<FrameV>) -> Result<(CommandV, nat), ParseError> {
    match strings_of(args) {
        Ok(v) => Ok((CommandV::Unsubscribe { channels: v }, args.len())),
        Err(e) => Err(e),
    }
}

/// `PING [message]`.
pub open spec fn ping_args(args: Seq<FrameV>) -> Result<(CommandV, nat), ParseError> {
    if args.len() == 0 {
        Ok((CommandV::Ping { msg: None }, 0))
    } else {
        match bytes_of(args[0]) {
            Ok(m) => Ok((CommandV::Ping { msg: Some(m) }, 1)),
            Err(e) => Err(e),
        }
    }
}

/// The command that a lowercased name and its arguments spell.
pub open spec fn command_of(name: Seq<char>, args: Seq<FrameV>) -> Result<CommandV, ParseError> {
    let parsed = if name == "get"@ {
        get_args(args)
    } else if name == "publish"@ {
        publish_args(args)
    } else if name == "set"@ {
        set_args(args)
    } else if name == "subscribe"@ {
        subscribe_args(args)
    } else if name == "unsubscribe"@ {
        unsubscribe_args(args)
    } else if name == "ping"@ {
        ping_args(args)
    } else {
        Ok((CommandV::Unknown { name }, args.len()))
    };
    match parsed {
        Err(e) => Err(e),
        Ok((c, used)) => if used < args.len() {
            Err(ParseError::Invalid)
        } else {
            Ok(c)
        },
    }
}

/// The command that a frame spells, given what lowercasing does to names.
pub open spec fn frame_command(f: FrameV) -> Result<CommandV, ParseError> {
    match f {
        FrameV::Array(parts) => if parts.len() == 0 {
            Err(ParseError::EndOfStream)
        } else {
            match string_of(parts[0]) {
                Err(e) => Err(e),
                Ok(name) => command_of(lower_of(name), parts.subrange(1, parts.len() as int)),
            }
        },
        _ => Err(ParseError::TypeMismatch),
    }
}

/// Reading a command's arguments with `old_p`, leaving `new_p`, gave `r`:
/// what `expected` says, having used as many arguments as it says.
pub open spec fn parsed_as(
    r: Result<Command, ParseError>,
    expected: Result<(CommandV, nat), ParseError>,
    old_p: Parse,
    new_p: Parse,
) -> bool {
    new_p.inv() && new_p.parts() == old_p.parts() && match (r, expected) {
        (Ok(c), Ok((cv, used))) => c@ == cv && new_p.position() == old_p.position() + used,
        (Err(e1), Err(e2)) => e1 == e2,
        _ => false,
    }
}

fn parse_strings(parse: &mut Parse) -> (r: Result<Vec<String>, ParseError>)
    requires
        old(parse).inv(),
    ensures
        final(parse).inv(),
        final(parse).parts() == old(parse).parts(),
        match (r, strings_of(old(parse).remaining())) {
            (Ok(v), Ok(t)) => strings_view(v@) == t && final(parse).remaining().len() == 0,
            (Err(e1), Err(e2)) => e1 == e2,
            _ => false,
        },
{
    let ghost args = parse.remaining();
    let ghost start = parse.position();
    let mut out: Vec<String> = Vec::new();
    assert(args.subrange(0, 0) =~= Seq::<FrameV>::empty());
    assert(strings_view(out@) =~= Seq::<Seq<char>>::empty());
    loop
        invariant
            parse.inv(),
            parse.parts() == old(parse).parts(),
            args == old(parse).remaining(),
            start == old(parse).position(),
            start <= parse.position() <= parse.parts().len(),
            parse.position() - start == out.len(),
            args.len() == parse.parts().len() - start,
            forall|j: int| 0 <= j < args.len() ==> #[trigger] args[j] == parse.parts()[start + j],
            strings_of(args.subrange(0, out.len() as int)) == Ok::<Seq<Seq<char>>, ParseError>(
                strings_view(out@),
            ),
        decreases parse.parts().len() - parse.position(),
    {
        let ghost k = out.len() as int;
        let ghost before = out@;
        match parse.next_string() {
            Ok(s) => {
                proof {
                    assert(args.subrange(0, k + 1).drop_last() =~= args.subrange(0, k));
                }
                out.push(s);
                proof {
                    assert(strings_view(out@) =~= strings_view(before).push(s@));
                }
            },
            Err(ParseError::EndOfStream) => {
                assert(args.subrange(0, k) =~= args);
                return Ok(out);
            },
            Err(e) => {
                proof {
                    lemma_strings_of_prefix_err(args, k + 1);
                    assert(args.subrange(0, k + 1).drop_last() =~= args.subrange(0, k));
                }
                return Err(e);
            },
        }
    }
}

proof fn lemma_strings_of_prefix_err(args: Seq<FrameV>, k: int)
    requires
        0 <= k <= args.len(),
        strings_of(args.subrange(0, k)) is Err,
    ensures
        strings_of(args) == strings_of(args.subrange(0, k)),
    decreases args.len(),
{
    if k < args.len() {
        assert(args.drop_last().subrange(0, k) =~= args.subrange(0, k));
        lemma_strings_of_prefix_err(args.drop_last(), k);
    } else {
        assert(args.subrange(0, k) =~= args);
    }
}

/// The frame `[bulk(name), ...]` that starts every request.
fn command_array(name: &str) -> (r: Frame)
    ensures
        r@ == FrameV::Array(seq![FrameV::Bulk(encode_utf8(name@))]),
{
    let mut f = Frame::array();
    f.push_bulk(text_bytes(name));
    f
}

/// The bulk strings that carry a list of texts.
pub open spec fn bulk_texts(v: Seq<Seq<char>>) -> Seq<FrameV> {
    v.map_values(|s: Seq<char>| FrameV::Bulk(encode_utf8(s)))
}

fn push_texts(frame: &mut Frame, v: &Vec<String>)
    requires
        old(frame)@ is Array,
    ensures
        final(frame)@ == FrameV::Array(old(frame)@->Array_0 + bulk_texts(strings_view(v@))),
{
    let ghost start = frame@->Array_0;
    let mut i: usize = 0;
    while i < v.len()
        invariant
            i <= v.len(),
            frame@ == FrameV::Array(start + bulk_texts(strings_view(v@.subrange(0, i as int)))),
        decreases v.len() - i,
    {
        frame.push_bulk(text_bytes(v[i].as_str()));
        i += 1;
        assert(start + bulk_texts(strings_view(v@.subrange(0, i as int))) =~= (start + bulk_texts(
            strings_view(v@.subrange(0, i - 1)),
        )).push(FrameV::Bulk(encode_utf8(v@[i - 1]@))));
    }
    assert(v@.subrange(0, v.len() as int) =~= v@);
}

impl Get {
    pub fn new(key: &str) -> (r: Get)
        ensures
            r@ == (CommandV::Get { key: key@ }),
    {
        Get { key: key.to_owned() }
    }

    pub fn key(&self) -> (r: &str)
        ensures
            self@ == (CommandV::Get { key: r@ }),
    {
        self.key.as_str()
    }

    /// Reads the arguments of `GET`.
    pub fn parse_frames(parse: &mut Parse) -> (r: Result<Get, ParseError>)
        requires
            old(parse).inv(),
        ensures
            parsed_as(
                match r {
                    Ok(c) => Ok(Command::Get(c)),
                    Err(e) => Err(e),
                },
                get_args(old(parse).remaining()),
                *old(parse),
                *final(parse),
            ),
    {
        let key = parse.next_string()?;
        Ok(Get { key })
    }

    /// The request frame `[get, key]`.
    pub fn into_frame(self) -> (r: Frame)
        ensures
            r@ == FrameV::Array(
                seq![FrameV::Bulk(encode_utf8("get"@)), FrameV::Bulk(encode_utf8(self@->Get_key))],
            ),
    {
        let mut f = command_array("get");
        f.push_bulk(text_bytes(self.key.as_str()));
        assert(f@->Array_0 =~= seq![FrameV::Bulk(encode_utf8("get"@)), FrameV::Bulk(encode_utf8(self@->Get_key))]);
        f
    }
}

/// Each kind of command has the value of the same kind.
pub proof fn lemma_view_kind(c: &Command)
    ensures
        c is Get <==> c@ is Get,
        c is SetCmd <==> c@ is SetCmd,
        c is Publish <==> c@ is Publish,
        c is Subscribe <==> c@ is Subscribe,
        c is Unsubscribe <==> c@ is Unsubscribe,
        c is Ping <==> c@ is Ping,
        c is Unknown <==> c@ is Unknown,
{
}

proof fn lemma_strings_of_len(args: Seq<FrameV>)
    ensures
        strings_of(args) is Ok ==> strings_of(args)->Ok_0.len() == args.len(),
    decreases args.len(),
{
    if args.len() > 0 {
        lemma_strings_of_len(args.drop_last());
    }
}

proof fn lemma_shift(p1: Parse, p2: Parse)
    requires
        p1.inv(),
        p2.inv(),
        p2.parts() == p1.parts(),
        p2.position() == p1.position() + 1,
    ensures
        p2.remaining() =~= p1.remaining().subrange(1, p1.remaining().len() as int),
{
}

pub(crate) fn clone_strings(v: &[String]) -> (r: Vec<String>)
    ensures
        strings_view(r@) == strings_view(v@),
{
    let mut out: Vec<String> = Vec::new();
    let mut i: usize = 0;
    while i < v.len()
        invariant
            i <= v.len(),
            strings_view(out@) == strings_view(v@.subrange(0, i as int)),
        decreases v.len() - i,
    {
        let c = v[i].clone();
        let ghost before = out@;
        out.push(c);
        proof {
            assert(out@.drop_last() == before);
            assert(strings_view(out@) =~= strings_view(before).push(c@));
        }
        i += 1;
        assert(strings_view(out@) =~= strings_view(v@.subrange(0, i as int)));
    }
    assert(v@.subrange(0, v.len() as int) =~= v@);
    out
}

impl SetCmd {
    pub fn new(key: &str, value: Vec<u8>, expire: Option<u128>) -> (r: SetCmd)
        ensures
            r@ == (CommandV::SetCmd {
                key: key@,
                value: value@,
                expire: match expire {
                    Some(ms) => Some(ms as nat),
                    None => None,
                },
            }),
    {
        SetCmd { key: key.to_owned(), value, expire }
    }

    pub fn key(&self) -> (r: &str)
        ensures
            r@ == self@->SetCmd_key,
    {
        self.key.as_str()
    }

    pub fn value(&self) -> (r: &Vec<u8>)
        ensures
            r@ == self@->SetCmd_value,
    {
        &self.value
    }

    /// Hands over the key, the value and the time to live.
    pub fn into_parts(self) -> (r: (String, Vec<u8>, Option<u128>))
        ensures
            self@ == (CommandV::SetCmd {
                key: r.0@,
                value: r.1@,
                expire: match r.2 {
                    Some(ms) => Some(ms as nat),
                    None => None,
                },
            }),
    {
        (self.key, self.value, self.expire)
    }

    /// The time to live in milliseconds, if any.
    pub fn expire(&self) -> (r: Option<u128>)
        ensures
            self@->SetCmd_expire == match r {
                Some(ms) => Some(ms as nat),
                None => None::<nat>,
            },
    {
        self.expire
    }

    /// The time to live, in milliseconds, that an uppercased mode keyword
    /// (`EX` for seconds, `PX` for milliseconds) and the next argument give.
    pub fn expire_from_mode(mode: &str, parse: &mut Parse) -> (r: Result<u128, ParseError>)
        requires
            old(parse).inv(),
        ensures
            final(parse).inv(),
            final(parse).parts() == old(parse).parts(),
            match (r, mode_expire(mode@, old(parse).remaining())) {
                (Ok(ms), Ok((Some(want), used))) => ms as nat == want && final(parse).position()
                    == old(parse).position() + used,
                (Err(e1), Err(e2)) => e1 == e2,
                _ => false,
            },
    {
        if text_eq(mode, "EX") {
            let secs = parse.next_int()?;
            Ok(secs as u128 * 1000)
        } else if text_eq(mode, "PX") {
            let ms = parse.next_int()?;
            Ok(ms as u128)
        } else {
            Err(ParseError::Invalid)
        }
    }

    /// Reads the arguments of `SET`.
    pub fn parse_frames(parse: &mut Parse) -> (r: Result<SetCmd, ParseError>)
        requires
            old(parse).inv(),
        ensures
            parsed_as(
                match r {
                    Ok(c) => Ok(Command::SetCmd(c)),
                    Err(e) => Err(e),
                },
                set_args(old(parse).remaining()),
                *old(parse),
                *final(parse),
            ),
    {
        let ghost p0 = *parse;
        let key = parse.next_string()?;
        let ghost p1 = *parse;
        proof {
            lemma_shift(p0, p1);
        }
        let value = parse.next_bytes()?;
        let ghost p2 = *parse;
        proof {
            lemma_shift(p1, p2);
        }
        match parse.next_string() {
            Err(ParseError::EndOfStream) => Ok(SetCmd { key, value, expire: None }),
            Err(e) => Err(e),
            Ok(mode) => {
                let ghost p3 = *parse;
                proof {
                    lemma_shift(p2, p3);
                }
                let up = uppercase(mode.as_str());
                let ms = SetCmd::expire_from_mode(up.as_str(), parse)?;
                Ok(SetCmd { key, value, expire: Some(ms) })
            },
        }
    }

    /// The request frame `[set, key, value]`, followed by `px` and the
    /// milliseconds when a time to live is set.
    pub fn into_frame(self) -> (r: Frame)
        ensures
            r@ == FrameV::Array(
                seq![
                    FrameV::Bulk(encode_utf8("set"@)),
                    FrameV::Bulk(encode_utf8(self@->SetCmd_key)),
                    FrameV::Bulk(self@->SetCmd_value),
                ] + match self@->SetCmd_expire {
                    Some(ms) => seq![FrameV::Bulk(encode_utf8("px"@)), FrameV::Integer(ms as u64)],
                    None => Seq::empty(),
                },
            ),
    {
        let ghost head = seq![
            FrameV::Bulk(encode_utf8("set"@)),
            FrameV::Bulk(encode_utf8(self.key@)),
            FrameV::Bulk(self.value@),
        ];
        let mut f = command_array("set");
        f.push_bulk(text_bytes(self.key.as_str()));
        f.push_bulk(self.value);
        assert(f@->Array_0 =~= head);
        match self.expire {
            Some(ms) => {
                f.push_bulk(text_bytes("px"));
                f.push_int(ms as u64);
                assert(f@->Array_0 =~= head + seq![
                    FrameV::Bulk(encode_utf8("px"@)),
                    FrameV::Integer(ms as u64),
                ]);
            },
            None => {
                assert(f@->Array_0 =~= head + Seq::<FrameV>::empty());
            },
        }
        f
    }
}

impl Publish {
    pub fn new(channel: &str, message: Vec<u8>) -> (r: Publish)
        ensures
            r@ == (CommandV::Publish { channel: channel@, message: message@ }),
    {
        Publish { channel: channel.to_owned(), message }
    }

    pub fn channel(&self) -> (r: &str)
        ensures
            r@ == self@->Publish_channel,
    {
        self.channel.as_str()
    }

    /// Hands over the channel and the message.
    pub fn into_parts(self) -> (r: (String, Vec<u8>))
        ensures
            self@ == (CommandV::Publish { channel: r.0@, message: r.1@ }),
    {
        (self.channel, self.message)
    }

    pub fn message(&self) -> (r: &Vec<u8>)
        ensures
            r@ == self@->Publish_message,
    {
        &self.message
    }

    /// Reads the arguments of `PUBLISH`.
    pub fn parse_frames(parse: &mut Parse) -> (r: Result<Publish, ParseError>)
        requires
            old(parse).inv(),
        ensures
            parsed_as(
                match r {
                    Ok(c) => Ok(Command::Publish(c)),
                    Err(e) => Err(e),
                },
                publish_args(old(parse).remaining()),
                *old(parse),
                *final(parse),
            ),
    {
        let ghost p0 = *parse;
        let channel = parse.next_string()?;
        let ghost p1 = *parse;
        proof {
            lemma_shift(p0, p1);
        }
        let message = parse.next_bytes()?;
        Ok(Publish { channel, message })
    }

    /// The request frame `[publish, channel, message]`.
    pub fn into_frame(self) -> (r: Frame)
        ensures
            r@ == FrameV::Array(
                seq![
                    FrameV::Bulk(encode_utf8("publish"@)),
                    FrameV::Bulk(encode_utf8(self@->Publish_channel)),
                    FrameV::Bulk(self@->Publish_message),
                ],
            ),
    {
        let ghost want = seq![
            FrameV::Bulk(encode_utf8("publish"@)),
            FrameV::Bulk(encode_utf8(self.channel@)),
            FrameV::Bulk(self.message@),
        ];
        let mut f = command_array("publish");
        f.push_bulk(text_bytes(self.channel.as_str()));
        f.push_bulk(self.message);
        assert(f@->Array_0 =~= want);
        f
    }
}

impl Subscribe {
    pub fn new(channels: Vec<String>) -> (r: Subscribe)
        ensures
            r@ == (CommandV::Subscribe { channels: strings_view(channels@) }),
    {
        Subscribe { channels }
    }

    pub fn channels(&self) -> (r: &Vec<String>)
        ensures
            self@ == (CommandV::Subscribe { channels: strings_view(r@) }),
    {
        &self.channels
    }

    /// Hands over the channels.
    pub fn into_channels(self) -> (r: Vec<String>)
        ensures
            self@ == (CommandV::Subscribe { channels: strings_view(r@) }),
    {
        self.channels
    }

    /// Reads the arguments of `SUBSCRIBE`.
    pub fn parse_frames(parse: &mut Parse) -> (r: Result<Subscribe, ParseError>)
        requires
            old(parse).inv(),
        ensures
            parsed_as(
                match r {
                    Ok(c) => Ok(Command::Subscribe(c)),
                    Err(e) => Err(e),
                },
                subscribe_args(old(parse).remaining()),
                *old(parse),
                *final(parse),
            ),
    {
        let ghost args = parse.remaining();
        proof {
            lemma_strings_of_len(args);
        }
        let channels = parse_strings(parse)?;
        if channels.len() == 0 {
            return Err(ParseError::EndOfStream);
        }
        Ok(Subscribe { channels })
    }

    /// The request frame `[subscribe, channel, ...]`.
    pub fn into_frame(self) -> (r: Frame)
        ensures
            r@ == FrameV::Array(
                seq![FrameV::Bulk(encode_utf8("subscribe"@))] + bulk_texts(self@->Subscribe_channels),
            ),
    {
        let mut f = command_array("subscribe");
        push_texts(&mut f, &self.channels);
        f
    }
}

impl Unsubscribe {
    pub fn new(channels: &[String]) -> (r: Unsubscribe)
        ensures
            r@ == (CommandV::Unsubscribe { channels: strings_view(channels@) }),
    {
        Unsubscribe { channels: clone_strings(channels) }
    }

    pub fn channels(&self) -> (r: &Vec<String>)
        ensures
            self@ == (CommandV::Unsubscribe { channels: strings_view(r@) }),
    {
        &self.channels
    }

    /// Reads the arguments of `UNSUBSCRIBE`.
    pub fn parse_frames(parse: &mut Parse) -> (r: Result<Unsubscribe, ParseError>)
        requires
            old(parse).inv(),
        ensures
            parsed_as(
                match r {
                    Ok(c) => Ok(Command::Unsubscribe(c)),
                    Err(e) => Err(e),
                },
                unsubscribe_args(old(parse).remaining()),
                *old(parse),
                *final(parse),
            ),
    {
        let ghost args = parse.remaining();
        proof {
            lemma_strings_of_len(args);
        }
        let channels = parse_strings(parse)?;
        Ok(Unsubscribe { channels })
    }

    /// The request frame `[unsubscribe, channel, ...]`.
    pub fn into_frame(self) -> (r: Frame)
        ensures
            r@ == FrameV::Array(
                seq![FrameV::Bulk(encode_utf8("unsubscribe"@))] + bulk_texts(
                    self@->Unsubscribe_channels,
                ),
            ),
    {
        let mut f = command_array("unsubscribe");
        push_texts(&mut f, &self.channels);
        f
    }
}

impl Ping {
    pub fn new(msg: Option<Vec<u8>>) -> (r: Ping)
        ensures
            r@ == (CommandV::Ping {
                msg: match msg {
                    Some(m) => Some(m@),
                    None => None,
                },
            }),
    {
        Ping { msg }
    }

    /// Reads the arguments of `PING`.
    pub fn parse_frames(parse: &mut Parse) -> (r: Result<Ping, ParseError>)
        requires
            old(parse).inv(),
        ensures
            parsed_as(
                match r {
                    Ok(c) => Ok(Command::Ping(c)),
                    Err(e) => Err(e),
                },
                ping_args(old(parse).remaining()),
                *old(parse),
                *final(parse),
            ),
    {
        match parse.next_bytes() {
            Ok(msg) => Ok(Ping { msg: Some(msg) }),
            Err(ParseError::EndOfStream) => Ok(Ping { msg: None }),
            Err(e) => Err(e),
        }
    }

    /// The request frame `[ping]`, or `[ping, message]`.
    pub fn into_frame(self) -> (r: Frame)
        ensures
            r@ == FrameV::Array(
                seq![FrameV::Bulk(encode_utf8("ping"@))] + match self@->Ping_msg {
                    Some(m) => seq![FrameV::Bulk(m)],
                    None => Seq::empty(),
                },
            ),
    {
        let mut f = command_array("ping");
        let ghost head = f@->Array_0;
        match self.msg {
            Some(m) => {
                f.push_bulk(m);
                assert(f@->Array_0 =~= head + seq![FrameV::Bulk(self@->Ping_msg->0)]);
            },
            None => {
                assert(f@->Array_0 =~= head + Seq::<FrameV>::empty());
            },
        }
        f
    }

    /// The reply: `PONG`, or the message echoed back.
    pub fn response(self) -> (r: Frame)
        ensures
            r@ == match self@->Ping_msg {
                Some(m) => FrameV::Bulk(m),
                None => FrameV::Simple("PONG"@),
            },
    {
        match self.msg {
            Some(m) => Frame::Bulk(m),
            None => Frame::Simple("PONG".to_owned()),
        }
    }
}

impl Unknown {
    pub fn new(key: &str) -> (r: Unknown)
        ensures
            r@ == (CommandV::Unknown { name: key@ }),
    {
        Unknown { command_name: key.to_owned() }
    }

    pub fn get_name(&self) -> (r: &str)
        ensures
            r@ == self@->Unknown_name,
    {
        self.command_name.as_str()
    }

    /// The reply: an error that names the command.
    pub fn response(&self) -> (r: Frame)
        ensures
            r@ == FrameV::Error("ERR unknown command '"@ + self@->Unknown_name + "'"@),
    {
        let mut text = "ERR unknown command '".to_owned();
        text.append(self.command_name.as_str());
        text.append("'");
        Frame::Error(text)
    }
}

impl Command {
    /// Reads a command from its lowercased name and the parts after it.
    pub fn from_parts(name: &str, parse: &mut Parse) -> (r: Result<Command, ParseError>)
        requires
            old(parse).inv(),
        ensures
            match (r, command_of(name@, old(parse).remaining())) {
                (Ok(c), Ok(cv)) => c@ == cv,
                (Err(e1), Err(e2)) => e1 == e2,
                _ => false,
            },
    {
        let ghost args = parse.remaining();
        let command = if text_eq(name, "get") {
            Command::Get(Get::parse_frames(parse)?)
        } else if text_eq(name, "publish") {
            Command::Publish(Publish::parse_frames(parse)?)
        } else if text_eq(name, "set") {
            Command::SetCmd(SetCmd::parse_frames(parse)?)
        } else if text_eq(name, "subscribe") {
            Command::Subscribe(Subscribe::parse_frames(parse)?)
        } else if text_eq(name, "unsubscribe") {
            Command::Unsubscribe(Unsubscribe::parse_frames(parse)?)
        } else if text_eq(name, "ping") {
            Command::Ping(Ping::parse_frames(parse)?)
        } else {
            return Ok(Command::Unknown(Unknown::new(name)));
        };
        parse.finish()?;
        Ok(command)
    }

    /// Reads a command from a request frame.
    pub fn from_frame(frame: Frame) -> (r: Result<Command, ParseError>)
        ensures
            match (r, frame_command(frame@)) {
                (Ok(c), Ok(cv)) => c@ == cv,
                (Err(e1), Err(e2)) => e1 == e2,
                _ => false,
            },
    {
        let mut parse = Parse::new(frame)?;
        let ghost p0 = parse;
        let name = parse.next_string()?;
        proof {
            lemma_shift(p0, parse);
        }
        let lower = lowercase(name.as_str());
        Command::from_parts(lower.as_str(), &mut parse)
    }

    /// The lowercased name of the command.
    pub fn get_name(&self) -> (r: &str)
        ensures
            r@ == match self@ {
                CommandV::Get { .. } => "get"@,
                CommandV::Publish { .. } => "publish"@,
                CommandV::SetCmd { .. } => "set"@,
                CommandV::Subscribe { .. } => "subscribe"@,
                CommandV::Unsubscribe { .. } => "unsubscribe"@,
                CommandV::Ping { .. } => "ping"@,
                CommandV::Unknown { name } => name,
            },
    {
        match self {
            Command::Get(_) => "get",
            Command::Publish(_) => "publish",
            Command::SetCmd(_) => "set",
            Command::Subscribe(_) => "subscribe",
            Command::Unsubscribe(_) => "unsubscribe",
            Command::Ping(_) => "ping",
            Command::Unknown(cmd) => cmd.get_name(),
        }
    }
}

} // verus!
