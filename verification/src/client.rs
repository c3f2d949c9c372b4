//! What the command-line client decides: its configuration, how it reads a typed line and how
//! it shows a received message.
use vstd::prelude::*;
use vstd::utf8::*;
use vstd::string::StringSliceAdditionalSpecFns;
use crate::layer::{first_index, lemma_first_index_exists};
use crate::peer::PeerId;
use crate::protocol::ChatMessage;

verus! {

/// Configuration of the chat behaviour.
#[derive(Debug, Clone)]
pub struct ChatConfig {
    /// Peer id of the local node. Used for the source of the messages that we publish.
    pub local_peer_id: PeerId,
    /// `true` if messages published by local node should be propagated as messages received from
    /// the network, `false` by default.
    pub subscribe_local_messages: bool,
}

impl ChatConfig {
    /// The default configuration for the node `local_peer_id`: local messages are not
    /// propagated back.
    pub fn new(local_peer_id: PeerId) -> (r: ChatConfig)
        ensures
            r.local_peer_id@ == local_peer_id@,
            !r.subscribe_local_messages,
    {
        ChatConfig { local_peer_id, subscribe_local_messages: false }
    }
}

/// The byte of `@`, which starts a line addressed to one user.
pub const AT: u8 = 64;

/// The byte of a space, which ends the name of the addressee.
pub const SPACE: u8 = 32;

/// `s` without the bytes `b` it starts with.
pub open spec fn strip_leading(s: Seq<u8>, b: u8) -> Seq<u8>
    decreases s.len(),
{
    if s.len() > 0 && s[0] == b {
        strip_leading(s.drop_first(), b)
    } else {
        s
    }
}

/// How a typed line reads, on its UTF-8 bytes: a line that starts with `@` is addressed to the
/// name that follows, up to the first space and without its leading `@`s, and its message is
/// what follows that space (nothing if there is none); any other line is a message to all.
pub open spec fn spec_parse_line(line: Seq<u8>) -> (Option<Seq<u8>>, Seq<u8>) {
    if line.len() > 0 && line[0] == AT {
        if line.contains(SPACE) {
            let i = first_index(line, SPACE);
            (Some(strip_leading(line.take(i), AT)), line.skip(i + 1))
        } else {
            (Some(strip_leading(line, AT)), Seq::empty())
        }
    } else {
        (None, line)
    }
}

/// In valid UTF-8, a byte below 128 is a character of its own: there are boundaries of
/// characters right before it and right after it.
pub proof fn lemma_ascii_boundary(bytes: Seq<u8>, k: int)
    requires
        valid_utf8(bytes),
        0 <= k < bytes.len(),
        bytes[k] < 128,
    ensures
        is_char_boundary(bytes, k),
        is_char_boundary(bytes, k + 1),
    decreases bytes.len(),
{
    let l = length_of_first_scalar(bytes);
    let rest = pop_first_scalar(bytes);
    assert(valid_first_scalar(bytes));
    assert(valid_utf8(rest));
    assert(1 <= l <= 4 && l <= bytes.len());
    assert(rest.len() == bytes.len() - l);
    if k == 0 {
        assert(l == 1);
        assert(is_char_boundary(rest, 0));
    } else if l <= k {
        assert(rest[k - l] == bytes[k]);
        lemma_ascii_boundary(rest, k - l);
    } else {
        assert(is_continuation_byte(bytes[k]));
    }
}

/// Splits `s` after its first byte, which is below 128.
fn after_first(s: &str) -> (r: &str)
    requires
        s.spec_bytes().len() > 0,
        s.spec_bytes()[0] < 128,
    ensures
        r.spec_bytes() == s.spec_bytes().drop_first(),
{
    proof {
        encode_utf8_valid_utf8(s@);
        lemma_ascii_boundary(s.spec_bytes(), 0);
    }
    let (_, rest) = s.split_at(1);
    assert(rest.spec_bytes() =~= s.spec_bytes().drop_first());
    rest
}

/// `s` without the `@`s it starts with.
fn trim_leading_at(s: &str) -> (r: &str)
    ensures
        r.spec_bytes() == strip_leading(s.spec_bytes(), AT),
{
    let mut r = s;
    loop
        invariant
            strip_leading(r.spec_bytes(), AT) == strip_leading(s.spec_bytes(), AT),
        decreases r.spec_bytes().len(),
    {
        let b = r.as_bytes();
        if b.len() == 0 || b[0] != AT {
            return r;
        }
        r = after_first(r);
    }
}

/// Reads a typed line: the name it is addressed to, if it starts with `@`, and the message.
pub fn parse_input_line<'a>(line: &'a str) -> (r: (Option<&'a str>, &'a str))
    ensures
        (match r.0 {
            Some(n) => Some(n.spec_bytes()),
            None => None::<Seq<u8>>,
        }, r.1.spec_bytes()) == spec_parse_line(line.spec_bytes()),
        !(line.spec_bytes().len() > 0 && line.spec_bytes()[0] == AT) ==> r.0 is None && r.1@ == line@,
{
    let bytes = line.as_bytes();
    let ghost b = line.spec_bytes();
    if bytes.len() == 0 || bytes[0] != AT {
        return (None, line);
    }
    let mut i: usize = 0;
    while i < bytes.len() && bytes[i] != SPACE
        invariant
            bytes@ == b,
            i <= b.len(),
            forall|j: int| 0 <= j < i ==> b[j] != SPACE,
        decreases b.len() - i,
    {
        i += 1;
    }
    if i < bytes.len() {
        proof {
            encode_utf8_valid_utf8(line@);
            lemma_ascii_boundary(b, i as int);
            lemma_first_index_exists(b, SPACE);
            assert(b.contains(SPACE));
            let f = first_index(b, SPACE);
            assert(f == i as int) by {
                if f < i {
                    assert(b[f] != SPACE);
                }
                if f > i {
                    assert(b[i as int] != SPACE);
                }
            }
        }
        let (name, rest) = line.split_at(i);
        let msg = after_first(rest);
        proof {
            assert(name.spec_bytes() =~= b.take(i as int));
            assert(msg.spec_bytes() =~= b.skip(i + 1));
        }
        (Some(trim_leading_at(name)), msg)
    } else {
        let empty = "";
        proof {
            reveal_strlit("");
            assert(!b.contains(SPACE));
            assert(empty.spec_bytes() =~= Seq::<u8>::empty());
        }
        (Some(trim_leading_at(line)), empty)
    }
}

/// Text from bytes, with each invalid sequence replaced by U+FFFD.
pub uninterp spec fn utf8_lossy(bytes: Seq<u8>) -> Seq<char>;

/// `String::from_utf8_lossy`: the text of `bytes`, which depends on the bytes alone, and is
/// their decoding when they are valid UTF-8.
#[verifier::external_body]
fn text_from_utf8_lossy(bytes: &[u8]) -> (r: String)
    ensures
        r@ == utf8_lossy(bytes@),
        valid_utf8(bytes@) ==> r@ == decode_utf8(bytes@),
{
    String::from_utf8_lossy(bytes).into_owned()
}

/// Who a message is shown as addressed to: its addressee, or `all`.
pub open spec fn spec_addressee(to_name: Option<Seq<char>>) -> Seq<char> {
    match to_name {
        Some(n) => n,
        None => "all"@,
    }
}

/// A line shown for a message from `source_name` to `to_name` with text `text`:
/// `<from> -> <to>: <text>`.
pub open spec fn spec_line(source_name: Seq<char>, to_name: Option<Seq<char>>, text: Seq<char>) -> Seq<char> {
    source_name + " -> "@ + spec_addressee(to_name) + ": "@ + text
}

/// The line shown for a received message, its data decoded as text.
pub open spec fn spec_display_line(m: crate::protocol::ChatMessageModel) -> Seq<char> {
    spec_line(m.source_name, m.to_name, utf8_lossy(m.data))
}

pub open spec fn opt_text_view(o: Option<&str>) -> Option<Seq<char>> {
    match o {
        Some(s) => Some(s@),
        None => None,
    }
}

/// Builds the line shown for a message from `source_name` to `to_name` (everyone when
/// `None`) whose data reads as `text`.
pub fn format_line(source_name: &str, to_name: Option<&str>, text: &str) -> (r: String)
    ensures
        r@ == spec_line(source_name@, opt_text_view(to_name), text@),
{
    let mut out = source_name.to_owned();
    out.append(" -> ");
    match to_name {
        Some(n) => out.append(n),
        None => out.append("all"),
    }
    out.append(": ");
    out.append(text);
    proof {
        reveal_strlit(" -> ");
        reveal_strlit(": ");
        reveal_strlit("all");
    }
    assert(out@ =~= spec_line(source_name@, opt_text_view(to_name), text@));
    out
}

/// The line shown for a received message.
pub fn display_line(message: &ChatMessage) -> (r: String)
    ensures
        r@ == spec_display_line(message@),
        valid_utf8(message@.data) ==> r@ == message@.source_name + " -> "@ + spec_addressee(
            message@.to_name,
        ) + ": "@ + decode_utf8(message@.data),
{
    let text = text_from_utf8_lossy(message.data.as_slice());
    let to_name = match &message.to_name {
        Some(n) => Some(n.as_str()),
        None => None,
    };
    format_line(message.source_name.as_str(), to_name, text.as_str())
}

/// The name of the topic of the user `name` in the floodsub chat: `chat_` and the name.
pub fn chat_topic_name(name: &str) -> (r: String)
    ensures
        r@ == "chat_"@ + name@,
{
    let mut out = "chat_".to_owned();
    out.append(name);
    out
}

/// The name of the public topic in the floodsub chat.
pub fn public_topic_name() -> (r: String)
    ensures
        r@ == "chat_"@ + "public"@,
{
    chat_topic_name("public")
}


/// The topic every client of the chat publishes to and subscribes to.
pub fn chat_topic() -> (r: crate::topic::Topic)
    ensures
        r@ == "chat"@,
{
    crate::topic::Topic::new("chat".to_owned())
}

/// The address to listen on: the one given, or any IPv4 address on a port the system picks.
pub fn listen_address<'a>(listen_addr: Option<&'a str>) -> (r: &'a str)
    ensures
        r@ == match listen_addr {
            Some(a) => a@,
            None => "/ip4/0.0.0.0/tcp/0"@,
        },
{
    match listen_addr {
        None => "/ip4/0.0.0.0/tcp/0",
        Some(v) => v,
    }
}

#[verifier::external_type_specification]
#[verifier::external_body]
pub struct ExMultiaddr(libp2p::Multiaddr);

#[verifier::external_type_specification]
#[verifier::external_body]
pub struct ExMultiaddrError(libp2p::multiaddr::Error);

/// Whether `Multiaddr::from_str` accepts the text, which depends on the text alone.
pub uninterp spec fn multiaddr_parses(s: Seq<char>) -> bool;

/// `Multiaddr::from_str`: the address that the text spells, or the error that it does not;
/// text that is not empty and does not start with `/` is refused. Which address comes out,
/// and which error, is not stated: both types are opaque here.
#[verifier::external_body]
fn parse_multiaddr(s: &str) -> (r: Result<libp2p::Multiaddr, libp2p::multiaddr::Error>)
    ensures
        r is Ok <==> multiaddr_parses(s@),
        s@.len() > 0 && s@[0] != '/' ==> r is Err,
{
    s.parse()
}

/// The address to dial, read from the text given for it.
pub fn dial_address(to_dial: &str) -> (r: Result<libp2p::Multiaddr, libp2p::multiaddr::Error>)
    ensures
        r is Ok <==> multiaddr_parses(to_dial@),
        to_dial@.len() > 0 && to_dial@[0] != '/' ==> r is Err,
{
    parse_multiaddr(to_dial)
}

/// The address to listen on, read from the text given for it, or any IPv4 address on a port
/// the system picks.
pub fn listen_multiaddr(listen_addr: Option<&str>) -> (r: Result<
    libp2p::Multiaddr,
    libp2p::multiaddr::Error,
>)
    ensures
        r is Ok <==> multiaddr_parses(
            match listen_addr {
                Some(a) => a@,
                None => "/ip4/0.0.0.0/tcp/0"@,
            },
        ),
        listen_addr matches Some(a) && a@.len() > 0 && a@[0] != '/' ==> r is Err,
{
    parse_multiaddr(listen_address(listen_addr))
}

/// What the floodsub chat does with a typed line.
#[derive(Debug)]
pub enum FloodsubSend<'a> {
    /// Publish `msg` on `topic`, whether or not we are subscribed to it.
    Private { topic: String, msg: &'a str },
    /// Publish `msg` on the public topic.
    Public { msg: &'a str },
    /// A line addressed to a user with no message: nothing is sent.
    Nothing,
}

/// What the floodsub chat does with a typed line, on its UTF-8 bytes: a line that starts with
/// `@` and holds a space goes, with what follows that space, to the topic of the user named
/// before it; one that starts with `@` and holds no space is dropped; any other line goes to
/// the public topic.
pub open spec fn spec_floodsub_plan(line: Seq<u8>) -> (Option<Seq<char>>, Option<Seq<u8>>) {
    if line.len() > 0 && line[0] == AT {
        if line.contains(SPACE) {
            let i = first_index(line, SPACE);
            (Some("chat_"@ + decode_utf8(strip_leading(line.take(i), AT))), Some(line.skip(i + 1)))
        } else {
            (None, None)
        }
    } else {
        (None, Some(line))
    }
}

/// Decides what the floodsub chat does with a typed line.
pub fn floodsub_plan<'a>(line: &'a str) -> (r: FloodsubSend<'a>)
    ensures
        match r {
            FloodsubSend::Private { topic, msg } => spec_floodsub_plan(line.spec_bytes()) == (
            Some(topic@), Some(msg.spec_bytes())),
            FloodsubSend::Public { msg } => spec_floodsub_plan(line.spec_bytes()) == (
            None::<Seq<char>>, Some(msg.spec_bytes())),
            FloodsubSend::Nothing => spec_floodsub_plan(line.spec_bytes()) == (
            None::<Seq<char>>, None::<Seq<u8>>),
        },
        !(line.spec_bytes().len() > 0 && line.spec_bytes()[0] == AT) ==> (r matches FloodsubSend::Public {
            msg,
        } && msg@ == line@),
{
    let ghost b = line.spec_bytes();
    let bytes = line.as_bytes();
    if bytes.len() == 0 || bytes[0] != AT {
        // Send a public message.
        proof {
            law_plain_line_goes_to_all(b);
        }
        return FloodsubSend::Public { msg: line };
    }
    let mut i: usize = 0;
    while i < bytes.len() && bytes[i] != SPACE
        invariant
            bytes@ == b,
            i <= b.len(),
            forall|j: int| 0 <= j < i ==> b[j] != SPACE,
        decreases b.len() - i,
    {
        i += 1;
    }
    if i == bytes.len() {
        assert(!b.contains(SPACE));
        return FloodsubSend::Nothing;
    }
    // Send a private message.
    let (name, msg) = parse_input_line(line);
    proof {
        assert(b.contains(SPACE));
    }
    match name {
        Some(n) => {
            proof {
                encode_utf8_decode_utf8(n@);
            }
            FloodsubSend::Private { topic: chat_topic_name(n), msg }
        },
        None => {
            assert(false);
            FloodsubSend::Nothing
        },
    }
}


/// A line that does not start with `@` goes whole to everyone: the client reads it as a message
/// to all, and the floodsub chat publishes all of it on the public topic.
pub proof fn law_plain_line_goes_to_all(line: Seq<u8>)
    requires
        !(line.len() > 0 && line[0] == AT),
    ensures
        spec_parse_line(line) == (None::<Seq<u8>>, line),
        spec_floodsub_plan(line) == (None::<Seq<char>>, Some(line)),
{
}

/// A line `@name rest`, with a name that holds no space and does not start with `@`, is read as
/// `rest` addressed to `name`, and the floodsub chat sends `rest` on the topic of `name`.
pub proof fn law_addressed_line(name: Seq<u8>, rest: Seq<u8>)
    requires
        !name.contains(SPACE),
        name.len() == 0 || name[0] != AT,
    ensures
        spec_parse_line(seq![AT] + name + seq![SPACE] + rest) == (Some(name), rest),
        spec_floodsub_plan(seq![AT] + name + seq![SPACE] + rest) == (
            Some("chat_"@ + decode_utf8(name)),
            Some(rest),
        ),
{
    let line = seq![AT] + name + seq![SPACE] + rest;
    let i: int = name.len() as int + 1;
    assert(line[i] == SPACE);
    assert forall|j: int| 0 <= j < i implies line[j] != SPACE by {
        if j > 0 {
            assert(line[j] == name[j - 1]);
        }
    }
    crate::layer::lemma_first_index(line, SPACE, i);
    assert(line.contains(SPACE));
    assert(line.take(i) =~= seq![AT] + name);
    assert(line.skip(i + 1) =~= rest);
    assert((seq![AT] + name).drop_first() =~= name);
    assert(strip_leading(name, AT) == name);
}

} // verus!
