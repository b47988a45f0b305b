//! The peer wire protocol's messages: a big-endian length, a type byte and a
//! payload; a zero length is a keep-alive.

use crate::decode::{be_bytes, be_u32, push_be_u32};
use crate::text::{all_ascii, ascii_chars, decimal, decimal_text, string_from_ascii};
use vstd::string::StringExecFns;
use vstd::prelude::*;

pub mod location;
pub mod piece;
pub mod request;

use location::{location_bytes, location_text, Location};
use piece::spec_piece;
use request::{request_bytes, request_text, spec_request};

verus! {

/// A message between peers.
#[derive(Debug, PartialEq, Eq)]
pub enum Message {
    Choke,
    Unchoke,
    Interested,
    NotInterested,
    Have(u32),
    Bitfield(Vec<u8>),
    Request(request::Request),
    Piece(piece::Piece),
    Cancel(request::Request),
}

/// What a message says.
pub enum MessageView {
    Choke,
    Unchoke,
    Interested,
    NotInterested,
    Have(u32),
    Bitfield(Seq<u8>),
    Request(request::Request),
    Piece(Location, Seq<u8>),
    Cancel(request::Request),
}

impl View for Message {
    type V = MessageView;

    open spec fn view(&self) -> MessageView {
        match self {
            Message::Choke => MessageView::Choke,
            Message::Unchoke => MessageView::Unchoke,
            Message::Interested => MessageView::Interested,
            Message::NotInterested => MessageView::NotInterested,
            Message::Have(x) => MessageView::Have(*x),
            Message::Bitfield(b) => MessageView::Bitfield(b@),
            Message::Request(r) => MessageView::Request(*r),
            Message::Piece(p) => MessageView::Piece(p.location, p.piece@),
            Message::Cancel(r) => MessageView::Cancel(*r),
        }
    }
}

/// The ASCII digits `0` and `1` of the bits of a byte, the most significant
/// first.
pub open spec fn byte_bits(b: u8) -> Seq<u8> {
    Seq::new(8, |k: int| (48 + ((b >> (7 - k) as u8) & 1u8)) as u8)
}

/// The bits of all the bytes, as ASCII `0` and `1`.
pub open spec fn bits_text(s: Seq<u8>) -> Seq<u8>
    decreases s.len(),
{
    if s.len() == 0 {
        seq![]
    } else {
        bits_text(s.drop_last()) + byte_bits(s.last())
    }
}

/// The text of the bits is ASCII.
proof fn lemma_bits_text_ascii(s: Seq<u8>)
    ensures
        all_ascii(bits_text(s)),
    decreases s.len(),
{
    if s.len() > 0 {
        lemma_bits_text_ascii(s.drop_last());
        let p = bits_text(s.drop_last());
        let q = byte_bits(s.last());
        assert forall|i: int| 0 <= i < (p + q).len() implies #[trigger] (p + q)[i] < 128 by {
            if i < p.len() {
                assert((p + q)[i] == p[i]);
            } else {
                let b = s.last();
                let k = (i - p.len()) as u8;
                assert((b >> (7 - k) as u8) & 1u8 <= 1) by (bit_vector);
            }
        }
    }
}

/// The bits of a bitfield as `0`s and `1`s, each byte's most significant
/// bit first.
pub fn show_bitfield(bitfield: &Vec<u8>) -> (s: String)
    ensures
        s@ == ascii_chars(bits_text(bitfield@)),
{
    let mut out: Vec<u8> = Vec::new();
    let mut i: usize = 0;
    while i < bitfield.len()
        invariant
            i <= bitfield@.len(),
            out@ == bits_text(bitfield@.take(i as int)),
        decreases bitfield@.len() - i,
    {
        let byte = bitfield[i];
        let ghost start = out@;
        let mut k: u8 = 0;
        while k < 8
            invariant
                k <= 8,
                out@ == start + byte_bits(byte).take(k as int),
            decreases 8 - k,
        {
            let shift: u8 = 7 - k;
            let bit: u8 = (byte >> shift) & 1;
            assert(bit <= 1) by (bit_vector)
                requires
                    bit == (byte >> shift) & 1,
            ;
            out.push(48 + bit);
            k = k + 1;
            proof {
                assert(out@ =~= start + byte_bits(byte).take(k as int));
            }
        }
        proof {
            assert(byte_bits(byte).take(8) =~= byte_bits(byte));
            assert(bitfield@.take(i + 1).drop_last() =~= bitfield@.take(i as int));
        }
        i = i + 1;
    }
    proof {
        assert(bitfield@.take(bitfield@.len() as int) =~= bitfield@);
        lemma_bits_text_ascii(bitfield@);
    }
    string_from_ascii(out.as_slice())
}

/// `n` reduced to 32 bits, as `n as u32` does.
pub fn truncate_u32(n: usize) -> (r: u32)
    ensures
        r == n as int % 4294967296,
{
    let r = n as u32;
    assert(r as u64 == (n as u64) % 0x1_0000_0000u64) by (bit_vector)
        requires
            r == n as u32,
    ;
    r
}

/// The length field of a message whose payload after the type byte has
/// `len` bytes: `len` reduced to 32 bits, plus one.
pub open spec fn length_field(len: int) -> u32 {
    ((len % 4294967296) + 1) as u32
}

/// The bytes of a message: the four-byte length field, the type byte and
/// the payload. The four messages without payload are written with a length
/// field of 0.
pub open spec fn message_bytes(m: MessageView) -> Seq<u8> {
    match m {
        MessageView::Choke => be_bytes(0) + seq![0u8],
        MessageView::Unchoke => be_bytes(0) + seq![1u8],
        MessageView::Interested => be_bytes(0) + seq![2u8],
        MessageView::NotInterested => be_bytes(0) + seq![3u8],
        MessageView::Have(x) => be_bytes(5) + seq![4u8] + be_bytes(x),
        MessageView::Bitfield(b) => be_bytes(length_field(b.len() as int)) + seq![5u8] + b,
        MessageView::Request(r) => be_bytes(13) + seq![6u8] + request_bytes(r),
        MessageView::Piece(l, b) => be_bytes(length_field(8 + b.len() as int)) + seq![7u8]
            + location_bytes(l) + b,
        MessageView::Cancel(r) => be_bytes(13) + seq![8u8] + request_bytes(r),
    }
}

/// Whether the length field of `m` can be written: it is one more than its
/// payload's length reduced to 32 bits, which must not be `u32::MAX` already.
pub open spec fn encodable(m: MessageView) -> bool {
    match m {
        MessageView::Bitfield(b) => b.len() % 4294967296 < 4294967295,
        MessageView::Piece(_, b) => b.len() + 8 <= usize::MAX && (b.len() + 8) % 4294967296
            < 4294967295,
        _ => true,
    }
}

impl Message {
    /// Whether this message can be encoded: see [`encodable`].
    pub fn is_encodable(&self) -> (r: bool)
        ensures
            r == encodable(self@),
    {
        match self {
            Message::Bitfield(bytes) => (truncate_u32(bytes.len()) as u64) < 4294967295,
            Message::Piece(piece) => {
                let n = piece.piece.len();
                if n > usize::MAX - 8 {
                    false
                } else {
                    (truncate_u32(n + 8) as u64) < 4294967295
                }
            },
            _ => true,
        }
    }

    /// The bytes of this message.
    pub fn encode(&self) -> (r: Vec<u8>)
        requires
            encodable(self@),
        ensures
            r@ == message_bytes(self@),
    {
        let mut out: Vec<u8> = Vec::new();
        match self {
            Message::Choke => {
                push_be_u32(&mut out, 0);
                out.push(0);
            },
            Message::Unchoke => {
                push_be_u32(&mut out, 0);
                out.push(1);
            },
            Message::Interested => {
                push_be_u32(&mut out, 0);
                out.push(2);
            },
            Message::NotInterested => {
                push_be_u32(&mut out, 0);
                out.push(3);
            },
            Message::Have(x) => {
                push_be_u32(&mut out, 5);
                out.push(4);
                push_be_u32(&mut out, *x);
            },
            Message::Bitfield(bytes) => {
                push_be_u32(&mut out, truncate_u32(bytes.len()) + 1);
                out.push(5);
                crate::bencode::push_all(&mut out, bytes);
            },
            Message::Request(request) => {
                push_be_u32(&mut out, 13);
                out.push(6);
                let bytes = request.encode();
                crate::bencode::push_all(&mut out, &bytes);
            },
            Message::Piece(piece) => {
                let bytes = piece.encode();
                push_be_u32(&mut out, truncate_u32(bytes.len()) + 1);
                out.push(7);
                crate::bencode::push_all(&mut out, &bytes);
            },
            Message::Cancel(request) => {
                push_be_u32(&mut out, 13);
                out.push(8);
                let bytes = request.encode();
                crate::bencode::push_all(&mut out, &bytes);
            },
        }
        proof {
            assert(out@ =~= message_bytes(self@));
        }
        out
    }
}

/// Why a message could not be read.
#[derive(Debug, Clone, Copy, PartialEq, Eq, Structural)]
pub enum Error {
    NoLength,
    NotEnoughBytes,
    NotValidType,
    Have,
    Request(request::Error),
    Piece(piece::Error),
    Cancel(request::Error),
}

/// What was read: a message, or a keep-alive.
#[derive(Debug, PartialEq, Eq)]
pub enum Action {
    Message(Message),
    KeepAlive,
}

/// What was read, as a value.
pub enum ActionView {
    Message(MessageView),
    KeepAlive,
}

impl View for Action {
    type V = ActionView;

    open spec fn view(&self) -> ActionView {
        match self {
            Action::Message(m) => ActionView::Message(m@),
            Action::KeepAlive => ActionView::KeepAlive,
        }
    }
}

/// What the type byte `kind` and the `payload` after it make.
pub open spec fn spec_payload(kind: u8, payload: Seq<u8>) -> Result<MessageView, Error> {
    if kind == 0 {
        Ok(MessageView::Choke)
    } else if kind == 1 {
        Ok(MessageView::Unchoke)
    } else if kind == 2 {
        Ok(MessageView::Interested)
    } else if kind == 3 {
        Ok(MessageView::NotInterested)
    } else if kind == 4 {
        if payload.len() < 4 {
            Err(Error::Have)
        } else {
            Ok(MessageView::Have(be_u32(payload) as u32))
        }
    } else if kind == 5 {
        Ok(MessageView::Bitfield(payload))
    } else if kind == 6 {
        match spec_request(payload) {
            Ok(r) => Ok(MessageView::Request(r)),
            Err(e) => Err(Error::Request(e)),
        }
    } else if kind == 7 {
        match spec_piece(payload) {
            Ok((l, b)) => Ok(MessageView::Piece(l, b)),
            Err(e) => Err(Error::Piece(e)),
        }
    } else if kind == 8 {
        match spec_request(payload) {
            Ok(r) => Ok(MessageView::Cancel(r)),
            Err(e) => Err(Error::Cancel(e)),
        }
    } else {
        Err(Error::NotValidType)
    }
}

/// What reading a message from the front of `s` gives: how many bytes it
/// takes and what it is. A length field of 0 is a keep-alive; otherwise that
/// many bytes must follow it: the type byte and the payload.
#[verifier::opaque]
pub open spec fn spec_message(s: Seq<u8>) -> Result<(int, ActionView), Error> {
    if s.len() < 4 {
        Err(Error::NoLength)
    } else {
        let n = be_u32(s);
        let t = s.skip(4);
        if n == 0 {
            Ok((4, ActionView::KeepAlive))
        } else if t.len() < n {
            Err(Error::NotEnoughBytes)
        } else {
            match spec_payload(t[0], t.subrange(1, n)) {
                Ok(m) => Ok((4 + n, ActionView::Message(m))),
                Err(e) => Err(e),
            }
        }
    }
}

/// Reads a message from the front of `input` and returns the rest with it.
pub fn try_parse(input: &[u8]) -> (r: Result<(&[u8], Action), Error>)
    ensures
        match spec_message(input@) {
            Ok((n, a)) => r matches Ok((rest, action)) && rest@ == input@.skip(n) && action@ == a,
            Err(e) => r == Err::<(&[u8], Action), Error>(e),
        },
{
    reveal(spec_message);
    let (input2, n) = match crate::decode::u32(input) {
        Some(x) => x,
        None => return Err(Error::NoLength),
    };
    if n == 0 {
        return Ok((input2, Action::KeepAlive));
    }
    if input2.len() < n as usize {
        return Err(Error::NotEnoughBytes);
    }
    let payload = &input2[1..n as usize];
    let message = match input2[0] {
        0 => Message::Choke,
        1 => Message::Unchoke,
        2 => Message::Interested,
        3 => Message::NotInterested,
        4 => match crate::decode::u32(payload) {
            Some((_, x)) => Message::Have(x),
            None => return Err(Error::Have),
        },
        5 => Message::Bitfield(vstd::slice::slice_to_vec(payload)),
        6 => match request::try_parse(payload) {
            Ok(x) => Message::Request(x),
            Err(e) => return Err(Error::Request(e)),
        },
        7 => match piece::try_parse(payload) {
            Ok(x) => Message::Piece(x),
            Err(e) => return Err(Error::Piece(e)),
        },
        8 => match request::try_parse(payload) {
            Ok(x) => Message::Cancel(x),
            Err(e) => return Err(Error::Cancel(e)),
        },
        _ => return Err(Error::NotValidType),
    };
    proof {
        assert(input@.skip(4).skip(n as int) =~= input@.skip(4 + n));
    }
    Ok((&input2[n as usize..input2.len()], Action::Message(message)))
}

/// Whether a message is read back as itself from its bytes: the messages
/// without payload are written with a length of 0, which reads as a
/// keep-alive, and the length of any other payload must fit in 32 bits.
pub open spec fn reads_back(m: MessageView) -> bool {
    match m {
        MessageView::Choke | MessageView::Unchoke | MessageView::Interested
        | MessageView::NotInterested => false,
        MessageView::Bitfield(b) => b.len() + 1 < 4294967296,
        MessageView::Piece(_, b) => b.len() + 9 < 4294967296,
        _ => true,
    }
}

/// The bytes of a message with a type byte `kind` and a `payload` of fewer
/// than `u32::MAX` bytes, followed by anything, are read as that type byte and
/// payload.
proof fn lemma_framed(kind: u8, payload: Seq<u8>, rest: Seq<u8>)
    requires
        payload.len() + 1 < 4294967296,
    ensures
        ({
            let s = be_bytes((payload.len() + 1) as u32) + seq![kind] + payload + rest;
            &&& s.len() >= 4
            &&& be_u32(s) == payload.len() + 1
            &&& s.skip(4).len() >= payload.len() + 1
            &&& s.skip(4)[0] == kind
            &&& s.skip(4).subrange(1, payload.len() as int + 1) == payload
        }),
{
    let n = (payload.len() + 1) as u32;
    let t = seq![kind] + payload + rest;
    let s = be_bytes(n) + seq![kind] + payload + rest;
    assert(s =~= be_bytes(n) + t);
    crate::decode::lemma_be_bytes(n, t);
    assert(s.skip(4) == t);
    assert(t[0] == kind);
    assert(t.subrange(1, payload.len() as int + 1) =~= payload);
}

/// A framed payload that `spec_payload` reads as `m` is read back as `m`.
proof fn lemma_framed_message(kind: u8, payload: Seq<u8>, rest: Seq<u8>, m: MessageView)
    requires
        payload.len() + 1 < 4294967296,
        spec_payload(kind, payload) == Ok::<MessageView, Error>(m),
    ensures
        spec_message(be_bytes((payload.len() + 1) as u32) + seq![kind] + payload + rest) == Ok::<
            (int, ActionView),
            Error,
        >((payload.len() as int + 5, ActionView::Message(m))),
{
    reveal(spec_message);
    lemma_framed(kind, payload, rest);
}

/// A message with a payload, followed by anything, is read back as itself.
proof fn lemma_payload_message(kind: u8, payload: Seq<u8>, rest: Seq<u8>, m: MessageView)
    requires
        reads_back(m),
        payload.len() + 1 < 4294967296,
        spec_payload(kind, payload) == Ok::<MessageView, Error>(m),
        message_bytes(m) == be_bytes((payload.len() + 1) as u32) + seq![kind] + payload,
    ensures
        spec_message(message_bytes(m) + rest) == Ok::<(int, ActionView), Error>(
            (message_bytes(m).len() as int, ActionView::Message(m)),
        ),
{
    lemma_framed_message(kind, payload, rest, m);
}

proof fn lemma_have_reads_back(x: u32, m: MessageView, rest: Seq<u8>)
    requires
        m == MessageView::Have(x),
    ensures
        spec_message(message_bytes(m) + rest) == Ok::<(int, ActionView), Error>(
            (message_bytes(m).len() as int, ActionView::Message(m)),
        ),
{
    crate::decode::lemma_be_bytes(x, seq![]);
    assert(be_bytes(x) + seq![] =~= be_bytes(x));
    assert(spec_payload(4, be_bytes(x)) == Ok::<MessageView, Error>(m));
    assert(message_bytes(m) =~= be_bytes(5) + seq![4u8] + be_bytes(x));
    lemma_payload_message(4, be_bytes(x), rest, m);
}

proof fn lemma_bitfield_reads_back(b: Seq<u8>, m: MessageView, rest: Seq<u8>)
    requires
        m == MessageView::Bitfield(b),
        reads_back(m),
    ensures
        spec_message(message_bytes(m) + rest) == Ok::<(int, ActionView), Error>(
            (message_bytes(m).len() as int, ActionView::Message(m)),
        ),
{
    assert(length_field(b.len() as int) == (b.len() + 1) as u32);
    lemma_payload_message(5, b, rest, m);
}

proof fn lemma_request_reads_back(kind: u8, r: request::Request, m: MessageView, rest: Seq<u8>)
    requires
        (kind == 6 && m == MessageView::Request(r)) || (kind == 8 && m == MessageView::Cancel(r)),
    ensures
        spec_message(message_bytes(m) + rest) == Ok::<(int, ActionView), Error>(
            (message_bytes(m).len() as int, ActionView::Message(m)),
        ),
{
    request::lemma_request_bytes(r, seq![]);
    assert(request_bytes(r) + seq![] =~= request_bytes(r));
    assert(spec_payload(kind, request_bytes(r)) == Ok::<MessageView, Error>(m));
    lemma_payload_message(kind, request_bytes(r), rest, m);
}

proof fn lemma_piece_reads_back(l: Location, b: Seq<u8>, m: MessageView, rest: Seq<u8>)
    requires
        m == MessageView::Piece(l, b),
        reads_back(m),
    ensures
        spec_message(message_bytes(m) + rest) == Ok::<(int, ActionView), Error>(
            (message_bytes(m).len() as int, ActionView::Message(m)),
        ),
{
    let payload = location_bytes(l) + b;
    location::lemma_location_bytes(l, b);
    assert(length_field(8 + b.len() as int) == (payload.len() + 1) as u32);
    assert(payload.skip(8) =~= b);
    assert(message_bytes(m) =~= be_bytes((payload.len() + 1) as u32) + seq![7u8] + payload);
    lemma_payload_message(7, payload, rest, m);
}

/// A message is read back from its bytes, followed by anything at all, as
/// that message, taking exactly its bytes: for every message but the four
/// without payload, whose payload length fits in 32 bits.
pub proof fn law_parse_message_bytes(m: MessageView, rest: Seq<u8>)
    requires
        reads_back(m),
    ensures
        spec_message(message_bytes(m) + rest) == Ok::<(int, ActionView), Error>(
            (message_bytes(m).len() as int, ActionView::Message(m)),
        ),
{
    match m {
        MessageView::Have(x) => lemma_have_reads_back(x, m, rest),
        MessageView::Bitfield(b) => lemma_bitfield_reads_back(b, m, rest),
        MessageView::Request(r) => lemma_request_reads_back(6, r, m, rest),
        MessageView::Cancel(r) => lemma_request_reads_back(8, r, m, rest),
        MessageView::Piece(l, b) => lemma_piece_reads_back(l, b, m, rest),
        _ => {},
    }
}

/// A message without payload is written with a length of 0, so its bytes
/// read as a keep-alive of four bytes, the type byte left unread.
pub proof fn law_no_payload_reads_as_keep_alive(m: MessageView, rest: Seq<u8>)
    requires
        m is Choke || m is Unchoke || m is Interested || m is NotInterested,
    ensures
        spec_message(message_bytes(m) + rest) == Ok::<(int, ActionView), Error>(
            (4, ActionView::KeepAlive),
        ),
{
    let s = message_bytes(m) + rest;
    let k: u8 = match m {
        MessageView::Choke => 0,
        MessageView::Unchoke => 1,
        MessageView::Interested => 2,
        _ => 3,
    };
    reveal(spec_message);
    crate::decode::lemma_be_bytes(0, seq![k] + rest);
    assert(s =~= be_bytes(0) + (seq![k] + rest));
}

/// How a message is shown: its name, and what it carries in text.
pub open spec fn message_text(m: MessageView) -> Seq<char> {
    match m {
        MessageView::Choke => "choke"@,
        MessageView::Unchoke => "unchoke"@,
        MessageView::Interested => "interested"@,
        MessageView::NotInterested => "not interested"@,
        MessageView::Have(index) => "have "@ + ascii_chars(decimal(index as nat)),
        MessageView::Bitfield(b) => "bitfield "@ + ascii_chars(bits_text(b)),
        MessageView::Request(r) => "request "@ + request_text(r),
        MessageView::Piece(l, _) => "piece "@ + location_text(l),
        MessageView::Cancel(r) => "cancel "@ + request_text(r),
    }
}

impl Message {
    /// The message in text, as [`message_text`] shows it.
    pub fn debug_string(&self) -> (s: String)
        ensures
            s@ == message_text(self@),
    {
        match self {
            Message::Choke => "choke".to_string(),
            Message::Unchoke => "unchoke".to_string(),
            Message::Interested => "interested".to_string(),
            Message::NotInterested => "not interested".to_string(),
            Message::Have(index) => {
                let mut s = "have ".to_string();
                s.append(decimal_text(*index as u64).as_str());
                s
            },
            Message::Bitfield(x) => {
                let mut s = "bitfield ".to_string();
                s.append(show_bitfield(x).as_str());
                s
            },
            Message::Request(x) => {
                let mut s = "request ".to_string();
                s.append(x.debug_string().as_str());
                s
            },
            Message::Piece(x) => {
                let mut s = "piece ".to_string();
                s.append(x.location.debug_string().as_str());
                s
            },
            Message::Cancel(x) => {
                let mut s = "cancel ".to_string();
                s.append(x.debug_string().as_str());
                s
            },
        }
    }
}

} // verus!
