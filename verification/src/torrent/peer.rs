//! A connection to a peer as a state machine over the bytes read from it:
//! the handshake is taken off the front of what is read first, each complete
//! message frame is handed to the peer's state in order, and an incomplete
//! frame is kept until more bytes come.

use super::message::{self, spec_message, Action, ActionView, Message, MessageView};
use super::protocol::{can_step, message_view, push_bytes, spec_try_handshake, step, try_handshake, State, StateView};
use crate::decode::be_u32;
use vstd::prelude::*;
use vstd::slice::slice_to_vec;

verus! {

/// A connection: the peer's state, the bytes read but not yet taken in, and
/// whether the handshake has been looked for.
pub struct Connection {
    pub state: State,
    pending: Vec<u8>,
    handshaken: bool,
}

/// What a [`Connection`] holds, as plain values.
pub struct ConnectionView {
    pub state: StateView,
    pub pending: Seq<u8>,
    pub handshaken: bool,
}

impl View for Connection {
    type V = ConnectionView;

    closed spec fn view(&self) -> ConnectionView {
        ConnectionView { state: self.state@, pending: self.pending@, handshaken: self.handshaken }
    }
}

/// Why a connection stops taking in bytes: a complete frame that is not a
/// valid message, or a message that the peer's state cannot take in.
#[derive(Debug, Clone, Copy, PartialEq, Eq, Structural)]
pub enum PeerError {
    Frame(message::Error),
    Refused,
}

/// Whether `buf` starts with a complete frame: a four-byte big-endian
/// length and that many bytes after it.
pub open spec fn frame_complete(buf: Seq<u8>) -> bool {
    buf.len() >= 4 && buf.len() - 4 >= be_u32(buf)
}

/// The reply of a step as a sequence of at most one message.
pub open spec fn reply_seq(r: Option<MessageView>) -> Seq<MessageView> {
    match r {
        Some(m) => seq![m],
        None => seq![],
    }
}

/// What taking in the complete frames at the front of `buf` gives, from the
/// state `s`: the state after them, the replies in order, and the bytes left,
/// which start with no complete frame; or the error of the first frame that
/// is not a valid message or that the state cannot take in. Keep-alives are
/// passed over.
pub open spec fn run_frames(s: StateView, buf: Seq<u8>) -> Result<
    (StateView, Seq<MessageView>, Seq<u8>),
    PeerError,
>
    decreases buf.len(),
{
    if !frame_complete(buf) {
        Ok((s, seq![], buf))
    } else {
        match spec_message(buf) {
            Err(e) => Err(PeerError::Frame(e)),
            Ok((n, a)) => if 4 <= n <= buf.len() {
                match a {
                    ActionView::KeepAlive => run_frames(s, buf.skip(n)),
                    ActionView::Message(m) => if can_step(s, Some(m)) {
                        let (t, r) = step(s, Some(m));
                        match run_frames(t, buf.skip(n)) {
                            Ok((u, rs, rest)) => Ok((u, reply_seq(r) + rs, rest)),
                            Err(e) => Err(e),
                        }
                    } else {
                        Err(PeerError::Refused)
                    },
                }
            } else {
                Ok((s, seq![], buf))
            },
        }
    }
}

/// The bytes to take frames from, once `bytes` have been read on the
/// connection `c`: what was pending and the new bytes, less a handshake for
/// `info_hash` at the front if the handshake has not been looked for yet.
pub open spec fn received_data(c: ConnectionView, bytes: Seq<u8>, info_hash: Seq<u8>) -> Seq<u8> {
    let data = c.pending + bytes;
    if !c.handshaken && spec_try_handshake(data, info_hash) == Some(true) {
        data.skip(68)
    } else {
        data
    }
}

/// The messages of a sequence, as values.
pub open spec fn messages_view(v: Seq<Message>) -> Seq<MessageView> {
    Seq::new(v.len(), |i: int| v[i]@)
}

/// A result of [`run_frames`] with the replies `rs` put in front.
pub open spec fn after_replies(
    rs: Seq<MessageView>,
    r: Result<(StateView, Seq<MessageView>, Seq<u8>), PeerError>,
) -> Result<(StateView, Seq<MessageView>, Seq<u8>), PeerError> {
    match r {
        Ok((t, rs2, rest)) => Ok((t, rs + rs2, rest)),
        Err(e) => Err(e),
    }
}

/// A message frame takes its four length bytes and the length it names.
proof fn lemma_frame_consumes(buf: Seq<u8>)
    requires
        frame_complete(buf),
    ensures
        spec_message(buf) matches Ok((n, _)) ==> 4 <= n <= buf.len(),
{
    reveal(spec_message);
}

/// What taking in the frames of `x` and then of what is left followed by
/// `y` gives: the replies to `x` in front of those to the rest.
pub open spec fn then_frames(
    r: Result<(StateView, Seq<MessageView>, Seq<u8>), PeerError>,
    y: Seq<u8>,
) -> Result<(StateView, Seq<MessageView>, Seq<u8>), PeerError> {
    match r {
        Ok((t, rs, rest)) => after_replies(rs, run_frames(t, rest + y)),
        Err(e) => Err(e),
    }
}

/// A complete frame reads the same whatever bytes follow it.
proof fn lemma_message_prefix(x: Seq<u8>, y: Seq<u8>)
    requires
        frame_complete(x),
    ensures
        frame_complete(x + y),
        spec_message(x + y) == spec_message(x),
{
    reveal(spec_message);
    let z = x + y;
    assert(z[0] == x[0] && z[1] == x[1] && z[2] == x[2] && z[3] == x[3]);
    let n = be_u32(x);
    let t = x.skip(4);
    let tz = z.skip(4);
    if n != 0 {
        assert(tz[0] == t[0]);
        assert(tz.subrange(1, n) =~= t.subrange(1, n));
    }
}

/// Replies put in front of replies put in front are the two put in front
/// together.
proof fn lemma_after_replies_assoc(
    a: Seq<MessageView>,
    b: Seq<MessageView>,
    r: Result<(StateView, Seq<MessageView>, Seq<u8>), PeerError>,
)
    ensures
        after_replies(a, after_replies(b, r)) == after_replies(a + b, r),
{
    if let Ok((t, rs, rest)) = r {
        assert(a + (b + rs) =~= (a + b) + rs);
    }
}

/// Taking in the frames of `x + y` at once is taking in those of `x`, then
/// those of what is left of `x` followed by `y`.
#[verifier::rlimit(30)]
proof fn lemma_run_frames_append(s: StateView, x: Seq<u8>, y: Seq<u8>)
    ensures
        run_frames(s, x + y) == then_frames(run_frames(s, x), y),
    decreases x.len(),
{
    if !frame_complete(x) {
        assert(run_frames(s, x) == Ok::<(StateView, Seq<MessageView>, Seq<u8>), PeerError>(
            (s, seq![], x),
        ));
        if let Ok((t, rs, rest)) = run_frames(s, x + y) {
            assert(Seq::<MessageView>::empty() + rs =~= rs);
        }
        assert(run_frames(s, x + y) == then_frames(run_frames(s, x), y));
    } else {
        lemma_message_prefix(x, y);
        lemma_frame_consumes(x);
        match spec_message(x) {
            Err(e) => {
                assert(run_frames(s, x + y) == then_frames(run_frames(s, x), y));
            },
            Ok((n, a)) => {
                assert((x + y).skip(n) =~= x.skip(n) + y);
                match a {
                    ActionView::KeepAlive => {
                        lemma_run_frames_append(s, x.skip(n), y);
                        assert(run_frames(s, x + y) == run_frames(s, x.skip(n) + y));
                        assert(run_frames(s, x) == run_frames(s, x.skip(n)));
                        assert(run_frames(s, x + y) == then_frames(run_frames(s, x), y));
                    },
                    ActionView::Message(m) => {
                        if can_step(s, Some(m)) {
                            let (t, r) = step(s, Some(m));
                            let inner = run_frames(t, x.skip(n));
                            lemma_run_frames_append(t, x.skip(n), y);
                            assert(run_frames(s, x + y) == after_replies(
                                reply_seq(r),
                                run_frames(t, x.skip(n) + y),
                            ));
                            assert(run_frames(s, x) == after_replies(reply_seq(r), inner));
                            if let Ok((u, rs, rest)) = inner {
                                lemma_after_replies_assoc(
                                    reply_seq(r),
                                    rs,
                                    run_frames(u, rest + y),
                                );
                            }
                            assert(run_frames(s, x + y) == then_frames(run_frames(s, x), y));
                        } else {
                            assert(run_frames(s, x + y) == then_frames(run_frames(s, x), y));
                        }
                    },
                }
            },
        }
    }
}

/// However the bytes after the handshake are split across reads, a
/// connection takes in the same frames, in the same order, with the same
/// replies: reading `a` and then `b` leaves it as reading `a + b` at once
/// does, with the replies to `a` before those to `b`.
pub proof fn law_reads_split_anywhere(c: ConnectionView, a: Seq<u8>, b: Seq<u8>, info_hash: Seq<u8>)
    requires
        c.handshaken,
    ensures
        run_frames(c.state, received_data(c, a + b, info_hash)) == match run_frames(
            c.state,
            received_data(c, a, info_hash),
        ) {
            Ok((t, rs, rest)) => after_replies(
                rs,
                run_frames(
                    t,
                    received_data(
                        ConnectionView { state: t, pending: rest, handshaken: true },
                        b,
                        info_hash,
                    ),
                ),
            ),
            Err(e) => Err(e),
        },
{
    assert(c.pending + (a + b) =~= (c.pending + a) + b);
    lemma_run_frames_append(c.state, c.pending + a, b);
}

/// Whether `buf` starts with a complete frame.
fn frame_ready(buf: &[u8]) -> (r: bool)
    ensures
        r == frame_complete(buf@),
{
    match crate::decode::u32(buf) {
        Some((_, n)) => buf.len() - 4 >= n as usize,
        None => false,
    }
}

impl Connection {
    /// A connection, before anything is read, for a peer in `state`.
    pub fn new(state: State) -> (c: Connection)
        ensures
            c@ == (ConnectionView { state: state@, pending: seq![], handshaken: false }),
    {
        Connection { state, pending: Vec::new(), handshaken: false }
    }

    /// Takes in `bytes` just read: the first time, a handshake for
    /// `info_hash` at the front is taken off; then every complete frame is
    /// handed to the peer's state in order, and what is left is kept for
    /// later. Gives the replies to send, in order.
    pub fn on_bytes(&mut self, bytes: &[u8], info_hash: &[u8; 20]) -> (out: Result<
        Vec<Message>,
        PeerError,
    >)
        ensures
            match run_frames(old(self)@.state, received_data(old(self)@, bytes@, info_hash@)) {
                Ok((t, rs, rest)) => out matches Ok(v) && messages_view(v@) == rs && final(self)@
                    == (ConnectionView { state: t, pending: rest, handshaken: true }),
                Err(e) => out == Err::<Vec<Message>, PeerError>(e),
            },
    {
        let mut data: Vec<u8> = Vec::new();
        std::mem::swap(&mut data, &mut self.pending);
        push_bytes(&mut data, bytes);
        let mut pos: usize = 0;
        if !self.handshaken {
            self.handshaken = true;
            if let Ok((_, true)) = try_handshake(data.as_slice(), info_hash) {
                pos = 68;
            }
        }
        let ghost s0 = self.state@;
        let ghost d0 = data@.skip(pos as int);
        proof {
            assert(d0 == received_data(old(self)@, bytes@, info_hash@));
            let r = run_frames(s0, d0);
            if let Ok((t, rs, rest)) = r {
                assert(Seq::<MessageView>::empty() + rs =~= rs);
            }
        }
        let mut replies: Vec<Message> = Vec::new();
        while frame_ready(&data[pos..data.len()])
            invariant
                pos <= data@.len(),
                self.handshaken,
                s0 == old(self)@.state,
                d0 == received_data(old(self)@, bytes@, info_hash@),
                run_frames(s0, d0) == after_replies(
                    messages_view(replies@),
                    run_frames(self.state@, data@.skip(pos as int)),
                ),
            decreases data@.len() - pos,
        {
            let buf = &data[pos..data.len()];
            proof {
                assert(buf@ == data@.skip(pos as int));
                lemma_frame_consumes(buf@);
            }
            match message::try_parse(buf) {
                Err(e) => {
                    proof {
                        assert(run_frames(self.state@, buf@) == Err::<
                            (StateView, Seq<MessageView>, Seq<u8>),
                            PeerError,
                        >(PeerError::Frame(e)));
                    }
                    return Err(PeerError::Frame(e));
                },
                Ok((rest, action)) => {
                    let used = buf.len() - rest.len();
                    let ghost before = replies@;
                    let ghost s = self.state@;
                    proof {
                        assert(data@.skip(pos as int).skip(used as int) =~= data@.skip(pos + used));
                    }
                    match action {
                        Action::KeepAlive => {},
                        Action::Message(m) => {
                            let message = Some(m);
                            if !self.state.can_communicate(&message) {
                                proof {
                                    assert(run_frames(self.state@, buf@) == Err::<
                                        (StateView, Seq<MessageView>, Seq<u8>),
                                        PeerError,
                                    >(PeerError::Refused));
                                }
                                return Err(PeerError::Refused);
                            }
                            let reply = self.state.communicate(message);
                            if let Some(r) = reply {
                                replies.push(r);
                            }
                            proof {
                                assert(messages_view(replies@) =~= messages_view(before)
                                    + reply_seq(message_view(reply)));
                                let tail = run_frames(self.state@, data@.skip(pos + used));
                                if let Ok((u, rs2, x)) = tail {
                                    assert(messages_view(before) + (reply_seq(message_view(reply))
                                        + rs2) =~= messages_view(replies@) + rs2);
                                }
                            }
                        },
                    }
                    pos = pos + used;
                },
            }
        }
        self.pending = slice_to_vec(&data[pos..data.len()]);
        proof {
            assert(self.pending@ == data@.skip(pos as int));
        }
        Ok(replies)
    }

    /// A step in which nothing was read: the reply to send, if any; refused,
    /// with nothing changed, where the peer's state cannot take a step.
    pub fn on_idle(&mut self) -> (out: Result<Option<Message>, PeerError>)
        ensures
            can_step(old(self)@.state, None) ==> (out matches Ok(r) && (final(self)@.state,
                message_view(r)) == step(old(self)@.state, None) && final(self)@.pending
                == old(self)@.pending && final(self)@.handshaken == old(self)@.handshaken),
            !can_step(old(self)@.state, None) ==> (out == Err::<Option<Message>, PeerError>(
                PeerError::Refused,
            ) && final(self)@ == old(self)@),
    {
        let nothing: Option<Message> = None;
        if !self.state.can_communicate(&nothing) {
            return Err(PeerError::Refused);
        }
        Ok(self.state.communicate(nothing))
    }
}

} // verus!
