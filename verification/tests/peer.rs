use rustorrent::torrent::message::location::Location;
use rustorrent::torrent::message::request::Request;
use rustorrent::torrent::message::{self, Message};
use rustorrent::torrent::peer::{Connection, PeerError};
use rustorrent::torrent::protocol::{handshake, State};

fn connection() -> Connection {
    Connection::new(State::new(100000, 32768, vec![0]))
}

fn request(index: u32, begin: u32) -> Message {
    Message::Request(Request { location: Location { index, begin }, length: 16384 })
}

#[test]
fn the_handshake_is_taken_off_the_first_bytes() {
    let mut c = connection();
    let mut bytes = handshake(&[1; 20], &[2; 20]);
    bytes.extend(Message::Bitfield(vec![0b0000_0010]).encode());
    assert_eq!(c.on_bytes(&bytes, &[1; 20]), Ok(vec![Message::Bitfield(vec![0])]));
    assert_eq!(c.state.has, vec![0b0000_0010]);
    assert_eq!(c.on_bytes(&Message::Unchoke.encode()[..0], &[1; 20]), Ok(vec![]));
}

#[test]
fn every_complete_frame_is_taken_in_order() {
    let mut c = connection();
    let mut bytes = Message::Bitfield(vec![0b0000_0001]).encode();
    bytes.extend([0, 0, 0, 0]);
    bytes.extend([0, 0, 0, 1, 1]);
    assert_eq!(
        c.on_bytes(&bytes, &[9; 20]),
        Ok(vec![Message::Bitfield(vec![0]), Message::Interested])
    );
    assert_eq!(c.on_idle(), Ok(Some(request(0, 0))));
    assert_eq!(c.on_idle(), Ok(Some(request(0, 16384))));
    assert_eq!(c.on_idle(), Ok(None));
}

#[test]
fn a_frame_split_across_reads_is_kept_until_complete() {
    let mut c = connection();
    let bytes = Message::Have(3).encode();
    assert_eq!(c.on_bytes(&bytes[..2], &[9; 20]), Ok(vec![]));
    assert_eq!(c.on_bytes(&bytes[2..7], &[9; 20]), Ok(vec![]));
    let mut more = bytes[7..].to_vec();
    more.extend([0, 0, 0]);
    assert_eq!(c.on_bytes(&more, &[9; 20]), Ok(vec![Message::Bitfield(vec![0])]));
    assert_eq!(c.state.has, vec![0b0000_1000]);
    assert_eq!(c.on_bytes(&[1, 1], &[9; 20]), Ok(vec![Message::Interested]));
    assert!(!c.state.choked);
}

#[test]
fn bad_frames_and_refused_steps_stop_the_connection() {
    let mut c = connection();
    assert_eq!(
        c.on_bytes(&[0, 0, 0, 1, 9], &[9; 20]),
        Err(PeerError::Frame(message::Error::NotValidType))
    );
    let mut c = connection();
    assert_eq!(c.on_bytes(&Message::Have(8).encode(), &[9; 20]), Err(PeerError::Refused));
}

#[test]
fn any_split_of_the_reads_gives_the_same_replies() {
    let mut bytes = Message::Bitfield(vec![0b0000_0001]).encode();
    bytes.extend([0, 0, 0, 0]);
    bytes.extend(Message::Unchoke.encode());
    bytes.extend(Message::Have(5).encode());
    bytes.extend([0, 0, 0, 1, 1]);
    let mut whole = connection();
    let all = whole.on_bytes(&bytes, &[9; 20]).unwrap();
    for cut in 0..=bytes.len() {
        let mut c = connection();
        let mut replies = c.on_bytes(&bytes[..cut], &[9; 20]).unwrap();
        replies.extend(c.on_bytes(&bytes[cut..], &[9; 20]).unwrap());
        assert_eq!(replies, all);
        assert_eq!(c.state.has, whole.state.has);
        assert_eq!(c.state.blocks, whole.state.blocks);
    }
}
