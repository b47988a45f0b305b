use rustorrent::torrent::message::location::Location;
use rustorrent::torrent::message::request::Request;
use rustorrent::torrent::message::Message;
use rustorrent::torrent::protocol::{handshake, try_handshake, State};

#[test]
fn handshake_has_the_fixed_layout() {
    let bytes = handshake(&[1; 20], &[2; 20]);
    assert_eq!(bytes.len(), 68);
    assert_eq!(bytes[0], 19);
    assert_eq!(&bytes[1..20], b"BitTorrent protocol");
    assert_eq!(&bytes[20..28], &[0u8; 8]);
    assert_eq!(&bytes[28..48], &[1u8; 20]);
    assert_eq!(&bytes[48..68], &[2u8; 20]);
}

#[test]
fn handshake_reads_back() {
    let mut bytes = handshake(&[1; 20], &[2; 20]);
    bytes.extend_from_slice(&[7, 8]);
    assert_eq!(try_handshake(&bytes, &[1; 20]), Ok((&[7u8, 8][..], true)));
    assert_eq!(try_handshake(&bytes, &[3; 20]), Ok((&[7u8, 8][..], false)));
    assert_eq!(try_handshake(&bytes[..67], &[1; 20]), Err(()));
    bytes[5] = b'x';
    assert_eq!(try_handshake(&bytes, &[1; 20]), Err(()));
}

#[test]
fn new_state_counts_what_is_left() {
    let s = State::new(5, 2, vec![0b0000_0101]);
    assert_eq!(s.left, 3);
    assert_eq!(s.downloaded, 2);
    assert_eq!(s.uploaded, 0);
    assert_eq!(s.has, vec![0]);
    assert!(s.choked && s.choking && !s.interested);
    assert!(!s.sent_anything && !s.received_anything && !s.seeding);
    assert!(s.blocks.is_none());
    let s = State::new(20, 1, vec![0, 0xff, 0b0000_1111]);
    assert_eq!(s.left, 8);
    assert_eq!(s.downloaded, 12);
}

fn block_request(index: u32, begin: u32) -> Option<Message> {
    Some(Message::Request(Request { location: Location { index, begin }, length: 16384 }))
}

#[test]
fn a_peer_sends_its_bitfield_then_asks_for_blocks() {
    let mut s = State::new(100000, 40000, vec![0]);
    assert_eq!(s.communicate(None), Some(Message::Bitfield(vec![0])));
    assert!(s.sent_anything);
    assert_eq!(s.communicate(None), None);
    assert_eq!(s.communicate(Some(Message::Bitfield(vec![0b0000_0010]))), Some(Message::Interested));
    assert!(s.interested);
    assert_eq!(s.communicate(None), None);
    assert_eq!(s.communicate(Some(Message::Unchoke)), block_request(1, 0));
    assert_eq!(
        s.blocks,
        Some((
            1,
            vec![
                Location { index: 1, begin: 0 },
                Location { index: 1, begin: 16384 },
                Location { index: 1, begin: 32768 }
            ]
        ))
    );
    assert_eq!(s.communicate(Some(Message::Have(0))), block_request(0, 0));
    assert_eq!(s.has, vec![0b0000_0011]);
    assert_eq!(s.communicate(Some(Message::Choke)), None);
    assert!(s.choked);
}

#[test]
fn a_peer_without_pieces_gets_no_request() {
    let mut s = State::new(10, 10, vec![0]);
    assert!(s.communicate(Some(Message::Unchoke)).is_some());
    assert_eq!(s.communicate(Some(Message::Bitfield(vec![0]))), None);
    assert_eq!(s.communicate(Some(Message::NotInterested)), None);
    assert!(s.blocks.is_none());
}

#[test]
fn requests_walk_through_every_block_of_the_piece() {
    let mut s = State::new(1, 32768, vec![0]);
    assert_eq!(s.communicate(Some(Message::Bitfield(vec![1]))), Some(Message::Bitfield(vec![0])));
    assert_eq!(s.communicate(None), Some(Message::Interested));
    assert_eq!(s.communicate(Some(Message::Unchoke)), block_request(0, 0));
    assert_eq!(s.communicate(None), block_request(0, 16384));
    assert_eq!(s.communicate(None), None);
    assert_eq!(s.communicate(None), None);
}

#[test]
fn a_new_first_piece_starts_at_its_first_block() {
    let mut s = State::new(100000, 40000, vec![0]);
    s.communicate(None);
    assert_eq!(s.communicate(Some(Message::Bitfield(vec![0b0000_0100]))), Some(Message::Interested));
    assert_eq!(s.communicate(Some(Message::Unchoke)), block_request(2, 0));
    assert_eq!(s.communicate(Some(Message::Have(7))), block_request(2, 16384));
    assert_eq!(s.communicate(Some(Message::Have(1))), block_request(1, 0));
    assert_eq!(s.communicate(None), block_request(1, 16384));
    assert_eq!(s.communicate(None), block_request(1, 32768));
    assert_eq!(s.communicate(None), None);
}

#[test]
fn steps_are_checked_before_they_are_taken() {
    let s = State::new(10, 10, vec![0]);
    assert!(s.can_communicate(&Some(Message::Have(7))));
    assert!(!s.can_communicate(&Some(Message::Have(8))));
    assert!(s.can_communicate(&None));
}
