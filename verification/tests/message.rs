use rustorrent::torrent::message::location::{self, Location};
use rustorrent::torrent::message::piece::{self, Piece};
use rustorrent::torrent::message::request::{self, Request};
use rustorrent::torrent::message::{self, show_bitfield, truncate_u32, Action, Message};

fn request(index: u32, begin: u32, length: u32) -> Request {
    Request { location: Location { index, begin }, length }
}

#[test]
fn messages_encode_to_exact_bytes() {
    assert_eq!(Message::Choke.encode(), vec![0, 0, 0, 0, 0]);
    assert_eq!(Message::Unchoke.encode(), vec![0, 0, 0, 0, 1]);
    assert_eq!(Message::Interested.encode(), vec![0, 0, 0, 0, 2]);
    assert_eq!(Message::NotInterested.encode(), vec![0, 0, 0, 0, 3]);
    assert_eq!(Message::Have(7).encode(), vec![0, 0, 0, 5, 4, 0, 0, 0, 7]);
    assert_eq!(
        Message::Bitfield(vec![0xff, 0x80]).encode(),
        vec![0, 0, 0, 3, 5, 0xff, 0x80]
    );
    assert_eq!(
        Message::Request(request(1, 0x4000, 0x4000)).encode(),
        vec![0, 0, 0, 13, 6, 0, 0, 0, 1, 0, 0, 0x40, 0, 0, 0, 0x40, 0]
    );
    assert_eq!(
        Message::Cancel(request(2, 3, 4)).encode(),
        vec![0, 0, 0, 13, 8, 0, 0, 0, 2, 0, 0, 0, 3, 0, 0, 0, 4]
    );
    let p = Piece { location: Location { index: 5, begin: 6 }, piece: vec![9, 8] };
    assert_eq!(
        Message::Piece(p).encode(),
        vec![0, 0, 0, 11, 7, 0, 0, 0, 5, 0, 0, 0, 6, 9, 8]
    );
}

#[test]
fn messages_read_back() {
    let cases = vec![
        Message::Have(0xdeadbeef),
        Message::Bitfield(vec![1, 2, 3]),
        Message::Bitfield(vec![]),
        Message::Request(request(1, 2, 3)),
        Message::Piece(Piece { location: Location { index: 4, begin: 5 }, piece: vec![6; 10] }),
        Message::Cancel(request(7, 8, 9)),
    ];
    for m in cases {
        let mut bytes = m.encode();
        bytes.push(42);
        let (rest, action) = message::try_parse(&bytes).unwrap();
        assert_eq!(rest, &[42u8][..]);
        assert_eq!(action, Action::Message(m));
    }
}

#[test]
fn messages_without_payload_read_as_keep_alive() {
    let bytes = Message::Choke.encode();
    assert_eq!(message::try_parse(&bytes), Ok((&[0u8][..], Action::KeepAlive)));
    assert_eq!(message::try_parse(&[0, 0, 0, 0]), Ok((&[][..], Action::KeepAlive)));
}

#[test]
fn short_type_messages_are_read() {
    assert_eq!(message::try_parse(&[0, 0, 0, 1, 0]), Ok((&[][..], Action::Message(Message::Choke))));
    assert_eq!(message::try_parse(&[0, 0, 0, 1, 1]), Ok((&[][..], Action::Message(Message::Unchoke))));
    assert_eq!(
        message::try_parse(&[0, 0, 0, 1, 2, 9]),
        Ok((&[9u8][..], Action::Message(Message::Interested)))
    );
    assert_eq!(
        message::try_parse(&[0, 0, 0, 1, 3]),
        Ok((&[][..], Action::Message(Message::NotInterested)))
    );
}

#[test]
fn message_errors() {
    assert_eq!(message::try_parse(&[0, 0, 1]), Err(message::Error::NoLength));
    assert_eq!(message::try_parse(&[0, 0, 0, 5, 4, 0]), Err(message::Error::NotEnoughBytes));
    assert_eq!(message::try_parse(&[0, 0, 0, 1, 9]), Err(message::Error::NotValidType));
    assert_eq!(message::try_parse(&[0, 0, 0, 3, 4, 0, 0]), Err(message::Error::Have));
    assert_eq!(
        message::try_parse(&[0, 0, 0, 3, 6, 0, 0]),
        Err(message::Error::Request(request::Error::Location(location::Error::NoIndex)))
    );
    assert_eq!(
        message::try_parse(&[0, 0, 0, 9, 8, 0, 0, 0, 1, 0, 0, 0, 2]),
        Err(message::Error::Cancel(request::Error::NoLength))
    );
    assert_eq!(
        message::try_parse(&[0, 0, 0, 6, 7, 0, 0, 0, 1, 0]),
        Err(message::Error::Piece(piece::Error::Location(location::Error::NoBegin)))
    );
}

#[test]
fn parts_encode_and_read_back() {
    let l = Location { index: 0x01020304, begin: 5 };
    assert_eq!(l.encode(), vec![1, 2, 3, 4, 0, 0, 0, 5]);
    assert_eq!(location::try_parse(&[1, 2, 3, 4, 0, 0, 0, 5, 6]), Ok((&[6u8][..], l)));
    assert_eq!(location::try_parse(&[1, 2, 3]), Err(location::Error::NoIndex));
    let r = Request::_new(l);
    assert_eq!(r.length, 16384);
    assert_eq!(request::try_parse(&r.encode()), Ok(r));
    let p = piece::try_parse(&[0, 0, 0, 1, 0, 0, 0, 2, 3, 4]).unwrap();
    assert_eq!(p, Piece { location: Location { index: 1, begin: 2 }, piece: vec![3, 4] });
    assert_eq!(p.encode(), vec![0, 0, 0, 1, 0, 0, 0, 2, 3, 4]);
}

#[test]
fn bitfields_are_shown_most_significant_bit_first() {
    assert_eq!(show_bitfield(&vec![0b1010_0000, 0x0f]), "1010000000001111");
    assert_eq!(show_bitfield(&vec![]), "");
}

#[test]
fn messages_are_shown() {
    assert_eq!(Message::Choke.debug_string(), "choke");
    assert_eq!(Message::Unchoke.debug_string(), "unchoke");
    assert_eq!(Message::Interested.debug_string(), "interested");
    assert_eq!(Message::NotInterested.debug_string(), "not interested");
    assert_eq!(Message::Have(12).debug_string(), "have 12");
    assert_eq!(Message::Bitfield(vec![0x81]).debug_string(), "bitfield 10000001");
    assert_eq!(Message::Request(request(1, 16384, 16384)).debug_string(), "request 1 16384 16384");
    let p = Piece { location: Location { index: 3, begin: 0 }, piece: vec![1] };
    assert_eq!(Message::Piece(p).debug_string(), "piece 3 0");
    assert_eq!(Message::Cancel(request(0, 0, 1)).debug_string(), "cancel 0 0 1");
    assert_eq!(Location { index: 4294967295, begin: 7 }.debug_string(), "4294967295 7");
}

#[test]
fn lengths_are_reduced_to_32_bits() {
    assert_eq!(truncate_u32(5), 5);
    assert_eq!(truncate_u32(4294967296 + 3), 3);
}

#[test]
fn messages_tell_whether_they_can_be_encoded() {
    assert!(Message::Choke.is_encodable());
    assert!(Message::Bitfield(vec![0; 10]).is_encodable());
    let p = Piece { location: Location { index: 0, begin: 0 }, piece: vec![1; 3] };
    assert!(Message::Piece(p).is_encodable());
}
