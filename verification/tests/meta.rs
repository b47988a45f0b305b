use rustorrent::bencode::dictionary::Dictionary;
use rustorrent::bencode::string::Bytes;
use rustorrent::bencode::Item;
use rustorrent::torrent::meta::{self, announce_list, info, url_list};
use rustorrent::torrent::response::{self, Peer};
use rustorrent::util::bencode::FieldError;

fn text(s: &[u8]) -> Item {
    Item::String(Bytes { bytes: s.to_vec() })
}

fn dict(items: Vec<(&str, Item)>) -> Item {
    Item::Dictionary(Dictionary { items: items.into_iter().map(|(k, v)| (text(k.as_bytes()), v)).collect() })
}

fn info_item(pieces: Vec<u8>) -> Item {
    dict(vec![
        ("length", Item::Integer(100000)),
        ("name", text(b"file.iso")),
        ("piece length", Item::Integer(32768)),
        ("pieces", Item::String(Bytes { bytes: pieces })),
    ])
}

#[test]
fn info_is_extracted() {
    let mut pieces: Vec<u8> = (0..40).collect();
    pieces.extend_from_slice(&[1, 2, 3]);
    let i = info::extract(&info_item(pieces)).unwrap();
    assert_eq!(i.length, 100000);
    assert_eq!(i.name, "file.iso");
    assert_eq!(i.piece_length, 32768);
    assert_eq!(i.pieces.len(), 2);
    assert_eq!(i.pieces[0].to_vec(), (0..20).collect::<Vec<u8>>());
    assert_eq!(i.pieces[1].to_vec(), (20..40).collect::<Vec<u8>>());
}

#[test]
fn info_errors() {
    assert_eq!(info::extract(&Item::Integer(1)).err(), Some(info::Error::NotDictionary));
    let no_length = dict(vec![("name", text(b"x"))]);
    assert_eq!(info::extract(&no_length).err(), Some(info::Error::Length(FieldError::NotFound)));
    let bad_name = dict(vec![("length", Item::Integer(1)), ("name", Item::Integer(2))]);
    assert_eq!(info::extract(&bad_name).err(), Some(info::Error::Name(FieldError::NotValid)));
    let no_piece_length = dict(vec![("length", Item::Integer(1)), ("name", text(b"a"))]);
    assert_eq!(
        info::extract(&no_piece_length).err(),
        Some(info::Error::PieceLength(FieldError::NotFound))
    );
    let bad_pieces = dict(vec![
        ("length", Item::Integer(1)),
        ("name", text(b"a")),
        ("piece length", Item::Integer(1)),
        ("pieces", Item::Integer(0)),
    ]);
    assert_eq!(info::extract(&bad_pieces).err(), Some(info::Error::Pieces(FieldError::NotValid)));
}

fn torrent() -> Item {
    dict(vec![
        ("announce", text(b"http://tracker/announce")),
        (
            "announce-list",
            Item::List(vec![
                Item::List(vec![text(b"http://a"), text(b"http://b")]),
                Item::List(vec![text(b"udp://c")]),
            ]),
        ),
        ("info", info_item(vec![0; 20])),
        ("url-list", Item::List(vec![text(b"http://seed")])),
    ])
}

#[test]
fn meta_is_extracted() {
    let m = meta::extract(&torrent()).unwrap();
    assert_eq!(m.announce, "http://tracker/announce");
    assert_eq!(
        m.announce_list,
        Some(vec![
            vec!["http://a".to_string(), "http://b".to_string()],
            vec!["udp://c".to_string()]
        ])
    );
    assert_eq!(m.info, info_item(vec![0; 20]));
    assert_eq!(m.url_list, Some(vec!["http://seed".to_string()]));
}

#[test]
fn optional_meta_fields_may_be_missing() {
    let t = dict(vec![("announce", text(b"x")), ("info", Item::Integer(0))]);
    let m = meta::extract(&t).unwrap();
    assert_eq!(m.announce, "x");
    assert_eq!(m.announce_list, None);
    assert_eq!(m.info, Item::Integer(0));
    assert_eq!(m.url_list, None);
}

#[test]
fn meta_errors() {
    assert_eq!(meta::extract(&text(b"x")).err(), Some(meta::Error::NotDictionary));
    let no_announce = dict(vec![("info", Item::Integer(0))]);
    assert_eq!(meta::extract(&no_announce).err(), Some(meta::Error::Announce(FieldError::NotFound)));
    let no_info = dict(vec![("announce", text(b"x"))]);
    assert_eq!(meta::extract(&no_info).err(), Some(meta::Error::Info(FieldError::NotFound)));
    let bad_tiers = dict(vec![
        ("announce", text(b"x")),
        ("announce-list", Item::List(vec![Item::Integer(1)])),
        ("info", Item::Integer(0)),
    ]);
    assert_eq!(
        meta::extract(&bad_tiers).err(),
        Some(meta::Error::AnnounceList(announce_list::Error::Item(url_list::Error::NotList)))
    );
    let bad_seeds = dict(vec![
        ("announce", text(b"x")),
        ("info", Item::Integer(0)),
        ("url-list", Item::List(vec![Item::Integer(1)])),
    ]);
    assert_eq!(
        meta::extract(&bad_seeds).err(),
        Some(meta::Error::UrlList(url_list::Error::ItemNotString))
    );
}

#[test]
fn url_lists_and_tiers() {
    assert_eq!(
        url_list::try_parse(&Item::List(vec![text(b"a\x01")])),
        Ok(vec!["a\\u0001".to_string()])
    );
    assert_eq!(url_list::try_parse(&text(b"a")), Err(url_list::Error::NotList));
    assert_eq!(announce_list::try_parse(&Item::Integer(3)), Err(announce_list::Error::NotList));
    assert_eq!(
        announce_list::try_parse(&Item::List(vec![
            Item::List(vec![text(b"a")]),
            Item::List(vec![Item::Integer(1)]),
            Item::Integer(2)
        ])),
        Err(announce_list::Error::Item(url_list::Error::ItemNotString))
    );
    assert_eq!(announce_list::try_parse(&Item::List(vec![])), Ok(vec![]));
}

#[test]
fn response_is_extracted() {
    let r = dict(vec![
        ("complete", Item::Integer(3)),
        ("incomplete", Item::Integer(4)),
        ("peers", Item::String(Bytes { bytes: vec![127, 0, 0, 1, 0x1a, 0xe1, 10, 1, 2, 3, 0, 80, 9, 9] })),
    ]);
    let r = response::extract(&r).unwrap();
    assert_eq!(r.complete, 3);
    assert_eq!(r.incomplete, 4);
    assert_eq!(r.peers.len(), 2);
    assert_eq!(r.peers[0].0, [127, 0, 0, 1, 0x1a, 0xe1]);
    assert_eq!(r.peers[0].debug_string(), "127.0.0.1:6881");
    assert_eq!(r.peers[1].debug_string(), "10.1.2.3:80");
    assert_eq!(Peer([255, 255, 255, 255, 255, 255]).debug_string(), "255.255.255.255:65535");
}

#[test]
fn response_errors() {
    assert_eq!(response::extract(&Item::List(vec![])).err(), Some(response::Error::NotDictionary));
    let no_complete = dict(vec![("incomplete", Item::Integer(1))]);
    assert_eq!(
        response::extract(&no_complete).err(),
        Some(response::Error::Complete(FieldError::NotFound))
    );
    let bad_incomplete = dict(vec![("complete", Item::Integer(1)), ("incomplete", text(b"x"))]);
    assert_eq!(
        response::extract(&bad_incomplete).err(),
        Some(response::Error::Incomplete(FieldError::NotValid))
    );
    let no_peers = dict(vec![("complete", Item::Integer(1)), ("incomplete", Item::Integer(1))]);
    assert_eq!(
        response::extract(&no_peers).err(),
        Some(response::Error::Peers(FieldError::NotFound))
    );
}
