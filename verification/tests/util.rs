use rustorrent::bencode::dictionary::Dictionary;
use rustorrent::bencode::string::Bytes;
use rustorrent::bencode::Item;
use rustorrent::text::{bytes_to_i64, bytes_to_usize, push_decimal, push_int, push_percent_hex};
use rustorrent::torrent::meta::info::Info;
use rustorrent::torrent::protocol::State;
use rustorrent::torrent::query;
use rustorrent::torrent::storage::{self, load_bitfield, new_state, progress_path};
use rustorrent::util::bencode::{
    _top_string, dictionary, field, integer, integer_field, key, list, string, string_field,
    top_lines, FieldError,
};
use rustorrent::util::{lookup, percent_hex_string, sha1};

fn text(s: &[u8]) -> Item {
    Item::String(Bytes { bytes: s.to_vec() })
}

fn sorted() -> Dictionary {
    Dictionary {
        items: vec![
            (text(b"a"), Item::Integer(1)),
            (text(b"bb"), text(b"two")),
            (text(b"c"), Item::List(vec![])),
            (text(b"d"), Item::Integer(4)),
        ],
    }
}

#[test]
fn accessors_pick_the_variant() {
    assert_eq!(key("ab"), text(b"ab"));
    assert_eq!(string(&text(b"x")), Some(&Bytes { bytes: b"x".to_vec() }));
    assert_eq!(string(&Item::Integer(1)), None);
    assert_eq!(integer(&Item::Integer(-5)), Some(-5));
    assert_eq!(integer(&text(b"5")), None);
    assert_eq!(list(&Item::List(vec![Item::Integer(1)])), Some(&vec![Item::Integer(1)]));
    assert_eq!(list(&Item::Integer(1)), None);
    let d = Item::Dictionary(sorted());
    assert_eq!(dictionary(&d), Some(&sorted()));
    assert_eq!(dictionary(&text(b"d")), None);
}

#[test]
fn fields_are_found_by_key() {
    let d = sorted();
    assert_eq!(field("bb", &d), Ok(&text(b"two")));
    assert_eq!(field("b", &d), Err(FieldError::NotFound));
    assert_eq!(integer_field("d", &d), Ok(4));
    assert_eq!(integer_field("bb", &d), Err(FieldError::NotValid));
    assert_eq!(integer_field("z", &d), Err(FieldError::NotFound));
    assert_eq!(string_field("bb", &d), Ok(Bytes { bytes: b"two".to_vec() }));
    assert_eq!(string_field("c", &d), Err(FieldError::NotValid));
    assert_eq!(string_field("", &d), Err(FieldError::NotFound));
}

#[test]
fn lookup_finds_every_key_of_a_sorted_list() {
    let xs: Vec<(Item, u8)> = vec![
        (text(b"a"), 1),
        (text(b"b"), 2),
        (text(b"c"), 3),
        (Item::Integer(0), 4),
        (Item::List(vec![]), 5),
    ];
    for (k, v) in xs.iter() {
        assert_eq!(lookup(&xs, k.clone()), Some(v));
    }
    assert_eq!(lookup(&xs, text(b"bb")), None);
    assert_eq!(lookup(&xs, Item::Integer(1)), None);
    assert_eq!(lookup(&Vec::<(Item, u8)>::new(), text(b"a")), None);
}

#[test]
fn sha1_gives_the_known_digests() {
    let hex = |d: [u8; 20]| d.iter().map(|b| format!("{:02x}", b)).collect::<String>();
    assert_eq!(hex(sha1(b"abc".to_vec())), "a9993e364706816aba3e25717850c26c9cd0d89d");
    assert_eq!(hex(sha1(vec![])), "da39a3ee5e6b4b0d3255bfef95601890afd80709");
}

#[test]
fn bytes_are_percent_encoded() {
    assert_eq!(percent_hex_string(&[0x12, 0xab, 0x00, 0xff]), "%12%ab%00%ff");
    assert_eq!(percent_hex_string(&[]), "");
    let mut out = vec![b'x'];
    push_percent_hex(&mut out, &[10]);
    assert_eq!(out, b"x%0a".to_vec());
}

#[test]
fn numbers_are_written_and_read_in_decimal() {
    let mut out = Vec::new();
    push_decimal(&mut out, 0);
    push_decimal(&mut out, 1234567890);
    push_int(&mut out, -42);
    push_int(&mut out, i64::MIN);
    assert_eq!(out, b"01234567890-42-9223372036854775808".to_vec());
    assert_eq!(bytes_to_i64(b"-17"), Ok(-17));
    assert_eq!(bytes_to_i64(b"+17"), Ok(17));
    assert!(bytes_to_i64(b"9223372036854775808").is_err());
    assert!(bytes_to_i64(b"").is_err());
    assert!(bytes_to_i64(b"1\xff").is_err());
    assert_eq!(bytes_to_usize(b"007"), Ok(7));
    assert!(bytes_to_usize(b"-1").is_err());
}

#[test]
fn the_top_of_an_item_is_listed() {
    let d = Item::Dictionary(Dictionary {
        items: vec![
            (text(b"a\""), Item::Integer(1)),
            (Item::Integer(5), Item::Integer(2)),
            (text(b"b"), Item::List(vec![])),
        ],
    });
    assert_eq!(top_lines(&d), vec!["a\\\": Integer".to_string(), "b: List".to_string()]);
    let l = Item::List(vec![text(b"x"), Item::Dictionary(Dictionary { items: vec![] })]);
    assert_eq!(top_lines(&l), vec!["String".to_string(), "Dictionary".to_string()]);
    assert!(top_lines(&Item::Integer(3)).is_empty());
    assert_eq!(_top_string(&Item::Integer(3)), "Integer");
}

#[test]
fn the_announce_query_lists_every_parameter() {
    let mut state = State::new(5, 2, vec![0b0000_0101]);
    state.uploaded = 10;
    let url = query(&[b'A'; 20], &[0x01; 20], &"http://t/announce".to_string(), &state);
    let expected = format!(
        "http://t/announce?info_hash={}&peer_id={}&port=6881&uploaded=10&downloaded=2&left=3&compact=1",
        "%01".repeat(20),
        "A".repeat(20)
    );
    assert_eq!(url, expected);
    let url = query(&[0xff; 20], &[0; 20], &"u".to_string(), &state);
    assert!(url.starts_with("u?info_hash=%00"));
    assert!(url.contains(&format!("&peer_id={}&", "\u{fffd}".repeat(20))));
}

#[test]
fn progress_is_loaded_or_started() {
    assert_eq!(progress_path("file.iso"), "file.iso.progress");
    assert_eq!(load_bitfield(Some(vec![1, 2]), 100, 7).unwrap(), vec![1, 2]);
    match load_bitfield(Some(vec![1]), 100, 7) {
        Err(storage::Error::PiecesMismatch(found, expected)) => {
            assert_eq!((found, expected), (1, 2));
        }
        other => panic!("Unexpected result: {:?}", other),
    }
    assert_eq!(load_bitfield(None, 100000, 32768).unwrap(), vec![0]);
    assert_eq!(load_bitfield(None, 17, 1).unwrap(), vec![0, 0, 0]);
    assert_eq!(load_bitfield(None, 64, 1).unwrap(), vec![0; 8]);
}

#[test]
fn a_loaded_bitfield_starts_a_state() {
    let info = Info { length: 17, name: "f".to_string(), piece_length: 1, pieces: vec![] };
    let bitfield = load_bitfield(None, info.length, info.piece_length).unwrap();
    let s = new_state(&info, bitfield);
    assert_eq!(s.bitfield, vec![0, 0, 0]);
    assert_eq!(s.left, 17);
    assert_eq!(s.downloaded, 0);
    assert_eq!(s.length, 17);
    assert_eq!(s.piece_length, 1);
}
