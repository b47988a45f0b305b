use rustorrent::bencode;
use rustorrent::bencode::dictionary::Dictionary;
use rustorrent::bencode::order::{compare, Order};
use rustorrent::bencode::string::Bytes;
use rustorrent::bencode::Item;

const EMPTY: &[u8] = &[];

fn text(s: &[u8]) -> Item {
    Item::String(Bytes { bytes: s.to_vec() })
}

#[test]
fn test_string_bencode() {
    assert_eq!(
        bencode::item(b"7:torrent"),
        Ok((
            EMPTY,
            bencode::Item::String(bencode::string::Bytes {
                bytes: b"torrent".to_vec()
            })
        ))
    );
}

#[test]
fn test_integer() {
    assert_eq!(
        bencode::item(b"i0e"),
        Ok((EMPTY, bencode::Item::Integer(0)))
    );
    assert_eq!(
        bencode::integer::try_parse(b"i01e"),
        Some(Err(bencode::integer::Error::LeadingZeroes))
    );
    assert_eq!(
        bencode::integer::try_parse(b"i-0e"),
        Some(Err(bencode::integer::Error::NegativeZero))
    );
    assert_eq!(
        bencode::item(b"i-1e"),
        Ok((EMPTY, bencode::Item::Integer(-1)))
    );
    match bencode::item(b"ie") {
        Err(bencode::Error::Integer(bencode::integer::Error::ParseInt(e))) => {
            assert_eq!(e.to_string(), "cannot parse integer from empty string");
        }
        other => panic!("Unexpected result: {:?}", other),
    }
}

#[test]
fn test_list() {
    assert_eq!(
        bencode::item(b"li42e7:torrente"),
        Ok((
            EMPTY,
            bencode::Item::List(vec![
                bencode::Item::Integer(42),
                bencode::Item::String(bencode::string::Bytes {
                    bytes: b"torrent".to_vec()
                })
            ])
        ))
    );
}

#[test]
fn test_dictionary() {
    assert_eq!(
        bencode::item(b"d7:torrent10:my-torrent4:sizei150ee"),
        Ok((
            EMPTY,
            bencode::Item::Dictionary(bencode::dictionary::Dictionary {
                items: vec![
                    (
                        bencode::Item::String(bencode::string::Bytes {
                            bytes: b"torrent".to_vec()
                        }),
                        bencode::Item::String(bencode::string::Bytes {
                            bytes: b"my-torrent".to_vec()
                        })
                    ),
                    (
                        bencode::Item::String(bencode::string::Bytes {
                            bytes: b"size".to_vec()
                        }),
                        bencode::Item::Integer(150)
                    )
                ]
            })
        ))
    );
}

fn sample() -> Item {
    Item::Dictionary(Dictionary {
        items: vec![
            (
                text(b"spam"),
                Item::List(vec![text(b"a"), text(b""), Item::Integer(7)]),
            ),
            (text(b"x"), Item::Integer(-3)),
        ],
    })
}

#[test]
fn encode_gives_exact_bytes() {
    assert_eq!(bencode::encode(&sample()), b"d4:spaml1:a0:i7ee1:xi-3ee".to_vec());
    assert_eq!(bencode::encode(&Item::Integer(0)), b"i0e".to_vec());
    assert_eq!(
        bencode::encode(&Item::Integer(i64::MAX)),
        b"i9223372036854775807e".to_vec()
    );
    assert_eq!(bencode::encode(&Item::List(vec![])), b"le".to_vec());
    assert_eq!(
        bencode::encode(&Item::Dictionary(Dictionary { items: vec![] })),
        b"de".to_vec()
    );
}

#[test]
fn encoding_reads_back() {
    let item = sample();
    let mut bytes = bencode::encode(&item);
    bytes.extend_from_slice(b"tail");
    let (rest, back) = bencode::item(&bytes).unwrap();
    assert_eq!(rest, b"tail");
    assert_eq!(back, item);

    let nested = Item::List(vec![sample(), Item::Integer(-9223372036854775807), text(&[0, 255])]);
    let bytes = bencode::encode(&nested);
    assert_eq!(bencode::item(&bytes), Ok((EMPTY, nested)));
}

#[test]
fn rest_of_input_is_kept() {
    assert_eq!(bencode::item(b"i5eXYZ"), Ok((&b"XYZ"[..], Item::Integer(5))));
    assert_eq!(bencode::item(b"3:abcd"), Ok((&b"d"[..], text(b"abc"))));
}

#[test]
fn string_errors() {
    assert_eq!(
        bencode::item(b"5:abc"),
        Err(bencode::Error::String(bencode::string::Error::NotEnough))
    );
    assert!(matches!(
        bencode::item(b"a:bc"),
        Err(bencode::Error::String(bencode::string::Error::ParseInt(_)))
    ));
    assert_eq!(bencode::item(b"xyz"), Err(bencode::Error::NotAnItem));
    assert_eq!(bencode::item(b""), Err(bencode::Error::NotAnItem));
    assert_eq!(bencode::string::try_parse(b"abc"), None);
}

#[test]
fn list_and_dictionary_errors() {
    assert_eq!(
        bencode::item(b"li1e"),
        Err(bencode::Error::List(bencode::list::Error::NoEnd))
    );
    assert_eq!(
        bencode::item(b"d1:ai1e"),
        Err(bencode::Error::Dictionary(bencode::dictionary::Error::NoEnd))
    );
    assert_eq!(bencode::item(b"lxe"), Err(bencode::Error::NotAnItem));
    assert_eq!(bencode::list::try_parse(b"i1e"), None);
    assert_eq!(bencode::dictionary::try_parse(b"le"), None);
}

#[test]
fn integer_errors_and_extremes() {
    assert!(matches!(
        bencode::integer::try_parse(b"i12"),
        Some(Err(bencode::integer::Error::Decode(rustorrent::decode::Error::NoDelimeter(101))))
    ));
    assert_eq!(bencode::integer::try_parse(b"5:abc"), None);
    assert_eq!(
        bencode::item(b"i9223372036854775807e"),
        Ok((EMPTY, Item::Integer(i64::MAX)))
    );
    assert!(matches!(
        bencode::item(b"i-9223372036854775808e"),
        Err(bencode::Error::Integer(bencode::integer::Error::ParseInt(_)))
    ));
    assert_eq!(
        bencode::item(b"i--9223372036854775808e"),
        Ok((EMPTY, Item::Integer(i64::MIN)))
    );
    assert_eq!(bencode::item(b"i+5e"), Ok((EMPTY, Item::Integer(5))));
    assert!(matches!(
        bencode::item(b"i5xe"),
        Err(bencode::Error::Integer(bencode::integer::Error::ParseInt(_)))
    ));
}

#[test]
fn bytes_are_shown_escaped() {
    let b = Bytes { bytes: b"a\"b\\c\x01~\x7f".to_vec() };
    assert_eq!(b.debug_string(), "a\\\"b\\\\c\\u0001~\\u007F");
    let long = Bytes { bytes: vec![65; 101] };
    assert_eq!(long.debug_string(), "... (101 bytes)");
    let hundred = Bytes { bytes: vec![65; 100] };
    assert_eq!(hundred.debug_string(), "A".repeat(100));
}

#[test]
fn copies_are_equal() {
    let item = sample();
    assert_eq!(bencode::copy_item(&item), item);
    assert_eq!(item.clone(), item);
    assert_eq!(bencode::copy_bytes(&vec![1, 2, 3]), vec![1, 2, 3]);
    let mut out = vec![9];
    bencode::push_all(&mut out, &vec![1, 2]);
    assert_eq!(out, vec![9, 1, 2]);
}

#[test]
fn items_are_ordered() {
    assert_eq!(compare(&Item::Integer(1), &Item::Integer(2)), Order::Less);
    assert_eq!(compare(&text(b"b"), &text(b"ab")), Order::Greater);
    assert_eq!(compare(&text(b"ab"), &text(b"abc")), Order::Less);
    assert_eq!(compare(&sample(), &sample()), Order::Equal);
    assert_eq!(compare(&text(b"z"), &Item::Integer(0)), Order::Less);
    assert_eq!(
        rustorrent::bencode::order::compare_bytes(&vec![1, 2], &vec![1, 3]),
        Order::Less
    );
}

#[test]
fn plain_bytes_are_given_back_by_encoding() {
    let cases: Vec<&[u8]> = vec![
        b"d8:announce3:url4:infod6:lengthi100e4:name1:a12:piece lengthi-7eee",
        b"li0ei-12e0:le4:spame",
        b"10:0123456789",
    ];
    for bytes in cases {
        let (rest, item) = bencode::item(bytes).unwrap();
        assert!(rest.is_empty());
        assert_eq!(bencode::encode(&item), bytes.to_vec());
    }
    let (_, item) = bencode::item(b"l03:abci+5ee").unwrap();
    assert_eq!(bencode::encode(&item), b"l3:abci5ee".to_vec());
}
