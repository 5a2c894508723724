use btget::{decode, Torrent, TorrentError, Value};
use sha1::{Digest, Sha1};

fn key(text: &str) -> Vec<u8> {
    text.as_bytes().to_vec()
}

fn text(text: &str) -> Value {
    Value::ByteString(text.as_bytes().to_vec())
}

/// A minimal valid metainfo document with two pieces.
fn minimal_torrent() -> Value {
    let mut pieces = vec![7u8; 20];
    pieces.extend(vec![9u8; 20]);
    let info = Value::Dictionary(Vec::from([
        (key("length"), Value::Integer(1048576)),
        (key("name"), text("example.iso")),
        (key("piece length"), Value::Integer(262144)),
        (key("pieces"), Value::ByteString(pieces)),
    ]));
    Value::Dictionary(Vec::from([
        (key("announce"), text("udp://tracker.example/announce")),
        (key("info"), info),
    ]))
}

#[test]
fn project_should_return_the_typed_metadata() {
    let document = minimal_torrent().encode();
    let value = decode(&document).unwrap();
    let torrent = Torrent::from_value(value).unwrap();

    assert_eq!(torrent.announce, "udp://tracker.example/announce");
    assert_eq!(torrent.info.length, 1048576);
    assert_eq!(torrent.info.name, "example.iso");
    assert_eq!(torrent.info.piece_length, 262144);
    assert_eq!(torrent.info.pieces.len(), 2);
    assert_eq!(torrent.info.pieces[0], vec![7u8; 20]);
    assert_eq!(torrent.info.pieces[1], vec![9u8; 20]);
}

#[test]
fn project_should_hash_the_canonical_encoding_of_the_info_value_alone() {
    let document = minimal_torrent().encode();
    let value = decode(&document).unwrap();
    let torrent = Torrent::from_value(value).unwrap();

    // The digest of the re-encoded `info` sub-value, not of the whole
    // document.
    let value_again = decode(&document).unwrap();
    let info_encoded = match &value_again {
        Value::Dictionary(entries) => entries
            .iter()
            .find(|(k, _)| k == "info".as_bytes())
            .map(|(_, v)| v.encode())
            .unwrap(),
        _ => panic!("not a dictionary"),
    };
    let expected = Sha1::digest(&info_encoded).to_vec();
    assert_eq!(torrent.info_hash, expected);
    assert_eq!(torrent.info_hash.len(), 20);

    let not_expected = Sha1::digest(&document).to_vec();
    assert_ne!(torrent.info_hash, not_expected);
}

#[test]
fn project_should_fail_without_an_info_key() {
    let value = Value::Dictionary(Vec::from([(
        key("announce"),
        text("udp://tracker.example/announce"),
    )]));
    let result = Torrent::from_value(value).unwrap_err();

    assert_eq!(result, TorrentError::InvalidMetadata);
}

#[test]
fn project_should_fail_when_pieces_length_is_not_a_multiple_of_20() {
    let info = Value::Dictionary(Vec::from([
        (key("length"), Value::Integer(1048576)),
        (key("name"), text("example.iso")),
        (key("piece length"), Value::Integer(262144)),
        (key("pieces"), Value::ByteString(vec![7u8; 30])),
    ]));
    let value = Value::Dictionary(Vec::from([
        (key("announce"), text("udp://tracker.example/announce")),
        (key("info"), info),
    ]));
    let result = Torrent::from_value(value).unwrap_err();

    assert_eq!(result, TorrentError::InvalidMetadata);
}

#[test]
fn project_should_fail_when_the_value_is_not_a_dictionary() {
    let result = Torrent::from_value(Value::Integer(42)).unwrap_err();

    assert_eq!(result, TorrentError::InvalidMetadata);
}

#[test]
fn project_should_fail_without_an_announce_byte_string() {
    let info = Value::Dictionary(Vec::from([
        (key("length"), Value::Integer(1)),
        (key("name"), text("x")),
        (key("piece length"), Value::Integer(1)),
        (key("pieces"), Value::ByteString(vec![0u8; 20])),
    ]));
    let missing = Value::Dictionary(Vec::from([(key("info"), info)]));
    assert_eq!(
        Torrent::from_value(missing).unwrap_err(),
        TorrentError::InvalidMetadata
    );

    let info2 = Value::Dictionary(Vec::from([
        (key("length"), Value::Integer(1)),
        (key("name"), text("x")),
        (key("piece length"), Value::Integer(1)),
        (key("pieces"), Value::ByteString(vec![0u8; 20])),
    ]));
    let mistyped = Value::Dictionary(Vec::from([
        (key("announce"), Value::Integer(7)),
        (key("info"), info2),
    ]));
    assert_eq!(
        Torrent::from_value(mistyped).unwrap_err(),
        TorrentError::InvalidMetadata
    );
}

#[test]
fn project_should_fail_when_a_text_field_is_not_utf8() {
    let info = Value::Dictionary(Vec::from([
        (key("length"), Value::Integer(1)),
        (key("name"), Value::ByteString(vec![0xffu8, 0xfeu8])),
        (key("piece length"), Value::Integer(1)),
        (key("pieces"), Value::ByteString(vec![0u8; 20])),
    ]));
    let value = Value::Dictionary(Vec::from([
        (key("announce"), text("udp://tracker.example/announce")),
        (key("info"), info),
    ]));
    assert_eq!(
        Torrent::from_value(value).unwrap_err(),
        TorrentError::InvalidMetadata
    );

    let info2 = Value::Dictionary(Vec::from([
        (key("length"), Value::Integer(1)),
        (key("name"), text("x")),
        (key("piece length"), Value::Integer(1)),
        (key("pieces"), Value::ByteString(vec![0u8; 20])),
    ]));
    let bad_announce = Value::Dictionary(Vec::from([
        (key("announce"), Value::ByteString(vec![0xffu8])),
        (key("info"), info2),
    ]));
    assert_eq!(
        Torrent::from_value(bad_announce).unwrap_err(),
        TorrentError::InvalidMetadata
    );
}

#[test]
fn project_should_fail_when_an_info_field_is_missing_or_mistyped() {
    let no_length = Value::Dictionary(Vec::from([
        (key("name"), text("x")),
        (key("piece length"), Value::Integer(1)),
        (key("pieces"), Value::ByteString(vec![0u8; 20])),
    ]));
    let value = Value::Dictionary(Vec::from([
        (key("announce"), text("udp://tracker.example/announce")),
        (key("info"), no_length),
    ]));
    assert_eq!(
        Torrent::from_value(value).unwrap_err(),
        TorrentError::InvalidMetadata
    );

    let bad_length = Value::Dictionary(Vec::from([
        (key("length"), text("one")),
        (key("name"), text("x")),
        (key("piece length"), Value::Integer(1)),
        (key("pieces"), Value::ByteString(vec![0u8; 20])),
    ]));
    let value2 = Value::Dictionary(Vec::from([
        (key("announce"), text("udp://tracker.example/announce")),
        (key("info"), bad_length),
    ]));
    assert_eq!(
        Torrent::from_value(value2).unwrap_err(),
        TorrentError::InvalidMetadata
    );

    let info_not_dict = Value::Dictionary(Vec::from([
        (key("announce"), text("udp://tracker.example/announce")),
        (key("info"), Value::Integer(3)),
    ]));
    assert_eq!(
        Torrent::from_value(info_not_dict).unwrap_err(),
        TorrentError::InvalidMetadata
    );
}

#[test]
fn project_should_accept_an_empty_pieces_string() {
    let info = Value::Dictionary(Vec::from([
        (key("length"), Value::Integer(0)),
        (key("name"), text("empty")),
        (key("piece length"), Value::Integer(262144)),
        (key("pieces"), Value::ByteString(Vec::new())),
    ]));
    let value = Value::Dictionary(Vec::from([
        (key("announce"), text("udp://tracker.example/announce")),
        (key("info"), info),
    ]));
    let torrent = Torrent::from_value(value).unwrap();

    assert_eq!(torrent.info.pieces.len(), 0);
}
