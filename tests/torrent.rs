use torrent_info::{compute_info_hash, decode, get_info_hash, get_torrent_info, strip_pieces, to_json, Error, Json};

const MINIMAL: &[u8] =
    b"d8:announce3:xyz4:infod4:name4:test12:piece lengthi16384e6:pieces20:AAAAAAAAAAAAAAAAAAAAee";

fn text(s: &str) -> Json {
    Json::Text(s.to_string())
}

fn sha1_hex(bytes: &[u8]) -> String {
    let mut m = sha1::Sha1::new();
    m.update(bytes);
    m.digest().to_string()
}

fn member<'a>(j: &'a Json, key: &str) -> Option<&'a Json> {
    match j {
        Json::Object(ms) => ms.iter().find(|(k, _)| k == key).map(|(_, v)| v),
        _ => None,
    }
}

#[test]
fn dictionary_projects_to_object() {
    let n = decode(b"d3:bar4:spam3:fooi42ee").unwrap();
    let j = to_json(&n).unwrap();
    assert_eq!(
        j,
        Json::Object(vec![("bar".to_string(), text("spam")), ("foo".to_string(), Json::Number(42))])
    );
}

#[test]
fn info_hash_covers_original_info_bytes() {
    let start = MINIMAL.windows(6).position(|w| w == b"4:info").unwrap() + 6;
    let end = MINIMAL.len() - 1;
    assert_eq!(MINIMAL[start], b'd');
    let expected = sha1_hex(&MINIMAL[start..end]);
    let r = get_torrent_info(MINIMAL).unwrap();
    assert_eq!(r.info_hash, expected);
    assert_eq!(r.info_hash.len(), 40);
    assert!(r.info_hash.chars().all(|c| c.is_ascii_digit() || ('a'..='f').contains(&c)));
    assert_ne!(r.info_hash, sha1_hex(MINIMAL));
    assert_eq!(get_info_hash(MINIMAL).unwrap(), expected);
}

#[test]
fn pieces_left_out_of_info() {
    let r = get_torrent_info(MINIMAL).unwrap();
    let info = member(&r.json, "info").unwrap();
    assert!(member(info, "pieces").is_none());
    assert_eq!(member(info, "name"), Some(&text("test")));
    assert_eq!(member(info, "piece length"), Some(&Json::Number(16384)));
    assert_eq!(member(&r.json, "announce"), Some(&text("xyz")));
}

#[test]
fn info_hash_of_known_digest() {
    let buf = b"d4:infod4:name1:aee";
    assert_eq!(get_info_hash(buf).unwrap(), sha1_hex(b"d4:name1:ae"));
    assert_eq!(sha1_hex(b"d4:name1:ae").len(), 40);
    assert_eq!(sha1_hex(b""), "da39a3ee5e6b4b0d3255bfef95601890afd80709");
}

#[test]
fn info_hash_uses_non_canonical_bytes() {
    let buf = b"d4:infod1:zi1e1:ai2eee";
    assert_eq!(get_info_hash(buf).unwrap(), sha1_hex(b"d1:zi1e1:ai2ee"));
}

#[test]
fn repeated_runs_agree() {
    let a = get_torrent_info(MINIMAL).unwrap();
    let b = get_torrent_info(MINIMAL).unwrap();
    assert_eq!(a.info_hash, b.info_hash);
    assert_eq!(a.json, b.json);
}

#[test]
fn missing_info_key() {
    assert_eq!(get_torrent_info(b"d8:announce3:xyze").unwrap_err(), Error::MissingInfoKey);
    assert_eq!(get_info_hash(b"i5e").unwrap_err(), Error::MissingInfoKey);
    let root = decode(b"le").unwrap();
    assert_eq!(compute_info_hash(b"le", &root).unwrap_err(), Error::MissingInfoKey);
}

#[test]
fn decode_errors_surface() {
    assert!(matches!(get_torrent_info(b"i42").unwrap_err(), Error::Decode(_)));
    assert!(matches!(get_info_hash(b"x:abc").unwrap_err(), Error::Decode(_)));
}

#[test]
fn non_utf8_key_fails_projection() {
    let buf = b"d4:infod1:ai1ee2:\xff\xfei1ee";
    assert_eq!(get_torrent_info(buf).unwrap_err(), Error::NonUtf8DictionaryKey);
    let n = decode(b"d2:\xff\xfei1ee").unwrap();
    assert_eq!(to_json(&n).unwrap_err(), Error::NonUtf8DictionaryKey);
}

#[test]
fn binary_value_uses_fallback() {
    let buf = b"d4:infod6:md5sum3:\xff\x00\xfd4:name1:a6:pieces2:\xff\xffee";
    let r = get_torrent_info(buf).unwrap();
    let info = member(&r.json, "info").unwrap();
    assert_eq!(
        member(info, "md5sum"),
        Some(&Json::Array(vec![Json::Array(vec![
            Json::Number(255),
            Json::Number(0),
            Json::Number(253)
        ])]))
    );
    assert!(member(info, "pieces").is_none());
}

#[test]
fn duplicate_keys_keep_last_value_in_first_place() {
    let n = decode(b"d1:ai1e1:bi2e1:ai3ee").unwrap();
    assert_eq!(
        to_json(&n).unwrap(),
        Json::Object(vec![("a".to_string(), Json::Number(3)), ("b".to_string(), Json::Number(2))])
    );
}

#[test]
fn list_projects_to_array() {
    let n = decode(b"li-7e4:texte").unwrap();
    assert_eq!(to_json(&n).unwrap(), Json::Array(vec![Json::Number(-7), text("text")]));
}

#[test]
fn strip_pieces_only_touches_info_object() {
    let info_text = Json::Object(vec![
        ("info".to_string(), text("x")),
        ("pieces".to_string(), Json::Number(1)),
    ]);
    let kept = strip_pieces(Json::Object(vec![
        ("info".to_string(), text("x")),
        ("pieces".to_string(), Json::Number(1)),
    ]));
    assert_eq!(kept, info_text);
    let nested = strip_pieces(Json::Object(vec![(
        "info".to_string(),
        Json::Object(vec![("pieces".to_string(), Json::Number(1)), ("name".to_string(), text("n"))]),
    )]));
    assert_eq!(
        nested,
        Json::Object(vec![("info".to_string(), Json::Object(vec![("name".to_string(), text("n"))]))])
    );
    assert_eq!(strip_pieces(Json::Number(3)), Json::Number(3));
}
