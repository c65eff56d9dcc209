use qspost::codec::{decode, encode, DecodeError};
use qspost::session::SessionRecord;

fn sample_record() -> SessionRecord {
    SessionRecord {
        instance_base_url: String::from("example.social"),
        client_id: String::from("id-123"),
        client_secret: String::from("SECRET-REDACTED"),
        access_token: Some(String::from("token-xyz")),
        post_privately_default: true,
        hashtags: vec![String::from("#a"), String::from("#b")],
    }
}

fn pending_record() -> SessionRecord {
    SessionRecord {
        instance_base_url: String::from("example.social"),
        client_id: String::from("id-123"),
        client_secret: String::from("SECRET-REDACTED"),
        access_token: None,
        post_privately_default: false,
        hashtags: vec![],
    }
}

fn assert_same(a: &SessionRecord, b: &SessionRecord) {
    assert_eq!(a.instance_base_url, b.instance_base_url);
    assert_eq!(a.client_id, b.client_id);
    assert_eq!(a.client_secret, b.client_secret);
    assert_eq!(a.access_token, b.access_token);
    assert_eq!(a.post_privately_default, b.post_privately_default);
    assert_eq!(a.hashtags, b.hashtags);
}

#[test]
fn round_trip_authorized_record() {
    let r = sample_record();
    let token = encode(&r);
    let back = decode(&token).expect("a freshly encoded token must decode");
    assert_same(&r, &back);
}

#[test]
fn round_trip_pending_record() {
    let r = pending_record();
    let token = encode(&r);
    let back = decode(&token).expect("a freshly encoded token must decode");
    assert_same(&r, &back);
}

#[test]
fn round_trip_unicode_and_empty_fields() {
    let r = SessionRecord {
        instance_base_url: String::from("soziales.netz.example"),
        client_id: String::new(),
        client_secret: String::from("p\u{e4}ss\u{1f512}"),
        access_token: Some(String::new()),
        post_privately_default: false,
        hashtags: vec![String::from("#"), String::from("#\u{fc}ber")],
    };
    let token = encode(&r);
    let back = decode(&token).expect("a freshly encoded token must decode");
    assert_same(&r, &back);
}

#[test]
fn flipping_any_byte_is_corrupt() {
    let token = encode(&sample_record());
    for i in 0..token.len() {
        let mut bad = token.clone();
        bad[i] ^= 0x5a;
        assert_eq!(
            decode(&bad).unwrap_err(),
            DecodeError::Corrupt,
            "flip at byte {} must be detected",
            i
        );
    }
}

#[test]
fn empty_and_short_tokens_are_corrupt() {
    assert_eq!(decode(&vec![]).unwrap_err(), DecodeError::Corrupt);
    assert_eq!(decode(&vec![1, 2, 3]).unwrap_err(), DecodeError::Corrupt);
}

#[test]
fn truncated_token_fails() {
    let token = encode(&sample_record());
    let shorter = token[..token.len() - 1].to_vec();
    assert!(decode(&shorter).is_err());
}

#[test]
fn well_summed_garbage_is_malformed() {
    // A payload that claims a 7-character string but ends immediately,
    // followed by its correct checksum, passes the integrity check and
    // fails the grammar.
    let payload: Vec<u8> = vec![7, 0, 0, 0, 0, 0, 0, 0];
    let sum: u64 = payload.iter().map(|b| *b as u64).sum();
    let mut token = payload;
    token.extend_from_slice(&sum.to_le_bytes());
    assert_eq!(decode(&token).unwrap_err(), DecodeError::Malformed);
}

#[test]
fn trailing_bytes_are_malformed() {
    // A valid record image with one extra byte before a correct checksum.
    let r = pending_record();
    let token = encode(&r);
    let mut payload = token[..token.len() - 8].to_vec();
    payload.push(0);
    let sum: u64 = payload.iter().map(|b| *b as u64).sum();
    let mut bad = payload;
    bad.extend_from_slice(&sum.to_le_bytes());
    assert_eq!(decode(&bad).unwrap_err(), DecodeError::Malformed);
}
