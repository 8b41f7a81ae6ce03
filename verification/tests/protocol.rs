use base64::Engine;
use p256::elliptic_curve::sec1::ToEncodedPoint;

use rage_plugin_se::codec::{read_stanza, write_stanza, MemStream, Stanza};
use rage_plugin_se::crypto::DefaultCrypto;
use rage_plugin_se::plugin::{Plugin, PluginError};
use rage_plugin_se::strutil::dec_str;

fn b64(data: &[u8]) -> String {
    base64::engine::general_purpose::STANDARD.encode(data)
}

fn lines(strs: &[&str]) -> Vec<String> {
    strs.iter().map(|s| s.to_string()).collect()
}

fn roundtrip_body(len: usize) {
    let body: Vec<u8> = (0..len).map(|i| (i % 251) as u8).collect();
    let args = vec!["alpha".to_string(), "beta".to_string()];
    let stanza = Stanza::new("test-type", args.clone(), body.clone());
    let mut out_stream = MemStream::new(Vec::new());
    write_stanza(&mut out_stream, stanza);
    let written = out_stream.into_output();
    let mut in_stream = MemStream::new(written);
    let read = read_stanza(&mut in_stream).expect("round trip must parse");
    assert_eq!(read.type_str, "test-type");
    assert_eq!(read.args, args);
    assert_eq!(read.body, body);
}

#[test]
fn stanza_roundtrip_empty_body() {
    roundtrip_body(0);
}

#[test]
fn stanza_roundtrip_63_bytes() {
    roundtrip_body(63);
}

#[test]
fn stanza_roundtrip_64_bytes() {
    roundtrip_body(64);
}

#[test]
fn stanza_roundtrip_65_bytes() {
    roundtrip_body(65);
}

#[test]
fn stanza_roundtrip_long_body() {
    roundtrip_body(1000);
}

#[test]
fn write_stanza_exact_lines() {
    let body = vec![1u8; 65];
    let stanza = Stanza::new("t", vec!["a".to_string()], body.clone());
    let mut s = MemStream::new(Vec::new());
    write_stanza(&mut s, stanza);
    let out = s.into_output();
    assert_eq!(out.len(), 4);
    assert_eq!(out[0], "t a");
    assert_eq!(out[1], b64(&body[..64]));
    assert_eq!(out[2], b64(&body[64..]));
    assert_eq!(out[3], "");
}

#[test]
fn read_stanza_eof_is_incomplete() {
    let mut s = MemStream::new(Vec::new());
    match read_stanza(&mut s) {
        Err(PluginError::IncompleteStanza) => {}
        other => panic!("expected incomplete stanza, got {:?}", other.map(|st| st.type_str)),
    }
}

#[test]
fn read_stanza_empty_header_is_incomplete() {
    let mut s = MemStream::new(lines(&["", "done", ""]));
    match read_stanza(&mut s) {
        Err(PluginError::IncompleteStanza) => {}
        other => panic!("expected incomplete stanza, got {:?}", other.map(|st| st.type_str)),
    }
}

#[test]
fn read_stanza_bad_base64_is_error() {
    let mut s = MemStream::new(lines(&["t", "!!!not-base64!!!", ""]));
    match read_stanza(&mut s) {
        Err(PluginError::Base64Error) => {}
        other => panic!("expected base64 error, got {:?}", other.map(|st| st.type_str)),
    }
}

#[test]
fn read_stanza_missing_terminator_is_incomplete() {
    let mut s = MemStream::new(lines(&["t", "aGVsbG8="]));
    match read_stanza(&mut s) {
        Err(PluginError::IncompleteStanza) => {}
        other => panic!("expected incomplete stanza, got {:?}", other.map(|st| st.type_str)),
    }
}

#[test]
fn as_error_builds_error_stanza() {
    let st = Stanza::as_error("recipient", vec!["0".to_string()], "boom");
    assert_eq!(st.type_str, "error-recipient");
    assert_eq!(st.args, vec!["0".to_string()]);
    assert_eq!(st.body, b"boom".to_vec());
}

#[test]
fn dec_str_formats_decimal() {
    assert_eq!(dec_str(0), "0");
    assert_eq!(dec_str(7), "7");
    assert_eq!(dec_str(10), "10");
    assert_eq!(dec_str(105), "105");
    assert_eq!(dec_str(u64::MAX), "18446744073709551615");
}

/// The recipient-v1 session of the end-to-end scenario: one recipient, one
/// 16-byte file key, then `done`; the engine must answer with exactly one
/// `recipient-stanza 0 se <ephemeral>` whose body is the ciphertext, then
/// `done`.
#[test]
fn recipient_v1_end_to_end() {
    let secret = p256::SecretKey::random(&mut rand::thread_rng());
    let recipient = soft_recipient(&secret);
    let file_key = [7u8; 16];
    let input = lines(&[
        &format!("add-recipient {}", recipient),
        "",
        "wrap-file-key",
        &b64(&file_key),
        "",
        "done",
        "",
    ]);
    let mut stream = MemStream::new(input);
    let mut plugin = Plugin::new(DefaultCrypto::new());
    plugin.run_recipient_v1(&mut stream);
    let out = stream.into_output();
    // recipient-stanza header, ciphertext line, terminator, done header, terminator
    assert_eq!(out.len(), 5);
    let header: Vec<&str> = out[0].split(' ').collect();
    assert_eq!(header[0], "recipient-stanza");
    assert_eq!(header[1], "0");
    assert_eq!(header[2], "se");
    let eph = base64::engine::general_purpose::STANDARD
        .decode(header[3])
        .expect("ephemeral share must be base64");
    assert_eq!(eph.len(), 33);
    let ct = base64::engine::general_purpose::STANDARD
        .decode(&out[1])
        .expect("ciphertext must be base64");
    assert_eq!(ct.len(), 32);
    assert_eq!(out[2], "");
    assert_eq!(out[3], "done");
    assert_eq!(out[4], "");
}

/// A malformed first line (empty) terminates the session with a terminal
/// error stanza instead of hanging.
#[test]
fn recipient_v1_empty_first_line_terminates() {
    let mut stream = MemStream::new(lines(&["", "done", ""]));
    let mut plugin = Plugin::new(DefaultCrypto::new());
    plugin.run_recipient_v1(&mut stream);
    let out = stream.into_output();
    assert!(out[0].starts_with("error-internal"));
}

/// Ordering: two file keys and two recipients give exactly 2x2 responses
/// whose indices enumerate the pairs in (file-key, recipient) order,
/// followed by one `done`.
#[test]
fn recipient_v1_ordering_two_by_two() {
    let s1 = p256::SecretKey::random(&mut rand::thread_rng());
    let s2 = p256::SecretKey::random(&mut rand::thread_rng());
    let r1 = soft_recipient(&s1);
    let r2 = soft_recipient(&s2);
    let fk1 = [1u8; 16];
    let fk2 = [2u8; 16];
    let input = lines(&[
        &format!("add-recipient {}", r1),
        "",
        &format!("add-recipient {}", r2),
        "",
        "wrap-file-key",
        &b64(&fk1),
        "",
        "wrap-file-key",
        &b64(&fk2),
        "",
        "done",
        "",
    ]);
    let mut stream = MemStream::new(input);
    let mut plugin = Plugin::new(DefaultCrypto::new());
    plugin.run_recipient_v1(&mut stream);
    let out = stream.into_output();
    // Four responses of (header, ciphertext, terminator), then done.
    assert_eq!(out.len(), 4 * 3 + 2);
    let expected_indices = ["0", "0", "1", "1"];
    for (pair, expected_index) in expected_indices.iter().enumerate() {
        let header: Vec<&str> = out[3 * pair].split(' ').collect();
        assert_eq!(header[0], "recipient-stanza");
        assert_eq!(header[1], *expected_index);
        assert_eq!(header[2], "se");
        assert_eq!(out[3 * pair + 2], "");
    }
    assert_eq!(out[12], "done");
    assert_eq!(out[13], "");
}

/// Unknown stanza types are ignored; a bad recipient is reported per entry
/// and the session continues with the remaining entries.
#[test]
fn recipient_v1_bad_recipient_reported_and_skipped() {
    let secret = p256::SecretKey::random(&mut rand::thread_rng());
    let good = soft_recipient(&secret);
    let input = lines(&[
        "add-recipient not-a-bech32-string",
        "",
        "future-stanza-type keep-calm",
        "",
        &format!("add-recipient {}", good),
        "",
        "wrap-file-key",
        &b64(&[9u8; 16]),
        "",
        "done",
        "",
    ]);
    let mut stream = MemStream::new(input);
    let mut plugin = Plugin::new(DefaultCrypto::new());
    plugin.run_recipient_v1(&mut stream);
    let out = stream.into_output();
    assert!(out[0].starts_with("error-recipient"));
    // One pair response for the one good recipient, then done.
    let resp: Vec<&str> = out
        .iter()
        .filter(|l| l.starts_with("recipient-stanza"))
        .map(|l| l.as_str())
        .collect();
    assert_eq!(resp.len(), 1);
    assert_eq!(out[out.len() - 2], "done");
}

/// A wrap failure for one pair (a file key of the wrong length) yields an
/// `error-recipient` for that pair only.
#[test]
fn recipient_v1_wrong_file_key_length_gives_error_pair() {
    let secret = p256::SecretKey::random(&mut rand::thread_rng());
    let recipient = soft_recipient(&secret);
    let input = lines(&[
        &format!("add-recipient {}", recipient),
        "",
        "wrap-file-key",
        &b64(&[1u8; 5]),
        "",
        "done",
        "",
    ]);
    let mut stream = MemStream::new(input);
    let mut plugin = Plugin::new(DefaultCrypto::new());
    plugin.run_recipient_v1(&mut stream);
    let out = stream.into_output();
    let header: Vec<&str> = out[0].split(' ').collect();
    assert_eq!(header[0], "error-recipient");
    assert_eq!(header[1], "0");
    assert_eq!(out[out.len() - 2], "done");
}

fn soft_recipient(secret: &p256::SecretKey) -> String {
    let pk = secret
        .public_key()
        .to_encoded_point(true)
        .as_bytes()
        .to_vec();
    rage_plugin_se::encoder::encode_recipient(&pk, rage_plugin_se::encoder::RecipientType::SE)
}

#[test]
fn session_reader_stops_at_done_stanza() {
    let mut reader = rage_plugin_se::codec::SessionReader::new();
    assert!(!reader.push_line("wrap-file-key".to_string()));
    assert!(!reader.push_line(b64(&[1u8; 16])));
    assert!(!reader.push_line("".to_string()));
    assert!(!reader.push_line("done".to_string()));
    assert!(reader.push_line("".to_string()));
    assert_eq!(
        reader.into_lines(),
        vec![
            "wrap-file-key".to_string(),
            b64(&[1u8; 16]),
            "".to_string(),
            "done".to_string(),
            "".to_string(),
        ]
    );
}

#[test]
fn session_reader_stops_on_malformed_empty_header() {
    let mut reader = rage_plugin_se::codec::SessionReader::new();
    assert!(reader.push_line("".to_string()));
}

#[test]
fn read_stanza_empty_type_tag_is_invalid() {
    let mut s = MemStream::new(lines(&[" leading-space", ""]));
    match read_stanza(&mut s) {
        Err(PluginError::InvalidStanza) => {}
        other => panic!("expected invalid stanza, got {:?}", other.map(|st| st.type_str)),
    }
}

#[test]
fn stanza_roundtrip_no_args() {
    let stanza = Stanza::new("done", Vec::new(), Vec::new());
    let mut out_stream = MemStream::new(Vec::new());
    write_stanza(&mut out_stream, stanza);
    let written = out_stream.into_output();
    assert_eq!(written, vec!["done".to_string(), "".to_string()]);
    let mut in_stream = MemStream::new(written);
    let read = read_stanza(&mut in_stream).expect("round trip must parse");
    assert_eq!(read.type_str, "done");
    assert!(read.args.is_empty());
    assert!(read.body.is_empty());
}
