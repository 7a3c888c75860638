use minigit::clone::{
    check_discovery_status, collect_want_ids, handle_fetch_response, normalize_url, parsed_response,
    post_content, split_ack_pack,
};
use minigit::store::ObjectStore;
use minigit::GitError;
use sha1::{Digest, Sha1};
use std::io::Write;

fn pkt(payload: &[u8]) -> Vec<u8> {
    let mut line = format!("{:04x}", payload.len() + 4).into_bytes();
    line.extend_from_slice(payload);
    line
}

fn zlib(data: &[u8]) -> Vec<u8> {
    let mut e = flate2::write::ZlibEncoder::new(Vec::new(), flate2::Compression::default());
    e.write_all(data).unwrap();
    e.finish().unwrap()
}

fn tiny_pack() -> Vec<u8> {
    let mut body: Vec<u8> = Vec::new();
    body.push((3 << 4) | 5);
    body.extend(zlib(b"hello"));
    let mut p: Vec<u8> = b"PACK".to_vec();
    p.extend_from_slice(&2u32.to_be_bytes());
    p.extend_from_slice(&1u32.to_be_bytes());
    p.extend_from_slice(&body);
    let d = Sha1::digest(&p);
    p.extend_from_slice(&d);
    p
}

#[test]
fn pkt_lines_parse_and_skip_flush() {
    let mut adv: Vec<u8> = Vec::new();
    adv.extend(pkt(b"# service=git-upload-pack\n"));
    adv.extend(b"0000");
    adv.extend(pkt(b"abc"));
    let lines = parsed_response(&adv).unwrap();
    assert_eq!(lines.len(), 2);
    assert_eq!(lines[0], b"# service=git-upload-pack\n".to_vec());
    assert_eq!(lines[1], b"abc".to_vec());
}

#[test]
fn pkt_lines_truncated_is_protocol_error() {
    let adv: Vec<u8> = b"003".to_vec();
    assert_eq!(parsed_response(&adv).unwrap_err(), GitError::ProtocolError);
}

#[test]
fn pkt_lines_bad_digits_is_protocol_error() {
    let adv: Vec<u8> = b"zzzzwhatever".to_vec();
    assert_eq!(parsed_response(&adv).unwrap_err(), GitError::ProtocolError);
}

#[test]
fn pkt_lines_short_count_is_protocol_error() {
    let adv: Vec<u8> = b"0002".to_vec();
    assert_eq!(parsed_response(&adv).unwrap_err(), GitError::ProtocolError);
}

#[test]
fn head_only_advertisement_wants_nothing() {
    let id = "a".repeat(40);
    let mut adv: Vec<u8> = Vec::new();
    adv.extend(pkt(b"# service=git-upload-pack\n"));
    adv.extend(b"0000");
    adv.extend(pkt(
        format!("{} HEAD\x00multi_ack side-band\n", id).as_bytes(),
    ));
    adv.extend(b"0000");
    let lines = parsed_response(&adv).unwrap();
    let ids = collect_want_ids(&lines);
    assert!(ids.is_empty());
    // the negotiation body consists only of the flush and the done line
    let body = post_content(&lines);
    assert_eq!(body, b"00000009done\n".to_vec());
}

#[test]
fn advertised_refs_become_wants() {
    let id1 = "1234567890abcdef1234567890abcdef12345678";
    let id2 = "89abcdef1234567890abcdef1234567890abcdef";
    let head = "a".repeat(40);
    let mut adv: Vec<u8> = Vec::new();
    adv.extend(pkt(b"# service=git-upload-pack\n"));
    adv.extend(b"0000");
    adv.extend(pkt(format!("{} HEAD\x00caps\n", head).as_bytes()));
    adv.extend(pkt(format!("{} refs/heads/master\n", id1).as_bytes()));
    adv.extend(pkt(format!("{} refs/tags/v1\n", id2).as_bytes()));
    adv.extend(b"0000");
    let lines = parsed_response(&adv).unwrap();
    let ids = collect_want_ids(&lines);
    assert_eq!(ids.len(), 2);
    assert_eq!(ids[0], id1.as_bytes().to_vec());
    assert_eq!(ids[1], id2.as_bytes().to_vec());
    let body = post_content(&lines);
    let expected = format!("0032want {}\n0032want {}\n00000009done\n", id1, id2);
    assert_eq!(body, expected.into_bytes());
}

#[test]
fn split_ack_from_pack_bytes() {
    let mut resp: Vec<u8> = b"0008NAK\n".to_vec();
    resp.extend(b"PACKDATA");
    let (ack, rest) = split_ack_pack(&resp).unwrap();
    assert_eq!(ack, b"0008NAK".to_vec());
    assert_eq!(rest, b"PACKDATA".to_vec());
}

#[test]
fn missing_ack_is_protocol_error() {
    let resp: Vec<u8> = b"no newline here".to_vec();
    assert_eq!(split_ack_pack(&resp).unwrap_err(), GitError::ProtocolError);
}

#[test]
fn url_normalization_cases() {
    assert_eq!(
        normalize_url(&b"http://x/repo.git/".to_vec()),
        b"http://x/repo.git".to_vec()
    );
    assert_eq!(
        normalize_url(&b"http://x/repo/".to_vec()),
        b"http://x/repo.git".to_vec()
    );
    assert_eq!(
        normalize_url(&b"http://x/repo".to_vec()),
        b"http://x/repo.git".to_vec()
    );
}

#[test]
fn discovery_status_gate() {
    assert!(check_discovery_status(200).is_ok());
    assert!(check_discovery_status(304).is_ok());
    assert_eq!(
        check_discovery_status(404).unwrap_err(),
        GitError::UnreachableRemote
    );
    assert_eq!(
        check_discovery_status(500).unwrap_err(),
        GitError::UnreachableRemote
    );
}

#[test]
fn fetch_response_decodes_pack_into_store() {
    let mut resp: Vec<u8> = b"0008NAK\n".to_vec();
    resp.extend(tiny_pack());
    let mut store = ObjectStore::new();
    assert_eq!(handle_fetch_response(&mut store, &resp).unwrap(), 1);
    let framed = b"blob 5\x00hello";
    let id = Sha1::digest(framed).to_vec();
    assert!(store.has(&id));
}

#[test]
fn fetch_response_without_ack_is_protocol_error() {
    let resp: Vec<u8> = tiny_pack().into_iter().filter(|b| *b != b'\n').collect();
    let mut store = ObjectStore::new();
    assert_eq!(
        handle_fetch_response(&mut store, &resp).unwrap_err(),
        GitError::ProtocolError
    );
}

#[test]
fn fetch_response_with_bad_pack_is_invalid_header() {
    let resp: Vec<u8> = b"0008NAK\nnot a pack at all, but long enough to pass".to_vec();
    let mut store = ObjectStore::new();
    assert_eq!(
        handle_fetch_response(&mut store, &resp).unwrap_err(),
        GitError::InvalidHeader
    );
}
