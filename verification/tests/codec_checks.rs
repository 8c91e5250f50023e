//! Checks of the component codec and the key layouts.

use sled_datastore::codec::{
    append_ident, append_u64_be, append_uuid, hash_bytes, read_ident, read_u64, read_uuid,
    Ident,
};
use sled_datastore::errors::DSError;
use sled_datastore::models::PropValue;
use sled_datastore::vertex_property_manager;

fn ident(s: &str) -> Ident {
    Ident::new(s.as_bytes().to_vec()).unwrap()
}

#[test]
fn test_index_key_and_reco() {
    let context = uuid::Context::new(24);
    let ts = uuid::Timestamp::now(&context);
    let id = uuid::Uuid::new_v1(ts, &[1, 2, 3, 4, 5, 6]);
    let name = ident("_changesetID");
    let value = PropValue::new(
        serde_json::to_vec(&serde_json::Value::String(
            "Changesets/25dfc1e7-fdd1-4027-9e98-48a8429a9c70".to_string(),
        ))
        .unwrap(),
    );
    let uid: [u8; 16] = id.into_bytes();
    let key = vertex_property_manager::key_value_index(&uid, &value, &name);
    let (n, _v, rid) = vertex_property_manager::read_key_value_index(&key).unwrap();
    assert_eq!(n.as_bytes().as_slice(), b"_changesetID");
    assert_eq!(rid, uid);
}

#[test]
fn component_sequence_round_trip() {
    // Encode a UUID, an identifier, and a 64-bit integer; read them back in
    // the order they were written.
    let mut buf: Vec<u8> = Vec::new();
    let id: [u8; 16] = [9, 8, 7, 6, 5, 4, 3, 2, 1, 0, 11, 12, 13, 14, 15, 16];
    append_uuid(&mut buf, &id);
    append_ident(&mut buf, &ident("knows"));
    append_u64_be(&mut buf, 0x0123456789abcdef);
    let mut pos: usize = 0;
    let rid = read_uuid(&buf, &mut pos).unwrap();
    let rident = read_ident(&buf, &mut pos).unwrap();
    let rnum = read_u64(&buf, &mut pos).unwrap();
    assert_eq!(rid, id);
    assert_eq!(rident.as_bytes().as_slice(), b"knows");
    assert_eq!(rnum, 0x0123456789abcdef);
    assert_eq!(pos, buf.len());
}

#[test]
fn identifier_length_byte_self_delimits() {
    let mut buf: Vec<u8> = Vec::new();
    append_ident(&mut buf, &ident(""));
    append_ident(&mut buf, &ident("ab"));
    assert_eq!(buf, vec![0u8, 2, b'a', b'b']);
    let mut pos: usize = 0;
    let first = read_ident(&buf, &mut pos).unwrap();
    let second = read_ident(&buf, &mut pos).unwrap();
    assert_eq!(first.as_bytes().len(), 0);
    assert_eq!(second.as_bytes().as_slice(), b"ab");
}

#[test]
fn identifier_rejects_over_long_names() {
    assert!(Ident::new(vec![b'x'; 255]).is_some());
    assert!(Ident::new(vec![b'x'; 256]).is_none());
}

#[test]
fn u64_big_endian_layout() {
    let mut buf: Vec<u8> = Vec::new();
    append_u64_be(&mut buf, 1);
    assert_eq!(buf, vec![0u8, 0, 0, 0, 0, 0, 0, 1]);
}

#[test]
fn canonical_hash_matches_reference_values() {
    // 64-bit FNV-1a of the empty string and of "a".
    assert_eq!(hash_bytes(&Vec::new()), 0xcbf29ce484222325);
    assert_eq!(hash_bytes(&vec![b'a']), 0xaf63dc4c8601ec8c);
}

#[test]
fn truncated_index_key_is_a_decode_error() {
    let buf: Vec<u8> = vec![3, b'a'];
    match vertex_property_manager::read_key_value_index(&buf) {
        Err(DSError::Decode) => {},
        _ => panic!("expected a decode error"),
    }
}

#[test]
fn read_uuid_needs_sixteen_bytes() {
    let buf: Vec<u8> = vec![1, 2, 3];
    let mut pos: usize = 0;
    assert!(read_uuid(&buf, &mut pos).is_err());
    assert_eq!(pos, 0);
}
