//! Tests of the host-function bridge: the variable store, the error slot,
//! and the configuration lookup, driven the way a guest would drive them.

use extism_runtime::error::RuntimeError;
use extism_runtime::kv::KvStore;
use extism_runtime::plugin::Plugin;

/// Place bytes in guest memory the way a guest would: allocate, then store
/// byte by byte.
fn put_bytes(p: &mut Plugin, data: &[u8]) -> i64 {
    let off = p.allocate(data.len() as i64).unwrap();
    for (i, b) in data.iter().enumerate() {
        p.store_u8(off + i as i64, *b).unwrap();
    }
    off
}

fn read_block(p: &Plugin, off: i64) -> Vec<u8> {
    let len = p.length(off).unwrap();
    let mut out = Vec::new();
    for i in 0..len {
        out.push(p.load_u8(off + i).unwrap());
    }
    out
}

fn fresh_plugin() -> Plugin {
    Plugin::new(KvStore::new(), Vec::new(), false)
}

#[test]
fn var_get_missing_key_returns_sentinel() {
    let mut p = fresh_plugin();
    let key = put_bytes(&mut p, b"missing");
    assert_eq!(p.var_get(key), Ok(0));
}

#[test]
fn var_set_and_get_round_trip() {
    let mut p = fresh_plugin();
    let key = put_bytes(&mut p, b"name");
    let value = put_bytes(&mut p, b"value bytes");
    p.var_set(key, value).unwrap();
    let out = p.var_get(key).unwrap();
    assert_ne!(out, 0);
    assert_eq!(read_block(&p, out), b"value bytes".to_vec());
}

#[test]
fn var_set_zero_value_offset_removes() {
    let mut p = fresh_plugin();
    let key = put_bytes(&mut p, b"k");
    let value = put_bytes(&mut p, b"v");
    p.var_set(key, value).unwrap();
    assert_ne!(p.var_get(key).unwrap(), 0);
    p.var_set(key, 0).unwrap();
    assert_eq!(p.var_get(key), Ok(0));
}

#[test]
fn var_set_invalid_offsets_fail() {
    let mut p = fresh_plugin();
    let key = put_bytes(&mut p, b"k");
    assert_eq!(p.var_set(12345, key), Err(RuntimeError::InvalidOffset));
    assert_eq!(p.var_set(key, 12345), Err(RuntimeError::InvalidOffset));
    assert_eq!(p.var_get(777), Err(RuntimeError::InvalidOffset));
}

#[test]
fn var_store_over_ceiling_rejects_additions() {
    let mut p = fresh_plugin();
    // one value pushes the store past the 100 MiB ceiling
    let key = put_bytes(&mut p, b"big");
    let huge = p.allocate(100 * 1024 * 1024 + 1).unwrap();
    p.var_set(key, huge).unwrap();
    p.free(huge);
    // an addition now fails, whether inserting or overwriting
    let key2 = put_bytes(&mut p, b"more");
    let small = put_bytes(&mut p, b"x");
    assert_eq!(p.var_set(key2, small), Err(RuntimeError::VarStoreFull));
    assert_eq!(p.var_set(key, small), Err(RuntimeError::VarStoreFull));
    // a removal still succeeds
    p.var_set(key, 0).unwrap();
    // and the store accepts additions again
    p.var_set(key2, small).unwrap();
}

#[test]
fn error_set_stores_and_clears() {
    let mut p = fresh_plugin();
    assert_eq!(p.get_error(), None);
    let msg = put_bytes(&mut p, b"guest says no");
    p.error_set(msg).unwrap();
    assert_eq!(p.get_error(), Some(b"guest says no".to_vec()));
    p.error_set(0).unwrap();
    assert_eq!(p.get_error(), None);
    assert_eq!(p.error_set(4242), Err(RuntimeError::InvalidOffset));
}

#[test]
fn config_get_copies_value_into_fresh_block() {
    let mut config = KvStore::new();
    config.set(b"endpoint".to_vec(), b"https://example.invalid".to_vec());
    let mut p = Plugin::new(config, Vec::new(), false);
    let key = put_bytes(&mut p, b"endpoint");
    let out = p.config_get(key).unwrap();
    assert_ne!(out, 0);
    assert_eq!(read_block(&p, out), b"https://example.invalid".to_vec());
}

#[test]
fn config_get_missing_key_fails() {
    let mut p = fresh_plugin();
    let key = put_bytes(&mut p, b"nope");
    assert_eq!(p.config_get(key), Err(RuntimeError::MissingConfigKey));
    assert_eq!(p.config_get(999), Err(RuntimeError::InvalidOffset));
}

#[test]
fn input_and_output_markers() {
    let mut p = fresh_plugin();
    p.prepare_call(b"payload").unwrap();
    let input = p.input_offset();
    assert_ne!(input, 0);
    assert_eq!(read_block(&p, input), b"payload".to_vec());
    assert_eq!(p.output_length(), 0);
    // the guest reports its result; the host reads it lazily
    let out = put_bytes(&mut p, b"result");
    p.output_set(out, 6);
    assert_eq!(p.output_length(), 6);
    assert_eq!(p.output_bytes(), Some(b"result".to_vec()));
    // a bogus declared range is caught on read
    p.output_set(out, i64::MAX);
    assert_eq!(p.output_bytes(), None);
}

#[test]
fn http_request_blocks_round_trip() {
    let mut p = fresh_plugin();
    let req = put_bytes(&mut p, b"{\"url\": \"http://example.invalid\"}");
    let body = p.http_request_input(req).unwrap();
    assert_eq!(body, b"{\"url\": \"http://example.invalid\"}".to_vec());
    assert_eq!(p.http_request_input(31337), Err(RuntimeError::InvalidOffset));
    let resp = p.http_response_store(b"response body").unwrap();
    assert_eq!(read_block(&p, resp), b"response body".to_vec());
}

#[test]
fn allocate_rejects_impossible_sizes() {
    let mut p = fresh_plugin();
    assert_eq!(p.allocate(-1), Err(RuntimeError::AllocationFailed));
    assert_eq!(p.allocate(i64::MAX), Err(RuntimeError::AllocationFailed));
    let off = p.allocate(0).unwrap();
    assert_ne!(off, 0);
    assert_eq!(p.length(off), Ok(0));
}
