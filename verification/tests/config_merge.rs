//! Tests of configuration merging, both from parsed pairs and from the JSON
//! form the embedder hands in.

use extism_runtime::error::RuntimeError;
use extism_runtime::kv::KvStore;
use extism_runtime::plugin::Plugin;

fn put_bytes(p: &mut Plugin, data: &[u8]) -> i64 {
    let off = p.allocate(data.len() as i64).unwrap();
    for (i, b) in data.iter().enumerate() {
        p.store_u8(off + i as i64, *b).unwrap();
    }
    off
}

fn read_block(p: &Plugin, off: i64) -> Vec<u8> {
    let len = p.length(off).unwrap();
    let mut out = Vec::new();
    for i in 0..len {
        out.push(p.load_u8(off + i).unwrap());
    }
    out
}

#[test]
fn merge_inserts_overwrites_and_removes() {
    let mut config = KvStore::new();
    config.set(b"a".to_vec(), b"1".to_vec());
    config.set(b"keep".to_vec(), b"old".to_vec());
    let mut p = Plugin::new(config, Vec::new(), false);
    let updates = vec![
        (b"b".to_vec(), Some(b"2".to_vec())),
        (b"a".to_vec(), None),
        (b"keep".to_vec(), Some(b"new".to_vec())),
    ];
    p.config_merge(&updates);
    let a = put_bytes(&mut p, b"a");
    assert_eq!(p.config_get(a), Err(RuntimeError::MissingConfigKey));
    let b = put_bytes(&mut p, b"b");
    let out_b = p.config_get(b).unwrap();
    assert_eq!(read_block(&p, out_b), b"2".to_vec());
    let keep = put_bytes(&mut p, b"keep");
    let out_keep = p.config_get(keep).unwrap();
    assert_eq!(read_block(&p, out_keep), b"new".to_vec());
}

#[test]
fn json_merge_scenario() {
    // created with {a: "1"}, merged with {b: "2", a: null}
    let mut config = KvStore::new();
    config.set(b"a".to_vec(), b"1".to_vec());
    let mut p = Plugin::new(config, Vec::new(), false);
    assert!(p.update_config_json(b"{\"b\": \"2\", \"a\": null}"));
    let a = put_bytes(&mut p, b"a");
    assert_eq!(p.config_get(a), Err(RuntimeError::MissingConfigKey));
    let b = put_bytes(&mut p, b"b");
    let out_b = p.config_get(b).unwrap();
    assert_eq!(read_block(&p, out_b), b"2".to_vec());
}

#[test]
fn json_merge_rejects_malformed_input() {
    let mut p = Plugin::new(KvStore::new(), Vec::new(), false);
    assert!(!p.update_config_json(b"this is not json"));
    assert_eq!(p.get_error(), Some(b"Invalid config JSON".to_vec()));
    // a JSON value that is not an object of strings and nulls is rejected too
    assert!(!p.update_config_json(b"[1, 2, 3]"));
    assert!(!p.update_config_json(b"{\"a\": 7}"));
    // and a well-formed object still merges afterwards
    assert!(p.update_config_json(b"{\"a\": \"ok\"}"));
    let a = put_bytes(&mut p, b"a");
    let out = p.config_get(a).unwrap();
    assert_eq!(read_block(&p, out), b"ok".to_vec());
}

#[test]
fn kv_store_semantics() {
    let mut kv = KvStore::new();
    assert_eq!(kv.get(b"x"), None);
    kv.set(b"x".to_vec(), b"1".to_vec());
    kv.set(b"y".to_vec(), b"22".to_vec());
    assert_eq!(kv.get(b"x"), Some(b"1".to_vec()));
    kv.set(b"x".to_vec(), b"333".to_vec());
    assert_eq!(kv.get(b"x"), Some(b"333".to_vec()));
    // total value bytes: "333" and "22" make five
    assert!(kv.exceeds(4));
    assert!(!kv.exceeds(5));
    kv.remove(b"x");
    assert_eq!(kv.get(b"x"), None);
    assert_eq!(kv.get(b"y"), Some(b"22".to_vec()));
    kv.remove(b"never there");
}
