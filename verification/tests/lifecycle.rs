//! Tests of the registry and call lifecycle: handles, exclusive access,
//! outcome classification, timeouts, and reinstantiation.

use extism_runtime::context::Context;
use extism_runtime::error::RuntimeError;
use extism_runtime::kv::KvStore;
use extism_runtime::plugin::CallOutcome;
use extism_runtime::plugin::ExtismFunction;
use extism_runtime::plugin::Plugin;
use extism_runtime::plugin::ValKind;
use extism_runtime::timer::TimerManager;

fn fresh_plugin(with_wasi: bool) -> Plugin {
    Plugin::new(KvStore::new(), Vec::new(), with_wasi)
}

fn put_bytes(p: &mut Plugin, data: &[u8]) -> i64 {
    let off = p.allocate(data.len() as i64).unwrap();
    for (i, b) in data.iter().enumerate() {
        p.store_u8(off + i as i64, *b).unwrap();
    }
    off
}

#[test]
fn handles_are_monotonic_and_never_reused() {
    let mut ctx = Context::new();
    let a = ctx.register_plugin(fresh_plugin(false));
    let b = ctx.register_plugin(fresh_plugin(false));
    assert_eq!(a, 0);
    assert_eq!(b, 1);
    ctx.remove_plugin(a);
    let c = ctx.register_plugin(fresh_plugin(false));
    assert_eq!(c, 2);
    assert!(!ctx.plugin_exists(a));
    assert!(ctx.plugin_exists(b));
    assert!(ctx.plugin_exists(c));
}

#[test]
fn successful_call_round_trip() {
    let mut ctx = Context::new();
    let h = ctx.register_plugin(fresh_plugin(false));
    let mut p = ctx.begin_call(h).unwrap();
    p.prepare_call(b"ping").unwrap();
    // the guest would read its input through the bridge
    let input = p.input_offset();
    assert_eq!(p.length(input), Ok(4));
    // ... and declare its output before returning
    let out = put_bytes(&mut p, b"pong");
    p.output_set(out, 4);
    let status = p.conclude_call(CallOutcome::Success(None), false);
    assert_eq!(status, 0);
    assert_eq!(p.output_bytes(), Some(b"pong".to_vec()));
    assert_eq!(p.get_error(), None);
    ctx.end_call(h, p);
    assert!(ctx.plugin_exists(h));
}

#[test]
fn reentrant_calls_are_rejected() {
    let mut ctx = Context::new();
    let h = ctx.register_plugin(fresh_plugin(false));
    let p = ctx.begin_call(h).unwrap();
    // while the call is in flight the handle is absent: a second caller or
    // a re-entrant call cannot interleave
    assert!(ctx.begin_call(h).is_none());
    ctx.end_call(h, p);
    assert!(ctx.begin_call(h).is_some());
}

#[test]
fn single_result_constraint_rejects_before_execution() {
    let mut ctx = Context::new();
    let h = ctx.register_plugin(fresh_plugin(false));
    let mut p = ctx.begin_call(h).unwrap();
    p.prepare_call(b"in").unwrap();
    let input = p.input_offset();
    assert!(p.check_result_arity(0).is_ok());
    assert!(p.check_result_arity(1).is_ok());
    let err = p.check_result_arity(2).unwrap_err();
    assert_eq!(err, RuntimeError::TooManyResults);
    let status = p.record_failure(err);
    assert_eq!(status, -1);
    assert_eq!(p.record_failure(RuntimeError::FunctionNotFound), -1);
    assert_eq!(p.get_error(), Some(b"Function not found".to_vec()));
    let _ = p.record_failure(err);
    assert_eq!(p.get_error(), Some(b"Function has more than one result".to_vec()));
    // no side effects on the plugin's heap: the input block is untouched
    assert_eq!(p.length(input), Ok(2));
    ctx.end_call(h, p);
}

#[test]
fn outcome_classification() {
    let mut p = fresh_plugin(false);
    assert_eq!(p.conclude_call(CallOutcome::Success(Some(42)), false), 42);
    assert_eq!(p.get_error(), None);
    assert_eq!(p.conclude_call(CallOutcome::Exit(0, b"ok".to_vec()), false), 0);
    assert_eq!(p.get_error(), None);
    assert_eq!(p.conclude_call(CallOutcome::Exit(3, b"exited with 3".to_vec()), false), 3);
    assert_eq!(p.get_error(), Some(b"exited with 3".to_vec()));
    assert_eq!(p.conclude_call(CallOutcome::Fault(b"unreachable executed".to_vec()), false), -1);
    assert_eq!(p.get_error(), Some(b"unreachable executed".to_vec()));
}

#[test]
fn timeout_is_reported_and_isolated() {
    let mut ctx = Context::new();
    let slow = ctx.register_plugin(fresh_plugin(false));
    let other = ctx.register_plugin(fresh_plugin(false));
    let mut p = ctx.begin_call(slow).unwrap();
    p.prepare_call(b"work").unwrap();
    let status = p.conclude_call(CallOutcome::TimedOut, false);
    assert_eq!(status, -1);
    assert_eq!(p.get_error(), Some(b"timeout".to_vec()));
    ctx.end_call(slow, p);
    // the offending plugin can be removed without touching its neighbor
    ctx.remove_plugin(slow);
    assert!(!ctx.plugin_exists(slow));
    let mut q = ctx.begin_call(other).unwrap();
    q.prepare_call(b"still fine").unwrap();
    assert_eq!(q.conclude_call(CallOutcome::Success(None), false), 0);
    ctx.end_call(other, q);
}

#[test]
fn timer_deadlines() {
    let mut t = TimerManager::new();
    t.arm(7, 100);
    t.arm(9, 50);
    assert_eq!(t.next_expired(40), None);
    assert_eq!(t.next_expired(60), Some(9));
    assert_eq!(t.next_expired(60), None);
    // rearming replaces the deadline
    t.arm(7, 200);
    assert_eq!(t.next_expired(150), None);
    assert_eq!(t.next_expired(200), Some(7));
    // disarming reports whether the timer was armed
    t.arm(3, 10);
    assert!(t.disarm(3));
    assert!(!t.disarm(3));
    assert_eq!(t.next_expired(u64::MAX), None);
}

#[test]
fn reinstantiation_after_start_exit() {
    let mut ctx = Context::new();
    let h = ctx.register_plugin(fresh_plugin(true));
    let mut p = ctx.begin_call(h).unwrap();
    p.prepare_call(b"argv").unwrap();
    let input = p.input_offset();
    // the POSIX shim's `_start` returned through a zero exit
    let status = p.conclude_call(CallOutcome::Exit(0, b"exit".to_vec()), true);
    assert_eq!(status, 0);
    assert!(p.must_reinstantiate());
    // the embedder rebuilds the instance; the heap starts cleared
    p.reset_instance();
    assert!(!p.must_reinstantiate());
    assert!(p.length(input).is_err());
    // the next call on the same handle succeeds as if freshly created
    p.prepare_call(b"again").unwrap();
    assert_eq!(p.conclude_call(CallOutcome::Success(None), false), 0);
    ctx.end_call(h, p);
}

#[test]
fn start_without_wasi_does_not_mark_reinstantiation() {
    let mut p = fresh_plugin(false);
    p.conclude_call(CallOutcome::Exit(0, b"exit".to_vec()), true);
    assert!(!p.must_reinstantiate());
    let mut q = fresh_plugin(true);
    q.conclude_call(CallOutcome::Success(None), false);
    assert!(!q.must_reinstantiate());
    // the flag is set for any outcome of `_start` under the shim
    q.conclude_call(CallOutcome::TimedOut, true);
    assert!(q.must_reinstantiate());
}

#[test]
fn freed_handle_fails_cleanly() {
    let mut ctx = Context::new();
    let gone = ctx.register_plugin(fresh_plugin(false));
    let kept = ctx.register_plugin(fresh_plugin(false));
    // give the surviving plugin some state
    let mut p = ctx.begin_call(kept).unwrap();
    let key = put_bytes(&mut p, b"k");
    let value = put_bytes(&mut p, b"v");
    p.var_set(key, value).unwrap();
    ctx.end_call(kept, p);
    ctx.remove_plugin(gone);
    // any call on the freed handle reports the invalid-handle error
    assert!(ctx.begin_call(gone).is_none());
    assert_eq!(ctx.last_error_of(gone), Some(b"Plugin index does not exist".to_vec()));
    // without touching the registry's other entries
    let mut p = ctx.begin_call(kept).unwrap();
    let out = p.var_get(key).unwrap();
    assert_ne!(out, 0);
    ctx.end_call(kept, p);
}

#[test]
fn update_keeps_the_handle() {
    let mut ctx = Context::new();
    let h = ctx.register_plugin(fresh_plugin(false));
    // give the old instance a variable, then swap the plugin out in place
    let mut p = ctx.begin_call(h).unwrap();
    let key = put_bytes(&mut p, b"k");
    let value = put_bytes(&mut p, b"v");
    p.var_set(key, value).unwrap();
    ctx.end_call(h, p);
    assert!(ctx.replace_plugin(h, fresh_plugin(true)));
    // same handle, fresh state
    let p = ctx.begin_call(h).unwrap();
    assert!(p.wasi_enabled());
    assert_eq!(p.timer_identity(), h as u64);
    ctx.end_call(h, p);
    // a stale handle is rejected with the invalid-handle error
    assert!(!ctx.replace_plugin(77, fresh_plugin(false)));
    assert_eq!(ctx.context_error(), Some(b"Plugin index does not exist".to_vec()));
}

#[test]
fn context_reset_drops_all_plugins() {
    let mut ctx = Context::new();
    let a = ctx.register_plugin(fresh_plugin(false));
    let b = ctx.register_plugin(fresh_plugin(false));
    ctx.reset();
    assert!(!ctx.plugin_exists(a));
    assert!(!ctx.plugin_exists(b));
    assert_eq!(ctx.active_handle(), None);
}

#[test]
fn active_plugin_introspection() {
    let mut ctx = Context::new();
    let h = ctx.register_plugin(fresh_plugin(false));
    assert_eq!(ctx.active_handle(), None);
    assert_eq!(ctx.active_plugin_alloc(8), 0);
    let p = ctx.begin_call(h).unwrap();
    ctx.end_call(h, p);
    assert_eq!(ctx.active_handle(), Some(h));
    let off = ctx.active_plugin_alloc(8);
    assert_ne!(off, 0);
    assert_eq!(ctx.active_plugin_length(off as i64), 8);
    ctx.active_plugin_free(off as i64);
    assert_eq!(ctx.active_plugin_length(off as i64), 0);
    // a stale marker is harmless
    ctx.remove_plugin(h);
    assert_eq!(ctx.active_plugin_alloc(8), 0);
}

#[test]
fn host_function_declarations() {
    let f = ExtismFunction::new(
        b"observe".to_vec(),
        vec![ValKind::I64, ValKind::I64],
        vec![ValKind::I64],
    );
    assert_eq!(f.name(), &b"observe".to_vec());
    assert_eq!(f.param_count(), 2);
    assert_eq!(f.result_count(), 1);
    let p = Plugin::new(KvStore::new(), vec![f], false);
    assert!(!p.wasi_enabled());
}

#[test]
fn timer_identity_follows_handle() {
    let mut ctx = Context::new();
    let a = ctx.register_plugin(fresh_plugin(false));
    let b = ctx.register_plugin(fresh_plugin(false));
    let p = ctx.begin_call(a).unwrap();
    assert_eq!(p.timer_identity(), a as u64);
    ctx.end_call(a, p);
    let q = ctx.begin_call(b).unwrap();
    assert_eq!(q.timer_identity(), b as u64);
    ctx.end_call(b, q);
}
