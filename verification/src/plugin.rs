//! One sandboxed module instance: its linear memory, variable store, merged
//! configuration, error slot, and call lifecycle.
//!
//! The host-function bridge lives here as methods on [`Plugin`]: the fixed
//! menu of privileged operations a guest may invoke. Each takes and returns
//! only integers, and validates every offset against the heap manager's
//! block table before touching memory.

use vstd::prelude::*;

use crate::error::RuntimeError;
use crate::error::error_message;
use crate::error::error_text;
use crate::error::timeout_message;
use crate::error::timeout_text;
use crate::kv::KvStore;
use crate::manifest::apply_update;
use crate::manifest::apply_updates;
use crate::manifest::json_config_of;
use crate::manifest::parse_config_json;
use crate::manifest::updates_view;
use crate::memory::MEMORY_LIMIT;
use crate::memory::MemoryBlock;
use crate::memory::PluginMemory;

verus! {

/// Ceiling on a variable store's total byte size: 100 MiB. Once the store
/// is over it, only removals are permitted.
pub const VAR_STORE_CEILING: u64 = 100 * 1024 * 1024;

/// The kinds of value a host function may take or return.
#[derive(Clone, Copy, Debug, PartialEq, Eq, Structural)]
pub enum ValKind {
    I32,
    I64,
    F32,
    F64,
}

/// Declaration of an extra host function an embedder offers to guests: the
/// import name and signature the runtime registers. The callable body lives
/// with the embedder.
pub struct ExtismFunction {
    name: Vec<u8>,
    params: Vec<ValKind>,
    results: Vec<ValKind>,
}

impl ExtismFunction {
    pub closed spec fn spec_name(self) -> Seq<u8> {
        self.name@
    }

    pub closed spec fn spec_params(self) -> Seq<ValKind> {
        self.params@
    }

    pub closed spec fn spec_results(self) -> Seq<ValKind> {
        self.results@
    }

    pub fn new(name: Vec<u8>, params: Vec<ValKind>, results: Vec<ValKind>) -> (r: Self)
        ensures
            r.spec_name() == name@,
            r.spec_params() == params@,
            r.spec_results() == results@,
    {
        ExtismFunction { name, params, results }
    }

    pub fn name(&self) -> (r: &Vec<u8>)
        ensures
            r@ == self.spec_name(),
    {
        &self.name
    }

    pub fn param_count(&self) -> (r: usize)
        ensures
            r == self.spec_params().len(),
    {
        self.params.len()
    }

    pub fn result_count(&self) -> (r: usize)
        ensures
            r == self.spec_results().len(),
    {
        self.results.len()
    }
}

/// What the execution engine reported for one invocation of an export.
pub enum CallOutcome {
    /// The call returned normally with no result value or one 32-bit result.
    Success(Option<i32>),
    /// The POSIX shim signalled a process exit: its code, and the engine's
    /// rendering of the signal.
    Exit(i32, Vec<u8>),
    /// The deadline passed and the engine's cooperative interruption unwound
    /// the call.
    TimedOut,
    /// Any other fault raised during execution, rendered as text.
    Fault(Vec<u8>),
}

/// One sandboxed module instance.
pub struct Plugin {
    memory: PluginMemory,
    vars: KvStore,
    config: KvStore,
    host_functions: Vec<ExtismFunction>,
    last_error: Option<Vec<u8>>,
    wasi: bool,
    reinstantiate: bool,
    timer_id: u64,
    input_offset: usize,
    input_length: usize,
    output_offset: u64,
    output_length: u64,
}

/// The parts of a plugin no host function changes: its configuration,
/// capabilities, host-function declarations, and lifecycle flags.
pub open spec fn env_unchanged(pre: Plugin, post: Plugin) -> bool {
    &&& post.config() == pre.config()
    &&& post.has_wasi() == pre.has_wasi()
    &&& post.needs_reinstantiation() == pre.needs_reinstantiation()
    &&& post.timer_id() == pre.timer_id()
    &&& post.host_fns() == pre.host_fns()
}

/// The call-scoped input and output markers are unchanged.
pub open spec fn io_unchanged(pre: Plugin, post: Plugin) -> bool {
    &&& post.in_offset() == pre.in_offset()
    &&& post.in_length() == pre.in_length()
    &&& post.out_offset() == pre.out_offset()
    &&& post.out_length() == pre.out_length()
}

impl Plugin {
    /// The plugin's heap manager state.
    pub closed spec fn mem(self) -> PluginMemory {
        self.memory
    }

    /// The plugin's variable store.
    pub closed spec fn vars(self) -> KvStore {
        self.vars
    }

    /// The plugin's merged configuration store.
    pub closed spec fn config(self) -> KvStore {
        self.config
    }

    pub open spec fn vars_map(self) -> Map<Seq<u8>, Seq<u8>> {
        self.vars().as_map()
    }

    pub open spec fn vars_total(self) -> int {
        self.vars().total_size()
    }

    pub open spec fn config_map(self) -> Map<Seq<u8>, Seq<u8>> {
        self.config().as_map()
    }

    /// The error slot's text, if an error is set.
    pub closed spec fn error_bytes(self) -> Option<Seq<u8>> {
        match self.last_error {
            Some(v) => Some(v@),
            None => None,
        }
    }

    pub closed spec fn has_wasi(self) -> bool {
        self.wasi
    }

    /// The guest must be reinstantiated before its next call.
    pub closed spec fn needs_reinstantiation(self) -> bool {
        self.reinstantiate
    }

    pub closed spec fn timer_id(self) -> u64 {
        self.timer_id
    }

    pub closed spec fn host_fns(self) -> Seq<ExtismFunction> {
        self.host_functions@
    }

    pub closed spec fn in_offset(self) -> int {
        self.input_offset as int
    }

    pub closed spec fn in_length(self) -> int {
        self.input_length as int
    }

    pub closed spec fn out_offset(self) -> int {
        self.output_offset as int
    }

    pub closed spec fn out_length(self) -> int {
        self.output_length as int
    }

    /// `off` names a live block of this plugin's heap.
    pub open spec fn valid_block(self, off: int) -> bool {
        0 <= off && self.mem().live_map().dom().contains(off)
    }

    /// The bytes of the live block at `off`.
    pub open spec fn block_bytes(self, off: int) -> Seq<u8> {
        self.mem().live_bytes(off)
    }

    pub closed spec fn wf(self) -> bool {
        &&& self.memory.wf()
        &&& self.vars.wf()
        &&& self.config.wf()
        &&& self.input_offset <= MEMORY_LIMIT
        &&& self.input_length <= MEMORY_LIMIT
    }

    /// An offset outside the addressable range names no block.
    proof fn lemma_out_of_range(self, off: int)
        requires
            self.wf(),
            off < 0 || off > MEMORY_LIMIT as int,
        ensures
            !self.valid_block(off),
    {
        if self.mem().live_map().dom().contains(off) {
            self.memory.lemma_live_block_bounds(off);
        }
    }

    /// A fresh plugin around a merged configuration, extra host-function
    /// declarations, and the POSIX-shim capability flag.
    pub fn new(config: KvStore, host_functions: Vec<ExtismFunction>, with_wasi: bool) -> (r:
        Plugin)
        requires
            config.wf(),
        ensures
            r.wf(),
            r.mem().live_map() == Map::<int, int>::empty(),
            r.mem().size() == 1,
            r.vars_map() == Map::<Seq<u8>, Seq<u8>>::empty(),
            r.vars_total() == 0,
            r.config() == config,
            r.error_bytes() is None,
            r.has_wasi() == with_wasi,
            !r.needs_reinstantiation(),
            r.timer_id() == 0,
            r.in_offset() == 0,
            r.in_length() == 0,
            r.out_offset() == 0,
            r.out_length() == 0,
            r.host_fns() == host_functions@,
    {
        Plugin {
            memory: PluginMemory::new(),
            vars: KvStore::new(),
            config,
            host_functions,
            last_error: None,
            wasi: with_wasi,
            reinstantiate: false,
            timer_id: 0,
            input_offset: 0,
            input_length: 0,
            output_offset: 0,
            output_length: 0,
        }
    }

    /// Give the plugin the timer identity the registry assigned it.
    pub fn set_timer_id(&mut self, id: u64)
        requires
            old(self).wf(),
        ensures
            final(self).wf(),
            final(self).timer_id() == id,
            final(self).mem() == old(self).mem(),
            final(self).vars() == old(self).vars(),
            final(self).config() == old(self).config(),
            final(self).error_bytes() == old(self).error_bytes(),
            final(self).has_wasi() == old(self).has_wasi(),
            final(self).needs_reinstantiation() == old(self).needs_reinstantiation(),
            final(self).host_fns() == old(self).host_fns(),
            io_unchanged(*old(self), *final(self)),
    {
        self.timer_id = id;
    }

    /// The offset of the current call's input block. Never fails.
    pub fn input_offset(&self) -> (r: i64)
        requires
            self.wf(),
        ensures
            r as int == self.in_offset(),
    {
        self.input_offset as i64
    }

    /// Record where the guest placed its result. The values are trusted
    /// here and bounds-checked lazily when the host reads the output.
    /// Never fails.
    pub fn output_set(&mut self, offset: i64, length: i64)
        requires
            old(self).wf(),
        ensures
            final(self).wf(),
            final(self).out_offset() == offset as u64 as int,
            final(self).out_length() == length as u64 as int,
            final(self).in_offset() == old(self).in_offset(),
            final(self).in_length() == old(self).in_length(),
            final(self).mem() == old(self).mem(),
            final(self).vars() == old(self).vars(),
            final(self).error_bytes() == old(self).error_bytes(),
            env_unchanged(*old(self), *final(self)),
    {
        self.output_offset = offset as u64;
        self.output_length = length as u64;
    }

    /// Reserve a block of `size` bytes of guest memory and return its
    /// offset. Fails with an allocation error, changing nothing, when the
    /// memory cannot satisfy the request.
    pub fn allocate(&mut self, size: i64) -> (r: Result<i64, RuntimeError>)
        requires
            old(self).wf(),
        ensures
            final(self).wf(),
            final(self).vars() == old(self).vars(),
            final(self).error_bytes() == old(self).error_bytes(),
            env_unchanged(*old(self), *final(self)),
            io_unchanged(*old(self), *final(self)),
            r is Ok <==> 0 <= size <= MEMORY_LIMIT as i64 && old(self).mem().can_alloc(
                size as int,
            ),
            r matches Ok(o) ==> {
                &&& 1 <= o <= MEMORY_LIMIT as i64
                &&& !old(self).valid_block(o as int)
                &&& final(self).mem().live_map() == old(self).mem().live_map().insert(
                    o as int,
                    size as int,
                )
                &&& forall|off: int|
                    (#[trigger] old(self).mem().live_map().dom().contains(off)) ==> final(self).block_bytes(off) == old(self).block_bytes(off)
            },
            r is Err ==> *final(self) == *old(self) && r == Err::<i64, RuntimeError>(
                RuntimeError::AllocationFailed,
            ),
    {
        if size < 0 || size > MEMORY_LIMIT as i64 {
            return Err(RuntimeError::AllocationFailed);
        }
        match self.memory.allocate(size as usize) {
            Ok(b) => {
                proof {
                    self.memory.lemma_live_block_bounds(b.offset as int);
                }
                Ok(b.offset as i64)
            },
            Err(e) => Err(e),
        }
    }

    /// Release the block at `offset`. Freeing the sentinel 0 or an offset
    /// that names no live block is a no-op, never a fault.
    pub fn free(&mut self, offset: i64)
        requires
            old(self).wf(),
        ensures
            final(self).wf(),
            final(self).vars() == old(self).vars(),
            final(self).error_bytes() == old(self).error_bytes(),
            env_unchanged(*old(self), *final(self)),
            io_unchanged(*old(self), *final(self)),
            0 <= offset <= MEMORY_LIMIT as i64 ==> final(self).mem().live_map() == old(self).mem().live_map().remove(offset as int),
            !(0 <= offset <= MEMORY_LIMIT as i64) ==> *final(self) == *old(self),
            forall|off: int|
                (#[trigger] final(self).mem().live_map().dom().contains(off)) ==> final(self).block_bytes(off) == old(self).block_bytes(off) && old(self).mem().live_map().dom().contains(off),
    {
        if offset < 0 || offset > MEMORY_LIMIT as i64 {
            return ;
        }
        self.memory.free(offset as usize);
    }

    /// Store one byte. Fails with a write error, touching nothing, unless
    /// the byte lies inside a live block.
    pub fn store_u8(&mut self, offset: i64, value: u8) -> (r: Result<(), RuntimeError>)
        requires
            old(self).wf(),
        ensures
            final(self).wf(),
            final(self).vars() == old(self).vars(),
            final(self).error_bytes() == old(self).error_bytes(),
            env_unchanged(*old(self), *final(self)),
            io_unchanged(*old(self), *final(self)),
            final(self).mem().live_map() == old(self).mem().live_map(),
            r is Ok <==> 0 <= offset && old(self).mem().in_live_block(offset as int, 1),
            r is Ok ==> final(self).mem().mem() == crate::memory::written(
                old(self).mem().mem(),
                offset as int,
                seq![value],
            ),
            r is Err ==> *final(self) == *old(self) && r == Err::<(), RuntimeError>(
                RuntimeError::WriteFailed,
            ),
    {
        if offset < 0 || offset > MEMORY_LIMIT as i64 {
            proof {
                if old(self).mem().in_live_block(offset as int, 1) {
                    old(self).memory.lemma_access_in_range(offset as int, 1);
                }
            }
            return Err(RuntimeError::WriteFailed);
        }
        self.memory.store_u8(offset as usize, value)
    }

    /// Load one byte. Fails with a read error unless the byte lies inside a
    /// live block.
    pub fn load_u8(&self, offset: i64) -> (r: Result<u8, RuntimeError>)
        requires
            self.wf(),
        ensures
            r is Ok <==> 0 <= offset && self.mem().in_live_block(offset as int, 1),
            r matches Ok(v) ==> v == self.mem().mem()[offset as int],
            r is Err ==> r == Err::<u8, RuntimeError>(RuntimeError::ReadFailed),
    {
        if offset < 0 || offset > MEMORY_LIMIT as i64 {
            proof {
                if self.mem().in_live_block(offset as int, 1) {
                    self.memory.lemma_access_in_range(offset as int, 1);
                }
            }
            return Err(RuntimeError::ReadFailed);
        }
        self.memory.load_u8(offset as usize)
    }

    /// Store a 32-bit value little-endian. Fails with a write error,
    /// touching nothing, unless all four bytes lie inside one live block.
    pub fn store_u32(&mut self, offset: i64, value: u32) -> (r: Result<(), RuntimeError>)
        requires
            old(self).wf(),
        ensures
            final(self).wf(),
            final(self).vars() == old(self).vars(),
            final(self).error_bytes() == old(self).error_bytes(),
            env_unchanged(*old(self), *final(self)),
            io_unchanged(*old(self), *final(self)),
            final(self).mem().live_map() == old(self).mem().live_map(),
            r is Ok <==> 0 <= offset && old(self).mem().in_live_block(offset as int, 4),
            r is Ok ==> final(self).mem().mem() == crate::memory::written(
                old(self).mem().mem(),
                offset as int,
                crate::memory::le_bytes_u32(value),
            ),
            r is Err ==> *final(self) == *old(self) && r == Err::<(), RuntimeError>(
                RuntimeError::WriteFailed,
            ),
    {
        if offset < 0 || offset > MEMORY_LIMIT as i64 {
            proof {
                if old(self).mem().in_live_block(offset as int, 4) {
                    old(self).memory.lemma_access_in_range(offset as int, 4);
                }
            }
            return Err(RuntimeError::WriteFailed);
        }
        self.memory.store_u32(offset as usize, value)
    }

    /// Load a 32-bit little-endian value. Fails with a read error unless
    /// all four bytes lie inside one live block: a read past a block's live
    /// length never returns partial data.
    pub fn load_u32(&self, offset: i64) -> (r: Result<u32, RuntimeError>)
        requires
            self.wf(),
        ensures
            r is Ok <==> 0 <= offset && self.mem().in_live_block(offset as int, 4),
            r matches Ok(v) ==> v == crate::memory::le_u32(
                self.mem().mem().subrange(offset as int, offset as int + 4),
            ),
            r is Err ==> r == Err::<u32, RuntimeError>(RuntimeError::ReadFailed),
    {
        if offset < 0 || offset > MEMORY_LIMIT as i64 {
            proof {
                if self.mem().in_live_block(offset as int, 4) {
                    self.memory.lemma_access_in_range(offset as int, 4);
                }
            }
            return Err(RuntimeError::ReadFailed);
        }
        self.memory.load_u32(offset as usize)
    }

    /// Store a 64-bit value little-endian. Fails with a write error,
    /// touching nothing, unless all eight bytes lie inside one live block.
    pub fn store_u64(&mut self, offset: i64, value: u64) -> (r: Result<(), RuntimeError>)
        requires
            old(self).wf(),
        ensures
            final(self).wf(),
            final(self).vars() == old(self).vars(),
            final(self).error_bytes() == old(self).error_bytes(),
            env_unchanged(*old(self), *final(self)),
            io_unchanged(*old(self), *final(self)),
            final(self).mem().live_map() == old(self).mem().live_map(),
            r is Ok <==> 0 <= offset && old(self).mem().in_live_block(offset as int, 8),
            r is Ok ==> final(self).mem().mem() == crate::memory::written(
                old(self).mem().mem(),
                offset as int,
                crate::memory::le_bytes_u64(value),
            ),
            r is Err ==> *final(self) == *old(self) && r == Err::<(), RuntimeError>(
                RuntimeError::WriteFailed,
            ),
    {
        if offset < 0 || offset > MEMORY_LIMIT as i64 {
            proof {
                if old(self).mem().in_live_block(offset as int, 8) {
                    old(self).memory.lemma_access_in_range(offset as int, 8);
                }
            }
            return Err(RuntimeError::WriteFailed);
        }
        self.memory.store_u64(offset as usize, value)
    }

    /// Load a 64-bit little-endian value. Fails with a read error unless
    /// all eight bytes lie inside one live block.
    pub fn load_u64(&self, offset: i64) -> (r: Result<u64, RuntimeError>)
        requires
            self.wf(),
        ensures
            r is Ok <==> 0 <= offset && self.mem().in_live_block(offset as int, 8),
            r matches Ok(v) ==> v == crate::memory::le_u64(
                self.mem().mem().subrange(offset as int, offset as int + 8),
            ),
            r is Err ==> r == Err::<u64, RuntimeError>(RuntimeError::ReadFailed),
    {
        if offset < 0 || offset > MEMORY_LIMIT as i64 {
            proof {
                if self.mem().in_live_block(offset as int, 8) {
                    self.memory.lemma_access_in_range(offset as int, 8);
                }
            }
            return Err(RuntimeError::ReadFailed);
        }
        self.memory.load_u64(offset as usize)
    }

    /// The live block's length at `offset`. Fails unless `offset` names a
    /// live block; offset 0 never does.
    pub fn length(&self, offset: i64) -> (r: Result<i64, RuntimeError>)
        requires
            self.wf(),
        ensures
            r is Ok <==> self.valid_block(offset as int),
            r matches Ok(l) ==> l as int == self.mem().live_map()[offset as int] && 0 <= l
                <= MEMORY_LIMIT as i64,
            r is Err ==> r == Err::<i64, RuntimeError>(RuntimeError::InvalidOffset),
    {
        if offset < 0 || offset > MEMORY_LIMIT as i64 {
            proof {
                self.lemma_out_of_range(offset as int);
            }
            return Err(RuntimeError::InvalidOffset);
        }
        match self.memory.block_length(offset as usize) {
            Some(l) => {
                proof {
                    self.memory.lemma_live_block_bounds(offset as int);
                }
                Ok(l as i64)
            },
            None => Err(RuntimeError::InvalidOffset),
        }
    }

    /// Set the plugin's visible last error from the UTF-8 text in the block
    /// at `offset`, or clear it when `offset` is 0. Fails on any other
    /// offset that names no live block.
    pub fn error_set(&mut self, offset: i64) -> (r: Result<(), RuntimeError>)
        requires
            old(self).wf(),
        ensures
            final(self).wf(),
            final(self).mem() == old(self).mem(),
            final(self).vars() == old(self).vars(),
            env_unchanged(*old(self), *final(self)),
            io_unchanged(*old(self), *final(self)),
            offset == 0 ==> r is Ok && final(self).error_bytes() is None,
            offset != 0 ==> {
                &&& (r is Ok <==> old(self).valid_block(offset as int))
                &&& (r matches Ok(u) ==> final(self).error_bytes() == Some(
                    old(self).block_bytes(offset as int),
                ))
                &&& (r is Err ==> r == Err::<(), RuntimeError>(RuntimeError::InvalidOffset)
                    && final(self).error_bytes() == old(self).error_bytes())
            },
    {
        if offset == 0 {
            self.last_error = None;
            return Ok(());
        }
        if offset < 0 || offset > MEMORY_LIMIT as i64 {
            proof {
                self.lemma_out_of_range(offset as int);
            }
            return Err(RuntimeError::InvalidOffset);
        }
        let off = offset as usize;
        let length = match self.memory.block_length(off) {
            Some(l) => l,
            None => {
                return Err(RuntimeError::InvalidOffset);
            },
        };
        let text = self.memory.get(MemoryBlock { offset: off, length });
        self.last_error = Some(text);
        Ok(())
    }

    /// Look `key` up in the merged configuration: the key is the block at
    /// `key_offset`, the value comes back in a fresh block. Fails if the
    /// offset names no block, the key is absent, or memory is exhausted.
    pub fn config_get(&mut self, key_offset: i64) -> (r: Result<i64, RuntimeError>)
        requires
            old(self).wf(),
        ensures
            final(self).wf(),
            final(self).vars() == old(self).vars(),
            final(self).error_bytes() == old(self).error_bytes(),
            env_unchanged(*old(self), *final(self)),
            io_unchanged(*old(self), *final(self)),
            r == Err::<i64, RuntimeError>(RuntimeError::InvalidOffset) <==> !old(self).valid_block(
                key_offset as int,
            ),
            r == Err::<i64, RuntimeError>(RuntimeError::MissingConfigKey) <==> old(self).valid_block(key_offset as int) && !old(self).config_map().dom().contains(
                old(self).block_bytes(key_offset as int),
            ),
            r == Err::<i64, RuntimeError>(RuntimeError::AllocationFailed) <==> old(self).valid_block(key_offset as int) && old(self).config_map().dom().contains(
                old(self).block_bytes(key_offset as int),
            ) && !old(self).mem().can_alloc(
                old(self).config_map()[old(self).block_bytes(key_offset as int)].len() as int,
            ),
            r is Err ==> final(self).mem() == old(self).mem(),
            r matches Ok(o) ==> {
                &&& old(self).valid_block(key_offset as int)
                &&& old(self).config_map().dom().contains(old(self).block_bytes(key_offset as int))
                &&& 1 <= o <= MEMORY_LIMIT as i64
                &&& !old(self).valid_block(o as int)
                &&& final(self).mem().live_map() == old(self).mem().live_map().insert(
                    o as int,
                    old(self).config_map()[old(self).block_bytes(key_offset as int)].len() as int,
                )
                &&& final(self).block_bytes(o as int) == old(self).config_map()[old(self).block_bytes(key_offset as int)]
                &&& forall|off: int|
                    (#[trigger] old(self).mem().live_map().dom().contains(off)) ==> final(self).block_bytes(off) == old(self).block_bytes(off)
            },
            r is Ok <==> old(self).valid_block(key_offset as int)
                && old(self).config_map().dom().contains(old(self).block_bytes(key_offset as int))
                && old(self).mem().can_alloc(
                old(self).config_map()[old(self).block_bytes(key_offset as int)].len() as int,
            ),
    {
        if key_offset < 0 || key_offset > MEMORY_LIMIT as i64 {
            proof {
                self.lemma_out_of_range(key_offset as int);
            }
            return Err(RuntimeError::InvalidOffset);
        }
        let ko = key_offset as usize;
        let length = match self.memory.block_length(ko) {
            Some(l) => l,
            None => {
                return Err(RuntimeError::InvalidOffset);
            },
        };
        let key = self.memory.get(MemoryBlock { offset: ko, length });
        let value = match self.config.get(key.as_slice()) {
            Some(v) => v,
            None => {
                return Err(RuntimeError::MissingConfigKey);
            },
        };
        match self.memory.alloc_bytes(value.as_slice()) {
            Ok(b) => {
                proof {
                    self.memory.lemma_live_block_bounds(b.offset as int);
                }
                Ok(b.offset as i64)
            },
            Err(e) => Err(e),
        }
    }

    /// Look `key` up in the variable store: a copy of the value comes back
    /// in a fresh block, and a missing key yields the sentinel 0, never a
    /// fault.
    pub fn var_get(&mut self, key_offset: i64) -> (r: Result<i64, RuntimeError>)
        requires
            old(self).wf(),
        ensures
            final(self).wf(),
            final(self).vars() == old(self).vars(),
            final(self).error_bytes() == old(self).error_bytes(),
            env_unchanged(*old(self), *final(self)),
            io_unchanged(*old(self), *final(self)),
            r == Err::<i64, RuntimeError>(RuntimeError::InvalidOffset) <==> !old(self).valid_block(
                key_offset as int,
            ),
            r == Ok::<i64, RuntimeError>(0) <==> old(self).valid_block(key_offset as int) && !old(self).vars_map().dom().contains(old(self).block_bytes(key_offset as int)),
            r == Err::<i64, RuntimeError>(RuntimeError::AllocationFailed) <==> old(self).valid_block(key_offset as int) && old(self).vars_map().dom().contains(
                old(self).block_bytes(key_offset as int),
            ) && !old(self).mem().can_alloc(
                old(self).vars_map()[old(self).block_bytes(key_offset as int)].len() as int,
            ),
            r is Err ==> final(self).mem() == old(self).mem(),
            r == Ok::<i64, RuntimeError>(0) ==> final(self).mem() == old(self).mem(),
            r matches Ok(o) ==> o == 0 || {
                &&& old(self).valid_block(key_offset as int)
                &&& old(self).vars_map().dom().contains(old(self).block_bytes(key_offset as int))
                &&& 1 <= o <= MEMORY_LIMIT as i64
                &&& !old(self).valid_block(o as int)
                &&& final(self).mem().live_map() == old(self).mem().live_map().insert(
                    o as int,
                    old(self).vars_map()[old(self).block_bytes(key_offset as int)].len() as int,
                )
                &&& final(self).block_bytes(o as int) == old(self).vars_map()[old(self).block_bytes(key_offset as int)]
                &&& forall|off: int|
                    (#[trigger] old(self).mem().live_map().dom().contains(off)) ==> final(self).block_bytes(off) == old(self).block_bytes(off)
            },
            r is Ok <==> old(self).valid_block(key_offset as int)
                && (!old(self).vars_map().dom().contains(old(self).block_bytes(key_offset as int))
                || old(self).mem().can_alloc(
                old(self).vars_map()[old(self).block_bytes(key_offset as int)].len() as int,
            )),
    {
        if key_offset < 0 || key_offset > MEMORY_LIMIT as i64 {
            proof {
                self.lemma_out_of_range(key_offset as int);
            }
            return Err(RuntimeError::InvalidOffset);
        }
        let ko = key_offset as usize;
        let length = match self.memory.block_length(ko) {
            Some(l) => l,
            None => {
                return Err(RuntimeError::InvalidOffset);
            },
        };
        let key = self.memory.get(MemoryBlock { offset: ko, length });
        let value = match self.vars.get(key.as_slice()) {
            Some(v) => v,
            None => {
                return Ok(0);
            },
        };
        match self.memory.alloc_bytes(value.as_slice()) {
            Ok(b) => {
                proof {
                    self.memory.lemma_live_block_bounds(b.offset as int);
                }
                Ok(b.offset as i64)
            },
            Err(e) => Err(e),
        }
    }

    /// Write or remove a variable: the key is the block at `key_offset`; a
    /// value offset of 0 removes the key, any other names the block whose
    /// bytes are copied in. Once the store is over its ceiling, additions
    /// fail and only removals succeed.
    pub fn var_set(&mut self, key_offset: i64, value_offset: i64) -> (r: Result<
        (),
        RuntimeError,
    >)
        requires
            old(self).wf(),
        ensures
            final(self).wf(),
            final(self).mem() == old(self).mem(),
            final(self).config() == old(self).config(),
            final(self).error_bytes() == old(self).error_bytes(),
            env_unchanged(*old(self), *final(self)),
            io_unchanged(*old(self), *final(self)),
            r == Err::<(), RuntimeError>(RuntimeError::VarStoreFull) <==> old(self).vars_total()
                > VAR_STORE_CEILING as int && value_offset != 0,
            old(self).vars_total() <= VAR_STORE_CEILING as int || value_offset == 0 ==> (r
                == Err::<(), RuntimeError>(RuntimeError::InvalidOffset) <==> (!old(self).valid_block(key_offset as int) || (value_offset != 0 && !old(self).valid_block(
                value_offset as int,
            )))),
            r is Err ==> final(self).vars() == old(self).vars(),
            r is Ok && value_offset == 0 ==> final(self).vars_map() == old(self).vars_map().remove(old(self).block_bytes(key_offset as int)),
            r is Ok && value_offset != 0 ==> final(self).vars_map() == old(self).vars_map().insert(
                old(self).block_bytes(key_offset as int),
                old(self).block_bytes(value_offset as int),
            ),
            r is Ok <==> (old(self).vars_total() <= VAR_STORE_CEILING as int || value_offset == 0)
                && old(self).valid_block(key_offset as int) && (value_offset == 0
                || old(self).valid_block(value_offset as int)),
    {
        if self.vars.exceeds(VAR_STORE_CEILING) && value_offset != 0 {
            return Err(RuntimeError::VarStoreFull);
        }
        if key_offset < 0 || key_offset > MEMORY_LIMIT as i64 {
            proof {
                self.lemma_out_of_range(key_offset as int);
            }
            return Err(RuntimeError::InvalidOffset);
        }
        let ko = key_offset as usize;
        let klen = match self.memory.block_length(ko) {
            Some(l) => l,
            None => {
                return Err(RuntimeError::InvalidOffset);
            },
        };
        if value_offset == 0 {
            let key = self.memory.get(MemoryBlock { offset: ko, length: klen });
            self.vars.remove(key.as_slice());
            return Ok(());
        }
        if value_offset < 0 || value_offset > MEMORY_LIMIT as i64 {
            proof {
                self.lemma_out_of_range(value_offset as int);
            }
            return Err(RuntimeError::InvalidOffset);
        }
        let vo = value_offset as usize;
        let vlen = match self.memory.block_length(vo) {
            Some(l) => l,
            None => {
                return Err(RuntimeError::InvalidOffset);
            },
        };
        let key = self.memory.get(MemoryBlock { offset: ko, length: klen });
        let value = self.memory.get(MemoryBlock { offset: vo, length: vlen });
        self.vars.set(key, value);
        Ok(())
    }

    /// The bytes of the outbound request the guest placed at `offset`: the
    /// validated half of the network capability. The embedder performs the
    /// request and stores the response with [`Plugin::http_response_store`].
    pub fn http_request_input(&self, offset: i64) -> (r: Result<Vec<u8>, RuntimeError>)
        requires
            self.wf(),
        ensures
            r is Ok <==> self.valid_block(offset as int),
            r matches Ok(v) ==> v@ == self.block_bytes(offset as int),
            r is Err ==> r == Err::<Vec<u8>, RuntimeError>(RuntimeError::InvalidOffset),
    {
        if offset < 0 || offset > MEMORY_LIMIT as i64 {
            proof {
                self.lemma_out_of_range(offset as int);
            }
            return Err(RuntimeError::InvalidOffset);
        }
        let off = offset as usize;
        let length = match self.memory.block_length(off) {
            Some(l) => l,
            None => {
                return Err(RuntimeError::InvalidOffset);
            },
        };
        Ok(self.memory.get(MemoryBlock { offset: off, length }))
    }

    /// Copy a response body into a fresh block and return its offset: the
    /// validated half of the network capability after the embedder's
    /// request returns.
    pub fn http_response_store(&mut self, body: &[u8]) -> (r: Result<i64, RuntimeError>)
        requires
            old(self).wf(),
        ensures
            final(self).wf(),
            final(self).vars() == old(self).vars(),
            final(self).error_bytes() == old(self).error_bytes(),
            env_unchanged(*old(self), *final(self)),
            io_unchanged(*old(self), *final(self)),
            r is Ok <==> old(self).mem().can_alloc(body@.len() as int),
            r matches Ok(o) ==> {
                &&& 1 <= o <= MEMORY_LIMIT as i64
                &&& !old(self).valid_block(o as int)
                &&& final(self).mem().live_map() == old(self).mem().live_map().insert(
                    o as int,
                    body@.len() as int,
                )
                &&& final(self).block_bytes(o as int) == body@
                &&& forall|off: int|
                    (#[trigger] old(self).mem().live_map().dom().contains(off)) ==> final(self).block_bytes(off) == old(self).block_bytes(off)
            },
            r is Err ==> *final(self) == *old(self) && r == Err::<i64, RuntimeError>(
                RuntimeError::AllocationFailed,
            ),
    {
        match self.memory.alloc_bytes(body) {
            Ok(b) => {
                proof {
                    self.memory.lemma_live_block_bounds(b.offset as int);
                }
                Ok(b.offset as i64)
            },
            Err(e) => Err(e),
        }
    }

    /// A copy of the plugin's last error text, if one is set.
    pub fn get_error(&self) -> (r: Option<Vec<u8>>)
        ensures
            match r {
                Some(v) => self.error_bytes() == Some(v@),
                None => self.error_bytes() is None,
            },
    {
        match &self.last_error {
            Some(v) => Some(vstd::slice::slice_to_vec(v.as_slice())),
            None => None,
        }
    }

    /// Record a failure in the error slot and report the failure status.
    pub fn record_failure(&mut self, e: RuntimeError) -> (status: i32)
        requires
            old(self).wf(),
        ensures
            final(self).wf(),
            status == -1,
            final(self).error_bytes() == Some(error_text(e)),
            final(self).mem() == old(self).mem(),
            final(self).vars() == old(self).vars(),
            env_unchanged(*old(self), *final(self)),
            io_unchanged(*old(self), *final(self)),
    {
        self.last_error = Some(error_message(e));
        -1
    }

    /// Merge configuration updates into the plugin: a value inserts or
    /// overwrites its key, `None` removes it.
    pub fn config_merge(&mut self, updates: &Vec<(Vec<u8>, Option<Vec<u8>>)>)
        requires
            old(self).wf(),
        ensures
            final(self).wf(),
            final(self).config_map() == apply_updates(
                old(self).config_map(),
                updates_view(updates@),
            ),
            final(self).mem() == old(self).mem(),
            final(self).vars() == old(self).vars(),
            final(self).error_bytes() == old(self).error_bytes(),
            final(self).has_wasi() == old(self).has_wasi(),
            final(self).needs_reinstantiation() == old(self).needs_reinstantiation(),
            final(self).timer_id() == old(self).timer_id(),
            final(self).host_fns() == old(self).host_fns(),
            io_unchanged(*old(self), *final(self)),
    {
        let n = updates.len();
        let mut i: usize = 0;
        proof {
            assert(updates_view(updates@).take(0) =~= Seq::<(Seq<u8>, Option<Seq<u8>>)>::empty());
        }
        while i < n
            invariant
                old(self).wf(),
                self.wf(),
                n == updates@.len(),
                i <= n,
                self.config_map() == apply_updates(
                    old(self).config_map(),
                    updates_view(updates@).take(i as int),
                ),
                self.memory == old(self).memory,
                self.vars == old(self).vars,
                self.last_error == old(self).last_error,
                self.wasi == old(self).wasi,
                self.reinstantiate == old(self).reinstantiate,
                self.timer_id == old(self).timer_id,
                self.host_functions == old(self).host_functions,
                self.input_offset == old(self).input_offset,
                self.input_length == old(self).input_length,
                self.output_offset == old(self).output_offset,
                self.output_length == old(self).output_length,
            decreases n - i,
        {
            let ghost pre_map = self.config_map();
            let u = &updates[i];
            let key = vstd::slice::slice_to_vec(u.0.as_slice());
            match &u.1 {
                Some(v) => {
                    let value = vstd::slice::slice_to_vec(v.as_slice());
                    self.config.set(key, value);
                },
                None => {
                    self.config.remove(key.as_slice());
                },
            }
            proof {
                let ups = updates_view(updates@);
                assert(ups.take(i + 1).drop_last() =~= ups.take(i as int));
                assert(ups.take(i + 1).last() == ups[i as int]);
                assert(self.config_map() == apply_update(pre_map, ups[i as int]));
            }
            i += 1;
        }
        proof {
            assert(updates_view(updates@).take(n as int) =~= updates_view(updates@));
        }
    }

    /// Merge a JSON object of optional strings into the configuration.
    /// Reports `true` exactly when the bytes parse; a failed parse records
    /// the error and changes nothing else.
    pub fn update_config_json(&mut self, json: &[u8]) -> (r: bool)
        requires
            old(self).wf(),
        ensures
            final(self).wf(),
            r <==> json_config_of(json@) is Some,
            json_config_of(json@) matches Some(ups) ==> final(self).config_map() == apply_updates(
                old(self).config_map(),
                ups,
            ) && final(self).error_bytes() == old(self).error_bytes(),
            json_config_of(json@) is None ==> final(self).config() == old(self).config() && final(self).error_bytes() == Some(error_text(RuntimeError::InvalidConfigJson)),
            final(self).mem() == old(self).mem(),
            final(self).vars() == old(self).vars(),
            final(self).has_wasi() == old(self).has_wasi(),
            final(self).needs_reinstantiation() == old(self).needs_reinstantiation(),
            final(self).timer_id() == old(self).timer_id(),
            final(self).host_fns() == old(self).host_fns(),
            io_unchanged(*old(self), *final(self)),
    {
        match parse_config_json(json) {
            Some(updates) => {
                self.config_merge(&updates);
                true
            },
            None => {
                self.record_failure(RuntimeError::InvalidConfigJson);
                false
            },
        }
    }

    /// Begin a call: clear the error slot, copy the caller's input into a
    /// fresh block, and reset the output marker. Fails only when the input
    /// cannot be allocated.
    pub fn prepare_call(&mut self, input: &[u8]) -> (r: Result<(), RuntimeError>)
        requires
            old(self).wf(),
        ensures
            final(self).wf(),
            final(self).vars() == old(self).vars(),
            env_unchanged(*old(self), *final(self)),
            final(self).error_bytes() is None,
            r is Ok <==> old(self).mem().can_alloc(input@.len() as int),
            r matches Ok(u) ==> {
                &&& 1 <= final(self).in_offset() <= MEMORY_LIMIT as int
                &&& !old(self).valid_block(final(self).in_offset())
                &&& final(self).mem().live_map() == old(self).mem().live_map().insert(
                    final(self).in_offset(),
                    input@.len() as int,
                )
                &&& final(self).block_bytes(final(self).in_offset()) == input@
                &&& final(self).in_length() == input@.len()
                &&& final(self).out_offset() == 0
                &&& final(self).out_length() == 0
                &&& forall|off: int|
                    (#[trigger] old(self).mem().live_map().dom().contains(off)) ==> final(self).block_bytes(off) == old(self).block_bytes(off)
            },
            r is Err ==> final(self).mem() == old(self).mem() && r == Err::<(), RuntimeError>(
                RuntimeError::AllocationFailed,
            ) && io_unchanged(*old(self), *final(self)),
    {
        self.last_error = None;
        match self.memory.alloc_bytes(input) {
            Ok(b) => {
                proof {
                    self.memory.lemma_live_block_bounds(b.offset as int);
                }
                self.input_offset = b.offset;
                self.input_length = b.length;
                self.output_offset = 0;
                self.output_length = 0;
                Ok(())
            },
            Err(e) => Err(e),
        }
    }

    /// Reject an export that declares more than one result value: this
    /// runtime's call ABI supports zero or one. Checked before execution
    /// begins, with no effect on the plugin.
    pub fn check_result_arity(&self, n_results: usize) -> (r: Result<(), RuntimeError>)
        ensures
            r is Ok <==> n_results <= 1,
            r is Err ==> r == Err::<(), RuntimeError>(RuntimeError::TooManyResults),
    {
        if n_results > 1 {
            Err(RuntimeError::TooManyResults)
        } else {
            Ok(())
        }
    }

    /// Classify what the engine reported for a finished call and report the
    /// call's status: 0 or the single result on success, a nonzero exit
    /// code from the POSIX shim, or -1 with the error slot set. A timeout
    /// is reported under its stable marker, distinct from a generic fault.
    /// A `_start` call under the POSIX shim marks the plugin for
    /// reinstantiation whatever the outcome.
    pub fn conclude_call(&mut self, outcome: CallOutcome, called_start: bool) -> (status: i32)
        requires
            old(self).wf(),
        ensures
            final(self).wf(),
            final(self).mem() == old(self).mem(),
            final(self).vars() == old(self).vars(),
            final(self).config() == old(self).config(),
            final(self).has_wasi() == old(self).has_wasi(),
            final(self).timer_id() == old(self).timer_id(),
            final(self).host_fns() == old(self).host_fns(),
            io_unchanged(*old(self), *final(self)),
            final(self).needs_reinstantiation() == (old(self).needs_reinstantiation() || (old(self).has_wasi() && called_start)),
            match outcome {
                CallOutcome::Success(res) => status == (match res {
                    Some(v) => v,
                    None => 0,
                }) && final(self).error_bytes() == old(self).error_bytes(),
                CallOutcome::Exit(code, msg) => (code == 0 ==> status == 0 && final(self).error_bytes() == old(self).error_bytes()) && (code != 0 ==> status == code
                    && final(self).error_bytes() == Some(msg@)),
                CallOutcome::TimedOut => status == -1 && final(self).error_bytes() == Some(
                    timeout_text(),
                ),
                CallOutcome::Fault(msg) => status == -1 && final(self).error_bytes() == Some(msg@),
            },
    {
        if self.wasi && called_start {
            self.reinstantiate = true;
        }
        match outcome {
            CallOutcome::Success(res) => match res {
                Some(v) => v,
                None => 0,
            },
            CallOutcome::Exit(code, msg) => {
                if code == 0 {
                    0
                } else {
                    self.last_error = Some(msg);
                    code
                }
            },
            CallOutcome::TimedOut => {
                self.last_error = Some(timeout_message());
                -1
            },
            CallOutcome::Fault(msg) => {
                self.last_error = Some(msg);
                -1
            },
        }
    }

    /// After the embedder rebuilds the engine instance, start from a
    /// cleared heap: guest state does not persist across reinstantiation,
    /// while the variable store, configuration, and error slot do.
    pub fn reset_instance(&mut self)
        requires
            old(self).wf(),
        ensures
            final(self).wf(),
            final(self).mem().live_map() == Map::<int, int>::empty(),
            final(self).mem().size() == 1,
            !final(self).needs_reinstantiation(),
            final(self).vars() == old(self).vars(),
            final(self).config() == old(self).config(),
            final(self).error_bytes() == old(self).error_bytes(),
            final(self).has_wasi() == old(self).has_wasi(),
            final(self).timer_id() == old(self).timer_id(),
            final(self).host_fns() == old(self).host_fns(),
            final(self).in_offset() == 0,
            final(self).in_length() == 0,
            final(self).out_offset() == 0,
            final(self).out_length() == 0,
    {
        self.memory.reset();
        self.reinstantiate = false;
        self.input_offset = 0;
        self.input_length = 0;
        self.output_offset = 0;
        self.output_length = 0;
    }

    /// Whether the POSIX shim is enabled for this plugin.
    pub fn wasi_enabled(&self) -> (r: bool)
        ensures
            r == self.has_wasi(),
    {
        self.wasi
    }

    /// Whether the guest must be reinstantiated before its next call.
    pub fn must_reinstantiate(&self) -> (r: bool)
        ensures
            r == self.needs_reinstantiation(),
    {
        self.reinstantiate
    }

    /// The timer identity the registry assigned this plugin.
    pub fn timer_identity(&self) -> (r: u64)
        ensures
            r == self.timer_id(),
    {
        self.timer_id
    }

    /// The length the guest declared for its output.
    pub fn output_length(&self) -> (r: u64)
        ensures
            r as int == self.out_length(),
    {
        self.output_length
    }

    /// The output bytes the guest declared through `output_set`, validated
    /// lazily against the buffer: `None` when the declared range does not
    /// lie inside the linear memory.
    pub fn output_bytes(&self) -> (r: Option<Vec<u8>>)
        requires
            self.wf(),
        ensures
            match r {
                Some(v) => self.out_offset() + self.out_length() <= self.mem().size() && v@
                    == self.mem().mem().subrange(
                    self.out_offset(),
                    self.out_offset() + self.out_length(),
                ),
                None => self.out_offset() + self.out_length() > self.mem().size(),
            },
    {
        let size = self.memory.current_size();
        if self.output_offset > size as u64 || self.output_length > size as u64
            - self.output_offset {
            return None;
        }
        Some(self.memory.read_range(self.output_offset as usize, self.output_length as usize))
    }
}

} // verus!
