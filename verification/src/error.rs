use vstd::prelude::*;

use vstd::string::StrSliceExecFns;
use vstd::string::StringSliceAdditionalSpecFns;
use vstd::utf8::encode_utf8;

verus! {

/// The failure conditions a plugin operation can report.
///
/// Memory faults (`ReadFailed`, `WriteFailed`, `AllocationFailed`) are
/// recoverable: the plugin stays registered and callable. `InvalidHandle`
/// is reported against the owning context when a handle resolves to no
/// live plugin.
#[derive(Clone, Copy, Debug, PartialEq, Eq, Structural)]
pub enum RuntimeError {
    /// The linear memory cannot grow to satisfy an allocation.
    AllocationFailed,
    /// A typed load was attempted outside every live block.
    ReadFailed,
    /// A typed store was attempted outside every live block.
    WriteFailed,
    /// An offset handed in by the guest names no live block.
    InvalidOffset,
    /// `config_get` was called with a key the merged configuration lacks.
    MissingConfigKey,
    /// The variable store is over its ceiling and the operation would add bytes.
    VarStoreFull,
    /// A handle names no plugin in the registry.
    InvalidHandle,
    /// The named export does not exist in the guest module.
    FunctionNotFound,
    /// The named export declares more than one result value.
    TooManyResults,
    /// A configuration update was not a JSON object of strings and nulls.
    InvalidConfigJson,
}

/// The text attached to the error slot for each failure condition.
pub open spec fn error_text(e: RuntimeError) -> Seq<u8> {
    match e {
        RuntimeError::AllocationFailed => encode_utf8("allocation failed"@),
        RuntimeError::ReadFailed => encode_utf8("Read error"@),
        RuntimeError::WriteFailed => encode_utf8("Write error"@),
        RuntimeError::InvalidOffset => encode_utf8("invalid offset"@),
        RuntimeError::MissingConfigKey => encode_utf8("Invalid config key"@),
        RuntimeError::VarStoreFull => encode_utf8("Variable store is full"@),
        RuntimeError::InvalidHandle => encode_utf8("Plugin index does not exist"@),
        RuntimeError::FunctionNotFound => encode_utf8("Function not found"@),
        RuntimeError::TooManyResults => encode_utf8("Function has more than one result"@),
        RuntimeError::InvalidConfigJson => encode_utf8("Invalid config JSON"@),
    }
}

/// The text a deadline overrun reports: the stable marker embedders can
/// match on to tell a timeout from a generic fault.
pub open spec fn timeout_text() -> Seq<u8> {
    encode_utf8("timeout"@)
}

/// Render an error condition as the owned text stored in an error slot.
pub fn error_message(e: RuntimeError) -> (r: Vec<u8>)
    ensures
        r@ == error_text(e),
{
    match e {
        RuntimeError::AllocationFailed => "allocation failed".as_bytes_vec(),
        RuntimeError::ReadFailed => "Read error".as_bytes_vec(),
        RuntimeError::WriteFailed => "Write error".as_bytes_vec(),
        RuntimeError::InvalidOffset => "invalid offset".as_bytes_vec(),
        RuntimeError::MissingConfigKey => "Invalid config key".as_bytes_vec(),
        RuntimeError::VarStoreFull => "Variable store is full".as_bytes_vec(),
        RuntimeError::InvalidHandle => "Plugin index does not exist".as_bytes_vec(),
        RuntimeError::FunctionNotFound => "Function not found".as_bytes_vec(),
        RuntimeError::TooManyResults => "Function has more than one result".as_bytes_vec(),
        RuntimeError::InvalidConfigJson => "Invalid config JSON".as_bytes_vec(),
    }
}

/// The owned text for a deadline overrun.
pub fn timeout_message() -> (r: Vec<u8>)
    ensures
        r@ == timeout_text(),
{
    "timeout".as_bytes_vec()
}

} // verus!
