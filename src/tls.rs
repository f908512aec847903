//! Module identifiers of thread-local storage for patched modules.

use vstd::prelude::*;

verus! {

/// Identifiers of patch modules start at this number.
pub const PHOENIX_MOD_BASE: usize = 0x40000000;

/// The invalid module identifier.
pub const PHOENIX_MOD_INVALID: usize = 0;

/// The identifier of the initial executable, whose thread-local variables the
/// platform's own lookup resolves.
pub const PHOENIX_MOD_INIT_EXEC: usize = 1;

/// Identifies the module that defines a thread-local variable.
#[derive(Clone, Copy, Debug, PartialEq, Eq, Structural)]
pub struct PhoenixModId(pub usize);

impl PhoenixModId {
    /// The module is the initial executable.
    pub fn is_init_exec(&self) -> (r: bool)
        ensures
            r == (self.0 == PHOENIX_MOD_INIT_EXEC),
    {
        self.0 == PHOENIX_MOD_INIT_EXEC
    }

    /// The module is a dynamic library that the platform's lookup resolves.
    pub fn is_dynamic_library(&self) -> (r: bool)
        ensures
            r == (self.0 != PHOENIX_MOD_INIT_EXEC && self.0 < PHOENIX_MOD_BASE),
    {
        !self.is_init_exec() && self.0 < PHOENIX_MOD_BASE
    }

    /// The module is a patch module.
    pub fn is_phoenix_plugin(&self) -> (r: bool)
        ensures
            r == (self.0 >= PHOENIX_MOD_BASE),
    {
        self.0 >= PHOENIX_MOD_BASE
    }

    /// The identifier is not the invalid one.
    pub fn is_valid(&self) -> (r: bool)
        ensures
            r == (self.0 != PHOENIX_MOD_INVALID),
    {
        self.0 != PHOENIX_MOD_INVALID
    }
}

/// A thread-local variable: its module and its offset in the module's block.
#[derive(Clone, Copy, Debug, PartialEq, Eq, Structural)]
pub struct TlsIndex {
    pub mod_id: PhoenixModId,
    pub offset: usize,
}

impl TlsIndex {
    /// The index of the variable at `offset` in module `mod_id`, which must
    /// be a valid identifier.
    pub fn new(mod_id: usize, offset: usize) -> (r: TlsIndex)
        requires
            mod_id != PHOENIX_MOD_INVALID,
        ensures
            r.mod_id.0 == mod_id,
            r.offset == offset,
            r.mod_id.0 != PHOENIX_MOD_INVALID,
    {
        TlsIndex { mod_id: PhoenixModId(mod_id), offset }
    }
}

/// Stores `val` in the thread's slot `slot`.
pub fn set_thread_local(slot: &mut u64, val: u64)
    ensures
        *final(slot) == val,
{
    *slot = val;
}

/// The value in the thread's slot `slot`.
pub fn get_thread_local(slot: &u64) -> (r: u64)
    ensures
        r == *slot,
{
    *slot
}

} // verus!
