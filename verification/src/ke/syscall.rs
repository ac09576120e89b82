//! The system service table and the way into it.
//!
//! A service is named by its number; the table says which routine stands behind
//! it. What the fast-call instructions need from the machine is given here as
//! register values.
use crate::ke::selectors::{KGDT64_R0_CODE, KGDT64_R3_CMCODE};
use vstd::prelude::*;

verus! {

/// Entries of the table.
pub const SSDT_SIZE: usize = 48;

/// The answer to a number that no service has.
pub const STATUS_INVALID_SYSTEM_SERVICE: u64 = 0xC000_001C;

/// Enables the fast-call instructions.
pub const EFER_SCE: u64 = 1;

/// Flags cleared on entry: trap, interrupt, direction and alignment check.
pub const FMASK_VALUE: u64 = 0x4_0700;

/// The code segments of the two modes, for `syscall` and `sysret`.
pub const STAR_VALUE: u64 = 0x0020_0010_0000_0000;

/// The values of the registers behind the fast-call instructions.
#[derive(Debug, Clone, Copy, PartialEq, Eq, Structural)]
pub struct FastCall {
    pub star: u64,
    pub lstar: u64,
    pub fmask: u64,
    pub efer: u64,
}

/// What to load for an entry point, given the current feature register.
pub fn init(entry: u64, efer: u64) -> (f: FastCall)
    ensures
        f == (FastCall {
            star: STAR_VALUE,
            lstar: entry,
            fmask: FMASK_VALUE,
            efer: efer | EFER_SCE,
        }),
        f.star == KGDT64_R0_CODE * 0x1_0000_0000 + KGDT64_R3_CMCODE * 0x1_0000_0000_0000,
{
    FastCall { star: STAR_VALUE, lstar: entry, fmask: FMASK_VALUE, efer: efer | EFER_SCE }
}

/// The table. A service is named by an identifier of its routine.
pub struct ServiceTable<S> {
    pub entries: Vec<Option<S>>,
}

impl<S: Copy> ServiceTable<S> {
    pub open spec fn wf(&self) -> bool {
        self.entries@.len() == SSDT_SIZE
    }

    /// No services.
    pub fn new() -> (t: Self)
        ensures
            t.wf(),
            forall|i: int| 0 <= i < SSDT_SIZE ==> #[trigger] t.entries@[i] is None,
    {
        let mut entries: Vec<Option<S>> = Vec::new();
        let mut i: usize = 0;
        while i < SSDT_SIZE
            invariant
                i <= SSDT_SIZE,
                entries@.len() == i,
                forall|k: int| 0 <= k < i ==> #[trigger] entries@[k] is None,
            decreases SSDT_SIZE - i,
        {
            entries.push(None);
            i = i + 1;
        }
        ServiceTable { entries }
    }

    /// Install a service.
    pub fn register_service(&mut self, index: usize, service: S)
        requires
            old(self).wf(),
            index < SSDT_SIZE,
        ensures
            final(self).wf(),
            final(self).entries@ == old(self).entries@.update(index as int, Some(service)),
    {
        self.entries.set(index, Some(service));
    }

    /// The service behind a number.
    pub open spec fn service(&self, index: u64) -> Option<S> {
        if index < SSDT_SIZE {
            self.entries@[index as int]
        } else {
            None
        }
    }

    /// The service to call for a number; without one the caller gets
    /// [`STATUS_INVALID_SYSTEM_SERVICE`].
    pub fn ki_syscall_dispatch(&self, index: u64) -> (r: Result<S, u64>)
        requires
            self.wf(),
        ensures
            r == match self.service(index) {
                Some(s) => Ok(s),
                None => Err(STATUS_INVALID_SYSTEM_SERVICE),
            },
    {
        if index >= SSDT_SIZE as u64 {
            return Err(STATUS_INVALID_SYSTEM_SERVICE);
        }
        match self.entries[index as usize] {
            Some(s) => Ok(s),
            None => Err(STATUS_INVALID_SYSTEM_SERVICE),
        }
    }
}

} // verus!
