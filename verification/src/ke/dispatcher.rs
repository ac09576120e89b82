//! Dispatcher objects: events, semaphores, mutants, timers and threads.
//!
//! Everything a thread can wait on begins with a [`DispatcherHeader`]: a type
//! and a signal state. Objects live in the dispatcher's table
//! ([`crate::ke::scheduler`]) and are named by their index there.
use vstd::prelude::*;

verus! {

/// What a header is embedded in, and with it how a satisfied wait consumes the
/// signal.
#[derive(Debug, Clone, Copy, PartialEq, Eq, Structural)]
pub enum DispatcherObjectType {
    /// Stays signaled until reset; wakes all waiters.
    NotificationEvent,
    /// Wakes one waiter and consumes the signal.
    SynchronizationEvent,
    /// Free when the count is 1, owned when it is 0 or less.
    Mutant,
    /// Each release adds, each satisfied wait subtracts.
    Semaphore,
    /// Signaled for good once the thread has ended.
    Thread,
    /// Signaled when the due tick has come.
    Timer,
}

impl DispatcherObjectType {
    /// The type's number in the header.
    pub fn code(self) -> (c: u8)
        ensures
            c == match self {
                DispatcherObjectType::NotificationEvent => 0u8,
                DispatcherObjectType::SynchronizationEvent => 1,
                DispatcherObjectType::Mutant => 2,
                DispatcherObjectType::Semaphore => 5,
                DispatcherObjectType::Thread => 6,
                DispatcherObjectType::Timer => 8,
            },
    {
        match self {
            DispatcherObjectType::NotificationEvent => 0,
            DispatcherObjectType::SynchronizationEvent => 1,
            DispatcherObjectType::Mutant => 2,
            DispatcherObjectType::Semaphore => 5,
            DispatcherObjectType::Thread => 6,
            DispatcherObjectType::Timer => 8,
        }
    }

    /// The kind of event that `KeInitializeEvent` makes for an event type number.
    pub fn event_kind(event_type: u32) -> (k: Self)
        ensures
            k == if event_type == 1 {
                DispatcherObjectType::SynchronizationEvent
            } else {
                DispatcherObjectType::NotificationEvent
            },
    {
        if event_type == 1 {
            DispatcherObjectType::SynchronizationEvent
        } else {
            DispatcherObjectType::NotificationEvent
        }
    }
}

/// The common prefix of every waitable object.
#[derive(Debug, Clone, Copy, PartialEq, Eq, Structural)]
pub struct DispatcherHeader {
    pub object_type: DispatcherObjectType,
    /// Above 0 when signaled.
    pub signal_state: i32,
}

impl DispatcherHeader {
    pub fn new(object_type: DispatcherObjectType, signal_state: i32) -> (h: Self)
        ensures
            h.object_type == object_type,
            h.signal_state == signal_state,
    {
        DispatcherHeader { object_type, signal_state }
    }
}

/// A waitable object: its header and what the types add to it.
#[derive(Debug, Clone, Copy, PartialEq, Eq, Structural)]
pub struct DispatcherObject {
    pub header: DispatcherHeader,
    /// A semaphore's maximum count.
    pub limit: i32,
    /// The thread that owns a mutant.
    pub owner: Option<usize>,
    /// When a timer fires.
    pub due_tick: u64,
    /// Whether a timer is armed.
    pub inserted: bool,
    /// The deferred call queued when a timer fires.
    pub dpc: Option<usize>,
}

/// An object with this header and nothing else.
pub open spec fn plain(header: DispatcherHeader) -> DispatcherObject {
    DispatcherObject { header, limit: 0, owner: None, due_tick: 0, inserted: false, dpc: None }
}

impl DispatcherObject {
    /// An object with this header and nothing else.
    pub fn of(header: DispatcherHeader) -> (o: Self)
        ensures
            o == plain(header),
    {
        DispatcherObject {
            header,
            limit: 0,
            owner: None,
            due_tick: 0,
            inserted: false,
            dpc: None,
        }
    }
}

/// `KEVENT`.
#[derive(Debug, Clone, Copy, PartialEq, Eq, Structural)]
pub struct Kevent {
    pub header: DispatcherHeader,
}

impl Kevent {
    /// `KeInitializeEvent`.
    pub fn new(object_type: DispatcherObjectType, initially_signaled: bool) -> (e: Self)
        ensures
            e.header.object_type == object_type,
            e.header.signal_state == if initially_signaled {
                1i32
            } else {
                0
            },
    {
        Kevent {
            header: DispatcherHeader::new(
                object_type,
                if initially_signaled {
                    1
                } else {
                    0
                },
            ),
        }
    }

    /// `KeResetEvent`: back to non-signaled; nobody is woken. Returns the
    /// previous state.
    pub fn reset(&mut self) -> (prev: i32)
        ensures
            prev == old(self).header.signal_state,
            final(self).header.signal_state == 0,
            final(self).header.object_type == old(self).header.object_type,
    {
        let prev: i32 = self.header.signal_state;
        self.header.signal_state = 0;
        prev
    }

    /// `KeReadStateEvent`.
    pub fn read_state(&self) -> (s: i32)
        ensures
            s == self.header.signal_state,
    {
        self.header.signal_state
    }

    /// The event as a waitable object.
    pub fn object(self) -> (o: DispatcherObject)
        ensures
            o == plain(self.header),
    {
        DispatcherObject::of(self.header)
    }
}

/// `KSEMAPHORE`.
#[derive(Debug, Clone, Copy, PartialEq, Eq, Structural)]
pub struct Ksemaphore {
    pub header: DispatcherHeader,
    /// Maximum count.
    pub limit: i32,
}

impl Ksemaphore {
    /// `KeInitializeSemaphore`.
    pub fn new(initial: i32, limit: i32) -> (s: Self)
        ensures
            s.header.object_type == DispatcherObjectType::Semaphore,
            s.header.signal_state == initial,
            s.limit == limit,
    {
        Ksemaphore {
            header: DispatcherHeader::new(DispatcherObjectType::Semaphore, initial),
            limit,
        }
    }

    /// The semaphore as a waitable object.
    pub fn object(self) -> (o: DispatcherObject)
        ensures
            o == (DispatcherObject { limit: self.limit, ..plain(self.header) }),
    {
        DispatcherObject { limit: self.limit, ..DispatcherObject::of(self.header) }
    }
}

/// `KMUTANT`: recursive mutual exclusion with an owner.
#[derive(Debug, Clone, Copy, PartialEq, Eq, Structural)]
pub struct Kmutant {
    pub header: DispatcherHeader,
    /// The owning thread.
    pub owner: Option<usize>,
}

impl Kmutant {
    /// `KeInitializeMutant`: free and unowned.
    pub fn new() -> (m: Self)
        ensures
            m.header.object_type == DispatcherObjectType::Mutant,
            m.header.signal_state == 1,
            m.owner is None,
    {
        Kmutant { header: DispatcherHeader::new(DispatcherObjectType::Mutant, 1), owner: None }
    }

    /// The mutant as a waitable object.
    pub fn object(self) -> (o: DispatcherObject)
        ensures
            o == (DispatcherObject { owner: self.owner, ..plain(self.header) }),
    {
        DispatcherObject { owner: self.owner, ..DispatcherObject::of(self.header) }
    }
}

/// `KTIMER`: signaled when its due tick has come.
#[derive(Debug, Clone, Copy, PartialEq, Eq, Structural)]
pub struct Ktimer {
    pub header: DispatcherHeader,
    pub due_tick: u64,
    pub inserted: bool,
    pub dpc: Option<usize>,
}

impl Ktimer {
    /// `KeInitializeTimer`: not armed.
    pub fn new() -> (t: Self)
        ensures
            t.header.object_type == DispatcherObjectType::Timer,
            t.header.signal_state == 0,
            t.due_tick == 0,
            !t.inserted,
            t.dpc is None,
    {
        Ktimer {
            header: DispatcherHeader::new(DispatcherObjectType::Timer, 0),
            due_tick: 0,
            inserted: false,
            dpc: None,
        }
    }

    /// The timer as a waitable object.
    pub fn object(self) -> (o: DispatcherObject)
        ensures
            o == (DispatcherObject {
                due_tick: self.due_tick,
                inserted: self.inserted,
                dpc: self.dpc,
                ..plain(self.header)
            }),
    {
        DispatcherObject {
            due_tick: self.due_tick,
            inserted: self.inserted,
            dpc: self.dpc,
            ..DispatcherObject::of(self.header)
        }
    }
}

/// An object starts with what its header says, owned by nobody and armed for nothing.
pub proof fn an_object_starts_plain(header: DispatcherHeader)
    ensures
        plain(header).header == header,
        plain(header).limit == 0,
        plain(header).owner is None,
        plain(header).due_tick == 0,
        !plain(header).inserted,
        plain(header).dpc is None,
{
}

} // verus!
