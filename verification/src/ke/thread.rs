//! `KTHREAD`: the kernel thread object and the frame a new thread starts from.
use crate::rtl::NtStatus;
use vstd::prelude::*;

verus! {

/// Scheduling states.
#[derive(Debug, Clone, Copy, PartialEq, Eq, Structural)]
pub enum ThreadState {
    Initialized,
    Ready,
    Running,
    Terminated,
    /// On a wait list, off the ready queues.
    Waiting,
}

/// One thread's claim on one dispatcher object.
#[derive(Debug, Clone, Copy, PartialEq, Eq, Structural)]
pub struct KwaitBlock {
    /// The object waited on.
    pub object: usize,
    /// Reported when this block satisfies a wait for any object.
    pub wait_key: u32,
    /// Whether the block is on the object's wait list.
    pub active: bool,
}

impl KwaitBlock {
    pub fn new() -> (b: Self)
        ensures
            b == (KwaitBlock { object: 0, wait_key: 0, active: false }),
    {
        KwaitBlock { object: 0, wait_key: 0, active: false }
    }
}

/// Whether a wait completes when all objects are signaled or when any one is.
#[derive(Debug, Clone, Copy, PartialEq, Eq, Structural)]
pub enum WaitType {
    All,
    Any,
}

/// Objects a thread can wait on at once.
pub const THREAD_WAIT_OBJECTS: usize = 3;

/// The wait blocks of a thread.
#[derive(Debug, Clone, Copy, PartialEq, Eq, Structural)]
pub struct WaitBlocks {
    pub first: KwaitBlock,
    pub second: KwaitBlock,
    pub third: KwaitBlock,
}

impl WaitBlocks {
    /// Block `i`.
    pub open spec fn at(self, i: int) -> KwaitBlock {
        if i == 0 {
            self.first
        } else if i == 1 {
            self.second
        } else {
            self.third
        }
    }

    /// Block `i`.
    pub fn get(&self, i: usize) -> (b: KwaitBlock)
        requires
            i < THREAD_WAIT_OBJECTS,
        ensures
            b == self.at(i as int),
    {
        if i == 0 {
            self.first
        } else if i == 1 {
            self.second
        } else {
            self.third
        }
    }

    /// The blocks with block `i` replaced.
    pub open spec fn with(self, i: int, b: KwaitBlock) -> WaitBlocks {
        if i == 0 {
            WaitBlocks { first: b, ..self }
        } else if i == 1 {
            WaitBlocks { second: b, ..self }
        } else {
            WaitBlocks { third: b, ..self }
        }
    }

    /// Replace block `i`.
    pub fn set(&mut self, i: usize, b: KwaitBlock)
        requires
            i < THREAD_WAIT_OBJECTS,
        ensures
            *final(self) == old(self).with(i as int, b),
    {
        if i == 0 {
            self.first = b;
        } else if i == 1 {
            self.second = b;
        } else {
            self.third = b;
        }
    }

    /// No block in use.
    pub open spec fn blank() -> WaitBlocks {
        let b = KwaitBlock { object: 0, wait_key: 0, active: false };
        WaitBlocks { first: b, second: b, third: b }
    }

    pub fn new() -> (w: Self)
        ensures
            w == WaitBlocks::blank(),
    {
        WaitBlocks { first: KwaitBlock::new(), second: KwaitBlock::new(), third: KwaitBlock::new() }
    }
}

/// Where a guarded copy resumes after a fault.
#[derive(Debug, Clone, Copy, PartialEq, Eq, Structural)]
pub struct FaultRecovery {
    pub rip: u64,
    pub rsp: u64,
    pub rbp: u64,
    pub rbx: u64,
    pub r12: u64,
    pub r13: u64,
    pub r14: u64,
    pub r15: u64,
}

impl FaultRecovery {
    pub fn new() -> (f: Self)
        ensures
            f == (FaultRecovery {
                rip: 0,
                rsp: 0,
                rbp: 0,
                rbx: 0,
                r12: 0,
                r13: 0,
                r14: 0,
                r15: 0,
            }),
    {
        FaultRecovery { rip: 0, rsp: 0, rbp: 0, rbx: 0, r12: 0, r13: 0, r14: 0, r15: 0 }
    }
}

/// A thread's standard handles; 0 stands for the console.
#[derive(Debug, Clone, Copy, PartialEq, Eq, Structural)]
pub struct StdHandles {
    pub input: u64,
    pub output: u64,
    pub error: u64,
}

impl StdHandles {
    /// Not redirected.
    pub open spec fn console() -> StdHandles {
        StdHandles { input: 0, output: 0, error: 0 }
    }
}

/// The kernel thread object.
#[derive(Debug, Clone, Copy)]
pub struct Kthread {
    /// The dispatcher object that is signaled when the thread ends.
    pub object: usize,
    /// The timer object behind a wait timeout.
    pub timer: usize,
    /// Stack pointer while the thread is not running.
    pub kernel_rsp: u64,
    pub stack_base: u64,
    pub stack_top: u64,
    pub state: ThreadState,
    /// Ready-queue index, below 32.
    pub priority: u8,
    /// Clock ticks left before preemption.
    pub quantum: i32,
    pub wait_blocks: WaitBlocks,
    pub wait_type: WaitType,
    /// Number of objects in the current wait.
    pub wait_count: usize,
    /// Whether the timer is armed for the current wait.
    pub wait_timed: bool,
    /// What a satisfied wait returns.
    pub wait_status: NtStatus,
    pub thread_id: u64,
    /// Address space, 0 for the kernel's.
    pub cr3: u64,
    pub last_error: u32,
    /// Address and length of the command line, 0 for the default.
    pub cmdline_ptr: u64,
    pub cmdline_len: u32,
    /// Address and length of the program's resource module, 0 for the one
    /// registered for its base.
    pub mui_ptr: u64,
    pub mui_len: u32,
    pub exit_code: u32,
    /// User-mode GS base, 0 for kernel threads.
    pub gs_base: u64,
    pub std_handles: StdHandles,
    /// Handles for the next child process.
    pub child_std_handles: StdHandles,
    pub fault_recovery: FaultRecovery,
    pub recovery_armed: bool,
}

/// Default quantum in clock ticks.
pub const DEFAULT_QUANTUM: i32 = 10;

/// Default priority of system threads.
pub const DEFAULT_PRIORITY: u8 = 8;

/// Words of the frame a new thread starts from.
pub const SWITCH_FRAME_WORDS: usize = 7;

/// Stack pointer of a new thread that has not run yet.
pub open spec fn initial_rsp(stack_top: u64) -> int {
    (stack_top / 16) * 16 - 8 - 56
}

/// The words at that stack pointer, lowest first: r15, r14, r13, r12, rbx, rbp
/// and the return address.
pub open spec fn switch_frame(startup: u64, entry: u64, context: u64) -> Seq<u64> {
    seq![entry, context, 0, 0, 0, 0, startup]
}

/// A thread over a stack, not runnable yet.
pub open spec fn new_thread(thread_id: u64, stack_base: u64, stack_top: int, priority: u8) -> Kthread {
    Kthread {
        object: 0,
        timer: 0,
        kernel_rsp: 0,
        stack_base,
        stack_top: stack_top as u64,
        state: ThreadState::Initialized,
        priority,
        quantum: DEFAULT_QUANTUM,
        wait_blocks: WaitBlocks::blank(),
        wait_type: WaitType::Any,
        wait_count: 0,
        wait_timed: false,
        wait_status: NtStatus(NtStatus::SUCCESS),
        thread_id,
        cr3: 0,
        last_error: 0,
        cmdline_ptr: 0,
        cmdline_len: 0,
        mui_ptr: 0,
        mui_len: 0,
        exit_code: 0,
        gs_base: 0,
        std_handles: StdHandles::console(),
        child_std_handles: StdHandles::console(),
        fault_recovery: FaultRecovery {
            rip: 0,
            rsp: 0,
            rbp: 0,
            rbx: 0,
            r12: 0,
            r13: 0,
            r14: 0,
            r15: 0,
        },
        recovery_armed: false,
    }
}

impl Kthread {
    /// A thread over a stack, not runnable yet. Its dispatcher objects are named
    /// when it is entered in the dispatcher's table.
    pub fn new(thread_id: u64, stack_base: u64, stack_size: usize, priority: u8) -> (t: Self)
        requires
            stack_base + stack_size <= u64::MAX,
        ensures
            t == new_thread(thread_id, stack_base, stack_base + stack_size, priority),
    {
        let console = StdHandles { input: 0, output: 0, error: 0 };
        Kthread {
            object: 0,
            timer: 0,
            kernel_rsp: 0,
            stack_base,
            stack_top: stack_base + stack_size as u64,
            state: ThreadState::Initialized,
            priority,
            quantum: DEFAULT_QUANTUM,
            wait_blocks: WaitBlocks::new(),
            wait_type: WaitType::Any,
            wait_count: 0,
            wait_timed: false,
            wait_status: NtStatus(NtStatus::SUCCESS),
            thread_id,
            cr3: 0,
            last_error: 0,
            cmdline_ptr: 0,
            cmdline_len: 0,
            mui_ptr: 0,
            mui_len: 0,
            exit_code: 0,
            gs_base: 0,
            std_handles: console,
            child_std_handles: console,
            fault_recovery: FaultRecovery::new(),
            recovery_armed: false,
        }
    }

    /// Set the stack pointer of a new thread and return the words to write there,
    /// so that the first switch to it enters `startup` with the entry point and
    /// its argument in r15 and r14.
    pub fn initialize_stack(&mut self, startup: u64, entry: u64, context: u64) -> (words: Vec<u64>)
        requires
            old(self).stack_top >= 128,
        ensures
            final(self).kernel_rsp == initial_rsp(old(self).stack_top),
            *final(self) == (Kthread { kernel_rsp: final(self).kernel_rsp, ..*old(self) }),
            words@ == switch_frame(startup, entry, context),
    {
        self.kernel_rsp = self.stack_top / 16 * 16 - 8 - 56;
        let mut words: Vec<u64> = Vec::new();
        words.push(entry);
        words.push(context);
        words.push(0);
        words.push(0);
        words.push(0);
        words.push(0);
        words.push(startup);
        assert(words@ =~= switch_frame(startup, entry, context));
        words
    }
}

/// A new thread enters its startup routine with the stack pointer eight off a
/// multiple of sixteen, below its stack top: the switch has popped six registers
/// and the return address.
pub proof fn new_thread_stack_is_aligned(stack_top: u64)
    requires
        stack_top >= 128,
    ensures
        (initial_rsp(stack_top) + 8 * SWITCH_FRAME_WORDS) % 16 == 8,
        initial_rsp(stack_top) + 8 * SWITCH_FRAME_WORDS < stack_top,
        initial_rsp(stack_top) >= 0,
{
}

/// Each of the three wait blocks is set on its own.
pub proof fn wait_blocks_are_independent(w: WaitBlocks, i: int, j: int, b: KwaitBlock)
    requires
        0 <= i < 3,
        0 <= j < 3,
    ensures
        w.with(i, b).at(j) == if i == j {
            b
        } else {
            w.at(j)
        },
{
}

} // verus!
