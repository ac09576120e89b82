# kernel

An NT-style kernel core for x86_64 whose logic is verified with Verus.

* `src/` is the library. Every executable function carries a contract, and Verus
  proves it.
  * `rtl`: status codes, counted UTF-16 strings, bitmaps, intrusive lists.
  * `ke`: interrupt levels, spinlocks, threads and dispatcher objects, the
    scheduler, deferred and asynchronous calls, descriptor tables, traps, faults
    and exceptions, the tracer, the debugger wire protocol, further processors.
  * `mm`: physical frames, page tables, committed ranges, the tagged pool, the
    pagefile, access to user memory.
  * `ob`, `ps`: objects, handles and system threads.
  * `ldr`: images, imports, resources, the blocks of a new program.
  * `syscalls`: the system services.
  * `kernel32`: the Win32 routines that programs import.
* `tests/` runs the library on concrete values.
* `app/` is the bootable image around it: entry from the boot loader, trap and
  system call entry, context switches, the serial console. `app/shim` holds the entry
  points that programs import.

Memory, tables and registers are values: a function takes the machine state it
needs and returns the next one, and `app/` carries out what only the processor
can do. What one function promises is its `ensures`; what several promise together
stands in public proof functions: in `mm/laws.rs`, `mm/isolation.rs`, `mm/private.rs`,
`mm/rollback.rs`, `mm/splitting.rs`, `ke/laws.rs`, `ke/contention.rs` and
`ldr/relocation.rs`, and at the end of the module they are about.
