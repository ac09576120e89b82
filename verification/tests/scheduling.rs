//! Threads, waits, timers and deferred work.
use kernel::ke::apc::{
    begin_delivery, end_delivery, ke_initialize_apc, ke_insert_queue_apc, ki_deliver_apcs,
    normal_call, ApcQueue, NormalCall,
};
use kernel::ke::dispatcher::{
    DispatcherObject, DispatcherObjectType, Kevent, Kmutant, Ksemaphore, Ktimer,
};
use kernel::ke::dpc::{ke_insert_queue_dpc, ki_retire_dpcs, DpcCall, DpcQueue, Kdpc};
use kernel::ke::irql::{Processor, APC_LEVEL, PASSIVE_LEVEL};
use kernel::ke::ready::ReadyQueues;
use kernel::ke::scheduler::{
    ke_delay_execution_thread, ke_wait_for_multiple_objects, ke_wait_for_mutant,
    ke_wait_for_single_object, ke_wait_for_single_object_timeout, ki_delay_thread,
    ki_ready_thread, ki_wait_for_object, Dispatcher, Spaces, WaitOutcome,
};
use kernel::ke::signal::{
    ke_cancel_timer, ke_query_tick_count, ke_set_timer, ki_clock_tick, ki_dispatch_interrupt,
    ki_release_mutant, ki_release_semaphore, ki_reset_object, ki_signal_object,
    ki_terminate_current_thread, MUTANT_NOT_OWNED, SEMAPHORE_LIMIT_EXCEEDED,
};
use kernel::ke::thread::{Kthread, ThreadState, DEFAULT_PRIORITY};
use kernel::rtl::NtStatus;

const SP: Spaces = Spaces { loaded: 0x1000, kernel: 0x1000 };

fn idle_system() -> Dispatcher {
    Dispatcher::ki_initialize(Kthread::new(0, 0x10_0000, 0x4000, 0))
}

fn thread(d: &mut Dispatcher, id: u64, priority: u8) -> usize {
    let t = d.add_thread(Kthread::new(id, 0x10_0000 * (id + 1), 0x4000, priority));
    ki_ready_thread(d, t);
    t
}

/// A system that runs one thread of the default priority.
fn running() -> (Dispatcher, usize) {
    let mut d = idle_system();
    let t = thread(&mut d, 1, DEFAULT_PRIORITY);
    let (_, sw) = ki_dispatch_interrupt(&mut d, &SP);
    assert_eq!(sw.unwrap().to, t);
    assert_eq!(d.current, t);
    (d, t)
}

fn event(d: &mut Dispatcher, kind: DispatcherObjectType, set: bool) -> usize {
    d.add_object(Kevent::new(kind, set).object())
}

fn blocked(r: WaitOutcome) -> usize {
    match r {
        WaitOutcome::Blocked(sw) => sw.to,
        WaitOutcome::Done(_) => panic!("the wait should block"),
    }
}

fn done(r: WaitOutcome) -> NtStatus {
    match r {
        WaitOutcome::Done(s) => s,
        WaitOutcome::Blocked(_) => panic!("the wait should not block"),
    }
}

#[test]
fn the_highest_priority_goes_first_and_equals_in_order() {
    let mut r = ReadyQueues::new();
    assert_eq!(r.highest(), None);
    assert_eq!(r.take_next(), None);
    r.insert(1, 8);
    r.insert(2, 8);
    r.insert(3, 31);
    r.insert(4, 0);
    assert_eq!(r.highest(), Some(31));
    assert_eq!(r.take_next(), Some(3));
    assert_eq!(r.take_next(), Some(1));
    assert_eq!(r.take_next(), Some(2));
    assert_eq!(r.take_next(), Some(4));
    assert_eq!(r.take_next(), None);
}

#[test]
fn a_ready_thread_preempts_the_idle_thread() {
    let mut d = idle_system();
    let t = d.add_thread(Kthread::new(7, 0x20_0000, 0x4000, 8));
    assert_eq!(d.threads[t].state, ThreadState::Initialized);
    ki_ready_thread(&mut d, t);
    assert_eq!(d.threads[t].state, ThreadState::Ready);
    let (dpcs, sw) = ki_dispatch_interrupt(&mut d, &SP);
    assert!(dpcs.is_empty());
    let sw = sw.unwrap();
    assert_eq!((sw.from, sw.to), (0, t));
    assert_eq!(sw.kernel_stack, 0x20_4000);
    assert_eq!(d.threads[t].state, ThreadState::Running);
}

#[test]
fn a_synchronization_event_wakes_one_waiter_per_set() {
    let (mut d, a) = running();
    let e = event(&mut d, DispatcherObjectType::SynchronizationEvent, false);
    let b = thread(&mut d, 2, DEFAULT_PRIORITY);
    assert_eq!(blocked(ki_wait_for_object(&mut d, e, None, &SP)), b);
    assert_eq!(blocked(ki_wait_for_object(&mut d, e, None, &SP)), 0);
    assert_eq!(d.threads[a].state, ThreadState::Waiting);
    assert_eq!(d.threads[b].state, ThreadState::Waiting);
    let (prev, woke) = ki_signal_object(&mut d, e);
    assert_eq!((prev, woke), (0, true));
    assert_eq!(d.threads[a].state, ThreadState::Ready);
    assert_eq!(d.threads[b].state, ThreadState::Waiting);
    assert_eq!(d.objects[e].header.signal_state, 0);
    ki_signal_object(&mut d, e);
    assert_eq!(d.threads[b].state, ThreadState::Ready);
    let (_, woke) = ki_signal_object(&mut d, e);
    assert!(!woke);
    assert_eq!(d.objects[e].header.signal_state, 1);
}

#[test]
fn a_notification_event_wakes_everyone_until_it_is_reset() {
    let (mut d, a) = running();
    let e = event(&mut d, DispatcherObjectType::NotificationEvent, false);
    let b = thread(&mut d, 2, DEFAULT_PRIORITY);
    blocked(ki_wait_for_object(&mut d, e, None, &SP));
    blocked(ki_wait_for_object(&mut d, e, None, &SP));
    ki_signal_object(&mut d, e);
    assert_eq!(d.threads[a].state, ThreadState::Ready);
    assert_eq!(d.threads[b].state, ThreadState::Ready);
    assert_eq!(done(ki_wait_for_object(&mut d, e, None, &SP)), NtStatus(NtStatus::SUCCESS));
    assert_eq!(ki_reset_object(&mut d, e), 1);
    assert_eq!(
        done(ki_wait_for_object(&mut d, e, Some(0), &SP)),
        NtStatus(NtStatus::TIMEOUT)
    );
}

#[test]
fn a_semaphore_counts_and_has_a_limit() {
    let (mut d, _) = running();
    let s = d.add_object(Ksemaphore::new(1, 2).object());
    assert_eq!(done(ki_wait_for_object(&mut d, s, Some(0), &SP)), NtStatus(NtStatus::SUCCESS));
    assert_eq!(done(ki_wait_for_object(&mut d, s, Some(0), &SP)), NtStatus(NtStatus::TIMEOUT));
    assert_eq!(ki_release_semaphore(&mut d, s, 2), Ok((0, false)));
    assert_eq!(
        ki_release_semaphore(&mut d, s, 1),
        Err(NtStatus(SEMAPHORE_LIMIT_EXCEEDED))
    );
    assert_eq!(
        ki_release_semaphore(&mut d, s, 0),
        Err(NtStatus(SEMAPHORE_LIMIT_EXCEEDED))
    );
    assert_eq!(d.objects[s].header.signal_state, 2);
}

#[test]
fn a_mutant_is_owned_and_recursive() {
    let (mut d, a) = running();
    let m = d.add_object(Kmutant::new().object());
    assert_eq!(ki_release_mutant(&mut d, m), Err(NtStatus(MUTANT_NOT_OWNED)));
    done(ki_wait_for_object(&mut d, m, None, &SP));
    done(ki_wait_for_object(&mut d, m, None, &SP));
    assert_eq!(d.objects[m].owner, Some(a));
    let b = thread(&mut d, 2, 12);
    let (_, sw) = ki_dispatch_interrupt(&mut d, &SP);
    assert_eq!(sw.unwrap().to, b);
    assert_eq!(ki_release_mutant(&mut d, m), Err(NtStatus(MUTANT_NOT_OWNED)));
    assert_eq!(blocked(ki_wait_for_object(&mut d, m, None, &SP)), a);
    assert!(ki_release_mutant(&mut d, m).is_ok());
    assert_eq!(d.threads[b].state, ThreadState::Waiting);
    let (_, woke) = ki_release_mutant(&mut d, m).unwrap();
    assert!(woke);
    assert_eq!(d.objects[m].owner, Some(b));
}

#[test]
fn single_waits_share_one_rule() {
    let (mut d, a) = running();
    let e = event(&mut d, DispatcherObjectType::NotificationEvent, true);
    let m = d.add_object(Kmutant::new().object());
    assert_eq!(done(ke_wait_for_single_object(&mut d, e, &SP)), NtStatus(NtStatus::SUCCESS));
    assert_eq!(done(ke_wait_for_mutant(&mut d, m, &SP)), NtStatus(NtStatus::SUCCESS));
    assert_eq!(d.objects[m].owner, Some(a));
    ki_reset_object(&mut d, e);
    assert_eq!(
        done(ke_wait_for_single_object_timeout(&mut d, e, Some(0), &SP)),
        NtStatus(NtStatus::TIMEOUT)
    );
    assert_eq!(blocked(ki_delay_thread(&mut d, 1, &SP)), 0);
}

#[test]
fn waiting_for_all_takes_nothing_until_all_are_there() {
    let (mut d, a) = running();
    let e = event(&mut d, DispatcherObjectType::SynchronizationEvent, true);
    let f = event(&mut d, DispatcherObjectType::SynchronizationEvent, false);
    blocked(ke_wait_for_multiple_objects(&mut d, &[e, f], true, None, &SP));
    assert_eq!(d.objects[e].header.signal_state, 1);
    ki_signal_object(&mut d, f);
    assert_eq!(d.threads[a].state, ThreadState::Ready);
    assert_eq!(d.objects[e].header.signal_state, 0);
    assert_eq!(d.objects[f].header.signal_state, 0);
    assert_eq!(d.threads[a].wait_status, NtStatus(NtStatus::SUCCESS));
}

#[test]
fn waiting_for_any_reports_which() {
    let (mut d, a) = running();
    let e = event(&mut d, DispatcherObjectType::SynchronizationEvent, false);
    let f = event(&mut d, DispatcherObjectType::SynchronizationEvent, false);
    blocked(ke_wait_for_multiple_objects(&mut d, &[e, f], false, None, &SP));
    ki_signal_object(&mut d, f);
    assert_eq!(d.threads[a].wait_status, NtStatus(1));
}

#[test]
fn a_wait_times_out_after_its_ticks() {
    let (mut d, a) = running();
    let e = event(&mut d, DispatcherObjectType::SynchronizationEvent, false);
    assert_eq!(blocked(ki_wait_for_object(&mut d, e, Some(3), &SP)), 0);
    for _ in 0..2 {
        ki_clock_tick(&mut d);
        ki_dispatch_interrupt(&mut d, &SP);
        assert_eq!(d.threads[a].state, ThreadState::Waiting);
    }
    assert!(ki_clock_tick(&mut d));
    let (_, sw) = ki_dispatch_interrupt(&mut d, &SP);
    assert_eq!(sw.unwrap().to, a);
    assert_eq!(d.threads[a].wait_status, NtStatus(NtStatus::TIMEOUT));
    assert_eq!(ke_query_tick_count(&d), 3);
    ki_signal_object(&mut d, e);
    assert_eq!(d.objects[e].header.signal_state, 1);
}

#[test]
fn a_signal_before_the_timeout_wins() {
    let (mut d, a) = running();
    let e = event(&mut d, DispatcherObjectType::SynchronizationEvent, false);
    blocked(ki_wait_for_object(&mut d, e, Some(3), &SP));
    ki_clock_tick(&mut d);
    ki_signal_object(&mut d, e);
    for _ in 0..5 {
        ki_clock_tick(&mut d);
        ki_dispatch_interrupt(&mut d, &SP);
    }
    assert_eq!(d.threads[a].wait_status, NtStatus(NtStatus::SUCCESS));
    assert_eq!(d.threads[a].state, ThreadState::Running);
}

#[test]
fn sleeping_gives_the_processor_away() {
    let (mut d, a) = running();
    assert_eq!(blocked(ke_delay_execution_thread(&mut d, 2, &SP)), 0);
    ki_clock_tick(&mut d);
    ki_dispatch_interrupt(&mut d, &SP);
    assert_eq!(d.current, 0);
    ki_clock_tick(&mut d);
    ki_dispatch_interrupt(&mut d, &SP);
    assert_eq!(d.current, a);
}

#[test]
fn a_used_up_quantum_lets_an_equal_run() {
    let (mut d, a) = running();
    let b = thread(&mut d, 2, DEFAULT_PRIORITY);
    let mut turns = 0;
    while d.current == a && turns < 50 {
        ki_clock_tick(&mut d);
        ki_dispatch_interrupt(&mut d, &SP);
        turns += 1;
    }
    assert_eq!(turns, 10);
    assert_eq!(d.current, b);
    assert_eq!(d.threads[a].state, ThreadState::Ready);
}

#[test]
fn a_timer_fires_once_and_can_be_cancelled() {
    let mut d = idle_system();
    let t = d.add_object(Ktimer::new().object());
    assert!(!ke_set_timer(&mut d, t, 2, Some(5)));
    assert!(ke_set_timer(&mut d, t, 3, Some(6)));
    ki_clock_tick(&mut d);
    ki_clock_tick(&mut d);
    assert!(ki_dispatch_interrupt(&mut d, &SP).0.is_empty());
    ki_clock_tick(&mut d);
    assert_eq!(ki_dispatch_interrupt(&mut d, &SP).0, vec![6]);
    assert_eq!(d.objects[t].header.signal_state, 1);
    assert!(!ke_cancel_timer(&mut d, t));
    ke_set_timer(&mut d, t, 9, None);
    assert!(ke_cancel_timer(&mut d, t));
    for _ in 0..10 {
        ki_clock_tick(&mut d);
    }
    assert!(ki_dispatch_interrupt(&mut d, &SP).0.is_empty());
}

#[test]
fn a_thread_that_ends_wakes_its_joiners() {
    let (mut d, a) = running();
    let b = thread(&mut d, 2, DEFAULT_PRIORITY);
    let object = d.threads[b].object;
    assert_eq!(blocked(ki_wait_for_object(&mut d, object, None, &SP)), b);
    let sw = ki_terminate_current_thread(&mut d, &SP).unwrap();
    assert_eq!(sw.to, a);
    assert_eq!(d.threads[b].state, ThreadState::Terminated);
    assert_eq!(d.threads[a].wait_status, NtStatus(NtStatus::SUCCESS));
}

#[test]
fn switching_address_spaces_is_part_of_a_switch() {
    let mut d = idle_system();
    let mut th = Kthread::new(1, 0x20_0000, 0x4000, 8);
    th.cr3 = 0x9000;
    th.gs_base = 0x7777_0000;
    let t = d.add_thread(th);
    ki_ready_thread(&mut d, t);
    let sw = ki_dispatch_interrupt(&mut d, &SP).1.unwrap();
    assert_eq!(sw.load_cr3, Some(0x9000));
    assert_eq!(sw.gs_base, Some(0x7777_0000));
    let e = d.add_object(Kevent::new(DispatcherObjectType::NotificationEvent, false).object());
    let back = match ki_wait_for_object(&mut d, e, None, &Spaces { loaded: 0x9000, kernel: 0x1000 }) {
        WaitOutcome::Blocked(sw) => sw,
        WaitOutcome::Done(_) => panic!("the wait should block"),
    };
    assert_eq!(back.load_cr3, Some(0x1000));
}

#[test]
fn a_new_stack_starts_at_the_start_up_routine() {
    let mut t = Kthread::new(1, 0x20_0000, 0x4000, 8);
    let words = t.initialize_stack(0xAAAA, 0xBBBB, 0xCCCC);
    assert_eq!(words, vec![0xBBBB, 0xCCCC, 0, 0, 0, 0, 0xAAAA]);
    assert_eq!(t.kernel_rsp, 0x20_4000 - 8 - 56);
    assert_eq!((t.kernel_rsp + 56 + 8) % 16, 0);
}

#[test]
fn event_objects_report_their_state() {
    let mut e = Kevent::new(DispatcherObjectType::NotificationEvent, true);
    assert_eq!(e.read_state(), 1);
    assert_eq!(e.reset(), 1);
    assert_eq!(e.read_state(), 0);
    assert_eq!(DispatcherObjectType::event_kind(0), DispatcherObjectType::NotificationEvent);
    assert_eq!(DispatcherObjectType::event_kind(1), DispatcherObjectType::SynchronizationEvent);
    let o: DispatcherObject = e.object();
    assert_eq!(o.owner, None);
}

#[test]
fn deferred_calls_run_once_in_order_of_insertion() {
    let mut q = DpcQueue::new();
    let a = q.add(Kdpc::new(0x100, 1));
    let b = q.add(Kdpc::new_win64(0x200, 2));
    assert!(ke_insert_queue_dpc(&mut q, b));
    assert!(ke_insert_queue_dpc(&mut q, a));
    assert!(!ke_insert_queue_dpc(&mut q, b));
    let first = ki_retire_dpcs(&mut q).unwrap();
    assert!(matches!(first, DpcCall::Driver { routine: 0x200, context: 2, .. }));
    assert!(ke_insert_queue_dpc(&mut q, b));
    let second = ki_retire_dpcs(&mut q).unwrap();
    assert!(!matches!(second, DpcCall::Driver { .. }));
    assert!(ki_retire_dpcs(&mut q).is_some());
    assert!(ki_retire_dpcs(&mut q).is_none());
}

#[test]
fn asynchronous_calls_reach_their_own_thread() {
    let mut q = ApcQueue::empty();
    let a = q.add();
    let b = q.add();
    ke_initialize_apc(&mut q, a, Some(1), Some(0x10), Some(0x20), 5, 6, 7);
    ke_initialize_apc(&mut q, b, Some(2), None, None, 0, 0, 0);
    assert!(ke_insert_queue_apc(&mut q, a, Some(1)));
    assert!(!ke_insert_queue_apc(&mut q, a, Some(1)));
    assert!(ke_insert_queue_apc(&mut q, b, Some(2)));
    assert_eq!(ki_deliver_apcs(&mut q, 3), None);
    assert_eq!(ki_deliver_apcs(&mut q, 1), Some((a, Some(0x10))));
    assert_eq!(
        normal_call(&q, a),
        Some(NormalCall { routine: 0x20, context: 5, arg1: 6, arg2: 7 })
    );
    assert_eq!(ki_deliver_apcs(&mut q, 1), None);
    assert_eq!(ki_deliver_apcs(&mut q, 2), Some((b, None)));
    assert_eq!(normal_call(&q, b), None);
}

#[test]
fn delivery_is_not_entered_twice() {
    let mut cpu = Processor { irql: PASSIVE_LEVEL, rflags: 0x202 };
    let mut delivering = vec![false; 8];
    assert_eq!(begin_delivery(&mut delivering, &mut cpu, 0), Some(PASSIVE_LEVEL));
    assert_eq!(cpu.irql, APC_LEVEL);
    assert_eq!(begin_delivery(&mut delivering, &mut cpu, 0), None);
    assert_eq!(begin_delivery(&mut delivering, &mut cpu, 8), None);
    end_delivery(&mut delivering, &mut cpu, 0, PASSIVE_LEVEL);
    assert_eq!(cpu.irql, PASSIVE_LEVEL);
    assert!(!delivering[0]);
}
