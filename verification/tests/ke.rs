//! The executive core: interrupt levels and the debugger protocol.
use kernel::ke::irql::{
    disable_interrupts, ke_get_current_irql, ke_lower_irql, ke_raise_irql, restore_interrupts,
    Processor, DISPATCH_LEVEL, HIGH_LEVEL, PASSIVE_LEVEL,
};
use kernel::ke::kdcom::{
    checksum, encode, encode_control, Decoder, PacketType, HEADER_LEN, INITIAL_PACKET_ID,
    PACKET_LEADER, PACKET_TRAILER,
};
use kernel::ke::spinlock::{
    ke_acquire_spin_lock_raw, ke_release_spin_lock_raw, try_claim_raw, SpinLock, SpinLockGuard,
};

fn processor() -> Processor {
    Processor { irql: PASSIVE_LEVEL, rflags: 0x202 }
}

#[test]
fn raise_lower_roundtrip() {
    let mut cpu = processor();
    let old = ke_raise_irql(&mut cpu, DISPATCH_LEVEL);
    assert_eq!(ke_get_current_irql(&cpu), DISPATCH_LEVEL);
    let old2 = ke_raise_irql(&mut cpu, HIGH_LEVEL);
    assert_eq!(old2, DISPATCH_LEVEL);
    ke_lower_irql(&mut cpu, old2);
    ke_lower_irql(&mut cpu, old);
    assert_eq!(ke_get_current_irql(&cpu), old);
}

#[test]
fn interrupts_are_masked_and_restored() {
    let mut cpu = processor();
    let saved = disable_interrupts(&mut cpu);
    assert_eq!(cpu.rflags & 0x200, 0);
    restore_interrupts(&mut cpu, saved);
    assert_eq!(cpu.rflags & 0x200, 0x200);
}

#[test]
fn a_lock_raises_and_its_release_lowers() {
    let mut cpu = processor();
    let mut lock = SpinLock::new(0u64);
    for _ in 0..10 {
        let g = lock.lock(&mut cpu);
        assert_eq!(ke_get_current_irql(&cpu), DISPATCH_LEVEL);
        *lock.get_mut() += 1;
        lock.release(g, &mut cpu);
        assert_eq!(ke_get_current_irql(&cpu), PASSIVE_LEVEL);
    }
    assert_eq!(lock.data, 10);
}

#[test]
fn checksum_is_byte_sum() {
    assert_eq!(checksum(&[]), 0);
    assert_eq!(checksum(&[1, 2, 3]), 6);
    assert_eq!(checksum(&[0xff, 0xff]), 0x1fe);
}

#[test]
fn data_packet_round_trips() {
    let payload = [0xDE, 0xAD, 0xBE, 0xEF, 0x00, 0x7F];
    let wire = encode(PacketType::StateManipulate, INITIAL_PACKET_ID, &payload);
    assert_eq!(u32::from_le_bytes(wire[0..4].try_into().unwrap()), PACKET_LEADER);
    assert_eq!(*wire.last().unwrap(), PACKET_TRAILER);

    let mut d = Decoder::new();
    d.push(&wire);
    let pkt = d.next_packet().expect("one packet");
    assert_eq!(pkt.kind, PacketType::StateManipulate);
    assert_eq!(pkt.id, INITIAL_PACKET_ID);
    assert!(!pkt.control);
    assert_eq!(pkt.payload, payload);
    assert!(d.next_packet().is_none());
}

#[test]
fn control_packet_round_trips() {
    let wire = encode_control(PacketType::Acknowledge, INITIAL_PACKET_ID);
    assert_eq!(wire.len(), HEADER_LEN);
    let mut d = Decoder::new();
    d.push(&wire);
    let pkt = d.next_packet().expect("ack");
    assert_eq!(pkt.kind, PacketType::Acknowledge);
    assert!(pkt.control);
    assert!(pkt.payload.is_empty());
}

#[test]
fn split_delivery_reassembles() {
    let payload = [1u8, 2, 3, 4, 5];
    let wire = encode(PacketType::StateChange64, 0x8080_0001, &payload);
    let mut d = Decoder::new();
    for (i, &b) in wire.iter().enumerate() {
        d.push(&[b]);
        let got = d.next_packet();
        if i + 1 < wire.len() {
            assert!(got.is_none(), "packet completed early at byte {i}");
        } else {
            assert_eq!(got.unwrap().payload, payload);
        }
    }
}

#[test]
fn bad_checksum_is_dropped() {
    let mut wire = encode(PacketType::DebugIo, 1, &[9, 9, 9]);
    wire[HEADER_LEN] ^= 0xFF;
    let mut d = Decoder::new();
    d.push(&wire);
    assert!(d.next_packet().is_none(), "corrupt packet must not decode");
}

#[test]
fn resyncs_after_leading_garbage() {
    let payload = [0xAB, 0xCD];
    let mut wire = vec![0x11u8, 0x22, 0x33];
    wire.extend_from_slice(&encode(PacketType::Reset, 7, &payload));
    let mut d = Decoder::new();
    d.push(&wire);
    let pkt = d.next_packet().expect("resynced packet");
    assert_eq!(pkt.payload, payload);
}

#[test]
fn an_unknown_control_packet_is_skipped() {
    let mut wire = encode_control(PacketType::Reset, 0);
    wire[4] = 9;
    wire.extend_from_slice(&encode(PacketType::DebugIo, 1, &[9]));
    let mut d = Decoder::new();
    d.push(&wire);
    let pkt = d.next_packet().expect("the packet behind it");
    assert_eq!((pkt.kind, pkt.id), (PacketType::DebugIo, 1));
    assert_eq!(pkt.payload, vec![9]);
    assert!(d.next_packet().is_none());
}

#[test]
fn processors_that_race_take_turns() {
    let mut lock = SpinLock::new(0u32);
    let mut cpus = [processor(), processor(), processor()];
    let mut left = [5u32; 3];
    let mut holder: Option<(usize, u32)> = None;
    let mut turn = 0usize;
    while left.iter().any(|&n| n > 0) {
        let at = (turn * 7 + turn / 3) % 3;
        turn += 1;
        match holder {
            Some((who, seen)) if who == at => {
                *lock.get_mut() = seen + 1;
                let g = SpinLockGuard { old_irql: PASSIVE_LEVEL };
                lock.release(g, &mut cpus[at]);
                left[at] -= 1;
                holder = None;
            }
            Some(_) => assert!(!lock.try_claim()),
            None if left[at] > 0 => {
                ke_raise_irql(&mut cpus[at], DISPATCH_LEVEL);
                assert!(lock.try_claim());
                holder = Some((at, *lock.get_mut()));
            }
            None => {}
        }
    }
    assert_eq!(*lock.get_mut(), 15);
}

#[test]
fn a_held_lock_is_not_claimed_again() {
    let mut cpu = Processor { irql: PASSIVE_LEVEL, rflags: 0x202 };
    let mut lock = SpinLock::new(5u32);
    let g = lock.lock(&mut cpu);
    assert!(!lock.try_claim());
    lock.release(g, &mut cpu);
    assert_eq!(cpu.irql, PASSIVE_LEVEL);
    assert!(lock.try_claim());
    let mut word = 0usize;
    let before = ke_acquire_spin_lock_raw(&mut word, &mut cpu);
    assert_eq!((before, cpu.irql, word), (PASSIVE_LEVEL, DISPATCH_LEVEL, 1));
    assert!(!try_claim_raw(&mut word));
    let mut other = SpinLock::new(());
    let inner = other.lock_at_dpc_level(&cpu);
    other.release(inner, &mut cpu);
    assert_eq!(cpu.irql, DISPATCH_LEVEL);
    ke_release_spin_lock_raw(&mut word, before, &mut cpu);
    assert_eq!((cpu.irql, word), (PASSIVE_LEVEL, 0));
}
