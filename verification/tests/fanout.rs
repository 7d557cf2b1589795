//! Behaviour of the registry and the pump: registration, fan-out of drained
//! frames to every matching subscription, and the consumer read side.

use can_transport::frame::{Frame, IdentifierFilter};
use can_transport::interface::Interface;

fn frame(identifier: u32) -> Frame {
    Frame::new(identifier, [0u8; 8], 0, false)
}

#[test]
fn fanout_delivers_to_matching_subscription_only() {
    let mut iface = Interface::new(4, 8);
    let s1 = iface.subscribe(IdentifierFilter::new(0x100, 0x7FF)).unwrap();
    let s2 = iface.subscribe(IdentifierFilter::new(0x200, 0x7FF)).unwrap();
    let batch = vec![frame(0x100)];
    iface.spin(&batch);
    assert_eq!(s1.buffered_count(&iface), 1);
    assert_eq!(s2.buffered_count(&iface), 0);
    assert_eq!(s1.receive(&mut iface, 0x100), Some(frame(0x100)));
    assert_eq!(s2.receive(&mut iface, 0x100), None);
}

#[test]
fn frame_matching_several_filters_is_copied_into_each() {
    let mut iface = Interface::new(4, 8);
    let s1 = iface.subscribe(IdentifierFilter::new(0x100, 0x7FF)).unwrap();
    let s2 = iface.subscribe(IdentifierFilter::new(0x100, 0xF00)).unwrap();
    iface.dispatch(frame(0x100));
    assert_eq!(s1.buffered_count(&iface), 1);
    assert_eq!(s2.buffered_count(&iface), 1);
    // The buffers are independent: draining one leaves the other untouched.
    assert_eq!(s1.receive(&mut iface, 0x100), Some(frame(0x100)));
    assert_eq!(s1.buffered_count(&iface), 0);
    assert_eq!(s2.buffered_count(&iface), 1);
    assert_eq!(s2.receive(&mut iface, 0x100), Some(frame(0x100)));
}

#[test]
fn frame_matching_no_filter_is_discarded() {
    let mut iface = Interface::new(4, 8);
    let s1 = iface.subscribe(IdentifierFilter::new(0x100, 0x7FF)).unwrap();
    let s2 = iface.subscribe(IdentifierFilter::new(0x200, 0x7FF)).unwrap();
    iface.spin(&vec![frame(0x300)]);
    assert_eq!(s1.buffered_count(&iface), 0);
    assert_eq!(s2.buffered_count(&iface), 0);
}

#[test]
fn subscribe_fails_only_past_the_ceiling() {
    let mut iface = Interface::new(2, 2);
    assert!(iface.subscribe(IdentifierFilter::new(0x1, 0x7FF)).is_ok());
    assert!(iface.subscribe(IdentifierFilter::new(0x2, 0x7FF)).is_ok());
    assert_eq!(iface.subscription_count(), 2);
    assert!(iface.subscribe(IdentifierFilter::new(0x3, 0x7FF)).is_err());
    assert_eq!(iface.subscription_count(), 2);
}

#[test]
fn new_subscription_sees_only_later_frames() {
    let mut iface = Interface::new(4, 8);
    let s1 = iface.subscribe(IdentifierFilter::new(0x100, 0x7FF)).unwrap();
    iface.spin(&vec![frame(0x100)]);
    let s2 = iface.subscribe(IdentifierFilter::new(0x100, 0x7FF)).unwrap();
    iface.spin(&vec![frame(0x100)]);
    assert_eq!(s1.buffered_count(&iface), 2);
    assert_eq!(s2.buffered_count(&iface), 1);
}

#[test]
fn spin_preserves_arrival_order_per_subscription() {
    let mut iface = Interface::new(8, 8);
    let s = iface.subscribe(IdentifierFilter::new(0, 0)).unwrap();
    iface.spin(&vec![frame(0xA), frame(0xB), frame(0xC)]);
    assert_eq!(s.find(&iface, |_f| true), Some(frame(0xA)));
    assert_eq!(s.receive(&mut iface, 0xA), Some(frame(0xA)));
    assert_eq!(s.find(&iface, |_f| true), Some(frame(0xB)));
}

#[test]
fn spin_overflow_keeps_most_recent_frames() {
    let mut iface = Interface::new(2, 8);
    let s = iface.subscribe(IdentifierFilter::new(0, 0)).unwrap();
    iface.spin(&vec![frame(1), frame(2), frame(3)]);
    assert_eq!(s.buffered_count(&iface), 2);
    assert!(s.overflow_flag(&iface));
    assert_eq!(s.receive(&mut iface, 1), None, "oldest frame was evicted");
    assert_eq!(s.receive(&mut iface, 2), Some(frame(2)));
    assert_eq!(s.receive(&mut iface, 3), Some(frame(3)));
    s.reset_overflow_flag(&mut iface);
    assert!(!s.overflow_flag(&iface));
}

#[test]
fn subscriber_retain_prunes_own_buffer_only() {
    let mut iface = Interface::new(8, 8);
    let s1 = iface.subscribe(IdentifierFilter::new(0, 0)).unwrap();
    let s2 = iface.subscribe(IdentifierFilter::new(0, 0)).unwrap();
    iface.spin(&vec![frame(1), frame(2), frame(3)]);
    s1.retain(&mut iface, |f| f.identifier >= 3);
    assert_eq!(s1.buffered_count(&iface), 1);
    assert_eq!(s2.buffered_count(&iface), 3);
    assert_eq!(s1.receive(&mut iface, 3), Some(frame(3)));
}

#[test]
fn getters_report_construction_parameters() {
    let iface = Interface::new(5, 3);
    assert_eq!(iface.buffer_capacity(), 5);
    assert_eq!(iface.subscription_count(), 0);
}

#[test]
fn interleaved_spin_and_receive_keep_invariants() {
    let mut iface = Interface::new(2, 4);
    let s = iface.subscribe(IdentifierFilter::new(0x120, 0xFF0)).unwrap();
    let mut next_id = 0x120u32;
    for step in 0..20u32 {
        // One pump iteration delivers a small burst...
        let burst: Vec<Frame> = (0..(step % 3 + 1)).map(|k| frame(0x120 + (next_id + k) % 0x10)).collect();
        next_id += 1;
        iface.spin(&burst);
        let len_after_spin = s.buffered_count(&iface);
        assert!(len_after_spin <= iface.buffer_capacity());
        // ...and the consumer drains concurrently (simulated interleaving).
        if let Some(f) = s.find(&iface, |_x| true) {
            let got = s.receive(&mut iface, f.identifier);
            let got = got.expect("a frame seen by find must be receivable");
            // No torn frame: what comes out is a frame the test created.
            assert_eq!(got.identifier & 0xFF0, 0x120);
            assert_eq!(got.payload, [0u8; 8]);
            assert_eq!(got.payload_length, 0);
        }
        let len = s.buffered_count(&iface);
        assert!(len <= iface.buffer_capacity());
    }
}
