//! Behaviour of the fixed-capacity frame buffer: bounded length, drop-oldest
//! eviction, exact-match removal, ordered scans and consumer-driven pruning.

use can_transport::buffer::FrameBuffer;
use can_transport::frame::{Frame, IdentifierFilter};

fn frame(identifier: u32) -> Frame {
    Frame::new(identifier, [0u8; 8], 0, false)
}

fn frame_with_payload(identifier: u32, byte: u8, end: bool) -> Frame {
    let mut payload = [0u8; 8];
    payload[0] = byte;
    Frame::new(identifier, payload, 1, end)
}

#[test]
fn length_never_exceeds_capacity() {
    let mut b = FrameBuffer::new(3);
    for i in 0..10u32 {
        b.push(frame(i));
        assert!(b.len() <= b.capacity());
    }
    assert_eq!(b.len(), 3);
}

#[test]
fn full_push_evicts_oldest_and_sets_flag() {
    let mut b = FrameBuffer::new(2);
    let f1 = frame_with_payload(0x10, 1, false);
    let f2 = frame_with_payload(0x20, 2, false);
    let f3 = frame_with_payload(0x30, 3, true);
    assert_eq!(b.push(f1), None);
    assert_eq!(b.push(f2), None);
    assert!(!b.overflow_flag());
    let evicted = b.push(f3);
    assert_eq!(evicted, Some(f1));
    assert!(b.overflow_flag());
    assert_eq!(b.len(), 2);
    assert_eq!(b.remove_by_identifier(0x20), Some(f2));
    assert_eq!(b.remove_by_identifier(0x30), Some(f3));
}

#[test]
fn push_remove_round_trip() {
    let mut b = FrameBuffer::new(4);
    let a = frame(0x11);
    let c = frame(0x22);
    b.push(a);
    b.push(c);
    let f = frame_with_payload(0x33, 9, true);
    b.push(f);
    assert_eq!(b.remove_by_identifier(0x33), Some(f));
    assert_eq!(b.len(), 2);
    assert_eq!(b.find_first_matching(|_x| true), Some(a));
    assert_eq!(b.remove_by_identifier(0x11), Some(a));
    assert_eq!(b.remove_by_identifier(0x22), Some(c));
}

#[test]
fn arrival_order_find_first() {
    let mut b = FrameBuffer::new(8);
    let fa = frame(0xA);
    let fb = frame(0xB);
    let fc = frame(0xC);
    b.push(fa);
    b.push(fb);
    b.push(fc);
    assert_eq!(b.find_first_matching(|_x| true), Some(fa));
    assert_eq!(b.remove_by_identifier(0xA), Some(fa));
    assert_eq!(b.find_first_matching(|_x| true), Some(fb));
}

#[test]
fn capacity_one_two_pushes() {
    let mut b = FrameBuffer::new(1);
    let f1 = frame(0x1);
    let f2 = frame(0x2);
    assert_eq!(b.push(f1), None);
    let evicted = b.push(f2);
    assert_eq!(evicted, Some(f1));
    assert_eq!(b.len(), 1);
    assert!(b.overflow_flag());
    assert_eq!(b.remove_by_identifier(0x2), Some(f2));
    assert_eq!(b.remove_by_identifier(0x1), None);
}

#[test]
fn masked_match_range() {
    let filter = IdentifierFilter::new(0x120, 0xFF0);
    for id in 0x120..=0x12F {
        assert!(filter.is_match(id), "identifier {id:#x} should match");
    }
    assert!(!filter.is_match(0x130));
    assert!(!filter.is_match(0x11F));
    assert!(!filter.is_match(0x220));
}

#[test]
fn exact_match_filter() {
    let filter = IdentifierFilter::new(0x100, 0x7FF);
    assert!(filter.is_match(0x100));
    assert!(!filter.is_match(0x101));
    // Bits outside the mask are ignored on both sides.
    assert!(filter.is_match(0x100 | 0x800));
}

#[test]
fn remove_uses_exact_identifier_not_mask() {
    let mut b = FrameBuffer::new(4);
    b.push(frame(0x123));
    // A masked lookup would accept 0x120; direct retrieval must not.
    assert_eq!(b.remove_by_identifier(0x120), None);
    assert_eq!(b.len(), 1);
    assert_eq!(b.remove_by_identifier(0x123), Some(frame(0x123)));
}

#[test]
fn remove_from_empty_returns_none() {
    let mut b = FrameBuffer::new(2);
    assert_eq!(b.remove_by_identifier(0x1), None);
    assert_eq!(b.len(), 0);
    assert!(!b.overflow_flag());
}

#[test]
fn remove_takes_first_of_equal_identifiers() {
    let mut b = FrameBuffer::new(4);
    let first = frame_with_payload(0x50, 1, false);
    let second = frame_with_payload(0x50, 2, true);
    b.push(first);
    b.push(second);
    assert_eq!(b.remove_by_identifier(0x50), Some(first));
    assert_eq!(b.remove_by_identifier(0x50), Some(second));
}

#[test]
fn find_none_when_all_rejected() {
    let mut b = FrameBuffer::new(4);
    b.push(frame(0x1));
    b.push(frame(0x2));
    assert_eq!(b.find_first_matching(|_x| false), None);
    assert_eq!(b.len(), 2);
}

#[test]
fn find_end_of_transfer_with_masked_identifier() {
    let mut b = FrameBuffer::new(8);
    let filter = IdentifierFilter::new(0x120, 0xFF0);
    b.push(frame_with_payload(0x121, 1, false));
    b.push(frame_with_payload(0x122, 2, true));
    b.push(frame_with_payload(0x123, 3, true));
    let found = b.find_first_matching(|f| f.is_end_of_transfer && filter.is_match(f.identifier));
    assert_eq!(found, Some(frame_with_payload(0x122, 2, true)));
    assert_eq!(b.len(), 3, "find must not remove");
}

#[test]
fn retain_keeps_matching_in_order() {
    let mut b = FrameBuffer::new(8);
    for id in 1..=6u32 {
        b.push(frame(id));
    }
    b.retain(|f| f.identifier % 2 == 0);
    assert_eq!(b.len(), 3);
    assert_eq!(b.find_first_matching(|_x| true), Some(frame(2)));
    assert_eq!(b.remove_by_identifier(2), Some(frame(2)));
    assert_eq!(b.find_first_matching(|_x| true), Some(frame(4)));
    assert_eq!(b.remove_by_identifier(4), Some(frame(4)));
    assert_eq!(b.remove_by_identifier(6), Some(frame(6)));
    assert_eq!(b.len(), 0);
}

#[test]
fn retain_leaves_flag_and_capacity() {
    let mut b = FrameBuffer::new(1);
    b.push(frame(1));
    b.push(frame(2));
    assert!(b.overflow_flag());
    b.retain(|_f| false);
    assert_eq!(b.len(), 0);
    assert!(b.overflow_flag(), "retain must not clear the sticky flag");
    assert_eq!(b.capacity(), 1);
}

#[test]
fn reset_overflow_flag_clears_only_the_flag() {
    let mut b = FrameBuffer::new(1);
    b.push(frame(1));
    b.push(frame(2));
    assert!(b.overflow_flag());
    b.reset_overflow_flag();
    assert!(!b.overflow_flag());
    assert_eq!(b.len(), 1);
    assert_eq!(b.remove_by_identifier(2), Some(frame(2)));
}

#[test]
fn overflow_flag_is_sticky_across_normal_operation() {
    let mut b = FrameBuffer::new(1);
    b.push(frame(1));
    b.push(frame(2));
    assert!(b.overflow_flag());
    // Draining and pushing below capacity never clears the diagnostic.
    assert_eq!(b.remove_by_identifier(2), Some(frame(2)));
    assert!(b.overflow_flag());
    b.push(frame(3));
    assert!(b.overflow_flag());
}
