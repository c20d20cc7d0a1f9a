use aarch64_kernel::allocate::Allocator;
use aarch64_kernel::cores::{core_of_affinity, CoreNo};
use aarch64_kernel::mailbox::{
    check_response, request_serial_number, response_buffer, response_channel, serial_number,
    tag_pointer, Error, CHANNEL_PROP, RESPONSE_ERROR, RESPONSE_SUCCESS,
};
use aarch64_kernel::sync::mutex::Mutex;

#[test]
fn bump_allocator_hands_out_aligned_memory_upwards() {
    let mut heap = Allocator::uninit();
    assert_eq!(heap.next_free(), 0);
    heap.init(0x8_0004);
    assert_eq!(heap.next_free(), 0x8_0004);
    assert_eq!(heap.allocate(16, 16), 0x8_0010);
    assert_eq!(heap.next_free(), 0x8_0020);
    assert_eq!(heap.allocate(3, 1), 0x8_0020);
    assert_eq!(heap.allocate(8, 8), 0x8_0028);
    assert_eq!(heap.next_free(), 0x8_0030);
    heap.dealloc(0x8_0010, 16, 16);
    assert_eq!(heap.next_free(), 0x8_0030);
    assert_eq!(heap.allocate(0, 4096), 0x8_1000);
}

#[test]
fn bump_allocator_tells_when_it_has_no_room() {
    let mut heap = Allocator::uninit();
    heap.init(usize::MAX - 20);
    assert!(heap.has_room(4, 16));
    assert!(heap.has_room(20, 1));
    assert!(!heap.has_room(21, 1));
    assert!(heap.has_room(15, 16));
    assert!(!heap.has_room(16, 16));
    assert!(!heap.has_room(0, 4096));
}

#[test]
fn mutex_holds_what_was_written_through_it() {
    let mut lock = Mutex::new(5u32);
    assert!(!lock.is_locked());
    *lock.lock() += 2;
    lock.force_unlock();
    assert!(!lock.is_locked());
    assert_eq!(*lock.lock(), 7);
    assert_eq!(lock.into_inner(), 7);
}

#[test]
fn core_number_is_in_the_two_lowest_bits() {
    assert_eq!(core_of_affinity(0), CoreNo::Core0);
    assert_eq!(core_of_affinity(1), CoreNo::Core1);
    assert_eq!(core_of_affinity(2), CoreNo::Core2);
    assert_eq!(core_of_affinity(3), CoreNo::Core3);
    assert_eq!(core_of_affinity(0x8000_0f02), CoreNo::Core2);
    assert_eq!(core_of_affinity(u64::MAX), CoreNo::Core3);
}

#[test]
fn serial_request_has_its_eight_words() {
    assert_eq!(
        request_serial_number(),
        vec![32, 0, 0x1_0004, 8, 8, 0xdead_beef, 0xdead_babe, 0]
    );
}

#[test]
fn tagged_pointer_carries_buffer_and_channel() {
    let word = tag_pointer(0x0008_1230, CHANNEL_PROP);
    assert_eq!(word, 0x0008_1238);
    assert_eq!(response_channel(word), CHANNEL_PROP);
    assert_eq!(response_buffer(word), 0x0008_1230);
    assert_eq!(tag_pointer(0x13, 0x24), 0x37);
    assert_eq!(response_channel(0xffff_ffff), 0xf);
    assert_eq!(response_buffer(0xffff_ffff), 0xffff_fff0);
}

#[test]
fn responses_are_told_apart_by_their_code() {
    assert_eq!(check_response(&vec![]), Err(Error::BufferTooShort));
    assert_eq!(check_response(&vec![32]), Err(Error::BufferTooShort));
    assert_eq!(check_response(&vec![32, RESPONSE_SUCCESS]), Ok(()));
    assert_eq!(check_response(&vec![32, RESPONSE_ERROR, 7]), Err(Error::ResponseError));
    assert_eq!(check_response(&vec![32, 0x1234]), Err(Error::UnknownResponse(0x1234)));
    assert_eq!(check_response(&vec![32, 0]), Err(Error::UnknownResponse(0)));
}

#[test]
fn serial_number_joins_two_words() {
    let words = vec![32, RESPONSE_SUCCESS, 0x1_0004, 8, 8, 0x89ab_cdef, 0x0123_4567, 0];
    assert_eq!(serial_number(&words), 0x0123_4567_89ab_cdef);
    let words = vec![0, 0, 0, 0, 0, 0xffff_ffff, 0xffff_ffff];
    assert_eq!(serial_number(&words), u64::MAX);
}
