use polly::event_manager::{Error, EventManager};
use polly::pollable::{EventType, OsError, OwnedFD, Pollable, PollableOp, PollableOpBuilder};
use polly::readiness::contains;
use polly::text::{push_decimal, push_signed_decimal};

const NO_ERROR: OsError = OsError { code: 0 };

fn descriptor(fd: i32, duplicate: i32) -> Pollable {
    OwnedFD::from(fd, duplicate, NO_ERROR).unwrap()
}

#[test]
fn event_types_have_their_bits() {
    assert_eq!(EventType::none().bits(), 0);
    assert_eq!(EventType::read().bits(), 1);
    assert_eq!(EventType::write().bits(), 2);
    assert_eq!(EventType::close().bits(), 4);
    assert_eq!(EventType::default().bits(), EventType::NONE);
}

#[test]
fn event_types_tell_what_they_ask_for() {
    let both = EventType::read().union(EventType::close());
    assert_eq!(both.bits(), 5);
    assert!(both.readable());
    assert!(!both.writeable());
    assert!(both.closed());
    assert!(EventType::write().writeable());
    assert!(!EventType::none().readable());
    assert!(both.contains(EventType::close()));
    assert!(both.contains(EventType::none()));
    assert!(!EventType::close().contains(both));
}

#[test]
fn event_types_are_ordered_by_their_bits() {
    let both = EventType::read().union(EventType::write());
    assert!(EventType::none() < EventType::read());
    assert!(EventType::read() < EventType::write());
    assert!(EventType::write() < both);
    assert!(both < EventType::close());
    assert!(EventType::close().max(both) == EventType::close());
}

#[test]
fn flags_are_contained_as_a_whole() {
    assert!(contains(0b110, 0b010));
    assert!(contains(0b110, 0b110));
    assert!(contains(0, 0));
    assert!(!contains(0b100, 0b110));
}

#[test]
fn a_duplicate_is_kept_beside_its_descriptor() {
    let owned = OwnedFD::from(7, 12, OsError { code: 9 }).unwrap();
    assert_eq!(owned.as_raw_fd(), 7);
    assert_eq!(owned.dup_fd(), 12);
    let unowned = OwnedFD::from_unowned(3, 0, NO_ERROR).unwrap();
    assert_eq!(unowned.as_raw_fd(), 3);
    assert_eq!(unowned.dup_fd(), 0);
}

#[test]
fn a_descriptor_stands_for_its_number() {
    let owned = descriptor(7, 12);
    assert_eq!(**owned, 7);
}

#[test]
fn a_negative_answer_is_the_last_error() {
    assert_eq!(OwnedFD::from(7, -1, OsError { code: 24 }), Err(OsError { code: 24 }));
    assert_eq!(OwnedFD::from_unowned(7, -5, OsError { code: 9 }), Err(OsError { code: 9 }));
}

#[test]
fn descriptors_are_equal_by_their_number() {
    assert!(descriptor(7, 12) == descriptor(7, 13));
    assert!(descriptor(7, 12) != descriptor(8, 12));
    assert_eq!(OwnedFD::default().as_raw_fd(), 0);
    assert_eq!(OwnedFD::default().dup_fd(), 0);
}

#[test]
fn a_descriptor_is_shown_by_its_number() {
    assert_eq!(descriptor(42, 43).display(), "42");
    assert_eq!(descriptor(-3, 43).display(), "-3");
}

#[test]
fn numbers_are_written_in_decimal() {
    let mut text = String::from("n=");
    push_decimal(&mut text, 0);
    push_decimal(&mut text, 1984);
    push_decimal(&mut text, u64::MAX);
    assert_eq!(text, "n=0198418446744073709551615");
    let mut text = String::new();
    push_signed_decimal(&mut text, i32::MIN);
    push_signed_decimal(&mut text, i32::MAX);
    assert_eq!(text, "-21474836482147483647");
}

#[test]
fn a_builder_gathers_what_is_asked_for() {
    let op = PollableOpBuilder::new(descriptor(7, 12)).readable().closeable().register();
    match op {
        PollableOp::Register((pollable, event_type)) => {
            assert_eq!(pollable.as_raw_fd(), 7);
            assert_eq!(pollable.dup_fd(), 12);
            assert_eq!(event_type.bits(), 5);
        }
        _ => panic!("not a registration"),
    }
    let mut builder = PollableOpBuilder::new(descriptor(8, 9));
    builder.writeable();
    match builder.update() {
        PollableOp::Update((pollable, event_type)) => {
            assert_eq!(pollable.as_raw_fd(), 8);
            assert!(event_type == EventType::write());
        }
        _ => panic!("not an update"),
    }
    match PollableOpBuilder::new(descriptor(8, 9)).unregister() {
        PollableOp::Unregister((pollable, event_type)) => {
            assert_eq!(pollable.dup_fd(), 9);
            assert!(event_type == EventType::none());
        }
        _ => panic!("not an unregistration"),
    }
}

#[test]
fn masks_are_those_of_epoll() {
    assert_eq!(EventManager::event_type_to_epoll_mask(EventType::none()), 0);
    assert_eq!(
        EventManager::event_type_to_epoll_mask(EventType::read()),
        epoll::Events::EPOLLIN.bits()
    );
    assert_eq!(
        EventManager::event_type_to_epoll_mask(EventType::write()),
        epoll::Events::EPOLLOUT.bits()
    );
    assert_eq!(
        EventManager::event_type_to_epoll_mask(EventType::close()),
        epoll::Events::EPOLLRDHUP.bits()
    );
    let all = EventType::read().union(EventType::write()).union(EventType::close());
    assert_eq!(EventManager::event_type_to_epoll_mask(all), 0x2005);
}

#[test]
fn errors_have_their_texts() {
    assert_eq!(Error::EpollCreate.text(""), "Unable to create epoll fd.");
    assert_eq!(
        Error::Poll(OsError { code: 9 }).text("Bad file descriptor (os error 9)"),
        "Error during epoll call: Bad file descriptor (os error 9)"
    );
    assert_eq!(
        Error::AlreadyExists.text("unused"),
        "A handler for the specified pollable already exists"
    );
    assert_eq!(
        Error::PollableNotFound(descriptor(17, 18)).text("unused"),
        "A handler for the specified pollable 17 was not found"
    );
}
