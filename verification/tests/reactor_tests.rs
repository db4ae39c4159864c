use relay_core::epoll::Events;
use relay_core::epoll::EPOLLERR;
use relay_core::epoll::EPOLLHUP;
use relay_core::epoll::EPOLLIN;
use relay_core::epoll::EPOLLOUT;
use relay_core::reactor::accept;
use relay_core::reactor::dispatch;
use relay_core::reactor::fail_event;
use relay_core::reactor::read_event;
use relay_core::reactor::write_event;
use relay_core::reactor::ClientStorage;
use relay_core::reactor::Dispatch;
use relay_core::reactor::IoFailure;
use relay_core::reactor::ReadReport;
use relay_core::reactor::WriteReport;

fn reading() -> Events {
    Events::from_bits_truncate(EPOLLIN)
}

fn reading_and_writing() -> Events {
    Events::from_bits_truncate(EPOLLIN | EPOLLOUT)
}

fn table_of(fds: &[i32]) -> ClientStorage {
    let mut streams = ClientStorage::new();
    for fd in fds {
        accept(*fd, &mut streams);
    }
    streams
}

fn sorted(mut fds: Vec<i32>) -> Vec<i32> {
    fds.sort();
    fds
}

fn upgrades_of(report: ReadReport) -> Vec<i32> {
    match report {
        ReadReport::Broadcast(fds) => sorted(fds),
        other => panic!("expected a broadcast, got {:?}", other),
    }
}

fn feed(fd: i32, bytes: &[u8], streams: &mut ClientStorage) -> Vec<ReadReport> {
    let mut reports = Vec::new();
    let mut off = 0;
    while off < bytes.len() {
        let room = streams.room(fd).unwrap();
        let end = usize::min(bytes.len(), off + room);
        reports.push(read_event(fd, &bytes[off..end], streams));
        off = end;
    }
    reports
}

fn drain(fd: i32, step: usize, streams: &mut ClientStorage) -> Vec<u8> {
    let mut seen = Vec::new();
    loop {
        let bytes = streams.unsent(fd).concat();
        let take = usize::min(step, bytes.len());
        seen.extend_from_slice(&bytes[..take]);
        match write_event(fd, take, streams) {
            WriteReport::Partial | WriteReport::FullyDrained => {}
            _ => return seen,
        }
    }
}

#[test]
fn a_new_table_is_empty() {
    let streams = ClientStorage::new();
    assert_eq!(streams.len(), 0);
    assert!(!streams.contains(3));
    assert!(streams.handles().is_empty());
    assert_eq!(streams.room(3), None);
    assert_eq!(streams.interest(3), None);
    assert!(streams.unsent(3).is_empty());
    assert_eq!(streams.pending(3), 0);
}

#[test]
fn accept_files_the_connection_for_reading() {
    let mut streams = ClientStorage::new();
    assert_eq!(accept(5, &mut streams), (reading(), 5usize));
    assert_eq!(streams.len(), 1);
    assert!(streams.contains(5));
    assert_eq!(streams.interest(5), Some(reading()));
    assert_eq!(streams.room(5), Some(512));
    assert_eq!(accept(9, &mut streams), (reading(), 9usize));
    assert_eq!(sorted(streams.handles()), vec![5, 9]);
}

#[test]
fn accept_on_a_handle_in_use_starts_it_afresh() {
    let mut streams = table_of(&[5]);
    read_event(5, b"hi\n", &mut streams);
    assert_eq!(streams.interest(5), Some(reading_and_writing()));
    accept(5, &mut streams);
    assert_eq!(streams.len(), 1);
    assert_eq!(streams.interest(5), Some(reading()));
    assert_eq!(streams.pending(5), 0);
}

#[test]
fn two_peers_and_one_line() {
    let mut streams = table_of(&[3, 4]);
    let report = read_event(3, b"hi\n", &mut streams);
    assert_eq!(upgrades_of(report), vec![3, 4]);
    assert_eq!(streams.unsent(4).concat(), b"Test:hi\n".to_vec());
    assert_eq!(streams.unsent(3).concat(), b"Test:hi\n".to_vec());
    assert_eq!(streams.pending(3), 8);
    assert_eq!(streams.pending(4), 8);
    assert_eq!(streams.interest(3), Some(reading_and_writing()));
    assert_eq!(streams.interest(4), Some(reading_and_writing()));
    assert_eq!(write_event(4, 8, &mut streams), WriteReport::QueueEmptied);
    assert_eq!(write_event(3, 8, &mut streams), WriteReport::QueueEmptied);
    assert_eq!(streams.pending(3), 0);
    assert_eq!(streams.pending(4), 0);
    assert!(streams.unsent(3).is_empty());
    assert!(streams.unsent(4).is_empty());
    assert_eq!(streams.interest(3), Some(reading()));
    assert_eq!(streams.interest(4), Some(reading()));
}

#[test]
fn bytes_without_a_terminator_are_kept() {
    let mut streams = table_of(&[3, 4]);
    assert!(matches!(read_event(3, b"hel", &mut streams), ReadReport::Buffered));
    assert!(matches!(read_event(3, b"lo", &mut streams), ReadReport::Buffered));
    assert_eq!(streams.pending(4), 0);
    assert_eq!(streams.interest(4), Some(reading()));
    assert_eq!(streams.room(3), Some(507));
    let report = read_event(3, b"\n", &mut streams);
    assert_eq!(upgrades_of(report), vec![3, 4]);
    assert_eq!(streams.unsent(4).concat(), b"Test:hello\n".to_vec());
    assert_eq!(streams.room(3), Some(512));
}

#[test]
fn a_message_reaches_every_peer_once() {
    let fds = [3, 4, 5, 6, 7, 8];
    let mut streams = table_of(&fds);
    let report = read_event(5, b"to all\n", &mut streams);
    assert_eq!(upgrades_of(report), fds.to_vec());
    assert_eq!(streams.len(), fds.len());
    for fd in fds {
        assert_eq!(streams.pending(fd), 12);
        assert_eq!(drain(fd, 5, &mut streams), b"Test:to all\n".to_vec());
        assert_eq!(streams.pending(fd), 0);
        assert_eq!(write_event(fd, 0, &mut streams), WriteReport::Idle);
    }
}

#[test]
fn only_idle_peers_are_listed_for_an_upgrade() {
    let mut streams = table_of(&[3, 4, 5]);
    assert_eq!(upgrades_of(read_event(3, b"one\n", &mut streams)), vec![3, 4, 5]);
    assert_eq!(write_event(4, 9, &mut streams), WriteReport::QueueEmptied);
    assert_eq!(upgrades_of(read_event(5, b"two\n", &mut streams)), vec![4]);
    assert_eq!(upgrades_of(read_event(5, b"three\n", &mut streams)), Vec::<i32>::new());
    for fd in [3, 4, 5] {
        assert_eq!(streams.interest(fd), Some(reading_and_writing()));
    }
}

#[test]
fn a_recipient_sees_messages_whole_and_in_order() {
    let mut streams = table_of(&[3, 4, 5]);
    read_event(3, b"first\n", &mut streams);
    read_event(4, b"second\n", &mut streams);
    read_event(3, b"third\n", &mut streams);
    let expected = b"Test:first\nTest:second\nTest:third\n".to_vec();
    assert_eq!(drain(5, 4, &mut streams), expected);
    assert_eq!(drain(3, 1, &mut streams), expected);
    assert_eq!(drain(4, 1000, &mut streams), expected);
}

#[test]
fn write_event_reports_each_stage() {
    let mut streams = table_of(&[3]);
    assert_eq!(write_event(3, 0, &mut streams), WriteReport::Idle);
    assert_eq!(write_event(9, 0, &mut streams), WriteReport::Unknown);
    read_event(3, b"one\n", &mut streams);
    read_event(3, b"two\n", &mut streams);
    assert_eq!(write_event(3, 0, &mut streams), WriteReport::Partial);
    assert_eq!(write_event(3, 8, &mut streams), WriteReport::Partial);
    assert_eq!(streams.pending(3), 1);
    assert_eq!(write_event(3, 1, &mut streams), WriteReport::FullyDrained);
    assert_eq!(streams.interest(3), Some(reading_and_writing()));
    assert_eq!(streams.pending(3), 9);
    assert_eq!(write_event(3, 9, &mut streams), WriteReport::QueueEmptied);
    assert_eq!(streams.interest(3), Some(reading()));
    assert_eq!(write_event(3, 0, &mut streams), WriteReport::Idle);
}

#[test]
fn a_slow_peer_does_not_hold_up_the_others() {
    let mut streams = table_of(&[3, 4]);
    read_event(3, b"one\n", &mut streams);
    assert_eq!(write_event(4, 2, &mut streams), WriteReport::Partial);
    assert_eq!(drain(3, 100, &mut streams), b"Test:one\n".to_vec());
    read_event(3, b"two\n", &mut streams);
    assert_eq!(drain(3, 100, &mut streams), b"Test:two\n".to_vec());
    assert_eq!(drain(4, 100, &mut streams), b"st:one\nTest:two\n".to_vec());
}

#[test]
fn a_read_of_nothing_removes_the_connection_once() {
    let mut streams = table_of(&[3, 4]);
    read_event(4, b"pending\n", &mut streams);
    assert!(matches!(read_event(3, b"", &mut streams), ReadReport::Closed));
    assert!(!streams.contains(3));
    assert_eq!(streams.len(), 1);
    assert_eq!(streams.handles(), vec![4]);
    assert_eq!(streams.room(3), None);
    assert!(matches!(read_event(3, b"", &mut streams), ReadReport::Unknown));
    assert!(matches!(read_event(3, b"late\n", &mut streams), ReadReport::Unknown));
    assert_eq!(write_event(3, 0, &mut streams), WriteReport::Unknown);
    assert!(!fail_event(3, IoFailure::Fatal, &mut streams));
    assert_eq!(streams.len(), 1);
    assert!(streams.unsent(3).is_empty());
    assert_eq!(streams.unsent(4).concat(), b"Test:pending\n".to_vec());
}

#[test]
fn a_closed_peer_gets_no_later_message() {
    let mut streams = table_of(&[3, 4, 5]);
    read_event(4, b"", &mut streams);
    assert_eq!(upgrades_of(read_event(3, b"hi\n", &mut streams)), vec![3, 5]);
    assert_eq!(streams.pending(4), 0);
    assert_eq!(streams.pending(5), 8);
}

#[test]
fn closing_with_bytes_buffered_drops_them() {
    let mut streams = table_of(&[3, 4]);
    read_event(3, b"half a li", &mut streams);
    assert!(matches!(read_event(3, b"", &mut streams), ReadReport::Closed));
    assert_eq!(streams.pending(4), 0);
    accept(3, &mut streams);
    assert_eq!(upgrades_of(read_event(3, b"ne\n", &mut streams)), vec![3, 4]);
    assert_eq!(streams.unsent(4).concat(), b"Test:ne\n".to_vec());
}

#[test]
fn a_transient_failure_changes_nothing() {
    let mut streams = table_of(&[3, 4]);
    read_event(3, b"hi\n", &mut streams);
    write_event(4, 3, &mut streams);
    assert!(!fail_event(4, IoFailure::WouldBlock, &mut streams));
    assert!(!fail_event(4, IoFailure::Interrupted, &mut streams));
    assert!(streams.contains(4));
    assert_eq!(streams.pending(4), 5);
    assert_eq!(streams.interest(4), Some(reading_and_writing()));
    assert!(IoFailure::WouldBlock.is_transient());
    assert!(IoFailure::Interrupted.is_transient());
    assert!(!IoFailure::Fatal.is_transient());
}

#[test]
fn a_fatal_failure_removes_that_connection_only() {
    let mut streams = table_of(&[3, 4, 5]);
    read_event(3, b"hi\n", &mut streams);
    assert!(fail_event(4, IoFailure::Fatal, &mut streams));
    assert!(!streams.contains(4));
    assert_eq!(sorted(streams.handles()), vec![3, 5]);
    assert_eq!(streams.pending(3), 8);
    assert_eq!(streams.pending(5), 8);
    assert!(!fail_event(4, IoFailure::Fatal, &mut streams));
    assert_eq!(upgrades_of(read_event(5, b"on\n", &mut streams)), Vec::<i32>::new());
    assert_eq!(drain(3, 64, &mut streams), b"Test:hi\nTest:on\n".to_vec());
}

#[test]
fn everything_received_up_to_the_terminator_event_is_one_message() {
    let mut streams = table_of(&[3, 4]);
    assert_eq!(upgrades_of(read_event(3, b"one\ntwo\nthr", &mut streams)), vec![3, 4]);
    assert_eq!(streams.pending(4), 16);
    assert_eq!(streams.unsent(4).concat(), b"Test:one\ntwo\nthr".to_vec());
    assert!(matches!(read_event(3, b"ee", &mut streams), ReadReport::Buffered));
    assert_eq!(upgrades_of(read_event(3, b"\n", &mut streams)), Vec::<i32>::new());
    assert_eq!(drain(4, 3, &mut streams), b"Test:one\ntwo\nthrTest:ee\n".to_vec());
}

#[test]
fn a_line_longer_than_a_chunk_arrives_intact() {
    let mut line: Vec<u8> = (0..2000usize).map(|i| b'A' + (i % 26) as u8).collect();
    line.push(b'\n');
    let mut streams = table_of(&[3, 4]);
    let reports = feed(3, &line, &mut streams);
    assert_eq!(reports.len(), 4);
    assert!(matches!(reports[0], ReadReport::Buffered));
    assert!(matches!(reports[1], ReadReport::Buffered));
    assert!(matches!(reports[2], ReadReport::Buffered));
    assert!(matches!(reports[3], ReadReport::Broadcast(_)));
    let mut expected = b"Test:".to_vec();
    expected.extend_from_slice(&line);
    assert_eq!(streams.unsent(4).len(), 5);
    assert_eq!(drain(4, 777, &mut streams), expected);
    assert_eq!(drain(3, 1, &mut streams), expected);
}

#[test]
fn interest_follows_the_queue_through_a_session() {
    let writable = Events::from_bits_truncate(EPOLLOUT);
    let readable = Events::from_bits_truncate(EPOLLIN);
    let mut streams = table_of(&[3, 4, 5]);
    let check = |streams: &ClientStorage| {
        for fd in streams.handles() {
            let interest = streams.interest(fd).unwrap();
            assert!(interest.contains(readable));
            assert_eq!(
                interest.contains(writable),
                !streams.unsent(fd).is_empty() || streams.pending(fd) > 0
            );
        }
    };
    check(&streams);
    read_event(3, b"part", &mut streams);
    check(&streams);
    read_event(3, b"ial\n", &mut streams);
    check(&streams);
    write_event(4, 5, &mut streams);
    check(&streams);
    write_event(4, 8, &mut streams);
    check(&streams);
    read_event(5, b"", &mut streams);
    check(&streams);
    read_event(4, b"more\n", &mut streams);
    check(&streams);
    write_event(3, 13, &mut streams);
    check(&streams);
    write_event(3, 10, &mut streams);
    check(&streams);
    fail_event(4, IoFailure::Fatal, &mut streams);
    check(&streams);
}

#[test]
fn dispatch_routes_events() {
    let input = Events::from_bits_truncate(EPOLLIN);
    let output = Events::from_bits_truncate(EPOLLOUT);
    let both = Events::from_bits_truncate(EPOLLIN | EPOLLOUT);
    let trouble = Events::from_bits_truncate(EPOLLERR | EPOLLHUP);
    assert_eq!(dispatch(input, 3, 3), Dispatch::Accept);
    assert_eq!(dispatch(output, 3, 3), Dispatch::Accept);
    assert_eq!(dispatch(Events::empty(), 3, 3), Dispatch::Accept);
    assert_eq!(dispatch(input, 7, 3), Dispatch::Read(7));
    assert_eq!(dispatch(both, 7, 3), Dispatch::Read(7));
    assert_eq!(dispatch(output, 7, 3), Dispatch::Write(7));
    assert_eq!(dispatch(trouble, 7, 3), Dispatch::Nothing);
    assert_eq!(dispatch(Events::empty(), 7, 3), Dispatch::Nothing);
    assert_eq!(dispatch(input, 0, 3), Dispatch::Read(0));
}

#[test]
fn dispatch_passes_over_a_tag_that_is_no_handle() {
    let input = Events::from_bits_truncate(EPOLLIN);
    let largest = i32::MAX as usize;
    assert_eq!(dispatch(input, largest, 3), Dispatch::Read(i32::MAX));
    assert_eq!(dispatch(input, largest + 1, 3), Dispatch::Nothing);
    assert_eq!(dispatch(input, usize::MAX, 3), Dispatch::Nothing);
    assert_eq!(dispatch(input, usize::MAX, usize::MAX), Dispatch::Accept);
}

#[test]
fn broadcast_queues_for_all_and_lists_the_idle() {
    let mut source = table_of(&[1]);
    read_event(1, b"x\n", &mut source);
    let mut streams = table_of(&[3, 4]);
    read_event(3, b"first\n", &mut streams);
    write_event(3, 11, &mut streams);
    let mut other = relay_core::client::Client::new(9);
    other.read(b"second\n");
    let msg = other.flush_input();
    assert_eq!(sorted(streams.broadcast(&msg)), vec![3]);
    assert_eq!(drain(3, 50, &mut streams), b"Test:second\n".to_vec());
    assert_eq!(drain(4, 50, &mut streams), b"Test:first\nTest:second\n".to_vec());
    assert_eq!(source.pending(1), 7);
}

#[test]
fn the_sender_receives_its_own_message() {
    let mut streams = table_of(&[3]);
    assert_eq!(upgrades_of(read_event(3, b"echo\n", &mut streams)), vec![3]);
    assert_eq!(streams.interest(3), Some(reading_and_writing()));
    assert_eq!(drain(3, 4, &mut streams), b"Test:echo\n".to_vec());
    assert_eq!(streams.interest(3), Some(reading()));
}
