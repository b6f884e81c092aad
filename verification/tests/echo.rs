use iterative_server::echo::{
    after_read, transmit_loop, Echo, IoOutcome, ReadStep, Transmission, WriteStep, SCRATCH_SIZE,
};

#[test]
fn scratch_buffer_is_160_bytes() {
    assert_eq!(SCRATCH_SIZE, 160);
}

#[test]
fn read_of_zero_bytes_is_the_end_of_the_stream() {
    assert_eq!(after_read(IoOutcome::Transferred(0)), ReadStep::Closed);
}

#[test]
fn read_of_some_bytes_starts_their_echo() {
    assert_eq!(after_read(IoOutcome::Transferred(5)), ReadStep::Echo(Echo::start(5)));
    assert_eq!(after_read(IoOutcome::Transferred(1)), ReadStep::Echo(Echo::start(1)));
    assert_eq!(
        after_read(IoOutcome::Transferred(SCRATCH_SIZE)),
        ReadStep::Echo(Echo::start(SCRATCH_SIZE))
    );
}

#[test]
fn read_that_would_block_is_no_error_and_no_end() {
    assert_eq!(after_read(IoOutcome::WouldBlock), ReadStep::Wait);
}

#[test]
fn read_error_ends_the_connection() {
    assert_eq!(after_read(IoOutcome::Failed), ReadStep::Failed);
}

#[test]
fn read_count_beyond_the_buffer_is_a_failure() {
    assert_eq!(after_read(IoOutcome::Transferred(SCRATCH_SIZE + 1)), ReadStep::Failed);
    assert_eq!(after_read(IoOutcome::Transferred(usize::MAX)), ReadStep::Failed);
}

#[test]
fn new_echo_offers_everything() {
    let echo = Echo::start(5);
    assert_eq!(echo.len(), 5);
    assert_eq!(echo.sent(), 0);
    assert!(!echo.is_failed());
    assert_eq!(echo.next_step(), WriteStep::Write { from: 0, to: 5 });
}

#[test]
fn echo_of_nothing_is_delivered_at_once() {
    let echo = Echo::start(0);
    assert_eq!(echo.next_step(), WriteStep::Delivered);
}

#[test]
fn full_write_delivers() {
    let echo = Echo::start(5).after_write(IoOutcome::Transferred(5));
    assert_eq!(echo.sent(), 5);
    assert_eq!(echo.next_step(), WriteStep::Delivered);
}

#[test]
fn partial_write_offers_the_rest() {
    let echo = Echo::start(100).after_write(IoOutcome::Transferred(30));
    assert_eq!(echo.sent(), 30);
    assert_eq!(echo.next_step(), WriteStep::Write { from: 30, to: 100 });
    let echo = echo.after_write(IoOutcome::Transferred(69));
    assert_eq!(echo.next_step(), WriteStep::Write { from: 99, to: 100 });
    let echo = echo.after_write(IoOutcome::Transferred(1));
    assert_eq!(echo.sent(), 100);
    assert_eq!(echo.next_step(), WriteStep::Delivered);
}

#[test]
fn blocked_write_is_tried_again_with_the_same_bytes() {
    let echo = Echo::start(8).after_write(IoOutcome::Transferred(3));
    let again = echo.after_write(IoOutcome::WouldBlock);
    assert_eq!(again, echo);
    assert_eq!(again.next_step(), WriteStep::Write { from: 3, to: 8 });
}

#[test]
fn write_that_took_nothing_is_tried_again() {
    let echo = Echo::start(8).after_write(IoOutcome::Transferred(0));
    assert_eq!(echo, Echo::start(8));
    assert_eq!(echo.next_step(), WriteStep::Write { from: 0, to: 8 });
}

#[test]
fn write_error_fails_the_echo() {
    let echo = Echo::start(8).after_write(IoOutcome::Transferred(3)).after_write(IoOutcome::Failed);
    assert!(echo.is_failed());
    assert_eq!(echo.sent(), 3);
    assert_eq!(echo.next_step(), WriteStep::Failed);
}

#[test]
fn write_count_beyond_what_was_offered_fails_the_echo() {
    let echo = Echo::start(8).after_write(IoOutcome::Transferred(3));
    let over = echo.after_write(IoOutcome::Transferred(6));
    assert!(over.is_failed());
    assert_eq!(over.sent(), 3);
    assert_eq!(over.next_step(), WriteStep::Failed);
    // Exactly what was offered is fine.
    assert_eq!(echo.after_write(IoOutcome::Transferred(5)).next_step(), WriteStep::Delivered);
}

#[test]
fn ended_echo_ignores_further_outcomes() {
    let done = Echo::start(4).after_write(IoOutcome::Transferred(4));
    assert_eq!(done.after_write(IoOutcome::Failed), done);
    assert_eq!(done.after_write(IoOutcome::Transferred(1)), done);
    let failed = Echo::start(4).after_write(IoOutcome::Failed);
    assert_eq!(failed.after_write(IoOutcome::Transferred(4)), failed);
    assert_eq!(failed.after_write(IoOutcome::WouldBlock), failed);
}

#[test]
fn unsent_is_the_rest_of_what_was_read() {
    let mut buf = [0u8; SCRATCH_SIZE];
    buf[..5].copy_from_slice(b"hello");
    let echo = Echo::start(5);
    assert_eq!(echo.unsent(&buf), b"hello");
    let echo = echo.after_write(IoOutcome::Transferred(2));
    assert_eq!(echo.unsent(&buf), b"llo");
    let echo = echo.after_write(IoOutcome::Transferred(3));
    assert_eq!(echo.unsent(&buf), b"");
}

#[test]
fn unsent_of_a_short_buffer_is_what_the_buffer_has() {
    let echo = Echo::start(8).after_write(IoOutcome::Transferred(2));
    assert_eq!(echo.unsent(b"abcdefgh"), b"cdefgh");
    assert_eq!(echo.unsent(b"abcde"), b"cde");
    assert_eq!(echo.unsent(b"ab"), b"");
    assert_eq!(echo.unsent(b"a"), b"");
    assert_eq!(echo.unsent(b""), b"");
}

#[test]
fn transmit_loop_without_writes_delivers_nothing() {
    let done = transmit_loop(b"hello", &Vec::new());
    assert_eq!(done, Transmission { end: Echo::start(5), delivered: Vec::new() });
    assert_eq!(done.end.next_step(), WriteStep::Write { from: 0, to: 5 });
}

#[test]
fn transmit_loop_of_nothing_is_complete() {
    assert_eq!(transmit_loop(b"", &Vec::new()).end.next_step(), WriteStep::Delivered);
    let done = transmit_loop(b"", &vec![IoOutcome::Failed]);
    assert_eq!(done.end.next_step(), WriteStep::Delivered);
    assert_eq!(done.delivered, Vec::<u8>::new());
}

#[test]
fn transmit_loop_delivers_hello_in_one_write() {
    let done = transmit_loop(b"hello", &vec![IoOutcome::Transferred(5)]);
    assert_eq!(done.delivered, b"hello".to_vec());
    assert_eq!(done.end.next_step(), WriteStep::Delivered);
}

#[test]
fn transmit_loop_puts_partial_writes_together() {
    let outcomes = vec![
        IoOutcome::Transferred(2),
        IoOutcome::WouldBlock,
        IoOutcome::Transferred(0),
        IoOutcome::Transferred(1),
        IoOutcome::Transferred(2),
    ];
    let done = transmit_loop(b"hello", &outcomes);
    assert_eq!(done.delivered, b"hello".to_vec());
    assert_eq!(done.end.sent(), 5);
    assert_eq!(done.end.next_step(), WriteStep::Delivered);
}

#[test]
fn transmit_loop_stops_where_the_outcomes_end() {
    let outcomes = vec![IoOutcome::Transferred(2), IoOutcome::Transferred(1)];
    let done = transmit_loop(b"hello", &outcomes);
    assert_eq!(done.delivered, b"hel".to_vec());
    assert_eq!(done.end.next_step(), WriteStep::Write { from: 3, to: 5 });
}

#[test]
fn transmit_loop_stops_at_the_first_failure() {
    let outcomes =
        vec![IoOutcome::Transferred(2), IoOutcome::Failed, IoOutcome::Transferred(3)];
    let done = transmit_loop(b"hello", &outcomes);
    assert!(done.end.is_failed());
    assert_eq!(done.end.sent(), 2);
    assert_eq!(done.delivered, b"he".to_vec());
}

#[test]
fn transmit_loop_ignores_what_follows_delivery() {
    let outcomes =
        vec![IoOutcome::Transferred(5), IoOutcome::Failed, IoOutcome::Transferred(3)];
    let done = transmit_loop(b"hello", &outcomes);
    assert!(!done.end.is_failed());
    assert_eq!(done.end.next_step(), WriteStep::Delivered);
    assert_eq!(done.delivered, b"hello".to_vec());
}

#[test]
fn transmit_loop_agrees_with_stepping_by_hand() {
    let payload: Vec<u8> = (0..160u8).collect();
    let outcomes = vec![
        IoOutcome::Transferred(40),
        IoOutcome::WouldBlock,
        IoOutcome::Transferred(100),
        IoOutcome::Transferred(21),
        IoOutcome::Transferred(20),
    ];
    let mut echo = Echo::start(160);
    let mut taken: Vec<u8> = Vec::new();
    for outcome in &outcomes {
        let sent_before: usize = echo.sent();
        let offered = echo.unsent(&payload);
        echo = echo.after_write(*outcome);
        taken.extend_from_slice(&offered[..echo.sent() - sent_before]);
    }
    let done = transmit_loop(&payload, &outcomes);
    assert_eq!(done.end, echo);
    assert_eq!(done.delivered, taken);
    // The fourth write claimed one byte more than the twenty that were left.
    assert!(echo.is_failed());
    assert_eq!(echo.sent(), 140);
    assert_eq!(done.delivered, payload[..140].to_vec());
}

#[test]
fn one_byte_a_write_needs_as_many_writes_as_bytes() {
    let payload: Vec<u8> = (0..1000u32).map(|i| (i % 256) as u8).collect();
    let outcomes = vec![IoOutcome::Transferred(1); payload.len()];
    let done = transmit_loop(&payload, &outcomes);
    assert_eq!(done.end.next_step(), WriteStep::Delivered);
    assert_eq!(done.delivered, payload);
    let short = vec![IoOutcome::Transferred(1); payload.len() - 1];
    let done = transmit_loop(&payload, &short);
    assert_eq!(done.end.next_step(), WriteStep::Write { from: 999, to: 1000 });
    assert_eq!(done.delivered, payload[..999].to_vec());
}
