use clipmunge::selection::{HTML_MIME, RICH_MIMES, TEXT_MIMES};
use clipmunge::transfer::{
    worth_reading, ChunkStep, Flavour, FlavourRead, OfferRead, ReadStep, SendError, SendStep,
    Sending, Written, READ_BUDGET, READ_LIMIT, READ_TIMEOUT, WRITE_TIMEOUT,
};
use rustix::event::{poll, PollFd, PollFlags, Timespec};
use rustix::fs::{fcntl_getfl, fcntl_setfl, OFlags};
use rustix::io::Errno;
use rustix::pipe::{pipe_with, PipeFlags};

fn owned(list: &[&str]) -> Vec<String> {
    list.iter().map(|s| s.to_string()).collect()
}

#[test]
fn text_and_rich_types_are_worth_reading() {
    for mime in TEXT_MIMES.iter().chain(RICH_MIMES.iter()) {
        assert!(worth_reading(mime), "{mime}");
    }
    assert!(!worth_reading("image/png"));
    assert!(!worth_reading("TEXT/PLAIN"));
}

#[test]
fn flavours_are_read_in_announced_order_and_others_skipped() {
    let mut read = OfferRead::new(
        &owned(&["image/png", "TEXT", "COMPOUND_TEXT", HTML_MIME, "text/rtf"]),
        1000,
    );
    assert_eq!(read.deadline(), 1000 + READ_BUDGET);
    assert_eq!(read.step(1000), ReadStep::Read);
    assert_eq!(read.mime(), Some("TEXT"));
    assert_eq!(read.step(1000), ReadStep::Read);
    assert_eq!(read.mime(), Some("TEXT"));
    read.got(Flavour::Data(b"t".to_vec()));
    // Nothing is being read until the next step.
    read.got(Flavour::Data(b"stray".to_vec()));
    assert_eq!(read.step(1000), ReadStep::Read);
    assert_eq!(read.mime(), Some(HTML_MIME));
    read.got(Flavour::TooBig);
    assert_eq!(read.step(1000), ReadStep::Read);
    assert_eq!(read.mime(), Some("text/rtf"));
    read.got(Flavour::Failed);
    assert_eq!(read.step(1000), ReadStep::Done);
    assert_eq!(read.mime(), None);
    let sel = read.finish();
    assert_eq!(sel.mimes(), vec!["TEXT"]);
    assert_eq!(sel.get("TEXT"), Some(&b"t"[..]));
}

#[test]
fn no_read_is_started_once_the_budget_is_spent() {
    let mut read = OfferRead::new(&owned(&["TEXT", "STRING"]), 0);
    assert_eq!(read.step(READ_BUDGET - 1), ReadStep::Read);
    read.got(Flavour::Data(b"t".to_vec()));
    assert_eq!(read.step(READ_BUDGET), ReadStep::OutOfTime);
    assert_eq!(read.mime(), Some("STRING"));
    read.got(Flavour::Data(b"late".to_vec()));
    assert_eq!(read.finish().mimes(), vec!["TEXT"]);
}

#[test]
fn a_flavour_has_its_timeout_within_the_budget() {
    let alone = FlavourRead::new(10, 10 + READ_BUDGET);
    assert_eq!(alone.time_left(10), Some(READ_TIMEOUT));
    assert_eq!(alone.time_left(10 + READ_TIMEOUT - 1), Some(1));
    assert_eq!(alone.time_left(10 + READ_TIMEOUT), None);
    assert_eq!(alone.time_left(u64::MAX), None);
    let late = FlavourRead::new(READ_BUDGET - 5, READ_BUDGET);
    assert_eq!(late.time_left(READ_BUDGET - 5), Some(5));
    let over = FlavourRead::new(READ_BUDGET + 5, READ_BUDGET);
    assert_eq!(over.time_left(READ_BUDGET + 5), None);
}

#[test]
fn chunks_add_up_to_the_flavour() {
    let read = FlavourRead::new(0, 1);
    let (read, step) = read.chunk(b"one ");
    assert!(matches!(step, ChunkStep::More));
    let (read, step) = read.chunk(b"two");
    assert!(matches!(step, ChunkStep::More));
    let (_, step) = read.chunk(b"");
    let ChunkStep::Complete(data) = step else {
        panic!("the source was done");
    };
    assert_eq!(data, b"one two");
}

#[test]
fn a_flavour_over_the_limit_is_not_kept() {
    let full = vec![b'x'; READ_LIMIT];
    let (read, step) = FlavourRead::new(0, 1).chunk(&full);
    assert!(matches!(step, ChunkStep::More));
    let (_, step) = read.chunk(b"");
    assert!(matches!(step, ChunkStep::Complete(data) if data.len() == 262_144));
    let (read, _) = FlavourRead::new(0, 1).chunk(&full);
    let (_, step) = read.chunk(b"y");
    assert!(matches!(step, ChunkStep::TooBig));
    let (_, step) = FlavourRead::new(0, 1).chunk(&vec![0; READ_LIMIT + 1]);
    assert!(matches!(step, ChunkStep::TooBig));
}

#[test]
fn a_payload_is_sent_piece_by_piece() {
    let mut sending = Sending::new(b"hello".to_vec(), 7);
    assert_eq!(sending.start(), SendStep::Write);
    assert_eq!(sending.rest(), b"hello");
    assert_eq!(sending.wrote(Written::Bytes(2), 7), Ok(SendStep::Write));
    assert_eq!(sending.rest(), b"llo");
    assert_eq!(sending.wrote(Written::Interrupted, 7), Ok(SendStep::Write));
    assert_eq!(
        sending.wrote(Written::WouldBlock, 8),
        Ok(SendStep::Wait(WRITE_TIMEOUT - 1))
    );
    assert_eq!(sending.waited(true), Ok(SendStep::Write));
    assert_eq!(sending.wrote(Written::Bytes(3), u64::MAX), Ok(SendStep::Done));
    assert_eq!(sending.rest(), b"");
    assert_eq!(Sending::new(Vec::new(), 0).start(), SendStep::Done);
}

#[test]
fn a_stuck_reader_is_given_up() {
    let mut sending = Sending::until_deadline(b"hello".to_vec(), 100);
    assert_eq!(sending.wrote(Written::Bytes(2), 0), Ok(SendStep::Write));
    let gave_up = SendError::GaveUp { sent: 2, of: 5 };
    assert_eq!(sending.wrote(Written::WouldBlock, 100), Err(gave_up));
    assert_eq!(sending.waited(false), Err(gave_up));
    assert_eq!(gave_up.message(), "gave up after 2 of 5 bytes");
    assert_eq!(sending.wrote(Written::Bytes(0), 0), Err(SendError::Stopped));
    assert_eq!(
        SendError::Stopped.message(),
        "the reader stopped accepting bytes"
    );
}

/// A full pipe with its reader still open must time out.
#[test]
fn a_reader_that_never_reads_does_not_wedge_the_writer() {
    let (read_fd, write_fd) = pipe_with(PipeFlags::CLOEXEC).unwrap();
    let data = vec![b'A'; READ_LIMIT];

    let started = std::time::Instant::now();
    let now = || started.elapsed().as_nanos() as u64;
    fcntl_setfl(&write_fd, fcntl_getfl(&write_fd).unwrap() | OFlags::NONBLOCK).unwrap();
    let mut sending = Sending::until_deadline(data, 150_000_000);
    let mut step = Ok(sending.start());
    let err = loop {
        step = match step {
            Ok(SendStep::Write) => {
                let written = match rustix::io::write(&write_fd, sending.rest()) {
                    Ok(n) => Written::Bytes(n),
                    Err(Errno::INTR) => Written::Interrupted,
                    Err(Errno::AGAIN) => Written::WouldBlock,
                    Err(e) => panic!("{e}"),
                };
                sending.wrote(written, now())
            }
            Ok(SendStep::Wait(left)) => {
                let ts = Timespec {
                    tv_sec: (left / 1_000_000_000) as _,
                    tv_nsec: (left % 1_000_000_000) as _,
                };
                let mut fds = [PollFd::new(&write_fd, PollFlags::OUT)];
                let ready = poll(&mut fds, Some(&ts)).unwrap() != 0;
                sending.waited(ready)
            }
            Ok(SendStep::Done) => panic!("a full pipe with no reader must not succeed"),
            Err(e) => break e,
        };
    };

    assert!(
        started.elapsed() < std::time::Duration::from_secs(1),
        "gave up after {:?}, which means it blocked",
        started.elapsed()
    );
    assert!(
        err.message().contains("gave up after"),
        "unexpected error: {}",
        err.message()
    );
    // The reader end is held open until here on purpose: dropping it early
    // would turn the test into an EPIPE test instead of a full-pipe one.
    drop(read_fd);
}

/// The reader takes what there is whenever the pipe is full.
#[test]
fn a_reader_that_reads_gets_all_of_it() {
    let (read_fd, write_fd) = pipe_with(PipeFlags::CLOEXEC).unwrap();
    let data = vec![b'B'; READ_LIMIT];

    fcntl_setfl(&write_fd, fcntl_getfl(&write_fd).unwrap() | OFlags::NONBLOCK).unwrap();
    let mut sending = Sending::until_deadline(data.clone(), 5_000_000_000);
    let mut got = Vec::new();
    let mut buf = [0u8; 8192];
    let mut step = sending.start();
    while step != SendStep::Done {
        step = match step {
            SendStep::Write => {
                let written = match rustix::io::write(&write_fd, sending.rest()) {
                    Ok(n) => Written::Bytes(n),
                    Err(Errno::INTR) => Written::Interrupted,
                    Err(Errno::AGAIN) => Written::WouldBlock,
                    Err(e) => panic!("{e}"),
                };
                sending.wrote(written, 0).unwrap()
            }
            SendStep::Wait(_) => {
                let n = rustix::io::read(&read_fd, &mut buf).unwrap();
                got.extend_from_slice(&buf[..n]);
                sending.waited(true).unwrap()
            }
            SendStep::Done => SendStep::Done,
        };
    }
    drop(write_fd);
    loop {
        let n = rustix::io::read(&read_fd, &mut buf).unwrap();
        if n == 0 {
            break;
        }
        got.extend_from_slice(&buf[..n]);
    }
    assert_eq!(got.len(), data.len());
    assert!(got.iter().all(|b| *b == b'B'));
}
