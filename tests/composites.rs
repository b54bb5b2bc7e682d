use blocking_io::blocking::{
    Read, ReadAt, ReadExactError, Write, WriteAllError, WriteAt, DEFAULT_BLOCK_SIZE,
};
use blocking_io::stdio::StdIo;
use blocking_io::{Io, Seek, SeekFrom};

#[derive(Debug, PartialEq)]
struct MediumFailed(u32);

/// What a scripted primitive does on one call.
enum Step {
    Give(Vec<u8>),
    Fail(u32),
}

/// A source that answers each call with the next step of its script, and
/// reports the end once the script is used up.
struct Scripted {
    steps: Vec<Step>,
    next: usize,
    offsets: Vec<u64>,
}

impl Scripted {
    fn new(steps: Vec<Step>) -> Self {
        Scripted { steps, next: 0, offsets: Vec::new() }
    }

    fn chunks(sizes: &[usize]) -> (Self, Vec<u8>) {
        let mut all = Vec::new();
        let mut steps = Vec::new();
        let mut byte: u8 = 1;
        for &n in sizes {
            let mut chunk = Vec::new();
            for _ in 0..n {
                chunk.push(byte);
                byte = byte.wrapping_add(7);
            }
            all.extend_from_slice(&chunk);
            steps.push(Step::Give(chunk));
        }
        (Scripted::new(steps), all)
    }

    fn answer(&mut self, buf: &mut [u8]) -> Result<usize, MediumFailed> {
        let step = self.steps.get(self.next);
        self.next += 1;
        match step {
            None => Ok(0),
            Some(Step::Fail(code)) => Err(MediumFailed(*code)),
            Some(Step::Give(chunk)) => {
                assert!(chunk.len() <= buf.len());
                buf[..chunk.len()].copy_from_slice(chunk);
                Ok(chunk.len())
            }
        }
    }
}

impl Io for Scripted {
    type Error = MediumFailed;
}

impl Read for Scripted {
    fn read(&mut self, buf: &mut [u8]) -> Result<usize, MediumFailed> {
        self.answer(buf)
    }
}

impl ReadAt for Scripted {
    fn read_at(&mut self, buf: &mut [u8], offset: u64) -> Result<usize, MediumFailed> {
        self.offsets.push(offset);
        self.answer(buf)
    }
}

/// A sink that accepts, on each call, as many bytes as its script says.
struct Sink {
    accepts: Vec<Result<usize, u32>>,
    calls: usize,
    taken: Vec<u8>,
    offsets: Vec<u64>,
    flushed: bool,
}

impl Sink {
    fn new(accepts: Vec<Result<usize, u32>>) -> Self {
        Sink { accepts, calls: 0, taken: Vec::new(), offsets: Vec::new(), flushed: false }
    }

    fn take(&mut self, buf: &[u8]) -> Result<usize, MediumFailed> {
        let step = self.accepts.get(self.calls).cloned().unwrap_or(Ok(0));
        self.calls += 1;
        match step {
            Ok(n) => {
                let n = n.min(buf.len());
                self.taken.extend_from_slice(&buf[..n]);
                Ok(n)
            }
            Err(code) => Err(MediumFailed(code)),
        }
    }
}

impl Io for Sink {
    type Error = MediumFailed;
}

impl Write for Sink {
    fn write(&mut self, buf: &[u8]) -> Result<usize, MediumFailed> {
        self.take(buf)
    }

    fn flush(&mut self) -> Result<(), MediumFailed> {
        self.flushed = true;
        Ok(())
    }
}

impl WriteAt for Sink {
    fn write_at(&mut self, buf: &[u8], offset: u64) -> Result<usize, MediumFailed> {
        self.offsets.push(offset);
        self.take(buf)
    }

    fn flush(&mut self) -> Result<(), MediumFailed> {
        self.flushed = true;
        Ok(())
    }
}

/// A cursor over a medium of fixed length.
struct Cursor {
    pos: u64,
    len: u64,
    seeks: usize,
}

impl Io for Cursor {
    type Error = MediumFailed;
}

impl Seek for Cursor {
    fn seek(&mut self, pos: SeekFrom) -> Result<u64, MediumFailed> {
        self.seeks += 1;
        let target = match pos {
            SeekFrom::Start(n) => n as i128,
            SeekFrom::End(d) => self.len as i128 + d as i128,
            SeekFrom::Current(d) => self.pos as i128 + d as i128,
        };
        if target < 0 {
            return Err(MediumFailed(22));
        }
        self.pos = target as u64;
        Ok(self.pos)
    }
}

/// A cursor whose every seek fails.
struct Broken;

impl Io for Broken {
    type Error = MediumFailed;
}

impl Seek for Broken {
    fn seek(&mut self, _pos: SeekFrom) -> Result<u64, MediumFailed> {
        Err(MediumFailed(3))
    }
}

fn data(n: usize) -> Vec<u8> {
    (0..n).map(|i| (i * 31 % 251) as u8).collect()
}

#[test]
fn fill_exactly_from_three_short_reads() {
    let (mut src, all) = Scripted::chunks(&[3, 3, 4]);
    let mut buf = [0u8; 10];
    assert!(src.read_exact(&mut buf).is_ok());
    assert_eq!(buf.to_vec(), all);
    assert_eq!(src.next, 3);
}

#[test]
fn fill_exactly_fails_when_source_ends_early() {
    let (mut src, all) = Scripted::chunks(&[5]);
    let mut buf = [0u8; 10];
    let r = src.read_exact(&mut buf);
    assert!(matches!(r, Err(ReadExactError::UnexpectedEof)));
    assert_eq!(&buf[..5], &all[..]);
    assert_eq!(src.next, 2);
}

#[test]
fn fill_exactly_passes_medium_error_on() {
    let mut src = Scripted::new(vec![Step::Give(vec![9, 9]), Step::Fail(5), Step::Give(vec![1])]);
    let mut buf = [0u8; 4];
    let r = src.read_exact(&mut buf);
    assert!(matches!(r, Err(ReadExactError::Other(MediumFailed(5)))));
    assert_eq!(&buf[..2], &[9, 9]);
    assert_eq!(src.next, 2);
}

#[test]
fn fill_exactly_of_empty_buffer_makes_no_call() {
    let mut src = Scripted::new(vec![Step::Fail(1)]);
    let mut buf: [u8; 0] = [];
    assert!(src.read_exact(&mut buf).is_ok());
    assert_eq!(src.next, 0);
}

#[test]
fn write_exactly_in_two_parts() {
    let payload = data(100);
    let mut sink = Sink::new(vec![Ok(40), Ok(60)]);
    assert!(sink.write_all(&payload).is_ok());
    assert_eq!(sink.calls, 2);
    assert_eq!(sink.taken, payload);
}

#[test]
fn write_exactly_fails_on_zero_progress() {
    let payload = data(100);
    let mut sink = Sink::new(vec![Ok(0), Ok(100)]);
    let r = sink.write_all(&payload);
    assert!(matches!(r, Err(WriteAllError::WriteZero)));
    assert_eq!(sink.calls, 1);
}

#[test]
fn write_exactly_stops_on_zero_after_progress() {
    let payload = data(10);
    let mut sink = Sink::new(vec![Ok(4), Ok(0), Ok(6)]);
    let r = sink.write_all(&payload);
    assert!(matches!(r, Err(WriteAllError::WriteZero)));
    assert_eq!(sink.calls, 2);
    assert_eq!(sink.taken, payload[..4].to_vec());
}

#[test]
fn write_exactly_passes_medium_error_on() {
    let payload = data(10);
    let mut sink = Sink::new(vec![Ok(3), Err(7)]);
    let r = sink.write_all(&payload);
    assert!(matches!(r, Err(WriteAllError::Other(MediumFailed(7)))));
    assert_eq!(sink.calls, 2);
}

#[test]
fn write_exactly_of_empty_buffer_makes_no_call() {
    let mut sink = Sink::new(vec![Err(1)]);
    assert!(sink.write_all(&[]).is_ok());
    assert_eq!(sink.calls, 0);
}

#[test]
fn write_exactly_one_byte_at_a_time() {
    let payload = data(5);
    let mut sink = Sink::new(vec![Ok(1); 5]);
    assert!(sink.write_all(&payload).is_ok());
    assert_eq!(sink.calls, 5);
    assert_eq!(sink.taken, payload);
}

#[test]
fn drain_to_end_over_full_blocks() {
    let (mut src, all) = Scripted::chunks(&[4096, 4096, 808]);
    let mut out = Vec::new();
    let r = src.read_to_end(&mut out);
    assert_eq!(r, Ok(9000));
    assert_eq!(out.len(), 9000);
    assert_eq!(out, all);
    assert_eq!(DEFAULT_BLOCK_SIZE, 4096);
}

#[test]
fn drain_to_end_appends_after_existing_bytes() {
    let (mut src, all) = Scripted::chunks(&[2, 1]);
    let mut out = vec![7u8, 7];
    assert_eq!(src.read_to_end(&mut out), Ok(3));
    let mut expected = vec![7u8, 7];
    expected.extend_from_slice(&all);
    assert_eq!(out, expected);
}

#[test]
fn drain_to_end_of_empty_source() {
    let mut src = Scripted::new(Vec::new());
    let mut out = Vec::new();
    assert_eq!(src.read_to_end(&mut out), Ok(0));
    assert!(out.is_empty());
    assert_eq!(src.next, 1);
}

#[test]
fn drain_to_end_keeps_partial_data_on_error() {
    let mut src = Scripted::new(vec![Step::Give(vec![1, 2, 3]), Step::Fail(9)]);
    let mut out = Vec::new();
    assert_eq!(src.read_to_end(&mut out), Err(MediumFailed(9)));
    assert_eq!(out, vec![1, 2, 3]);
}

#[test]
fn rewind_then_position_is_zero() {
    let mut c = Cursor { pos: 42, len: 100, seeks: 0 };
    assert_eq!(c.rewind(), Ok(()));
    assert_eq!(c.stream_position(), Ok(0));
    assert_eq!(c.seek(SeekFrom::Current(5)), Ok(5));
    assert_eq!(c.seeks, 3);
}

#[test]
fn stream_position_does_not_move() {
    let mut c = Cursor { pos: 17, len: 100, seeks: 0 };
    assert_eq!(c.stream_position(), Ok(17));
    assert_eq!(c.stream_position(), Ok(17));
    assert_eq!(c.seek(SeekFrom::End(-10)), Ok(90));
}

#[test]
fn rewind_passes_seek_error_on() {
    assert_eq!(Broken.rewind(), Err(MediumFailed(3)));
    assert_eq!(Broken.stream_position(), Err(MediumFailed(3)));
}

#[test]
fn positional_fill_advances_offset_by_bytes_read() {
    let (mut src, all) = Scripted::chunks(&[3, 3, 4]);
    let mut buf = [0u8; 10];
    assert!(src.read_exact_at(&mut buf, 100).is_ok());
    assert_eq!(buf.to_vec(), all);
    assert_eq!(src.offsets, vec![100, 103, 106]);
}

#[test]
fn positional_fill_matches_sequential() {
    let (mut a, _) = Scripted::chunks(&[5]);
    let (mut b, _) = Scripted::chunks(&[5]);
    let mut x = [0u8; 10];
    let mut y = [0u8; 10];
    let ra = a.read_exact(&mut x);
    let rb = b.read_exact_at(&mut y, 0);
    assert!(matches!(ra, Err(ReadExactError::UnexpectedEof)));
    assert!(matches!(rb, Err(ReadExactError::UnexpectedEof)));
    assert_eq!(x[..5], y[..5]);
    assert_eq!(b.offsets, vec![0, 5]);
}

#[test]
fn positional_drain_advances_offset() {
    let (mut src, all) = Scripted::chunks(&[4096, 10]);
    let mut out = Vec::new();
    assert_eq!(src.read_to_end_at(&mut out, 7), Ok(4106));
    assert_eq!(out, all);
    assert_eq!(src.offsets, vec![7, 4103, 4113]);
}

#[test]
fn positional_write_advances_offset() {
    let payload = data(100);
    let mut sink = Sink::new(vec![Ok(40), Ok(60)]);
    assert!(sink.write_all_at(&payload, 1000).is_ok());
    assert_eq!(sink.offsets, vec![1000, 1040]);
    assert_eq!(sink.taken, payload);
}

#[test]
fn positional_write_fails_on_zero_progress() {
    let payload = data(100);
    let mut sink = Sink::new(vec![Ok(0)]);
    let r = sink.write_all_at(&payload, 5);
    assert!(matches!(r, Err(WriteAllError::WriteZero)));
    assert_eq!(sink.calls, 1);
    let mut other = Sink::new(vec![Err(4)]);
    assert!(matches!(other.write_all_at(&payload, 5), Err(WriteAllError::Other(MediumFailed(4)))));
}

#[test]
fn flush_is_left_to_the_medium() {
    let mut sink = Sink::new(Vec::new());
    assert_eq!(Write::flush(&mut sink), Ok(()));
    assert!(sink.flushed);
}

#[test]
fn std_io_holds_its_medium() {
    let mut io = StdIo::new(vec![1u8, 2, 3]);
    assert_eq!(io.inner(), &vec![1u8, 2, 3]);
    io.inner_mut().push(4);
    assert_eq!(io.inner().len(), 4);
    assert_eq!(io.to_inner(), vec![1u8, 2, 3, 4]);
}
