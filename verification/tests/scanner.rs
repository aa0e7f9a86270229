use multipart::error::DecodeError;
use multipart::pattern::matches_here;
use multipart::scanner::BoundaryReader;
use multipart::source::ByteSource;
use multipart::source::SliceSource;
use multipart::source::SourceFailure;

fn text(bytes: &[u8]) -> String {
    String::from_utf8(bytes.to_vec()).unwrap()
}

fn drain(reader: &mut BoundaryReader<SliceSource>, max: usize) -> Vec<u8> {
    let mut out = Vec::new();
    loop {
        match reader.read(max) {
            Ok(chunk) => {
                assert!(!chunk.is_empty());
                assert!(chunk.len() <= max);
                out.extend_from_slice(&chunk);
            }
            Err(DecodeError::EndOfData) => return out,
            Err(e) => panic!("unexpected error: {:?}", e),
        }
    }
}

#[test]
fn test_boundary() {
    const BOUNDARY: &str = "--boundary\r\n";
    const TEST_VAL: &str = "\r
--boundary\r
dashed-value-1\r
--boundary\r
dashed-value-2\r
--boundary\r
";

    let test_reader = SliceSource::new(TEST_VAL.as_bytes().to_vec(), 4096);
    let mut reader = BoundaryReader::from_reader(test_reader, BOUNDARY.as_bytes().to_vec());

    let string = text(&reader.read_segment().unwrap());
    assert!(string.trim().is_empty());

    reader.consume_boundary().unwrap();

    assert_eq!(text(&reader.read_segment().unwrap()).trim(), "dashed-value-1");

    reader.consume_boundary().unwrap();

    assert_eq!(text(&reader.read_segment().unwrap()).trim(), "dashed-value-2");

    reader.consume_boundary().unwrap();
}

#[test]
fn slice_source_delivers_in_steps() {
    let mut s = SliceSource::new(b"abcdefg".to_vec(), 3);
    assert_eq!(s.pull(10).unwrap(), b"abc".to_vec());
    assert_eq!(s.position(), 3);
    assert_eq!(s.pull(2).unwrap(), b"de".to_vec());
    assert_eq!(s.pull(0).unwrap(), Vec::<u8>::new());
    assert_eq!(s.pull(10).unwrap(), b"fg".to_vec());
    assert_eq!(s.pull(10).unwrap(), Vec::<u8>::new());
    assert_eq!(s.position(), 7);
}

#[test]
fn slice_source_step_zero_counts_as_one() {
    let mut s = SliceSource::new(b"xy".to_vec(), 0);
    assert_eq!(s.pull(10).unwrap(), b"x".to_vec());
    assert_eq!(s.pull(10).unwrap(), b"y".to_vec());
}

#[test]
fn matches_here_compares_whole_pattern() {
    let buf = b"ab--x--xy".to_vec();
    let pat = b"--xy".to_vec();
    assert!(!matches_here(&buf, &pat, 2));
    assert!(matches_here(&buf, &pat, 5));
    assert!(!matches_here(&buf, &pat, 6));
    assert!(!matches_here(&buf, &pat, 100));
    assert!(matches_here(&buf, &Vec::new(), 9));
}

#[test]
fn boundary_split_across_fills_is_found_once() {
    let body = b"first part--B--second--B-not--B--".to_vec();
    for step in 1..8usize {
        for capacity in 5..12usize {
            for max in 1..6usize {
                let src = SliceSource::new(body.clone(), step);
                let mut r = BoundaryReader::with_buffer(src, b"--B--".to_vec(), capacity, Vec::new());
                assert_eq!(drain(&mut r, max), b"first part".to_vec());
                r.consume_boundary().unwrap();
                assert_eq!(drain(&mut r, max), b"second--B-not".to_vec());
                r.consume_boundary().unwrap();
                assert_eq!(drain(&mut r, max), Vec::<u8>::new());
                assert!(matches!(r.consume_boundary(), Err(DecodeError::EndOfData)));
            }
        }
    }
}

#[test]
fn boundary_straddling_a_full_buffer_is_found() {
    let mut body = vec![b'a'; 65530];
    body.extend_from_slice(b"--boundary\r\ntail");
    let src = SliceSource::new(body, 1000);
    let mut r = BoundaryReader::from_reader(src, b"--boundary\r\n".to_vec());
    let seg = r.read_segment().unwrap();
    assert_eq!(seg.len(), 65530);
    assert!(seg.iter().all(|b| *b == b'a'));
    r.consume_boundary().unwrap();
    assert_eq!(r.read_segment().unwrap(), b"tail".to_vec());
}

#[test]
fn read_then_consume_partitions_the_stream() {
    let segments: Vec<&[u8]> = vec![b"", b"alpha", b"-", b"be-ta\r\n", b"", b"--gamma"];
    let boundary = b"--#\r\n".to_vec();
    let mut body = Vec::new();
    for seg in &segments {
        body.extend_from_slice(seg);
        body.extend_from_slice(&boundary);
    }
    for step in [1usize, 2, 5, 64] {
        for capacity in [5usize, 6, 9, 64] {
            let src = SliceSource::new(body.clone(), step);
            let mut r = BoundaryReader::with_buffer(src, boundary.clone(), capacity, Vec::new());
            for seg in &segments {
                assert_eq!(drain(&mut r, 3), seg.to_vec());
                r.consume_boundary().unwrap();
            }
            assert!(matches!(r.read(3), Err(DecodeError::EndOfData)));
            assert!(matches!(r.consume_boundary(), Err(DecodeError::EndOfData)));
            assert_eq!(r.borrow_reader().position(), body.len());
        }
    }
}

#[test]
fn consume_boundary_drops_unread_bytes() {
    let src = SliceSource::new(b"unread--Xnext--X".to_vec(), 2);
    let mut r = BoundaryReader::with_buffer(src, b"--X".to_vec(), 4, Vec::new());
    r.consume_boundary().unwrap();
    assert_eq!(r.read_segment().unwrap(), b"next".to_vec());
}

#[test]
fn consume_boundary_without_boundary_is_end_of_data() {
    let src = SliceSource::new(b"no delimiter here --".to_vec(), 3);
    let mut r = BoundaryReader::with_buffer(src, b"--X".to_vec(), 8, Vec::new());
    assert!(matches!(r.consume_boundary(), Err(DecodeError::EndOfData)));
    assert!(matches!(r.read(4), Err(DecodeError::EndOfData)));
}

#[test]
fn read_stops_before_boundary_and_reports_end() {
    let src = SliceSource::new(b"ab--Xcd".to_vec(), 10);
    let mut r = BoundaryReader::from_reader(src, b"--X".to_vec());
    assert_eq!(r.read(1).unwrap(), b"a".to_vec());
    assert_eq!(r.read(10).unwrap(), b"b".to_vec());
    assert!(matches!(r.read(10), Err(DecodeError::EndOfData)));
    assert!(matches!(r.read_to_boundary(), Err(DecodeError::EndOfData)));
    r.consume_boundary().unwrap();
    assert!(r.read_to_boundary().is_ok());
    assert_eq!(r.read(10).unwrap(), b"cd".to_vec());
    assert!(matches!(r.read(10), Err(DecodeError::EndOfData)));
}

#[test]
fn read_with_zero_room_returns_nothing() {
    let src = SliceSource::new(b"ab--X".to_vec(), 10);
    let mut r = BoundaryReader::from_reader(src, b"--X".to_vec());
    assert_eq!(r.read(0).unwrap(), Vec::<u8>::new());
    assert_eq!(r.read(5).unwrap(), b"ab".to_vec());
}

#[test]
fn seeded_buffer_is_read_first() {
    let src = SliceSource::new(b"-Xrest".to_vec(), 1);
    let mut r = BoundaryReader::with_buffer(src, b"--X".to_vec(), 4, b"ab-".to_vec());
    assert_eq!(r.read_segment().unwrap(), b"ab".to_vec());
    r.consume_boundary().unwrap();
    assert_eq!(r.read_segment().unwrap(), b"rest".to_vec());
}

#[test]
fn true_fill_buf_keeps_all_bytes() {
    let src = SliceSource::new(b"abcdefghij".to_vec(), 3);
    let mut r = BoundaryReader::with_buffer(src, b"--X".to_vec(), 6, Vec::new());
    r.true_fill_buf().unwrap();
    assert_eq!(r.borrow_reader().position(), 6);
    assert_eq!(r.read_segment().unwrap(), b"abcdefghij".to_vec());
}

#[test]
fn set_boundary_changes_what_is_searched() {
    let src = SliceSource::new(b"one--Xtwo==Ythree".to_vec(), 4);
    let mut r = BoundaryReader::with_buffer(src, b"--X".to_vec(), 8, Vec::new());
    assert_eq!(r.read_segment().unwrap(), b"one".to_vec());
    r.set_boundary(b"==Y".to_vec());
    assert_eq!(r.read_segment().unwrap(), b"--Xtwo".to_vec());
    r.consume_boundary().unwrap();
    assert_eq!(r.read_segment().unwrap(), b"three".to_vec());
}

#[test]
fn read_line_ends_at_line_feed_or_boundary() {
    let src = SliceSource::new(b"l1\r\n\r\nlast--Xa\nb".to_vec(), 2);
    let mut r = BoundaryReader::with_buffer(src, b"--X".to_vec(), 5, Vec::new());
    assert_eq!(r.read_line().unwrap(), b"l1\r\n".to_vec());
    assert_eq!(r.read_line().unwrap(), b"\r\n".to_vec());
    assert_eq!(r.read_line().unwrap(), b"last".to_vec());
    assert!(matches!(r.read_line(), Err(DecodeError::EndOfData)));
    r.consume_boundary().unwrap();
    assert_eq!(r.read_line().unwrap(), b"a\n".to_vec());
    assert_eq!(r.read_line().unwrap(), b"b".to_vec());
    assert!(matches!(r.read_line(), Err(DecodeError::EndOfData)));
}

#[test]
fn fill_buf_shows_and_consume_drops() {
    let src = SliceSource::new(b"abc--Xde".to_vec(), 10);
    let mut r = BoundaryReader::from_reader(src, b"--X".to_vec());
    assert_eq!(r.fill_buf().unwrap().to_vec(), b"abc".to_vec());
    r.consume(2);
    assert_eq!(r.fill_buf().unwrap().to_vec(), b"c".to_vec());
    r.consume(0);
    r.consume(1);
    assert!(matches!(r.fill_buf(), Err(DecodeError::EndOfData)));
    r.consume_boundary().unwrap();
    assert_eq!(r.fill_buf().unwrap().to_vec(), b"de".to_vec());
}

struct Failing {
    first: Vec<u8>,
    kind: u32,
}

impl ByteSource for Failing {
    fn pull(&mut self, max: usize) -> Result<Vec<u8>, SourceFailure> {
        if self.first.is_empty() {
            return Err(SourceFailure { kind: self.kind });
        }
        let n = max.min(self.first.len());
        Ok(self.first.drain(..n).collect())
    }
}

#[test]
fn source_failure_comes_through_with_its_kind() {
    let src = Failing { first: b"abc".to_vec(), kind: 7 };
    let mut r = BoundaryReader::with_buffer(src, b"--X".to_vec(), 16, Vec::new());
    match r.read(2) {
        Err(DecodeError::Source(f)) => assert_eq!(f, SourceFailure { kind: 7 }),
        other => panic!("unexpected result: {:?}", other),
    }
    assert!(matches!(r.consume_boundary(), Err(DecodeError::Source(SourceFailure { kind: 7 }))));
    assert!(matches!(r.read_line(), Err(DecodeError::Source(_))));
    assert!(matches!(r.read_segment(), Err(DecodeError::Source(_))));
    assert!(matches!(r.true_fill_buf(), Err(DecodeError::Source(_))));
}

#[test]
fn absorb_takes_in_what_the_source_returned() {
    let src = SliceSource::new(Vec::new(), 4);
    let mut r = BoundaryReader::with_buffer(src, b"--X".to_vec(), 16, b"ab".to_vec());
    assert!(r.absorb(Ok(b"c--Xd".to_vec())).is_ok());
    match r.absorb(Err(SourceFailure { kind: 5 })) {
        Err(DecodeError::Source(f)) => assert_eq!(f, SourceFailure { kind: 5 }),
        other => panic!("unexpected result: {:?}", other),
    }
    assert!(r.absorb(Ok(Vec::new())).is_ok());
    assert_eq!(r.read_segment().unwrap(), b"abc".to_vec());
    r.consume_boundary().unwrap();
    assert_eq!(r.read_segment().unwrap(), b"d".to_vec());
    assert!(matches!(r.consume_boundary(), Err(DecodeError::EndOfData)));
}

#[test]
fn located_boundary_needs_no_source() {
    let src = Failing { first: b"ab--Xcd".to_vec(), kind: 9 };
    let mut r = BoundaryReader::with_buffer(src, b"--X".to_vec(), 7, Vec::new());
    assert_eq!(r.read(1).unwrap(), b"a".to_vec());
    assert_eq!(r.fill_buf().unwrap().to_vec(), b"b".to_vec());
    assert!(r.read_to_boundary().is_ok());
    assert_eq!(r.read_line().unwrap(), b"b".to_vec());
    assert!(matches!(r.read(4), Err(DecodeError::EndOfData)));
    assert!(r.consume_boundary().is_ok());
    assert!(matches!(r.read(4), Err(DecodeError::Source(SourceFailure { kind: 9 }))));
}

#[test]
fn failed_consume_keeps_what_stands_from_the_boundary_on() {
    let src = Failing { first: b"abcdef--".to_vec(), kind: 3 };
    let mut r = BoundaryReader::with_buffer(src, b"--X".to_vec(), 4, Vec::new());
    assert!(matches!(r.consume_boundary(), Err(DecodeError::Source(SourceFailure { kind: 3 }))));
    assert!(r.absorb(Ok(b"X!".to_vec())).is_ok());
    assert!(r.absorb(Ok(Vec::new())).is_ok());
    r.consume_boundary().unwrap();
    assert_eq!(r.read_segment().unwrap(), b"!".to_vec());
}

#[test]
fn pull_next_and_absorb_fill_the_buffer_step_by_step() {
    let src = SliceSource::new(b"ab--Xcd".to_vec(), 3);
    let mut r = BoundaryReader::with_buffer(src, b"--X".to_vec(), 16, Vec::new());
    let pulled = r.pull_next();
    assert_eq!(pulled, Ok(b"ab-".to_vec()));
    assert!(r.absorb(pulled).is_ok());
    let pulled = r.pull_next();
    assert_eq!(pulled, Ok(b"-Xc".to_vec()));
    assert!(r.absorb(pulled).is_ok());
    assert_eq!(r.borrow_reader().position(), 6);
    assert_eq!(r.read_segment().unwrap(), b"ab".to_vec());
    r.consume_boundary().unwrap();
    assert_eq!(r.read_segment().unwrap(), b"cd".to_vec());
}
