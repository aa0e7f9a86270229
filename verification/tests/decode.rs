use multipart::content_type::accepts_essence;
use multipart::content_type::get_boundary;
use multipart::content_type::is_multipart_formdata;
use multipart::entries::get;
use multipart::entries::position;
use multipart::entries::put;
use multipart::entries::Collect;
use multipart::entries::Entries;
use multipart::source::ByteSource;
use multipart::source::SourceFailure;
use multipart::error::eof;
use multipart::error::line_error;
use multipart::header::with;
use multipart::error::DecodeError;
use multipart::error::HeaderFault;
use multipart::pattern::find_bytes;
use multipart::header::closing_quote;
use multipart::header::parse_content_disposition;
use multipart::header::parse_content_type;
use multipart::header::trim_range;
use multipart::header::find_param_bytes;
use multipart::header::param_starts;
use multipart::multipart::make_delimiter;
use multipart::multipart::strip_line_break;
use multipart::multipart::same_bytes;
use multipart::multipart::Multipart;
use multipart::multipart::MultipartField;
use multipart::source::SliceSource;

const BODY: &str = "--boundary\r\nContent-Disposition: form-data; name=\"title\"\r\n\r\nhello\r\n--boundary\r\nContent-Disposition: form-data; name=\"upload\"; filename=\"a.txt\"\r\nContent-Type: text/plain\r\n\r\ncontents\r\n--boundary--\r\n";

fn decoder(body: &[u8], step: usize, capacity: usize) -> Multipart<SliceSource> {
    Multipart::with_capacity(SliceSource::new(body.to_vec(), step), &b"boundary".to_vec(), capacity)
}

fn file_body(m: &mut Multipart<SliceSource>, max: usize) -> Vec<u8> {
    let mut out = Vec::new();
    loop {
        match m.read_file(max) {
            Ok(chunk) => out.extend_from_slice(&chunk),
            Err(DecodeError::EndOfData) => return out,
            Err(e) => panic!("unexpected error: {:?}", e),
        }
    }
}

fn expect_text(entry: (Vec<u8>, MultipartField), name: &[u8], value: &[u8]) {
    assert_eq!(entry.0, name.to_vec());
    match entry.1 {
        MultipartField::Text(t) => assert_eq!(t, value.to_vec()),
        MultipartField::File(_) => panic!("expected a text part"),
    }
}

fn expect_file(entry: (Vec<u8>, MultipartField), name: &[u8], filename: Option<&[u8]>, ctype: &[u8]) {
    assert_eq!(entry.0, name.to_vec());
    match entry.1 {
        MultipartField::File(f) => {
            assert_eq!(f.filename, filename.map(|n| n.to_vec()));
            assert_eq!(f.content_type, ctype.to_vec());
        }
        MultipartField::Text(_) => panic!("expected a file part"),
    }
}

#[test]
fn end_to_end_text_then_file_then_end() {
    for step in [1usize, 2, 3, 7, 4096] {
        for capacity in [12usize, 13, 20, 64, 65536] {
            let mut m = decoder(BODY.as_bytes(), step, capacity);
            expect_text(m.read_entry().unwrap(), b"title", b"hello");
            expect_file(m.read_entry().unwrap(), b"upload", Some(b"a.txt"), b"text/plain");
            assert_eq!(file_body(&mut m, 5), b"contents\r\n--boundary--\r\n".to_vec());
            assert!(matches!(m.read_entry(), Err(DecodeError::EndOfData)));
        }
    }
}

#[test]
fn default_buffer_decodes_the_same() {
    let mut m = Multipart::new(SliceSource::new(BODY.as_bytes().to_vec(), 100), &b"boundary".to_vec());
    expect_text(m.read_entry().unwrap(), b"title", b"hello");
    expect_file(m.read_entry().unwrap(), b"upload", Some(b"a.txt"), b"text/plain");
    assert_eq!(file_body(&mut m, 1024), b"contents\r\n--boundary--\r\n".to_vec());
    assert!(matches!(m.next_entry(), Ok(None)));
    assert_eq!(m.borrow_reader().position(), BODY.len());
}

#[test]
fn abandoned_file_part_is_skipped() {
    let body = "--boundary\r\nContent-Disposition: form-data; name=\"f\"; filename=\"big.bin\"\r\nContent-Type: application/octet-stream\r\n\r\n0123456789 0123456789 0123456789\r\n--boundary\r\nContent-Disposition: form-data; name=\"after\"\r\n\r\nvalue\r\n--boundary\r\n";
    for step in [1usize, 5, 100] {
        let mut m = decoder(body.as_bytes(), step, 16);
        expect_file(m.read_entry().unwrap(), b"f", Some(b"big.bin"), b"application/octet-stream");
        assert_eq!(m.read_file(4).unwrap(), b"0123".to_vec());
        expect_text(m.read_entry().unwrap(), b"after", b"value");
        assert!(matches!(m.read_entry(), Err(DecodeError::EndOfData)));
    }
    let mut m = decoder(body.as_bytes(), 3, 16);
    expect_file(m.read_entry().unwrap(), b"f", Some(b"big.bin"), b"application/octet-stream");
    expect_text(m.read_entry().unwrap(), b"after", b"value");
}

#[test]
fn missing_field_name_is_malformed_and_next_part_still_reads() {
    let body = "--boundary\r\nContent-Disposition: form-data; nom=\"x\"\r\n\r\nlost\r\n--boundary\r\nContent-Disposition: form-data; name=\"ok\"\r\n\r\nfine\r\n--boundary\r\n";
    let mut m = decoder(body.as_bytes(), 4, 32);
    match m.read_entry() {
        Err(DecodeError::MalformedHeader { fault, line }) => {
            assert_eq!(fault, HeaderFault::FieldName);
            assert_eq!(line, b"Content-Disposition: form-data; nom=\"x\"\r\n".to_vec());
        }
        other => panic!("unexpected result: {:?}", other),
    }
    expect_text(m.read_entry().unwrap(), b"ok", b"fine");
    assert!(matches!(m.next_entry(), Ok(None)));
}

#[test]
fn other_disposition_type_is_malformed() {
    let body = "--boundary\r\nContent-Disposition: attachment; name=\"x\"\r\n\r\nv\r\n--boundary--\r\n";
    let mut m = decoder(body.as_bytes(), 4, 32);
    match m.read_entry() {
        Err(DecodeError::MalformedHeader { fault, line }) => {
            assert_eq!(fault, HeaderFault::NotFormData);
            assert_eq!(line, b"Content-Disposition: attachment; name=\"x\"\r\n".to_vec());
        }
        other => panic!("unexpected result: {:?}", other),
    }
    match m.next_entry() {
        Ok(None) => {}
        other => panic!("unexpected result: {:?}", other),
    }
}

#[test]
fn empty_part_body_is_empty_text() {
    let direct = "--boundary\r\nContent-Disposition: form-data; name=\"e\"\r\n\r\n--boundary\r\n";
    let mut m = decoder(direct.as_bytes(), 3, 16);
    expect_text(m.read_entry().unwrap(), b"e", b"");
    assert!(matches!(m.read_entry(), Err(DecodeError::EndOfData)));

    let with_break = "--boundary\r\nContent-Disposition: form-data; name=\"e\"\r\n\r\n\r\n--boundary\r\nContent-Disposition: form-data; name=\"n\"\r\n\r\nx\r\n--boundary\r\n";
    let mut m = decoder(with_break.as_bytes(), 3, 16);
    expect_text(m.read_entry().unwrap(), b"e", b"");
    expect_text(m.read_entry().unwrap(), b"n", b"x");
    assert!(matches!(m.read_entry(), Err(DecodeError::EndOfData)));
}

#[test]
fn text_keeps_inner_line_breaks() {
    let body = "--boundary\r\nContent-Disposition: form-data; name=\"t\"\r\n\r\nline one\r\nline two\r\n\r\n--boundary\r\n";
    let mut m = decoder(body.as_bytes(), 2, 16);
    expect_text(m.read_entry().unwrap(), b"t", b"line one\r\nline two\r\n");
}

#[test]
fn round_trip_of_texts_and_files() {
    let texts: Vec<(&[u8], &[u8])> = vec![(b"a", b"1"), (b"long name", b"some -- text\r\nwith lines"), (b"empty", b"")];
    let files: Vec<(&[u8], &[u8], &[u8], Vec<u8>)> = vec![
        (b"f1", b"x.bin", b"application/octet-stream", (0u8..=255).collect()),
        (b"f2", b"y.txt", b"text/plain", b"--boundar".to_vec()),
        (b"f3", b"z", b"image/png", Vec::new()),
    ];
    let mut body = Vec::new();
    for (name, value) in &texts {
        body.extend_from_slice(b"--boundary\r\nContent-Disposition: form-data; name=\"");
        body.extend_from_slice(name);
        body.extend_from_slice(b"\"\r\n\r\n");
        body.extend_from_slice(value);
        body.extend_from_slice(b"\r\n");
    }
    for (name, filename, ctype, bytes) in &files {
        body.extend_from_slice(b"--boundary\r\nContent-Disposition: form-data; name=\"");
        body.extend_from_slice(name);
        body.extend_from_slice(b"\"; filename=\"");
        body.extend_from_slice(filename);
        body.extend_from_slice(b"\"\r\nContent-Type: ");
        body.extend_from_slice(ctype);
        body.extend_from_slice(b"\r\n\r\n");
        body.extend_from_slice(bytes);
        body.extend_from_slice(b"\r\n");
    }
    body.extend_from_slice(b"--boundary\r\n");
    for step in [1usize, 3, 50, 1000] {
        for capacity in [12usize, 40, 65536] {
            let mut m = decoder(&body, step, capacity);
            for (name, value) in &texts {
                expect_text(m.read_entry().unwrap(), name, value);
            }
            for (name, filename, ctype, bytes) in &files {
                expect_file(m.read_entry().unwrap(), name, Some(*filename), ctype);
                let mut held = bytes.clone();
                held.extend_from_slice(b"\r\n");
                assert_eq!(file_body(&mut m, 7), held);
            }
            assert!(matches!(m.next_entry(), Ok(None)));
        }
    }
}

#[test]
fn body_without_boundary_is_end_of_data() {
    let mut m = decoder(b"nothing to see", 3, 16);
    assert!(matches!(m.read_entry(), Err(DecodeError::EndOfData)));
    let mut m = decoder(b"", 3, 16);
    assert!(matches!(m.read_entry(), Err(DecodeError::EndOfData)));
}

#[test]
fn disposition_line_values() {
    let d = parse_content_disposition(&b"Content-Disposition:  form-data ; name=\"field one\"; filename=\"a b.txt\"\r\n".to_vec()).unwrap();
    assert_eq!(d.kind, b"form-data".to_vec());
    assert_eq!(d.name, b"field one".to_vec());
    assert_eq!(d.filename, Some(b"a b.txt".to_vec()));
    let d = parse_content_disposition(&b"Content-Disposition: x; name=\"\"".to_vec()).unwrap();
    assert_eq!(d.kind, b"x".to_vec());
    assert_eq!(d.name, Vec::<u8>::new());
    assert_eq!(d.filename, None);
    let d = parse_content_disposition(&b"Content-Disposition: form-data; name=\"n\"; filename=\"open".to_vec()).unwrap();
    assert_eq!(d.filename, None);
}

#[test]
fn disposition_line_faults() {
    assert_eq!(parse_content_disposition(&b"Content-Type: text/plain\r\n".to_vec()).err(), Some(HeaderFault::DispositionMissing));
    assert_eq!(parse_content_disposition(&b"".to_vec()).err(), Some(HeaderFault::DispositionMissing));
    assert_eq!(parse_content_disposition(&b"Content-Disposition: form-data\r\n".to_vec()).err(), Some(HeaderFault::DispositionValue));
    assert_eq!(parse_content_disposition(&b"Content-Disposition: form-data; filename=\"a.txt\"\r\n".to_vec()).err(), Some(HeaderFault::FieldName));
    assert_eq!(parse_content_disposition(&b"Content-Disposition: form-data; xname=\"a\"\r\n".to_vec()).err(), Some(HeaderFault::FieldName));
    assert_eq!(parse_content_disposition(&b"Content-Disposition: form-data; nam=\"x\"\r\n".to_vec()).err(), Some(HeaderFault::FieldName));
    assert_eq!(parse_content_disposition(&b"Content-Disposition: form-data; name=\"x\r\n".to_vec()).err(), Some(HeaderFault::FieldName));
}

#[test]
fn content_type_line_values() {
    assert_eq!(parse_content_type(&b"Content-Type:   text/plain \r\n".to_vec()), Some(b"text/plain".to_vec()));
    assert_eq!(parse_content_type(&b"Content-Type:\r\n".to_vec()), Some(Vec::new()));
    assert_eq!(parse_content_type(&b"\r\n".to_vec()), None);
    assert_eq!(parse_content_type(&b"content-type: text/plain\r\n".to_vec()), None);
}

#[test]
fn find_bytes_gives_first_occurrence_from_start() {
    let hay = b"abcabcab".to_vec();
    assert_eq!(find_bytes(&hay, &b"bc".to_vec(), 0), Some(1));
    assert_eq!(find_bytes(&hay, &b"bc".to_vec(), 2), Some(4));
    assert_eq!(find_bytes(&hay, &b"bc".to_vec(), 5), None);
    assert_eq!(find_bytes(&hay, &b"ab".to_vec(), 6), Some(6));
    assert_eq!(find_bytes(&hay, &b"abcabcabc".to_vec(), 0), None);
    assert_eq!(find_bytes(&hay, &b"a".to_vec(), 8), None);
}

#[test]
fn trim_range_drops_spaces_at_both_ends() {
    let v = b"xx \t a b \r\n yy".to_vec();
    assert_eq!(trim_range(&v, 2, 12), b"a b".to_vec());
    assert_eq!(trim_range(&v, 2, 5), Vec::<u8>::new());
    assert_eq!(trim_range(&v, 0, 14), v.clone());
    assert_eq!(trim_range(&v, 3, 3), Vec::<u8>::new());
    let w = b"\x0b\x0c a\x0bb \x0c\x0b".to_vec();
    assert_eq!(trim_range(&w, 0, 9), b"a\x0bb".to_vec());
}

#[test]
fn delimiter_and_comparison() {
    assert_eq!(make_delimiter(&b"tok".to_vec()), b"--tok\r\n".to_vec());
    assert_eq!(make_delimiter(&Vec::new()), b"--\r\n".to_vec());
    assert!(same_bytes(&b"form-data".to_vec(), &b"form-data".to_vec()));
    assert!(!same_bytes(&b"form-data".to_vec(), &b"form-datA".to_vec()));
    assert!(!same_bytes(&b"form".to_vec(), &b"form-data".to_vec()));
}

#[test]
fn error_helpers() {
    assert!(matches!(eof::<u8>(), Err(DecodeError::EndOfData)));
    match line_error(HeaderFault::DispositionValue, b"raw".to_vec()) {
        DecodeError::MalformedHeader { fault, line } => {
            assert_eq!(fault, HeaderFault::DispositionValue);
            assert_eq!(line, b"raw".to_vec());
        }
        other => panic!("unexpected error: {:?}", other),
    }
    assert_eq!(with(Some(3usize), |n: &usize| Some(*n + 1)), Some((3, 4)));
    assert_eq!(with(Some(3usize), |_n: &usize| None::<u8>), None);
    assert_eq!(with(None::<usize>, |n: &usize| Some(*n)), None);
}

#[test]
fn content_type_decides_whether_a_request_is_form_data() {
    assert!(is_multipart_formdata(true, Some("multipart/form-data; boundary=abc")));
    assert!(is_multipart_formdata(true, Some("Multipart/Form-Data; boundary=abc")));
    assert!(!is_multipart_formdata(false, Some("multipart/form-data; boundary=abc")));
    assert!(!is_multipart_formdata(true, Some("multipart/mixed; boundary=abc")));
    assert!(!is_multipart_formdata(true, Some("text/plain")));
    assert!(!is_multipart_formdata(true, Some("not a media type")));
    assert!(!is_multipart_formdata(true, None));
    assert!(!is_multipart_formdata(true, Some("multipart/form-data; boundary=\"\u{e9}\"")));
    assert!(accepts_essence(true, &Some(b"multipart/form-data".to_vec())));
    assert!(!accepts_essence(true, &Some(b"multipart/form-dat".to_vec())));
    assert!(!accepts_essence(false, &Some(b"multipart/form-data".to_vec())));
    assert!(!accepts_essence(true, &None));
}

#[test]
fn boundary_is_read_from_the_content_type() {
    assert_eq!(get_boundary("multipart/form-data; boundary=ABCDEFG"), Some(b"ABCDEFG".to_vec()));
    assert_eq!(get_boundary("multipart/form-data; charset=utf-8; boundary=\"a b\""), Some(b"a b".to_vec()));
    assert_eq!(get_boundary("multipart/form-data"), None);
    assert_eq!(get_boundary("multipart/form-data; boundary"), None);
    assert_eq!(get_boundary(""), None);
    assert_eq!(get_boundary("multipart/form-data; boundary=\"\u{e9}\""), None);
}

#[test]
fn from_request_decodes_or_hands_the_source_back() {
    let src = SliceSource::new(BODY.as_bytes().to_vec(), 9);
    let mut m = match Multipart::from_request(src, true, Some("multipart/form-data; boundary=boundary")) {
        Ok(m) => m,
        Err(_) => panic!("expected a decoder"),
    };
    expect_text(m.read_entry().unwrap(), b"title", b"hello");
    expect_file(m.read_entry().unwrap(), b"upload", Some(b"a.txt"), b"text/plain");
    assert_eq!(file_body(&mut m, 3), b"contents\r\n--boundary--\r\n".to_vec());
    assert!(matches!(m.next_entry(), Ok(None)));

    let src = SliceSource::new(b"abc".to_vec(), 9);
    match Multipart::from_request(src, false, Some("multipart/form-data; boundary=boundary")) {
        Ok(_) => panic!("a GET request is not form data"),
        Err(mut back) => assert_eq!(back.pull(10).unwrap(), b"abc".to_vec()),
    }
    let src = SliceSource::new(b"abc".to_vec(), 9);
    assert!(Multipart::from_request(src, true, Some("multipart/form-data")).is_err());
    let src = SliceSource::new(b"abc".to_vec(), 9);
    assert!(Multipart::from_request(src, true, None).is_err());
    let long = format!("multipart/form-data; boundary={}", "x".repeat(65533));
    let src = SliceSource::new(b"abc".to_vec(), 9);
    assert!(Multipart::from_request(src, true, Some(&long)).is_err());
}

#[test]
fn entries_keep_the_later_of_two_values() {
    let mut e = Entries::with_path("/tmp/up".to_string());
    assert_eq!(e.dir, "/tmp/up");
    assert_eq!(e.field(&b"a".to_vec()), None);
    e.insert_field(b"a".to_vec(), b"1".to_vec());
    e.insert_field(b"b".to_vec(), b"2".to_vec());
    e.insert_field(b"a".to_vec(), b"3".to_vec());
    assert_eq!(e.field(&b"a".to_vec()), Some(&b"3".to_vec()));
    assert_eq!(e.field(&b"b".to_vec()), Some(&b"2".to_vec()));
    assert_eq!(e.fields.len(), 2);
    assert_eq!(e.file(&b"a".to_vec()), None);
    e.insert_file(b"a".to_vec(), "/tmp/up/one".to_string());
    e.insert_file(b"a".to_vec(), "/tmp/up/two".to_string());
    assert_eq!(e.file(&b"a".to_vec()), Some(&"/tmp/up/two".to_string()));
    assert_eq!(e.files.len(), 1);
    assert_eq!(e.field(&b"a".to_vec()), Some(&b"3".to_vec()));
}

#[test]
fn list_of_pairs_put_get_position() {
    let mut list: Vec<(Vec<u8>, u32)> = Vec::new();
    put(&mut list, b"x".to_vec(), 1);
    put(&mut list, b"y".to_vec(), 2);
    put(&mut list, b"x".to_vec(), 7);
    assert_eq!(list, vec![(b"x".to_vec(), 7), (b"y".to_vec(), 2)]);
    assert_eq!(position(&list, &b"y".to_vec()), Some(1));
    assert_eq!(position(&list, &b"z".to_vec()), None);
    assert_eq!(get(&list, &b"x".to_vec()), Some(&7));
    assert_eq!(get(&list, &b"".to_vec()), None);
}

#[test]
fn parameters_are_found_by_their_names() {
    let d = parse_content_disposition(&b"Content-Disposition: form-data; name=\"xfilename=\"; filename=\"real\"\r\n".to_vec()).unwrap();
    assert_eq!(d.name, b"xfilename=".to_vec());
    assert_eq!(d.filename, Some(b"real".to_vec()));
    let d = parse_content_disposition(&b"Content-Disposition: form-data; name=\"xfilename=\"\r\n".to_vec()).unwrap();
    assert_eq!(d.name, b"xfilename=".to_vec());
    assert_eq!(d.filename, None);
    let d = parse_content_disposition(&b"Content-Disposition: form-data; filename=\"a.txt\"; name=\"upload\"\r\n".to_vec()).unwrap();
    assert_eq!(d.name, b"upload".to_vec());
    assert_eq!(d.filename, Some(b"a.txt".to_vec()));
    let d = parse_content_disposition(&b"Content-Disposition: form-data;name=\"n\";\t filename=\"f\"\r\n".to_vec()).unwrap();
    assert_eq!(d.name, b"n".to_vec());
    assert_eq!(d.filename, Some(b"f".to_vec()));
}

#[test]
fn field_name_that_ends_like_a_file_clause_is_read_as_one() {
    let d = parse_content_disposition(&b"Content-Disposition: form-data; name=\"a; filename=\"; filename=\"real\"\r\n".to_vec()).unwrap();
    assert_eq!(d.name, b"a; filename=".to_vec());
    assert_eq!(d.filename, Some(b"; filename=".to_vec()));
}

#[test]
fn file_part_before_another_boundary_reads_with_its_line_break() {
    let body = "--boundary\r\nContent-Disposition: form-data; name=\"f\"; filename=\"a\"\r\nContent-Type: text/plain\r\n\r\ncontents\r\n--boundary\r\n";
    let mut m = decoder(body.as_bytes(), 3, 16);
    expect_file(m.read_entry().unwrap(), b"f", Some(b"a"), b"text/plain");
    assert_eq!(file_body(&mut m, 4), b"contents\r\n".to_vec());
    assert!(matches!(m.next_entry(), Ok(None)));
}

#[test]
fn line_with_a_file_name_and_no_field_name_is_malformed() {
    let body = "--boundary\r\nContent-Disposition: form-data; filename=\"a.txt\"\r\n\r\nv\r\n--boundary\r\n";
    let mut m = decoder(body.as_bytes(), 4, 32);
    match m.read_entry() {
        Err(DecodeError::MalformedHeader { fault, line }) => {
            assert_eq!(fault, HeaderFault::FieldName);
            assert_eq!(line, b"Content-Disposition: form-data; filename=\"a.txt\"\r\n".to_vec());
        }
        other => panic!("unexpected result: {:?}", other),
    }
}

#[test]
fn what_stands_before_the_first_boundary_is_dropped() {
    let body = "junk--boundary--\r\n--boundary\r\nContent-Disposition: form-data; name=\"late\"\r\n\r\nv\r\n--boundary\r\n";
    let mut m = decoder(body.as_bytes(), 3, 16);
    expect_text(m.read_entry().unwrap(), b"late", b"v");
    assert!(matches!(m.next_entry(), Ok(None)));
    assert!(matches!(m.next_entry(), Ok(None)));
}

#[test]
fn last_part_before_a_closing_line_runs_to_the_end() {
    let body = "--boundary\r\nContent-Disposition: form-data; name=\"t\"\r\n\r\nv\r\n--boundary--\r\n";
    let mut m = decoder(body.as_bytes(), 3, 16);
    expect_text(m.read_entry().unwrap(), b"t", b"v\r\n--boundary--");
    assert!(matches!(m.next_entry(), Ok(None)));
}

#[test]
fn body_with_the_delimiter_after_a_line_break_and_dashes_is_data() {
    let body = "--boundary\r\nContent-Disposition: form-data; name=\"t\"\r\n\r\na\r\n--boundaryX\r\nb\r\n--boundary\r\n";
    let mut m = decoder(body.as_bytes(), 3, 16);
    expect_text(m.read_entry().unwrap(), b"t", b"a\r\n--boundaryX\r\nb");
    assert!(matches!(m.next_entry(), Ok(None)));
}

#[test]
fn strip_line_break_drops_one_line_break() {
    assert_eq!(strip_line_break(b"ab\r\n".to_vec()), b"ab".to_vec());
    assert_eq!(strip_line_break(b"ab\r\n\r\n".to_vec()), b"ab\r\n".to_vec());
    assert_eq!(strip_line_break(b"ab\n".to_vec()), b"ab\n".to_vec());
    assert_eq!(strip_line_break(b"\r\n".to_vec()), Vec::<u8>::new());
    assert_eq!(strip_line_break(b"\n".to_vec()), b"\n".to_vec());
    assert_eq!(strip_line_break(Vec::new()), Vec::<u8>::new());
}

#[test]
fn find_param_bytes_skips_what_is_no_parameter() {
    let line = b"a; filename=\"x\"; name=\"y\"".to_vec();
    assert_eq!(find_param_bytes(&line, &b"name=\"".to_vec()), Some(17));
    assert_eq!(find_param_bytes(&line, &b"filename=\"".to_vec()), Some(3));
    assert_eq!(find_param_bytes(&b"name=\"y\"".to_vec(), &b"name=\"".to_vec()), None);
    assert!(param_starts(&line, 3));
    assert!(!param_starts(&line, 7));
    assert!(!param_starts(&line, 0));
}

#[test]
fn part_without_header_is_malformed() {
    let body = "--boundary\r\n\r\n--boundary--\r\n";
    let mut m = decoder(body.as_bytes(), 3, 16);
    match m.read_entry() {
        Err(DecodeError::MalformedHeader { fault, line }) => {
            assert_eq!(fault, HeaderFault::DispositionMissing);
            assert_eq!(line, b"\r\n".to_vec());
        }
        other => panic!("unexpected result: {:?}", other),
    }
    assert!(matches!(m.read_entry(), Err(DecodeError::EndOfData)));
}

#[test]
fn collection_takes_each_kind_of_entry() {
    let mut m = decoder(BODY.as_bytes(), 5, 32);
    let mut e = Entries::with_path("dir".to_string());
    assert!(matches!(e.take_entry(m.next_entry()), Collect::Next));
    assert_eq!(e.field(&b"title".to_vec()), Some(&b"hello".to_vec()));
    match e.take_entry(m.next_entry()) {
        Collect::Save { name, file } => {
            assert_eq!(name, b"upload".to_vec());
            assert_eq!(file.filename, Some(b"a.txt".to_vec()));
            assert_eq!(file.content_type, b"text/plain".to_vec());
            e.insert_file(name, "dir/f0".to_string());
        }
        other => panic!("unexpected step: {:?}", other),
    }
    assert!(matches!(e.take_entry(m.next_entry()), Collect::Done));
    assert!(matches!(
        e.take_entry(Err(DecodeError::Source(SourceFailure { kind: 2 }))),
        Collect::Failed(DecodeError::Source(SourceFailure { kind: 2 }))
    ));
    assert_eq!(e.fields.len(), 1);
    assert_eq!(e.files, vec![(b"upload".to_vec(), "dir/f0".to_string())]);
}

#[test]
fn closing_quote_is_the_first_quote_from_the_start() {
    let line = b"a\"bc\"d".to_vec();
    assert_eq!(closing_quote(&(0, &line)), Some(1));
    assert_eq!(closing_quote(&(2, &line)), Some(4));
    assert_eq!(closing_quote(&(5, &line)), None);
    assert_eq!(with(Some((2usize, &line)), closing_quote), Some(((2usize, &line), 4)));
}
