use ls_rust::lister::{Action, Event, Lister, Phase, CAPACITY};
use ls_rust::output::{emit_name, print, render_entries};
use ls_rust::record::{decode_records, encode_records, DecodeError, DirEntry, HEADER_SIZE};

/// What a simulated run did: bytes written, exit code, calls made in order.
struct Run {
    output: Vec<u8>,
    code: i32,
    calls: Vec<&'static str>,
}

/// Drives a lister against a simulated kernel: `open` is what opening
/// returns, `fills` what the successive fills return and write.
fn run(open: i32, fills: &[(i32, Vec<u8>)]) -> Run {
    let mut lister = Lister::new();
    let mut ev = Event::Begin;
    let mut out = Run { output: Vec::new(), code: -1, calls: Vec::new() };
    let mut next_fill = 0usize;
    loop {
        assert!(lister.accepts(&ev));
        match lister.step(ev) {
            Action::Open => {
                out.calls.push("open");
                ev = Event::Opened { result: open };
            }
            Action::Fill { handle } => {
                assert_eq!(handle, open);
                out.calls.push("fill");
                let (result, data) = fills[next_fill].clone();
                next_fill += 1;
                let mut buf = vec![0u8; CAPACITY];
                buf[..data.len()].copy_from_slice(&data);
                ev = Event::Filled { result, buf };
            }
            Action::Write { bytes } => {
                out.calls.push("write");
                out.output.extend_from_slice(&bytes);
                ev = Event::Written;
            }
            Action::Close { handle } => {
                assert_eq!(handle, open);
                out.calls.push("close");
                ev = Event::Closed;
            }
            Action::Exit { code } => {
                out.code = code;
                assert_eq!(lister.phase, Phase::Done { code });
                return out;
            }
        }
    }
}

fn entry(ino: i32, name: &str) -> DirEntry {
    DirEntry { ino, name: name.as_bytes().to_vec() }
}

fn records(entries: &[DirEntry]) -> Vec<u8> {
    encode_records(&entries.to_vec())
}

/// Entries named `e0000`, `e0001`, ... whose records take 14 bytes each.
fn numbered(from: usize, count: usize) -> Vec<DirEntry> {
    (from..from + count).map(|i| entry(i as i32, &format!("e{:04}", i))).collect()
}

#[test]
fn empty_directory_lists_nothing() {
    let r = run(3, &[(0, Vec::new())]);
    assert!(r.output.is_empty());
    assert_eq!(r.code, 0);
    assert_eq!(r.calls, vec!["open", "fill", "close"]);
}

#[test]
fn one_short_fill_gives_one_line_per_entry_in_order() {
    let es = vec![entry(1, "."), entry(2, ".."), entry(7, "bin"), entry(9, "etc")];
    let data = records(&es);
    assert!(data.len() < CAPACITY);
    let r = run(4, &[(data.len() as i32, data)]);
    assert_eq!(r.output, b".\n..\nbin\netc\n".to_vec());
    assert_eq!(r.code, 0);
    assert_eq!(r.calls, vec!["open", "fill", "write", "close"]);
}

#[test]
fn full_fill_is_followed_by_another_fill() {
    let first = records(&numbered(0, 60));
    let mut full = first.clone();
    // The last record is padded so that the fill is exactly the capacity.
    let pad = CAPACITY - full.len() - 14;
    let mut last = records(&numbered(60, 1));
    last[4..8].copy_from_slice(&((14 + pad) as i32).to_le_bytes());
    last.extend(std::iter::repeat(0u8).take(pad));
    full.extend_from_slice(&last);
    assert_eq!(full.len(), CAPACITY);
    let second = records(&numbered(61, 2));
    let r = run(5, &[(CAPACITY as i32, full), (second.len() as i32, second)]);
    assert_eq!(r.calls, vec!["open", "fill", "write", "fill", "write", "close"]);
    let text = String::from_utf8(r.output).unwrap();
    let lines: Vec<&str> = text.lines().collect();
    assert_eq!(lines.len(), 63);
    assert_eq!(lines[0], "e0000");
    assert_eq!(lines[60], "e0060");
    assert_eq!(lines[62], "e0062");
    assert_eq!(r.code, 0);
}

#[test]
fn full_fill_then_empty_fill() {
    let name = "x".repeat(CAPACITY - HEADER_SIZE - 1);
    let data = records(&[entry(1, &name)]);
    assert_eq!(data.len(), CAPACITY);
    let r = run(3, &[(CAPACITY as i32, data), (0, Vec::new())]);
    assert_eq!(r.calls, vec!["open", "fill", "write", "fill", "close"]);
    assert_eq!(r.output.len(), name.len() + 1);
    assert_eq!(r.code, 0);
}

#[test]
fn round_trip_of_records() {
    let es = vec![entry(-5, "a"), entry(0, "hello world"), entry(i32::MAX, "zzz"), entry(12, "")];
    let data = records(&es);
    assert_eq!(decode_records(&data), Ok(es));
}

#[test]
fn record_layout_is_little_endian() {
    let data = records(&[entry(0x01020304, "ab")]);
    assert_eq!(data, vec![4, 3, 2, 1, 11, 0, 0, 0, b'a', b'b', 0]);
}

#[test]
fn name_up_to_the_end_of_the_buffer() {
    let name = "n".repeat(CAPACITY - HEADER_SIZE - 1);
    let data = records(&[entry(77, &name)]);
    assert_eq!(data.len(), CAPACITY);
    assert_eq!(data[CAPACITY - 1], 0);
    let decoded = decode_records(&data).unwrap();
    assert_eq!(decoded.len(), 1);
    assert_eq!(decoded[0].ino, 77);
    assert_eq!(decoded[0].name, name.as_bytes().to_vec());
}

#[test]
fn terminator_on_last_filled_byte() {
    let mut data = records(&[entry(1, "first"), entry(2, "second")]);
    let n = data.len();
    assert_eq!(data[n - 1], 0);
    data.extend_from_slice(&[9, 9, 9]);
    let decoded = decode_records(&data[..n]).unwrap();
    assert_eq!(decoded[1].name, b"second".to_vec());
}

#[test]
fn open_failure_reports_and_exits_with_one() {
    let r = run(-2, &[]);
    assert_eq!(r.output, b"ls: cannot open directory /\n".to_vec());
    assert_eq!(r.code, 1);
    assert_eq!(r.calls, vec!["open", "write"]);
}

#[test]
fn failing_first_fill_still_closes() {
    let r = run(3, &[(-9, Vec::new())]);
    assert!(r.output.is_empty());
    assert_eq!(r.code, 0);
    assert_eq!(r.calls, vec!["open", "fill", "close"]);
}

#[test]
fn last_fill_result_is_kept() {
    let mut lister = Lister::new();
    lister.step(Event::Begin);
    lister.step(Event::Opened { result: 3 });
    let a = lister.step(Event::Filled { result: -4, buf: vec![0u8; CAPACITY] });
    assert!(matches!(a, Action::Close { handle: 3 }));
    assert_eq!(lister.last_fill, -4);
    assert_eq!(lister.phase, Phase::Closing { handle: 3, code: 0 });
}

#[test]
fn corrupt_fill_reports_closes_and_exits_with_one() {
    let mut data = records(&[entry(1, "ok")]);
    data[4..8].copy_from_slice(&4i32.to_le_bytes());
    let r = run(3, &[(data.len() as i32, data)]);
    assert_eq!(r.output, b"ls: panic!\n".to_vec());
    assert_eq!(r.code, 1);
    assert_eq!(r.calls, vec!["open", "fill", "write", "close"]);
}

#[test]
fn fill_larger_than_buffer_is_a_fault() {
    let r = run(3, &[(CAPACITY as i32 + 1, Vec::new())]);
    assert_eq!(r.output, b"ls: panic!\n".to_vec());
    assert_eq!(r.code, 1);
    assert_eq!(r.calls, vec!["open", "fill", "write", "close"]);
}

#[test]
fn truncated_header_is_reported() {
    let mut data = records(&[entry(1, "a")]);
    data.extend_from_slice(&[1, 2, 3]);
    assert_eq!(decode_records(&data), Err(DecodeError::TruncatedHeader));
}

#[test]
fn record_length_past_the_fill_is_reported() {
    let mut data = records(&[entry(1, "abc")]);
    data[4..8].copy_from_slice(&100i32.to_le_bytes());
    assert_eq!(decode_records(&data), Err(DecodeError::BadLength));
}

#[test]
fn negative_record_length_is_reported() {
    let mut data = records(&[entry(1, "abc")]);
    data[4..8].copy_from_slice(&(-12i32).to_le_bytes());
    assert_eq!(decode_records(&data), Err(DecodeError::BadLength));
}

#[test]
fn header_sized_record_length_is_reported() {
    let mut data = records(&[entry(1, "abc")]);
    data[4..8].copy_from_slice(&8i32.to_le_bytes());
    assert_eq!(decode_records(&data), Err(DecodeError::BadLength));
}

#[test]
fn unterminated_name_is_reported() {
    let mut data = records(&[entry(1, "abc")]);
    let n = data.len();
    data[n - 1] = b'd';
    assert_eq!(decode_records(&data), Err(DecodeError::Unterminated));
}

#[test]
fn padded_record_decodes_to_name_before_nul() {
    let data = vec![5, 0, 0, 0, 16, 0, 0, 0, b'a', b'b', 0, 0, 0, 0, 0, 0];
    let decoded = decode_records(&data).unwrap();
    assert_eq!(decoded, vec![entry(5, "ab")]);
}

#[test]
fn empty_region_decodes_to_nothing() {
    assert_eq!(decode_records(&[]), Ok(Vec::new()));
}

#[test]
fn print_appends_bytes() {
    let mut out = b"> ".to_vec();
    print(&mut out, "héllo");
    assert_eq!(out, "> héllo".as_bytes().to_vec());
}

#[test]
fn println_appends_newline() {
    let mut out = Vec::new();
    ls_rust::output::println(&mut out, "a");
    ls_rust::output::println(&mut out, "");
    assert_eq!(out, b"a\n\n".to_vec());
}

#[test]
fn utf8_name_is_kept() {
    let mut out = Vec::new();
    emit_name(&mut out, "ça".as_bytes());
    assert_eq!(out, "ça\n".as_bytes().to_vec());
}

#[test]
fn invalid_name_bytes_are_replaced() {
    let mut out = Vec::new();
    emit_name(&mut out, &[b'a', 0xff, b'b', 0xc3]);
    assert_eq!(out, b"a?b?\n".to_vec());
}

#[test]
fn render_entries_in_order() {
    let es = vec![entry(1, "z"), entry(2, "a"), DirEntry { ino: 3, name: vec![0x80] }];
    assert_eq!(render_entries(&es), b"z\na\n?\n".to_vec());
}
