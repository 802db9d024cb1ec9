use frame_buffer::FrameBuffer;
use frame_buffer::FrameError;
use frame_buffer::Transmission;

/// Reads transmissions until the parser reports incomplete input,
/// panicking on any protocol violation.
fn read_all(fb: &mut FrameBuffer) -> Vec<Transmission> {
    let mut out = Vec::new();
    loop {
        match fb.read_transmission().expect("unexpected protocol violation") {
            Some(t) => out.push(t),
            None => return out,
        }
    }
}

fn expect_frame(t: &Transmission) -> &frame_buffer::Frame {
    match t {
        Transmission::CompleteFrame(f) => f,
        Transmission::HeartBeat => panic!("expected a frame, got a heartbeat"),
    }
}

fn header_pairs(f: &frame_buffer::Frame) -> Vec<(String, String)> {
    let mut out = Vec::new();
    let mut i = 0;
    while i < f.headers.len() {
        let h = f.headers.get(i);
        out.push((h.key.clone(), h.value.clone()));
        i += 1;
    }
    out
}

#[test]
fn heartbeat_isolation() {
    let mut fb = FrameBuffer::new();
    fb.append(b"\n");
    let t = fb.read_transmission().unwrap().unwrap();
    assert!(matches!(t, Transmission::HeartBeat));
    assert_eq!(fb.len(), 0);
    assert!(fb.read_transmission().unwrap().is_none());
    fb.append(b"SEND\n\nhi\x00");
    let t = fb.read_transmission().unwrap().unwrap();
    let f = expect_frame(&t);
    assert_eq!(f.command, "SEND");
    assert_eq!(f.body, b"hi");
}

#[test]
fn heartbeat_with_carriage_return() {
    let mut fb = FrameBuffer::new();
    fb.append(b"\r\n");
    let t = fb.read_transmission().unwrap().unwrap();
    assert!(matches!(t, Transmission::HeartBeat));
    assert_eq!(fb.len(), 0);
}

#[test]
fn content_length_exactness() {
    let mut fb = FrameBuffer::new();
    fb.append(b"SEND\ndestination:/q\ncontent-length:5\n\nhello\x00");
    let t = fb.read_transmission().unwrap().unwrap();
    let f = expect_frame(&t);
    assert_eq!(f.command, "SEND");
    assert_eq!(
        header_pairs(f),
        vec![
            ("destination".to_string(), "/q".to_string()),
            ("content-length".to_string(), "5".to_string()),
        ]
    );
    assert_eq!(f.body, b"hello");
    assert_eq!(fb.len(), 0);
}

#[test]
fn null_delimited_body() {
    let mut fb = FrameBuffer::new();
    fb.append(b"SEND\ndestination:/q\n\nhi\x00");
    let t = fb.read_transmission().unwrap().unwrap();
    let f = expect_frame(&t);
    assert_eq!(f.command, "SEND");
    assert_eq!(header_pairs(f), vec![("destination".to_string(), "/q".to_string())]);
    assert_eq!(f.body, b"hi");
}

#[test]
fn split_across_boundary() {
    let mut fb = FrameBuffer::new();
    fb.append(b"SEND\ndestination:/q\n");
    assert!(fb.read_transmission().unwrap().is_none());
    fb.append(b"\nhi\x00");
    let t = fb.read_transmission().unwrap().unwrap();
    let f = expect_frame(&t);
    assert_eq!(f.command, "SEND");
    assert_eq!(f.body, b"hi");
}

#[test]
fn binary_safe_body_under_content_length() {
    let mut fb = FrameBuffer::new();
    let body: &[u8] = b"a\x00b\nc\r\x00";
    let mut wire = Vec::new();
    wire.extend_from_slice(b"SEND\ncontent-length:7\n\n");
    wire.extend_from_slice(body);
    wire.push(0);
    fb.append(&wire);
    let t = fb.read_transmission().unwrap().unwrap();
    let f = expect_frame(&t);
    assert_eq!(f.body, body);
    assert_eq!(fb.len(), 0);
}

#[test]
fn buffer_reset_after_emission() {
    let mut fb = FrameBuffer::new();
    fb.append(b"SEND\n\nx\x00TRAIL");
    let t = fb.read_transmission().unwrap().unwrap();
    assert_eq!(expect_frame(&t).body, b"x");
    assert_eq!(fb.len(), 5);
    fb.append(b"\n\nrest\x00");
    let t = fb.read_transmission().unwrap().unwrap();
    let f = expect_frame(&t);
    assert_eq!(f.command, "TRAIL");
    assert_eq!(f.body, b"rest");
    assert_eq!(fb.len(), 0);
}

#[test]
fn malformed_header_rejection() {
    let mut fb = FrameBuffer::new();
    fb.append(b"SEND\nbadheader\n\nx\x00");
    let e = fb.read_transmission().unwrap_err();
    assert_eq!(e, FrameError::MalformedHeader);
    fb.reset();
    assert_eq!(fb.len(), 0);
    fb.append(b"SEND\ngood:header\n\nx\x00");
    let t = fb.read_transmission().unwrap().unwrap();
    let f = expect_frame(&t);
    assert_eq!(f.command, "SEND");
    assert_eq!(header_pairs(f), vec![("good".to_string(), "header".to_string())]);
}

#[test]
fn reassembly_independence_one_byte_chunks() {
    let wire: &[u8] = b"\nSEND\ndestination:/q\ncontent-length:3\n\na\x00b\x00MESSAGE\nk:v\n\nnull-mode\x00\n";
    let mut whole = FrameBuffer::new();
    whole.append(wire);
    let expected = read_all(&mut whole);
    assert_eq!(expected.len(), 4);

    let mut chunked = FrameBuffer::new();
    let mut got = Vec::new();
    for byte in wire {
        chunked.append(&[*byte]);
        got.extend(read_all(&mut chunked));
    }
    assert_eq!(got.len(), expected.len());
    for (a, b) in got.iter().zip(expected.iter()) {
        match (a, b) {
            (Transmission::HeartBeat, Transmission::HeartBeat) => {},
            (Transmission::CompleteFrame(x), Transmission::CompleteFrame(y)) => {
                assert_eq!(x.command, y.command);
                assert_eq!(header_pairs(x), header_pairs(y));
                assert_eq!(x.body, y.body);
            },
            _ => panic!("transmission sequences differ"),
        }
    }
}

#[test]
fn incomplete_command_line() {
    let mut fb = FrameBuffer::new();
    fb.append(b"SEN");
    assert!(fb.read_transmission().unwrap().is_none());
    assert!(fb.read_transmission().unwrap().is_none());
    assert_eq!(fb.len(), 3);
    fb.append(b"D\n\nok\x00");
    let t = fb.read_transmission().unwrap().unwrap();
    assert_eq!(expect_frame(&t).command, "SEND");
}

#[test]
fn incomplete_body_under_content_length() {
    let mut fb = FrameBuffer::new();
    fb.append(b"SEND\ncontent-length:4\n\nabcd");
    assert!(fb.read_transmission().unwrap().is_none());
    fb.append(b"\x00");
    let t = fb.read_transmission().unwrap().unwrap();
    assert_eq!(expect_frame(&t).body, b"abcd");
}

#[test]
fn crlf_line_endings() {
    let mut fb = FrameBuffer::new();
    fb.append(b"SEND\r\ndestination:/q\r\n\r\nhi\x00");
    let t = fb.read_transmission().unwrap().unwrap();
    let f = expect_frame(&t);
    assert_eq!(f.command, "SEND");
    assert_eq!(header_pairs(f), vec![("destination".to_string(), "/q".to_string())]);
    assert_eq!(f.body, b"hi");
}

#[test]
fn empty_body() {
    let mut fb = FrameBuffer::new();
    fb.append(b"SEND\n\n\x00");
    let t = fb.read_transmission().unwrap().unwrap();
    let f = expect_frame(&t);
    assert_eq!(f.body, b"");
    assert_eq!(f.headers.len(), 0);

    let mut fb = FrameBuffer::new();
    fb.append(b"SEND\ncontent-length:0\n\n\x00");
    let t = fb.read_transmission().unwrap().unwrap();
    assert_eq!(expect_frame(&t).body, b"");
}

#[test]
fn first_content_length_wins() {
    let mut fb = FrameBuffer::new();
    fb.append(b"SEND\ncontent-length:2\ncontent-length:5\n\nab\x00");
    let t = fb.read_transmission().unwrap().unwrap();
    assert_eq!(expect_frame(&t).body, b"ab");
}

#[test]
fn unparsable_content_length_falls_back_to_null_mode() {
    let mut fb = FrameBuffer::new();
    fb.append(b"SEND\ncontent-length:abc\n\nhi\x00");
    let t = fb.read_transmission().unwrap().unwrap();
    let f = expect_frame(&t);
    assert_eq!(f.body, b"hi");
    assert_eq!(header_pairs(f), vec![("content-length".to_string(), "abc".to_string())]);

    let mut fb = FrameBuffer::new();
    fb.append(b"SEND\ncontent-length:99999999999\n\nhi\x00");
    let t = fb.read_transmission().unwrap().unwrap();
    assert_eq!(expect_frame(&t).body, b"hi");
}

#[test]
fn content_length_upper_edge() {
    let mut fb = FrameBuffer::new();
    fb.append(b"SEND\ncontent-length:4294967295\n\nx");
    assert!(fb.read_transmission().unwrap().is_none());
}

#[test]
fn header_with_empty_name_or_value() {
    let mut fb = FrameBuffer::new();
    fb.append(b"SEND\nk:\n:v\n\nx\x00");
    let t = fb.read_transmission().unwrap().unwrap();
    let f = expect_frame(&t);
    assert_eq!(
        header_pairs(f),
        vec![("k".to_string(), "".to_string()), ("".to_string(), "v".to_string())]
    );
}

#[test]
fn header_value_may_contain_colons() {
    let mut fb = FrameBuffer::new();
    fb.append(b"SEND\ndestination:/queue:a:b\n\nx\x00");
    let t = fb.read_transmission().unwrap().unwrap();
    let f = expect_frame(&t);
    assert_eq!(
        header_pairs(f),
        vec![("destination".to_string(), "/queue:a:b".to_string())]
    );
}

#[test]
fn non_utf8_command_is_a_protocol_error() {
    let mut fb = FrameBuffer::new();
    fb.append(b"\xff\xfe\n");
    let e = fb.read_transmission().unwrap_err();
    assert_eq!(e, FrameError::InvalidUtf8);
    assert_eq!(fb.len(), 0);
}

#[test]
fn non_utf8_header_is_a_protocol_error() {
    let mut fb = FrameBuffer::new();
    fb.append(b"SEND\nk:\xff\n\nx\x00");
    let e = fb.read_transmission().unwrap_err();
    assert_eq!(e, FrameError::InvalidUtf8);
}

#[test]
fn utf8_command_round_trips() {
    let mut fb = FrameBuffer::new();
    fb.append("S\u{00c9}ND\nn\u{00e4}me:v\u{00e4}l\n\nx\x00".as_bytes());
    let t = fb.read_transmission().unwrap().unwrap();
    let f = expect_frame(&t);
    assert_eq!(f.command, "S\u{00c9}ND");
    assert_eq!(
        header_pairs(f),
        vec![("n\u{00e4}me".to_string(), "v\u{00e4}l".to_string())]
    );
}

#[test]
fn reset_discards_everything() {
    let mut fb = FrameBuffer::new();
    fb.append(b"SEND\npartial:head\n");
    assert!(fb.read_transmission().unwrap().is_none());
    fb.reset();
    assert_eq!(fb.len(), 0);
    fb.append(b"\n");
    let t = fb.read_transmission().unwrap().unwrap();
    assert!(matches!(t, Transmission::HeartBeat));
}

#[test]
fn recycle_frame_keeps_parsing_correct() {
    let mut fb = FrameBuffer::new();
    fb.append(b"SEND\na:1\nb:2\n\nfirst\x00");
    let t = fb.read_transmission().unwrap().unwrap();
    let f = match t {
        Transmission::CompleteFrame(f) => f,
        Transmission::HeartBeat => panic!("expected a frame"),
    };
    assert_eq!(f.body, b"first");
    fb.recycle_frame(f);
    fb.append(b"MESSAGE\nc:3\n\nsecond\x00");
    let t = fb.read_transmission().unwrap().unwrap();
    let f = expect_frame(&t);
    assert_eq!(f.command, "MESSAGE");
    assert_eq!(header_pairs(f), vec![("c".to_string(), "3".to_string())]);
    assert_eq!(f.body, b"second");
}

#[test]
fn with_capacity_behaves_like_new() {
    let mut fb = FrameBuffer::with_capacity(0);
    fb.append(b"SEND\n\nhi\x00");
    let t = fb.read_transmission().unwrap().unwrap();
    assert_eq!(expect_frame(&t).command, "SEND");
    assert_eq!(fb.len(), 0);
}

#[test]
fn several_transmissions_in_one_append() {
    let mut fb = FrameBuffer::new();
    fb.append(b"\n\nSEND\n\none\x00MESSAGE\n\ntwo\x00");
    let got = read_all(&mut fb);
    assert_eq!(got.len(), 4);
    assert!(matches!(got[0], Transmission::HeartBeat));
    assert!(matches!(got[1], Transmission::HeartBeat));
    assert_eq!(expect_frame(&got[2]).body, b"one");
    assert_eq!(expect_frame(&got[3]).command, "MESSAGE");
}
