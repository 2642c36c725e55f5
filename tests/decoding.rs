use ptycore::decoder::incomplete_tail_len;
use ptycore::{ReadEvent, ReaderLoop, Utf8Decoder};

#[test]
fn two_byte_char_split_across_reads() {
    let mut d = Utf8Decoder::new();
    let bytes = "é".as_bytes();
    assert_eq!(d.feed(&bytes[..1]), "");
    assert_eq!(d.feed(&bytes[1..]), "é");
}

#[test]
fn three_and_four_byte_chars_split_anywhere() {
    let text = "a€b😀c";
    let bytes = text.as_bytes();
    for cut in 0..=bytes.len() {
        let mut d = Utf8Decoder::new();
        let mut out = d.feed(&bytes[..cut]);
        out.push_str(&d.feed(&bytes[cut..]));
        assert_eq!(out, text);
        assert_eq!(d.finish(), "");
    }
}

#[test]
fn byte_by_byte_reads_reassemble() {
    let text = "héllo wörld ✓ 🚀";
    let mut d = Utf8Decoder::new();
    let mut out = String::new();
    for b in text.as_bytes() {
        out.push_str(&d.feed(&[*b]));
    }
    assert_eq!(out, text);
}

#[test]
fn invalid_bytes_are_replaced() {
    let mut d = Utf8Decoder::new();
    assert_eq!(d.feed(&[b'a', 0xff, b'b']), "a\u{fffd}b");
}

#[test]
fn unfinished_char_is_shown_at_end() {
    let mut d = Utf8Decoder::new();
    assert_eq!(d.feed(&[b'x', 0xe2, 0x82]), "x");
    assert_eq!(d.finish(), "\u{fffd}");
    assert_eq!(d.finish(), "");
}

#[test]
fn tail_lengths() {
    assert_eq!(incomplete_tail_len(b""), 0);
    assert_eq!(incomplete_tail_len(b"abc"), 0);
    assert_eq!(incomplete_tail_len(&[b'a', 0xc3]), 1);
    assert_eq!(incomplete_tail_len(&[0xc3, 0xa9]), 0);
    assert_eq!(incomplete_tail_len(&[0xe2, 0x82]), 2);
    assert_eq!(incomplete_tail_len(&[0xf0, 0x9f, 0x98]), 3);
    assert_eq!(incomplete_tail_len(&[0xf0, 0x9f, 0x98, 0x80]), 0);
    assert_eq!(incomplete_tail_len(&[0x80, 0x80, 0x80]), 0);
}

#[test]
fn reader_emits_output_then_one_exit() {
    let mut r = ReaderLoop::new();
    let s = r.on_read(ReadEvent::Data(b"hi\r\n".to_vec()));
    assert_eq!(s.output.as_deref(), Some("hi\r\n"));
    assert!(!s.exit);
    let s = r.on_read(ReadEvent::Eof);
    assert_eq!(s.output, None);
    assert!(s.exit);
    assert!(r.finished());
    let s = r.on_read(ReadEvent::Eof);
    assert!(!s.exit);
    let s = r.on_read(ReadEvent::Failed);
    assert!(!s.exit);
    let s = r.on_read(ReadEvent::Data(b"late".to_vec()));
    assert_eq!(s.output, None);
    assert!(!s.exit);
}

#[test]
fn reader_failure_is_reported_as_exit() {
    let mut r = ReaderLoop::new();
    let s = r.on_read(ReadEvent::Data(vec![b'o', b'k', 0xc3]));
    assert_eq!(s.output.as_deref(), Some("ok"));
    let s = r.on_read(ReadEvent::Failed);
    assert_eq!(s.output.as_deref(), Some("\u{fffd}"));
    assert!(s.exit);
}

#[test]
fn reader_holds_split_char_without_output() {
    let mut r = ReaderLoop::new();
    let s = r.on_read(ReadEvent::Data(vec![0xe2, 0x82]));
    assert_eq!(s.output, None);
    assert!(!s.exit);
    let s = r.on_read(ReadEvent::Data(vec![0xac]));
    assert_eq!(s.output.as_deref(), Some("€"));
}
