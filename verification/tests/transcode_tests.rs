use console_utf16::transcode::{
    bulk_transcode, convert_all, decode_scalar_at, floor_char_boundary, Rust, Utf8ToUtf16, Windows,
};

// One three-byte, one-code-unit character: the two strategies' stop rules
// differ on it when the capacity is byte-tight.
#[test]
fn strategies_differ_on_byte_tight_capacity() {
    let s = "\u{4E2D}".as_bytes();
    let direct = Rust::convert(s, 2);
    assert_eq!(direct.output, vec![0x4E2D]);
    assert_eq!(direct.remaining, &b""[..]);
    let clamped = Windows::convert(s, 2);
    assert!(clamped.output.is_empty());
    assert_eq!(clamped.remaining, s);
}

const CHINESE_MESSAGE: &str = "\
    子曰：學而時習之，不亦說乎？有朋自遠方來，不亦樂乎？人不知而不慍，不亦君子乎？\
    The quick brown fox jumps over the lazy dog. 0123456789.\
    天地玄黃，宇宙洪荒。日月盈昃，辰宿列張。寒來暑往，秋收冬藏。\
    Emoji outside the basic plane: 😀🚀🎉 and back to plain ASCII text.";

const ASCII_MESSAGE: &str = "\
    Lorem ipsum dolor sit amet, consectetur adipiscing elit, sed do eiusmod \
    tempor incididunt ut labore et dolore magna aliqua. Ut enim ad minim \
    veniam, quis nostrud exercitation ullamco laboris nisi ut aliquip ex ea \
    commodo consequat.";

fn drain_with<T: Utf8ToUtf16>(s: &str, cap: usize) -> Vec<u16> {
    convert_all::<T>(s.as_bytes(), cap).expect("capacity too small to make progress")
}

#[test]
fn chinese_windows_rust_equal() {
    assert!(drain_with::<Windows>(CHINESE_MESSAGE, 4096) == drain_with::<Rust>(CHINESE_MESSAGE, 4096));
}

#[test]
fn ascii_windows_rust_equal() {
    assert!(drain_with::<Windows>(ASCII_MESSAGE, 4096) == drain_with::<Rust>(ASCII_MESSAGE, 4096));
}

#[test]
fn matches_std_utf16_encoding() {
    let expected: Vec<u16> = CHINESE_MESSAGE.encode_utf16().collect();
    assert_eq!(drain_with::<Rust>(CHINESE_MESSAGE, 4096), expected);
    assert_eq!(drain_with::<Windows>(CHINESE_MESSAGE, 4096), expected);
}

#[test]
fn strategies_agree_for_every_small_capacity() {
    for cap in 4..32 {
        let a = drain_with::<Rust>(CHINESE_MESSAGE, cap);
        let b = drain_with::<Windows>(CHINESE_MESSAGE, cap);
        assert_eq!(a, b);
    }
}

#[test]
fn round_trip_decodes_to_original() {
    for text in [CHINESE_MESSAGE, ASCII_MESSAGE, "", "a", "é", "中", "😀"] {
        let units = drain_with::<Rust>(text, 4096);
        assert_eq!(String::from_utf16(&units).unwrap(), text);
        let units = drain_with::<Windows>(text, 7);
        assert_eq!(String::from_utf16(&units).unwrap(), text);
    }
}

#[test]
fn hello_with_capacity_two() {
    let first = Rust::cvt(b"Hello", 2);
    assert_eq!(first.output, vec!['H' as u16, 'e' as u16]);
    assert_eq!(first.remaining, &b"llo"[..]);
    let second = Rust::cvt(first.remaining, 4096);
    assert_eq!(second.output, vec!['l' as u16, 'l' as u16, 'o' as u16]);
    assert_eq!(second.remaining, &b""[..]);
}

#[test]
fn astral_character_with_capacity_one_makes_no_progress() {
    let input = "😀".as_bytes();
    let r = Rust::cvt(input, 1);
    assert!(r.output.is_empty());
    assert_eq!(r.remaining, input);
    let w = Windows::cvt(input, 1);
    assert!(w.output.is_empty());
    assert_eq!(w.remaining, input);
    assert_eq!(convert_all::<Rust>(input, 1), None);
    assert_eq!(convert_all::<Windows>(input, 1), None);
}

#[test]
fn capacity_four_always_progresses() {
    let mut cur: &[u8] = CHINESE_MESSAGE.as_bytes();
    while !cur.is_empty() {
        let r = Rust::cvt(cur, 4);
        assert!(r.remaining.len() < cur.len());
        cur = r.remaining;
    }
}

#[test]
fn consumed_bytes_match_remaining_suffix() {
    let input = CHINESE_MESSAGE.as_bytes();
    for cap in [1, 2, 3, 5, 8, 4096] {
        let r = Rust::cvt(input, cap);
        let consumed = input.len() - r.remaining.len();
        assert_eq!(&input[consumed..], r.remaining);
        let decoded: String = String::from_utf16(&r.output).unwrap();
        assert_eq!(decoded.len(), consumed);
        assert_eq!(&input[..consumed], decoded.as_bytes());
    }
}

#[test]
fn no_output_ends_with_high_surrogate() {
    for cap in 1..12 {
        let mut cur: &[u8] = CHINESE_MESSAGE.as_bytes();
        loop {
            let r = Rust::cvt(cur, cap);
            if let Some(last) = r.output.last() {
                assert!(!(0xD800..0xDC00).contains(last));
            }
            if r.remaining.len() >= cur.len() {
                break;
            }
            cur = r.remaining;
            if cur.is_empty() {
                break;
            }
        }
    }
}

#[test]
fn windows_strategy_clamps_to_character_boundary() {
    let s = "中a".as_bytes();
    assert_eq!(floor_char_boundary(s, 0), 0);
    assert_eq!(floor_char_boundary(s, 1), 0);
    assert_eq!(floor_char_boundary(s, 2), 0);
    assert_eq!(floor_char_boundary(s, 3), 3);
    assert_eq!(floor_char_boundary(s, 4), 4);
    let r = Windows::cvt(s, 3);
    assert_eq!(r.output, vec![0x4E2D]);
    assert_eq!(r.remaining, &b"a"[..]);
}

#[test]
fn scalar_decoding_at_offsets() {
    let s = "a中😀".as_bytes();
    assert_eq!(decode_scalar_at(s, 0), ('a' as u32, 1));
    assert_eq!(decode_scalar_at(s, 1), (0x4E2D, 3));
    assert_eq!(decode_scalar_at(s, 4), (0x1F600, 4));
}

#[test]
fn bulk_transcode_whole_slice() {
    let expected: Vec<u16> = CHINESE_MESSAGE.encode_utf16().collect();
    assert_eq!(bulk_transcode(CHINESE_MESSAGE.as_bytes()), expected);
}

#[test]
fn surrogate_pair_values() {
    let r = Rust::cvt("😀".as_bytes(), 2);
    assert_eq!(r.output, vec![0xD83D, 0xDE00]);
    assert_eq!(r.remaining, &b""[..]);
}
