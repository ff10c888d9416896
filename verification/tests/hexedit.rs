use filework::error::ErrorCode;
use filework::hexedit::find::CHUNK;
use filework::hexedit::{find_backward, find_forward, parse_paste, render, resolve, Format, Kind, Needle, Width};

const BYTES: &[u8] = &[0x50, 0x4b, 0x03, 0x04];

#[test]
fn each_format_is_the_shape_the_place_it_is_going_wants() {
    assert_eq!(render(BYTES, Format::HexString), "504b0304");
    assert_eq!(render(BYTES, Format::HexSpaced), "50 4B 03 04");
    assert_eq!(render(BYTES, Format::CArray), "{ 0x50, 0x4b, 0x03, 0x04 }");
    assert_eq!(render(BYTES, Format::RustArray), "[0x50, 0x4b, 0x03, 0x04]");
    assert_eq!(render(BYTES, Format::PythonBytes), r#"b"\x50\x4b\x03\x04""#);
    assert_eq!(render(BYTES, Format::Base64), "UEsDBA==");
    assert_eq!(render(BYTES, Format::Raw).len(), 4);
}

#[test]
fn base64_matches_what_every_other_tool_prints() {
    assert_eq!(render(b"", Format::Base64), "");
    assert_eq!(render(b"f", Format::Base64), "Zg==");
    assert_eq!(render(b"fo", Format::Base64), "Zm8=");
    assert_eq!(render(b"foo", Format::Base64), "Zm9v");
    assert_eq!(render(b"foob", Format::Base64), "Zm9vYg==");
    assert_eq!(render(b"fooba", Format::Base64), "Zm9vYmE=");
    assert_eq!(render(b"foobar", Format::Base64), "Zm9vYmFy");
}

#[test]
fn everything_this_module_writes_pastes_back_as_the_bytes_it_came_from() {
    for format in Format::all() {
        if format == Format::Raw {
            continue;
        }
        let text = render(BYTES, format);
        let back = parse_paste(&text).unwrap();
        assert_eq!(back.bytes, BYTES, "{format:?} did not survive: {text}");
    }
}

#[test]
fn a_long_array_wraps_and_still_reads_back() {
    let bytes: Vec<u8> = (0..40u8).collect();
    let text = render(&bytes, Format::RustArray);
    assert!(text.contains('\n'), "40 bytes on one line is not readable");
    assert_eq!(parse_paste(&text).unwrap().bytes, bytes);
}

#[test]
fn hex_wins_over_base64_when_a_string_could_be_either() {
    let got = parse_paste("deadbeef").unwrap();
    assert_eq!(got.bytes, vec![0xde, 0xad, 0xbe, 0xef]);
    assert_eq!(got.read_as, "hex.paste.hex");
}

#[test]
fn real_base64_is_recognised() {
    let got = parse_paste("Zm9vYmFy").unwrap();
    assert_eq!(got.bytes, b"foobar");
    assert_eq!(got.read_as, "hex.paste.base64");
}

#[test]
fn anything_else_is_taken_as_text_rather_than_refused() {
    let got = parse_paste("hello world").unwrap();
    assert_eq!(got.bytes, b"hello world");
    assert_eq!(got.read_as, "hex.paste.text");
    assert_eq!(parse_paste("abc").unwrap().read_as, "hex.paste.text");
}

#[test]
fn an_empty_paste_is_the_one_thing_refused() {
    assert!(parse_paste("").is_err());
    assert!(parse_paste("   \n ").is_err());
}

#[test]
fn every_format_has_a_label_to_show_and_they_are_all_different() {
    let keys: Vec<&str> = Format::all().iter().map(|f| f.label_key()).collect();
    let mut unique = keys.clone();
    unique.sort_unstable();
    unique.dedup();
    assert_eq!(keys.len(), unique.len(), "two formats share a menu entry");
}

#[test]
fn a_base64_round_trip_holds_for_every_length_remainder() {
    for n in 0..10usize {
        let bytes: Vec<u8> = (0..n).map(|i| (i * 37 + 11) as u8).collect();
        let text = render(&bytes, Format::Base64);
        assert_eq!(text.len() % 4, 0);
        if n > 0 {
            let got = parse_paste(&text).unwrap();
            if got.read_as == "hex.paste.base64" {
                assert_eq!(got.bytes, bytes);
            }
        }
    }
}

#[test]
fn a_python_literal_with_text_in_it_reads_back() {
    let got = parse_paste(r#"b"\x41\x42""#).unwrap();
    assert_eq!(got.bytes, b"AB");
}

const LEN: u64 = 0x1000;
const CURSOR: u64 = 0x800;

fn at(text: &str) -> u64 {
    resolve(text, CURSOR, LEN).unwrap()
}

#[test]
fn a_bare_number_is_hexadecimal_because_that_is_what_is_on_screen() {
    assert_eq!(at("1f4"), 0x1f4);
    assert_eq!(at("1F4"), 0x1f4);
    assert_eq!(at("0x1f4"), 0x1f4);
    assert_eq!(at("$1f4"), 0x1f4);
}

#[test]
fn decimal_has_to_be_asked_for_and_there_are_two_ways() {
    assert_eq!(at("500."), 500);
    assert_eq!(at("0n500"), 500);
    assert_ne!(at("500"), 500, "a bare number silently changed meaning");
    assert_eq!(at("500"), 0x500);
}

#[test]
fn a_sign_makes_it_relative_to_the_cursor() {
    assert_eq!(at("+0x200"), CURSOR + 0x200);
    assert_eq!(at("-512."), CURSOR - 512);
    assert_eq!(at("+10"), CURSOR + 0x10);
}

#[test]
fn end_counts_back_from_the_end_of_the_file() {
    assert_eq!(at("end"), LEN);
    assert_eq!(at("end-4"), LEN - 4);
    assert_eq!(at("end-0x10"), LEN - 0x10);
    assert_eq!(at("end-16."), LEN - 16);
}

#[test]
fn spaces_and_underscores_are_ignored_so_a_pasted_offset_works() {
    assert_eq!(at(" 0x 1f4 "), 0x1f4);
    assert_eq!(at("end - 4"), LEN - 4);
    assert_eq!(at("1_f4"), 0x1f4);
}

#[test]
fn past_the_end_is_the_end_rather_than_an_error() {
    assert_eq!(at("0xffffff"), LEN);
    assert_eq!(at("+0xffffff"), LEN);
}

#[test]
fn before_the_start_is_refused_rather_than_wrapped() {
    let err = resolve("-0x900", CURSOR, LEN).unwrap_err();
    assert_eq!(err.code(), ErrorCode::InvalidPath);
    assert!(err.context().contains("before the start"), "{err:?}");
}

#[test]
fn nonsense_is_refused_rather_than_read_as_zero() {
    for text in ["", "  ", "zz", "0x", "end-", "+", "-", "12g4", "0n1f"] {
        assert!(resolve(text, CURSOR, LEN).is_err(), "{text:?} was accepted");
    }
}

#[test]
fn an_offset_too_big_to_be_a_number_is_refused_and_one_below_the_start_too() {
    assert_eq!(
        resolve("0xffffffffffffffffff", CURSOR, LEN).unwrap_err().code(),
        ErrorCode::InvalidPath
    );
    assert_eq!(resolve("end-0x2000", CURSOR, LEN).unwrap_err().code(), ErrorCode::InvalidPath);
}

fn hex(text: &str) -> Needle {
    Needle::compile(text, Kind::Hex).unwrap()
}

#[test]
fn hex_is_read_however_it_is_spaced() {
    let want = hex("50 4B 03 04");
    assert_eq!(want.literal(), Some(vec![0x50, 0x4b, 0x03, 0x04]));
    assert_eq!(hex("504B0304"), want);
    assert_eq!(hex("50,4b,03,04"), want);
    assert_eq!(hex("\\x50\\x4B\\x03\\x04"), want);
}

#[test]
fn a_wildcard_byte_matches_anything_but_still_takes_a_place() {
    let want = hex("48 8B ?? ?? 89");
    assert_eq!(want.len(), 5);
    assert_eq!(want.literal(), None, "a hole is not a byte to write");

    let mut data: Vec<u8> = vec![0x00, 0x48, 0x8b, 0xff, 0x01, 0x89, 0x00];
    assert_eq!(find_forward(&mut data, &want, 0).unwrap(), Some(1));
}

#[test]
fn bad_hex_is_refused_rather_than_searched_for_as_something_else() {
    for text in ["50 4", "5", "zz", "", "4? 8B"] {
        assert!(Needle::compile(text, Kind::Hex).is_err(), "{text:?} compiled into a needle");
    }
}

#[test]
fn text_compiles_in_each_encoding() {
    assert_eq!(Needle::compile("Hi", Kind::Utf8).unwrap().literal(), Some(vec![b'H', b'i']));
    assert_eq!(
        Needle::compile("Hi", Kind::Utf16Le).unwrap().literal(),
        Some(vec![b'H', 0, b'i', 0])
    );
    assert_eq!(
        Needle::compile("Hi", Kind::Utf16Be).unwrap().literal(),
        Some(vec![0, b'H', 0, b'i'])
    );
    assert_eq!(Needle::compile("\u{e9}", Kind::Latin1).unwrap().literal(), Some(vec![0xe9]));
    assert!(Needle::compile("\u{4e2d}", Kind::Latin1).is_err());
}

#[test]
fn integers_are_laid_out_in_the_width_and_order_asked_for() {
    let le = Needle::compile("1000", Kind::Integer { width: Width::U32, little_endian: true }).unwrap();
    assert_eq!(le.literal(), Some(vec![0xe8, 0x03, 0x00, 0x00]));

    let be = Needle::compile("0x3e8", Kind::Integer { width: Width::U32, little_endian: false }).unwrap();
    assert_eq!(be.literal(), Some(vec![0x00, 0x00, 0x03, 0xe8]));

    assert!(Needle::compile("70000", Kind::Integer { width: Width::U16, little_endian: true }).is_err());
}

#[test]
fn forward_and_backward_find_every_occurrence_in_order() {
    let mut data: Vec<u8> = b"abXYabXYab".to_vec();
    let want = Needle::compile("ab", Kind::Utf8).unwrap();

    assert_eq!(find_forward(&mut data, &want, 0).unwrap(), Some(0));
    assert_eq!(find_forward(&mut data, &want, 1).unwrap(), Some(4));
    assert_eq!(find_forward(&mut data, &want, 5).unwrap(), Some(8));
    assert_eq!(find_forward(&mut data, &want, 9).unwrap(), None);

    assert_eq!(find_backward(&mut data, &want, 10).unwrap(), Some(8));
    assert_eq!(find_backward(&mut data, &want, 8).unwrap(), Some(4));
    assert_eq!(find_backward(&mut data, &want, 4).unwrap(), Some(0));
    assert_eq!(find_backward(&mut data, &want, 0).unwrap(), None);
}

#[test]
fn a_match_lying_across_a_chunk_boundary_is_still_found() {
    let mut bytes = vec![0u8; CHUNK * 2];
    let at = CHUNK - 2;
    bytes[at..at + 4].copy_from_slice(&[0xde, 0xad, 0xbe, 0xef]);
    let mut data: Vec<u8> = bytes;
    let want = hex("DE AD BE EF");
    assert_eq!(find_forward(&mut data, &want, 0).unwrap(), Some(at as u64));
    assert_eq!(find_backward(&mut data, &want, CHUNK as u64 * 2).unwrap(), Some(at as u64));
}

#[test]
fn a_needle_longer_than_the_file_finds_nothing_rather_than_panicking() {
    let mut data: Vec<u8> = b"ab".to_vec();
    let want = Needle::compile("abcdef", Kind::Utf8).unwrap();
    assert_eq!(find_forward(&mut data, &want, 0).unwrap(), None);
    assert_eq!(find_backward(&mut data, &want, 2).unwrap(), None);
}

#[test]
fn a_wildcard_needle_finds_the_last_match_going_backward() {
    let mut data: Vec<u8> = vec![1, 9, 2, 1, 8, 2, 0];
    let want = hex("01 ?? 02");
    assert_eq!(find_backward(&mut data, &want, 7).unwrap(), Some(3));
    assert_eq!(find_forward(&mut data, &want, 1).unwrap(), Some(3));
}
