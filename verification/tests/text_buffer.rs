use growable::capability::{Equality, Hashing, Order, Ordered};
use growable::error::CollectionError;
use growable::text::TextBuffer;

fn text(s: &str) -> TextBuffer {
    TextBuffer::from_str(s)
}

fn shown(t: &TextBuffer) -> String {
    String::from_utf8(t.as_bytes().to_vec()).expect("the buffer holds UTF-8")
}

#[test]
fn byte_length_counts_bytes_and_char_count_counts_characters() {
    assert_eq!(text("a").byte_length(), 1);
    assert_eq!(text("ñ").byte_length(), 2);
    assert_eq!(text("ñ").char_count(), 1);
    assert_eq!(text("Hola").byte_length(), 4);
    assert_eq!(text("Hölä").byte_length(), 6);
    assert_eq!(text("Hölä").char_count(), 4);
    assert_eq!(text("").char_count(), 0);
    assert_eq!(text("a€😀").byte_length(), 8);
    assert_eq!(text("a€😀").char_count(), 3);
}

#[test]
fn new_buffer_is_empty() {
    let t = TextBuffer::new();
    assert_eq!(t.byte_length(), 0);
    assert_eq!(t.capacity(), 0);
    assert!(t.is_empty());
    let c = TextBuffer::with_capacity(10);
    assert_eq!((c.byte_length(), c.capacity()), (0, 10));
}

#[test]
fn from_bytes_accepts_utf8() {
    let t = TextBuffer::from_bytes(vec![72, 111, 108, 97]).unwrap();
    assert_eq!(shown(&t), "Hola");
    let u = TextBuffer::from_bytes("ñ€😀".as_bytes().to_vec()).unwrap();
    assert_eq!(shown(&u), "ñ€😀");
    assert!(TextBuffer::from_bytes(Vec::new()).is_ok());
}

#[test]
fn from_bytes_rejects_a_lone_ff() {
    assert!(matches!(
        TextBuffer::from_bytes(vec![0xFF]),
        Err(CollectionError::Utf8ValidationError { offset: 0 })
    ));
}

#[test]
fn from_bytes_reports_where_the_text_stops_being_text() {
    assert!(matches!(
        TextBuffer::from_bytes(vec![72, 111, 255, 108, 97]),
        Err(CollectionError::Utf8ValidationError { offset: 2 })
    ));
    assert!(matches!(
        TextBuffer::from_bytes(vec![0, 159, 146, 150]),
        Err(CollectionError::Utf8ValidationError { offset: 1 })
    ));
    assert!(matches!(
        TextBuffer::from_bytes(vec![0xC3, 0xB1, 0xC3]),
        Err(CollectionError::Utf8ValidationError { offset: 2 })
    ));
}

#[test]
fn from_bytes_rejects_ill_formed_sequences() {
    let overlong = vec![0xC0, 0x80];
    let overlong3 = vec![0xE0, 0x80, 0x80];
    let surrogate = vec![0xED, 0xA0, 0x80];
    let too_large = vec![0xF4, 0x90, 0x80, 0x80];
    let stray = vec![0x80];
    let cut = vec![0xE2, 0x82];
    for bytes in [overlong, overlong3, surrogate, too_large, stray, cut] {
        assert!(std::str::from_utf8(&bytes).is_err());
        assert!(matches!(
            TextBuffer::from_bytes(bytes),
            Err(CollectionError::Utf8ValidationError { offset: 0 })
        ));
    }
}

#[test]
fn from_bytes_agrees_with_the_standard_check() {
    let samples: Vec<Vec<u8>> = vec![
        vec![0xED, 0x9F, 0xBF],
        vec![0xEE, 0x80, 0x80],
        vec![0xF4, 0x8F, 0xBF, 0xBF],
        vec![0xF0, 0x90, 0x80, 0x80],
        vec![0xF0, 0x8F, 0xBF, 0xBF],
        vec![0xDF, 0xBF],
        vec![0xC2, 0x80],
        vec![0xC1, 0xBF],
        vec![0x7F],
        vec![0xF5, 0x80, 0x80, 0x80],
        vec![0x61, 0xE2, 0x82, 0xAC, 0x62],
        vec![0x61, 0xE2, 0x82, 0x62],
    ];
    for bytes in samples {
        let expected = std::str::from_utf8(&bytes);
        match TextBuffer::from_bytes(bytes.clone()) {
            Ok(t) => {
                assert!(expected.is_ok());
                assert_eq!(t.as_bytes(), &bytes[..]);
            }
            Err(CollectionError::Utf8ValidationError { offset }) => {
                assert_eq!(expected.unwrap_err().valid_up_to(), offset);
            }
            Err(other) => panic!("unexpected error {:?}", other),
        }
    }
}

#[test]
fn from_bytes_lossy_replaces_the_invalid_byte() {
    let t = TextBuffer::from_bytes_lossy(&[0xFF]);
    assert_eq!(shown(&t), "\u{FFFD}");
    assert_eq!(t.as_bytes(), &[0xEF, 0xBF, 0xBD]);
    let u = TextBuffer::from_bytes_lossy(&[72, 111, 255, 108, 97]);
    assert_eq!(shown(&u), "Ho\u{FFFD}la");
}

#[test]
fn from_bytes_lossy_puts_one_mark_per_run() {
    let t = TextBuffer::from_bytes_lossy(&[0x61, 0xFF, 0xFE, 0x80, 0x62, 0xFF, 0x63]);
    assert_eq!(shown(&t), "a\u{FFFD}b\u{FFFD}c");
    let cut = TextBuffer::from_bytes_lossy(&[0xE2, 0x82]);
    assert_eq!(shown(&cut), "\u{FFFD}");
}

#[test]
fn from_bytes_lossy_keeps_valid_text() {
    let t = TextBuffer::from_bytes_lossy("Hölä €".as_bytes());
    assert_eq!(shown(&t), "Hölä €");
    assert_eq!(TextBuffer::from_bytes_lossy(&[]).byte_length(), 0);
}

#[test]
fn insert_str_at_the_end() {
    let mut t = text("Hola");
    assert_eq!(t.insert_str(4, " Mundo"), Ok(()));
    assert_eq!(shown(&t), "Hola Mundo");
}

#[test]
fn insert_inside_a_character_is_refused() {
    let mut t = text("ñola");
    assert_eq!(t.insert(1, 'x'), Err(CollectionError::InvalidBoundary));
    assert_eq!(t.insert_str(1, "x"), Err(CollectionError::InvalidBoundary));
    assert_eq!(shown(&t), "ñola");
    assert_eq!(t.insert(2, 'x'), Ok(()));
    assert_eq!(shown(&t), "ñxola");
}

#[test]
fn insert_past_the_end_is_out_of_bounds() {
    let mut t = text("Hola");
    assert_eq!(t.insert(5, 'x'), Err(CollectionError::IndexOutOfBounds));
    assert_eq!(t.insert_str(9, "x"), Err(CollectionError::IndexOutOfBounds));
    assert_eq!(shown(&t), "Hola");
}

#[test]
fn insert_a_character_in_the_middle() {
    let mut t = text("Hola Rust");
    assert_eq!(t.insert(4, 'a'), Ok(()));
    assert_eq!(shown(&t), "Holaa Rust");
    assert_eq!(t.insert(6, 'x'), Ok(()));
    assert_eq!(shown(&t), "Holaa xRust");
    assert_eq!(t.insert(0, 'ñ'), Ok(()));
    assert_eq!(shown(&t), "ñHolaa xRust");
}

#[test]
fn push_str_and_push_char() {
    let mut t = text("Hola");
    t.push_str(" Mundo");
    assert_eq!(shown(&t), "Hola Mundo");
    let mut u = text("Hol");
    u.push_char('a');
    u.push_char('!');
    assert_eq!(shown(&u), "Hola!");
    u.push_char('ñ');
    u.push_char('€');
    u.push_char('😀');
    assert_eq!(shown(&u), "Hola!ñ€😀");
    assert_eq!(u.char_count(), 8);
}

#[test]
fn appending_grows_by_the_growth_policy() {
    let mut t = TextBuffer::with_capacity(10);
    t.push_str("Hola");
    assert_eq!((t.byte_length(), t.capacity()), (4, 10));
    t.push_str(" Mundo!");
    assert_eq!((t.byte_length(), t.capacity()), (11, 20));
    let mut u = TextBuffer::new();
    u.push_char('a');
    assert_eq!(u.capacity(), 4);
    assert!(u.byte_length() <= u.capacity());
}

#[test]
fn slice_between_boundaries() {
    let t = text("Hola Mundo");
    assert_eq!(shown(&t.slice(0..4).unwrap()), "Hola");
    assert_eq!(shown(&t.slice(5..10).unwrap()), "Mundo");
    assert_eq!(shown(&t.slice(3..3).unwrap()), "");
}

#[test]
fn slice_across_a_character_is_refused() {
    let t = text("Hölä");
    assert!(matches!(
        t.slice(0..2),
        Err(CollectionError::InvalidBoundary)
    ));
    assert!(matches!(
        t.slice(2..3),
        Err(CollectionError::InvalidBoundary)
    ));
    assert_eq!(shown(&t.slice(0..3).unwrap()), "Hö");
    assert!(matches!(
        t.slice(0..7),
        Err(CollectionError::IndexOutOfBounds)
    ));
    assert!(matches!(
        t.slice(core::ops::Range { start: 3, end: 1 }),
        Err(CollectionError::IndexOutOfBounds)
    ));
}

#[test]
fn is_char_boundary_by_offset() {
    let t = text("Hölä");
    assert!(t.is_char_boundary(0));
    assert!(t.is_char_boundary(1));
    assert!(!t.is_char_boundary(2));
    assert!(t.is_char_boundary(3));
    assert!(t.is_char_boundary(6));
    assert!(!t.is_char_boundary(7));
}

#[test]
fn remove_takes_one_whole_character() {
    let mut t = text("Hola");
    assert_eq!(t.remove(1), Ok('o'));
    assert_eq!(shown(&t), "Hla");
    let mut u = text("añb€");
    assert_eq!(u.remove(1), Ok('ñ'));
    assert_eq!(shown(&u), "ab€");
    assert_eq!(u.remove(2), Ok('€'));
    assert_eq!(shown(&u), "ab");
    let mut v = text("😀");
    assert_eq!(v.remove(0), Ok('😀'));
    assert_eq!(v.byte_length(), 0);
}

#[test]
fn remove_at_a_bad_offset_is_refused() {
    let mut t = text("ñola");
    assert_eq!(t.remove(1), Err(CollectionError::InvalidBoundary));
    assert_eq!(t.remove(5), Err(CollectionError::IndexOutOfBounds));
    assert_eq!(t.remove(9), Err(CollectionError::IndexOutOfBounds));
    assert_eq!(shown(&t), "ñola");
}

#[test]
fn pop_takes_the_last_character() {
    let mut t = text("Hola!");
    assert_eq!(t.pop(), Some('!'));
    assert_eq!(shown(&t), "Hola");
    let mut u = text("a€");
    assert_eq!(u.pop(), Some('€'));
    assert_eq!(u.pop(), Some('a'));
    assert_eq!(u.pop(), None);
    let mut v = text("x😀");
    assert_eq!(v.pop(), Some('😀'));
    assert_eq!(shown(&v), "x");
}

#[test]
fn drain_removes_and_returns_a_range() {
    let mut t = text("Hola Mundo");
    let drained = t.drain(5..10).unwrap();
    assert_eq!(shown(&drained), "Mundo");
    assert_eq!(shown(&t), "Hola ");
    let mut u = text("Hölä");
    assert!(matches!(
        u.drain(1..2),
        Err(CollectionError::InvalidBoundary)
    ));
    assert!(matches!(
        u.drain(1..9),
        Err(CollectionError::IndexOutOfBounds)
    ));
    assert_eq!(shown(&u), "Hölä");
    assert_eq!(shown(&u.drain(1..3).unwrap()), "ö");
    assert_eq!(shown(&u), "Hlä");
}

#[test]
fn truncate_at_a_boundary() {
    let mut t = text("Hola Mundo");
    let capacity = t.capacity();
    assert_eq!(t.truncate(4), Ok(()));
    assert_eq!(shown(&t), "Hola");
    assert_eq!(t.capacity(), capacity);
    let mut u = text("Hö");
    assert_eq!(u.truncate(2), Err(CollectionError::InvalidBoundary));
    assert_eq!(u.truncate(4), Err(CollectionError::IndexOutOfBounds));
    assert_eq!(shown(&u), "Hö");
    assert_eq!(u.truncate(3), Ok(()));
    assert_eq!(shown(&u), "Hö");
}

#[test]
fn replace_range_swaps_text() {
    let mut t = text("Hola Mundo");
    assert_eq!(t.replace_range(5..10, "Rust"), Ok(()));
    assert_eq!(shown(&t), "Hola Rust");
    assert_eq!(t.replace_range(0..0, "¡"), Ok(()));
    assert_eq!(shown(&t), "¡Hola Rust");
    assert_eq!(
        t.replace_range(1..3, "x"),
        Err(CollectionError::InvalidBoundary)
    );
    assert_eq!(
        t.replace_range(5..99, "x"),
        Err(CollectionError::IndexOutOfBounds)
    );
    assert_eq!(shown(&t), "¡Hola Rust");
    assert_eq!(t.replace_range(0..2, ""), Ok(()));
    assert_eq!(shown(&t), "Hola Rust");
}

#[test]
fn clear_empties_and_keeps_the_capacity() {
    let mut t = text("Hola Mundo");
    t.clear();
    assert_eq!(t.byte_length(), 0);
    assert_eq!(t.capacity(), 10);
}

#[test]
fn find_gives_the_first_byte_offset() {
    let t = text("Hola Mundo Hola");
    assert_eq!(t.find(&text("Mundo")), Some(5));
    assert_eq!(t.find(&text("Hola")), Some(0));
    assert_eq!(t.find(&text("la")), Some(2));
    assert_eq!(t.find(&text("Rust")), None);
    assert_eq!(t.find(&text("")), Some(0));
    assert_eq!(t.find(&text("Hola Mundo Hola y mas")), None);
    assert_eq!(text("añb€c").find(&text("€")), Some(4));
}

#[test]
fn contains_starts_with_ends_with() {
    let t = text("Hola Mundo");
    assert!(t.contains(&text("la")));
    assert!(!t.contains(&text("xyz")));
    assert!(t.starts_with(&text("Hola")));
    assert!(!t.starts_with(&text("Mundo")));
    assert!(t.ends_with(&text("Mundo")));
    assert!(!t.ends_with(&text("Hola")));
    assert!(t.starts_with(&text("")));
    assert!(t.ends_with(&text("")));
    assert!(!t.starts_with(&text("Hola Mundo y mas")));
}

#[test]
fn parse_reads_decimal_integers() {
    assert_eq!(text("42").parse_i64(), Ok(42));
    assert_eq!(text("-17").parse_i64(), Ok(-17));
    assert_eq!(text("+5").parse_i64(), Ok(5));
    assert_eq!(text("0").parse_i64(), Ok(0));
    assert_eq!(text("-0").parse_i64(), Ok(0));
    assert_eq!(text("007").parse_i64(), Ok(7));
}

#[test]
fn parse_rejects_what_is_not_a_number() {
    for bad in ["", "+", "-", "4x2", " 42", "42 ", "4 2", "--1", "1-", "٤٢", "12.5"] {
        assert_eq!(text(bad).parse_i64(), Err(CollectionError::ParseError));
        assert!(bad.parse::<i64>().is_err());
    }
}

#[test]
fn parse_stops_at_the_ends_of_the_range() {
    assert_eq!(text("9223372036854775807").parse_i64(), Ok(i64::MAX));
    assert_eq!(text("-9223372036854775808").parse_i64(), Ok(i64::MIN));
    assert_eq!(
        text("9223372036854775808").parse_i64(),
        Err(CollectionError::ParseError)
    );
    assert_eq!(
        text("-9223372036854775809").parse_i64(),
        Err(CollectionError::ParseError)
    );
    assert_eq!(
        text("99999999999999999999999999999999999999999999").parse_i64(),
        Err(CollectionError::ParseError)
    );
}

#[test]
fn parse_does_not_change_the_buffer() {
    let t = text("42");
    let _ = t.parse_i64();
    assert_eq!(shown(&t), "42");
}

#[test]
fn ascii_case_conversion() {
    assert_eq!(shown(&text("hola mundo").to_ascii_uppercase()), "HOLA MUNDO");
    assert_eq!(shown(&text("HOLA MUNDO").to_ascii_lowercase()), "hola mundo");
    assert_eq!(shown(&text("añb 1z{").to_ascii_uppercase()), "AñB 1Z{");
    assert_eq!(shown(&text("AÑB @Z[").to_ascii_lowercase()), "aÑb @z[");
}

#[test]
fn equality_compares_bytes() {
    assert!(text("Hola").equals(&text("Hola")));
    assert!(!text("Hola").equals(&text("Mundo")));
    assert!(!text("Hola").equals(&text("Hol")));
    let mut roomy = TextBuffer::with_capacity(64);
    roomy.push_str("Hola");
    assert!(roomy.equals(&text("Hola")));
}

#[test]
fn hash_is_fnv1a() {
    assert_eq!(text("").hash(), 0xcbf29ce484222325);
    assert_eq!(text("a").hash(), 0xaf63dc4c8601ec8c);
    assert_eq!(text("foobar").hash(), 0x85944171f73967e8);
    assert_eq!(text("Hola").hash(), text("Hola").hash());
}

#[test]
fn trim_removes_white_space_at_the_ends() {
    assert_eq!(shown(&text("   Hola Mundo   ").trim()), "Hola Mundo");
    assert_eq!(shown(&text("   Hola Mundo   ").trim_start()), "Hola Mundo   ");
    assert_eq!(shown(&text("   Hola Mundo   ").trim_end()), "   Hola Mundo");
    assert_eq!(shown(&text("\t\n Hola\r\n").trim()), "Hola");
    assert_eq!(shown(&text("Hola").trim()), "Hola");
    assert_eq!(shown(&text("   ").trim()), "");
    assert_eq!(shown(&text("").trim()), "");
}

#[test]
fn trim_knows_white_space_outside_ascii() {
    let wide = "\u{00A0}\u{2003}\u{3000}ñandú\u{2028}\u{0085}";
    assert_eq!(shown(&text(wide).trim()), "ñandú");
    assert_eq!(shown(&text(wide).trim()), wide.trim());
    assert_eq!(shown(&text("\u{200B}a\u{200B}").trim()), "\u{200B}a\u{200B}");
    assert_eq!(shown(&text(" é ").trim_end()), " é");
}

#[test]
fn split_cuts_at_every_delimiter() {
    let parts = text("Rust,Python,JavaScript").split(',');
    let shown_parts: Vec<String> = parts.as_slice().iter().map(shown).collect();
    assert_eq!(shown_parts, vec!["Rust", "Python", "JavaScript"]);
}

#[test]
fn split_keeps_empty_pieces() {
    let cases = ["", ",", "a,", ",a", "a,,b", "sin comas", "ñ€ñ€", "€"];
    for case in cases {
        for delimiter in [',', '€'] {
            let parts = text(case).split(delimiter);
            let got: Vec<String> = parts.as_slice().iter().map(shown).collect();
            let expected: Vec<String> = case.split(delimiter).map(String::from).collect();
            assert_eq!(got, expected);
        }
    }
    assert_eq!(text("a,").split(',').len(), 2);
    assert_eq!(text("").split(',').len(), 1);
}

#[test]
fn to_chars_decodes_every_character() {
    assert_eq!(text("Hölä").to_chars(), vec!['H', 'ö', 'l', 'ä']);
    assert_eq!(text("a€😀").to_chars(), vec!['a', '€', '😀']);
    assert_eq!(text("").to_chars(), Vec::<char>::new());
    let all = "\u{0}\u{7f}\u{80}\u{7ff}\u{800}\u{d7ff}\u{e000}\u{ffff}\u{10000}\u{10ffff}";
    assert_eq!(text(all).to_chars(), all.chars().collect::<Vec<char>>());
}

#[test]
fn push_char_encodes_as_the_standard_does() {
    let samples = ['\u{0}', 'a', '\u{7f}', '\u{80}', 'ñ', '\u{7ff}', '\u{800}', '€', '\u{d7ff}',
        '\u{e000}', '\u{ffff}', '\u{10000}', '😀', '\u{10ffff}'];
    let mut t = TextBuffer::new();
    let mut expected = String::new();
    for c in samples {
        t.push_char(c);
        expected.push(c);
    }
    assert_eq!(t.as_bytes(), expected.as_bytes());
}

#[test]
fn texts_are_ordered_as_in_a_dictionary() {
    assert_eq!(text("Hola").compare(&text("Hola")), Order::Equal);
    assert_eq!(text("Hola").compare(&text("Mundo")), Order::Less);
    assert_eq!(text("Mundo").compare(&text("Hola")), Order::Greater);
    assert_eq!(text("Hol").compare(&text("Hola")), Order::Less);
    assert_eq!(text("").compare(&text("a")), Order::Less);
    assert_eq!(text("z").compare(&text("ñ")), Order::Less);
}

#[test]
fn clone_copies_text_and_capacity() {
    let mut a = TextBuffer::with_capacity(32);
    a.push_str("Hola");
    let mut b = a.clone();
    b.push_str(" Mundo");
    assert_eq!(shown(&a), "Hola");
    assert_eq!(shown(&b), "Hola Mundo");
    assert_eq!(a.capacity(), 32);
    assert_eq!(b.capacity(), 32);
}

#[test]
fn insert_and_replace_grow_by_the_growth_policy() {
    let mut t = text("Hola");
    assert_eq!(t.capacity(), 4);
    assert_eq!(t.insert_str(4, " Mundo"), Ok(()));
    assert_eq!(t.capacity(), 10);
    assert_eq!(t.insert(0, '¡'), Ok(()));
    assert_eq!((t.byte_length(), t.capacity()), (12, 20));
    assert_eq!(t.replace_range(0..2, "Buenas, "), Ok(()));
    assert_eq!(shown(&t), "Buenas, Hola Mundo");
    assert_eq!((t.byte_length(), t.capacity()), (18, 20));
}

#[test]
fn upper_and_lower_case_in_any_script() {
    assert_eq!(shown(&text("hola mundo").to_uppercase()), "HOLA MUNDO");
    assert_eq!(shown(&text("HOLA MUNDO").to_lowercase()), "hola mundo");
    assert_eq!(shown(&text("ñandú").to_uppercase()), "ÑANDÚ");
    assert_eq!(shown(&text("ÑANDÚ").to_lowercase()), "ñandú");
    assert_eq!(shown(&text("straße").to_uppercase()), "STRASSE");
    assert_eq!(shown(&text("ﬁn").to_uppercase()), "FIN");
    assert_eq!(shown(&text("İ").to_lowercase()), "i\u{307}");
    assert_eq!(shown(&text("42 €").to_uppercase()), "42 €");
    assert_eq!(shown(&text("").to_uppercase()), "");
}

#[test]
fn upper_case_agrees_with_the_standard_mapping() {
    for sample in ["Hölä Mundo", "ǆ ǅ Ǆ", "ΐ", "ŉ", "grüße", "κόσμε"] {
        assert_eq!(shown(&text(sample).to_uppercase()), sample.to_uppercase());
    }
    for sample in ["HÖLÄ MUNDO", "Ǆ", "ÀÉÎ", "КИРИЛЛИЦА"] {
        assert_eq!(shown(&text(sample).to_lowercase()), sample.to_lowercase());
    }
}

#[test]
fn buffers_from_characters() {
    assert_eq!(shown(&TextBuffer::from_chars(&['H', 'ö', 'l', 'ä'])), "Hölä");
    assert_eq!(TextBuffer::from_chars(&[]).byte_length(), 0);
    let runs = vec![vec!['S', 'S'], vec![], vec!['€'], vec!['a', 'ñ', '😀']];
    assert_eq!(shown(&TextBuffer::from_char_runs(&runs)), "SS€añ😀");
    assert_eq!(TextBuffer::from_char_runs(&Vec::new()).byte_length(), 0);
}

#[test]
fn parse_i32_has_the_narrower_range() {
    assert_eq!(text("42").parse_i32(), Ok(42));
    assert_eq!(text("-2147483648").parse_i32(), Ok(i32::MIN));
    assert_eq!(text("2147483647").parse_i32(), Ok(i32::MAX));
    assert_eq!(text("2147483648").parse_i32(), Err(CollectionError::ParseError));
    assert_eq!(text("-2147483649").parse_i32(), Err(CollectionError::ParseError));
    assert_eq!(text("abc").parse_i32(), Err(CollectionError::ParseError));
    assert_eq!(text("42").parse_i32().map(|n| n + 10), Ok(52));
}
