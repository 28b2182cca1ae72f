use matterhorn::decimal::{integer_to_text, natural_to_text};
use matterhorn::text::{encoded_width, find_after, find_visible, occurs, skip_line, slice};
use matterhorn::object::bind;
use matterhorn::{CanonicalValue, Member, Number};

#[test]
fn first_visible_character() {
    assert_eq!(find_visible(""), None);
    assert_eq!(find_visible("   \n\t\r\n"), None);
    assert_eq!(find_visible("a"), Some(0));
    assert_eq!(find_visible("  a "), Some(2));
    assert_eq!(find_visible("\n\n---"), Some(2));
    assert_eq!(find_visible("\u{a0}x"), Some(2));
    assert_eq!(find_visible("\u{2003}\u{3000}x"), Some(6));
    assert_eq!(find_visible(" é"), Some(1));
    assert_eq!(find_visible("\u{1f600}"), Some(0));
    assert_eq!(find_visible("\u{a0}\u{1680}\u{2028}\u{205f}\u{1f600}"), Some(11));
}

#[test]
fn first_visible_character_is_where_the_text_finds_it() {
    let low = 0..0x3100u32;
    let high = (0x3100..=0x10ffffu32).step_by(97);
    for code in low.chain(high) {
        if let Some(c) = char::from_u32(code) {
            let text = format!(" {c}x");
            let expected = text.find(|other: char| !other.is_whitespace());
            assert_eq!(find_visible(&text), expected, "{code:#x}");
        }
    }
}

#[test]
fn widths_of_encoded_characters() {
    let low = 0..0x3100u32;
    let high = (0x3100..=0x10ffffu32).step_by(97);
    for code in low.chain(high) {
        if let Some(c) = char::from_u32(code) {
            let mut buffer = [0u8; 4];
            let encoded = c.encode_utf8(&mut buffer);
            assert_eq!(encoded_width(encoded.as_bytes()[0]), c.len_utf8(), "{code:#x}");
        }
    }
}

#[test]
fn occurrences_of_a_pattern() {
    let text = b"ab---cd----";
    assert!(occurs(text, b"---", 2));
    assert!(!occurs(text, b"---", 1));
    assert!(!occurs(text, b"---", 3));
    assert!(occurs(text, b"---", 7));
    assert!(occurs(text, b"---", 8));
    assert!(!occurs(text, b"---", 9));
    assert!(!occurs(text, b"---", 11));
    assert!(!occurs(text, b"---", 12));
    assert!(!occurs(text, b"---", usize::MAX));
    assert!(occurs(text, b"", 0));
    assert!(occurs(text, b"", 11));
    assert!(!occurs(text, b"", 12));
    assert!(occurs(b"", b"", 0));
    assert!(!occurs(b"ab", b"abc", 0));
}

#[test]
fn next_occurrence_of_a_pattern() {
    let text = b"---a---b----";
    assert_eq!(find_after(text, b"---", 0), Some(4));
    assert_eq!(find_after(text, b"---", 3), Some(4));
    assert_eq!(find_after(text, b"---", 4), Some(8));
    assert_eq!(find_after(text, b"---", 8), Some(9));
    assert_eq!(find_after(text, b"---", 9), None);
    assert_eq!(find_after(text, b"---", 12), None);
    assert_eq!(find_after(text, b"---", usize::MAX), None);
    assert_eq!(find_after(text, b"}", 0), None);
    assert_eq!(find_after(b"{}}", b"}", 0), Some(1));
    assert_eq!(find_after(b"{}}", b"}", 1), Some(2));
    assert_eq!(find_after(b"ab", b"", 0), Some(1));
    assert_eq!(find_after(b"ab", b"", 1), Some(2));
    assert_eq!(find_after(b"ab", b"", 2), None);
}

#[test]
fn start_of_the_next_line() {
    let text = b"ab\ncd\n\nef";
    assert_eq!(skip_line(text, 0), 3);
    assert_eq!(skip_line(text, 2), 3);
    assert_eq!(skip_line(text, 3), 6);
    assert_eq!(skip_line(text, 5), 6);
    assert_eq!(skip_line(text, 6), 7);
    assert_eq!(skip_line(text, 7), 9);
    assert_eq!(skip_line(text, 9), 9);
    assert_eq!(skip_line(text, 10), 9);
    assert_eq!(skip_line(text, usize::MAX), 9);
    assert_eq!(skip_line(b"", 0), 0);
    assert_eq!(skip_line(b"\n", 0), 1);
}

#[test]
fn parts_of_a_text() {
    let text = "aé—b";
    assert_eq!(slice(text, 0, 0), "");
    assert_eq!(slice(text, 0, 1), "a");
    assert_eq!(slice(text, 1, 3), "é");
    assert_eq!(slice(text, 3, 6), "—");
    assert_eq!(slice(text, 1, 7), "é—b");
    assert_eq!(slice(text, 7, 7), "");
    assert_eq!(slice(text, 0, 7), text);
}

#[test]
fn integers_in_decimal() {
    for value in [
        0i64,
        1,
        9,
        10,
        11,
        99,
        100,
        12345,
        -1,
        -9,
        -10,
        -12345,
        i64::MAX,
        i64::MIN,
        i64::MIN + 1,
    ] {
        assert_eq!(integer_to_text(value), value.to_string());
    }
    for value in [0u64, 7, 10, 1000, u64::MAX] {
        assert_eq!(natural_to_text(value), value.to_string());
    }
    assert_eq!(integer_to_text(-12), "-12");
    assert_eq!(natural_to_text(120), "120");
}

#[test]
fn numbers_from_integers_and_bits() {
    assert_eq!(Number::from_integer(0), Number::PosInt(0));
    assert_eq!(Number::from_integer(5), Number::PosInt(5));
    assert_eq!(Number::from_integer(-5), Number::NegInt(-5));
    assert_eq!(Number::from_integer(i64::MIN), Number::NegInt(i64::MIN));
    assert_eq!(Number::from_integer(i64::MAX), Number::PosInt(i64::MAX as u64));
    assert_eq!(
        Number::from_float_bits(2.5f64.to_bits()),
        Some(Number::Float(2.5f64.to_bits()))
    );
    assert_eq!(Number::from_float_bits(f64::NAN.to_bits()), None);
    assert_eq!(Number::from_float_bits(f64::INFINITY.to_bits()), None);
    assert_eq!(Number::from_float_bits(0x7ff0_0000_0000_0000), None);
    assert_eq!(Number::from_float_bits(0xfff0_0000_0000_0000), None);
    assert_eq!(
        Number::from_float_bits(0x7fef_ffff_ffff_ffff),
        Some(Number::Float(0x7fef_ffff_ffff_ffff))
    );
}

fn member(key: &str, value: u64) -> Member {
    Member { key: key.to_string(), value: CanonicalValue::Number(Number::PosInt(value)) }
}

#[test]
fn binding_a_key_puts_it_last() {
    let mut entries = vec![];
    bind(&mut entries, "a".to_string(), CanonicalValue::Number(Number::PosInt(1)));
    bind(&mut entries, "b".to_string(), CanonicalValue::Number(Number::PosInt(2)));
    bind(&mut entries, "c".to_string(), CanonicalValue::Number(Number::PosInt(3)));
    assert_eq!(entries, vec![member("a", 1), member("b", 2), member("c", 3)]);
    bind(&mut entries, "a".to_string(), CanonicalValue::Number(Number::PosInt(4)));
    assert_eq!(entries, vec![member("b", 2), member("c", 3), member("a", 4)]);
    bind(&mut entries, "a".to_string(), CanonicalValue::Number(Number::PosInt(5)));
    assert_eq!(entries, vec![member("b", 2), member("c", 3), member("a", 5)]);
    bind(&mut entries, "c".to_string(), CanonicalValue::Number(Number::PosInt(6)));
    assert_eq!(entries, vec![member("b", 2), member("a", 5), member("c", 6)]);
}

#[test]
fn values_that_are_objects_with_entries() {
    assert!(CanonicalValue::Object(vec![member("a", 1)]).is_nonempty_object());
    assert!(!CanonicalValue::Object(vec![]).is_nonempty_object());
    assert!(!CanonicalValue::Array(vec![CanonicalValue::Null]).is_nonempty_object());
    assert!(!CanonicalValue::Null.is_nonempty_object());
    assert!(!CanonicalValue::String("{}".to_string()).is_nonempty_object());
}

#[test]
fn copies_are_equal() {
    let value = CanonicalValue::Object(vec![
        member("a", 1),
        Member {
            key: "b".to_string(),
            value: CanonicalValue::Array(vec![
                CanonicalValue::Null,
                CanonicalValue::Bool(true),
                CanonicalValue::String("x".to_string()),
                CanonicalValue::Object(vec![member("c", 2)]),
            ]),
        },
    ]);
    assert_eq!(value.clone(), value);
}
