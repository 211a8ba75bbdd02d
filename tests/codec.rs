use whisper_text::{decode, encode, strip_hidden, Error, BIT_ONE, BIT_ZERO, END_MARKER, START_MARKER};

const ZERO_BIT: char = '\u{200B}';
const ONE_BIT: char = '\u{200C}';

fn bits_text(bits: &str) -> String {
    bits.chars().map(|b| if b == '1' { ONE_BIT } else { ZERO_BIT }).collect()
}

#[test]
fn test_encode_basic() {
    let result = encode("Hello", "hi");
    assert!(result.is_ok());
}

#[test]
fn test_encode_empty_cover() {
    let result = encode("", "secret");
    assert_eq!(result, Err(Error::CoverTextTooShort));
}

#[test]
fn test_round_trip_simple() {
    let cover = "Hello, World!";
    let secret = "secret";

    let encoded = encode(cover, secret).unwrap();
    let decoded = decode(&encoded).unwrap();

    assert_eq!(decoded, secret);
}

#[test]
fn test_round_trip_unicode() {
    let cover = "Hello, 世界! 👋";
    let secret = "Unicode: 你好 🚀";

    let encoded = encode(cover, secret).unwrap();
    let decoded = decode(&encoded).unwrap();

    assert_eq!(decoded, secret);
}

#[test]
fn test_decode_no_hidden_message() {
    let plain_text = "This is just plain text";
    let result = decode(plain_text);

    assert_eq!(result, Err(Error::NoHiddenMessage));
}

#[test]
fn test_round_trip_empty_secret() {
    let cover = "Cover";
    let secret = "";

    let encoded = encode(cover, secret).unwrap();
    let decoded = decode(&encoded).unwrap();

    assert_eq!(decoded, secret);
}

#[test]
fn test_round_trip_long_message() {
    let cover = "The quick brown fox jumps over the lazy dog.";
    let secret = "This is a much longer secret message with multiple words!";

    let encoded = encode(cover, secret).unwrap();
    let decoded = decode(&encoded).unwrap();

    assert_eq!(decoded, secret);
}

#[test]
fn test_round_trip_special_chars() {
    let cover = "Cover text";
    let secret = "!@#$%^&*()_+-=[]{}|;':\",./<>?";

    let encoded = encode(cover, secret).unwrap();
    let decoded = decode(&encoded).unwrap();

    assert_eq!(decoded, secret);
}

#[test]
fn test_deterministic_encoding() {
    let cover = "Hello";
    let secret = "test";

    let encoded1 = encode(cover, secret).unwrap();
    let encoded2 = encode(cover, secret).unwrap();

    assert_eq!(encoded1, encoded2);
}

#[test]
fn test_encoded_text_preserves_visible_content() {
    let cover = "Hello, World!";
    let secret = "secret";

    let encoded = encode(cover, secret).unwrap();

    let visible: String = encoded
        .chars()
        .filter(|&c| c != ZERO_BIT && c != ONE_BIT && c != '\u{200D}' && c != '\u{FEFF}')
        .collect();

    assert_eq!(visible, cover);
}

#[test]
fn test_multiple_messages() {
    let cover = "Test";
    let secrets = vec!["a", "ab", "abc", "test123", "🔒"];

    for secret in secrets {
        let encoded = encode(cover, secret).unwrap();
        let decoded = decode(&encoded).unwrap();
        assert_eq!(decoded, secret, "Failed for secret: {}", secret);
    }
}

#[test]
fn alphabet_values() {
    assert_eq!(BIT_ZERO, '\u{200B}');
    assert_eq!(BIT_ONE, '\u{200C}');
    assert_eq!(START_MARKER, '\u{200D}');
    assert_eq!(END_MARKER, '\u{FEFF}');
}

#[test]
fn empty_secret_gives_bare_markers() {
    let encoded = encode("Hi", "").unwrap();
    assert_eq!(encoded, "H\u{200D}\u{FEFF}i");
    assert_eq!(decode(&encoded).unwrap(), "");
}

#[test]
fn two_byte_secret_layout_and_bit_flip() {
    let encoded = encode("A", "AB").unwrap();
    let expected = format!("A\u{200D}{}\u{FEFF}", bits_text("0100000101000010"));
    assert_eq!(encoded, expected);
    let payload: Vec<char> = encoded.chars().skip(2).take(16).collect();
    assert!(payload.iter().all(|&c| c == ZERO_BIT || c == ONE_BIT));

    let mut flipped: Vec<char> = encoded.chars().collect();
    flipped[17] = if flipped[17] == ONE_BIT { ZERO_BIT } else { ONE_BIT };
    let flipped: String = flipped.into_iter().collect();
    let decoded = decode(&flipped).unwrap();
    assert_eq!(decoded, "AC");
    assert_ne!(decoded, "AB");
    assert_eq!(decoded.len(), 2);
}

#[test]
fn length_law_on_scalars() {
    let cover = "Hello, 世界";
    let secret = "héllo";
    let encoded = encode(cover, secret).unwrap();
    assert_eq!(
        encoded.chars().count(),
        cover.chars().count() + 2 + 8 * secret.len()
    );
}

#[test]
fn empty_cover_with_empty_secret() {
    assert_eq!(encode("", ""), Err(Error::CoverTextTooShort));
}

#[test]
fn three_stray_bits_are_corrupted() {
    let text = format!("x\u{200D}{}\u{FEFF}y", bits_text("010"));
    assert_eq!(decode(&text), Err(Error::CorruptedPayload));
}

#[test]
fn end_before_start_is_corrupted() {
    assert_eq!(decode("a\u{FEFF}b\u{200D}c"), Err(Error::CorruptedPayload));
}

#[test]
fn only_start_marker_hides_nothing() {
    assert_eq!(decode("a\u{200D}b"), Err(Error::NoHiddenMessage));
    assert_eq!(decode("a\u{FEFF}b"), Err(Error::NoHiddenMessage));
    assert_eq!(decode(""), Err(Error::NoHiddenMessage));
}

#[test]
fn invalid_utf8_payload() {
    let text = format!("x\u{200D}{}\u{FEFF}", bits_text("11111111"));
    assert_eq!(decode(&text), Err(Error::InvalidUtf8));
}

#[test]
fn noise_inside_region_is_ignored() {
    let text = format!(
        "x\u{200D}{}zz{}\u{FEFF}",
        bits_text("0100"),
        bits_text("0001")
    );
    assert_eq!(decode(&text).unwrap(), "A");
}

#[test]
fn first_markers_delimit_the_region() {
    let text = format!(
        "x\u{200D}{}\u{FEFF}{}\u{FEFF}",
        bits_text("01000001"),
        bits_text("0100")
    );
    assert_eq!(decode(&text).unwrap(), "A");
}

#[test]
fn cover_starting_with_start_marker_round_trips() {
    let encoded = encode("\u{200D}cover", "ok").unwrap();
    assert_eq!(decode(&encoded).unwrap(), "ok");
}

#[test]
fn visible_rendering_of_encoding_is_cover() {
    let cover = "Hello, 世界!";
    let encoded = encode(cover, "hidden 🔐").unwrap();
    assert_eq!(strip_hidden(&encoded), cover);
}

#[test]
fn error_messages() {
    assert_eq!(
        Error::CoverTextTooShort.message(),
        "cover text is too short to embed the secret message"
    );
    assert_eq!(Error::NoHiddenMessage.message(), "no hidden message found in the text");
    assert_eq!(
        Error::CorruptedPayload.message(),
        "the hidden message is corrupted or invalid"
    );
    assert_eq!(
        Error::InvalidUtf8.message(),
        "invalid UTF-8 encountered during decoding"
    );
}

#[test]
fn cover_starting_with_end_marker_reads_as_corrupted() {
    let encoded = encode("\u{FEFF}cover", "ok").unwrap();
    assert_eq!(decode(&encoded), Err(Error::CorruptedPayload));
}
