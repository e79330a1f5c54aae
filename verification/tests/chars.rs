use hypertext::chars::{to_chars, to_string, CharClass};

fn in_white_space_table(c: char) -> bool {
    matches!(
        c,
        '\u{9}'..='\u{D}'
            | '\u{20}'
            | '\u{85}'
            | '\u{A0}'
            | '\u{1680}'
            | '\u{2000}'..='\u{200A}'
            | '\u{2028}'
            | '\u{2029}'
            | '\u{202F}'
            | '\u{205F}'
            | '\u{3000}'
    )
}

#[test]
fn white_space_is_the_table_for_every_character() {
    let mut members = 0;
    for code in 0..=0x10FFFFu32 {
        if let Some(c) = char::from_u32(code) {
            assert_eq!(CharClass::Whitespace.contains(c), in_white_space_table(c), "U+{:04X}", code);
            if in_white_space_table(c) {
                members += 1;
            }
        }
    }
    assert_eq!(members, 25);
}

#[test]
fn white_space_has_its_known_members() {
    assert!(CharClass::Whitespace.contains(' '));
    assert!(CharClass::Whitespace.contains('\n'));
    assert!(CharClass::Whitespace.contains('\t'));
    assert!(CharClass::Whitespace.contains('\u{A0}'));
    assert!(CharClass::Whitespace.contains('\u{3000}'));
    assert!(!CharClass::Whitespace.contains('\u{200B}'));
    assert!(!CharClass::Whitespace.contains('\u{180E}'));
    assert!(!CharClass::Whitespace.contains('\u{FEFF}'));
    assert!(!CharClass::Whitespace.contains('a'));
    assert!(!CharClass::Whitespace.contains('<'));
}

#[test]
fn ascii_letters_and_digits_are_the_ascii_alphanumerics() {
    for code in 0..=0x7Fu32 {
        let c = char::from_u32(code).unwrap();
        let expected = ('0'..='9').contains(&c) || ('A'..='Z').contains(&c) || ('a'..='z').contains(&c);
        assert_eq!(CharClass::Alphanumeric.contains(c), expected, "U+{:04X}", code);
    }
}

#[test]
fn alphanumerics_beyond_ascii() {
    assert!(CharClass::Alphanumeric.contains('é'));
    assert!(CharClass::Alphanumeric.contains('٣'));
    assert!(CharClass::Alphanumeric.contains('藏'));
    assert!(CharClass::Alphanumeric.contains('¾'));
    assert!(!CharClass::Alphanumeric.contains('_'));
    assert!(!CharClass::Alphanumeric.contains('-'));
    assert!(!CharClass::Alphanumeric.contains('💝'));
}

#[test]
fn no_white_space_is_alphanumeric() {
    for code in 0..=0x10FFFFu32 {
        if let Some(c) = char::from_u32(code) {
            assert!(!(CharClass::Whitespace.contains(c) && CharClass::Alphanumeric.contains(c)));
        }
    }
}

#[test]
fn plain_is_everything_but_the_two_delimiters() {
    assert!(!CharClass::Plain.contains('<'));
    assert!(!CharClass::Plain.contains('{'));
    assert!(CharClass::Plain.contains('>'));
    assert!(CharClass::Plain.contains('}'));
    assert!(CharClass::Plain.contains(' '));
    assert!(CharClass::Plain.contains('a'));
}

#[test]
fn strings_and_characters_convert_both_ways() {
    assert_eq!(to_chars("héllo"), vec!['h', 'é', 'l', 'l', 'o']);
    assert_eq!(to_chars(""), Vec::<char>::new());
    assert_eq!(to_string(&['h', 'é', 'l', 'l', 'o']), "héllo");
    assert_eq!(to_string(&[]), "");
    let sample = "a < b { c } 💝";
    assert_eq!(to_string(&to_chars(sample)), sample);
}
