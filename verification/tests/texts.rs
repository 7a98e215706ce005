use crate_manager::text::{
    chars_of, contains, find, is_whitespace, join, same_chars, slice_of, split, starts_with_at,
    string_of, trim, trim_quotes,
};
use crate_manager::PubType;

fn s(v: Vec<char>) -> String {
    string_of(&v)
}

#[test]
fn characters_and_strings_convert_both_ways() {
    assert_eq!(chars_of("aé\u{1F600}"), vec!['a', 'é', '\u{1F600}']);
    assert_eq!(string_of(&['a', 'é', '\u{1F600}']), "aé\u{1F600}");
    assert_eq!(chars_of(""), Vec::<char>::new());
}

#[test]
fn white_space_is_what_unicode_says() {
    for c in ['\t', '\n', '\u{B}', '\u{C}', '\r', ' ', '\u{85}', '\u{A0}', '\u{1680}', '\u{2000}',
        '\u{200A}', '\u{2028}', '\u{2029}', '\u{202F}', '\u{205F}', '\u{3000}'] {
        assert!(is_whitespace(c));
        assert!(c.is_whitespace());
    }
    for c in ['a', '0', '\u{8}', '\u{E}', '\u{200B}', '\u{1FFF}', '\u{180E}', '\u{FEFF}'] {
        assert!(!is_whitespace(c));
        assert!(!c.is_whitespace());
    }
}

#[test]
fn white_space_agrees_with_the_standard_library_everywhere() {
    let mut c = 0u32;
    while c <= 0x10FFFF {
        if let Some(ch) = char::from_u32(c) {
            assert_eq!(is_whitespace(ch), ch.is_whitespace(), "at {:x}", c);
        }
        c += 1;
    }
}

#[test]
fn trimming_takes_white_space_off_both_ends() {
    assert_eq!(s(trim(&chars_of("  a b \n"))), "a b");
    assert_eq!(s(trim(&chars_of("a"))), "a");
    assert_eq!(s(trim(&chars_of(" \t "))), "");
    assert_eq!(s(trim(&chars_of(""))), "");
    assert_eq!(s(trim_quotes(&chars_of("\"\"a\"b\""))), "a\"b");
    assert_eq!(s(trim_quotes(&chars_of("\"\""))), "");
}

#[test]
fn searching_finds_the_first_occurrence() {
    let text = chars_of("abcabc");
    assert_eq!(find(&text, &chars_of("bc"), 0), Some(1));
    assert_eq!(find(&text, &chars_of("bc"), 2), Some(4));
    assert_eq!(find(&text, &chars_of("bc"), 5), None);
    assert_eq!(find(&text, &chars_of(""), 6), Some(6));
    assert_eq!(find(&text, &chars_of(""), 7), None);
    assert_eq!(find(&text, &chars_of("abcabcd"), 0), None);
    assert!(contains(&text, &chars_of("ca")));
    assert!(!contains(&text, &chars_of("cb")));
    assert!(starts_with_at(&text, 3, &chars_of("abc")));
    assert!(!starts_with_at(&text, 4, &chars_of("abc")));
    assert!(same_chars(&text, &chars_of("abcabc")));
    assert!(!same_chars(&text, &chars_of("abcab")));
    assert_eq!(s(slice_of(&text, 2, 4)), "ca");
}

#[test]
fn splitting_and_joining() {
    let parts: Vec<String> = split(&chars_of("a,,b,"), ',').into_iter().map(s).collect();
    assert_eq!(parts, vec!["a", "", "b", ""]);
    let parts: Vec<String> = split(&chars_of(""), ',').into_iter().map(s).collect();
    assert_eq!(parts, vec![""]);
    let list = vec![chars_of("a"), chars_of(""), chars_of("b")];
    assert_eq!(s(join(&list, &chars_of(", "))), "a, , b");
    assert_eq!(s(join(&vec![], &chars_of(", "))), "");
    assert_eq!(s(join(&vec![chars_of("x")], &chars_of(", "))), "x");
}

#[test]
fn tiers_are_read_and_written() {
    assert_eq!(PubType::from_str("pub"), PubType::Pub);
    assert_eq!(PubType::from_str("pub(crate)"), PubType::Crate);
    assert_eq!(PubType::from_str("pub( super )"), PubType::Super);
    assert_eq!(PubType::from_str(""), PubType::Pub);
    // `crate` is looked for first.
    assert_eq!(PubType::from_str("super crate"), PubType::Crate);
    assert_eq!(PubType::Pub.to_str(), "pub");
    assert_eq!(PubType::Super.to_str(), "pub(super)");
    assert_eq!(PubType::Crate.to_str(), "pub(crate)");
    for tier in [PubType::Pub, PubType::Super, PubType::Crate] {
        assert_eq!(PubType::from_str(tier.to_str()), tier);
    }
}
