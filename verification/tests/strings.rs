use dryip::error::{Error, HexError};
use dryip::strings::{
    capitalize_every_word, hex_to_rgb, is_anagram, rgb_to_hex, same_letters, sorted, to_camelcase,
};

#[test]
fn test_hex_to_rgb() {
    assert_eq!(Ok(vec![255, 165, 1]), hex_to_rgb("FFA501"));
    assert_eq!(Ok(vec![192, 192, 192]), hex_to_rgb("C0C0C0"));
}

#[test]
fn hex_to_rgb_reads_either_case() {
    assert_eq!(Ok(vec![255, 165, 1]), hex_to_rgb("ffa501"));
    assert_eq!(Ok(vec![171, 205, 239]), hex_to_rgb("aBcDeF"));
    assert_eq!(Ok(vec![0, 0, 0]), hex_to_rgb("000000"));
    assert_eq!(Ok(vec![18, 52, 86]), hex_to_rgb("123456"));
    assert_eq!(Ok(vec![120, 154, 188]), hex_to_rgb("789ABC"));
}

#[test]
fn hex_to_rgb_reads_six_characters() {
    assert_eq!(Ok(vec![255, 165, 1]), hex_to_rgb("FFA501FF"));
    assert_eq!(Ok(vec![255, 165, 1]), hex_to_rgb("FFA501 and more"));
    assert_eq!(Ok(vec![255, 165, 1]), hex_to_rgb("FFA501é"));
}

#[test]
fn hex_to_rgb_refuses_a_short_code() {
    assert_eq!(Err(HexError::TooShort), hex_to_rgb(""));
    assert_eq!(Err(HexError::TooShort), hex_to_rgb("FFA50"));
    assert_eq!(Err(HexError::TooShort), hex_to_rgb("GG"));
    assert_eq!(Err(HexError::TooShort), hex_to_rgb("ééééé"));
}

#[test]
fn hex_to_rgb_refuses_other_characters() {
    assert_eq!(Err(HexError::InvalidDigit), hex_to_rgb("GFA501"));
    assert_eq!(Err(HexError::InvalidDigit), hex_to_rgb("FFA50G"));
    assert_eq!(Err(HexError::InvalidDigit), hex_to_rgb("FF A501"));
    assert_eq!(Err(HexError::InvalidDigit), hex_to_rgb("+FA501"));
    assert_eq!(Err(HexError::InvalidDigit), hex_to_rgb("FF-501"));
    assert_eq!(Err(HexError::InvalidDigit), hex_to_rgb("#FFA501"));
    assert_eq!(Err(HexError::InvalidDigit), hex_to_rgb("FFA50é"));
    assert_eq!(Err(HexError::InvalidDigit), hex_to_rgb("FFA5@1"));
    assert_eq!(Err(HexError::InvalidDigit), hex_to_rgb("FFA5`1"));
    assert_eq!(Err(HexError::InvalidDigit), hex_to_rgb("/FA501"));
    assert_eq!(Err(HexError::InvalidDigit), hex_to_rgb(":FA501"));
    assert_eq!(Err(HexError::InvalidDigit), hex_to_rgb("gfa501"));
}

#[test]
fn test_rgb_to_hex() {
    assert_eq!("FFA501", rgb_to_hex(255, 165, 1));
    assert_eq!("C0C0C0", rgb_to_hex(192, 192, 192));
}

#[test]
fn rgb_to_hex_pads_with_zeros() {
    assert_eq!("000000", rgb_to_hex(0, 0, 0));
    assert_eq!("0A0B0C", rgb_to_hex(10, 11, 12));
    assert_eq!("090F10", rgb_to_hex(9, 15, 16));
}

#[test]
fn rgb_to_hex_holds_components_in_range() {
    assert_eq!("00FFFF", rgb_to_hex(-1, 256, 300));
    assert_eq!("00FF00", rgb_to_hex(i32::MIN, i32::MAX, 0));
}

#[test]
fn hex_to_rgb_undoes_rgb_to_hex() {
    for r in 0..=255 {
        for (g, b) in [(0, 255), (r, 255 - r), (17, 200), (255, 0)] {
            let code = rgb_to_hex(r, g, b);
            assert_eq!(6, code.len());
            assert_eq!(Ok(vec![r, g, b]), hex_to_rgb(&code));
        }
    }
}

#[test]
fn rgb_to_hex_undoes_hex_to_rgb() {
    for code in ["FFA501", "000000", "C0C0C0", "19AF5E", "FFFFFF"] {
        let rgb = hex_to_rgb(code).unwrap();
        assert_eq!(code, rgb_to_hex(rgb[0], rgb[1], rgb[2]));
    }
}

#[test]
fn test_capitalize_every_word() {
    assert_eq!("Hello World!", capitalize_every_word("hello world!"));
    assert_eq!(
        "The Quick Brown Fox Jumps",
        capitalize_every_word("The quick brown fox jumps")
    );
    assert_eq!("Foo", capitalize_every_word("foo"));
}

#[test]
fn capitalize_every_word_of_a_sentence() {
    assert_eq!(
        "The Quick Brown Fox",
        capitalize_every_word("the quick brown fox")
    );
}

#[test]
fn capitalize_every_word_keeps_every_space() {
    assert_eq!("", capitalize_every_word(""));
    assert_eq!(" ", capitalize_every_word(" "));
    assert_eq!("A  B", capitalize_every_word("a  b"));
    assert_eq!(" A", capitalize_every_word(" a"));
    assert_eq!("A ", capitalize_every_word("a "));
    assert_eq!("  Ab   Cd ", capitalize_every_word("  ab   cd "));
}

#[test]
fn capitalize_every_word_changes_first_letters_only() {
    assert_eq!("FOO BAR", capitalize_every_word("fOO bAR"));
    assert_eq!("1abc ?x", capitalize_every_word("1abc ?x"));
    assert_eq!("A\tb", capitalize_every_word("a\tb"));
    assert_eq!("Z {y `x", capitalize_every_word("z {y `x"));
}

#[test]
fn capitalize_every_word_beyond_ascii() {
    assert_eq!("École Ést", capitalize_every_word("école Ést"));
    assert_eq!("Ωμέγα Δ", capitalize_every_word("ωμέγα δ"));
    assert_eq!("SSa Ǆ", capitalize_every_word("ßa ǅ"));
    assert_eq!("日本 語", capitalize_every_word("日本 語"));
    assert_eq!("Aé", capitalize_every_word("aé"));
}

#[test]
fn test_to_camelcase() {
    assert_eq!(Ok("fooBar".to_string()), to_camelcase("foo bar"));
    assert_eq!(
        Ok("someDatabaseFieldName".to_string()),
        to_camelcase("some_database_field_name")
    );
    assert_eq!(
        Ok("someLabelThatNeedsToBeCamelized".to_string()),
        to_camelcase("Some label that needs to be camelized")
    );
    assert_eq!(
        Ok("someFooProperty".to_string()),
        to_camelcase("some-foo-property")
    );
    assert_eq!(
        Ok("someMixedStringWithSpacesUnderscoresAndHyphens".to_string()),
        to_camelcase("some-mixed_string with spaces_underscores-and-hyphens")
    );
}

#[test]
fn to_camelcase_refuses_a_short_sentence() {
    assert_eq!(Err(Error::InvalidWord("a".to_string())), to_camelcase("a"));
    assert_eq!(Err(Error::InvalidWord("".to_string())), to_camelcase(""));
    assert_eq!(
        Err(Error::InvalidWord(" a ".to_string())),
        to_camelcase(" a ")
    );
    assert_eq!(
        Err(Error::InvalidWord("-_-".to_string())),
        to_camelcase("-_-")
    );
    assert_eq!(
        Err(Error::InvalidWord("_x\t\n".to_string())),
        to_camelcase("_x\t\n")
    );
}

#[test]
fn to_camelcase_refuses_other_than_ascii() {
    assert_eq!(Err(Error::NotAscii("Σ".to_string())), to_camelcase("Σ"));
    assert_eq!(
        Err(Error::NotAscii("foo bär".to_string())),
        to_camelcase("foo bär")
    );
    assert_eq!(
        Err(Error::NotAscii("\u{80}".to_string())),
        to_camelcase("\u{80}")
    );
}

#[test]
fn to_camelcase_of_two_characters() {
    assert_eq!(Ok("ab".to_string()), to_camelcase("ab"));
    assert_eq!(Ok("ab".to_string()), to_camelcase("AB"));
    assert_eq!(Ok("aB".to_string()), to_camelcase("a b"));
    assert_eq!(Ok("a\u{7f}".to_string()), to_camelcase("a\u{7f}"));
}

#[test]
fn to_camelcase_trims_and_skips_empty_words() {
    assert_eq!(Ok("fooBar".to_string()), to_camelcase("  foo bar  "));
    assert_eq!(Ok("fooBar".to_string()), to_camelcase("--foo--bar__"));
    assert_eq!(Ok("fooBar".to_string()), to_camelcase("\tfoo   bar\r\n"));
    assert_eq!(Ok("fooBar".to_string()), to_camelcase("foo _- bar"));
}

#[test]
fn to_camelcase_changes_case_where_it_says() {
    assert_eq!(Ok("fooBAR".to_string()), to_camelcase("FOO bAR"));
    assert_eq!(Ok("foo1bar2baz".to_string()), to_camelcase("Foo1Bar 2baz"));
    assert_eq!(Ok("a\tbC".to_string()), to_camelcase("A\tB c"));
    assert_eq!(Ok("[z]{Y}".to_string()), to_camelcase("[Z] {Y}"));
}

#[test]
fn test_is_anagram() {
    assert!(is_anagram("anagram", "Nag a ram"));
    assert!(is_anagram("iceman", "cinema"));
    assert!(!is_anagram("foo", "of"));
}

#[test]
fn is_anagram_counts_every_letter() {
    assert!(!is_anagram("aab", "abb"));
    assert!(!is_anagram("abc", "abd"));
    assert!(is_anagram("", "   "));
    assert!(!is_anagram("a", ""));
    assert!(is_anagram("Dormitory", "dirty room"));
}

#[test]
fn is_anagram_keeps_what_is_not_a_space() {
    assert!(!is_anagram("a-b", "ab"));
    assert!(!is_anagram("a\tb", "ab"));
    assert!(is_anagram("a!b", "b!a"));
}

#[test]
fn is_anagram_beyond_ascii() {
    assert!(is_anagram("École", "éCole"));
    assert!(is_anagram("ΑΒΓ", "γβα"));
    assert!(!is_anagram("é", "e"));
}

#[test]
fn same_letters_tells_cases_apart() {
    assert!(same_letters("listen", "silent"));
    assert!(!same_letters("Listen", "silent"));
    assert!(!same_letters("a b", "ab"));
    assert!(same_letters("", ""));
    assert!(!same_letters("aa", "a"));
}

#[test]
fn sorted_puts_characters_in_order() {
    assert_eq!("ehllo", sorted("hello"));
    assert_eq!("", sorted(""));
    assert_eq!(" Zaz", sorted("zaZ "));
    assert_eq!("aaabb", sorted("ababa"));
    assert_eq!("eé€", sorted("€eé"));
}

#[test]
fn sorted_leaves_its_argument_alone() {
    let word = String::from("cab");
    assert_eq!("abc", sorted(&word));
    assert_eq!("cab", word);
}
