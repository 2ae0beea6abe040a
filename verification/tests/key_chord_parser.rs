use windows_key_listener::key_chord_parser::{chord_tokens, is_whitespace, KeyChordParser};

fn parse(chord: &str) -> Option<Vec<i32>> {
    KeyChordParser::new().parse(chord)
}

#[test]
fn readme_chord_parses_to_modifiers_and_letter() {
    assert_eq!(parse("Ctrl + Shift + A"), Some(vec![0x11, 0x10, 0x41]));
}

#[test]
fn doc_chord_parses() {
    assert_eq!(parse("Ctrl + Shift + Z"), Some(vec![0x11, 0x10, 0x5A]));
    assert_eq!(parse("Ctrl + Shift + Q"), Some(vec![0x11, 0x10, 0x51]));
}

#[test]
fn media_keys_parse() {
    assert_eq!(parse("VolumeUp"), Some(vec![0xAF]));
    assert_eq!(parse("VolumeDown"), Some(vec![0xAE]));
    assert_eq!(parse("volumemute"), Some(vec![0xAD]));
    assert_eq!(parse("stop"), Some(vec![0xB2]));
    assert_eq!(parse("playpause"), Some(vec![0xB3]));
    assert_eq!(parse("prev"), Some(vec![0xB1]));
    assert_eq!(parse("next"), Some(vec![0xB0]));
}

#[test]
fn modifier_keys_parse() {
    assert_eq!(
        parse("ctrl+lctrl+rctrl+shift+lshift+rshift+alt+lalt+ralt"),
        Some(vec![0x11, 0xA2, 0xA3, 0x10, 0xA0, 0xA1, 0x12, 0xA4, 0xA5])
    );
}

#[test]
fn letters_and_digits_parse() {
    let parser = KeyChordParser::new();
    for (i, c) in ('a'..='z').enumerate() {
        assert_eq!(parser.parse(&c.to_string()), Some(vec![0x41 + i as i32]));
    }
    for (i, c) in ('0'..='9').enumerate() {
        assert_eq!(parser.parse(&c.to_string()), Some(vec![0x30 + i as i32]));
    }
}

#[test]
fn function_and_numpad_keys_parse() {
    let parser = KeyChordParser::new();
    for i in 1..=12 {
        assert_eq!(parser.parse(&format!("F{}", i)), Some(vec![0x6F + i]));
    }
    assert_eq!(parser.parse("f13"), None);
    assert_eq!(parser.parse("f0"), None);
    for i in 0..=9 {
        assert_eq!(parser.parse(&format!("Num{}", i)), Some(vec![0x60 + i]));
    }
    assert_eq!(parser.parse("num10"), None);
    assert_eq!(
        parse("numlock+numslash+nummultiply+numminus+numplus+numenter+numdecimal"),
        Some(vec![0x90, 0x6F, 0x6A, 0x6D, 0x6B, 0x0D, 0x6E])
    );
}

#[test]
fn special_navigation_and_system_keys_parse() {
    assert_eq!(
        parse("back+tab+enter+space+capslock+esc"),
        Some(vec![0x08, 0x09, 0x0D, 0x20, 0x14, 0x1B])
    );
    assert_eq!(
        parse("left+right+up+down+home+end+pageup+pagedown+insert+delete"),
        Some(vec![0x25, 0x27, 0x26, 0x28, 0x24, 0x23, 0x21, 0x22, 0x2D, 0x2E])
    );
    assert_eq!(
        parse("printscreen+scrolllock+pause+break+menu+lmenu+rmenu+lwin+rwin+apps+sleep+zoom"),
        Some(vec![0x2C, 0x91, 0x13, 0x03, 0x12, 0xA4, 0xA5, 0x5B, 0x5C, 0x5D, 0x5F, 0xFB])
    );
}

#[test]
fn unknown_names_are_skipped() {
    assert_eq!(parse("Ctrl + Foo"), Some(vec![0x11]));
    assert_eq!(parse("Foo + Bar"), None);
    assert_eq!(parse(""), None);
    assert_eq!(parse("+"), None);
    assert_eq!(parse("   "), None);
}

#[test]
fn empty_pieces_and_repeats() {
    assert_eq!(parse("ctrl++z"), Some(vec![0x11, 0x5A]));
    assert_eq!(parse("a+a"), Some(vec![0x41, 0x41]));
    assert_eq!(parse("+x+"), Some(vec![0x58]));
}

#[test]
fn white_space_and_case_are_ignored() {
    assert_eq!(parse("  ctrl+  z "), parse("Ctrl+Z"));
    assert_eq!(parse("\tCTRL\n+\u{a0}Z\u{3000}"), Some(vec![0x11, 0x5A]));
    assert_eq!(parse("c trl"), None);
}

#[test]
fn unicode_lowercase_mapping_applies() {
    // KELVIN SIGN lower-cases to 'k'.
    assert_eq!(parse("\u{212A}"), Some(vec![0x4B]));
}

#[test]
fn parse_names_takes_names_as_given() {
    let parser = KeyChordParser::new();
    assert_eq!(
        parser.parse_names(&vec!["ctrl".to_string(), "x".to_string()]),
        Some(vec![0x11, 0x58])
    );
    assert_eq!(parser.parse_names(&vec!["Ctrl".to_string()]), None);
    assert_eq!(parser.parse_names(&vec![]), None);
}

#[test]
fn tokens_are_trimmed_pieces() {
    assert_eq!(chord_tokens(" Ctrl + Shift+"), vec!["Ctrl", "Shift", ""]);
    assert_eq!(chord_tokens(""), vec![""]);
    assert_eq!(chord_tokens("a+b+c"), vec!["a", "b", "c"]);
    assert_eq!(chord_tokens("ä + \u{2003}ß"), vec!["ä", "ß"]);
}

#[test]
fn whitespace_class_agrees_with_std() {
    for u in 0u32..=0x10FFFF {
        if let Some(c) = char::from_u32(u) {
            assert_eq!(is_whitespace(c), c.is_whitespace(), "{:x}", u);
        }
    }
}

#[test]
fn tokens_agree_with_std_split_and_trim() {
    let samples = ["Ctrl + Shift + Z", " a+\tb +\u{85}c\u{2028}", "++", "x", "\u{1680}y\u{205f}+z"];
    for s in samples.iter() {
        let expected: Vec<&str> = s.split('+').map(|t| t.trim()).collect();
        assert_eq!(chord_tokens(s), expected);
    }
}

#[test]
fn joined_chords_concatenate_codes() {
    let parser = KeyChordParser::new();
    let pairs = [("Ctrl + Shift", "Z"), ("foo", "alt"), ("a + b", " c + nothing "), ("", "x")];
    for (a, b) in pairs.iter() {
        let mut expected = parser.parse(a).unwrap_or_default();
        expected.extend(parser.parse(b).unwrap_or_default());
        let joined = parser.parse(&format!("{}+{}", a, b)).unwrap_or_default();
        assert_eq!(joined, expected);
    }
}

#[test]
fn ascii_case_does_not_matter() {
    let samples = ["ctrl + shift + z", "Num5+f12", "volumeup", "foo + ALT", " pageDown+x "];
    for s in samples.iter() {
        assert_eq!(parse(&s.to_ascii_uppercase()), parse(s));
        assert_eq!(parse(&s.to_ascii_lowercase()), parse(s));
    }
}

#[test]
fn padding_and_spaced_separators_do_not_matter() {
    let samples = ["ctrl+shift+z", "a", "foo+alt", "f1+num0+"];
    for s in samples.iter() {
        assert_eq!(parse(&format!(" \t{}\u{3000} ", s)), parse(s));
        assert_eq!(parse(&s.replace("+", " + ")), parse(s));
    }
}
