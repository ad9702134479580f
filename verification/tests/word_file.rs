use suggest::word_file::{file_words, is_white_space};

#[test]
fn a_word_file_holds_a_word_per_line() {
    assert_eq!(file_words("sea\nshell\nshore\n"), ["sea", "shell", "shore"]);
    assert_eq!(file_words("sea\nshell"), ["sea", "shell"]);
}

#[test]
fn padding_is_trimmed_and_blank_lines_skipped() {
    assert_eq!(
        file_words("  sea  \n\n\tshell\r\n   \nshore"),
        ["sea", "shell", "shore"]
    );
    // Padding inside a line is part of the word
    assert_eq!(file_words(" by the sea \n"), ["by the sea"]);
}

#[test]
fn an_empty_file_holds_no_words() {
    assert_eq!(file_words(""), Vec::<String>::new());
    assert_eq!(file_words("\n\n  \n"), Vec::<String>::new());
}

#[test]
fn whitespace_is_what_trim_removes() {
    for c in ['\u{0}', 'a', '#', '\u{200B}', '\u{FEFF}', 'é', '\u{1F600}'] {
        assert_eq!(is_white_space(c), c.is_whitespace(), "{c:?}");
    }
    for code in 0..=0x3000u32 {
        if let Some(c) = char::from_u32(code) {
            assert_eq!(is_white_space(c), c.is_whitespace(), "{code:#x}");
        }
    }
    // The same lines as `str::lines` and `str::trim` give
    let text = "\u{A0}sea\u{2003}\n\u{3000}\u{85}shell\r\n\u{2028}\n";
    let expected: Vec<&str> = text
        .lines()
        .map(str::trim)
        .filter(|word| !word.is_empty())
        .collect();
    assert_eq!(file_words(text), expected);
}
