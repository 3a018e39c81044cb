use spotify_history::text::{chars_of, clean, normalize, string_from_chars};

#[test]
fn normalize_lowercases_drops_punctuation_and_trims() {
    assert_eq!(normalize("  Hello, World!  "), "hello world");
}

#[test]
fn normalize_keeps_inner_whitespace() {
    assert_eq!(normalize("Daft Punk - One More Time"), "daft punk  one more time");
}

#[test]
fn normalize_keeps_non_ascii_letters_and_digits() {
    assert_eq!(normalize("Beyonc\u{c9} - 4 (Deluxe)"), "beyonc\u{e9}  4 deluxe");
}

#[test]
fn normalize_of_only_symbols_is_empty() {
    assert_eq!(normalize("!!! - ???"), "");
    assert_eq!(normalize(""), "");
}

#[test]
fn normalize_is_stable_on_its_own_output() {
    let once = normalize("  AC/DC - Back In Black  ");
    assert_eq!(once, "acdc  back in black");
    assert_eq!(normalize(&once), once);
}

#[test]
fn chars_and_back() {
    let cs = chars_of("h\u{e9}llo");
    assert_eq!(cs, vec!['h', '\u{e9}', 'l', 'l', 'o']);
    assert_eq!(string_from_chars(&cs, 1, 4), "\u{e9}ll");
    assert_eq!(string_from_chars(&cs, 2, 2), "");
}

#[test]
fn clean_keeps_case_and_drops_symbols() {
    assert_eq!(clean("  Hello, World!  "), "Hello World");
    assert_eq!(clean("\t(Live) \n"), "Live");
}

#[test]
fn cleaning_twice_is_cleaning_once() {
    let once = clean(" --  Don't Stop Me Now -- ");
    assert_eq!(once, "Dont Stop Me Now");
    assert_eq!(clean(&once), once);
}
