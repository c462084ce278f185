//! Codes, passwords and answers.

use wormhole_nym::code::{accepts, parse_code, part_name, wormhole_code};
use wormhole_nym::error::TransferError;
use wormhole_nym::path::stays_inside;
use wormhole_nym::words::{generate_password, password_of};

#[test]
fn codes_split_at_the_first_colon() {
    assert_eq!(
        parse_code("fork-road-calm:8yGFbT5@gateway").unwrap(),
        ("fork-road-calm", "8yGFbT5@gateway")
    );
    assert_eq!(parse_code("a:b:c").unwrap(), ("a", "b:c"));
    assert_eq!(parse_code(":").unwrap(), ("", ""));
    assert_eq!(parse_code("é:ü").unwrap(), ("é", "ü"));
    assert_eq!(parse_code("x:").unwrap(), ("x", ""));
}

#[test]
fn codes_without_a_colon_are_refused() {
    assert!(matches!(parse_code("fork-road-calm"), Err(TransferError::InvalidCode)));
    assert!(matches!(parse_code(""), Err(TransferError::InvalidCode)));
}

#[test]
fn codes_come_back() {
    let code = wormhole_code("fork-road-calm", "8yGF:T5@gw");
    assert_eq!(code, "fork-road-calm:8yGF:T5@gw");
    assert_eq!(parse_code(&code).unwrap(), ("fork-road-calm", "8yGF:T5@gw"));
}

#[test]
fn only_a_y_is_a_yes() {
    for yes in ["y", "Y", "y\n", " Y \r\n", "\u{3000}y\u{85}\t"] {
        assert!(accepts(yes));
    }
    for no in ["", "\n", "n", "yes", "yy", "y y", "ÿ", "y.", "\u{200b}y"] {
        assert!(!accepts(no));
    }
}

#[test]
fn answers_are_trimmed_like_text() {
    for n in 0u32..0x11_0000 {
        if let Some(c) = char::from_u32(n) {
            let answer: String = [c, 'y', c].iter().collect();
            assert_eq!(accepts(&answer), answer.trim().eq_ignore_ascii_case("y"));
        }
    }
}

#[test]
fn part_files_have_a_suffix() {
    assert_eq!(part_name("photo.jpg"), "photo.jpg.part");
    assert_eq!(part_name(""), ".part");
}

#[test]
fn paths_stay_inside_or_leave() {
    for path in [
        "photo.jpg", "a", "...", ".hidden", "..a", "10:30.png", "é", "a b", "", ".", "a/b", "a/",
        "a/../b", "a/..", "a//b/./../..", "a\0b",
    ] {
        for windows in [false, true] {
            assert!(stays_inside(path, windows));
            assert!(stays_inside(&part_name(path), windows));
        }
    }
    for path in ["..", "../x", "/etc/passwd", "/", "a/../..", "a/../../b/c", "./..", "a//../.."] {
        for windows in [false, true] {
            assert!(!stays_inside(path, windows));
        }
    }
    for path in ["C:x", "z:", "\\x", "..\\x", "a\\..\\..", "a\\../.."] {
        assert!(!stays_inside(path, true));
    }
    for path in ["C:x", "z:", "\\x", "..\\x", "a\\b", "a\\..\\.."] {
        assert!(stays_inside(path, false));
    }
    assert!(stays_inside("a\\b", true));
    assert!(stays_inside("1:", true));
}

#[test]
fn passwords_are_hyphenated_words() {
    let list = ["fork", "road", "calm"];
    assert_eq!(password_of(&list, &[0, 1, 2]), "fork-road-calm");
    assert_eq!(password_of(&list, &[2, 2]), "calm-calm");
    assert_eq!(password_of(&list, &[1]), "road");
    assert_eq!(password_of(&list, &[]), "");
}

#[test]
fn random_passwords_have_words_of_the_list() {
    let list = ["fork", "road", "calm", "tree"];
    let mut seen: Vec<String> = Vec::new();
    for _ in 0..300 {
        let password = generate_password(&list, 3);
        let words: Vec<&str> = password.split('-').collect();
        assert_eq!(words.len(), 3);
        for word in words {
            assert!(list.contains(&word));
        }
        assert!(!password.contains(':'));
        if !seen.contains(&password) {
            seen.push(password);
        }
    }
    assert!(seen.len() > 5);
    assert_eq!(generate_password(&list, 0), "");
    assert_eq!(generate_password(&["one"], 2), "one-one");
}
