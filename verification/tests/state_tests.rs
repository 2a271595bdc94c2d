use haltui::keys::{Key, KeyCode};
use haltui::state::{
    char_count, edit_line, insert_char_at, norm_path, pick_bit, pop_char, remove_char_at, sign_pad,
};

fn key(code: KeyCode) -> Key {
    Key { code, ctrl: false }
}

#[test]
fn norm_resolves_dot_dot() {
    assert_eq!(norm_path("/a/b/.."), "/a");
    assert_eq!(norm_path("/a/b/../../c"), "/c");
    assert_eq!(norm_path("/"), "/");
    assert_eq!(norm_path("/a/./b"), "/a/b");
    assert_eq!(norm_path("/a/../.."), "/");
}

#[test]
fn norm_relative_paths() {
    assert_eq!(norm_path("a/b/.."), "a");
    assert_eq!(norm_path("a/.."), ".");
    assert_eq!(norm_path("."), ".");
    assert_eq!(norm_path("../x"), "x");
    assert_eq!(norm_path("a//b/"), "a/b");
    assert_eq!(norm_path(""), ".");
}

#[test]
fn norm_is_idempotent_on_examples() {
    for p in ["/a/b/../c/./d", "x/../../y", "/", ".", "a/b"] {
        let once = norm_path(p);
        assert_eq!(norm_path(&once), once);
    }
}

#[test]
fn sign_pad_aligns_positive_and_negative() {
    assert_eq!(sign_pad("12.5"), " 12.5");
    assert_eq!(sign_pad("-12.5"), "-12.5");
    assert_eq!(sign_pad("42"), " 42");
    assert_eq!(sign_pad(" 12.5"), " 12.5");
    assert_eq!(sign_pad("+12.5"), "+12.5");
    assert_eq!(sign_pad("0"), " 0");
}

#[test]
fn sign_pad_empty_gets_a_space() {
    assert_eq!(sign_pad(""), " ");
    assert_eq!(sign_pad("42").chars().count(), sign_pad("-42").chars().count());
}

#[test]
fn remove_char_at_counts_characters() {
    let mut s = String::from("häll");
    remove_char_at(&mut s, 1);
    assert_eq!(s, "hll");
    let mut t = String::from("abc");
    remove_char_at(&mut t, 5);
    assert_eq!(t, "abc");
}

#[test]
fn insert_and_pop_characters() {
    let mut s = String::from("ac");
    insert_char_at(&mut s, 1, 'b');
    assert_eq!(s, "abc");
    insert_char_at(&mut s, 10, 'd');
    assert_eq!(s, "abcd");
    pop_char(&mut s);
    assert_eq!(s, "abc");
    let mut e = String::new();
    pop_char(&mut e);
    assert_eq!(e, "");
    assert_eq!(char_count("é€"), 2);
}

#[test]
fn line_editing_keys() {
    let mut b = String::from("abc");
    let mut c = 3usize;
    edit_line(&mut b, &mut c, key(KeyCode::Left));
    assert_eq!(c, 2);
    edit_line(&mut b, &mut c, key(KeyCode::Char('X')));
    assert_eq!((b.as_str(), c), ("abXc", 3));
    edit_line(&mut b, &mut c, key(KeyCode::Backspace));
    assert_eq!((b.as_str(), c), ("abc", 2));
    edit_line(&mut b, &mut c, key(KeyCode::Delete));
    assert_eq!((b.as_str(), c), ("ab", 2));
    edit_line(&mut b, &mut c, key(KeyCode::Right));
    assert_eq!(c, 2);
    edit_line(&mut b, &mut c, key(KeyCode::Home));
    assert_eq!(c, 0);
    edit_line(&mut b, &mut c, key(KeyCode::Backspace));
    assert_eq!((b.as_str(), c), ("ab", 0));
    edit_line(&mut b, &mut c, key(KeyCode::End));
    assert_eq!(c, 2);
    edit_line(&mut b, &mut c, Key { code: KeyCode::Char('u'), ctrl: true });
    assert_eq!((b.as_str(), c), ("", 0));
}

#[test]
fn bit_prompt_keys() {
    assert!(pick_bit(false, key(KeyCode::Left)));
    assert!(!pick_bit(true, key(KeyCode::Tab)));
    assert!(pick_bit(false, key(KeyCode::Char('t'))));
    assert!(pick_bit(false, key(KeyCode::Char('1'))));
    assert!(!pick_bit(true, key(KeyCode::Char('F'))));
    assert!(pick_bit(true, key(KeyCode::Char('x'))));
}

#[test]
fn normalized_paths_keep_no_dot_components() {
    for p in ["/a/./b/../c", "/../..", "/x//y/", "/a/b/.."] {
        let r = norm_path(p);
        assert!(r.starts_with('/'));
        assert!(r.split('/').all(|c| c != "." && c != ".."));
        assert_eq!(norm_path(&r), r);
    }
    for p in ["a/../..", "./a/./b", "../x"] {
        let r = norm_path(p);
        assert!(r == "." || r.split('/').all(|c| c != "." && c != ".."));
    }
}
