use haltui::dialog::{
    dialog_enter, dialog_key, enter_candidate, file_name, input_key, join_path, parent_of_dir,
    refresh_dialog, DialogStep, FileDialog, InputState, InputStep, PathKind,
};
use haltui::keys::{Key, KeyCode};
use haltui::state::{InputAction, InputKind};

fn k(code: KeyCode) -> Key {
    Key { code, ctrl: false }
}

fn listing() -> Vec<(String, bool)> {
    vec![
        ("zeta.halshow".to_string(), false),
        ("Alpha.HALSHOW".to_string(), false),
        ("notes.txt".to_string(), false),
        (".hidden.halshow".to_string(), false),
        ("sub".to_string(), true),
        ("another".to_string(), true),
        (".git".to_string(), true),
    ]
}

#[test]
fn paths() {
    assert_eq!(join_path("/a", "b"), "/a/b");
    assert_eq!(join_path("/", "b"), "/b");
    assert_eq!(join_path("/a", "/abs"), "/abs");
    assert_eq!(parent_of_dir("/a/b"), Some("/a".to_string()));
    assert_eq!(parent_of_dir("/a"), Some("/".to_string()));
    assert_eq!(parent_of_dir("/"), None);
    assert_eq!(parent_of_dir("."), Some(String::new()));
    assert_eq!(file_name("/a/b.halshow"), "b.halshow");
    assert_eq!(file_name("/a/.."), "");
}

#[test]
fn loading_lists_watch_files() {
    let input = InputState::file_dialog(false, "/w/x/..".to_string(), String::new(), InputAction::LoadWatchFile, &listing());
    assert_eq!(input.kind, InputKind::FileDialog);
    assert_eq!(input.prompt, "Open watch list");
    let d = input.dialog.as_ref().unwrap();
    assert_eq!(d.dir, "/w");
    assert!(!d.field);
    assert_eq!(d.entries, vec!["/w/..", "/w/another", "/w/sub", "/w/Alpha.HALSHOW", "/w/zeta.halshow"]);
}

#[test]
fn saving_lists_every_file() {
    let input = InputState::file_dialog(true, "/".to_string(), "my.halshow".to_string(), InputAction::SaveWatchFile(false), &listing());
    assert_eq!(input.prompt, "Save watch list");
    assert_eq!(input.cursor, 10);
    let d = input.dialog.as_ref().unwrap();
    assert!(d.field);
    assert_eq!(d.entries, vec!["/another", "/sub", "/Alpha.HALSHOW", "/notes.txt", "/zeta.halshow"]);
}

#[test]
fn filter_narrows_and_keeps_selection_in_range() {
    let mut d = FileDialog {
        save: false,
        dir: "/w".to_string(),
        entries: Vec::new(),
        selected: 9,
        scroll: 9,
        field: true,
        error: Some("old".to_string()),
    };
    refresh_dialog(&mut d, " ZET ", &listing());
    assert_eq!(d.entries, vec!["/w/..", "/w/another", "/w/sub", "/w/zeta.halshow"]);
    assert_eq!((d.selected, d.scroll), (3, 3));
    assert!(d.error.is_none());
}

#[test]
fn dialog_keys() {
    let mut input = InputState::file_dialog(false, "/w".to_string(), String::new(), InputAction::LoadWatchFile, &listing());
    assert!(matches!(dialog_key(&mut input, k(KeyCode::Down)), DialogStep::Stay));
    assert_eq!(input.dialog.as_ref().unwrap().selected, 1);
    assert!(matches!(dialog_key(&mut input, k(KeyCode::End)), DialogStep::Stay));
    assert_eq!(input.dialog.as_ref().unwrap().selected, 4);
    assert!(matches!(dialog_key(&mut input, k(KeyCode::Char('z'))), DialogStep::Relist));
    assert_eq!(input.buffer, "z");
    assert!(input.dialog.as_ref().unwrap().field);
    assert!(matches!(dialog_key(&mut input, k(KeyCode::Backspace)), DialogStep::Relist));
    assert_eq!(input.buffer, "");
    assert!(matches!(dialog_key(&mut input, k(KeyCode::Backspace)), DialogStep::Relist));
    assert_eq!(input.dialog.as_ref().unwrap().dir, "/");
    assert!(matches!(dialog_key(&mut input, k(KeyCode::Tab)), DialogStep::Stay));
    assert!(matches!(dialog_key(&mut input, k(KeyCode::Esc)), DialogStep::Cancel));
}

#[test]
fn dialog_enter_choices() {
    let mut input = InputState::file_dialog(false, "/w".to_string(), String::new(), InputAction::LoadWatchFile, &listing());
    input.dialog.as_mut().unwrap().selected = 4;
    match dialog_enter(&mut input, PathKind::Other, PathKind::File) {
        DialogStep::Confirm(p) => assert_eq!(p, "/w/zeta.halshow"),
        _ => panic!("expected a file"),
    }
    input.dialog.as_mut().unwrap().selected = 2;
    assert!(matches!(dialog_enter(&mut input, PathKind::Other, PathKind::Dir), DialogStep::Relist));
    assert_eq!(input.dialog.as_ref().unwrap().dir, "/w/sub");
    let mut typed = InputState::file_dialog(false, "/w".to_string(), " x.halshow ".to_string(), InputAction::LoadWatchFile, &listing());
    typed.dialog.as_mut().unwrap().field = true;
    assert_eq!(enter_candidate(&typed), "/w/x.halshow");
    typed.dialog.as_mut().unwrap().selected = 99;
    assert!(matches!(dialog_enter(&mut typed, PathKind::Other, PathKind::Other), DialogStep::Stay));
    assert_eq!(typed.dialog.as_ref().unwrap().error.as_deref(), Some("no such file: /w/x.halshow"));
    let mut save = InputState::file_dialog(true, "/w".to_string(), String::new(), InputAction::SaveWatchFile(true), &listing());
    assert!(matches!(dialog_enter(&mut save, PathKind::Other, PathKind::Other), DialogStep::Stay));
    assert_eq!(save.dialog.as_ref().unwrap().error.as_deref(), Some("Enter a file name"));
    save.dialog.as_mut().unwrap().field = false;
    save.dialog.as_mut().unwrap().selected = 4;
    assert!(matches!(dialog_enter(&mut save, PathKind::Other, PathKind::File), DialogStep::Stay));
    assert_eq!((save.buffer.as_str(), save.cursor), ("notes.txt", 9));
}

#[test]
fn text_and_bit_prompts() {
    let mut t = InputState::text("Set x", "1.5".to_string(), InputAction::SetValue(3));
    assert_eq!(t.cursor, 3);
    assert!(matches!(input_key(&mut t, k(KeyCode::Char('0'))), InputStep::Stay));
    assert_eq!(t.buffer, "1.50");
    assert_eq!(t.prompt, "Set x");
    assert!(t.dialog.is_none());
    match input_key(&mut t, k(KeyCode::Enter)) {
        InputStep::Submit(s) => assert_eq!(s, "1.50"),
        _ => panic!("expected a submit"),
    }
    let mut b = InputState::bit_pick("Set y (bit)", false, InputAction::SetValue(0));
    assert!(matches!(input_key(&mut b, k(KeyCode::Left)), InputStep::Stay));
    match input_key(&mut b, k(KeyCode::Enter)) {
        InputStep::Submit(s) => assert_eq!(s, "1"),
        _ => panic!("expected a submit"),
    }
    assert!(matches!(input_key(&mut b, k(KeyCode::Esc)), InputStep::Close));
}
