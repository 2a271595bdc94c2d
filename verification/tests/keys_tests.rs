use haltui::hal::HalType;
use haltui::keys::{
    command_key, filter_key, other_tab, route_key, scroll_by, settings_key, show_key, tree_key,
    watch_key, CommandStep, FilterStep, Key, KeyCode, Modes, Route, SettingsStep, ShowStep,
    TreeCmd, WatchCmd,
};
use haltui::state::{Focus, Tab};
use haltui::tree::HalTree;
use haltui::watch::WatchItem;

fn k(code: KeyCode) -> Key {
    Key { code, ctrl: false }
}

fn ch(c: char) -> Key {
    k(KeyCode::Char(c))
}

fn modes(focus: Focus) -> Modes {
    Modes { help: false, help_search: false, input: false, settings: false, focus }
}

#[test]
fn routing_of_keys() {
    let m = modes(Focus::Tree);
    assert_eq!(route_key(&m, ch('q')), Route::Quit);
    assert_eq!(route_key(&m, Key { code: KeyCode::Char('c'), ctrl: true }), Route::Quit);
    assert_eq!(route_key(&m, ch('c')), Route::Tree);
    assert_eq!(route_key(&m, k(KeyCode::F(1))), Route::OpenHelp);
    assert_eq!(route_key(&m, k(KeyCode::Tab)), Route::NextTab);
    assert_eq!(route_key(&m, ch('[')), Route::Narrower);
    assert_eq!(route_key(&modes(Focus::Watch), k(KeyCode::Up)), Route::Watch);
    assert_eq!(route_key(&modes(Focus::Filter), ch('q')), Route::Filter);
    assert_eq!(route_key(&modes(Focus::Command), ch('q')), Route::Command);
    let help = Modes { help: true, ..m };
    assert_eq!(route_key(&help, ch('?')), Route::HelpClose);
    assert_eq!(route_key(&help, ch('/')), Route::HelpSearchStart);
    assert_eq!(route_key(&help, ch('q')), Route::Ignore);
    let search = Modes { help: true, help_search: true, ..m };
    assert_eq!(route_key(&search, ch('q')), Route::HelpSearchType('q'));
    let input = Modes { input: true, ..m };
    assert_eq!(route_key(&input, k(KeyCode::F(1))), Route::Input);
    let settings = Modes { settings: true, ..m };
    assert_eq!(route_key(&settings, k(KeyCode::Esc)), Route::CloseSettings);
    assert_eq!(route_key(&settings, k(KeyCode::Left)), Route::LeaveSettings);
    assert_eq!(route_key(&settings, ch('q')), Route::Settings);
    assert_eq!(other_tab(Tab::Show), Tab::Watch);
}

#[test]
fn filter_and_command_entries() {
    let mut f = String::from("ab");
    assert_eq!(filter_key(&mut f, ch('c')), FilterStep::Rebuild);
    assert_eq!(f, "abc");
    assert_eq!(filter_key(&mut f, k(KeyCode::Backspace)), FilterStep::Rebuild);
    assert_eq!(f, "ab");
    assert_eq!(filter_key(&mut f, k(KeyCode::Enter)), FilterStep::Done);
    assert_eq!(filter_key(&mut f, Key { code: KeyCode::Char('u'), ctrl: true }), FilterStep::Rebuild);
    assert_eq!(f, "");
    assert_eq!(filter_key(&mut f, k(KeyCode::Up)), FilterStep::Ignore);
    let mut c = String::from("show");
    assert_eq!(command_key(&mut c, ch('?')), CommandStep::OpenHelp);
    assert_eq!(c, "show");
    assert_eq!(command_key(&mut c, ch(' ')), CommandStep::Edited);
    assert_eq!(c, "show ");
    assert_eq!(command_key(&mut c, k(KeyCode::Up)), CommandStep::Older);
    assert_eq!(command_key(&mut c, k(KeyCode::Enter)), CommandStep::Run);
    assert_eq!(command_key(&mut c, k(KeyCode::Esc)), CommandStep::ToShow);
}

#[test]
fn scrolling_and_settings() {
    assert_eq!(scroll_by(3, 5, true), 0);
    assert_eq!(scroll_by(3, 5, false), 8);
    assert_eq!(show_key(4, 0, k(KeyCode::PageUp)), (3, ShowStep::Ignore));
    assert_eq!(show_key(4, 10, k(KeyCode::PageDown)), (14, ShowStep::Ignore));
    assert_eq!(show_key(4, 10, k(KeyCode::Home)), (0, ShowStep::Ignore));
    assert_eq!(show_key(4, 10, ch('a')), (4, ShowStep::AddShown));
    assert_eq!(settings_key(None, k(KeyCode::Down)), (Some(1), SettingsStep::Ignore));
    assert_eq!(settings_key(Some(5), k(KeyCode::Down)), (Some(5), SettingsStep::Ignore));
    assert_eq!(settings_key(Some(2), k(KeyCode::Enter)), (Some(2), SettingsStep::Edit(2)));
    assert_eq!(settings_key(Some(4), ch(' ')), (Some(4), SettingsStep::ToggleRemember));
    assert_eq!(settings_key(Some(5), k(KeyCode::Enter)), (Some(5), SettingsStep::Apply));
}

fn watched(name: &str, dtype: &str, writable: i8, value: &str) -> WatchItem {
    WatchItem {
        kind: HalType::Pin,
        name: name.to_string(),
        dtype: dtype.to_string(),
        writable,
        value: value.to_string(),
        error: false,
    }
}

#[test]
fn watch_pane_keys() {
    let items = vec![
        watched("a", "bit", 1, "TRUE"),
        watched("b", "float", 1, " 1.5 "),
        watched("c", "s32", -1, "3"),
        watched("d", "bit", 0, "FALSE"),
    ];
    assert_eq!(watch_key(&items, None, 10, k(KeyCode::Down)).0, Some(0));
    assert_eq!(watch_key(&items, Some(1), 10, k(KeyCode::PageDown)).0, Some(3));
    assert_eq!(watch_key(&items, Some(1), 10, k(KeyCode::Up)).0, Some(0));
    // moving never overflows, even from a selection at the end of the range
    assert_eq!(watch_key(&items, Some(usize::MAX), usize::MAX, k(KeyCode::PageDown)).0, Some(3));
    assert_eq!(watch_key(&items, Some(usize::MAX), 10, k(KeyCode::Down)).0, Some(3));
    assert_eq!(watch_key(&items, Some(0), 10, k(KeyCode::Enter)).1, WatchCmd::EditBit(0, true));
    assert_eq!(watch_key(&items, Some(1), 10, k(KeyCode::Enter)).1, WatchCmd::EditValue(1, "1.5".to_string()));
    assert_eq!(watch_key(&items, Some(2), 10, k(KeyCode::Enter)).1, WatchCmd::Unlink(2));
    assert_eq!(watch_key(&items, Some(3), 10, k(KeyCode::Enter)).1, WatchCmd::Ignore);
    assert_eq!(watch_key(&items, Some(0), 10, ch(' ')).1, WatchCmd::SetBit(0, false));
    assert_eq!(watch_key(&items, Some(0), 10, ch('c')).1, WatchCmd::SetBit(0, false));
    assert_eq!(watch_key(&items, Some(0), 10, ch('s')).1, WatchCmd::SetBit(0, true));
    assert_eq!(watch_key(&items, Some(3), 10, ch('s')).1, WatchCmd::Ignore);
    assert_eq!(watch_key(&items, Some(7), 10, k(KeyCode::Delete)).1, WatchCmd::Remove(7));
    assert_eq!(watch_key(&items, None, 10, ch('m')).1, WatchCmd::SavePrompt(true));
    assert_eq!(watch_key(&items, Some(9), 10, ch('o')).1, WatchCmd::Ignore);
}

#[test]
fn tree_pane_keys() {
    let mut t = HalTree::new();
    let lists: Vec<Vec<String>> = vec![
        vec![],
        vec!["axis.0.pos".to_string()],
        vec![],
        vec![],
        vec![],
        vec![],
    ];
    t.rebuild(&lists);
    let pin = t.roots[1].children[0].children[0].children.first().map(|n| n.path.clone());
    assert_eq!(pin, Some("pin+axis.0.pos".to_string()));
    let axis = &t.roots[1].children[0];
    assert_eq!(tree_key(Some(axis), Tab::Show, false, 5, k(KeyCode::Right)), TreeCmd::Expand);
    assert_eq!(
        tree_key(Some(axis), Tab::Show, false, 5, k(KeyCode::Left)),
        TreeCmd::SelectParent("pin".to_string())
    );
    assert_eq!(tree_key(Some(axis), Tab::Watch, false, 5, k(KeyCode::Enter)), TreeCmd::NotLeaf);
    let leaf = &t.roots[1].children[0].children[0].children[0];
    assert_eq!(tree_key(Some(leaf), Tab::Watch, false, 5, ch(' ')), TreeCmd::Add(true));
    assert_eq!(tree_key(Some(leaf), Tab::Show, false, 5, ch('a')), TreeCmd::Add(false));
    assert_eq!(tree_key(Some(leaf), Tab::Show, false, 5, k(KeyCode::Right)), TreeCmd::Ignore);
    assert_eq!(tree_key(Some(leaf), Tab::Show, true, 5, k(KeyCode::Right)), TreeCmd::PreviewFocus);
    assert_eq!(tree_key(None, Tab::Show, false, 0, k(KeyCode::PageDown)), TreeCmd::Move(1, false));
    assert_eq!(tree_key(Some(&t.roots[1]), Tab::Show, false, 5, k(KeyCode::Left)), TreeCmd::Collapse);
    assert_eq!(tree_key(None, Tab::Show, false, 5, ch('E')), TreeCmd::Ignore);
    assert_eq!(tree_key(Some(leaf), Tab::Show, false, 5, ch('E')), TreeCmd::ExpandKind(HalType::Pin));
}
