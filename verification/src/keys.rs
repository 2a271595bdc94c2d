//! Keys and where they go: the decisions of the key handlers, from the
//! state they look at and the key to the command the application carries
//! out.

use vstd::prelude::*;
use crate::hal::HalType;
use crate::state::{popped, pop_char, Focus, Tab};
use crate::text::{push_char, trim, trim_str};
use crate::tree::{parent_of, parent_path, TreeNode};
use crate::watch::WatchItem;

verus! {

/// The key that was pressed.
#[derive(Clone, Copy, PartialEq, Eq, Debug, Structural)]
pub enum KeyCode {
    Esc,
    Enter,
    Tab,
    BackTab,
    Up,
    Down,
    Left,
    Right,
    PageUp,
    PageDown,
    Home,
    End,
    Backspace,
    Delete,
    F(u8),
    Char(char),
    Other,
}

/// A key with the state of the Control modifier.
#[derive(Clone, Copy, PartialEq, Eq, Debug, Structural)]
pub struct Key {
    pub code: KeyCode,
    pub ctrl: bool,
}

/// The modes that decide where a key goes first.
#[derive(Clone, Copy, Debug)]
pub struct Modes {
    pub help: bool,
    pub help_search: bool,
    pub input: bool,
    pub settings: bool,
    pub focus: Focus,
}

/// Where a key goes.
#[derive(Clone, Copy, PartialEq, Eq, Debug, Structural)]
pub enum Route {
    Ignore,
    HelpClose,
    HelpSearchStart,
    HelpSearchStop,
    HelpSearchNext,
    HelpSearchBack,
    HelpSearchType(char),
    HelpUp,
    HelpDown,
    HelpPageUp,
    HelpPageDown,
    /// To the open prompt.
    Input,
    OpenHelp,
    CloseSettings,
    LeaveSettings,
    /// To the filter entry.
    Filter,
    /// To the command entry.
    Command,
    Quit,
    StartFilter,
    NextTab,
    PrevTab,
    ShowTab,
    WatchTab,
    OpenSettings,
    FocusTree,
    FocusContent,
    CommandEntry,
    Narrower,
    Wider,
    Tree,
    Show,
    Watch,
    Settings,
}

/// The keys of the help overlay while its search line is open.
pub open spec fn help_search_route(k: Key) -> Route {
    match k.code {
        KeyCode::Esc => Route::HelpSearchStop,
        KeyCode::Enter => Route::HelpSearchNext,
        KeyCode::Backspace => Route::HelpSearchBack,
        KeyCode::Char(c) => Route::HelpSearchType(c),
        _ => Route::Ignore,
    }
}

/// The keys of the help overlay.
pub open spec fn help_route(k: Key) -> Route {
    match k.code {
        KeyCode::Esc => Route::HelpClose,
        KeyCode::F(n) => if n == 1 {
            Route::HelpClose
        } else {
            Route::Ignore
        },
        KeyCode::Char(c) => if c == '?' {
            Route::HelpClose
        } else if c == '/' {
            Route::HelpSearchStart
        } else {
            Route::Ignore
        },
        KeyCode::Up => Route::HelpUp,
        KeyCode::Down => Route::HelpDown,
        KeyCode::PageUp => Route::HelpPageUp,
        KeyCode::PageDown => Route::HelpPageDown,
        _ => Route::Ignore,
    }
}

/// The keys that work wherever the tree or a tab has the focus.
pub open spec fn global_route(k: Key) -> Option<Route> {
    match k.code {
        KeyCode::Char(c) => if c == 'q' {
            Some(Route::Quit)
        } else if c == 'c' && k.ctrl {
            Some(Route::Quit)
        } else if c == '?' {
            Some(Route::OpenHelp)
        } else if c == '/' {
            Some(Route::StartFilter)
        } else if c == '1' {
            Some(Route::ShowTab)
        } else if c == '2' {
            Some(Route::WatchTab)
        } else if c == '[' {
            Some(Route::Narrower)
        } else if c == ']' {
            Some(Route::Wider)
        } else {
            None
        },
        KeyCode::Tab => Some(Route::NextTab),
        KeyCode::BackTab => Some(Route::PrevTab),
        KeyCode::F(n) => if n == 5 {
            Some(Route::OpenSettings)
        } else if n == 2 {
            Some(Route::FocusTree)
        } else if n == 3 {
            Some(Route::FocusContent)
        } else if n == 4 {
            Some(Route::CommandEntry)
        } else {
            None
        },
        _ => None,
    }
}

/// Where a key goes: the help overlay takes every key while it is open,
/// then the open prompt; F1 opens the help; the settings screen takes the
/// rest while it is open; then the filter or command entry when focused;
/// then the global keys; then the focused pane.
pub open spec fn route_of(m: Modes, k: Key) -> Route {
    if m.help {
        if m.help_search {
            help_search_route(k)
        } else {
            help_route(k)
        }
    } else if m.input {
        Route::Input
    } else if k.code == KeyCode::F(1) {
        Route::OpenHelp
    } else if m.settings {
        if k.code == KeyCode::F(5) || k.code == KeyCode::Esc {
            Route::CloseSettings
        } else if k.code == KeyCode::Left {
            Route::LeaveSettings
        } else {
            Route::Settings
        }
    } else if m.focus == Focus::Filter {
        Route::Filter
    } else if m.focus == Focus::Command {
        Route::Command
    } else {
        match global_route(k) {
            Some(r) => r,
            None => match m.focus {
                Focus::Tree => Route::Tree,
                Focus::ShowText => Route::Show,
                Focus::Watch => Route::Watch,
                Focus::Settings => Route::Settings,
                _ => Route::Ignore,
            },
        }
    }
}

fn help_key(m: &Modes, k: Key) -> (r: Route)
    requires
        m.help,
    ensures
        r == route_of(*m, k),
{
    if m.help_search {
        match k.code {
            KeyCode::Esc => Route::HelpSearchStop,
            KeyCode::Enter => Route::HelpSearchNext,
            KeyCode::Backspace => Route::HelpSearchBack,
            KeyCode::Char(c) => Route::HelpSearchType(c),
            _ => Route::Ignore,
        }
    } else {
        match k.code {
            KeyCode::Esc => Route::HelpClose,
            KeyCode::F(n) => if n == 1 {
                Route::HelpClose
            } else {
                Route::Ignore
            },
            KeyCode::Char(c) => if c == '?' {
                Route::HelpClose
            } else if c == '/' {
                Route::HelpSearchStart
            } else {
                Route::Ignore
            },
            KeyCode::Up => Route::HelpUp,
            KeyCode::Down => Route::HelpDown,
            KeyCode::PageUp => Route::HelpPageUp,
            KeyCode::PageDown => Route::HelpPageDown,
            _ => Route::Ignore,
        }
    }
}

fn global_key(k: Key) -> (r: Option<Route>)
    ensures
        r == global_route(k),
{
    match k.code {
        KeyCode::Char(c) => if c == 'q' {
            Some(Route::Quit)
        } else if c == 'c' && k.ctrl {
            Some(Route::Quit)
        } else if c == '?' {
            Some(Route::OpenHelp)
        } else if c == '/' {
            Some(Route::StartFilter)
        } else if c == '1' {
            Some(Route::ShowTab)
        } else if c == '2' {
            Some(Route::WatchTab)
        } else if c == '[' {
            Some(Route::Narrower)
        } else if c == ']' {
            Some(Route::Wider)
        } else {
            None
        },
        KeyCode::Tab => Some(Route::NextTab),
        KeyCode::BackTab => Some(Route::PrevTab),
        KeyCode::F(n) => if n == 5 {
            Some(Route::OpenSettings)
        } else if n == 2 {
            Some(Route::FocusTree)
        } else if n == 3 {
            Some(Route::FocusContent)
        } else if n == 4 {
            Some(Route::CommandEntry)
        } else {
            None
        },
        _ => None,
    }
}

/// Where a key goes, given the modes of the application.
pub fn route_key(m: &Modes, k: Key) -> (r: Route)
    ensures
        r == route_of(*m, k),
{
    if m.help {
        help_key(m, k)
    } else if m.input {
        Route::Input
    } else if k.code == KeyCode::F(1) {
        Route::OpenHelp
    } else if m.settings {
        if k.code == KeyCode::F(5) || k.code == KeyCode::Esc {
            Route::CloseSettings
        } else if k.code == KeyCode::Left {
            Route::LeaveSettings
        } else {
            Route::Settings
        }
    } else if m.focus == Focus::Filter {
        Route::Filter
    } else if m.focus == Focus::Command {
        Route::Command
    } else {
        match global_key(k) {
            Some(r) => r,
            None => match m.focus {
                Focus::Tree => Route::Tree,
                Focus::ShowText => Route::Show,
                Focus::Watch => Route::Watch,
                Focus::Settings => Route::Settings,
                _ => Route::Ignore,
            },
        }
    }
}

/// The focus that the content pane of a tab takes.
pub open spec fn content_focus(t: Tab) -> Focus {
    match t {
        Tab::Show => Focus::ShowText,
        Tab::Watch => Focus::Watch,
    }
}

/// The focus that the content pane of a tab takes.
pub fn focus_of_tab(t: Tab) -> (r: Focus)
    ensures
        r == content_focus(t),
{
    match t {
        Tab::Show => Focus::ShowText,
        Tab::Watch => Focus::Watch,
    }
}

/// The other tab.
pub fn other_tab(t: Tab) -> (r: Tab)
    ensures
        r != t,
{
    match t {
        Tab::Show => Tab::Watch,
        Tab::Watch => Tab::Show,
    }
}

// ---------------------------------------------------------------------------
// The filter and command entries

/// What the filter entry does after a key.
#[derive(Clone, Copy, PartialEq, Eq, Debug, Structural)]
pub enum FilterStep {
    Ignore,
    /// The filter changed: rebuild the tree.
    Rebuild,
    /// Leave the entry and rebuild the tree.
    Done,
}

/// A key in the filter entry: Esc and Enter leave it, Control-U clears it,
/// Backspace deletes the last character, a character is appended.
pub open spec fn filter_edit(f: Seq<char>, k: Key) -> (Seq<char>, FilterStep) {
    match k.code {
        KeyCode::Esc | KeyCode::Enter => (f, FilterStep::Done),
        KeyCode::Backspace => (popped(f), FilterStep::Rebuild),
        KeyCode::Char(c) => if c == 'u' && k.ctrl {
            (seq![], FilterStep::Rebuild)
        } else {
            (f.push(c), FilterStep::Rebuild)
        },
        _ => (f, FilterStep::Ignore),
    }
}

/// Typing a character in the filter entry and then Backspace gives the
/// filter back.
pub proof fn lemma_filter_type_then_erase(f: Seq<char>, c: char)
    ensures
        filter_edit(filter_edit(f, Key { code: KeyCode::Char(c), ctrl: false }).0, Key {
            code: KeyCode::Backspace,
            ctrl: false,
        }) == (f, FilterStep::Rebuild),
{
    assert(f.push(c).drop_last() =~= f);
}

/// Applies a key to the filter entry.
pub fn filter_key(filter: &mut String, k: Key) -> (r: FilterStep)
    ensures
        (final(filter)@, r) == filter_edit(old(filter)@, k),
{
    match k.code {
        KeyCode::Esc | KeyCode::Enter => FilterStep::Done,
        KeyCode::Backspace => {
            pop_char(filter);
            FilterStep::Rebuild
        },
        KeyCode::Char(c) => {
            if c == 'u' && k.ctrl {
                *filter = String::new();
            } else {
                push_char(filter, c);
            }
            FilterStep::Rebuild
        },
        _ => FilterStep::Ignore,
    }
}

/// What the command entry does after a key.
#[derive(Clone, Copy, PartialEq, Eq, Debug, Structural)]
pub enum CommandStep {
    Ignore,
    /// Focus the SHOW text.
    ToShow,
    /// Focus the tree.
    ToTree,
    OpenHelp,
    /// Run the command.
    Run,
    /// An older command from the history.
    Older,
    /// A newer command from the history.
    Newer,
    /// The command text changed.
    Edited,
}

/// A key in the command entry.
pub open spec fn command_edit(cmd: Seq<char>, k: Key) -> (Seq<char>, CommandStep) {
    match k.code {
        KeyCode::Esc => (cmd, CommandStep::ToShow),
        KeyCode::Left => (cmd, CommandStep::ToTree),
        KeyCode::Enter => (cmd, CommandStep::Run),
        KeyCode::Up => (cmd, CommandStep::Older),
        KeyCode::Down => (cmd, CommandStep::Newer),
        KeyCode::Backspace => (popped(cmd), CommandStep::Edited),
        KeyCode::Char(c) => if c == '?' {
            (cmd, CommandStep::OpenHelp)
        } else if c == 'u' && k.ctrl {
            (seq![], CommandStep::Edited)
        } else {
            (cmd.push(c), CommandStep::Edited)
        },
        _ => (cmd, CommandStep::Ignore),
    }
}

/// Applies a key to the command entry.
pub fn command_key(cmd: &mut String, k: Key) -> (r: CommandStep)
    ensures
        (final(cmd)@, r) == command_edit(old(cmd)@, k),
{
    match k.code {
        KeyCode::Esc => CommandStep::ToShow,
        KeyCode::Left => CommandStep::ToTree,
        KeyCode::Enter => CommandStep::Run,
        KeyCode::Up => CommandStep::Older,
        KeyCode::Down => CommandStep::Newer,
        KeyCode::Backspace => {
            pop_char(cmd);
            CommandStep::Edited
        },
        KeyCode::Char(c) => {
            if c == '?' {
                CommandStep::OpenHelp
            } else if c == 'u' && k.ctrl {
                *cmd = String::new();
                CommandStep::Edited
            } else {
                push_char(cmd, c);
                CommandStep::Edited
            }
        },
        _ => CommandStep::Ignore,
    }
}

// ---------------------------------------------------------------------------
// Scrolling and selections

/// `s` moved by `n` lines up (not past the top) or down.
pub open spec fn scrolled(s: nat, n: nat, up: bool) -> nat {
    if up {
        if s >= n {
            (s - n) as nat
        } else {
            0
        }
    } else {
        s + n
    }
}

/// A scroll position moved by `n` lines.
pub fn scroll_by(s: usize, n: usize, up: bool) -> (r: usize)
    requires
        up || s + n <= usize::MAX,
    ensures
        r == scrolled(s as nat, n as nat, up),
{
    if up {
        if s >= n {
            s - n
        } else {
            0
        }
    } else {
        s + n
    }
}

/// A page is at least one line.
pub open spec fn page_of(page: nat) -> nat {
    if page == 0 {
        1
    } else {
        page
    }
}

/// What the SHOW text pane does after a key, besides scrolling.
#[derive(Clone, Copy, PartialEq, Eq, Debug, Structural)]
pub enum ShowStep {
    Ignore,
    ToTree,
    /// Add the shown object to the watch list.
    AddShown,
    ToCommand,
}

/// A key in the SHOW text pane: the new scroll position and the step.
pub open spec fn show_move(scroll: nat, page: nat, k: Key) -> (nat, ShowStep) {
    match k.code {
        KeyCode::Left => (scroll, ShowStep::ToTree),
        KeyCode::Up => (scrolled(scroll, 1, true), ShowStep::Ignore),
        KeyCode::Down => (scroll + 1, ShowStep::Ignore),
        KeyCode::PageUp => (scrolled(scroll, page_of(page), true), ShowStep::Ignore),
        KeyCode::PageDown => (scroll + page_of(page), ShowStep::Ignore),
        KeyCode::Home => (0, ShowStep::Ignore),
        KeyCode::Char(c) => if c == 'a' {
            (scroll, ShowStep::AddShown)
        } else if c == 'c' {
            (scroll, ShowStep::ToCommand)
        } else {
            (scroll, ShowStep::Ignore)
        },
        _ => (scroll, ShowStep::Ignore),
    }
}

/// Applies a key to the SHOW text pane.
pub fn show_key(scroll: usize, page: usize, k: Key) -> (r: (usize, ShowStep))
    requires
        scroll + page_of(page as nat) <= usize::MAX,
    ensures
        (r.0 as nat, r.1) == show_move(scroll as nat, page as nat, k),
{
    let pg = if page == 0 {
        1
    } else {
        page
    };
    match k.code {
        KeyCode::Left => (scroll, ShowStep::ToTree),
        KeyCode::Up => (scroll_by(scroll, 1, true), ShowStep::Ignore),
        KeyCode::Down => (scroll + 1, ShowStep::Ignore),
        KeyCode::PageUp => (scroll_by(scroll, pg, true), ShowStep::Ignore),
        KeyCode::PageDown => (scroll + pg, ShowStep::Ignore),
        KeyCode::Home => (0, ShowStep::Ignore),
        KeyCode::Char(c) => if c == 'a' {
            (scroll, ShowStep::AddShown)
        } else if c == 'c' {
            (scroll, ShowStep::ToCommand)
        } else {
            (scroll, ShowStep::Ignore)
        },
        _ => (scroll, ShowStep::Ignore),
    }
}

/// What the settings screen does after a key, besides moving the selection.
#[derive(Clone, Copy, PartialEq, Eq, Debug, Structural)]
pub enum SettingsStep {
    Ignore,
    /// Edit the setting with this index (interval, column width, float
    /// format, integer format).
    Edit(usize),
    /// Flip whether the watch list is remembered.
    ToggleRemember,
    /// Apply the settings.
    Apply,
}

/// The entries of the settings screen: four settings, the remember flag
/// and Apply.
pub open spec fn settings_count() -> nat {
    6
}

/// A key on the settings screen: the new selection and the step.
pub open spec fn settings_move(sel: Option<usize>, k: Key) -> (Option<usize>, SettingsStep) {
    let s = match sel {
        Some(i) => i as nat,
        None => 0,
    };
    match k.code {
        KeyCode::Up => (Some(scrolled(s, 1, true) as usize), SettingsStep::Ignore),
        KeyCode::Down => (Some((if s + 1 < settings_count() {
            s + 1
        } else {
            (settings_count() - 1) as nat
        }) as usize), SettingsStep::Ignore),
        KeyCode::Enter => (sel, settings_choice(s)),
        KeyCode::Char(c) => if c == ' ' {
            (sel, settings_choice(s))
        } else {
            (sel, SettingsStep::Ignore)
        },
        _ => (sel, SettingsStep::Ignore),
    }
}

/// What choosing the selected entry does.
pub open spec fn settings_choice(s: nat) -> SettingsStep {
    if s <= 3 {
        SettingsStep::Edit(s as usize)
    } else if s == 4 {
        SettingsStep::ToggleRemember
    } else {
        SettingsStep::Apply
    }
}

/// Applies a key to the settings screen.
pub fn settings_key(sel: Option<usize>, k: Key) -> (r: (Option<usize>, SettingsStep))
    ensures
        r == settings_move(sel, k),
{
    let s = match sel {
        Some(i) => i,
        None => 0,
    };
    let choice = if s <= 3 {
        SettingsStep::Edit(s)
    } else if s == 4 {
        SettingsStep::ToggleRemember
    } else {
        SettingsStep::Apply
    };
    match k.code {
        KeyCode::Up => (Some(scroll_by(s, 1, true)), SettingsStep::Ignore),
        KeyCode::Down => (Some(if s < 5 {
            s + 1
        } else {
            5
        }), SettingsStep::Ignore),
        KeyCode::Enter => (sel, choice),
        KeyCode::Char(c) => if c == ' ' {
            (sel, choice)
        } else {
            (sel, SettingsStep::Ignore)
        },
        _ => (sel, SettingsStep::Ignore),
    }
}

/// The last index of a list of `len` entries (0 when it is empty).
pub open spec fn last_index(len: nat) -> nat {
    if len > 0 {
        (len - 1) as nat
    } else {
        0
    }
}

/// The selection of the watch list after a movement key: up and down by one
/// or a page, never past either end; the first entry when nothing was
/// selected and the list is not empty.
pub open spec fn list_move(sel: Option<usize>, len: nat, page: nat, k: Key) -> Option<usize> {
    let step: Option<(nat, bool)> = match k.code {
        KeyCode::Up => Some((1nat, true)),
        KeyCode::Down => Some((1nat, false)),
        KeyCode::PageUp => Some((page_of(page), true)),
        KeyCode::PageDown => Some((page_of(page), false)),
        _ => None,
    };
    match step {
        None => sel,
        Some((n, up)) => match sel {
            Some(s) => Some((if up {
                scrolled(s as nat, n, true)
            } else if s + n < last_index(len) {
                (s + n) as nat
            } else {
                last_index(len)
            }) as usize),
            None => if len > 0 {
                Some(0usize)
            } else {
                None
            },
        },
    }
}

fn list_step(sel: Option<usize>, len: usize, page: usize, k: Key) -> (r: Option<usize>)
    ensures
        r == list_move(sel, len as nat, page as nat, k),
{
    let pg = if page == 0 {
        1
    } else {
        page
    };
    let last = if len > 0 {
        len - 1
    } else {
        0
    };
    let (n, up) = match k.code {
        KeyCode::Up => (1, true),
        KeyCode::Down => (1, false),
        KeyCode::PageUp => (pg, true),
        KeyCode::PageDown => (pg, false),
        _ => {
            return sel;
        },
    };
    match sel {
        Some(s) => Some(if up {
            scroll_by(s, n, true)
        } else if n < last && s < last - n {
            s + n
        } else {
            last
        }),
        None => if len > 0 {
            Some(0)
        } else {
            None
        },
    }
}

// ---------------------------------------------------------------------------
// The watch list pane

/// What the watch list pane does after a key.
#[derive(Clone, PartialEq, Eq, Debug)]
pub enum WatchCmd {
    Ignore,
    ToTree,
    /// Open the bit prompt for item `i`, with the given choice.
    EditBit(usize, bool),
    /// Open the value prompt for item `i`, with the given text.
    EditValue(usize, String),
    /// Unlink item `i`.
    Unlink(usize),
    /// Set bit item `i` to the value (true for `1`).
    SetBit(usize, bool),
    /// Remove item `i`.
    Remove(usize),
    Reload,
    Erase,
    /// Open the prompt for a name to add.
    AddPrompt,
    /// Show item `i` in the tree and the SHOW tab.
    Open(usize),
    LoadPrompt,
    /// Open the save dialog; the flag asks for the multiline format.
    SavePrompt(bool),
}

impl WatchCmd {
    /// Whether this opens the value prompt for item `i`.
    pub open spec fn is_edit_value_at(self, i: usize) -> bool {
        self matches WatchCmd::EditValue(j, _) && j == i
    }
}

/// Whether an item is a writable bit.
pub open spec fn writable_bit(w: WatchItem) -> bool {
    w.writable == 1 && w.dtype@ == "bit"@
}

/// The command a key gives on the watch list pane, for the selected item.
pub open spec fn watch_cmd(items: Seq<WatchItem>, sel: Option<usize>, k: Key) -> WatchCmd {
    let chosen = match sel {
        Some(i) => if i < items.len() {
            Some(i)
        } else {
            None
        },
        None => None,
    };
    match k.code {
        KeyCode::Left => WatchCmd::ToTree,
        KeyCode::Enter => match chosen {
            Some(i) => if items[i as int].writable == 1 {
                if items[i as int].dtype@ == "bit"@ {
                    WatchCmd::EditBit(i, items[i as int].value@ == "TRUE"@)
                } else {
                    WatchCmd::Ignore
                }
            } else if items[i as int].writable == -1 {
                WatchCmd::Unlink(i)
            } else {
                WatchCmd::Ignore
            },
            None => WatchCmd::Ignore,
        },
        KeyCode::Delete => match sel {
            Some(i) => WatchCmd::Remove(i),
            None => WatchCmd::Ignore,
        },
        KeyCode::Char(c) => if c == 's' || c == 'c' {
            match chosen {
                Some(i) => if writable_bit(items[i as int]) {
                    WatchCmd::SetBit(i, c == 's')
                } else {
                    WatchCmd::Ignore
                },
                None => WatchCmd::Ignore,
            }
        } else if c == ' ' {
            match chosen {
                Some(i) => if writable_bit(items[i as int]) {
                    WatchCmd::SetBit(i, items[i as int].value@ != "TRUE"@)
                } else {
                    WatchCmd::Ignore
                },
                None => WatchCmd::Ignore,
            }
        } else if c == 'u' {
            match sel {
                Some(i) => WatchCmd::Unlink(i),
                None => WatchCmd::Ignore,
            }
        } else if c == 'x' {
            match sel {
                Some(i) => WatchCmd::Remove(i),
                None => WatchCmd::Ignore,
            }
        } else if c == 'r' {
            WatchCmd::Reload
        } else if c == 'e' {
            WatchCmd::Erase
        } else if c == 'a' {
            WatchCmd::AddPrompt
        } else if c == 'o' {
            match chosen {
                Some(i) => WatchCmd::Open(i),
                None => WatchCmd::Ignore,
            }
        } else if c == 'L' {
            WatchCmd::LoadPrompt
        } else if c == 'S' {
            WatchCmd::SavePrompt(false)
        } else if c == 'm' {
            WatchCmd::SavePrompt(true)
        } else {
            WatchCmd::Ignore
        },
        _ => WatchCmd::Ignore,
    }
}

/// A key on the watch list pane: the new selection and the command. Enter
/// on a writable item opens its prompt (a bit prompt for bits, a value
/// prompt seeded with the trimmed value otherwise), on a linked one unlinks
/// it.
pub fn watch_key(items: &Vec<WatchItem>, sel: Option<usize>, page: usize, k: Key) -> (r: (
    Option<usize>,
    WatchCmd,
))
    ensures
        r.0 == list_move(sel, items@.len() as nat, page as nat, k),
        k.code == KeyCode::Char('S') ==> r.1 == WatchCmd::SavePrompt(false),
        k.code == KeyCode::Char('m') ==> r.1 == WatchCmd::SavePrompt(true),
        match r.1 {
            WatchCmd::EditValue(i, t) => sel == Some(i) && i < items@.len() && items@[i as int].writable
                == 1 && items@[i as int].dtype@ != "bit"@ && k.code == KeyCode::Enter && t@ == trim(
                items@[i as int].value@,
            ),
            other => other == watch_cmd(items@, sel, k),
        },
        forall|i: usize|
            k.code == KeyCode::Enter && sel == Some(i) && i < items@.len() && items@[i as int].writable
                == 1 && items@[i as int].dtype@ != "bit"@ ==> (#[trigger] r.1.is_edit_value_at(i)),
{
    let moved = list_step(sel, items.len(), page, k);
    let chosen = match sel {
        Some(i) => if i < items.len() {
            Some(i)
        } else {
            None
        },
        None => None,
    };
    proof {
        reveal_strlit("bit");
        reveal_strlit("TRUE");
    }
    let cmd = match k.code {
        KeyCode::Left => WatchCmd::ToTree,
        KeyCode::Enter => match chosen {
            Some(i) => {
                let w = &items[i];
                if w.writable == 1 {
                    if crate::text::str_eq(w.dtype.as_str(), "bit") {
                        WatchCmd::EditBit(i, crate::text::str_eq(w.value.as_str(), "TRUE"))
                    } else {
                        WatchCmd::EditValue(i, trim_str(w.value.as_str()))
                    }
                } else if w.writable == -1 {
                    WatchCmd::Unlink(i)
                } else {
                    WatchCmd::Ignore
                }
            },
            None => WatchCmd::Ignore,
        },
        KeyCode::Delete => match sel {
            Some(i) => WatchCmd::Remove(i),
            None => WatchCmd::Ignore,
        },
        KeyCode::Char(c) => if c == 's' || c == 'c' {
            match chosen {
                Some(i) => if items[i].writable == 1 && crate::text::str_eq(
                    items[i].dtype.as_str(),
                    "bit",
                ) {
                    WatchCmd::SetBit(i, c == 's')
                } else {
                    WatchCmd::Ignore
                },
                None => WatchCmd::Ignore,
            }
        } else if c == ' ' {
            match chosen {
                Some(i) => if items[i].writable == 1 && crate::text::str_eq(
                    items[i].dtype.as_str(),
                    "bit",
                ) {
                    WatchCmd::SetBit(i, !crate::text::str_eq(items[i].value.as_str(), "TRUE"))
                } else {
                    WatchCmd::Ignore
                },
                None => WatchCmd::Ignore,
            }
        } else if c == 'u' {
            match sel {
                Some(i) => WatchCmd::Unlink(i),
                None => WatchCmd::Ignore,
            }
        } else if c == 'x' {
            match sel {
                Some(i) => WatchCmd::Remove(i),
                None => WatchCmd::Ignore,
            }
        } else if c == 'r' {
            WatchCmd::Reload
        } else if c == 'e' {
            WatchCmd::Erase
        } else if c == 'a' {
            WatchCmd::AddPrompt
        } else if c == 'o' {
            match chosen {
                Some(i) => WatchCmd::Open(i),
                None => WatchCmd::Ignore,
            }
        } else if c == 'L' {
            WatchCmd::LoadPrompt
        } else if c == 'S' {
            WatchCmd::SavePrompt(false)
        } else if c == 'm' {
            WatchCmd::SavePrompt(true)
        } else {
            WatchCmd::Ignore
        },
        _ => WatchCmd::Ignore,
    };
    (moved, cmd)
}

// ---------------------------------------------------------------------------
// The tree pane

/// What the tree pane does after a key.
#[derive(Clone, PartialEq, Eq, Debug)]
pub enum TreeCmd {
    Ignore,
    /// Move the selection by this many rows, up or down, and preview it.
    Move(usize, bool),
    /// Expand the selected node.
    Expand,
    /// Collapse the selected node.
    Collapse,
    /// Select this parent path and preview it.
    SelectParent(String),
    /// Preview the selection and focus the right pane.
    PreviewFocus,
    /// Add the selected leaf to the watch list; the flag asks for a poll.
    Add(bool),
    /// Flip whether the selected node is expanded.
    ToggleExpand,
    /// Show the selected node in the SHOW tab.
    ShowNode,
    /// The selected node is not a leaf, so it cannot be watched.
    NotLeaf,
    /// Add every leaf below the selected node.
    AddAll,
    /// Switch to the SHOW tab and show the selected node.
    ShowInShowTab,
    ExpandAll,
    CollapseAll,
    ExpandKind(HalType),
    CollapseKind(HalType),
    ToggleFullPath,
    Rebuild,
}

/// The command a key gives on the tree pane. `node` is the selected node,
/// `scrollable` tells whether the SHOW text is longer than a page.
pub open spec fn tree_cmd(node: Option<TreeNode>, tab: Tab, scrollable: bool, page: nat, k: Key) -> TreeCmd {
    match k.code {
        KeyCode::Up => TreeCmd::Move(1, true),
        KeyCode::Down => TreeCmd::Move(1, false),
        KeyCode::PageUp => TreeCmd::Move(page_of(page) as usize, true),
        KeyCode::PageDown => TreeCmd::Move(page_of(page) as usize, false),
        KeyCode::Right => match node {
            Some(n) => if !n.expanded && n.children@.len() > 0 {
                TreeCmd::Expand
            } else if tab != Tab::Show || scrollable {
                TreeCmd::PreviewFocus
            } else {
                TreeCmd::Ignore
            },
            None => TreeCmd::Ignore,
        },
        KeyCode::Enter => match node {
            Some(n) => if tab == Tab::Show {
                TreeCmd::ShowNode
            } else if n.leaf {
                TreeCmd::Add(true)
            } else {
                TreeCmd::NotLeaf
            },
            None => TreeCmd::Ignore,
        },
        KeyCode::Char(c) => if c == ' ' {
            match node {
                Some(n) => if n.leaf && tab == Tab::Watch {
                    TreeCmd::Add(true)
                } else {
                    TreeCmd::ToggleExpand
                },
                None => TreeCmd::Ignore,
            }
        } else if c == 'a' {
            match node {
                Some(n) => if n.leaf {
                    TreeCmd::Add(false)
                } else {
                    TreeCmd::NotLeaf
                },
                None => TreeCmd::Ignore,
            }
        } else if c == 'A' {
            if node is Some {
                TreeCmd::AddAll
            } else {
                TreeCmd::Ignore
            }
        } else if c == 's' {
            if node is Some {
                TreeCmd::ShowInShowTab
            } else {
                TreeCmd::Ignore
            }
        } else if c == 'e' {
            TreeCmd::ExpandAll
        } else if c == 'w' {
            TreeCmd::CollapseAll
        } else if c == 'E' {
            match node {
                Some(n) => TreeCmd::ExpandKind(n.kind),
                None => TreeCmd::Ignore,
            }
        } else if c == 'W' {
            match node {
                Some(n) => TreeCmd::CollapseKind(n.kind),
                None => TreeCmd::Ignore,
            }
        } else if c == 'f' {
            TreeCmd::ToggleFullPath
        } else if c == 'r' {
            TreeCmd::Rebuild
        } else {
            TreeCmd::Ignore
        },
        _ => TreeCmd::Ignore,
    }
}

/// A key on the tree pane. Left collapses an expanded branch, else selects
/// the parent; the other keys give [`tree_cmd`].
pub fn tree_key(node: Option<&TreeNode>, tab: Tab, scrollable: bool, page: usize, k: Key) -> (r: TreeCmd)
    ensures
        k.code == KeyCode::Char('e') ==> r == TreeCmd::ExpandAll,
        k.code == KeyCode::Char('w') ==> r == TreeCmd::CollapseAll,
        k.code == KeyCode::Left ==> match node {
            Some(n) => if n.expanded && n.children@.len() > 0 {
                r == TreeCmd::Collapse
            } else {
                match parent_of(n.path@) {
                    Some(p) => r matches TreeCmd::SelectParent(x) && x@ == p,
                    None => r == TreeCmd::Ignore,
                }
            },
            None => r == TreeCmd::Ignore,
        },
        k.code != KeyCode::Left ==> r == tree_cmd(
            match node {
                Some(n) => Some(*n),
                None => None,
            },
            tab,
            scrollable,
            page as nat,
            k,
        ),
{
    let pg = if page == 0 {
        1
    } else {
        page
    };
    match k.code {
        KeyCode::Up => TreeCmd::Move(1, true),
        KeyCode::Down => TreeCmd::Move(1, false),
        KeyCode::PageUp => TreeCmd::Move(pg, true),
        KeyCode::PageDown => TreeCmd::Move(pg, false),
        KeyCode::Left => match node {
            Some(n) => if n.expanded && n.is_branch() {
                TreeCmd::Collapse
            } else {
                match parent_path(n.path.as_str()) {
                    Some(p) => TreeCmd::SelectParent(p),
                    None => TreeCmd::Ignore,
                }
            },
            None => TreeCmd::Ignore,
        },
        KeyCode::Right => match node {
            Some(n) => if !n.expanded && n.is_branch() {
                TreeCmd::Expand
            } else if tab != Tab::Show || scrollable {
                TreeCmd::PreviewFocus
            } else {
                TreeCmd::Ignore
            },
            None => TreeCmd::Ignore,
        },
        KeyCode::Enter => match node {
            Some(n) => if tab == Tab::Show {
                TreeCmd::ShowNode
            } else if n.leaf {
                TreeCmd::Add(true)
            } else {
                TreeCmd::NotLeaf
            },
            None => TreeCmd::Ignore,
        },
        KeyCode::Char(c) => if c == ' ' {
            match node {
                Some(n) => if n.leaf && tab == Tab::Watch {
                    TreeCmd::Add(true)
                } else {
                    TreeCmd::ToggleExpand
                },
                None => TreeCmd::Ignore,
            }
        } else if c == 'a' {
            match node {
                Some(n) => if n.leaf {
                    TreeCmd::Add(false)
                } else {
                    TreeCmd::NotLeaf
                },
                None => TreeCmd::Ignore,
            }
        } else if c == 'A' {
            if node.is_some() {
                TreeCmd::AddAll
            } else {
                TreeCmd::Ignore
            }
        } else if c == 's' {
            if node.is_some() {
                TreeCmd::ShowInShowTab
            } else {
                TreeCmd::Ignore
            }
        } else if c == 'e' {
            TreeCmd::ExpandAll
        } else if c == 'w' {
            TreeCmd::CollapseAll
        } else if c == 'E' {
            match node {
                Some(n) => TreeCmd::ExpandKind(n.kind),
                None => TreeCmd::Ignore,
            }
        } else if c == 'W' {
            match node {
                Some(n) => TreeCmd::CollapseKind(n.kind),
                None => TreeCmd::Ignore,
            }
        } else if c == 'f' {
            TreeCmd::ToggleFullPath
        } else if c == 'r' {
            TreeCmd::Rebuild
        } else {
            TreeCmd::Ignore
        },
        _ => TreeCmd::Ignore,
    }
}

// ---------------------------------------------------------------------------
// What the keys of the panes mean

/// The keys of the tree pane, whatever node is selected and whichever tab
/// is shown: `e` expands every node and `w` collapses every node; `E` and
/// `W` do so for the selected node's kind; `f` switches full-path
/// filtering; `r` rebuilds the tree; the arrows move one row and the page
/// keys a page (at least one row), up or down.
pub proof fn lemma_tree_keys(node: Option<TreeNode>, tab: Tab, scrollable: bool, page: nat, ctrl: bool)
    ensures
        tree_cmd(node, tab, scrollable, page, Key { code: KeyCode::Char('e'), ctrl })
            == TreeCmd::ExpandAll,
        tree_cmd(node, tab, scrollable, page, Key { code: KeyCode::Char('w'), ctrl })
            == TreeCmd::CollapseAll,
        node matches Some(n) ==> tree_cmd(
            node,
            tab,
            scrollable,
            page,
            Key { code: KeyCode::Char('E'), ctrl },
        ) == TreeCmd::ExpandKind(n.kind),
        node matches Some(n) ==> tree_cmd(
            node,
            tab,
            scrollable,
            page,
            Key { code: KeyCode::Char('W'), ctrl },
        ) == TreeCmd::CollapseKind(n.kind),
        tree_cmd(node, tab, scrollable, page, Key { code: KeyCode::Char('f'), ctrl })
            == TreeCmd::ToggleFullPath,
        tree_cmd(node, tab, scrollable, page, Key { code: KeyCode::Char('r'), ctrl })
            == TreeCmd::Rebuild,
        tree_cmd(node, tab, scrollable, page, Key { code: KeyCode::Up, ctrl }) == TreeCmd::Move(
            1,
            true,
        ),
        tree_cmd(node, tab, scrollable, page, Key { code: KeyCode::Down, ctrl }) == TreeCmd::Move(
            1,
            false,
        ),
        page >= 1 && page <= usize::MAX ==> tree_cmd(
            node,
            tab,
            scrollable,
            page,
            Key { code: KeyCode::PageUp, ctrl },
        ) == TreeCmd::Move(page as usize, true),
        page >= 1 && page <= usize::MAX ==> tree_cmd(
            node,
            tab,
            scrollable,
            page,
            Key { code: KeyCode::PageDown, ctrl },
        ) == TreeCmd::Move(page as usize, false),
        tree_cmd(node, tab, scrollable, 0, Key { code: KeyCode::PageDown, ctrl }) == TreeCmd::Move(
            1,
            false,
        ),
{
}

/// The keys of the watch pane, whatever the list and the selection: `S`
/// saves in the one-line layout and `m` in the multi-line layout; `r`
/// reloads, `e` erases, `a` asks for a name, `L` loads and Left goes to the
/// tree. With item `i` selected, `x` and Delete remove it and `u` unlinks
/// it; on a writable bit `s` sets it, `c` clears it and Space flips it.
pub proof fn lemma_watch_keys(items: Seq<WatchItem>, sel: Option<usize>, i: usize, ctrl: bool)
    ensures
        watch_cmd(items, sel, Key { code: KeyCode::Char('S'), ctrl }) == WatchCmd::SavePrompt(false),
        watch_cmd(items, sel, Key { code: KeyCode::Char('m'), ctrl }) == WatchCmd::SavePrompt(true),
        watch_cmd(items, sel, Key { code: KeyCode::Char('r'), ctrl }) == WatchCmd::Reload,
        watch_cmd(items, sel, Key { code: KeyCode::Char('e'), ctrl }) == WatchCmd::Erase,
        watch_cmd(items, sel, Key { code: KeyCode::Char('a'), ctrl }) == WatchCmd::AddPrompt,
        watch_cmd(items, sel, Key { code: KeyCode::Char('L'), ctrl }) == WatchCmd::LoadPrompt,
        watch_cmd(items, sel, Key { code: KeyCode::Left, ctrl }) == WatchCmd::ToTree,
        sel == Some(i) ==> watch_cmd(items, sel, Key { code: KeyCode::Char('x'), ctrl })
            == WatchCmd::Remove(i),
        sel == Some(i) ==> watch_cmd(items, sel, Key { code: KeyCode::Delete, ctrl })
            == WatchCmd::Remove(i),
        sel == Some(i) ==> watch_cmd(items, sel, Key { code: KeyCode::Char('u'), ctrl })
            == WatchCmd::Unlink(i),
        sel == Some(i) && i < items.len() && items[i as int].writable == 1 && items[i as int].dtype@
            == "bit"@ ==> {
            &&& watch_cmd(items, sel, Key { code: KeyCode::Char('s'), ctrl }) == WatchCmd::SetBit(
                i,
                true,
            )
            &&& watch_cmd(items, sel, Key { code: KeyCode::Char('c'), ctrl }) == WatchCmd::SetBit(
                i,
                false,
            )
            &&& watch_cmd(items, sel, Key { code: KeyCode::Char(' '), ctrl }) == WatchCmd::SetBit(
                i,
                items[i as int].value@ != "TRUE"@,
            )
        },
{
}

/// The keys of the tree pane that act on the selected node `n`: `A` adds
/// every leaf below it, `s` shows it in the SHOW tab; Enter shows it in the
/// SHOW tab, or on the WATCH tab adds a leaf (and refuses a branch); `a`
/// adds a leaf without polling and refuses a branch; Space adds a leaf on
/// the WATCH tab and otherwise opens or closes the node; Right opens a
/// closed branch. With no node selected these keys do nothing.
pub proof fn lemma_tree_node_keys(node: Option<TreeNode>, tab: Tab, scrollable: bool, page: nat, ctrl: bool)
    ensures
        node matches Some(n) ==> {
            &&& tree_cmd(node, tab, scrollable, page, Key { code: KeyCode::Char('A'), ctrl })
                == TreeCmd::AddAll
            &&& tree_cmd(node, tab, scrollable, page, Key { code: KeyCode::Char('s'), ctrl })
                == TreeCmd::ShowInShowTab
            &&& tree_cmd(node, Tab::Show, scrollable, page, Key { code: KeyCode::Enter, ctrl })
                == TreeCmd::ShowNode
            &&& tree_cmd(node, Tab::Watch, scrollable, page, Key { code: KeyCode::Enter, ctrl })
                == (if n.leaf {
                TreeCmd::Add(true)
            } else {
                TreeCmd::NotLeaf
            })
            &&& tree_cmd(node, tab, scrollable, page, Key { code: KeyCode::Char('a'), ctrl })
                == (if n.leaf {
                TreeCmd::Add(false)
            } else {
                TreeCmd::NotLeaf
            })
            &&& tree_cmd(node, tab, scrollable, page, Key { code: KeyCode::Char(' '), ctrl })
                == (if n.leaf && tab == Tab::Watch {
                TreeCmd::Add(true)
            } else {
                TreeCmd::ToggleExpand
            })
            &&& (!n.expanded && n.children@.len() > 0 ==> tree_cmd(
                node,
                tab,
                scrollable,
                page,
                Key { code: KeyCode::Right, ctrl },
            ) == TreeCmd::Expand)
        },
        node is None ==> {
            &&& tree_cmd(node, tab, scrollable, page, Key { code: KeyCode::Char('A'), ctrl })
                == TreeCmd::Ignore
            &&& tree_cmd(node, tab, scrollable, page, Key { code: KeyCode::Enter, ctrl })
                == TreeCmd::Ignore
            &&& tree_cmd(node, tab, scrollable, page, Key { code: KeyCode::Char('a'), ctrl })
                == TreeCmd::Ignore
            &&& tree_cmd(node, tab, scrollable, page, Key { code: KeyCode::Char(' '), ctrl })
                == TreeCmd::Ignore
        },
{
}

/// Enter on the watch pane, with item `i` selected: a writable bit opens
/// the bit prompt at its current value (TRUE or not), a linked item is
/// unlinked, and an item that cannot be written is left alone.
pub proof fn lemma_watch_enter(items: Seq<WatchItem>, i: usize, ctrl: bool)
    requires
        i < items.len(),
    ensures
        items[i as int].writable == 1 && items[i as int].dtype@ == "bit"@ ==> watch_cmd(
            items,
            Some(i),
            Key { code: KeyCode::Enter, ctrl },
        ) == WatchCmd::EditBit(i, items[i as int].value@ == "TRUE"@),
        items[i as int].writable == -1 ==> watch_cmd(items, Some(i), Key { code: KeyCode::Enter, ctrl })
            == WatchCmd::Unlink(i),
        items[i as int].writable != 1 && items[i as int].writable != -1 ==> watch_cmd(
            items,
            Some(i),
            Key { code: KeyCode::Enter, ctrl },
        ) == WatchCmd::Ignore,
        watch_cmd(items, None, Key { code: KeyCode::Enter, ctrl }) == WatchCmd::Ignore,
{
}

} // verus!
