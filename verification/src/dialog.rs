//! The input prompts: a line of text, a bit choice, and the file dialog
//! for watch files. The dialog's directory is read by the application; this
//! module decides what it lists, where the keys take it and which file it
//! gives back.

use vstd::prelude::*;
use crate::keys::{Key, KeyCode};
use crate::state::{bit_pick_of, edit_line, line_edit, pick_bit};
use crate::state::{
    char_count, inserted_at, insert_char_at, normalized, norm_path, remove_char_at, removed_at,
    InputAction, InputKind,
};
use crate::text::{
    chars_of, find_sub, first_sub, owned, push_str, rfind_char, last_pos, sort_texts, sorted_texts,
    string_of_range, text_le, trim, trim_str, views,
};
use crate::control::{lowercase, to_lower};

verus! {

broadcast use vstd::string::group_string_axioms;

/// State of the file open/save dialog; `entries` are full paths (the
/// parent, directories, then files).
#[derive(Debug)]
pub struct FileDialog {
    pub save: bool,
    pub dir: String,
    pub entries: Vec<String>,
    pub selected: usize,
    pub scroll: usize,
    /// true = editing the filter (load) / file-name (save) field
    pub field: bool,
    pub error: Option<String>,
}

/// An open input prompt.
#[derive(Debug)]
pub struct InputState {
    pub kind: InputKind,
    pub prompt: String,
    pub buffer: String,
    pub cursor: usize,
    /// selected radio in BitPick mode
    pub bit_value: bool,
    pub action: InputAction,
    pub dialog: Option<FileDialog>,
}

// ---------------------------------------------------------------------------
// Paths

/// `name` under the directory `dir` (`Path::join` for a plain name).
pub open spec fn joined_path(dir: Seq<char>, name: Seq<char>) -> Seq<char> {
    if name.len() > 0 && name[0] == '/' {
        name
    } else if dir.len() == 0 {
        name
    } else if dir.last() == '/' {
        dir + name
    } else {
        dir + seq!['/'] + name
    }
}

/// `name` under the directory `dir`.
pub fn join_path(dir: &str, name: &str) -> (r: String)
    ensures
        r@ == joined_path(dir@, name@),
{
    let n = chars_of(name);
    let d = chars_of(dir);
    if n.len() > 0 && n[0] == '/' {
        return owned(name);
    }
    let mut r = owned(dir);
    if d.len() > 0 && d[d.len() - 1] != '/' {
        crate::text::push_char(&mut r, '/');
    }
    push_str(&mut r, name);
    r
}

/// The parent of a normalized directory: none for the root, else what
/// precedes the last `/` (the root for a top-level directory, the empty
/// path for a relative one without `/`).
pub open spec fn parent_dir(p: Seq<char>) -> Option<Seq<char>> {
    if p.len() == 0 || p == seq!['/'] {
        None
    } else {
        match last_pos(p, '/') {
            Some(i) => if i == 0 {
                Some(seq!['/'])
            } else {
                Some(p.take(i))
            },
            None => Some(seq![]),
        }
    }
}

/// The parent of a normalized directory.
pub fn parent_of_dir(p: &str) -> (r: Option<String>)
    ensures
        match r {
            Some(x) => parent_dir(p@) == Some(x@),
            None => parent_dir(p@) is None,
        },
{
    let v = chars_of(p);
    if v.len() == 0 || (v.len() == 1 && v[0] == '/') {
        proof {
            if v.len() == 1 && v[0] == '/' {
                assert(p@ =~= seq!['/']);
            }
        }
        return None;
    }
    assert(p@ != seq!['/']) by {
        if p@ == seq!['/'] {
            assert(v@.len() == 1 && v@[0] == '/');
        }
    }
    assert(v@.subrange(0, v@.len() as int) =~= v@);
    match rfind_char(&v, 0, v.len(), '/') {
        Some(i) => if i == 0 {
            let mut r = String::new();
            crate::text::push_char(&mut r, '/');
            assert(r@ =~= seq!['/']);
            Some(r)
        } else {
            let r = string_of_range(&v, 0, i);
            assert(r@ =~= p@.take(i as int));
            Some(r)
        },
        None => Some(String::new()),
    }
}

/// The last component of an entry path, as the file name field takes it
/// (empty for `..`).
pub open spec fn file_name_of(p: Seq<char>) -> Seq<char> {
    let t = match last_pos(p, '/') {
        Some(i) => p.skip(i + 1),
        None => p,
    };
    if t == ".."@ {
        seq![]
    } else {
        t
    }
}

/// The last component of an entry path.
pub fn file_name(p: &str) -> (r: String)
    ensures
        r@ == file_name_of(p@),
{
    let v = chars_of(p);
    assert(v@.subrange(0, v@.len() as int) =~= v@);
    let t = match rfind_char(&v, 0, v.len(), '/') {
        Some(i) => {
            let t = string_of_range(&v, i + 1, v.len());
            assert(t@ =~= p@.skip(i + 1));
            t
        },
        None => owned(p),
    };
    if crate::text::str_eq(t.as_str(), "..") {
        String::new()
    } else {
        t
    }
}

// ---------------------------------------------------------------------------
// The listing

/// Whether a file name belongs to a watch file (`.halshow`, in any case).
pub open spec fn is_watch_file(name: Seq<char>) -> bool {
    ".halshow"@.is_suffix_of(lowercase(name))
}

/// Whether a listing entry (name and whether it is a directory) is shown
/// as a directory: a directory whose name does not begin with `.`.
pub open spec fn shows_dir(e: (Seq<char>, bool)) -> bool {
    !(e.0.len() > 0 && e.0[0] == '.') && e.1
}

/// Whether a listing entry is shown as a file: not a directory, its name
/// not beginning with `.`; when loading, only watch files whose lower-case
/// name holds the lower-case trimmed filter.
pub open spec fn shows_file(e: (Seq<char>, bool), save: bool, filter: Seq<char>) -> bool {
    !(e.0.len() > 0 && e.0[0] == '.') && !e.1 && (save || (is_watch_file(e.0) && first_sub(
        lowercase(e.0),
        lowercase(trim(filter)),
    ) is Some))
}

/// The names of a listing shown as directories, in listing order.
pub open spec fn dir_names(listing: Seq<(Seq<char>, bool)>) -> Seq<Seq<char>>
    decreases listing.len(),
{
    if listing.len() == 0 {
        seq![]
    } else {
        dir_names(listing.drop_last()) + (if shows_dir(listing.last()) {
            seq![listing.last().0]
        } else {
            seq![]
        })
    }
}

/// The names of a listing shown as files, in listing order.
pub open spec fn file_names(listing: Seq<(Seq<char>, bool)>, save: bool, filter: Seq<char>) -> Seq<
    Seq<char>,
>
    decreases listing.len(),
{
    if listing.len() == 0 {
        seq![]
    } else {
        file_names(listing.drop_last(), save, filter) + (if shows_file(listing.last(), save, filter) {
            seq![listing.last().0]
        } else {
            seq![]
        })
    }
}

/// The entries of the dialog for the directory `dir`, with its directory
/// names `ds` and file names `fs`: the parent (unless at the root), then
/// the directories, then the files, each joined to `dir`.
pub open spec fn listed(dir: Seq<char>, ds: Seq<Seq<char>>, fs: Seq<Seq<char>>) -> Seq<Seq<char>> {
    (if parent_dir(dir) is Some {
        seq![joined_path(dir, ".."@)]
    } else {
        seq![]
    }) + ds.map_values(|n: Seq<char>| joined_path(dir, n)) + fs.map_values(
        |n: Seq<char>| joined_path(dir, n),
    )
}

/// The views of a listing.
pub open spec fn listing_views(l: Seq<(String, bool)>) -> Seq<(Seq<char>, bool)> {
    l.map_values(|e: (String, bool)| (e.0@, e.1))
}

/// `i` kept within a list of `len` entries.
pub open spec fn within(i: usize, len: nat) -> usize {
    if i as nat >= len {
        (if len > 0 {
            len - 1
        } else {
            0
        }) as usize
    } else {
        i
    }
}

fn joined_all(dir: &str, names: &Vec<String>, out: &mut Vec<String>)
    ensures
        views(final(out)@) == views(old(out)@) + views(names@).map_values(
            |n: Seq<char>| joined_path(dir@, n),
        ),
{
    let mut i: usize = 0;
    while i < names.len()
        invariant
            i <= names@.len(),
            views(out@) == views(old(out)@) + views(names@).take(i as int).map_values(
                |n: Seq<char>| joined_path(dir@, n),
            ),
        decreases names@.len() - i,
    {
        let ghost before = views(out@);
        let j = join_path(dir, names[i].as_str());
        out.push(j);
        assert(views(names@).take(i + 1) =~= views(names@).take(i as int).push(names@[i as int]@));
        assert(views(out@) =~= before.push(j@));
        assert(views(out@) =~= views(old(out)@) + views(names@).take(i + 1).map_values(
            |n: Seq<char>| joined_path(dir@, n),
        ));
        i = i + 1;
    }
    assert(views(names@).take(names@.len() as int) =~= views(names@));
}

/// Whether a name begins with `.`.
fn hidden(name: &str) -> (r: bool)
    ensures
        r == (name@.len() > 0 && name@[0] == '.'),
{
    let v = chars_of(name);
    v.len() > 0 && v[0] == '.'
}

/// Whether a name is that of a watch file.
fn watch_file(name: &str) -> (r: bool)
    ensures
        r == is_watch_file(name@),
{
    let low = to_lower(name);
    let v = chars_of(low.as_str());
    let suffix = chars_of(".halshow");
    if v.len() < suffix.len() {
        return false;
    }
    let r = crate::text::range_eq(&v, v.len() - suffix.len(), v.len(), &suffix);
    assert(r == (".halshow"@ =~= lowercase(name@).subrange(
        lowercase(name@).len() - ".halshow"@.len(),
        lowercase(name@).len() as int,
    )));
    r
}

/// Whether a lower-case text holds the lower-case filter.
fn holds(low: &str, fl: &Vec<char>) -> (r: bool)
    ensures
        r == (first_sub(low@, fl@) is Some),
{
    let v = chars_of(low);
    assert(v@.subrange(0, v@.len() as int) =~= v@);
    find_sub(&v, 0, v.len(), fl).is_some()
}

/// Reads a directory listing into the dialog: the directory is normalized;
/// the entries are the parent (unless at the root), the directories in
/// order, then the files in order (watch files matching the filter when
/// loading, every file when saving); hidden names are left out. The
/// selection and scroll position stay within the entries, and the error is
/// cleared.
pub fn refresh_dialog(dialog: &mut FileDialog, filter: &str, listing: &Vec<(String, bool)>)
    ensures
        final(dialog).dir@ == normalized(old(dialog).dir@),
        final(dialog).save == old(dialog).save,
        final(dialog).field == old(dialog).field,
        final(dialog).error is None,
        exists|ds: Seq<Seq<char>>, fs: Seq<Seq<char>>|
            #![trigger listed(final(dialog).dir@, ds, fs)]
            sorted_texts(ds) && ds.to_multiset() == dir_names(listing_views(listing@)).to_multiset()
                && sorted_texts(fs) && fs.to_multiset() == file_names(
                listing_views(listing@),
                old(dialog).save,
                filter@,
            ).to_multiset() && views(final(dialog).entries@) == listed(final(dialog).dir@, ds, fs),
        final(dialog).selected == within(old(dialog).selected, final(dialog).entries@.len()),
        final(dialog).scroll == within(old(dialog).scroll, final(dialog).entries@.len()),
{
    let dir = norm_path(dialog.dir.as_str());
    let save = dialog.save;
    let fl = chars_of(to_lower(trim_str(filter).as_str()).as_str());
    let ghost lv = listing_views(listing@);
    let mut dirs: Vec<String> = Vec::new();
    let mut files: Vec<String> = Vec::new();
    let mut i: usize = 0;
    while i < listing.len()
        invariant
            i <= listing@.len(),
            lv == listing_views(listing@),
            fl@ == lowercase(trim(filter@)),
            save == old(dialog).save,
            views(dirs@) == dir_names(lv.take(i as int)),
            views(files@) == file_names(lv.take(i as int), save, filter@),
        decreases listing@.len() - i,
    {
        let name = listing[i].0.as_str();
        let is_dir = listing[i].1;
        let ghost e = lv[i as int];
        assert(e == (name@, is_dir));
        assert(lv.take(i + 1) =~= lv.take(i as int).push(e));
        let ghost dprev = views(dirs@);
        let ghost fprev = views(files@);
        if !hidden(name) {
            if is_dir {
                dirs.push(owned(name));
                assert(views(dirs@) =~= dprev.push(name@));
            } else if save || (watch_file(name) && holds(to_lower(name).as_str(), &fl)) {
                files.push(owned(name));
                assert(views(files@) =~= fprev.push(name@));
            }
        }
        assert(lv.take(i + 1).drop_last() =~= lv.take(i as int));
        assert(lv.take(i + 1).last() == e);
        assert(views(dirs@) =~= dir_names(lv.take(i + 1)));
        assert(views(files@) =~= file_names(lv.take(i + 1), save, filter@));
        i = i + 1;
    }
    assert(lv.take(listing@.len() as int) =~= lv);
    assert(views(dirs@) == dir_names(lv));
    assert(views(files@) == file_names(lv, save, filter@));
    let dirs = sort_texts(dirs);
    let files = sort_texts(files);
    assert(views(dirs@).to_multiset() == dir_names(lv).to_multiset());
    assert(views(files@).to_multiset() == file_names(lv, save, filter@).to_multiset());
    let mut entries: Vec<String> = Vec::new();
    let has_parent = parent_of_dir(dir.as_str()).is_some();
    if has_parent {
        entries.push(join_path(dir.as_str(), ".."));
    }
    let ghost head = views(entries@);
    joined_all(dir.as_str(), &dirs, &mut entries);
    joined_all(dir.as_str(), &files, &mut entries);
    assert(head =~= (if parent_dir(dir@) is Some {
        seq![joined_path(dir@, ".."@)]
    } else {
        Seq::<Seq<char>>::empty()
    }));
    assert(views(entries@) == listed(dir@, views(dirs@), views(files@)));
    let n = entries.len();
    dialog.dir = dir;
    dialog.entries = entries;
    if dialog.selected >= n {
        dialog.selected = if n > 0 {
            n - 1
        } else {
            0
        };
    }
    if dialog.scroll >= n {
        dialog.scroll = if n > 0 {
            n - 1
        } else {
            0
        };
    }
    dialog.error = None;
    assert(views(dialog.entries@) == listed(dialog.dir@, views(dirs@), views(files@)));
}

// ---------------------------------------------------------------------------
// Opening prompts

impl InputState {
    /// A text prompt, the cursor after the text.
    pub fn text(prompt: &str, buffer: String, action: InputAction) -> (r: Self)
        ensures
            r.kind == InputKind::Text,
            r.prompt@ == prompt@,
            r.buffer@ == buffer@,
            r.cursor == buffer@.len(),
            !r.bit_value,
            r.action == action,
            r.dialog is None,
    {
        let cursor = char_count(buffer.as_str());
        InputState {
            kind: InputKind::Text,
            prompt: owned(prompt),
            cursor,
            buffer,
            bit_value: false,
            action,
            dialog: None,
        }
    }

    /// A bit prompt with the given choice.
    pub fn bit_pick(prompt: &str, bit_value: bool, action: InputAction) -> (r: Self)
        ensures
            r.kind == InputKind::BitPick,
            r.prompt@ == prompt@,
            r.buffer@.len() == 0,
            r.cursor == 0,
            r.bit_value == bit_value,
            r.action == action,
            r.dialog is None,
    {
        InputState {
            kind: InputKind::BitPick,
            prompt: owned(prompt),
            buffer: String::new(),
            cursor: 0,
            bit_value,
            action,
            dialog: None,
        }
    }

    /// Opens the file dialog on `dir` with the listing read for it; `name`
    /// seeds the filter (load) or file-name (save) field, which has the
    /// focus when saving.
    pub fn file_dialog(
        save: bool,
        dir: String,
        name: String,
        action: InputAction,
        listing: &Vec<(String, bool)>,
    ) -> (r: Self)
        ensures
            r.kind == InputKind::FileDialog,
            r.prompt@ == (if save {
                "Save watch list"@
            } else {
                "Open watch list"@
            }),
            r.buffer@ == name@,
            r.cursor == name@.len(),
            !r.bit_value,
            r.action == action,
            r.dialog matches Some(d) && d.save == save && d.field == save && d.dir@ == normalized(dir@)
                && d.error is None && d.selected == 0 && d.scroll == 0 && exists|
                ds: Seq<Seq<char>>,
                fs: Seq<Seq<char>>,
            |
                #![trigger listed(d.dir@, ds, fs)]
                sorted_texts(ds) && ds.to_multiset() == dir_names(listing_views(listing@)).to_multiset()
                    && sorted_texts(fs) && fs.to_multiset() == file_names(
                    listing_views(listing@),
                    save,
                    name@,
                ).to_multiset() && views(d.entries@) == listed(d.dir@, ds, fs),
    {
        let mut dialog = FileDialog {
            save,
            dir,
            entries: Vec::new(),
            selected: 0,
            scroll: 0,
            field: save,
            error: None,
        };
        refresh_dialog(&mut dialog, name.as_str(), listing);
        let prompt = if save {
            owned("Save watch list")
        } else {
            owned("Open watch list")
        };
        let cursor = char_count(name.as_str());
        InputState {
            kind: InputKind::FileDialog,
            prompt,
            cursor,
            buffer: name,
            bit_value: false,
            action,
            dialog: Some(dialog),
        }
    }
}

// ---------------------------------------------------------------------------
// Keys in the dialog

/// What the dialog needs after a key.
#[derive(Clone, Debug)]
pub enum DialogStep {
    Stay,
    /// The directory or the filter changed: read the directory again.
    Relist,
    /// Close the dialog.
    Cancel,
    /// Close the dialog and use this path.
    Confirm(String),
    /// Enter was pressed: look at the candidate path and the selected entry
    /// on disk, then call [`dialog_enter`].
    Enter,
}

/// The parts of the dialog that keys change.
pub struct DialogView {
    pub buffer: Seq<char>,
    pub cursor: int,
    pub dir: Seq<char>,
    pub selected: int,
    pub scroll: int,
    pub field: bool,
}

/// The dialog state of an input prompt.
pub open spec fn dialog_view(i: InputState) -> DialogView {
    DialogView {
        buffer: i.buffer@,
        cursor: i.cursor as int,
        dir: i.dialog->0.dir@,
        selected: i.dialog->0.selected as int,
        scroll: i.dialog->0.scroll as int,
        field: i.dialog->0.field,
    }
}

/// The kinds of what a key asks of the dialog.
#[derive(Clone, Copy, PartialEq, Eq, Debug, Structural)]
pub enum StepKind {
    Stay,
    Relist,
    Cancel,
    Enter,
}

/// The directory's parent, with the list back at the top; unchanged at the
/// root.
pub open spec fn to_parent(v: DialogView) -> (DialogView, StepKind) {
    match parent_dir(v.dir) {
        Some(p) => (DialogView { dir: p, selected: 0, scroll: 0, ..v }, StepKind::Relist),
        None => (v, StepKind::Stay),
    }
}

/// After the filter or file name changed: loading lists again.
pub open spec fn edited(save: bool) -> StepKind {
    if save {
        StepKind::Stay
    } else {
        StepKind::Relist
    }
}

/// What a key (other than Enter) does to the dialog with `n` entries: Esc
/// cancels, Tab switches between the list and the field, the list keys
/// move the selection, Left and Backspace edit the field when it has the
/// focus and otherwise go to the parent directory, typing goes to the
/// field.
pub open spec fn dialog_move(v: DialogView, save: bool, n: nat, k: Key) -> (DialogView, StepKind) {
    let last = if n > 0 {
        n - 1
    } else {
        0
    };
    match k.code {
        KeyCode::Esc => (v, StepKind::Cancel),
        KeyCode::Enter => (v, StepKind::Enter),
        KeyCode::Tab => (DialogView { field: !v.field, ..v }, StepKind::Stay),
        KeyCode::Up => (DialogView {
            selected: if v.selected >= 1 {
                v.selected - 1
            } else {
                0
            },
            ..v
        }, StepKind::Stay),
        KeyCode::Down => (DialogView {
            selected: if v.selected + 1 < last {
                v.selected + 1
            } else {
                last
            },
            ..v
        }, StepKind::Stay),
        KeyCode::PageUp => (DialogView {
            selected: if v.selected >= 10 {
                v.selected - 10
            } else {
                0
            },
            ..v
        }, StepKind::Stay),
        KeyCode::PageDown => (DialogView {
            selected: if v.selected + 10 < last {
                v.selected + 10
            } else {
                last
            },
            ..v
        }, StepKind::Stay),
        KeyCode::Home => (DialogView { selected: 0, ..v }, StepKind::Stay),
        KeyCode::End => (DialogView { selected: last, ..v }, StepKind::Stay),
        KeyCode::Left => if v.field && v.cursor > 0 {
            (DialogView { cursor: v.cursor - 1, ..v }, StepKind::Stay)
        } else {
            to_parent(v)
        },
        KeyCode::Right => if v.field {
            (DialogView {
                cursor: if v.cursor + 1 < v.buffer.len() {
                    v.cursor + 1
                } else {
                    v.buffer.len() as int
                },
                ..v
            }, StepKind::Stay)
        } else {
            (v, StepKind::Stay)
        },
        KeyCode::Backspace => if v.field && v.cursor > 0 && v.buffer.len() > 0 {
            (DialogView {
                cursor: v.cursor - 1,
                buffer: removed_at(v.buffer, v.cursor - 1),
                ..v
            }, edited(save))
        } else {
            to_parent(v)
        },
        KeyCode::Delete => if v.field {
            (DialogView { buffer: removed_at(v.buffer, v.cursor), ..v }, edited(save))
        } else {
            (v, StepKind::Stay)
        },
        KeyCode::Char(c) => if c == 'u' && k.ctrl {
            (DialogView { field: true, buffer: seq![], cursor: 0, ..v }, edited(save))
        } else if k.ctrl {
            (v, StepKind::Stay)
        } else {
            (DialogView {
                field: true,
                buffer: inserted_at(v.buffer, v.cursor, c),
                cursor: v.cursor + 1,
                ..v
            }, edited(save))
        },
        _ => (v, StepKind::Stay),
    }
}

/// The kind of a step.
pub open spec fn step_kind(s: DialogStep) -> StepKind {
    match s {
        DialogStep::Stay => StepKind::Stay,
        DialogStep::Relist => StepKind::Relist,
        DialogStep::Cancel => StepKind::Cancel,
        DialogStep::Enter => StepKind::Enter,
        DialogStep::Confirm(_) => StepKind::Stay,
    }
}

/// Applies a key to the file dialog of an input prompt.
pub fn dialog_key(input: &mut InputState, k: Key) -> (r: DialogStep)
    requires
        old(input).dialog is Some,
        old(input).cursor <= old(input).buffer@.len(),
        old(input).buffer@.len() < usize::MAX,
    ensures
        !(r is Confirm),
        (dialog_view(*final(input)), step_kind(r)) == dialog_move(
            dialog_view(*old(input)),
            old(input).dialog->0.save,
            old(input).dialog->0.entries@.len(),
            k,
        ),
        final(input).dialog is Some,
        final(input).dialog->0.entries == old(input).dialog->0.entries,
        final(input).dialog->0.save == old(input).dialog->0.save,
        final(input).dialog->0.error == old(input).dialog->0.error,
        final(input).kind == old(input).kind,
        final(input).action == old(input).action,
        final(input).prompt == old(input).prompt,
        final(input).bit_value == old(input).bit_value,
        final(input).cursor <= final(input).buffer@.len(),
{
    let mut d = match input.dialog.take() {
        Some(d) => d,
        None => {
            return DialogStep::Stay;
        },
    };
    let ghost v0 = DialogView {
        buffer: input.buffer@,
        cursor: input.cursor as int,
        dir: d.dir@,
        selected: d.selected as int,
        scroll: d.scroll as int,
        field: d.field,
    };
    let n = d.entries.len();
    let last = if n > 0 {
        n - 1
    } else {
        0
    };
    let len = char_count(input.buffer.as_str());
    let step = match k.code {
        KeyCode::Esc => DialogStep::Cancel,
        KeyCode::Enter => DialogStep::Enter,
        KeyCode::Tab => {
            d.field = !d.field;
            DialogStep::Stay
        },
        KeyCode::Up => {
            if d.selected >= 1 {
                d.selected = d.selected - 1;
            } else {
                d.selected = 0;
            }
            DialogStep::Stay
        },
        KeyCode::Down => {
            if d.selected < last && d.selected + 1 < last {
                d.selected = d.selected + 1;
            } else {
                d.selected = last;
            }
            DialogStep::Stay
        },
        KeyCode::PageUp => {
            if d.selected >= 10 {
                d.selected = d.selected - 10;
            } else {
                d.selected = 0;
            }
            DialogStep::Stay
        },
        KeyCode::PageDown => {
            if d.selected < last && last - d.selected > 10 {
                d.selected = d.selected + 10;
            } else {
                d.selected = last;
            }
            DialogStep::Stay
        },
        KeyCode::Home => {
            d.selected = 0;
            DialogStep::Stay
        },
        KeyCode::End => {
            d.selected = last;
            DialogStep::Stay
        },
        KeyCode::Left => {
            if d.field && input.cursor > 0 {
                input.cursor = input.cursor - 1;
                DialogStep::Stay
            } else {
                match parent_of_dir(d.dir.as_str()) {
                    Some(p) => {
                        d.dir = p;
                        d.selected = 0;
                        d.scroll = 0;
                        DialogStep::Relist
                    },
                    None => DialogStep::Stay,
                }
            }
        },
        KeyCode::Right => {
            if d.field {
                if input.cursor < len {
                    input.cursor = input.cursor + 1;
                } else {
                    input.cursor = len;
                }
            }
            DialogStep::Stay
        },
        KeyCode::Backspace => {
            if d.field && input.cursor > 0 && len > 0 {
                input.cursor = input.cursor - 1;
                remove_char_at(&mut input.buffer, input.cursor);
                if d.save {
                    DialogStep::Stay
                } else {
                    DialogStep::Relist
                }
            } else {
                match parent_of_dir(d.dir.as_str()) {
                    Some(p) => {
                        d.dir = p;
                        d.selected = 0;
                        d.scroll = 0;
                        DialogStep::Relist
                    },
                    None => DialogStep::Stay,
                }
            }
        },
        KeyCode::Delete => {
            if d.field {
                remove_char_at(&mut input.buffer, input.cursor);
                if d.save {
                    DialogStep::Stay
                } else {
                    DialogStep::Relist
                }
            } else {
                DialogStep::Stay
            }
        },
        KeyCode::Char(c) => {
            if c == 'u' && k.ctrl {
                d.field = true;
                input.buffer = String::new();
                input.cursor = 0;
                if d.save {
                    DialogStep::Stay
                } else {
                    DialogStep::Relist
                }
            } else if k.ctrl {
                DialogStep::Stay
            } else {
                d.field = true;
                insert_char_at(&mut input.buffer, input.cursor, c);
                input.cursor = input.cursor + 1;
                if d.save {
                    DialogStep::Stay
                } else {
                    DialogStep::Relist
                }
            }
        },
        _ => DialogStep::Stay,
    };
    input.dialog = Some(d);
    step
}

/// What a path is on disk.
#[derive(Clone, Copy, PartialEq, Eq, Debug, Structural)]
pub enum PathKind {
    Dir,
    File,
    /// Neither a directory nor a file (or nothing).
    Other,
}

/// The path that Enter on the field names when loading: the trimmed text,
/// under the dialog's directory unless it is absolute.
pub open spec fn candidate_of(i: InputState) -> Seq<char> {
    joined_path(i.dialog->0.dir@, trim(i.buffer@))
}

/// The path to look at on disk before [`dialog_enter`].
pub fn enter_candidate(input: &InputState) -> (r: String)
    requires
        input.dialog is Some,
    ensures
        r@ == candidate_of(*input),
{
    let name = trim_str(input.buffer.as_str());
    match &input.dialog {
        Some(d) => join_path(d.dir.as_str(), name.as_str()),
        None => String::new(),
    }
}

/// The selected entry, when there is one.
pub open spec fn selected_entry(i: InputState) -> Option<Seq<char>> {
    let d = i.dialog->0;
    if d.selected < d.entries@.len() {
        Some(d.entries@[d.selected as int]@)
    } else {
        None
    }
}

/// The error shown when Enter names no file.
pub open spec fn no_such_file(p: Seq<char>) -> Seq<char> {
    "no such file: "@ + p
}

/// Enter in the dialog, given what the candidate path (see
/// [`candidate_of`]) and the selected entry are on disk.
///
/// With the field focused: an empty name is an error; saving gives the
/// name under the directory; loading enters a directory, takes a file, or
/// else takes the selected entry when it is a file. With the list focused:
/// a directory is entered; saving copies the entry's name into the field;
/// loading takes the entry.
pub fn dialog_enter(input: &mut InputState, cand: PathKind, entry: PathKind) -> (r: DialogStep)
    requires
        old(input).dialog is Some,
    ensures
        final(input).dialog is Some,
        final(input).kind == old(input).kind,
        final(input).action == old(input).action,
        final(input).prompt == old(input).prompt,
        final(input).bit_value == old(input).bit_value,
        final(input).dialog->0.entries == old(input).dialog->0.entries,
        final(input).dialog->0.save == old(input).dialog->0.save,
        ({
            let d = old(input).dialog->0;
            let e = final(input).dialog->0;
            let name = trim(old(input).buffer@);
            if d.field {
                if name.len() == 0 {
                    &&& r is Stay
                    &&& e.error matches Some(m) && m@ == (if d.save {
                        "Enter a file name"@
                    } else {
                        "Type a filter or pick a file"@
                    })
                    &&& e.dir == d.dir && e.selected == d.selected && e.scroll == d.scroll
                } else if d.save {
                    r matches DialogStep::Confirm(p) && p@ == candidate_of(*old(input))
                } else if cand == PathKind::Dir {
                    &&& r is Relist
                    &&& e.dir@ == candidate_of(*old(input))
                    &&& e.selected == 0 && e.scroll == 0
                } else if cand == PathKind::File {
                    r matches DialogStep::Confirm(p) && p@ == candidate_of(*old(input))
                } else if selected_entry(*old(input)) is Some && entry == PathKind::File {
                    r matches DialogStep::Confirm(p) && p@ == selected_entry(*old(input))->0
                } else {
                    &&& r is Stay
                    &&& e.error matches Some(m) && m@ == no_such_file(candidate_of(*old(input)))
                    &&& e.dir == d.dir && e.selected == d.selected && e.scroll == d.scroll
                }
            } else {
                match selected_entry(*old(input)) {
                    Some(p) => if entry == PathKind::Dir {
                        &&& r is Relist
                        &&& e.dir@ == p
                        &&& e.selected == 0 && e.scroll == 0
                    } else if d.save {
                        &&& r is Stay
                        &&& final(input).buffer@ == file_name_of(p)
                        &&& final(input).cursor == file_name_of(p).len()
                        &&& e.field
                        &&& e.dir == d.dir && e.selected == d.selected && e.scroll == d.scroll
                    } else {
                        r matches DialogStep::Confirm(x) && x@ == p
                    },
                    None => r is Stay && e.dir == d.dir,
                }
            }
        }),
{
    let cand_path = enter_candidate(input);
    let mut d = match input.dialog.take() {
        Some(d) => d,
        None => {
            return DialogStep::Stay;
        },
    };
    let name = trim_str(input.buffer.as_str());
    let step = if d.field {
        if char_count(name.as_str()) == 0 {
            d.error = Some(if d.save {
                owned("Enter a file name")
            } else {
                owned("Type a filter or pick a file")
            });
            DialogStep::Stay
        } else if d.save {
            DialogStep::Confirm(cand_path)
        } else if cand == PathKind::Dir {
            d.dir = cand_path;
            d.selected = 0;
            d.scroll = 0;
            DialogStep::Relist
        } else if cand == PathKind::File {
            DialogStep::Confirm(cand_path)
        } else if d.selected < d.entries.len() && entry == PathKind::File {
            DialogStep::Confirm(d.entries[d.selected].clone())
        } else {
            let mut m = owned("no such file: ");
            push_str(&mut m, cand_path.as_str());
            d.error = Some(m);
            DialogStep::Stay
        }
    } else if d.selected < d.entries.len() {
        let p = d.entries[d.selected].clone();
        if entry == PathKind::Dir {
            d.dir = p;
            d.selected = 0;
            d.scroll = 0;
            DialogStep::Relist
        } else if d.save {
            input.buffer = file_name(p.as_str());
            input.cursor = char_count(input.buffer.as_str());
            d.field = true;
            DialogStep::Stay
        } else {
            DialogStep::Confirm(p)
        }
    } else {
        DialogStep::Stay
    };
    input.dialog = Some(d);
    step
}

// ---------------------------------------------------------------------------
// Keys in the text and bit prompts

/// What a text or bit prompt does after a key.
#[derive(Clone, Debug)]
pub enum InputStep {
    Stay,
    /// Close the prompt.
    Close,
    /// Close the prompt and apply its action to this text.
    Submit(String),
}

/// The text a prompt submits: `1` or `0` for a bit prompt, else its text.
pub open spec fn submitted(i: InputState) -> Seq<char> {
    if i.kind == InputKind::BitPick {
        if i.bit_value {
            "1"@
        } else {
            "0"@
        }
    } else {
        i.buffer@
    }
}

/// A key in a text or bit prompt: Esc closes it, Enter submits it; a bit
/// prompt's choice follows [`bit_pick_of`], a text prompt's line follows
/// [`line_edit`].
pub fn input_key(input: &mut InputState, k: Key) -> (r: InputStep)
    requires
        old(input).kind != InputKind::FileDialog,
        old(input).cursor <= old(input).buffer@.len(),
        old(input).buffer@.len() < usize::MAX,
    ensures
        k.code == KeyCode::Esc ==> r is Close,
        k.code == KeyCode::Enter ==> (r matches InputStep::Submit(t) && t@ == submitted(*old(input))),
        k.code != KeyCode::Esc && k.code != KeyCode::Enter ==> {
            &&& r is Stay
            &&& final(input).kind == old(input).kind
            &&& final(input).action == old(input).action
            &&& final(input).prompt == old(input).prompt
            &&& final(input).dialog == old(input).dialog
            &&& if old(input).kind == InputKind::BitPick {
                final(input).bit_value == bit_pick_of(old(input).bit_value, k)
                    && final(input).buffer == old(input).buffer && final(input).cursor == old(input).cursor
            } else {
                (final(input).buffer@, final(input).cursor as int) == line_edit(
                    old(input).buffer@,
                    old(input).cursor as int,
                    k,
                ) && final(input).bit_value == old(input).bit_value
            }
            &&& final(input).cursor <= final(input).buffer@.len()
        },
{
    match k.code {
        KeyCode::Esc => InputStep::Close,
        KeyCode::Enter => {
            if input.kind == InputKind::BitPick {
                InputStep::Submit(if input.bit_value {
                    owned("1")
                } else {
                    owned("0")
                })
            } else {
                InputStep::Submit(input.buffer.clone())
            }
        },
        _ => {
            if input.kind == InputKind::BitPick {
                input.bit_value = pick_bit(input.bit_value, k);
            } else {
                edit_line(&mut input.buffer, &mut input.cursor, k);
            }
            InputStep::Stay
        },
    }
}

} // verus!
