//! Decisions of the application that do not belong to a single key: the
//! command history, the watch list selection, settings values, the display
//! format of watched values and the start-up state.

use vstd::prelude::*;
use crate::fmt::{apply_int, format_fits, formatted};
use crate::hal::{
    is_watchable, kind_of_kw, kw_of, param_writable, param_writable_in, pin_writable,
    pin_writable_in, sig_writable, tokenize, tokens, BatchOut, HalType,
};
use crate::num::{all_digits, decimal, decimal_string, digits_value, parse_unsigned, parse_unsigned_range};
use crate::prefs::{Prefs, PrefsView, Workmode};
use crate::state::{sign_pad, sign_padded, Cli, Tab};
use crate::text::{
    chars_of, find_char, find_sub, first_pos, first_sub, is_space, line_bounds, lines, push_str,
    rfind_char, last_pos, spans, spans_ok, split_ws_range, str_eq, string_of_range, trim,
    trim_start, trim_str, views, words,
};
use crate::watch::WatchItem;

verus! {

broadcast use vstd::string::group_string_axioms;

// ---------------------------------------------------------------------------
// The command entry

/// The history position after stepping to an older or newer command; `None`
/// when nothing changes (an empty history, or newer with nothing chosen).
pub open spec fn history_pos(len: nat, pos: Option<usize>, older: bool) -> Option<nat> {
    if len == 0 {
        None
    } else {
        match pos {
            None => if older {
                Some((len - 1) as nat)
            } else {
                None
            },
            Some(i) => Some(
                if older {
                    if i == 0 {
                        0
                    } else if i - 1 < len - 1 {
                        (i - 1) as nat
                    } else {
                        (len - 1) as nat
                    }
                } else if i + 1 < len - 1 {
                    (i + 1) as nat
                } else {
                    (len - 1) as nat
                },
            ),
        }
    }
}

/// Steps through the command history: the chosen command replaces the
/// command text.
pub fn cmd_history(hist: &Vec<String>, pos: &mut Option<usize>, command: &mut String, older: bool)
    ensures
        match history_pos(hist@.len(), *old(pos), older) {
            Some(j) => *final(pos) == Some(j as usize) && final(command)@ == hist@[j as int]@,
            None => *final(pos) == *old(pos) && final(command)@ == old(command)@,
        },
{
    let n = hist.len();
    if n == 0 {
        return ;
    }
    let j = match *pos {
        None => if older {
            n - 1
        } else {
            return ;
        },
        Some(i) => if older {
            if i == 0 {
                0
            } else if i - 1 < n - 1 {
                i - 1
            } else {
                n - 1
            }
        } else if n >= 2 && i < n - 2 {
            i + 1
        } else {
            n - 1
        },
    };
    *pos = Some(j);
    *command = hist[j].clone();
}

/// Takes the command text for running: the text is cleared and the history
/// position forgotten; a non-empty trimmed command is added to the history
/// unless it repeats the last one, and its tokens are returned.
pub fn take_command(command: &mut String, hist: &mut Vec<String>, pos: &mut Option<usize>) -> (r:
    Option<Vec<String>>)
    ensures
        final(command)@.len() == 0,
        *final(pos) is None,
        trim(old(command)@).len() == 0 ==> r is None && final(hist)@ == old(hist)@,
        trim(old(command)@).len() > 0 ==> (r matches Some(t) && views(t@) == tokens(
            trim(old(command)@),
        )),
        trim(old(command)@).len() > 0 ==> views(final(hist)@) == (if old(hist)@.len() > 0
            && old(hist)@.last()@ == trim(old(command)@) {
            views(old(hist)@)
        } else {
            views(old(hist)@).push(trim(old(command)@))
        }),
{
    let cmd = trim_str(command.as_str());
    *command = String::new();
    *pos = None;
    if crate::state::char_count(cmd.as_str()) == 0 {
        return None;
    }
    assert(cmd@.len() > 0);
    let repeat = hist.len() > 0 && str_eq(hist[hist.len() - 1].as_str(), cmd.as_str());
    if !repeat {
        let ghost before = views(hist@);
        hist.push(cmd.clone());
        assert(views(hist@) =~= before.push(cmd@));
    }
    Some(tokenize(cmd.as_str()))
}

// ---------------------------------------------------------------------------
// The watch list

/// The status text after removing an item.
pub open spec fn removed_text(name: Seq<char>) -> Seq<char> {
    "'"@ + name + "' removed from list"@
}

/// The selection after the list shrank to `len` items: a selection past the
/// end moves to the last item, unless the list is empty.
pub open spec fn selection_kept(sel: Option<usize>, len: nat) -> Option<usize> {
    match sel {
        Some(s) => if s >= len && len > 0 {
            Some((len - 1) as usize)
        } else {
            sel
        },
        None => None,
    }
}

/// Removes item `idx` from the watch list, keeps the selection on the list,
/// and gives the status text; nothing happens when there is no such item.
pub fn watch_remove(items: &mut Vec<WatchItem>, sel: &mut Option<usize>, idx: usize) -> (r: Option<
    String,
>)
    ensures
        idx < old(items)@.len() ==> final(items)@ == old(items)@.remove(idx as int) && *final(sel)
            == selection_kept(*old(sel), (old(items)@.len() - 1) as nat),
        idx < old(items)@.len() ==> (r matches Some(t) && t@ == removed_text(
            old(items)@[idx as int].name@,
        )),
        idx >= old(items)@.len() ==> final(items)@ == old(items)@ && *final(sel) == *old(sel)
            && r is None,
        distinct_items(old(items)@) ==> distinct_items(final(items)@),
{
    if idx >= items.len() {
        return None;
    }
    let mut msg = String::new();
    push_str(&mut msg, "'");
    push_str(&mut msg, items[idx].name.as_str());
    push_str(&mut msg, "' removed from list");
    let ghost before = items@;
    items.remove(idx);
    proof {
        if distinct_items(before) {
            assert forall|i: int, j: int|
                0 <= i < j < items@.len() implies !((#[trigger] items@[i]).kind == (
                #[trigger] items@[j]).kind && items@[i].name@ == items@[j].name@) by {
                let bi = if i < idx {
                    i
                } else {
                    i + 1
                };
                let bj = if j < idx {
                    j
                } else {
                    j + 1
                };
                assert(items@[i] == before[bi]);
                assert(items@[j] == before[bj]);
            }
        }
    }
    match *sel {
        Some(s) => {
            if s >= items.len() && items.len() > 0 {
                *sel = Some(items.len() - 1);
            }
        },
        None => {},
    }
    Some(msg)
}

/// The selection kept after the list was read again: not past the last
/// item.
pub open spec fn selection_clamped(sel: Option<usize>, len: nat) -> Option<usize> {
    match sel {
        Some(s) => {
            let last: nat = if len > 0 {
                (len - 1) as nat
            } else {
                0
            };
            Some((if s as nat <= last {
                s as nat
            } else {
                last
            }) as usize)
        },
        None => None,
    }
}

/// The selection kept after the list was read again.
pub fn clamp_selection(sel: Option<usize>, len: usize) -> (r: Option<usize>)
    ensures
        r == selection_clamped(sel, len as nat),
{
    match sel {
        Some(s) => {
            let last = if len > 0 {
                len - 1
            } else {
                0
            };
            Some(if s <= last {
                s
            } else {
                last
            })
        },
        None => None,
    }
}

/// What the text of the add prompt names: a `kind+name` with a known kind,
/// or a name whose kind is to be asked.
#[derive(Clone, Debug)]
pub enum AddTarget {
    Known(HalType, String),
    Guess(String),
}

/// The target that the add prompt's text names: the text is trimmed; when
/// it holds a `+` and what precedes the first `+` is a kind keyword, the
/// kind and the trimmed rest; otherwise the whole text, whose kind is to
/// be asked.
pub open spec fn add_target(buffer: Seq<char>) -> (Option<HalType>, Seq<char>) {
    let t = trim(buffer);
    match first_pos(t, '+') {
        Some(i) => match kind_of_kw(t.take(i)) {
            Some(k) => (Some(k), trim(t.skip(i + 1))),
            None => (None, t),
        },
        None => (None, t),
    }
}

/// Reads the text of the add prompt.
pub fn watch_target(buffer: &str) -> (r: AddTarget)
    ensures
        match r {
            AddTarget::Known(k, n) => add_target(buffer@) == (Some(k), n@),
            AddTarget::Guess(n) => add_target(buffer@) == (None::<HalType>, n@),
        },
{
    let t = trim_str(buffer);
    let v = chars_of(t.as_str());
    assert(v@.subrange(0, v@.len() as int) =~= v@);
    match find_char(&v, 0, v.len(), '+') {
        Some(i) => {
            let kw = string_of_range(&v, 0, i);
            assert(kw@ =~= t@.take(i as int));
            match HalType::from_kw(kw.as_str()) {
                Some(k) => {
                    let rest = string_of_range(&v, i + 1, v.len());
                    assert(rest@ =~= t@.skip(i + 1));
                    AddTarget::Known(k, trim_str(rest.as_str()))
                },
                None => AddTarget::Guess(t),
            }
        },
        None => AddTarget::Guess(t),
    }
}

// ---------------------------------------------------------------------------
// Settings

/// The settings after editing setting `idx` with the (trimmed) text `val`,
/// and the status text with its error flag; `None` for an unknown index.
pub open spec fn setting_applied(p: PrefsView, idx: usize, val: Seq<char>) -> Option<
    (PrefsView, Seq<char>, bool),
> {
    if idx == 0 {
        match parse_unsigned(val, 0xffff_ffff_ffff_ffff) {
            Some(v) => if v >= 1 {
                Some(
                    (
                        PrefsView { watch_interval: v as u64, ..p },
                        "Update interval set to "@ + decimal(v) + " ms"@,
                        false,
                    ),
                )
            } else {
                Some((p, "Value out of range (min 1 ms)"@, true))
            },
            None => Some((p, "Value out of range (min 1 ms)"@, true)),
        }
    } else if idx == 1 {
        match parse_unsigned(val, 0xffff) {
            Some(v) => {
                let w: nat = if v < 8 {
                    8
                } else if v > 120 {
                    120
                } else {
                    v
                };
                Some(
                    (
                        PrefsView { col1_width: w as u16, ..p },
                        "Column width set to "@ + decimal(w),
                        false,
                    ),
                )
            },
            None => Some((p, "Value out of range"@, true)),
        }
    } else if idx == 2 {
        Some((PrefsView { ffmts: val, ..p }, "Float format set"@, false))
    } else if idx == 3 {
        Some((PrefsView { ifmts: val, ..p }, "Integer format set"@, false))
    } else {
        None
    }
}

/// Edits setting `idx` (update interval, column width, float format,
/// integer format) and gives the status text and whether it is an error.
pub fn apply_setting(p: &mut Prefs, idx: usize, val: &str) -> (r: Option<(String, bool)>)
    ensures
        match setting_applied(old(p)@, idx, val@) {
            Some((q, msg, err)) => final(p)@ == q && (r matches Some((m, e)) && m@ == msg && e
                == err),
            None => final(p)@ == old(p)@ && r is None,
        },
{
    let v = chars_of(val);
    assert(v@.subrange(0, v@.len() as int) =~= v@);
    if idx == 0 {
        match parse_unsigned_range(&v, 0, v.len(), 0xffff_ffff_ffff_ffff) {
            Some(n) => {
                if n >= 1 {
                    p.watch_interval = n;
                    let mut m = String::new();
                    push_str(&mut m, "Update interval set to ");
                    let d = decimal_string(n);
                    push_str(&mut m, d.as_str());
                    push_str(&mut m, " ms");
                    return Some((m, false));
                }
            },
            None => {},
        }
        let mut m = String::new();
        push_str(&mut m, "Value out of range (min 1 ms)");
        Some((m, true))
    } else if idx == 1 {
        match parse_unsigned_range(&v, 0, v.len(), 0xffff) {
            Some(n) => {
                let w: u64 = if n < 8 {
                    8
                } else if n > 120 {
                    120
                } else {
                    n
                };
                p.col1_width = w as u16;
                let mut m = String::new();
                push_str(&mut m, "Column width set to ");
                let d = decimal_string(w);
                push_str(&mut m, d.as_str());
                Some((m, false))
            },
            None => {
                let mut m = String::new();
                push_str(&mut m, "Value out of range");
                Some((m, true))
            },
        }
    } else if idx == 2 {
        p.ffmts = string_of_range(&v, 0, v.len());
        let mut m = String::new();
        push_str(&mut m, "Float format set");
        Some((m, false))
    } else if idx == 3 {
        p.ifmts = string_of_range(&v, 0, v.len());
        let mut m = String::new();
        push_str(&mut m, "Integer format set");
        Some((m, false))
    } else {
        None
    }
}

// ---------------------------------------------------------------------------
// Start-up and shut-down

/// The tab, and whether the settings screen is open, that a work mode
/// starts with.
pub open spec fn start_view(m: Workmode) -> (Tab, bool) {
    match m {
        Workmode::Watch => (Tab::Watch, false),
        Workmode::Settings => (Tab::Show, true),
        Workmode::Show => (Tab::Show, false),
    }
}

/// The tab, and whether the settings screen is open, that a work mode
/// starts with.
pub fn initial_view(m: Workmode) -> (r: (Tab, bool))
    ensures
        r == start_view(m),
{
    match m {
        Workmode::Watch => (Tab::Watch, false),
        Workmode::Settings => (Tab::Show, true),
        Workmode::Show => (Tab::Show, false),
    }
}

/// The update interval to start with: the one given on the command line,
/// else the remembered one; never below 20 ms.
pub fn start_interval(given: Option<u64>, remembered: u64) -> (r: u64)
    ensures
        r == (if (match given {
            Some(g) => g,
            None => remembered,
        }) < 20 {
            20
        } else {
            match given {
                Some(g) => g,
                None => remembered,
            }
        }),
{
    let i = match given {
        Some(g) => g,
        None => remembered,
    };
    if i < 20 {
        20
    } else {
        i
    }
}

/// The work mode to remember: the settings screen when it is open, else
/// the tab.
pub open spec fn mode_to_keep(settings_open: bool, tab: Tab) -> Workmode {
    if settings_open {
        Workmode::Settings
    } else {
        match tab {
            Tab::Show => Workmode::Show,
            Tab::Watch => Workmode::Watch,
        }
    }
}

/// The work mode to remember.
pub fn closing_mode(settings_open: bool, tab: Tab) -> (r: Workmode)
    ensures
        r == mode_to_keep(settings_open, tab),
{
    if settings_open {
        Workmode::Settings
    } else {
        match tab {
            Tab::Show => Workmode::Show,
            Tab::Watch => Workmode::Watch,
        }
    }
}

// ---------------------------------------------------------------------------
// Display of watched values

/// How a watched value is displayed.
#[derive(Clone, Debug)]
pub enum ValueFormat {
    /// As read.
    AsRead,
    /// As read, padded for the sign.
    Padded,
    /// Read as a float and shown with this format.
    Float(String),
    /// Read as a float, truncated to an integer and shown with this format.
    FloatAsInt(String),
    /// Read as an integer and shown with this format.
    Int(String),
}

pub open spec fn is_float_type(dtype: Seq<char>) -> bool {
    dtype == "float"@ || dtype == "hal_float"@
}

/// How values of a data type are displayed: bits as read; a format given
/// on the command line for floats or for the other types first; then the
/// float format of the settings for floats, the integer format of the
/// settings for `s32` and `u32`; else padded for the sign.
pub fn value_format(
    dtype: &str,
    float_override: Option<&str>,
    int_override: Option<&str>,
    ffmts: &str,
    ifmts: &str,
) -> (r: ValueFormat)
    ensures
        (r is AsRead) == (dtype@ == "bit"@),
        dtype@ != "bit"@ && is_float_type(dtype@) && float_override is Some ==> (r matches ValueFormat::Float(f) && f@ == float_override->0@),
        dtype@ != "bit"@ && !is_float_type(dtype@) && int_override is Some ==> (r matches ValueFormat::FloatAsInt(f) && f@ == int_override->0@),
        dtype@ != "bit"@ && is_float_type(dtype@) && float_override is None && ffmts@.len() > 0 ==> (r matches ValueFormat::Float(f) && f@ == ffmts@),
        dtype@ != "bit"@ && !is_float_type(dtype@) && int_override is None && (dtype@ == "s32"@ || dtype@ == "u32"@) && ifmts@.len() > 0 ==> (r matches ValueFormat::Int(f) && f@ == ifmts@),
        dtype@ != "bit"@ && (if is_float_type(dtype@) {
            float_override is None && ffmts@.len() == 0
        } else {
            int_override is None && !((dtype@ == "s32"@ || dtype@ == "u32"@) && ifmts@.len() > 0)
        }) ==> r is Padded,
{
    if str_eq(dtype, "bit") {
        return ValueFormat::AsRead;
    }
    let is_float = str_eq(dtype, "float") || str_eq(dtype, "hal_float");
    if is_float {
        match float_override {
            Some(f) => {
                return ValueFormat::Float(crate::text::owned(f));
            },
            None => {},
        }
        if crate::state::char_count(ffmts) > 0 {
            return ValueFormat::Float(crate::text::owned(ffmts));
        }
        ValueFormat::Padded
    } else {
        match int_override {
            Some(f) => {
                return ValueFormat::FloatAsInt(crate::text::owned(f));
            },
            None => {},
        }
        if (str_eq(dtype, "s32") || str_eq(dtype, "u32")) && crate::state::char_count(ifmts) > 0 {
            return ValueFormat::Int(crate::text::owned(ifmts));
        }
        ValueFormat::Padded
    }
}

/// `from_str` of `i64`: an optional sign, then at least one ASCII digit,
/// with a value in range.
pub open spec fn parse_signed(s: Seq<char>) -> Option<int> {
    if s.len() > 0 && s[0] == '-' {
        let d = s.drop_first();
        if d.len() > 0 && all_digits(d) && digits_value(d) <= 0x8000_0000_0000_0000 {
            Some(-(digits_value(d) as int))
        } else {
            None
        }
    } else {
        match parse_unsigned(s, 0x7fff_ffff_ffff_ffff) {
            Some(n) => Some(n as int),
            None => None,
        }
    }
}

/// Reads a signed 64-bit integer.
pub fn parse_i64(s: &str) -> (r: Option<i64>)
    ensures
        match r {
            Some(v) => parse_signed(s@) == Some(v as int),
            None => parse_signed(s@) is None,
        },
{
    let v = chars_of(s);
    assert(v@.subrange(0, v@.len() as int) =~= v@);
    if v.len() > 0 && v[0] == '-' {
        assert(v@.subrange(1, v@.len() as int) =~= v@.drop_first());
        if v.len() > 1 && v[1] == '+' {
            assert(!all_digits(v@.drop_first())) by {
                assert(v@.drop_first()[0] == '+');
            }
            return None;
        }
        match parse_unsigned_range(&v, 1, v.len(), 0x8000_0000_0000_0000) {
            Some(n) => {
                if n == 0x8000_0000_0000_0000 {
                    Some(i64::MIN)
                } else {
                    Some(-(n as i64))
                }
            },
            None => None,
        }
    } else {
        match parse_unsigned_range(&v, 0, v.len(), 0x7fff_ffff_ffff_ffff) {
            Some(n) => Some(n as i64),
            None => None,
        }
    }
}

/// The display of a value with an integer format: formatted and padded for
/// the sign when it reads as an integer, else padded as read.
pub fn int_value_text(fmt: &str, raw: &str) -> (r: String)
    requires
        format_fits(fmt@),
    ensures
        r@ == match parse_signed(raw@) {
            Some(v) => sign_padded(formatted(fmt@, v as i64)),
            None => sign_padded(raw@),
        },
{
    match parse_i64(raw) {
        Some(v) => {
            let t = apply_int(fmt, v);
            sign_pad(t.as_str())
        },
        None => sign_pad(raw),
    }
}

// ---------------------------------------------------------------------------
// Searching the help text

/// `str::to_lowercase`: the lower-case form of a text.
pub uninterp spec fn lowercase(s: Seq<char>) -> Seq<char>;

/// Calls `str::to_lowercase`; the contract only names the result, which
/// depends on the text alone.
#[verifier::external_body]
pub(crate) fn to_lower(s: &str) -> (r: String)
    ensures
        r@ == lowercase(s@),
{
    s.to_lowercase()
}

/// Whether line `l` holds the query, ignoring case.
pub open spec fn line_matches(l: Seq<char>, q: Seq<char>) -> bool {
    first_sub(lowercase(l), q) is Some
}

/// The first line in `a..b` that holds the lower-case query `q`.
pub open spec fn first_match(ls: Seq<Seq<char>>, q: Seq<char>, a: int, b: int) -> Option<int>
    decreases b - a,
{
    if a >= b {
        None
    } else if line_matches(ls[a], q) {
        Some(a)
    } else {
        first_match(ls, q, a + 1, b)
    }
}

/// The line of the help text that a search goes to: the first line at or
/// after `from` that holds the query, ignoring case; with `wrap`, else the
/// first such line before `from`; nothing for an empty query.
pub open spec fn help_match(text: Seq<char>, query: Seq<char>, from: int, wrap: bool) -> Option<int> {
    let q = lowercase(query);
    let ls = lines(text);
    if q.len() == 0 {
        None
    } else {
        match first_match(ls, q, from, ls.len() as int) {
            Some(i) => Some(i),
            None => if wrap {
                first_match(ls, q, 0, if from < ls.len() {
                    from
                } else {
                    ls.len() as int
                })
            } else {
                None
            },
        }
    }
}

fn scan_lines(v: &Vec<char>, lb: &Vec<(usize, usize)>, q: &Vec<char>, a: usize, b: usize) -> (r: Option<usize>)
    requires
        a <= b <= lb@.len(),
        spans_ok(v@, lb@),
    ensures
        match r {
            Some(i) => first_match(spans(v@, lb@), q@, a as int, b as int) == Some(i as int),
            None => first_match(spans(v@, lb@), q@, a as int, b as int) is None,
        },
    decreases b - a,
{
    if a >= b {
        return None;
    }
    let (x, y) = lb[a];
    assert(lb@[a as int].0 <= lb@[a as int].1 <= v@.len());
    let line = string_of_range(v, x, y);
    assert(line@ == spans(v@, lb@)[a as int]);
    let low = to_lower(line.as_str());
    let lv = chars_of(low.as_str());
    assert(lv@.subrange(0, lv@.len() as int) =~= lv@);
    if find_sub(&lv, 0, lv.len(), q).is_some() {
        Some(a)
    } else {
        scan_lines(v, lb, q, a + 1, b)
    }
}

/// The line of the help text that a search for `query` goes to, starting
/// at line `from`.
pub fn help_match_after(text: &str, query: &str, from: usize, wrap: bool) -> (r: Option<usize>)
    ensures
        match r {
            Some(i) => help_match(text@, query@, from as int, wrap) == Some(i as int),
            None => help_match(text@, query@, from as int, wrap) is None,
        },
{
    let q = to_lower(query);
    let qv = chars_of(q.as_str());
    if qv.len() == 0 {
        return None;
    }
    let v = chars_of(text);
    let lb = line_bounds(&v);
    let n = lb.len();
    let start = if from < n {
        from
    } else {
        n
    };
    match scan_lines(&v, &lb, &qv, start, n) {
        Some(i) => Some(i),
        None => {
            if wrap {
                scan_lines(&v, &lb, &qv, 0, start)
            } else {
                None
            }
        },
    }
}

// ---------------------------------------------------------------------------
// Command-line options

/// The options as values.
pub struct CliView {
    pub fformat: Option<Seq<char>>,
    pub iformat: Option<Seq<char>>,
    pub noprefs: bool,
    pub interval: Option<u64>,
    pub watchfile: Option<Seq<char>>,
}

pub open spec fn opt_view(o: Option<String>) -> Option<Seq<char>> {
    match o {
        Some(s) => Some(s@),
        None => None,
    }
}

impl View for Cli {
    type V = CliView;

    open spec fn view(&self) -> CliView {
        CliView {
            fformat: opt_view(self.fformat),
            iformat: opt_view(self.iformat),
            noprefs: self.noprefs,
            interval: self.interval,
            watchfile: opt_view(self.watchfile),
        }
    }
}

/// No options given.
pub open spec fn no_options() -> CliView {
    CliView { fformat: None, iformat: None, noprefs: false, interval: None, watchfile: None }
}

/// The options read from `args[i..]` on top of `acc`: `Ok` with the
/// options and whether help was asked for, or `Err` with the message.
/// `--help` and `-h` stop reading; `--fformat`, `--iformat` and
/// `--interval` take the next argument (the interval is at least 20 ms);
/// any other argument that begins with `-` is unknown; the others name the
/// watch file (the last one counts).
pub open spec fn args_from(args: Seq<Seq<char>>, i: int, acc: CliView) -> Result<(CliView, bool), Seq<char>>
    decreases args.len() - i,
{
    if i < 0 || i >= args.len() {
        Ok((acc, false))
    } else {
        let a = args[i];
        if a == "--help"@ || a == "-h"@ {
            Ok((acc, true))
        } else if a == "--fformat"@ {
            if i + 1 < args.len() {
                args_from(args, i + 2, CliView { fformat: Some(args[i + 1]), ..acc })
            } else {
                Err("--fformat requires an argument"@)
            }
        } else if a == "--iformat"@ {
            if i + 1 < args.len() {
                args_from(args, i + 2, CliView { iformat: Some(args[i + 1]), ..acc })
            } else {
                Err("--iformat requires an argument"@)
            }
        } else if a == "--interval"@ {
            if i + 1 < args.len() {
                match parse_unsigned(args[i + 1], 0xffff_ffff_ffff_ffff) {
                    Some(n) => args_from(
                        args,
                        i + 2,
                        CliView {
                            interval: Some(
                                (if n < 20 {
                                    20
                                } else {
                                    n
                                }) as u64,
                            ),
                            ..acc
                        },
                    ),
                    None => Err("bad interval <"@ + args[i + 1] + ">"@),
                }
            } else {
                Err("--interval requires an argument"@)
            }
        } else if a == "--noprefs"@ {
            args_from(args, i + 1, CliView { noprefs: true, ..acc })
        } else if a.len() > 0 && a[0] == '-' {
            Err("unknown option <"@ + a + ">"@)
        } else {
            args_from(args, i + 1, CliView { watchfile: Some(a), ..acc })
        }
    }
}

/// Reads the command-line options (without the program name).
pub fn parse_args(args: &Vec<String>) -> (r: Result<(Cli, bool), String>)
    ensures
        match args_from(views(args@), 0, no_options()) {
            Ok((c, h)) => (r matches Ok((x, y)) && x@ == c && y == h),
            Err(e) => (r matches Err(m) && m@ == e),
        },
{
    let ghost av = views(args@);
    let mut cli = Cli { fformat: None, iformat: None, noprefs: false, interval: None, watchfile: None };
    let mut i: usize = 0;
    proof {
        reveal_strlit("--help");
        reveal_strlit("-h");
        reveal_strlit("--fformat");
        reveal_strlit("--iformat");
        reveal_strlit("--interval");
        reveal_strlit("--noprefs");
    }
    while i < args.len()
        invariant
            i <= args@.len(),
            av == views(args@),
            args_from(av, 0, no_options()) == args_from(av, i as int, cli@),
        decreases args@.len() - i,
    {
        let a = args[i].as_str();
        assert(a@ == av[i as int]);
        if str_eq(a, "--help") || str_eq(a, "-h") {
            return Ok((cli, true));
        } else if str_eq(a, "--fformat") {
            if i + 1 < args.len() {
                assert(args[i + 1]@ == av[i + 1]);
                cli.fformat = Some(args[i + 1].clone());
                i = i + 2;
            } else {
                let mut m = String::new();
                push_str(&mut m, "--fformat requires an argument");
                return Err(m);
            }
        } else if str_eq(a, "--iformat") {
            if i + 1 < args.len() {
                assert(args[i + 1]@ == av[i + 1]);
                cli.iformat = Some(args[i + 1].clone());
                i = i + 2;
            } else {
                let mut m = String::new();
                push_str(&mut m, "--iformat requires an argument");
                return Err(m);
            }
        } else if str_eq(a, "--interval") {
            if i + 1 < args.len() {
                let v = args[i + 1].as_str();
                assert(v@ == av[i + 1]);
                let cv = chars_of(v);
                assert(cv@.subrange(0, cv@.len() as int) =~= cv@);
                match parse_unsigned_range(&cv, 0, cv.len(), 0xffff_ffff_ffff_ffff) {
                    Some(n) => {
                        cli.interval = Some(if n < 20 {
                            20
                        } else {
                            n
                        });
                        i = i + 2;
                    },
                    None => {
                        let mut m = String::new();
                        push_str(&mut m, "bad interval <");
                        push_str(&mut m, v);
                        push_str(&mut m, ">");
                        return Err(m);
                    },
                }
            } else {
                let mut m = String::new();
                push_str(&mut m, "--interval requires an argument");
                return Err(m);
            }
        } else if str_eq(a, "--noprefs") {
            cli.noprefs = true;
            i = i + 1;
        } else {
            let cv = chars_of(a);
            if cv.len() > 0 && cv[0] == '-' {
                let mut m = String::new();
                push_str(&mut m, "unknown option <");
                push_str(&mut m, a);
                push_str(&mut m, ">");
                return Err(m);
            }
            cli.watchfile = Some(crate::text::owned(a));
            i = i + 1;
        }
    }
    Ok((cli, false))
}

// ---------------------------------------------------------------------------
// Watch list commands

/// Why an item cannot be added: its kind cannot be watched, or it is in
/// the list already; `None` when it can be added.
pub open spec fn add_refused(items: Seq<WatchItem>, kind: HalType, name: Seq<char>) -> Option<Seq<char>> {
    if !is_watchable(kind) {
        Some("cannot watch "@ + kw_of(kind) + "s"@)
    } else if exists|i: int| 0 <= i < items.len() && (#[trigger] items[i]).kind == kind && items[i].name@ == name {
        Some("'"@ + name + "' already in list"@)
    } else {
        None
    }
}

/// The status text when an item cannot be added; `None` when it can.
pub fn add_refusal(items: &Vec<WatchItem>, kind: HalType, name: &str) -> (r: Option<String>)
    ensures
        match add_refused(items@, kind, name@) {
            Some(m) => (r matches Some(t) && t@ == m),
            None => r is None,
        },
{
    if !kind.watchable() {
        let mut m = owned_text("cannot watch ");
        push_str(&mut m, kind.kw());
        push_str(&mut m, "s");
        return Some(m);
    }
    let mut i: usize = 0;
    while i < items.len()
        invariant
            i <= items@.len(),
            is_watchable(kind),
            forall|j: int| 0 <= j < i ==> !((#[trigger] items@[j]).kind == kind && items@[j].name@ == name@),
        decreases items@.len() - i,
    {
        if items[i].kind == kind && str_eq(items[i].name.as_str(), name) {
            assert(items@[i as int].kind == kind && items@[i as int].name@ == name@);
            let mut m = owned_text("'");
            push_str(&mut m, name);
            push_str(&mut m, "' already in list");
            assert(add_refused(items@, kind, name@) == Some(m@));
            return Some(m);
        }
        i = i + 1;
    }
    assert(add_refused(items@, kind, name@) is None);
    None
}

fn owned_text(s: &str) -> (r: String)
    ensures
        r@ == s@,
{
    crate::text::owned(s)
}

/// The command asking the data type of an object: `stype` for signals,
/// `ptype` for pins and parameters.
pub open spec fn type_command_of(kind: HalType, name: Seq<char>) -> Seq<char> {
    (if kind == HalType::Sig {
        "stype "@
    } else {
        "ptype "@
    }) + name
}

/// The command asking the data type of an object.
pub fn type_command(kind: HalType, name: &str) -> (r: String)
    ensures
        r@ == type_command_of(kind, name@),
{
    let mut m = if kind == HalType::Sig {
        owned_text("stype ")
    } else {
        owned_text("ptype ")
    };
    push_str(&mut m, name);
    m
}

/// The data type that the first answer gives: `Ok` with its line, or
/// `Err` with the error (or with "halcmd unavailable" when there is no
/// answer).
pub fn type_answer(outs: &Vec<BatchOut>) -> (r: Result<String, String>)
    ensures
        outs@.len() == 0 ==> (r matches Err(e) && e@ == "halcmd unavailable"@),
        outs@.len() > 0 && !outs@[0].err ==> (r matches Ok(t) && t@ == outs@[0].line@),
        outs@.len() > 0 && outs@[0].err ==> (r matches Err(e) && e@ == outs@[0].line@),
{
    if outs.len() == 0 {
        return Err(owned_text("halcmd unavailable"));
    }
    if outs[0].err {
        Err(outs[0].line.clone())
    } else {
        Ok(outs[0].line.clone())
    }
}

/// The command reading the value of an item: `gets` for signals, `getp`
/// otherwise.
pub open spec fn get_command_of(w: WatchItem) -> Seq<char> {
    (if w.kind == HalType::Sig {
        "gets "@
    } else {
        "getp "@
    }) + w.name@
}

/// The commands reading the values of the watch list, in order.
pub fn poll_commands(items: &Vec<WatchItem>) -> (r: Vec<String>)
    ensures
        r@.len() == items@.len(),
        forall|i: int| 0 <= i < items@.len() ==> (#[trigger] r@[i])@ == get_command_of(items@[i]),
{
    let mut r: Vec<String> = Vec::new();
    let mut i: usize = 0;
    while i < items.len()
        invariant
            i <= items@.len(),
            r@.len() == i,
            forall|j: int| 0 <= j < i ==> (#[trigger] r@[j])@ == get_command_of(items@[j]),
        decreases items@.len() - i,
    {
        let mut m = if items[i].kind == HalType::Sig {
            owned_text("gets ")
        } else {
            owned_text("getp ")
        };
        push_str(&mut m, items[i].name.as_str());
        r.push(m);
        i = i + 1;
    }
    r
}

/// The status after setting a value: the trimmed output of `halcmd`, an
/// error when it mentions `ERROR` or `not found`.
pub open spec fn set_status_of(out: Seq<char>) -> (Seq<char>, bool) {
    (trim(out), first_sub(out, "ERROR"@) is Some || first_sub(out, "not found"@) is Some)
}

/// The status after setting a value.
pub fn set_status(out: &str) -> (r: (String, bool))
    ensures
        (r.0@, r.1) == set_status_of(out@),
{
    let v = chars_of(out);
    assert(v@.subrange(0, v@.len() as int) =~= v@);
    let e1 = chars_of("ERROR");
    let e2 = chars_of("not found");
    let err = find_sub(&v, 0, v.len(), &e1).is_some() || find_sub(&v, 0, v.len(), &e2).is_some();
    (trim_str(out), err)
}

/// The command name that sets a value: `sets` for signals, `setp`
/// otherwise.
pub fn set_command(kind: HalType) -> (r: &'static str)
    ensures
        r@ == (if kind == HalType::Sig {
            "sets"@
        } else {
            "setp"@
        }),
{
    if kind == HalType::Sig {
        "sets"
    } else {
        "setp"
    }
}

/// The status after unlinking: done unless the item is still linked
/// (writability `-1`).
pub open spec fn unlink_status_of(name: Seq<char>, writable: i8) -> (Seq<char>, bool) {
    if writable != -1 {
        ("'"@ + name + "' unlinked"@, false)
    } else {
        ("could not unlink '"@ + name + "'"@, true)
    }
}

/// The status after unlinking.
pub fn unlink_status(name: &str, writable: i8) -> (r: (String, bool))
    ensures
        (r.0@, r.1) == unlink_status_of(name@, writable),
{
    if writable != -1 {
        let mut m = owned_text("'");
        push_str(&mut m, name);
        push_str(&mut m, "' unlinked");
        (m, false)
    } else {
        let mut m = owned_text("could not unlink '");
        push_str(&mut m, name);
        push_str(&mut m, "'");
        (m, true)
    }
}

/// The next step in finding out the kind of a bare name.
#[derive(Clone, Copy, PartialEq, Eq, Debug, Structural)]
pub enum ProbeStep {
    /// Ask `halcmd` for the type of the name as this kind.
    Ask(HalType),
    /// The kind, or none.
    Done(Option<HalType>),
}

/// Finding the kind of a bare name from the answers so far: each answer is
/// `None` when `halcmd` gave none, else whether it was an error. A pin or
/// parameter is asked for first (`ptype`), then a signal (`stype`); the
/// first answer without an error gives the kind, and a missing answer
/// ends the search.
pub open spec fn probe_step(answers: Seq<Option<bool>>) -> ProbeStep {
    if answers.len() == 0 {
        ProbeStep::Ask(HalType::Pin)
    } else {
        match answers[0] {
            None => ProbeStep::Done(None),
            Some(err) => if !err {
                ProbeStep::Done(Some(HalType::Pin))
            } else if answers.len() == 1 {
                ProbeStep::Ask(HalType::Sig)
            } else {
                match answers[1] {
                    Some(e) => if !e {
                        ProbeStep::Done(Some(HalType::Sig))
                    } else {
                        ProbeStep::Done(None)
                    },
                    None => ProbeStep::Done(None),
                }
            },
        }
    }
}

/// The next step in finding out the kind of a bare name (see
/// [`probe_step`]).
pub fn next_probe(answers: &Vec<Option<bool>>) -> (r: ProbeStep)
    ensures
        r == probe_step(answers@),
{
    if answers.len() == 0 {
        return ProbeStep::Ask(HalType::Pin);
    }
    match answers[0] {
        None => ProbeStep::Done(None),
        Some(err) => if !err {
            ProbeStep::Done(Some(HalType::Pin))
        } else if answers.len() == 1 {
            ProbeStep::Ask(HalType::Sig)
        } else {
            match answers[1] {
                Some(e) => if !e {
                    ProbeStep::Done(Some(HalType::Sig))
                } else {
                    ProbeStep::Done(None)
                },
                None => ProbeStep::Done(None),
            }
        },
    }
}

/// The writability of an object of kind `kind` that `show_out` (the output
/// of `show` for it) gives: read as a pin, a parameter or a signal; other
/// kinds are not writable.
pub open spec fn writable_from(kind: HalType, show_out: Seq<char>, name: Seq<char>) -> i8 {
    match kind {
        HalType::Pin => pin_writable_in(lines(show_out), name),
        HalType::Param => param_writable_in(lines(show_out), name),
        HalType::Sig => if first_sub(show_out, "<="@) is Some {
            0
        } else {
            1
        },
        _ => 0,
    }
}

/// The writability of an object from its `show` output (see
/// [`writable_from`]).
pub fn writable_of(kind: HalType, show_out: &str, name: &str) -> (r: i8)
    ensures
        r == writable_from(kind, show_out@, name@),
{
    match kind {
        HalType::Pin => pin_writable(show_out, name),
        HalType::Param => param_writable(show_out, name),
        HalType::Sig => sig_writable(show_out),
        _ => 0,
    }
}

/// The status after an item was added to the watch list.
pub open spec fn added_text(name: Seq<char>) -> Seq<char> {
    "'"@ + name + "' added"@
}

/// Appends an item to the watch list and selects it, so that the list
/// scrolls it into view; gives the status text.
fn add_item(items: &mut Vec<WatchItem>, sel: &mut Option<usize>, item: WatchItem) -> (r: String)
    ensures
        final(items)@ == old(items)@.push(item),
        *final(sel) == Some(old(items)@.len() as usize),
        r@ == added_text(item.name@),
{
    let mut m = owned_text("'");
    push_str(&mut m, item.name.as_str());
    push_str(&mut m, "' added");
    items.push(item);
    *sel = Some(items.len() - 1);
    m
}

/// No two items of the watch list have the same kind and name.
pub open spec fn distinct_items(items: Seq<WatchItem>) -> bool {
    forall|i: int, j: int|
        0 <= i < j < items.len() ==> !((#[trigger] items[i]).kind == (#[trigger] items[j]).kind
            && items[i].name@ == items[j].name@)
}

/// The status after `halcmd` refused to tell the type of `name`.
pub open spec fn type_failed_text(name: Seq<char>, e: Seq<char>) -> Seq<char> {
    "'"@ + name + "': "@ + e
}

/// Adds `name` of kind `kind` to the watch list, given the answer to the
/// type query (`dtype`) and the writability read for it. The add is
/// refused (see [`add_refused`]) or fails with the query's error, and then
/// the list and the selection stay as they were; otherwise one item is
/// appended, with that type and writability and no value yet, and it is
/// selected. The list never gains a second item of the same kind and name.
pub fn add_watched(
    items: &mut Vec<WatchItem>,
    sel: &mut Option<usize>,
    kind: HalType,
    name: &str,
    dtype: Result<String, String>,
    writable: i8,
) -> (r: Result<String, String>)
    ensures
        (r is Ok) == (add_refused(old(items)@, kind, name@) is None && dtype is Ok),
        r is Err ==> final(items)@ == old(items)@ && *final(sel) == *old(sel),
        add_refused(old(items)@, kind, name@) matches Some(m) ==> (r matches Err(e) && e@ == m),
        add_refused(old(items)@, kind, name@) is None ==> match dtype {
            Err(e) => r matches Err(t) && t@ == type_failed_text(name@, e@),
            Ok(d) => {
                &&& r matches Ok(t) && t@ == added_text(name@)
                &&& final(items)@.len() == old(items)@.len() + 1
                &&& final(items)@.drop_last() == old(items)@
                &&& final(items)@.last().kind == kind
                &&& final(items)@.last().name@ == name@
                &&& final(items)@.last().dtype@ == d@
                &&& final(items)@.last().writable == writable
                &&& final(items)@.last().value@.len() == 0
                &&& !final(items)@.last().error
                &&& *final(sel) == Some(old(items)@.len() as usize)
            },
        },
        distinct_items(old(items)@) ==> distinct_items(final(items)@),
{
    match add_refusal(items, kind, name) {
        Some(m) => {
            return Err(m);
        },
        None => {},
    }
    match dtype {
        Err(e) => {
            let mut m = owned_text("'");
            push_str(&mut m, name);
            push_str(&mut m, "': ");
            push_str(&mut m, e.as_str());
            Err(m)
        },
        Ok(d) => {
            let ghost before = items@;
            let item = WatchItem {
                kind,
                name: crate::text::owned(name),
                dtype: d,
                writable,
                value: String::new(),
                error: false,
            };
            let m = add_item(items, sel, item);
            assert(items@.drop_last() =~= before);
            assert(items@.last() == item);
            proof {
                if distinct_items(before) {
                    assert forall|i: int, j: int|
                        0 <= i < j < items@.len() implies !((#[trigger] items@[i]).kind == (
                        #[trigger] items@[j]).kind && items@[i].name@ == items@[j].name@) by {
                        if j == before.len() {
                            assert(items@[i] == before[i]);
                            assert(!(before[i].kind == kind && before[i].name@ == name@));
                        } else {
                            assert(items@[i] == before[i]);
                            assert(items@[j] == before[j]);
                        }
                    }
                }
            }
            Ok(m)
        },
    }
}

/// What a value shows when reading it failed.
pub fn failed_value() -> (r: (bool, String))
    ensures
        r.0,
        r.1@ == "----"@,
{
    (true, owned_text("----"))
}

// ---------------------------------------------------------------------------
// Finding the configuration directory

/// A directory path without trailing separators and `.` components (the
/// root stays).
pub open spec fn tail_trimmed(s: Seq<char>) -> Seq<char>
    decreases s.len(),
{
    if s.len() > 1 && s.last() == '/' {
        tail_trimmed(s.drop_last())
    } else if s.len() >= 2 && s.last() == '.' && s[s.len() - 2] == '/' {
        tail_trimmed(s.drop_last())
    } else {
        s
    }
}

/// The directory of an absolute file path (`Path::parent`).
pub open spec fn file_dir(w: Seq<char>) -> Seq<char> {
    match last_pos(w, '/') {
        Some(i) => tail_trimmed(w.take(i + 1)),
        None => seq![],
    }
}

/// Whether a word names an `.ini` file by an absolute path.
pub open spec fn is_ini_path(w: Seq<char>) -> bool {
    w.len() > 0 && w[0] == '/' && ".ini"@.is_suffix_of(w)
}

/// The first word that names an `.ini` file by an absolute path.
pub open spec fn first_ini(ws: Seq<Seq<char>>) -> Option<Seq<char>>
    decreases ws.len(),
{
    if ws.len() == 0 {
        None
    } else if is_ini_path(ws[0]) {
        Some(ws[0])
    } else {
        first_ini(ws.drop_first())
    }
}

/// The configuration directory that one line of `ps -e -o stat= -o
/// command=` shows: for a sleeping process (state beginning with `S`) whose
/// command holds `linuxcnc `, the directory of the first `.ini` path after
/// it.
pub open spec fn ini_dir_of_line(l: Seq<char>) -> Option<Seq<char>> {
    let t = trim_start(l);
    if t.len() > 0 && t[0] == 'S' {
        match first_sub(l, "linuxcnc "@) {
            Some(p) => match first_ini(words(l.skip(p + 9))) {
                Some(w) => Some(file_dir(w)),
                None => None,
            },
            None => None,
        }
    } else {
        None
    }
}

/// The configuration directory that the first matching line shows.
pub open spec fn ini_dir_of_lines(ls: Seq<Seq<char>>) -> Option<Seq<char>>
    decreases ls.len(),
{
    if ls.len() == 0 {
        None
    } else {
        match ini_dir_of_line(ls[0]) {
            Some(d) => Some(d),
            None => ini_dir_of_lines(ls.drop_first()),
        }
    }
}

fn trimmed_dir(v: &Vec<char>, end: usize) -> (r: usize)
    requires
        end <= v@.len(),
    ensures
        r <= end,
        v@.take(r as int) == tail_trimmed(v@.take(end as int)),
    decreases end,
{
    if end > 1 && v[end - 1] == '/' {
        assert(v@.take(end as int).drop_last() =~= v@.take(end - 1));
        trimmed_dir(v, end - 1)
    } else if end >= 2 && v[end - 1] == '.' && v[end - 2] == '/' {
        assert(v@.take(end as int).drop_last() =~= v@.take(end - 1));
        trimmed_dir(v, end - 1)
    } else {
        end
    }
}

/// The directory of an `.ini` path.
fn dir_of_file(w: &str) -> (r: String)
    ensures
        r@ == file_dir(w@),
{
    let v = chars_of(w);
    assert(v@.subrange(0, v@.len() as int) =~= v@);
    match rfind_char(&v, 0, v.len(), '/') {
        Some(i) => {
            let e = trimmed_dir(&v, i + 1);
            let r = string_of_range(&v, 0, e);
            assert(r@ =~= v@.take(e as int));
            r
        },
        None => String::new(),
    }
}

/// Where the leading whitespace of `v[a..b]` ends.
fn skip_ws(v: &Vec<char>, a: usize, b: usize) -> (r: usize)
    requires
        a <= b <= v@.len(),
    ensures
        a <= r <= b,
        v@.subrange(r as int, b as int) == trim_start(v@.subrange(a as int, b as int)),
{
    let mut i = a;
    while i < b && is_space(v[i])
        invariant
            a <= i <= b <= v@.len(),
            trim_start(v@.subrange(a as int, b as int)) == trim_start(v@.subrange(i as int, b as int)),
        decreases b - i,
    {
        assert(v@.subrange(i as int, b as int).drop_first() =~= v@.subrange(i + 1, b as int));
        i = i + 1;
    }
    i
}

/// Whether a word names an `.ini` file by an absolute path.
fn ini_path(w: &str) -> (r: bool)
    ensures
        r == is_ini_path(w@),
{
    let wv = chars_of(w);
    let n = wv.len();
    let r = n >= 4 && wv[0] == '/' && wv[n - 4] == '.' && wv[n - 3] == 'i' && wv[n - 2] == 'n'
        && wv[n - 1] == 'i';
    proof {
        reveal_strlit(".ini");
        if n >= 4 {
            let t = w@.subrange(n - 4, n as int);
            assert(t[0] == w@[n - 4] && t[1] == w@[n - 3] && t[2] == w@[n - 2] && t[3] == w@[n - 1]);
            if r {
                assert(".ini"@ =~= t);
            }
        }
    }
    r
}

/// The directory of the first `.ini` path among the words.
fn first_ini_dir(ws: &Vec<String>) -> (r: Option<String>)
    ensures
        match first_ini(views(ws@)) {
            Some(w) => (r matches Some(d) && d@ == file_dir(w)),
            None => r is None,
        },
{
    let mut j: usize = 0;
    assert(views(ws@).skip(0) =~= views(ws@));
    while j < ws.len()
        invariant
            j <= ws@.len(),
            first_ini(views(ws@)) == first_ini(views(ws@).skip(j as int)),
        decreases ws@.len() - j,
    {
        let w = ws[j].as_str();
        assert(views(ws@).skip(j as int)[0] == w@);
        assert(views(ws@).skip(j as int).drop_first() =~= views(ws@).skip(j + 1));
        if ini_path(w) {
            return Some(dir_of_file(w));
        }
        j = j + 1;
    }
    assert(views(ws@).skip(j as int) =~= Seq::<Seq<char>>::empty());
    None
}

/// The configuration directory that the line `v[a..b]` shows.
fn ini_dir_of(v: &Vec<char>, a: usize, b: usize, key: &Vec<char>) -> (r: Option<String>)
    requires
        a <= b <= v@.len(),
        key@ == "linuxcnc "@,
    ensures
        match ini_dir_of_line(v@.subrange(a as int, b as int)) {
            Some(d) => (r matches Some(x) && x@ == d),
            None => r is None,
        },
{
    let ghost line = v@.subrange(a as int, b as int);
    let t = skip_ws(v, a, b);
    if !(t < b && v[t] == 'S') {
        return None;
    }
    assert(trim_start(line)[0] == v@[t as int]);
    proof {
        reveal_strlit("linuxcnc ");
    }
    match find_sub(v, a, b, key) {
        Some(p) => {
            let ghost q = first_sub(line, "linuxcnc "@)->0;
            assert(q == p - a);
            assert("linuxcnc "@.is_prefix_of(v@.subrange(p as int, b as int)));
            assert(p + 9 <= b);
            assert(line.skip(q + 9) =~= v@.subrange(p + 9, b as int));
            let ws = split_ws_range(v, p + 9, b);
            first_ini_dir(&ws)
        },
        None => None,
    }
}

/// The directory of the `.ini` file of a running `linuxcnc`, from the
/// output of `ps -e -o stat= -o command=`.
pub fn ini_dir_in_ps(text: &str) -> (r: Option<String>)
    ensures
        match ini_dir_of_lines(lines(text@)) {
            Some(d) => (r matches Some(x) && x@ == d),
            None => r is None,
        },
{
    let v = chars_of(text);
    let lb = line_bounds(&v);
    let key = chars_of("linuxcnc ");
    let mut k: usize = 0;
    assert(spans(v@, lb@).skip(0) =~= spans(v@, lb@));
    while k < lb.len()
        invariant
            k <= lb@.len(),
            spans_ok(v@, lb@),
            spans(v@, lb@) == lines(text@),
            key@ == "linuxcnc "@,
            ini_dir_of_lines(lines(text@)) == ini_dir_of_lines(spans(v@, lb@).skip(k as int)),
        decreases lb@.len() - k,
    {
        let (a, b) = lb[k];
        assert(lb@[k as int].0 <= lb@[k as int].1 <= v@.len());
        assert(spans(v@, lb@).skip(k as int)[0] == v@.subrange(a as int, b as int));
        assert(spans(v@, lb@).skip(k as int).drop_first() =~= spans(v@, lb@).skip(k + 1));
        match ini_dir_of(&v, a, b, &key) {
            Some(d) => {
                return Some(d);
            },
            None => {},
        }
        k = k + 1;
    }
    assert(spans(v@, lb@).skip(k as int) =~= Seq::<Seq<char>>::empty());
    None
}

/// Where the preferences file is: in `$CONFIG_DIR` when it is set, else
/// in the directory of the running configuration's `.ini` file, else
/// `.halshow_preferences` in the home directory (or the current one); the
/// directory is given with the first two.
pub open spec fn prefs_place(config_dir: Option<Seq<char>>, ini_dir: Option<Seq<char>>, home: Option<
    Seq<char>,
>) -> (Seq<char>, Option<Seq<char>>) {
    match config_dir {
        Some(d) => if d.len() > 0 {
            (crate::dialog::joined_path(d, "halshow.preferences"@), Some(d))
        } else {
            prefs_place_rest(ini_dir, home)
        },
        None => prefs_place_rest(ini_dir, home),
    }
}

pub open spec fn prefs_place_rest(ini_dir: Option<Seq<char>>, home: Option<Seq<char>>) -> (
    Seq<char>,
    Option<Seq<char>>,
) {
    match ini_dir {
        Some(d) => (crate::dialog::joined_path(d, "halshow.preferences"@), Some(d)),
        None => (crate::dialog::joined_path(
            match home {
                Some(h) => h,
                None => "."@,
            },
            ".halshow_preferences"@,
        ), None),
    }
}

/// Where the preferences file is, and the configuration directory if one
/// was found.
pub fn prefs_location(config_dir: Option<&str>, ini_dir: Option<&str>, home: Option<&str>) -> (r: (
    String,
    Option<String>,
))
    ensures
        ({
            let place = prefs_place(
                match config_dir {
                    Some(d) => Some(d@),
                    None => None,
                },
                match ini_dir {
                    Some(d) => Some(d@),
                    None => None,
                },
                match home {
                    Some(h) => Some(h@),
                    None => None,
                },
            );
            &&& r.0@ == place.0
            &&& match place.1 {
                Some(d) => (r.1 matches Some(x) && x@ == d),
                None => r.1 is None,
            }
        }),
{
    match config_dir {
        Some(d) => {
            if crate::state::char_count(d) > 0 {
                return (crate::dialog::join_path(d, "halshow.preferences"), Some(crate::text::owned(d)));
            }
        },
        None => {},
    }
    match ini_dir {
        Some(d) => (crate::dialog::join_path(d, "halshow.preferences"), Some(crate::text::owned(d))),
        None => {
            let h = match home {
                Some(h) => h,
                None => ".",
            };
            (crate::dialog::join_path(h, ".halshow_preferences"), None)
        },
    }
}

// ---------------------------------------------------------------------------
// Laws of the settings screen and the command line

/// Editing a setting: the update interval takes any number of at least 1
/// ms; the name column width takes a `u16` number clamped to 8..=120 (so a
/// width in that range is stored as given); the two format strings are
/// stored as typed. A value that does not read as a number is refused with
/// the settings left as they were, and a successful edit changes only its
/// own setting, with a status that names the stored value.
pub proof fn lemma_settings(p: PrefsView, val: Seq<char>)
    ensures
        match parse_unsigned(val, 0xffff_ffff_ffff_ffff) {
            Some(v) => v >= 1 ==> setting_applied(p, 0, val) == Some(
                (
                    (PrefsView { watch_interval: v as u64, ..p }),
                    "Update interval set to "@ + decimal(v) + " ms"@,
                    false,
                ),
            ),
            None => setting_applied(p, 0, val) matches Some((q, _, e)) && q == p && e,
        },
        match parse_unsigned(val, 0xffff) {
            Some(n) => setting_applied(p, 1, val) matches Some((q, msg, e)) && {
                &&& !e
                &&& q == (PrefsView { col1_width: q.col1_width, ..p })
                &&& 8 <= q.col1_width <= 120
                &&& (8 <= n <= 120 ==> q.col1_width == n)
                &&& (n < 8 ==> q.col1_width == 8)
                &&& (n > 120 ==> q.col1_width == 120)
                &&& msg == "Column width set to "@ + decimal(q.col1_width as nat)
            },
            None => setting_applied(p, 1, val) matches Some((q, _, e)) && q == p && e,
        },
        setting_applied(p, 2, val) matches Some((q, _, e)) && q == (PrefsView { ffmts: val, ..p })
            && !e,
        setting_applied(p, 3, val) matches Some((q, _, e)) && q == (PrefsView { ifmts: val, ..p })
            && !e,
{
}

/// The column width given as a decimal number `n` (no larger than a `u16`)
/// is stored as `n` when it lies in 8..=120.
pub proof fn lemma_column_width_decimal(p: PrefsView, n: nat)
    requires
        8 <= n <= 120,
    ensures
        setting_applied(p, 1, decimal(n)) matches Some((q, _, e)) && !e && q.col1_width == n,
{
    crate::num::lemma_parse_decimal(n, 0xffff);
    lemma_settings(p, decimal(n));
}

/// Reading arguments from `i` on looks only at the arguments from `i` on:
/// arguments put in front shift the position and change nothing else.
proof fn lemma_args_shift(x: Seq<Seq<char>>, rest: Seq<Seq<char>>, i: int, acc: CliView)
    requires
        0 <= i,
    ensures
        args_from(x + rest, x.len() + i, acc) == args_from(rest, i, acc),
    decreases rest.len() - i,
{
    let all = x + rest;
    if i < rest.len() {
        assert(all[x.len() + i] == rest[i]);
        if i + 1 < rest.len() {
            assert(all[x.len() + i + 1] == rest[i + 1]);
        }
        let a = rest[i];
        let acc1 = CliView { noprefs: true, ..acc };
        let acc2 = CliView { watchfile: Some(a), ..acc };
        lemma_args_shift(x, rest, i + 1, acc1);
        lemma_args_shift(x, rest, i + 1, acc2);
        if i + 1 < rest.len() {
            let f = rest[i + 1];
            lemma_args_shift(x, rest, i + 2, CliView { fformat: Some(f), ..acc });
            lemma_args_shift(x, rest, i + 2, CliView { iformat: Some(f), ..acc });
            match parse_unsigned(f, 0xffff_ffff_ffff_ffff) {
                Some(n) => {
                    lemma_args_shift(
                        x,
                        rest,
                        i + 2,
                        CliView {
                            interval: Some(
                                (if n < 20 {
                                    20
                                } else {
                                    n
                                }) as u64,
                            ),
                            ..acc
                        },
                    );
                },
                None => {},
            }
        }
    }
}

/// Arguments other than `--iformat` and `--fformat` leave both format
/// options as they are.
proof fn lemma_formats_kept(args: Seq<Seq<char>>, i: int, acc: CliView)
    requires
        0 <= i,
        forall|j: int| i <= j < args.len() ==> #[trigger] args[j] != "--iformat"@ && args[j]
            != "--fformat"@,
    ensures
        args_from(args, i, acc) matches Ok((c, _)) ==> c.fformat == acc.fformat && c.iformat
            == acc.iformat,
    decreases args.len() - i,
{
    if i < args.len() {
        let a = args[i];
        assert(a != "--iformat"@ && a != "--fformat"@);
        lemma_formats_kept(args, i + 1, CliView { noprefs: true, ..acc });
        lemma_formats_kept(args, i + 1, CliView { watchfile: Some(a), ..acc });
        if i + 1 < args.len() {
            let f = args[i + 1];
            match parse_unsigned(f, 0xffff_ffff_ffff_ffff) {
                Some(n) => {
                    lemma_formats_kept(
                        args,
                        i + 2,
                        CliView {
                            interval: Some(
                                (if n < 20 {
                                    20
                                } else {
                                    n
                                }) as u64,
                            ),
                            ..acc
                        },
                    );
                },
                None => {},
            }
        }
    }
}

/// `--iformat F` sets the integer format to `F` and leaves the float
/// format as it was; `--fformat F` sets the float format to `F` and leaves
/// the integer format. Reading the option and then the rest of the
/// arguments is reading the rest with that format set; when no later
/// argument names a format, the result keeps it.
pub proof fn lemma_format_options(f: Seq<char>, rest: Seq<Seq<char>>, acc: CliView)
    ensures
        args_from(seq!["--iformat"@, f] + rest, 0, acc) == args_from(
            rest,
            0,
            (CliView { iformat: Some(f), ..acc }),
        ),
        args_from(seq!["--fformat"@, f] + rest, 0, acc) == args_from(
            rest,
            0,
            (CliView { fformat: Some(f), ..acc }),
        ),
        (forall|j: int| 0 <= j < rest.len() ==> #[trigger] rest[j] != "--iformat"@ && rest[j]
            != "--fformat"@) ==> {
            &&& args_from(seq!["--iformat"@, f] + rest, 0, acc) matches Ok((c, _)) ==> c.iformat
                == Some(f) && c.fformat == acc.fformat
            &&& args_from(seq!["--fformat"@, f] + rest, 0, acc) matches Ok((c, _)) ==> c.fformat
                == Some(f) && c.iformat == acc.iformat
        },
        args_from(seq!["--iformat"@, f], 0, acc) == Ok::<(CliView, bool), Seq<char>>(
            (CliView { iformat: Some(f), ..acc }, false),
        ),
        args_from(seq!["--fformat"@, f], 0, acc) == Ok::<(CliView, bool), Seq<char>>(
            (CliView { fformat: Some(f), ..acc }, false),
        ),
{
    reveal_strlit("--iformat");
    reveal_strlit("--fformat");
    reveal_strlit("--help");
    reveal_strlit("-h");
    let xi = seq!["--iformat"@, f];
    let xf = seq!["--fformat"@, f];
    lemma_args_shift(xi, rest, 0, CliView { iformat: Some(f), ..acc });
    lemma_args_shift(xf, rest, 0, CliView { fformat: Some(f), ..acc });
    assert((xi + rest)[0] == "--iformat"@ && (xi + rest)[1] == f);
    assert((xf + rest)[0] == "--fformat"@ && (xf + rest)[1] == f);
    assert("--iformat"@.len() == 9 && "--fformat"@.len() == 9 && "--help"@.len() == 6
        && "-h"@.len() == 2);
    assert("--iformat"@[2] != "--fformat"@[2]);
    assert("--iformat"@ != "--help"@ && "--iformat"@ != "-h"@ && "--iformat"@ != "--fformat"@);
    assert("--fformat"@ != "--help"@ && "--fformat"@ != "-h"@);
    if forall|j: int| 0 <= j < rest.len() ==> #[trigger] rest[j] != "--iformat"@ && rest[j]
        != "--fformat"@ {
        lemma_formats_kept(rest, 0, CliView { iformat: Some(f), ..acc });
        lemma_formats_kept(rest, 0, CliView { fformat: Some(f), ..acc });
    }
    assert(xi + Seq::<Seq<char>>::empty() =~= xi);
    assert(xf + Seq::<Seq<char>>::empty() =~= xf);
    lemma_args_shift(xi, Seq::<Seq<char>>::empty(), 0, CliView { iformat: Some(f), ..acc });
    lemma_args_shift(xf, Seq::<Seq<char>>::empty(), 0, CliView { fformat: Some(f), ..acc });
}

/// The other options: `--noprefs` sets the no-preferences flag and goes on
/// with the rest; `--help` and `-h` stop reading and ask for help with the
/// options so far; `--interval N` sets the interval to `N`, or to 20 ms
/// when `N` is smaller, and refuses a text that is not a number; an
/// argument that does not begin with `-` names the watch file, and a later
/// one replaces it; any other argument beginning with `-` is refused.
pub proof fn lemma_other_options(a: Seq<char>, rest: Seq<Seq<char>>, acc: CliView)
    ensures
        args_from(seq!["--noprefs"@] + rest, 0, acc) == args_from(
            rest,
            0,
            (CliView { noprefs: true, ..acc }),
        ),
        args_from(seq!["--help"@] + rest, 0, acc) == Ok::<(CliView, bool), Seq<char>>((acc, true)),
        args_from(seq!["-h"@] + rest, 0, acc) == Ok::<(CliView, bool), Seq<char>>((acc, true)),
        match parse_unsigned(a, 0xffff_ffff_ffff_ffff) {
            Some(n) => args_from(seq!["--interval"@, a] + rest, 0, acc) == args_from(
                rest,
                0,
                (CliView {
                    interval: Some(
                        (if n < 20 {
                            20
                        } else {
                            n
                        }) as u64,
                    ),
                    ..acc
                }),
            ),
            None => args_from(seq!["--interval"@, a] + rest, 0, acc) is Err,
        },
        a.len() > 0 && a[0] != '-' ==> args_from(seq![a] + rest, 0, acc) == args_from(
            rest,
            0,
            (CliView { watchfile: Some(a), ..acc }),
        ),
        a.len() > 0 && a[0] == '-' && a != "--help"@ && a != "-h"@ && a != "--fformat"@ && a
            != "--iformat"@ && a != "--interval"@ && a != "--noprefs"@ ==> args_from(
            seq![a] + rest,
            0,
            acc,
        ) is Err,
{
    reveal_strlit("--iformat");
    reveal_strlit("--fformat");
    reveal_strlit("--help");
    reveal_strlit("-h");
    reveal_strlit("--interval");
    reveal_strlit("--noprefs");
    assert("--noprefs"@.len() == 9 && "--interval"@.len() == 10 && "--iformat"@.len() == 9);
    assert("--noprefs"@[2] != "--iformat"@[2] && "--noprefs"@[2] != "--fformat"@[2]);
    assert("--noprefs"@ != "--help"@ && "--noprefs"@ != "-h"@ && "--noprefs"@ != "--iformat"@
        && "--noprefs"@ != "--fformat"@ && "--noprefs"@ != "--interval"@);
    assert("--interval"@ != "--help"@ && "--interval"@ != "-h"@ && "--interval"@ != "--iformat"@
        && "--interval"@ != "--fformat"@);
    let xn = seq!["--noprefs"@];
    assert((xn + rest)[0] == "--noprefs"@);
    lemma_args_shift(xn, rest, 0, (CliView { noprefs: true, ..acc }));
    assert((seq!["--help"@] + rest)[0] == "--help"@);
    assert((seq!["-h"@] + rest)[0] == "-h"@);
    let xi = seq!["--interval"@, a];
    assert((xi + rest)[0] == "--interval"@ && (xi + rest)[1] == a);
    match parse_unsigned(a, 0xffff_ffff_ffff_ffff) {
        Some(n) => {
            lemma_args_shift(
                xi,
                rest,
                0,
                (CliView {
                    interval: Some(
                        (if n < 20 {
                            20
                        } else {
                            n
                        }) as u64,
                    ),
                    ..acc
                }),
            );
        },
        None => {},
    }
    let xa = seq![a];
    assert((xa + rest)[0] == a);
    if a.len() > 0 && a[0] != '-' {
        assert(a != "--help"@ && a != "-h"@ && a != "--fformat"@ && a != "--iformat"@ && a
            != "--interval"@ && a != "--noprefs"@) by {
            assert("--help"@[0] == '-' && "-h"@[0] == '-' && "--fformat"@[0] == '-'
                && "--iformat"@[0] == '-' && "--interval"@[0] == '-' && "--noprefs"@[0] == '-');
        }
        lemma_args_shift(xa, rest, 0, (CliView { watchfile: Some(a), ..acc }));
    }
}

} // verus!
