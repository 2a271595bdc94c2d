//! What the screen shows: the texts of rows, labels and hints, clipping to
//! a width, and which part of a list or text is in view. Drawing them is
//! left to the terminal code.

use vstd::prelude::*;
use crate::keys::page_of;
use crate::num::{decimal, decimal_string};
use crate::prefs::Prefs;
use crate::state::{Focus, InputKind};
use crate::text::{
    chars_of, find_char, find_sub, first_pos, first_sub, is_space, last_pos, line_bounds, lines, owned, push_char,
    push_str, rfind_char, spans, string_of_range, trim_end,
};
use vstd::utf8::is_ascii_chars;

verus! {

broadcast use vstd::string::group_string_axioms;

// ---------------------------------------------------------------------------
// Clipping

/// `s` cut to `width` characters: a text that does not fit keeps
/// `width - 1` characters and ends with `…`.
pub open spec fn clipped(s: Seq<char>, width: nat) -> Seq<char> {
    if s.len() <= width {
        s
    } else {
        s.take(if width >= 1 {
            width - 1
        } else {
            0
        }).push('…')
    }
}

/// Cuts `s` to `width` characters (see [`clipped`]); the result is never
/// wider than `width` unless `width` is 0.
pub fn clip(s: &str, width: usize) -> (r: String)
    ensures
        r@ == clipped(s@, width as nat),
        width >= 1 ==> r@.len() <= width,
{
    let v = chars_of(s);
    if v.len() <= width {
        owned(s)
    } else {
        let keep = if width >= 1 {
            width - 1
        } else {
            0
        };
        let mut r = string_of_range(&v, 0, keep);
        assert(v@.subrange(0, keep as int) =~= s@.take(keep as int));
        push_char(&mut r, '…');
        r
    }
}

// ---------------------------------------------------------------------------
// Keeping a selection in view

/// The first row shown of a list of `n` rows in a window of `vis` rows,
/// moved from `scroll` just enough to show row `sel`, and not past the end.
pub open spec fn into_view(sel: nat, scroll: nat, n: nat, vis: nat) -> nat {
    let s1 = if sel >= scroll + vis {
        (sel + 1 - vis) as nat
    } else {
        scroll
    };
    let s2 = if sel < s1 {
        sel
    } else {
        s1
    };
    let top = if n >= vis {
        (n - vis) as nat
    } else {
        0
    };
    if s2 > top {
        top
    } else {
        s2
    }
}

/// Scrolls a list so that the selected row is in view in a window of at
/// least one row: the first row shown is [`into_view`]; a selected row of the list lies in the window, and the
/// window does not run past the list's end when the list fills it.
pub fn scroll_into_view(sel: usize, scroll: usize, n: usize, vis: usize) -> (r: usize)
    requires
        vis >= 1,
        scroll + vis <= usize::MAX,
    ensures
        r == into_view(sel as nat, scroll as nat, n as nat, vis as nat),
        sel < n ==> r <= sel < r + vis,
        n >= vis ==> r + vis <= n,
        n < vis ==> r == 0,
{
    let mut s = scroll;
    if sel >= s + vis {
        s = sel - vis + 1;
    }
    if sel < s {
        s = sel;
    }
    let top = if n >= vis {
        n - vis
    } else {
        0
    };
    if s > top {
        s = top;
    }
    s
}

// ---------------------------------------------------------------------------
// Row texts

/// Two spaces per level of depth.
pub open spec fn indent_of(depth: nat) -> Seq<char> {
    Seq::new(2 * depth, |i: int| ' ')
}

/// A row of the tree: a pointer when the row is selected and has children,
/// the indent of its depth, an open or closed marker for a branch, and the
/// node's name.
pub open spec fn tree_row(
    depth: nat,
    branch: bool,
    expanded: bool,
    pointed: bool,
    label: Seq<char>,
) -> Seq<char> {
    (if pointed && branch {
        "▶ "@
    } else {
        "  "@
    }) + indent_of(depth) + (if branch {
        if expanded {
            "▾ "@
        } else {
            "▸ "@
        }
    } else {
        "  "@
    }) + label
}

/// The text of a row of the tree (see [`tree_row`]).
pub fn tree_row_text(depth: usize, branch: bool, expanded: bool, pointed: bool, label: &str) -> (r:
    String)
    ensures
        r@ == tree_row(depth as nat, branch, expanded, pointed, label@),
{
    let mut r = if pointed && branch {
        owned("▶ ")
    } else {
        owned("  ")
    };
    let ghost head = r@;
    let mut i: usize = 0;
    while i < depth
        invariant
            i <= depth,
            r@ == head + indent_of(i as nat),
        decreases depth - i,
    {
        push_char(&mut r, ' ');
        push_char(&mut r, ' ');
        assert(head + indent_of((i + 1) as nat) =~= (head + indent_of(i as nat)).push(' ').push(' '));
        i = i + 1;
    }
    if branch {
        if expanded {
            push_str(&mut r, "▾ ");
        } else {
            push_str(&mut r, "▸ ");
        }
    } else {
        push_str(&mut r, "  ");
    }
    push_str(&mut r, label);
    r
}

/// The name an entry of the file dialog shows: the last component of its
/// path, the text after the last `/` (`..` for the parent entry, whose
/// last component is `..`; a name that merely ends in `..` is shown whole).
pub open spec fn entry_name(p: Seq<char>) -> Seq<char> {
    match last_pos(p, '/') {
        Some(i) => p.skip(i + 1),
        None => p,
    }
}

/// The label of an entry of the file dialog: its name, with a `/` after a
/// directory.
pub open spec fn entry_label_of(p: Seq<char>, is_dir: bool) -> Seq<char> {
    if is_dir {
        entry_name(p).push('/')
    } else {
        entry_name(p)
    }
}

/// The label of an entry of the file dialog (see [`entry_label_of`]).
pub fn entry_label(p: &str, is_dir: bool) -> (r: String)
    ensures
        r@ == entry_label_of(p@, is_dir),
{
    let v = chars_of(p);
    assert(v@.subrange(0, v@.len() as int) =~= v@);
    let n = v.len();
    let mut r = match rfind_char(&v, 0, n, '/') {
        Some(i) => {
            let t = string_of_range(&v, i + 1, n);
            assert(t@ =~= p@.skip(i + 1));
            t
        },
        None => owned(p),
    };
    if is_dir {
        push_char(&mut r, '/');
    }
    r
}

/// The actions a row of the watch list offers: set and clear for a
/// writable bit, set a value for another writable item, unlink for a
/// linked one.
pub open spec fn actions_of(dtype: Seq<char>, writable: i8) -> Seq<char> {
    if dtype == "bit"@ {
        if writable == 1 {
            "Set|Clr"@
        } else if writable == -1 {
            "unlink"@
        } else {
            "–"@
        }
    } else if writable == 1 {
        "set val"@
    } else if writable == -1 {
        "unlink"@
    } else {
        "–"@
    }
}

/// The actions a row of the watch list offers (see [`actions_of`]).
pub fn watch_actions(dtype: &str, writable: i8) -> (r: &'static str)
    ensures
        r@ == actions_of(dtype@, writable),
{
    if crate::text::str_eq(dtype, "bit") {
        if writable == 1 {
            "Set|Clr"
        } else if writable == -1 {
            "unlink"
        } else {
            "–"
        }
    } else if writable == 1 {
        "set val"
    } else if writable == -1 {
        "unlink"
    } else {
        "–"
    }
}


// ---------------------------------------------------------------------------
// Scrolling a text

/// A scroll position kept so that the last page of `total` lines still
/// fills a window of `height` lines.
pub open spec fn scroll_limit(scroll: nat, total: nat, height: nat) -> nat {
    let top = if total >= height {
        (total - height) as nat
    } else {
        0
    };
    if scroll <= top {
        scroll
    } else {
        top
    }
}

/// Keeps a scroll position within a text (see [`scroll_limit`]).
pub fn clamp_scroll(scroll: usize, total: usize, height: usize) -> (r: usize)
    ensures
        r == scroll_limit(scroll as nat, total as nat, height as nat),
{
    let top = if total >= height {
        total - height
    } else {
        0
    };
    if scroll <= top {
        scroll
    } else {
        top
    }
}

/// Lines joined by line breaks.
pub open spec fn nl_joined(ls: Seq<Seq<char>>) -> Seq<char>
    decreases ls.len(),
{
    if ls.len() == 0 {
        seq![]
    } else if ls.len() == 1 {
        ls[0]
    } else {
        nl_joined(ls.drop_last()) + seq!['\n'] + ls.last()
    }
}

/// The part of a text that a window of `height` lines shows: the number of
/// lines of the text, the scroll position kept within it (see
/// [`scroll_limit`]), and the lines from there that fit, joined by line
/// breaks.
pub fn text_window(text: &str, scroll: usize, height: usize) -> (r: (usize, usize, String))
    ensures
        r.0 == lines(text@).len(),
        r.1 == scroll_limit(scroll as nat, r.0 as nat, height as nat),
        r.2@ == nl_joined(lines(text@).subrange(
            r.1 as int,
            if r.1 + height <= r.0 {
                r.1 + height
            } else {
                r.0 as int
            },
        )),
{
    let v = chars_of(text);
    let lb = line_bounds(&v);
    let total = lb.len();
    let c = clamp_scroll(scroll, total, height);
    let end = if height <= total - c {
        c + height
    } else {
        total
    };
    let ghost ls = lines(text@);
    assert(ls == spans(v@, lb@));
    let mut out = String::new();
    let mut j = c;
    assert(ls.subrange(c as int, c as int) =~= Seq::<Seq<char>>::empty());
    while j < end
        invariant
            c <= j <= end <= total == lb@.len(),
            ls == spans(v@, lb@),
            forall|k: int| 0 <= k < lb@.len() ==> lb@[k].0 <= #[trigger] lb@[k].1 <= v@.len(),
            out@ == nl_joined(ls.subrange(c as int, j as int)),
        decreases end - j,
    {
        let (a, b) = lb[j];
        assert(lb@[j as int].0 <= lb@[j as int].1 <= v@.len());
        let ghost before = out@;
        if j > c {
            push_char(&mut out, '\n');
        }
        let part = string_of_range(&v, a, b);
        push_str(&mut out, part.as_str());
        let ghost nxt = ls.subrange(c as int, j + 1);
        assert(nxt.drop_last() =~= ls.subrange(c as int, j as int));
        assert(nxt.last() == part@);
        if j > c {
            assert(out@ =~= before + seq!['\n'] + part@);
        } else {
            assert(nxt =~= seq![part@]);
            assert(out@ =~= part@);
        }
        j = j + 1;
    }
    (total, c, out)
}

// ---------------------------------------------------------------------------
// Key hints

/// The keys that work everywhere.
pub open spec fn global_hint() -> Seq<char> {
    "1 SHOW  2 WATCH | / search | Tab next tab | F5 settings | q quit"@
}

/// The keys of the pane that has the focus, or of the open prompt.
pub open spec fn hint_of(focus: Focus, input: Option<InputKind>) -> Seq<char> {
    match input {
        Some(InputKind::BitPick) => " ←→ / ↑↓ toggle | t/f or 1/0 pick | Enter set | Esc cancel "@,
        Some(_) => " Enter ok | Esc cancel | Ctrl+U clear | F1 help "@,
        None => match focus {
            Focus::Tree => " → expand closed / → pane if scrollable | ← collapse | Enter open/add | Space toggle/a leaf | a add | A add subtree | s show | e/w expand/collapse all | E/W this type | / filter | f full-path | r reload | F2 tree | [ ] resize "@,
            Focus::Filter => " type = regex filter (live) | Ctrl+U clear | Esc/Enter done "@,
            Focus::ShowText => " ← tree | ↑↓/PgUp/PgDn scroll | a add shown to watch | c command | F3 content | F4 command "@,
            Focus::Command => " ← tree | Enter run halcmd | ↑↓ history | Esc back | Ctrl+U clear "@,
            Focus::Watch => " ← tree | Space toggle bit | Enter set val | s set1 | c clr0 | u unlink | x remove | r reload | e erase | a add | o show in tree | S/m save | L load (file dialog) "@,
            Focus::Settings => " ← close + tree | Esc/F5 close | ↑↓ sel | Enter edit/toggle | Apply = Enter on last row "@,
        },
    }
}

/// The key-hint line: the keys of the focused pane or open prompt, then
/// the keys that work everywhere.
pub fn hint_line(focus: Focus, input: Option<InputKind>) -> (r: String)
    ensures
        r@ == " "@ + hint_of(focus, input) + " | "@ + global_hint(),
{
    let h = match input {
        Some(InputKind::BitPick) => " ←→ / ↑↓ toggle | t/f or 1/0 pick | Enter set | Esc cancel ",
        Some(_) => " Enter ok | Esc cancel | Ctrl+U clear | F1 help ",
        None => match focus {
            Focus::Tree => " → expand closed / → pane if scrollable | ← collapse | Enter open/add | Space toggle/a leaf | a add | A add subtree | s show | e/w expand/collapse all | E/W this type | / filter | f full-path | r reload | F2 tree | [ ] resize ",
            Focus::Filter => " type = regex filter (live) | Ctrl+U clear | Esc/Enter done ",
            Focus::ShowText => " ← tree | ↑↓/PgUp/PgDn scroll | a add shown to watch | c command | F3 content | F4 command ",
            Focus::Command => " ← tree | Enter run halcmd | ↑↓ history | Esc back | Ctrl+U clear ",
            Focus::Watch => " ← tree | Space toggle bit | Enter set val | s set1 | c clr0 | u unlink | x remove | r reload | e erase | a add | o show in tree | S/m save | L load (file dialog) ",
            Focus::Settings => " ← close + tree | Esc/F5 close | ↑↓ sel | Enter edit/toggle | Apply = Enter on last row ",
        },
    };
    let mut r = owned(" ");
    push_str(&mut r, h);
    push_str(&mut r, " | ");
    push_str(&mut r, "1 SHOW  2 WATCH | / search | Tab next tab | F5 settings | q quit");
    r
}

// ---------------------------------------------------------------------------
// The settings screen

/// A format setting as the settings screen shows it: with a note when a
/// command-line option overrides it.
pub open spec fn format_shown(f: Seq<char>, overridden: bool, option: Seq<char>) -> Seq<char> {
    if overridden {
        f + " (disabled by "@ + option + ")"@
    } else {
        f
    }
}

/// A flag as the settings screen shows it.
pub open spec fn flag_text(b: bool) -> Seq<char> {
    if b {
        "1"@
    } else {
        "0"@
    }
}

fn shown_format(f: &str, overridden: bool, option: &str) -> (r: String)
    ensures
        r@ == format_shown(f@, overridden, option@),
{
    let mut r = owned(f);
    if overridden {
        push_str(&mut r, " (disabled by ");
        push_str(&mut r, option);
        push_str(&mut r, ")");
    }
    r
}

/// The values of the six rows of the settings screen: update interval,
/// column width, float format, integer format, whether the watch list is
/// remembered, and the empty value of Apply.
pub fn setting_values(p: &Prefs, float_override: bool, int_override: bool) -> (r: Vec<String>)
    ensures
        r@.len() == 6,
        r@[0]@ == decimal(p.watch_interval as nat),
        r@[1]@ == decimal(p.col1_width as nat),
        r@[2]@ == format_shown(p.ffmts@, float_override, "--fformat"@),
        r@[3]@ == format_shown(p.ifmts@, int_override, "--iformat"@),
        r@[4]@ == flag_text(p.auto_save_watchlist),
        r@[5]@.len() == 0,
{
    let mut r: Vec<String> = Vec::new();
    r.push(decimal_string(p.watch_interval));
    r.push(decimal_string(p.col1_width as u64));
    r.push(shown_format(p.ffmts.as_str(), float_override, "--fformat"));
    r.push(shown_format(p.ifmts.as_str(), int_override, "--iformat"));
    r.push(
        if p.auto_save_watchlist {
            owned("1")
        } else {
            owned("0")
        },
    );
    r.push(String::new());
    r
}

// ---------------------------------------------------------------------------
// The help text

/// How a line of the help text is drawn.
#[derive(Clone, Copy, PartialEq, Eq, Debug, Structural)]
pub enum HelpStyle {
    /// The title and its underline.
    Title,
    /// A section header.
    Header,
    Body,
}

/// Whether `char::is_uppercase` holds of a character (the Unicode
/// `Uppercase` property).
pub uninterp spec fn upper_case(c: char) -> bool;

/// Calls `char::is_uppercase`; its result is the named property of the
/// character, and nothing more of it is stated here.
#[verifier::external_body]
fn is_upper(c: char) -> (r: bool)
    ensures
        r == upper_case(c),
{
    c.is_uppercase()
}

/// A character that may stand in a section header's leading run: an
/// uppercase letter, a digit, or one of ` /().'`.
pub open spec fn header_char(c: char) -> bool {
    upper_case(c) || ('0' <= c && c <= '9') || c == ' ' || c == '/' || c == '(' || c == ')'
        || c == '.' || c == '\''
}

/// The number of header characters that `t` begins with.
pub open spec fn header_run(t: Seq<char>) -> nat
    decreases t.len(),
{
    if t.len() > 0 && header_char(t[0]) {
        1 + header_run(t.drop_first())
    } else {
        0
    }
}

/// The style of a help line, looking at it without trailing whitespace:
/// the title line and a line of `=` are the title; a line that does not
/// begin with a space and begins with at least two header characters is a
/// section header; anything else is body text.
pub open spec fn help_style_of(line: Seq<char>) -> HelpStyle {
    let t = trim_end(line);
    if "haltui —"@.is_prefix_of(t) || (t.len() > 0 && forall|i: int|
        0 <= i < t.len() ==> #[trigger] t[i] == '=') {
        HelpStyle::Title
    } else if t.len() > 0 && t[0] != ' ' && header_run(t) >= 2 {
        HelpStyle::Header
    } else {
        HelpStyle::Body
    }
}

/// The style of a line of the help text (see [`help_style_of`]).
pub fn help_style(line: &str) -> (r: HelpStyle)
    ensures
        r == help_style_of(line@),
{
    let v = chars_of(line);
    assert(v@.subrange(0, v@.len() as int) =~= v@);
    let mut e = v.len();
    while e > 0 && is_space(v[e - 1])
        invariant
            e <= v@.len(),
            trim_end(v@) == trim_end(v@.take(e as int)),
        decreases e,
    {
        assert(v@.take(e - 1) =~= v@.take(e as int).drop_last());
        e = e - 1;
    }
    let ghost t = v@.take(e as int);
    assert(trim_end(t) == t) by {
        if t.len() > 0 {
            assert(t.last() == v@[e - 1]);
        }
    }
    let title = chars_of("haltui —");
    proof {
        reveal_strlit("haltui —");
    }
    let mut is_title = title.len() <= e;
    let mut i: usize = 0;
    while is_title && i < title.len()
        invariant
            title@ == "haltui —"@,
            e <= v@.len(),
            t == v@.take(e as int),
            i <= title@.len(),
            is_title ==> title@.len() <= e && title@.take(i as int) =~= t.take(i as int),
            !is_title ==> !title@.is_prefix_of(t),
        decreases title@.len() - i,
    {
        if title[i] != v[i] {
            is_title = false;
            assert(t[i as int] == v@[i as int]);
        } else {
            assert(title@.take(i + 1) =~= t.take(i + 1)) by {
                assert(t[i as int] == v@[i as int]);
            }
        }
        i = i + 1;
    }
    if is_title {
        assert(title@.take(title@.len() as int) =~= title@);
        assert(title@.is_prefix_of(t)) by {
            assert(t.take(title@.len() as int) =~= title@);
        }
        return HelpStyle::Title;
    }
    if e > 0 {
        let mut all_eq = true;
        let mut k: usize = 0;
        while k < e
            invariant
                k <= e <= v@.len(),
                t == v@.take(e as int),
                all_eq == (forall|j: int| 0 <= j < k ==> #[trigger] t[j] == '='),
            decreases e - k,
        {
            if v[k] != '=' {
                all_eq = false;
            }
            assert(t[k as int] == v@[k as int]);
            k = k + 1;
        }
        if all_eq {
            return HelpStyle::Title;
        }
        if v[0] != ' ' {
            let mut n: usize = 0;
            assert(t.skip(0) =~= t);
            while n < e && header_char_exec(v[n])
                invariant
                    n <= e <= v@.len(),
                    t == v@.take(e as int),
                    header_run(t) == n + header_run(t.skip(n as int)),
                decreases e - n,
            {
                assert(t.skip(n as int)[0] == v@[n as int]);
                assert(t.skip(n as int).drop_first() =~= t.skip(n + 1));
                n = n + 1;
            }
            assert(header_run(t.skip(n as int)) == 0) by {
                if n < e {
                    assert(t.skip(n as int)[0] == v@[n as int]);
                }
            }
            assert(t[0] == v@[0]);
            if n >= 2 {
                return HelpStyle::Header;
            }
        }
    }
    HelpStyle::Body
}

fn header_char_exec(c: char) -> (r: bool)
    ensures
        r == header_char(c),
{
    is_upper(c) || ('0' <= c && c <= '9') || c == ' ' || c == '/' || c == '(' || c == ')' || c == '.'
        || c == '\''
}

/// `char::to_ascii_lowercase`: `A` to `Z` become `a` to `z`, every other
/// character stays.
pub open spec fn ascii_lower(c: char) -> char {
    if 'A' <= c && c <= 'Z' {
        ((c as u32) + 32) as char
    } else {
        c
    }
}

/// A text with every character put through [`ascii_lower`].
pub open spec fn lowered(s: Seq<char>) -> Seq<char> {
    s.map_values(|c: char| ascii_lower(c))
}

/// One character in ASCII lower case (see [`ascii_lower`]).
fn lower_char(c: char) -> (r: char)
    ensures
        r == ascii_lower(c),
{
    if 'A' <= c && c <= 'Z' {
        let b = c as u8;
        assert(b as u32 == c as u32);
        ((b + 32) as char)
    } else {
        c
    }
}

/// `s` in ASCII lower case, as `str::to_ascii_lowercase` gives it.
fn to_ascii_lower(s: &str) -> (r: String)
    ensures
        r@ == lowered(s@),
{
    let v = chars_of(s);
    let mut r = String::new();
    let mut i: usize = 0;
    while i < v.len()
        invariant
            i <= v@.len(),
            v@ == s@,
            r@ == lowered(v@.take(i as int)),
        decreases v@.len() - i,
    {
        push_char(&mut r, lower_char(v[i]));
        assert(lowered(v@.take(i + 1)) =~= lowered(v@.take(i as int)).push(ascii_lower(v@[i as int])));
        i = i + 1;
    }
    assert(v@.take(v@.len() as int) =~= v@);
    r
}

/// A match of `p` in `s` lies within `s`.
pub proof fn lemma_first_sub_fits(s: Seq<char>, p: Seq<char>)
    ensures
        first_sub(s, p) matches Some(i) ==> 0 <= i && i + p.len() <= s.len(),
    decreases s.len(),
{
    if !p.is_prefix_of(s) && s.len() > 0 {
        lemma_first_sub_fits(s.drop_first(), p);
    }
}

/// The pieces of a help line from position `pos` on, as (start, end,
/// highlighted): each occurrence of `q`, leftmost first and not
/// overlapping, is highlighted, and the text between occurrences is not.
pub open spec fn match_spans(l: Seq<char>, q: Seq<char>, pos: int) -> Seq<(int, int, bool)>
    decreases l.len() - pos,
{
    if q.len() == 0 || pos < 0 || pos > l.len() {
        seq![]
    } else {
        match first_sub(l.skip(pos), q) {
            Some(rel) => {
                proof {
                    lemma_first_sub_fits(l.skip(pos), q);
                }
                let st = pos + rel;
                let e = st + q.len();
                (if rel > 0 {
                    seq![(pos, st, false)]
                } else {
                    seq![]
                }) + seq![(st, e, true)] + match_spans(l, q, e)
            },
            None => if pos < l.len() {
                seq![(pos, l.len() as int, false)]
            } else {
                seq![]
            },
        }
    }
}

/// The pieces as integers.
pub open spec fn span_views(v: Seq<(usize, usize, bool)>) -> Seq<(int, int, bool)> {
    v.map_values(|t: (usize, usize, bool)| (t.0 as int, t.1 as int, t.2))
}

/// How to highlight a search in a help line: `None` (the line as it is)
/// when the query is empty or either text is not ASCII; else the pieces of
/// [`match_spans`], comparing both texts in ASCII lower case. The pieces
/// lie within the line.
pub fn highlight_spans(line: &str, query: &str) -> (r: Option<Vec<(usize, usize, bool)>>)
    ensures
        (r is None) == (query@.len() == 0 || !is_ascii_chars(line@) || !is_ascii_chars(query@)),
        r matches Some(v) ==> span_views(v@) == match_spans(lowered(line@), lowered(query@), 0),
        r matches Some(v) ==> forall|k: int|
            0 <= k < v@.len() ==> (#[trigger] v@[k]).0 <= v@[k].1 <= line@.len(),
{
    let qn = chars_of(query).len();
    if qn == 0 || !line.is_ascii() || !query.is_ascii() {
        return None;
    }
    let low = to_ascii_lower(line);
    let lq = to_ascii_lower(query);
    let lv = chars_of(low.as_str());
    let qv = chars_of(lq.as_str());
    let ghost l = lv@;
    let ghost q = qv@;
    assert(l.len() == line@.len());
    let n = lv.len();
    let mut out: Vec<(usize, usize, bool)> = Vec::new();
    let mut pos: usize = 0;
    let mut done = false;
    assert(span_views(out@) =~= Seq::<(int, int, bool)>::empty());
    assert(span_views(out@) + match_spans(l, q, 0) =~= match_spans(l, q, 0));
    while !done
        invariant
            l == lv@,
            q == qv@,
            q.len() > 0,
            n == l.len(),
            pos <= n,
            forall|k: int| 0 <= k < out@.len() ==> (#[trigger] out@[k]).0 <= out@[k].1 <= n,
            done ==> span_views(out@) == match_spans(l, q, 0),
            !done ==> span_views(out@) + match_spans(l, q, pos as int) == match_spans(l, q, 0),
        decreases n - pos + (if done {
            0int
        } else {
            1int
        }),
    {
        let ghost before = out@;
        assert(l.skip(pos as int) =~= l.subrange(pos as int, n as int));
        match find_sub(&lv, pos, n, &qv) {
            Some(st) => {
                proof {
                    lemma_first_sub_fits(l.skip(pos as int), q);
                }
                let e = st + qv.len();
                let ghost rest = match_spans(l, q, e as int);
                let ghost head: Seq<(int, int, bool)> = if st > pos {
                    seq![(pos as int, st as int, false)]
                } else {
                    seq![]
                };
                assert(match_spans(l, q, pos as int) == head + seq![(st as int, e as int, true)]
                    + rest);
                if st > pos {
                    out.push((pos, st, false));
                }
                out.push((st, e, true));
                assert(span_views(out@) =~= span_views(before) + head + seq![
                    (st as int, e as int, true),
                ]);
                assert(span_views(out@) + rest =~= span_views(before) + match_spans(
                    l,
                    q,
                    pos as int,
                ));
                pos = e;
            },
            None => {
                if pos < n {
                    out.push((pos, n, false));
                    assert(span_views(out@) =~= span_views(before) + seq![
                        (pos as int, n as int, false),
                    ]);
                } else {
                    assert(match_spans(l, q, pos as int) =~= Seq::<(int, int, bool)>::empty());
                    assert(span_views(before) + match_spans(l, q, pos as int) =~= span_views(
                        before,
                    ));
                }
                done = true;
            },
        }
    }
    Some(out)
}

// ---------------------------------------------------------------------------
// Small rules of the panes

/// Whether a tree path names a root: it has neither `+` nor `.`.
pub open spec fn root_path(path: Seq<char>) -> bool {
    first_pos(path, '+') is None && first_pos(path, '.') is None
}

/// Whether a tree path names a root (see [`root_path`]); roots are drawn
/// bold.
pub fn is_root_row(path: &str) -> (r: bool)
    ensures
        r == root_path(path@),
{
    let v = chars_of(path);
    assert(v@.subrange(0, v@.len() as int) =~= v@);
    find_char(&v, 0, v.len(), '+').is_none() && find_char(&v, 0, v.len(), '.').is_none()
}

/// The row of a table of `len` rows that is drawn selected: the selection
/// when it is a row, else the first row, and none in an empty table.
pub fn table_selection(sel: Option<usize>, len: usize) -> (r: Option<usize>)
    ensures
        r == (match sel {
            Some(s) if s < len => Some(s),
            _ => if len == 0 {
                None
            } else {
                Some(0usize)
            },
        }),
{
    match sel {
        Some(s) if s < len => Some(s),
        _ => if len == 0 {
            None
        } else {
            Some(0)
        },
    }
}

/// Whether a text has more lines than a page (of at least one line) shows,
/// so that its pane is worth scrolling.
pub fn longer_than_page(text: &str, page: usize) -> (r: bool)
    ensures
        r == (lines(text@).len() > page_of(page as nat)),
{
    let v = chars_of(text);
    let lb = line_bounds(&v);
    let pg = if page == 0 {
        1
    } else {
        page
    };
    lb.len() > pg
}

} // verus!
