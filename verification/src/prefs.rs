//! Read/write the halshow preferences file. The on-disk format is the
//! Tcl fragment that halshow writes; both tools can share one settings file.
//!
//! Locating the file and reading or writing it are left to the application;
//! this module turns its text into settings and settings into its text. The
//! split ratio is a floating-point number, which this module keeps as text:
//! reading collects the texts the file gives for it, in order, and writing
//! takes the text to store.

use vstd::prelude::*;
use crate::num::{decimal, decimal_string, parse_unsigned, parse_unsigned_range};
use crate::num::{lemma_decimal, lemma_parse_decimal};
use crate::text::{
    owned,
    concat_lines, lemma_concat_lines_append, lemma_lines_concat, lemma_trim_after_ws,
    lemma_trim_plain, lemma_trim_space_after, lemma_trimmed_ends, lemma_words_single, line_ok,
    no_ws, trim_end, trim_start, words_scan,
    chars_of, first_pos, is_space, is_ws, line_bounds, lines, push_char, push_str, range_eq,
    has_prefix, spans, spans_ok, split_ws_range, string_of_range, trim, trim_bounds, views, words,
};

verus! {

broadcast use vstd::string::group_string_axioms;

/// The screen that was open when the preferences were written.
#[derive(Clone, Copy, PartialEq, Eq, Debug, Structural)]
pub enum Workmode {
    Show,
    Watch,
    Settings,
}

/// The file's name for a work mode.
pub open spec fn mode_text(m: Workmode) -> Seq<char> {
    match m {
        Workmode::Show => "showhal"@,
        Workmode::Watch => "watchhal"@,
        Workmode::Settings => "settings"@,
    }
}

/// The work mode a file value names; anything unknown is `Show`.
pub open spec fn mode_of(s: Seq<char>) -> Workmode {
    if s == "watchhal"@ {
        Workmode::Watch
    } else if s == "settings"@ {
        Workmode::Settings
    } else {
        Workmode::Show
    }
}

impl Workmode {
    /// The file's name for the mode.
    pub fn as_str(self) -> (r: &'static str)
        ensures
            r@ == mode_text(self),
    {
        match self {
            Workmode::Show => "showhal",
            Workmode::Watch => "watchhal",
            Workmode::Settings => "settings",
        }
    }
}

/// The settings kept in the preferences file.
#[derive(Clone, Debug)]
pub struct Prefs {
    pub geometry: String,
    /// The texts given for the split ratio, in file order; the last one that
    /// reads as a number is the ratio.
    pub ratio_texts: Vec<String>,
    pub old_w_leftf: u16,
    pub workmode: Workmode,
    pub watch_interval: u64,
    pub col1_width: u16,
    pub ffmts: String,
    pub ifmts: String,
    pub always_on_top: bool,
    pub auto_save_watchlist: bool,
    pub watchlist: Vec<String>,
}

/// The settings as values.
#[verifier::ext_equal]
pub struct PrefsView {
    pub geometry: Seq<char>,
    pub ratio_texts: Seq<Seq<char>>,
    pub old_w_leftf: u16,
    pub workmode: Workmode,
    pub watch_interval: u64,
    pub col1_width: u16,
    pub ffmts: Seq<char>,
    pub ifmts: Seq<char>,
    pub always_on_top: bool,
    pub auto_save_watchlist: bool,
    pub watchlist: Seq<Seq<char>>,
}

impl View for Prefs {
    type V = PrefsView;

    open spec fn view(&self) -> PrefsView {
        PrefsView {
            geometry: self.geometry@,
            ratio_texts: views(self.ratio_texts@),
            old_w_leftf: self.old_w_leftf,
            workmode: self.workmode,
            watch_interval: self.watch_interval,
            col1_width: self.col1_width,
            ffmts: self.ffmts@,
            ifmts: self.ifmts@,
            always_on_top: self.always_on_top,
            auto_save_watchlist: self.auto_save_watchlist,
            watchlist: views(self.watchlist@),
        }
    }
}

/// The settings before any file is read.
pub open spec fn default_prefs() -> PrefsView {
    PrefsView {
        geometry: "800x600+100+100"@,
        ratio_texts: seq![],
        old_w_leftf: 160,
        workmode: Workmode::Show,
        watch_interval: 100,
        col1_width: 100,
        ffmts: seq![],
        ifmts: seq![],
        always_on_top: false,
        auto_save_watchlist: true,
        watchlist: seq![],
    }
}


impl Default for Prefs {
    fn default() -> (r: Self)
        ensures
            r@ == default_prefs(),
    {
        let r = Prefs {
            geometry: owned("800x600+100+100"),
            ratio_texts: Vec::new(),
            old_w_leftf: 160,
            workmode: Workmode::Show,
            watch_interval: 100,
            col1_width: 100,
            ffmts: String::new(),
            ifmts: String::new(),
            always_on_top: false,
            auto_save_watchlist: true,
            watchlist: Vec::new(),
        };
        assert(r@.ratio_texts =~= seq![]);
        assert(r@.watchlist =~= seq![]);
        r
    }
}

/// `s` without one pair of surrounding braces.
pub open spec fn unbraced(s: Seq<char>) -> Seq<char> {
    if s.len() >= 2 && s[0] == '{' && s.last() == '}' {
        s.subrange(1, s.len() - 1)
    } else {
        s
    }
}

/// Whether a file value means "true".
pub open spec fn flag_of(s: Seq<char>) -> bool {
    s == "1"@ || s == "true"@
}

/// The settings after a `set ::name value` line.
pub open spec fn assign(p: PrefsView, name: Seq<char>, val: Seq<char>) -> PrefsView {
    if name == "ratio"@ {
        PrefsView { ratio_texts: p.ratio_texts.push(val), ..p }
    } else if name == "old_w_leftf"@ {
        match parse_unsigned(val, 0xffff) {
            Some(n) => PrefsView { old_w_leftf: n as u16, ..p },
            None => p,
        }
    } else if name == "workmode"@ {
        PrefsView { workmode: mode_of(val), ..p }
    } else if name == "watchInterval"@ {
        match parse_unsigned(val, 0xffff_ffff_ffff_ffff) {
            Some(n) => PrefsView { watch_interval: n as u64, ..p },
            None => p,
        }
    } else if name == "col1_width"@ {
        match parse_unsigned(val, 0xffff) {
            Some(n) => PrefsView { col1_width: n as u16, ..p },
            None => p,
        }
    } else if name == "ffmts"@ {
        PrefsView { ffmts: val, ..p }
    } else if name == "ifmts"@ {
        PrefsView { ifmts: val, ..p }
    } else if name == "alwaysOnTop"@ {
        PrefsView { always_on_top: flag_of(val), ..p }
    } else if name == "autoSaveWatchlist"@ {
        PrefsView { auto_save_watchlist: flag_of(val), ..p }
    } else {
        p
    }
}

/// The position of the first whitespace character of `s`.
pub open spec fn first_ws(s: Seq<char>) -> Option<int>
    decreases s.len(),
{
    if s.len() == 0 {
        None
    } else if is_ws(s[0]) {
        Some(0)
    } else {
        match first_ws(s.drop_first()) {
            Some(i) => Some(i + 1),
            None => None,
        }
    }
}

/// How one line of the file changes the settings; the flag tells whether the
/// watch list block is open.
pub open spec fn read_line(st: (PrefsView, bool), raw: Seq<char>) -> (PrefsView, bool) {
    let (p, in_list) = st;
    let line = trim(raw);
    if in_list {
        if line == "}"@ {
            (p, false)
        } else {
            (PrefsView { watchlist: p.watchlist + words(line), ..p }, true)
        }
    } else if line.len() == 0 || line[0] == '#' {
        (p, false)
    } else if "set ::watchlist {"@.is_prefix_of(line) {
        let rest = trim(line.skip(17));
        if rest.len() > 0 && rest.last() == '}' {
            (PrefsView { watchlist: p.watchlist + words(rest.drop_last()), ..p }, false)
        } else {
            (PrefsView { watchlist: p.watchlist + words(rest), ..p }, true)
        }
    } else if "placeFrames"@.is_prefix_of(line) {
        (PrefsView { ratio_texts: p.ratio_texts.push(trim(line.skip(11))), ..p }, false)
    } else if "wm geometry ."@.is_prefix_of(line) {
        (PrefsView { geometry: trim(line.skip(13)), ..p }, false)
    } else if !"set ::"@.is_prefix_of(line) {
        (p, false)
    } else {
        let rest = line.skip(6);
        match first_ws(rest) {
            None => (p, false),
            Some(i) => (assign(p, rest.take(i), unbraced(trim(rest.skip(i + 1)))), false),
        }
    }
}

/// The settings and block state after reading `ls`.
pub open spec fn read_lines(ls: Seq<Seq<char>>) -> (PrefsView, bool)
    decreases ls.len(),
{
    if ls.len() == 0 {
        (default_prefs(), false)
    } else {
        read_line(read_lines(ls.drop_last()), ls.last())
    }
}

/// The settings a preferences file holds.
pub open spec fn prefs_of(text: Seq<char>) -> PrefsView {
    read_lines(lines(text)).0
}


fn extend_words(list: &mut Vec<String>, v: &Vec<char>, a: usize, b: usize)
    requires
        a <= b <= v@.len(),
    ensures
        views(final(list)@) == views(old(list)@) + words(v@.subrange(a as int, b as int)),
{
    let ws = split_ws_range(v, a, b);
    let mut i: usize = 0;
    assert(views(ws@).take(0) =~= seq![]);
    assert(views(list@) =~= views(old(list)@) + views(ws@).take(0));
    while i < ws.len()
        invariant
            i <= ws@.len(),
            views(list@) == views(old(list)@) + views(ws@).take(i as int),
        decreases ws@.len() - i,
    {
        let w = ws[i].clone();
        let ghost prev = views(list@);
        list.push(w);
        assert(views(list@) =~= prev.push(ws@[i as int]@));
        assert(views(ws@).take(i + 1) =~= views(ws@).take(i as int).push(ws@[i as int]@));
        assert(views(list@) =~= views(old(list)@) + views(ws@).take(i + 1));
        i = i + 1;
    }
    assert(views(ws@).take(ws@.len() as int) =~= views(ws@));
}

/// The index of the first whitespace character of `v[lo..hi]`.
fn find_ws(v: &Vec<char>, lo: usize, hi: usize) -> (r: Option<usize>)
    requires
        lo <= hi <= v@.len(),
    ensures
        match r {
            Some(i) => first_ws(v@.subrange(lo as int, hi as int)) == Some(i - lo) && lo <= i < hi,
            None => first_ws(v@.subrange(lo as int, hi as int)) is None,
        },
{
    let mut i = lo;
    while i < hi
        invariant
            lo <= i <= hi <= v@.len(),
            first_ws(v@.subrange(lo as int, hi as int)) == crate::text::shift(
                first_ws(v@.subrange(i as int, hi as int)),
                i - lo,
            ),
        decreases hi - i,
    {
        if is_space(v[i]) {
            return Some(i);
        }
        assert(v@.subrange(i as int, hi as int).drop_first() =~= v@.subrange(i + 1, hi as int));
        i = i + 1;
    }
    None
}

/// Whether `v[a..b]` is the text `lit`.
fn is_lit(v: &Vec<char>, a: usize, b: usize, lit: &str) -> (r: bool)
    requires
        a <= b <= v@.len(),
    ensures
        r == (v@.subrange(a as int, b as int) == lit@),
{
    let l = chars_of(lit);
    range_eq(v, a, b, &l)
}

/// Whether `lit` begins `v[a..b]`.
fn starts_lit(v: &Vec<char>, a: usize, b: usize, lit: &str) -> (r: bool)
    requires
        a <= b <= v@.len(),
    ensures
        r == lit@.is_prefix_of(v@.subrange(a as int, b as int)),
{
    let l = chars_of(lit);
    has_prefix(v, a, b, &l)
}

fn set_value(p: &mut Prefs, v: &Vec<char>, na: usize, nb: usize, ua: usize, ub: usize)
    requires
        na <= nb <= v@.len(),
        ua <= ub <= v@.len(),
    ensures
        final(p)@ == assign(
            old(p)@,
            v@.subrange(na as int, nb as int),
            v@.subrange(ua as int, ub as int),
        ),
{
    let ghost val = v@.subrange(ua as int, ub as int);
    if is_lit(v, na, nb, "ratio") {
        let t = string_of_range(v, ua, ub);
        p.ratio_texts.push(t);
        assert(views(p.ratio_texts@) =~= views(old(p).ratio_texts@).push(val));
        assert(p@ =~= assign(old(p)@, v@.subrange(na as int, nb as int), val));
    } else if is_lit(v, na, nb, "old_w_leftf") {
        match parse_unsigned_range(v, ua, ub, 0xffff) {
            Some(n) => {
                p.old_w_leftf = n as u16;
            },
            None => {},
        }
        assert(p@ =~= assign(old(p)@, v@.subrange(na as int, nb as int), val));
    } else if is_lit(v, na, nb, "workmode") {
        p.workmode = if is_lit(v, ua, ub, "watchhal") {
            Workmode::Watch
        } else if is_lit(v, ua, ub, "settings") {
            Workmode::Settings
        } else {
            Workmode::Show
        };
        assert(p@ =~= assign(old(p)@, v@.subrange(na as int, nb as int), val));
    } else if is_lit(v, na, nb, "watchInterval") {
        match parse_unsigned_range(v, ua, ub, 0xffff_ffff_ffff_ffff) {
            Some(n) => {
                p.watch_interval = n;
            },
            None => {},
        }
        assert(p@ =~= assign(old(p)@, v@.subrange(na as int, nb as int), val));
    } else if is_lit(v, na, nb, "col1_width") {
        match parse_unsigned_range(v, ua, ub, 0xffff) {
            Some(n) => {
                p.col1_width = n as u16;
            },
            None => {},
        }
        assert(p@ =~= assign(old(p)@, v@.subrange(na as int, nb as int), val));
    } else if is_lit(v, na, nb, "ffmts") {
        p.ffmts = string_of_range(v, ua, ub);
        assert(p@ =~= assign(old(p)@, v@.subrange(na as int, nb as int), val));
    } else if is_lit(v, na, nb, "ifmts") {
        p.ifmts = string_of_range(v, ua, ub);
        assert(p@ =~= assign(old(p)@, v@.subrange(na as int, nb as int), val));
    } else if is_lit(v, na, nb, "alwaysOnTop") {
        p.always_on_top = is_lit(v, ua, ub, "1") || is_lit(v, ua, ub, "true");
        assert(p@ =~= assign(old(p)@, v@.subrange(na as int, nb as int), val));
    } else if is_lit(v, na, nb, "autoSaveWatchlist") {
        p.auto_save_watchlist = is_lit(v, ua, ub, "1") || is_lit(v, ua, ub, "true");
        assert(p@ =~= assign(old(p)@, v@.subrange(na as int, nb as int), val));
    } else {
        assert(p@ =~= assign(old(p)@, v@.subrange(na as int, nb as int), val));
    }
}

fn read_one(p: &mut Prefs, in_list: bool, v: &Vec<char>, lo: usize, hi: usize) -> (r: bool)
    requires
        lo <= hi <= v@.len(),
    ensures
        (final(p)@, r) == read_line((old(p)@, in_list), v@.subrange(lo as int, hi as int)),
{
    let ghost raw = v@.subrange(lo as int, hi as int);
    let (a, b) = trim_bounds(v, lo, hi);
    let ghost line = v@.subrange(a as int, b as int);
    assert(line == trim(raw));
    if in_list {
        if is_lit(v, a, b, "}") {
            return false;
        }
        extend_words(&mut p.watchlist, v, a, b);
        assert(p@ =~= PrefsView { watchlist: old(p)@.watchlist + words(line), ..old(p)@ });
        return true;
    }
    if a == b || v[a] == '#' {
        return false;
    }
    proof {
        reveal_strlit("set ::watchlist {");
        reveal_strlit("placeFrames");
        reveal_strlit("wm geometry .");
        reveal_strlit("set ::");
    }
    if starts_lit(v, a, b, "set ::watchlist {") {
        assert(line.skip(17) =~= v@.subrange(a + 17, b as int));
        let (ra, rb) = trim_bounds(v, a + 17, b);
        let ghost rest = v@.subrange(ra as int, rb as int);
        if ra < rb && v[rb - 1] == '}' {
            assert(rest.drop_last() =~= v@.subrange(ra as int, rb - 1));
            extend_words(&mut p.watchlist, v, ra, rb - 1);
            assert(p@ =~= PrefsView {
                watchlist: old(p)@.watchlist + words(rest.drop_last()),
                ..old(p)@
            });
            return false;
        }
        extend_words(&mut p.watchlist, v, ra, rb);
        assert(p@ =~= PrefsView { watchlist: old(p)@.watchlist + words(rest), ..old(p)@ });
        return true;
    }
    if starts_lit(v, a, b, "placeFrames") {
        assert(line.skip(11) =~= v@.subrange(a + 11, b as int));
        let (ra, rb) = trim_bounds(v, a + 11, b);
        let t = string_of_range(v, ra, rb);
        p.ratio_texts.push(t);
        assert(views(p.ratio_texts@) =~= views(old(p).ratio_texts@).push(trim(line.skip(11))));
        assert(p@ =~= PrefsView {
            ratio_texts: old(p)@.ratio_texts.push(trim(line.skip(11))),
            ..old(p)@
        });
        return false;
    }
    if starts_lit(v, a, b, "wm geometry .") {
        assert(line.skip(13) =~= v@.subrange(a + 13, b as int));
        let (ra, rb) = trim_bounds(v, a + 13, b);
        p.geometry = string_of_range(v, ra, rb);
        assert(p@ =~= PrefsView { geometry: trim(line.skip(13)), ..old(p)@ });
        return false;
    }
    if !starts_lit(v, a, b, "set ::") {
        return false;
    }
    assert(line.skip(6) =~= v@.subrange(a + 6, b as int));
    match find_ws(v, a + 6, b) {
        None => false,
        Some(i) => {
            assert(line.skip(6).take(i - a - 6) =~= v@.subrange(a + 6, i as int));
            assert(line.skip(6).skip(i - a - 6 + 1) =~= v@.subrange(i + 1, b as int));
            let (ra, rb) = trim_bounds(v, i + 1, b);
            let (ua, ub) = if rb - ra >= 2 && v[ra] == '{' && v[rb - 1] == '}' {
                (ra + 1, rb - 1)
            } else {
                (ra, rb)
            };
            assert(v@.subrange(ua as int, ub as int) =~= unbraced(v@.subrange(ra as int, rb as int)));
            set_value(p, v, a + 6, i, ua, ub);
            false
        },
    }
}

/// Reads the settings from the text of a preferences file; lines the format
/// does not know are ignored.
pub fn parse_prefs(text: &str) -> (r: Prefs)
    ensures
        r@ == prefs_of(text@),
{
    let v = chars_of(text);
    let lb = line_bounds(&v);
    let mut p = Prefs::default();
    let mut in_list = false;
    let mut k: usize = 0;
    assert(spans(v@, lb@).take(0) =~= seq![]);
    while k < lb.len()
        invariant
            k <= lb@.len(),
            spans_ok(v@, lb@),
            spans(v@, lb@) == lines(text@),
            (p@, in_list) == read_lines(spans(v@, lb@).take(k as int)),
        decreases lb@.len() - k,
    {
        let (a, b) = lb[k];
        assert(lb@[k as int].0 <= lb@[k as int].1 <= v@.len());
        assert(spans(v@, lb@).take(k + 1).drop_last() =~= spans(v@, lb@).take(k as int));
        assert(spans(v@, lb@).take(k + 1).last() == v@.subrange(a as int, b as int));
        in_list = read_one(&mut p, in_list, &v, a, b);
        k = k + 1;
    }
    assert(spans(v@, lb@).take(lb@.len() as int) =~= spans(v@, lb@));
    p
}


/// "1" or "0".
pub open spec fn flag_text(b: bool) -> Seq<char> {
    if b {
        "1"@
    } else {
        "0"@
    }
}

/// Each item indented by four spaces.
pub open spec fn indented(ws: Seq<Seq<char>>) -> Seq<Seq<char>> {
    ws.map_values(|w: Seq<char>| "    "@ + w)
}

/// The lines of the watch list block: written only when the list is
/// remembered and not empty, one indented item per line.
pub open spec fn list_lines(p: PrefsView) -> Seq<Seq<char>> {
    if p.auto_save_watchlist && p.watchlist.len() > 0 {
        seq!["set ::watchlist {"@] + indented(p.watchlist) + seq![
            "}"@,
        ]
    } else {
        seq![]
    }
}

/// The lines before the watch list block.
pub open spec fn head_lines(p: PrefsView, ratio: Seq<char>) -> Seq<Seq<char>> {
    seq![
        "# Halshow settings"@,
        "# This file is generated automatically."@,
        "wm geometry . "@ + p.geometry,
        "placeFrames "@ + ratio,
        "set ::ratio "@ + ratio,
        "set ::old_w_leftf "@ + decimal(p.old_w_leftf as nat),
    ]
}

/// The lines after the watch list block.
pub open spec fn tail_lines(p: PrefsView) -> Seq<Seq<char>> {
    seq![
        "set ::workmode "@ + mode_text(p.workmode),
        "set ::watchInterval "@ + decimal(p.watch_interval as nat),
        "set ::col1_width "@ + decimal(p.col1_width as nat),
        "set ::ffmts {"@ + p.ffmts + "}"@,
        "set ::ifmts {"@ + p.ifmts + "}"@,
        "set ::alwaysOnTop "@ + flag_text(p.always_on_top),
        "set ::autoSaveWatchlist "@ + flag_text(p.auto_save_watchlist),
    ]
}

/// The lines of a preferences file for `p`, with `ratio` as the text of the
/// split ratio.
pub open spec fn pref_lines(p: PrefsView, ratio: Seq<char>) -> Seq<Seq<char>> {
    head_lines(p, ratio) + list_lines(p) + tail_lines(p)
}

/// The text of a preferences file for `p`.
pub open spec fn prefs_text_of(p: PrefsView, ratio: Seq<char>) -> Seq<char> {
    concat_lines(pref_lines(p, ratio))
}

fn add_line(s: &mut String, line: &String, Ghost(ls): Ghost<Seq<Seq<char>>>)
    requires
        old(s)@ == concat_lines(ls),
    ensures
        final(s)@ == concat_lines(ls.push(line@)),
{
    push_str(s, line.as_str());
    push_char(s, '\n');
    assert(ls.push(line@).drop_last() =~= ls);
}

fn text_line(a: &str, b: &str) -> (r: String)
    ensures
        r@ == a@ + b@,
{
    let mut r = String::new();
    push_str(&mut r, a);
    push_str(&mut r, b);
    r
}

fn braced_line(a: &str, b: &str) -> (r: String)
    ensures
        r@ == a@ + b@ + "}"@,
{
    let mut r = String::new();
    push_str(&mut r, a);
    push_str(&mut r, b);
    push_str(&mut r, "}");
    r
}

fn write_head(p: &Prefs, ratio: &str) -> (r: String)
    ensures
        r@ == concat_lines(head_lines(p@, ratio@)),
{
    let mut s = String::new();
    let ghost mut ls: Seq<Seq<char>> = seq![];
    let l = owned("# Halshow settings");
    add_line(&mut s, &l, Ghost(ls));
    proof { ls = ls.push(l@); }
    let l = owned("# This file is generated automatically.");
    add_line(&mut s, &l, Ghost(ls));
    proof { ls = ls.push(l@); }
    let l = text_line("wm geometry . ", p.geometry.as_str());
    add_line(&mut s, &l, Ghost(ls));
    proof { ls = ls.push(l@); }
    let l = text_line("placeFrames ", ratio);
    add_line(&mut s, &l, Ghost(ls));
    proof { ls = ls.push(l@); }
    let l = text_line("set ::ratio ", ratio);
    add_line(&mut s, &l, Ghost(ls));
    proof { ls = ls.push(l@); }
    let n = decimal_string(p.old_w_leftf as u64);
    let l = text_line("set ::old_w_leftf ", n.as_str());
    add_line(&mut s, &l, Ghost(ls));
    proof {
        ls = ls.push(l@);
        assert(ls =~= head_lines(p@, ratio@));
    }
    s
}

fn write_list(p: &Prefs) -> (r: String)
    ensures
        r@ == concat_lines(list_lines(p@)),
{
    let mut s = String::new();
    let ghost mut ls: Seq<Seq<char>> = seq![];
    if p.auto_save_watchlist && p.watchlist.len() > 0 {
        let l = owned("set ::watchlist {");
        add_line(&mut s, &l, Ghost(ls));
        proof { ls = ls.push(l@); }
        let ghost opened = ls;
        let mut i: usize = 0;
        assert(indented(p@.watchlist.take(0)) =~= seq![]);
        while i < p.watchlist.len()
            invariant
                i <= p.watchlist@.len(),
                s@ == concat_lines(ls),
                ls == opened + indented(p@.watchlist.take(i as int)),
            decreases p.watchlist@.len() - i,
        {
            let l = text_line("    ", p.watchlist[i].as_str());
            add_line(&mut s, &l, Ghost(ls));
            proof {
                ls = ls.push(l@);
                assert(p.watchlist@[i as int]@ == p@.watchlist[i as int]);
                assert(indented(p@.watchlist.take(i + 1)) =~= indented(p@.watchlist.take(
                    i as int,
                )).push(l@));
            }
            i = i + 1;
        }
        let l = owned("}");
        add_line(&mut s, &l, Ghost(ls));
        proof {
            ls = ls.push(l@);
            assert(p@.watchlist.take(p@.watchlist.len() as int) =~= p@.watchlist);
            assert(ls =~= list_lines(p@));
        }
    } else {
        assert(ls =~= list_lines(p@));
    }
    s
}

fn write_tail(p: &Prefs) -> (r: String)
    ensures
        r@ == concat_lines(tail_lines(p@)),
{
    let mut s = String::new();
    let ghost mut ls: Seq<Seq<char>> = seq![];
    let l = text_line("set ::workmode ", p.workmode.as_str());
    add_line(&mut s, &l, Ghost(ls));
    proof { ls = ls.push(l@); }
    let n = decimal_string(p.watch_interval);
    let l = text_line("set ::watchInterval ", n.as_str());
    add_line(&mut s, &l, Ghost(ls));
    proof { ls = ls.push(l@); }
    let n = decimal_string(p.col1_width as u64);
    let l = text_line("set ::col1_width ", n.as_str());
    add_line(&mut s, &l, Ghost(ls));
    proof { ls = ls.push(l@); }
    let l = braced_line("set ::ffmts {", p.ffmts.as_str());
    add_line(&mut s, &l, Ghost(ls));
    proof { ls = ls.push(l@); }
    let l = braced_line("set ::ifmts {", p.ifmts.as_str());
    add_line(&mut s, &l, Ghost(ls));
    proof { ls = ls.push(l@); }
    let l = text_line("set ::alwaysOnTop ", if p.always_on_top { "1" } else { "0" });
    add_line(&mut s, &l, Ghost(ls));
    proof { ls = ls.push(l@); }
    let l = text_line("set ::autoSaveWatchlist ", if p.auto_save_watchlist { "1" } else { "0" });
    add_line(&mut s, &l, Ghost(ls));
    proof {
        ls = ls.push(l@);
        assert(ls =~= tail_lines(p@));
    }
    s
}

/// The text of the preferences file for `p`, with `ratio` as the text of
/// the split ratio.
pub fn prefs_text(p: &Prefs, ratio: &str) -> (r: String)
    ensures
        r@ == prefs_text_of(p@, ratio@),
{
    let mut s = write_head(p, ratio);
    let l = write_list(p);
    push_str(&mut s, l.as_str());
    let t = write_tail(p);
    push_str(&mut s, t.as_str());
    proof {
        lemma_concat_lines_append(head_lines(p@, ratio@), list_lines(p@));
        lemma_concat_lines_append(head_lines(p@, ratio@) + list_lines(p@), tail_lines(p@));
    }
    s
}

// ---------------------------------------------------------------------------
// Reading back what was written

/// The settings and block state after reading `ls` from the state `st`.
pub open spec fn read_from(st: (PrefsView, bool), ls: Seq<Seq<char>>) -> (PrefsView, bool)
    decreases ls.len(),
{
    if ls.len() == 0 {
        st
    } else {
        read_line(read_from(st, ls.drop_last()), ls.last())
    }
}

proof fn lemma_read_lines_from(ls: Seq<Seq<char>>)
    ensures
        read_lines(ls) == read_from((default_prefs(), false), ls),
    decreases ls.len(),
{
    if ls.len() > 0 {
        lemma_read_lines_from(ls.drop_last());
    }
}

proof fn lemma_read_from_append(st: (PrefsView, bool), a: Seq<Seq<char>>, b: Seq<Seq<char>>)
    ensures
        read_from(st, a + b) == read_from(read_from(st, a), b),
    decreases b.len(),
{
    if b.len() == 0 {
        assert(a + b =~= a);
    } else {
        lemma_read_from_append(st, a, b.drop_last());
        assert((a + b).drop_last() =~= a + b.drop_last());
        assert((a + b).last() == b.last());
    }
}

proof fn lemma_first_ws_after(a: Seq<char>, b: Seq<char>)
    requires
        no_ws(a),
        b.len() > 0,
        is_ws(b[0]),
    ensures
        first_ws(a + b) == Some(a.len() as int),
    decreases a.len(),
{
    if a.len() == 0 {
        assert(a + b =~= b);
    } else {
        assert(!is_ws(a[0]));
        assert((a + b)[0] == a[0]);
        assert((a + b).drop_first() =~= a.drop_first() + b);
        assert(no_ws(a.drop_first())) by {
            assert forall|k: int| 0 <= k < a.drop_first().len() implies !is_ws(
                #[trigger] a.drop_first()[k],
            ) by {
                assert(a.drop_first()[k] == a[k + 1]);
            }
        }
        lemma_first_ws_after(a.drop_first(), b);
    }
}

/// A comment line leaves the settings alone.
proof fn lemma_read_comment(st: (PrefsView, bool), l: Seq<char>)
    requires
        !st.1,
        l.len() > 0,
        l[0] == '#',
        !is_ws(l.last()),
    ensures
        read_line(st, l) == st,
{
    assert(('#' as u32) == 35);
    lemma_trim_plain(l);
}

/// A `set ::name value` line assigns the value, without one pair of braces.
proof fn lemma_read_set(st: (PrefsView, bool), name: Seq<char>, val: Seq<char>)
    requires
        !st.1,
        name.len() > 0,
        no_ws(name),
        val.len() > 0,
        !is_ws(val[0]),
        !is_ws(val.last()),
        name[0] != 'w' || (name.len() > 5 && name[5] != 'l'),
    ensures
        read_line(st, "set ::"@ + name + seq![' '] + val) == (assign(st.0, name, unbraced(val)), false),
{
    reveal_strlit("set ::");
    reveal_strlit("set ::watchlist {");
    reveal_strlit("placeFrames");
    reveal_strlit("wm geometry .");
    let line = "set ::"@ + name + seq![' '] + val;
    assert(line[0] == 's');
    assert(line.last() == val.last());
    assert(('s' as u32) == 115);
    lemma_trim_plain(line);
    assert(!"set ::watchlist {"@.is_prefix_of(line)) by {
        if "set ::watchlist {"@.is_prefix_of(line) {
            assert(line.subrange(0, 17)[6] == line[6]);
            assert(line[6] == name[0]);
            assert(line.subrange(0, 17)[11] == line[11]);
            if name.len() > 5 {
                assert(line[11] == name[5]);
            } else {
                assert(name[0] == 'w');
            }
        }
    }
    assert(!"placeFrames"@.is_prefix_of(line)) by {
        if "placeFrames"@.is_prefix_of(line) {
            assert(line.subrange(0, 11)[0] == line[0]);
        }
    }
    assert(!"wm geometry ."@.is_prefix_of(line)) by {
        if "wm geometry ."@.is_prefix_of(line) {
            assert(line.subrange(0, 13)[0] == line[0]);
        }
    }
    assert(line.subrange(0, 6) =~= "set ::"@);
    let rest = line.skip(6);
    assert(rest =~= name + (seq![' '] + val));
    assert((seq![' '] + val)[0] == ' ');
    assert((' ' as u32) == 32);
    lemma_first_ws_after(name, seq![' '] + val);
    assert(rest.take(name.len() as int) =~= name);
    assert(rest.skip(name.len() as int + 1) =~= val);
    lemma_trim_plain(val);
}

/// The geometry line gives back the geometry.
proof fn lemma_read_geometry(st: (PrefsView, bool), g: Seq<char>)
    requires
        !st.1,
        trim(g) == g,
    ensures
        read_line(st, "wm geometry . "@ + g) == (PrefsView { geometry: g, ..st.0 }, false),
{
    reveal_strlit("wm geometry . ");
    reveal_strlit("wm geometry .");
    reveal_strlit("set ::watchlist {");
    reveal_strlit("placeFrames");
    let line = "wm geometry . "@ + g;
    let head = "wm geometry ."@;
    assert(('w' as u32) == 119);
    assert(('.' as u32) == 46);
    if g.len() > 0 {
        lemma_trimmed_ends(g);
        assert(line.last() == g.last());
        assert(line[0] == 'w');
        lemma_trim_plain(line);
        assert(line.subrange(0, 13) =~= head);
        assert(line.skip(13) =~= seq![' '] + g);
        lemma_trim_after_ws(seq![' '], g);
        assert(trim(line) == line);
    } else {
        assert(line =~= head.push(' '));
        lemma_trim_space_after(head);
        assert(trim(line) == head);
        assert(head.subrange(0, 13) =~= head);
        assert(head.skip(13) =~= g);
        assert(trim(g) == g);
    }
    let l = trim(line);
    assert(l[0] == 'w');
    assert(!"set ::watchlist {"@.is_prefix_of(l)) by {
        if "set ::watchlist {"@.is_prefix_of(l) {
            assert(l.subrange(0, 17)[0] == l[0]);
        }
    }
    assert(!"placeFrames"@.is_prefix_of(l)) by {
        if "placeFrames"@.is_prefix_of(l) {
            assert(l.subrange(0, 11)[0] == l[0]);
        }
    }
}

/// The split ratio line gives back the ratio text.
proof fn lemma_read_place(st: (PrefsView, bool), r: Seq<char>)
    requires
        !st.1,
        r.len() > 0,
        trim(r) == r,
    ensures
        read_line(st, "placeFrames "@ + r) == (PrefsView {
            ratio_texts: st.0.ratio_texts.push(r),
            ..st.0
        }, false),
{
    reveal_strlit("placeFrames ");
    reveal_strlit("placeFrames");
    reveal_strlit("set ::watchlist {");
    let line = "placeFrames "@ + r;
    lemma_trimmed_ends(r);
    assert(('p' as u32) == 112);
    assert(line[0] == 'p');
    assert(line.last() == r.last());
    lemma_trim_plain(line);
    assert(!"set ::watchlist {"@.is_prefix_of(line)) by {
        if "set ::watchlist {"@.is_prefix_of(line) {
            assert(line.subrange(0, 17)[0] == line[0]);
        }
    }
    assert(line.subrange(0, 11) =~= "placeFrames"@);
    assert(line.skip(11) =~= seq![' '] + r);
    lemma_trim_after_ws(seq![' '], r);
}

/// The line opening the watch list block opens it and adds nothing.
proof fn lemma_read_list_open(st: (PrefsView, bool))
    requires
        !st.1,
    ensures
        read_line(st, "set ::watchlist {"@) == (st.0, true),
{
    reveal_strlit("set ::watchlist {");
    let line = "set ::watchlist {"@;
    assert(('s' as u32) == 115);
    assert(('{' as u32) == 123);
    lemma_trim_plain(line);
    assert(line.skip(17) =~= Seq::<char>::empty());
    assert(trim(Seq::<char>::empty()) =~= Seq::<char>::empty());
    assert(words_scan(Seq::<char>::empty()) == (Seq::<Seq<char>>::empty(), Seq::<char>::empty()));
    assert(st.0.watchlist + words(Seq::<char>::empty()) =~= st.0.watchlist);
}

/// The line closing the watch list block closes it.
proof fn lemma_read_list_close(p: PrefsView)
    ensures
        read_line((p, true), "}"@) == (p, false),
{
    reveal_strlit("}");
    assert(('}' as u32) == 125);
    lemma_trim_plain("}"@);
}

/// Whether a watch list item is written and read back as it is.
pub open spec fn item_ok(w: Seq<char>) -> bool {
    w.len() > 0 && no_ws(w) && w != "}"@
}

/// Items inside the block are added one by one.
proof fn lemma_read_items(p: PrefsView, ws: Seq<Seq<char>>)
    requires
        forall|k: int| 0 <= k < ws.len() ==> item_ok(#[trigger] ws[k]),
    ensures
        read_from((p, true), indented(ws)) == (PrefsView { watchlist: p.watchlist + ws, ..p }, true),
    decreases ws.len(),
{
    if ws.len() == 0 {
        assert(indented(ws) =~= Seq::<Seq<char>>::empty());
        assert(p.watchlist + ws =~= p.watchlist);
    } else {
        let d = ws.drop_last();
        let w = ws.last();
        assert(item_ok(ws[ws.len() - 1]));
        assert forall|k: int| 0 <= k < d.len() implies item_ok(#[trigger] d[k]) by {
            assert(d[k] == ws[k]);
        }
        lemma_read_items(p, d);
        assert(indented(ws).drop_last() =~= indented(d));
        reveal_strlit("    ");
        let line = "    "@ + w;
        assert(indented(ws).last() == line);
        assert forall|k: int| 0 <= k < "    "@.len() implies is_ws(#[trigger] "    "@[k]) by {
            assert(("    "@[k] as u32) == 32);
        }
        assert(!is_ws(w[0]) && !is_ws(w.last())) by {
            assert(w[w.len() - 1] == w.last());
        }
        lemma_trim_after_ws("    "@, w);
        lemma_words_single(w);
        assert(p.watchlist + d + seq![w] =~= p.watchlist + ws);
    }
}

/// The watch list block gives back the list when it is remembered.
proof fn lemma_read_list(p: PrefsView, q: PrefsView)
    requires
        forall|k: int| 0 <= k < p.watchlist.len() ==> item_ok(#[trigger] p.watchlist[k]),
        q.watchlist == Seq::<Seq<char>>::empty(),
    ensures
        read_from((q, false), list_lines(p)) == (PrefsView {
            watchlist: if p.auto_save_watchlist {
                p.watchlist
            } else {
                Seq::<Seq<char>>::empty()
            },
            ..q
        }, false),
{
    if p.auto_save_watchlist && p.watchlist.len() > 0 {
        let open = seq!["set ::watchlist {"@];
        let close = seq!["}"@];
        let body = indented(p.watchlist);
        assert(list_lines(p) == open + body + close);
        lemma_read_from_append((q, false), open + body, close);
        lemma_read_from_append((q, false), open, body);
        assert(open.drop_last() =~= Seq::<Seq<char>>::empty());
        lemma_read_list_open((q, false));
        assert(open.last() == "set ::watchlist {"@);
        assert(read_from((q, false), Seq::<Seq<char>>::empty()) == (q, false));
        assert(read_from((q, false), open) == (q, true));
        lemma_read_items(q, p.watchlist);
        let q2 = PrefsView { watchlist: q.watchlist + p.watchlist, ..q };
        assert(close.drop_last() =~= Seq::<Seq<char>>::empty());
        lemma_read_list_close(q2);
        assert(close.last() == "}"@);
        assert(read_from((q2, true), Seq::<Seq<char>>::empty()) == (q2, true));
        assert(read_from((q2, true), close) == (q2, false));
        assert(q.watchlist + p.watchlist =~= p.watchlist);
        assert(q2 =~= PrefsView { watchlist: p.watchlist, ..q });
    } else {
        assert(list_lines(p) =~= Seq::<Seq<char>>::empty());
        if p.auto_save_watchlist {
            assert(p.watchlist =~= Seq::<Seq<char>>::empty());
        }
        assert(q =~= PrefsView { watchlist: Seq::<Seq<char>>::empty(), ..q });
    }
}

proof fn lemma_names_differ()
    ensures
        "old_w_leftf"@ != "ratio"@,
        "workmode"@ != "ratio"@,
        "workmode"@ != "old_w_leftf"@,
        "watchInterval"@ != "ratio"@,
        "watchInterval"@ != "old_w_leftf"@,
        "watchInterval"@ != "workmode"@,
        "col1_width"@ != "ratio"@,
        "col1_width"@ != "old_w_leftf"@,
        "col1_width"@ != "workmode"@,
        "col1_width"@ != "watchInterval"@,
        "ffmts"@ != "ratio"@,
        "ffmts"@ != "old_w_leftf"@,
        "ffmts"@ != "workmode"@,
        "ffmts"@ != "watchInterval"@,
        "ffmts"@ != "col1_width"@,
        "ifmts"@ != "ratio"@,
        "ifmts"@ != "old_w_leftf"@,
        "ifmts"@ != "workmode"@,
        "ifmts"@ != "watchInterval"@,
        "ifmts"@ != "col1_width"@,
        "ifmts"@ != "ffmts"@,
        "alwaysOnTop"@ != "ratio"@,
        "alwaysOnTop"@ != "old_w_leftf"@,
        "alwaysOnTop"@ != "workmode"@,
        "alwaysOnTop"@ != "watchInterval"@,
        "alwaysOnTop"@ != "col1_width"@,
        "alwaysOnTop"@ != "ffmts"@,
        "alwaysOnTop"@ != "ifmts"@,
        "autoSaveWatchlist"@ != "ratio"@,
        "autoSaveWatchlist"@ != "old_w_leftf"@,
        "autoSaveWatchlist"@ != "workmode"@,
        "autoSaveWatchlist"@ != "watchInterval"@,
        "autoSaveWatchlist"@ != "col1_width"@,
        "autoSaveWatchlist"@ != "ffmts"@,
        "autoSaveWatchlist"@ != "ifmts"@,
        "autoSaveWatchlist"@ != "alwaysOnTop"@,
{
    reveal_strlit("ratio");
    reveal_strlit("old_w_leftf");
    reveal_strlit("workmode");
    reveal_strlit("watchInterval");
    reveal_strlit("col1_width");
    reveal_strlit("ffmts");
    reveal_strlit("ifmts");
    reveal_strlit("alwaysOnTop");
    reveal_strlit("autoSaveWatchlist");
    assert("ratio"@.len() == 5);
    assert("old_w_leftf"@.len() == 11);
    assert("ffmts"@.len() == 5);
    assert("ifmts"@.len() == 5);
    assert("alwaysOnTop"@.len() == 11);
    assert("autoSaveWatchlist"@.len() == 17);
    assert("watchInterval"@.len() == 13);
    assert("workmode"@.len() == 8);
    assert("col1_width"@.len() == 10);
    assert("old_w_leftf"@[0] != "alwaysOnTop"@[0]);
    assert("ffmts"@[0] != "ratio"@[0]);
    assert("ifmts"@[0] != "ratio"@[0]);
    assert("ifmts"@[0] != "ffmts"@[0]);
}

/// A work mode's name reads back as the mode.
proof fn lemma_mode_roundtrip(m: Workmode)
    ensures
        mode_of(mode_text(m)) == m,
{
    reveal_strlit("showhal");
    reveal_strlit("watchhal");
    reveal_strlit("settings");
    assert("showhal"@.len() == 7);
    assert("watchhal"@.len() == 8);
    assert("settings"@.len() == 8);
    assert("settings"@[0] != "watchhal"@[0]);
}

/// A flag's text reads back as the flag.
proof fn lemma_flag_roundtrip(b: bool)
    ensures
        flag_of(flag_text(b)) == b,
{
    reveal_strlit("1");
    reveal_strlit("0");
    reveal_strlit("true");
    assert("0"@[0] != "1"@[0]);
}

/// The lines before the watch list block give back the geometry, the ratio
/// text (twice) and the old frame width.
proof fn lemma_read_head(p: PrefsView, r: Seq<char>)
    requires
        trim(p.geometry) == p.geometry,
        r.len() > 0,
        trim(r) == r,
        unbraced(r) == r,
    ensures
        read_from((default_prefs(), false), head_lines(p, r)) == (PrefsView {
            geometry: p.geometry,
            ratio_texts: seq![r, r],
            old_w_leftf: p.old_w_leftf,
            ..default_prefs()
        }, false),
{
    reveal_strlit("# Halshow settings");
    reveal_strlit("# This file is generated automatically.");
    reveal_strlit("set ::ratio ");
    reveal_strlit("set ::old_w_leftf ");
    reveal_strlit("set ::");
    reveal_strlit("ratio");
    reveal_strlit("old_w_leftf");
    lemma_names_differ();
    let h = head_lines(p, r);
    let s0 = (default_prefs(), false);
    let l1 = "# Halshow settings"@;
    let l2 = "# This file is generated automatically."@;
    assert(('s' as u32) == 115 && ('.' as u32) == 46);
    lemma_read_comment(s0, l1);
    lemma_read_comment(s0, l2);
    lemma_read_geometry(s0, p.geometry);
    let q3 = PrefsView { geometry: p.geometry, ..default_prefs() };
    lemma_read_place((q3, false), r);
    let q4 = PrefsView { ratio_texts: seq![r], ..q3 };
    assert(q3.ratio_texts.push(r) =~= seq![r]);
    lemma_trimmed_ends(r);
    assert(no_ws("ratio"@)) by {
        assert forall|k: int| 0 <= k < "ratio"@.len() implies !is_ws(#[trigger] "ratio"@[k]) by {
            assert(97 <= "ratio"@[k] as u32 <= 122);
        }
    }
    lemma_read_set((q4, false), "ratio"@, r);
    assert("set ::ratio "@ =~= "set ::"@ + "ratio"@ + seq![' ']);
    let q5 = PrefsView { ratio_texts: seq![r, r], ..q4 };
    assert(q4.ratio_texts.push(r) =~= seq![r, r]);
    let d = decimal(p.old_w_leftf as nat);
    lemma_decimal(p.old_w_leftf as nat);
    assert(48 <= (d[0] as u32) <= 57);
    assert(48 <= (d[d.len() - 1] as u32) <= 57);
    assert(no_ws("old_w_leftf"@)) by {
        assert forall|k: int| 0 <= k < "old_w_leftf"@.len() implies !is_ws(
            #[trigger] "old_w_leftf"@[k],
        ) by {
            assert(95 <= "old_w_leftf"@[k] as u32 <= 122);
        }
    }
    lemma_read_set((q5, false), "old_w_leftf"@, d);
    assert("set ::old_w_leftf "@ =~= "set ::"@ + "old_w_leftf"@ + seq![' ']);
    assert(unbraced(d) == d);
    lemma_parse_decimal(p.old_w_leftf as nat, 0xffff);
    let q6 = PrefsView { old_w_leftf: p.old_w_leftf, ..q5 };
    assert(assign(q5, "old_w_leftf"@, d) == q6);
    let e = Seq::<Seq<char>>::empty();
    let a1 = e.push(l1);
    let a2 = a1.push(l2);
    let a3 = a2.push(h[2]);
    let a4 = a3.push(h[3]);
    let a5 = a4.push(h[4]);
    let a6 = a5.push(h[5]);
    assert(h =~= a6);
    assert(a1.drop_last() =~= e);
    assert(read_from(s0, e) == s0);
    assert(a1.last() == l1);
    assert(read_from(s0, a1) == s0);
    assert(a2.drop_last() =~= a1);
    assert(read_from(s0, a2) == s0);
    assert(a3.drop_last() =~= a2);
    assert(read_from(s0, a3) == (q3, false));
    assert(a4.drop_last() =~= a3);
    assert(read_from(s0, a4) == (q4, false));
    assert(a5.drop_last() =~= a4);
    assert(read_from(s0, a5) == (q5, false));
    assert(a6.drop_last() =~= a5);
    assert(read_from(s0, a6) == (q6, false));
}

/// Printable ASCII characters other than the space are not whitespace.
proof fn lemma_visible(s: Seq<char>)
    requires
        forall|k: int| 0 <= k < s.len() ==> 33 <= (#[trigger] s[k]) as u32 <= 126,
    ensures
        no_ws(s),
{
}

proof fn lemma_tail_names()
    ensures
        no_ws("workmode"@),
        no_ws("watchInterval"@),
        no_ws("col1_width"@),
        no_ws("ffmts"@),
        no_ws("ifmts"@),
        no_ws("alwaysOnTop"@),
        no_ws("autoSaveWatchlist"@),
        "workmode"@[0] == 'w' && "workmode"@[5] == 'o',
        "watchInterval"@[0] == 'w' && "watchInterval"@[5] == 'I',
        "col1_width"@[0] == 'c',
        "ffmts"@[0] == 'f',
        "ifmts"@[0] == 'i',
        "alwaysOnTop"@[0] == 'a',
        "autoSaveWatchlist"@[0] == 'a',
{
    reveal_strlit("workmode");
    reveal_strlit("watchInterval");
    reveal_strlit("col1_width");
    reveal_strlit("ffmts");
    reveal_strlit("ifmts");
    reveal_strlit("alwaysOnTop");
    reveal_strlit("autoSaveWatchlist");
    assert("workmode"@[0] == 'w');
    assert("workmode"@[5] == 'o');
    assert("watchInterval"@[5] == 'I');
    lemma_visible("workmode"@);
    lemma_visible("watchInterval"@);
    lemma_visible("col1_width"@);
    lemma_visible("ffmts"@);
    lemma_visible("ifmts"@);
    lemma_visible("alwaysOnTop"@);
    lemma_visible("autoSaveWatchlist"@);
}

/// A value line whose value is plain text, a number or a flag.
proof fn lemma_value_plain(v: Seq<char>)
    requires
        v.len() > 0,
        forall|k: int| 0 <= k < v.len() ==> 48 <= (#[trigger] v[k]) as u32 <= 122,
    ensures
        !is_ws(v[0]),
        !is_ws(v.last()),
        unbraced(v) == v,
        !v.contains('\n'),
{
    assert(48 <= v[v.len() - 1] as u32);
    assert(('{' as u32) == 123);
    assert(!v.contains('\n')) by {
        if v.contains('\n') {
            let k = choose|k: int| 0 <= k < v.len() && v[k] == '\n';
            assert(48 <= v[k] as u32);
        }
    }
}

proof fn lemma_decimal_plain(n: nat)
    ensures
        forall|k: int| 0 <= k < decimal(n).len() ==> 48 <= (#[trigger] decimal(n)[k]) as u32 <= 122,
        decimal(n).len() > 0,
{
    lemma_decimal(n);
}

proof fn lemma_mode_plain(m: Workmode)
    ensures
        forall|k: int| 0 <= k < mode_text(m).len() ==> 48 <= (#[trigger] mode_text(m)[k]) as u32
            <= 122,
        mode_text(m).len() > 0,
{
    reveal_strlit("showhal");
    reveal_strlit("watchhal");
    reveal_strlit("settings");
}

proof fn lemma_flag_plain(b: bool)
    ensures
        forall|k: int| 0 <= k < flag_text(b).len() ==> 48 <= (#[trigger] flag_text(b)[k]) as u32
            <= 122,
        flag_text(b).len() > 0,
{
    reveal_strlit("1");
    reveal_strlit("0");
}

/// A braced value line gives back the text inside the braces.
proof fn lemma_braced(f: Seq<char>)
    ensures
        ("{"@ + f + "}"@).len() > 0,
        !is_ws(("{"@ + f + "}"@)[0]),
        !is_ws(("{"@ + f + "}"@).last()),
        unbraced("{"@ + f + "}"@) == f,
{
    reveal_strlit("{");
    reveal_strlit("}");
    let v = "{"@ + f + "}"@;
    assert(v[0] == '{');
    assert(v.last() == '}');
    assert(('{' as u32) == 123 && ('}' as u32) == 125);
    assert(v.subrange(1, v.len() - 1) =~= f);
}

proof fn lemma_line_workmode(q: PrefsView, m: Workmode)
    ensures
        read_line((q, false), "set ::workmode "@ + mode_text(m)) == (PrefsView { workmode: m, ..q }, false),
{
    reveal_strlit("set ::");
    reveal_strlit("set ::workmode ");
    reveal_strlit("workmode");
    lemma_tail_names();
    lemma_names_differ();
    let v = mode_text(m);
    lemma_mode_plain(m);
    lemma_value_plain(v);
    lemma_read_set((q, false), "workmode"@, v);
    assert("set ::workmode "@ =~= "set ::"@ + "workmode"@ + seq![' ']);
    lemma_mode_roundtrip(m);
}

proof fn lemma_line_interval(q: PrefsView, n: u64)
    ensures
        read_line((q, false), "set ::watchInterval "@ + decimal(n as nat)) == (PrefsView {
            watch_interval: n,
            ..q
        }, false),
{
    reveal_strlit("set ::");
    reveal_strlit("set ::watchInterval ");
    reveal_strlit("watchInterval");
    lemma_tail_names();
    lemma_names_differ();
    let v = decimal(n as nat);
    lemma_decimal_plain(n as nat);
    lemma_value_plain(v);
    lemma_read_set((q, false), "watchInterval"@, v);
    assert("set ::watchInterval "@ =~= "set ::"@ + "watchInterval"@ + seq![' ']);
    lemma_parse_decimal(n as nat, 0xffff_ffff_ffff_ffff);
}

proof fn lemma_line_col1(q: PrefsView, n: u16)
    ensures
        read_line((q, false), "set ::col1_width "@ + decimal(n as nat)) == (PrefsView {
            col1_width: n,
            ..q
        }, false),
{
    reveal_strlit("set ::");
    reveal_strlit("set ::col1_width ");
    reveal_strlit("col1_width");
    lemma_tail_names();
    lemma_names_differ();
    let v = decimal(n as nat);
    lemma_decimal_plain(n as nat);
    lemma_value_plain(v);
    lemma_read_set((q, false), "col1_width"@, v);
    assert("set ::col1_width "@ =~= "set ::"@ + "col1_width"@ + seq![' ']);
    lemma_parse_decimal(n as nat, 0xffff);
}

proof fn lemma_line_ffmts(q: PrefsView, f: Seq<char>)
    ensures
        read_line((q, false), "set ::ffmts {"@ + f + "}"@) == (PrefsView { ffmts: f, ..q }, false),
{
    reveal_strlit("set ::");
    reveal_strlit("set ::ffmts {");
    reveal_strlit("ffmts");
    reveal_strlit("{");
    lemma_tail_names();
    lemma_names_differ();
    let v = "{"@ + f + "}"@;
    lemma_braced(f);
    lemma_read_set((q, false), "ffmts"@, v);
    assert("set ::ffmts {"@ + f + "}"@ =~= "set ::"@ + "ffmts"@ + seq![' '] + v);
}

proof fn lemma_line_ifmts(q: PrefsView, f: Seq<char>)
    ensures
        read_line((q, false), "set ::ifmts {"@ + f + "}"@) == (PrefsView { ifmts: f, ..q }, false),
{
    reveal_strlit("set ::");
    reveal_strlit("set ::ifmts {");
    reveal_strlit("ifmts");
    reveal_strlit("{");
    lemma_tail_names();
    lemma_names_differ();
    let v = "{"@ + f + "}"@;
    lemma_braced(f);
    lemma_read_set((q, false), "ifmts"@, v);
    assert("set ::ifmts {"@ + f + "}"@ =~= "set ::"@ + "ifmts"@ + seq![' '] + v);
}

proof fn lemma_line_on_top(q: PrefsView, b: bool)
    ensures
        read_line((q, false), "set ::alwaysOnTop "@ + flag_text(b)) == (PrefsView {
            always_on_top: b,
            ..q
        }, false),
{
    reveal_strlit("set ::");
    reveal_strlit("set ::alwaysOnTop ");
    reveal_strlit("alwaysOnTop");
    lemma_tail_names();
    lemma_names_differ();
    let v = flag_text(b);
    lemma_flag_plain(b);
    lemma_value_plain(v);
    lemma_read_set((q, false), "alwaysOnTop"@, v);
    assert("set ::alwaysOnTop "@ =~= "set ::"@ + "alwaysOnTop"@ + seq![' ']);
    lemma_flag_roundtrip(b);
}

proof fn lemma_line_autosave(q: PrefsView, b: bool)
    ensures
        read_line((q, false), "set ::autoSaveWatchlist "@ + flag_text(b)) == (PrefsView {
            auto_save_watchlist: b,
            ..q
        }, false),
{
    reveal_strlit("set ::");
    reveal_strlit("set ::autoSaveWatchlist ");
    reveal_strlit("autoSaveWatchlist");
    lemma_tail_names();
    lemma_names_differ();
    let v = flag_text(b);
    lemma_flag_plain(b);
    lemma_value_plain(v);
    lemma_read_set((q, false), "autoSaveWatchlist"@, v);
    assert("set ::autoSaveWatchlist "@ =~= "set ::"@ + "autoSaveWatchlist"@ + seq![' ']);
    lemma_flag_roundtrip(b);
}

/// The lines after the watch list block give back the remaining settings.
proof fn lemma_read_tail(p: PrefsView, q: PrefsView)
    ensures
        read_from((q, false), tail_lines(p)) == (PrefsView {
            workmode: p.workmode,
            watch_interval: p.watch_interval,
            col1_width: p.col1_width,
            ffmts: p.ffmts,
            ifmts: p.ifmts,
            always_on_top: p.always_on_top,
            auto_save_watchlist: p.auto_save_watchlist,
            ..q
        }, false),
{
    let t = tail_lines(p);
    let e = Seq::<Seq<char>>::empty();
    lemma_line_workmode(q, p.workmode);
    let q1 = PrefsView { workmode: p.workmode, ..q };
    lemma_line_interval(q1, p.watch_interval);
    let q2 = PrefsView { watch_interval: p.watch_interval, ..q1 };
    lemma_line_col1(q2, p.col1_width);
    let q3 = PrefsView { col1_width: p.col1_width, ..q2 };
    lemma_line_ffmts(q3, p.ffmts);
    let q4 = PrefsView { ffmts: p.ffmts, ..q3 };
    lemma_line_ifmts(q4, p.ifmts);
    let q5 = PrefsView { ifmts: p.ifmts, ..q4 };
    lemma_line_on_top(q5, p.always_on_top);
    let q6 = PrefsView { always_on_top: p.always_on_top, ..q5 };
    lemma_line_autosave(q6, p.auto_save_watchlist);
    let q7 = PrefsView { auto_save_watchlist: p.auto_save_watchlist, ..q6 };
    let a1 = e.push(t[0]);
    let a2 = a1.push(t[1]);
    let a3 = a2.push(t[2]);
    let a4 = a3.push(t[3]);
    let a5 = a4.push(t[4]);
    let a6 = a5.push(t[5]);
    let a7 = a6.push(t[6]);
    assert(t =~= a7);
    let s0 = (q, false);
    assert(read_from(s0, e) == s0);
    assert(a1.drop_last() =~= e);
    assert(read_from(s0, a1) == (q1, false));
    assert(a2.drop_last() =~= a1);
    assert(read_from(s0, a2) == (q2, false));
    assert(a3.drop_last() =~= a2);
    assert(read_from(s0, a3) == (q3, false));
    assert(a4.drop_last() =~= a3);
    assert(read_from(s0, a4) == (q4, false));
    assert(a5.drop_last() =~= a4);
    assert(read_from(s0, a5) == (q5, false));
    assert(a6.drop_last() =~= a5);
    assert(read_from(s0, a6) == (q6, false));
    assert(a7.drop_last() =~= a6);
    assert(read_from(s0, a7) == (q7, false));
}

/// Printable ASCII text holds no line break and does not end with a
/// carriage return.
proof fn lemma_printable(s: Seq<char>)
    requires
        forall|k: int| 0 <= k < s.len() ==> 32 <= (#[trigger] s[k]) as u32 <= 126,
    ensures
        !s.contains('\n'),
        s.len() > 0 ==> s.last() != '\r',
{
    assert(('\n' as u32) == 10 && ('\r' as u32) == 13);
    if s.contains('\n') {
        let k = choose|k: int| 0 <= k < s.len() && s[k] == '\n';
        assert(32 <= s[k] as u32);
    }
    if s.len() > 0 {
        assert(32 <= s[s.len() - 1] as u32);
    }
}

proof fn lemma_line_ok_concat(a: Seq<char>, b: Seq<char>)
    requires
        !a.contains('\n'),
        !b.contains('\n'),
        b.len() > 0 ==> b.last() != '\r',
        b.len() == 0 ==> (a.len() > 0 ==> a.last() != '\r'),
    ensures
        line_ok(a + b),
{
    let c = a + b;
    if c.contains('\n') {
        let k = choose|k: int| 0 <= k < c.len() && c[k] == '\n';
        if k < a.len() {
            assert(a[k] == '\n');
        } else {
            assert(b[k - a.len()] == '\n');
        }
    }
    if b.len() > 0 {
        assert(c.last() == b.last());
    } else {
        assert(c =~= a);
    }
}

proof fn lemma_literals_printable()
    ensures
        !"# Halshow settings"@.contains('\n'),
        "# Halshow settings"@.last() != '\r',
        !"# This file is generated automatically."@.contains('\n'),
        "# This file is generated automatically."@.last() != '\r',
        !"wm geometry . "@.contains('\n'),
        "wm geometry . "@.last() != '\r',
        !"placeFrames "@.contains('\n'),
        !"set ::ratio "@.contains('\n'),
        !"set ::old_w_leftf "@.contains('\n'),
        !"set ::watchlist {"@.contains('\n'),
        "set ::watchlist {"@.last() != '\r',
        !"    "@.contains('\n'),
        !"}"@.contains('\n'),
        "}"@.last() != '\r',
        !"set ::workmode "@.contains('\n'),
        !"set ::watchInterval "@.contains('\n'),
        !"set ::col1_width "@.contains('\n'),
        !"set ::ffmts {"@.contains('\n'),
        !"set ::ifmts {"@.contains('\n'),
        !"set ::alwaysOnTop "@.contains('\n'),
        !"set ::autoSaveWatchlist "@.contains('\n'),
        "# Halshow settings"@.len() > 0,
        "# This file is generated automatically."@.len() > 0,
        "wm geometry . "@.len() > 0,
        "set ::watchlist {"@.len() > 0,
        "}"@.len() > 0,
{
    reveal_strlit("# Halshow settings");
    reveal_strlit("# This file is generated automatically.");
    reveal_strlit("wm geometry . ");
    reveal_strlit("placeFrames ");
    reveal_strlit("set ::ratio ");
    reveal_strlit("set ::old_w_leftf ");
    reveal_strlit("set ::watchlist {");
    reveal_strlit("    ");
    reveal_strlit("}");
    reveal_strlit("set ::workmode ");
    reveal_strlit("set ::watchInterval ");
    reveal_strlit("set ::col1_width ");
    reveal_strlit("set ::ffmts {");
    reveal_strlit("set ::ifmts {");
    reveal_strlit("set ::alwaysOnTop ");
    reveal_strlit("set ::autoSaveWatchlist ");
    lemma_printable("# Halshow settings"@);
    lemma_printable("# This file is generated automatically."@);
    lemma_printable("wm geometry . "@);
    lemma_printable("placeFrames "@);
    lemma_printable("set ::ratio "@);
    lemma_printable("set ::old_w_leftf "@);
    lemma_printable("set ::watchlist {"@);
    lemma_printable("    "@);
    lemma_printable("}"@);
    lemma_printable("set ::workmode "@);
    lemma_printable("set ::watchInterval "@);
    lemma_printable("set ::col1_width "@);
    lemma_printable("set ::ffmts {"@);
    lemma_printable("set ::ifmts {"@);
    lemma_printable("set ::alwaysOnTop "@);
    lemma_printable("set ::autoSaveWatchlist "@);
}

/// Whether the settings, with `r` as the text of the split ratio, are
/// written in a form that reads back: no line break in the texts, the
/// geometry and ratio without surrounding whitespace, the ratio non-empty
/// and not wrapped in braces, and watch list items that are single words
/// other than `}`.
pub open spec fn writable(p: PrefsView, r: Seq<char>) -> bool {
    &&& trim(p.geometry) == p.geometry
    &&& !p.geometry.contains('\n')
    &&& r.len() > 0
    &&& trim(r) == r
    &&& unbraced(r) == r
    &&& !r.contains('\n')
    &&& !p.ffmts.contains('\n')
    &&& !p.ifmts.contains('\n')
    &&& forall|k: int| 0 <= k < p.watchlist.len() ==> item_ok(#[trigger] p.watchlist[k])
}

/// What reading back the file written for `p` gives: the ratio text twice
/// (from its two lines), and the watch list only when it is remembered.
pub open spec fn read_back(p: PrefsView, r: Seq<char>) -> PrefsView {
    PrefsView {
        ratio_texts: seq![r, r],
        watchlist: if p.auto_save_watchlist {
            p.watchlist
        } else {
            Seq::<Seq<char>>::empty()
        },
        ..p
    }
}

proof fn lemma_number_ok(n: nat)
    ensures
        !decimal(n).contains('\n'),
        decimal(n).len() > 0,
        decimal(n).last() != '\r',
{
    lemma_decimal_plain(n);
    lemma_value_plain(decimal(n));
    assert(48 <= decimal(n)[decimal(n).len() - 1] as u32);
}

proof fn lemma_word_ok(v: Seq<char>)
    requires
        forall|k: int| 0 <= k < v.len() ==> 48 <= (#[trigger] v[k]) as u32 <= 122,
        v.len() > 0,
    ensures
        !v.contains('\n'),
        v.last() != '\r',
{
    lemma_value_plain(v);
    assert(48 <= v[v.len() - 1] as u32);
}

proof fn lemma_head_ok(p: PrefsView, r: Seq<char>)
    requires
        writable(p, r),
    ensures
        forall|k: int| 0 <= k < head_lines(p, r).len() ==> line_ok(#[trigger] head_lines(p, r)[k]),
{
    lemma_literals_printable();
    let h = head_lines(p, r);
    lemma_trimmed_ends(r);
    assert(('\r' as u32) == 13);
    assert(r.last() != '\r');
    if p.geometry.len() > 0 {
        lemma_trimmed_ends(p.geometry);
        assert(p.geometry.last() != '\r');
    }
    assert(line_ok(h[0])) by {
        assert(h[0] =~= "# Halshow settings"@ + Seq::<char>::empty());
        lemma_line_ok_concat("# Halshow settings"@, Seq::<char>::empty());
    }
    assert(line_ok(h[1])) by {
        assert(h[1] =~= "# This file is generated automatically."@ + Seq::<char>::empty());
        lemma_line_ok_concat("# This file is generated automatically."@, Seq::<char>::empty());
    }
    lemma_line_ok_concat("wm geometry . "@, p.geometry);
    lemma_line_ok_concat("placeFrames "@, r);
    lemma_line_ok_concat("set ::ratio "@, r);
    lemma_number_ok(p.old_w_leftf as nat);
    lemma_line_ok_concat("set ::old_w_leftf "@, decimal(p.old_w_leftf as nat));
}

proof fn lemma_list_ok(p: PrefsView)
    requires
        forall|k: int| 0 <= k < p.watchlist.len() ==> item_ok(#[trigger] p.watchlist[k]),
    ensures
        forall|k: int| 0 <= k < list_lines(p).len() ==> line_ok(#[trigger] list_lines(p)[k]),
{
    lemma_literals_printable();
    if p.auto_save_watchlist && p.watchlist.len() > 0 {
        let l = list_lines(p);
        let n = p.watchlist.len();
        assert forall|k: int| 0 <= k < l.len() implies line_ok(#[trigger] l[k]) by {
            if k == 0 {
                assert(l[0] =~= "set ::watchlist {"@ + Seq::<char>::empty());
                lemma_line_ok_concat("set ::watchlist {"@, Seq::<char>::empty());
            } else if k == n + 1 {
                assert(l[k] =~= "}"@ + Seq::<char>::empty());
                lemma_line_ok_concat("}"@, Seq::<char>::empty());
            } else {
                let w = p.watchlist[k - 1];
                assert(item_ok(w));
                assert(l[k] == "    "@ + w);
                assert(!w.contains('\n')) by {
                    if w.contains('\n') {
                        let j = choose|j: int| 0 <= j < w.len() && w[j] == '\n';
                        assert(!is_ws(w[j]));
                    }
                }
                assert(!is_ws(w[w.len() - 1]));
                lemma_line_ok_concat("    "@, w);
            }
        }
    }
}

proof fn lemma_tail_ok(p: PrefsView)
    requires
        !p.ffmts.contains('\n'),
        !p.ifmts.contains('\n'),
    ensures
        forall|k: int| 0 <= k < tail_lines(p).len() ==> line_ok(#[trigger] tail_lines(p)[k]),
{
    lemma_literals_printable();
    reveal_strlit("}");
    let t = tail_lines(p);
    lemma_mode_plain(p.workmode);
    lemma_word_ok(mode_text(p.workmode));
    lemma_line_ok_concat("set ::workmode "@, mode_text(p.workmode));
    lemma_number_ok(p.watch_interval as nat);
    lemma_line_ok_concat("set ::watchInterval "@, decimal(p.watch_interval as nat));
    lemma_number_ok(p.col1_width as nat);
    lemma_line_ok_concat("set ::col1_width "@, decimal(p.col1_width as nat));
    lemma_line_ok_concat(p.ffmts, "}"@);
    lemma_line_ok_concat("set ::ffmts {"@, p.ffmts + "}"@);
    assert("set ::ffmts {"@ + (p.ffmts + "}"@) =~= "set ::ffmts {"@ + p.ffmts + "}"@);
    lemma_line_ok_concat(p.ifmts, "}"@);
    lemma_line_ok_concat("set ::ifmts {"@, p.ifmts + "}"@);
    assert("set ::ifmts {"@ + (p.ifmts + "}"@) =~= "set ::ifmts {"@ + p.ifmts + "}"@);
    lemma_flag_plain(p.always_on_top);
    lemma_word_ok(flag_text(p.always_on_top));
    lemma_line_ok_concat("set ::alwaysOnTop "@, flag_text(p.always_on_top));
    lemma_flag_plain(p.auto_save_watchlist);
    lemma_word_ok(flag_text(p.auto_save_watchlist));
    lemma_line_ok_concat("set ::autoSaveWatchlist "@, flag_text(p.auto_save_watchlist));
}

/// Reading the preferences file written for `p` gives `p` back, with the
/// ratio text as both ratio entries and the watch list kept only when it
/// is remembered.
pub proof fn lemma_prefs_roundtrip(p: PrefsView, r: Seq<char>)
    requires
        writable(p, r),
    ensures
        prefs_of(prefs_text_of(p, r)) == read_back(p, r),
{
    let h = head_lines(p, r);
    let l = list_lines(p);
    let t = tail_lines(p);
    let ls = pref_lines(p, r);
    lemma_head_ok(p, r);
    lemma_list_ok(p);
    lemma_tail_ok(p);
    assert forall|k: int| 0 <= k < ls.len() implies line_ok(#[trigger] ls[k]) by {
        if k < h.len() {
            assert(ls[k] == h[k]);
        } else if k < h.len() + l.len() {
            assert(ls[k] == l[k - h.len()]);
        } else {
            assert(ls[k] == t[k - h.len() - l.len()]);
        }
    }
    lemma_lines_concat(ls);
    lemma_read_lines_from(ls);
    let s0 = (default_prefs(), false);
    lemma_read_from_append(s0, h + l, t);
    lemma_read_from_append(s0, h, l);
    lemma_read_head(p, r);
    let q1 = PrefsView {
        geometry: p.geometry,
        ratio_texts: seq![r, r],
        old_w_leftf: p.old_w_leftf,
        ..default_prefs()
    };
    lemma_read_list(p, q1);
    let q2 = PrefsView {
        watchlist: if p.auto_save_watchlist {
            p.watchlist
        } else {
            Seq::<Seq<char>>::empty()
        },
        ..q1
    };
    lemma_read_tail(p, q2);
    assert(read_from(s0, ls).0 =~= read_back(p, r));
}

} // verus!
