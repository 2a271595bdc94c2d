//! HAL object kinds and the text protocols of `halcmd`: keywords, the
//! answers of a batch session, command tokenizing and writability detection.
//!
//! Talking to the `halcmd` process itself is left to the application; this
//! module holds everything that decides what is sent and what the answers mean.

use vstd::prelude::*;
use crate::text::{
    chars_of, find_char, find_sub, first_pos, first_sub, has_prefix, is_space, is_ws, last_pos,
    line_bounds, lines, push_char, push_str, rfind_char, spans, split_ws, split_ws_range,
    string_of, string_of_range, str_eq, views, words, words_scan,
};

verus! {

broadcast use vstd::string::group_string_axioms;

/// The kinds of HAL objects, one per tree root.
#[derive(Clone, Copy, PartialEq, Eq, Debug, Structural)]
pub enum HalType {
    Comp,
    Pin,
    Param,
    Sig,
    Funct,
    Thread,
}

/// The `halcmd` keyword of a kind (also the path of its tree root).
pub open spec fn kw_of(t: HalType) -> Seq<char> {
    match t {
        HalType::Comp => "comp"@,
        HalType::Pin => "pin"@,
        HalType::Param => "param"@,
        HalType::Sig => "sig"@,
        HalType::Funct => "funct"@,
        HalType::Thread => "thread"@,
    }
}

/// The title of a kind's tree root.
pub open spec fn title_of(t: HalType) -> Seq<char> {
    match t {
        HalType::Comp => "Components"@,
        HalType::Pin => "Pins"@,
        HalType::Param => "Parameters"@,
        HalType::Sig => "Signals"@,
        HalType::Funct => "Functions"@,
        HalType::Thread => "Threads"@,
    }
}

/// The kind a keyword names; the long forms are accepted too.
pub open spec fn kind_of_kw(s: Seq<char>) -> Option<HalType> {
    if s == "comp"@ || s == "component"@ {
        Some(HalType::Comp)
    } else if s == "pin"@ {
        Some(HalType::Pin)
    } else if s == "param"@ || s == "parameter"@ {
        Some(HalType::Param)
    } else if s == "sig"@ || s == "signal"@ {
        Some(HalType::Sig)
    } else if s == "funct"@ || s == "function"@ {
        Some(HalType::Funct)
    } else if s == "thread"@ {
        Some(HalType::Thread)
    } else {
        None
    }
}

/// Pins, parameters and signals carry values that can be watched.
pub open spec fn is_watchable(t: HalType) -> bool {
    t is Pin || t is Param || t is Sig
}

/// The kinds in tree order.
pub open spec fn all_kinds() -> Seq<HalType> {
    seq![
        HalType::Comp,
        HalType::Pin,
        HalType::Param,
        HalType::Sig,
        HalType::Funct,
        HalType::Thread,
    ]
}

impl HalType {
    /// The kinds in tree order.
    pub fn all() -> (r: Vec<HalType>)
        ensures
            r@ == all_kinds(),
    {
        let r = vec![
            HalType::Comp,
            HalType::Pin,
            HalType::Param,
            HalType::Sig,
            HalType::Funct,
            HalType::Thread,
        ];
        assert(r@ =~= all_kinds());
        r
    }

    /// halcmd keyword (also the tree root path).
    pub fn kw(self) -> (r: &'static str)
        ensures
            r@ == kw_of(self),
    {
        match self {
            HalType::Comp => "comp",
            HalType::Pin => "pin",
            HalType::Param => "param",
            HalType::Sig => "sig",
            HalType::Funct => "funct",
            HalType::Thread => "thread",
        }
    }

    /// Display title used in the tree.
    pub fn title(self) -> (r: &'static str)
        ensures
            r@ == title_of(self),
    {
        match self {
            HalType::Comp => "Components",
            HalType::Pin => "Pins",
            HalType::Param => "Parameters",
            HalType::Sig => "Signals",
            HalType::Funct => "Functions",
            HalType::Thread => "Threads",
        }
    }

    /// The kind that a keyword names.
    pub fn from_kw(s: &str) -> (r: Option<HalType>)
        ensures
            r == kind_of_kw(s@),
    {
        if str_eq(s, "comp") || str_eq(s, "component") {
            Some(HalType::Comp)
        } else if str_eq(s, "pin") {
            Some(HalType::Pin)
        } else if str_eq(s, "param") || str_eq(s, "parameter") {
            Some(HalType::Param)
        } else if str_eq(s, "sig") || str_eq(s, "signal") {
            Some(HalType::Sig)
        } else if str_eq(s, "funct") || str_eq(s, "function") {
            Some(HalType::Funct)
        } else if str_eq(s, "thread") {
            Some(HalType::Thread)
        } else {
            None
        }
    }

    /// Whether objects of this kind can be watched.
    pub fn watchable(self) -> (r: bool)
        ensures
            r == is_watchable(self),
    {
        match self {
            HalType::Pin | HalType::Param | HalType::Sig => true,
            _ => false,
        }
    }
}

/// A keyword names the kind it belongs to: reading back the keyword of any
/// kind gives that kind.
pub proof fn lemma_kw_roundtrip(t: HalType)
    ensures
        kind_of_kw(kw_of(t)) == Some(t),
{
    reveal_strlit("comp");
    reveal_strlit("component");
    reveal_strlit("pin");
    reveal_strlit("param");
    reveal_strlit("parameter");
    reveal_strlit("sig");
    reveal_strlit("signal");
    reveal_strlit("funct");
    reveal_strlit("function");
    reveal_strlit("thread");
    match t {
        HalType::Comp => {

        },
        HalType::Pin => {
            assert("pin"@.len() != "comp"@.len());
            assert("pin"@.len() != "component"@.len());
        },
        HalType::Param => {
            assert("param"@.len() != "comp"@.len());
            assert("param"@.len() != "component"@.len());
            assert("param"@.len() != "pin"@.len());
        },
        HalType::Sig => {
            assert("sig"@.len() != "comp"@.len());
            assert("sig"@.len() != "component"@.len());
            assert("sig"@[0] != "pin"@[0]);
            assert("sig"@.len() != "param"@.len());
            assert("sig"@.len() != "parameter"@.len());
        },
        HalType::Funct => {
            assert("funct"@.len() != "comp"@.len());
            assert("funct"@.len() != "component"@.len());
            assert("funct"@.len() != "pin"@.len());
            assert("funct"@[0] != "param"@[0]);
            assert("funct"@.len() != "parameter"@.len());
            assert("funct"@.len() != "sig"@.len());
            assert("funct"@.len() != "signal"@.len());
        },
        HalType::Thread => {
            assert("thread"@.len() != "comp"@.len());
            assert("thread"@.len() != "component"@.len());
            assert("thread"@.len() != "pin"@.len());
            assert("thread"@.len() != "param"@.len());
            assert("thread"@.len() != "parameter"@.len());
            assert("thread"@.len() != "sig"@.len());
            assert("thread"@[0] != "signal"@[0]);
            assert("thread"@.len() != "funct"@.len());
            assert("thread"@.len() != "function"@.len());
        },
    }
}


/// One answer of a batch session: the text of the line and whether it was an
/// error.
#[derive(Debug)]
pub struct BatchOut {
    pub line: String,
    pub err: bool,
}

impl View for BatchOut {
    type V = (Seq<char>, bool);

    open spec fn view(&self) -> (Seq<char>, bool) {
        (self.line@, self.err)
    }
}

impl BatchOut {
    /// An error answer carrying `msg`.
    pub fn error(msg: &str) -> (r: BatchOut)
        ensures
            r@ == (msg@, true),
    {
        let mut line = String::new();
        push_str(&mut line, msg);
        BatchOut { line, err: true }
    }
}

/// Whether a `halcmd list comp` output shows a real session: it is not an
/// error of `halcmd` itself (`halcmd: ...`) and names a component other than
/// the transient `halcmd<pid>` ones.
pub open spec fn comps_show_session(s: Seq<char>) -> bool {
    &&& !"halcmd:"@.is_prefix_of(s)
    &&& exists|i: int| 0 <= i < words(s).len() && !"halcmd"@.is_prefix_of(#[trigger] words(s)[i])
}

/// Does a `halcmd list comp` output indicate a real session? Transient
/// `halcmd<pid>` components (created by halcmd itself) are ignored; a
/// `halcmd: ...` prefix means the binary is missing or failed to run.
pub fn comps_available(comps: &str) -> (r: bool)
    ensures
        r == comps_show_session(comps@),
{
    let v = chars_of(comps);
    let fail = chars_of("halcmd:");
    assert(v@.subrange(0, v@.len() as int) =~= v@);
    if has_prefix(&v, 0, v.len(), &fail) {
        return false;
    }
    let ws = split_ws(comps);
    let transient = chars_of("halcmd");
    let mut i: usize = 0;
    while i < ws.len()
        invariant
            i <= ws@.len(),
            views(ws@) == words(comps@),
            transient@ == "halcmd"@,
            !"halcmd:"@.is_prefix_of(comps@),
            forall|j: int| 0 <= j < i ==> "halcmd"@.is_prefix_of(#[trigger] words(comps@)[j]),
        decreases ws@.len() - i,
    {
        let w = chars_of(ws[i].as_str());
        assert(w@ == words(comps@)[i as int]);
        assert(w@.subrange(0, w@.len() as int) =~= w@);
        if !has_prefix(&w, 0, w.len(), &transient) {
            assert(!"halcmd"@.is_prefix_of(words(comps@)[i as int]));
            return true;
        }
        i = i + 1;
    }
    false
}

/// The answer that a session line stands for: `<stdin>:N: message` is the
/// error `message`, anything else a plain value.
pub open spec fn answer_of(line: Seq<char>) -> (Seq<char>, bool) {
    let rest = line.skip(7);
    if "<stdin>"@.is_prefix_of(line) && first_sub(rest, ": "@) is Some {
        (rest.skip(first_sub(rest, ": "@)->0 + 2), true)
    } else {
        (line, false)
    }
}

/// halcmd error lines from a `-f` session look like `<stdin>:7: message`.
/// Returns (message, was_error).
pub fn strip_err_prefix(line: &str) -> (r: (String, bool))
    ensures
        (r.0@, r.1) == answer_of(line@),
{
    let v = chars_of(line);
    let tag = chars_of("<stdin>");
    let sep = chars_of(": ");
    proof {
        reveal_strlit("<stdin>");
    }
    assert(v@.subrange(0, v@.len() as int) =~= v@);
    if has_prefix(&v, 0, v.len(), &tag) {
        assert(v@.subrange(7, v@.len() as int) =~= v@.skip(7));
        match find_sub(&v, 7, v.len(), &sep) {
            Some(pos) => {
                proof {
                    reveal_strlit(": ");
                }
                let msg = string_of_range(&v, pos + 2, v.len());
                assert(msg@ =~= v@.skip(7).skip(pos - 7 + 2));
                return (msg, true);
            },
            None => {},
        }
    }
    (string_of(&v), false)
}

/// The tokenizer's state: finished tokens, the token in progress, the open
/// quote if any, and whether a backslash escapes the next character.
pub type TokState = (Seq<Seq<char>>, Seq<char>, Option<char>, bool);

/// How one character moves the tokenizer: quotes group, whitespace separates,
/// a backslash takes the next character literally.
pub open spec fn tok_step(st: TokState, c: char) -> TokState {
    let (out, cur, quote, esc) = st;
    if esc {
        (out, cur.push(c), quote, false)
    } else if quote is Some {
        if c == quote->0 {
            (out, cur, None, false)
        } else {
            (out, cur.push(c), quote, false)
        }
    } else if c == '"' || c == '\'' {
        (out, cur, Some(c), false)
    } else if is_ws(c) {
        if cur.len() > 0 {
            (out.push(cur), seq![], None, false)
        } else {
            (out, cur, None, false)
        }
    } else if c == '\\' {
        (out, cur, None, true)
    } else {
        (out, cur.push(c), None, false)
    }
}

/// The tokenizer's state after reading `s`.
pub open spec fn tok_scan(s: Seq<char>) -> TokState
    decreases s.len(),
{
    if s.len() == 0 {
        (seq![], seq![], None, false)
    } else {
        tok_step(tok_scan(s.drop_last()), s.last())
    }
}

/// The tokens of a command line.
pub open spec fn tokens(s: Seq<char>) -> Seq<Seq<char>> {
    let st = tok_scan(s);
    if st.1.len() > 0 {
        st.0.push(st.1)
    } else {
        st.0
    }
}

/// A command line with no quote and no backslash.
pub open spec fn unquoted(s: Seq<char>) -> bool {
    forall|i: int| 0 <= i < s.len() ==> #[trigger] s[i] != '"' && s[i] != '\'' && s[i] != '\\'
}

/// The finished tokens are never empty.
proof fn lemma_tok_scan_nonempty(s: Seq<char>)
    ensures
        forall|k: int| 0 <= k < tok_scan(s).0.len() ==> (#[trigger] tok_scan(s).0[k]).len() > 0,
    decreases s.len(),
{
    if s.len() > 0 {
        lemma_tok_scan_nonempty(s.drop_last());
        let st = tok_scan(s.drop_last());
        assert forall|k: int| 0 <= k < st.0.push(st.1).len() && st.1.len() > 0 implies (
        #[trigger] st.0.push(st.1)[k]).len() > 0 by {
            if k < st.0.len() {
                assert(st.0.push(st.1)[k] == st.0[k]);
            }
        }
    }
}

/// Without quotes and backslashes the tokenizer splits at whitespace.
proof fn lemma_tok_scan_unquoted(s: Seq<char>)
    requires
        unquoted(s),
    ensures
        tok_scan(s) == (words_scan(s).0, words_scan(s).1, None::<char>, false),
    decreases s.len(),
{
    if s.len() > 0 {
        assert(unquoted(s.drop_last())) by {
            assert forall|i: int| 0 <= i < s.drop_last().len() implies #[trigger] s.drop_last()[i]
                != '"' && s.drop_last()[i] != '\'' && s.drop_last()[i] != '\\' by {
                assert(s.drop_last()[i] == s[i]);
            }
        }
        lemma_tok_scan_unquoted(s.drop_last());
        assert(s[s.len() - 1] == s.last());
    }
}

/// No token is empty, whatever the command line.
pub proof fn lemma_tokens_nonempty(s: Seq<char>)
    ensures
        forall|k: int| 0 <= k < tokens(s).len() ==> (#[trigger] tokens(s)[k]).len() > 0,
{
    lemma_tok_scan_nonempty(s);
    let st = tok_scan(s);
    assert forall|k: int| 0 <= k < tokens(s).len() implies (#[trigger] tokens(s)[k]).len() > 0 by {
        if st.1.len() > 0 && k < st.0.len() {
            assert(st.0.push(st.1)[k] == st.0[k]);
        }
    }
}

/// A command line without quotes and backslashes is split at whitespace,
/// as `split_whitespace` does.
pub proof fn lemma_tokens_unquoted(s: Seq<char>)
    requires
        unquoted(s),
    ensures
        tokens(s) == words(s),
{
    lemma_tok_scan_unquoted(s);
}

/// Shell-like tokenizer for the arbitrary HAL command entry: no token is
/// empty, and a line without quotes or backslashes is split at whitespace.
pub fn tokenize(s: &str) -> (r: Vec<String>)
    ensures
        views(r@) == tokens(s@),
        forall|k: int| 0 <= k < r@.len() ==> (#[trigger] r@[k])@.len() > 0,
        unquoted(s@) ==> views(r@) == words(s@),
{
    let v = chars_of(s);
    let mut out: Vec<String> = Vec::new();
    let mut cur: Vec<char> = Vec::new();
    let mut quote: Option<char> = None;
    let mut esc = false;
    let mut i: usize = 0;
    assert(v@.take(0) =~= seq![]);
    while i < v.len()
        invariant
            i <= v@.len(),
            (views(out@), cur@, quote, esc) == tok_scan(v@.take(i as int)),
        decreases v@.len() - i,
    {
        let c = v[i];
        assert(v@.take(i + 1).drop_last() =~= v@.take(i as int));
        assert(v@.take(i + 1).last() == c);
        if esc {
            cur.push(c);
            esc = false;
        } else if quote.is_some() {
            let q = quote.unwrap();
            if c == q {
                quote = None;
            } else {
                cur.push(c);
            }
        } else if c == '"' || c == '\'' {
            quote = Some(c);
        } else if is_space(c) {
            if cur.len() > 0 {
                out.push(string_of(&cur));
                assert(views(out@) =~= views(out@.drop_last()).push(cur@));
                cur = Vec::new();
            }
        } else if c == '\\' {
            esc = true;
        } else {
            cur.push(c);
        }
        i = i + 1;
    }
    assert(v@.take(v@.len() as int) =~= v@);
    if cur.len() > 0 {
        out.push(string_of(&cur));
        assert(views(out@) =~= views(out@.drop_last()).push(cur@));
    }
    assert(views(out@) == tokens(s@));
    proof {
        lemma_tokens_nonempty(s@);
        if unquoted(s@) {
            lemma_tokens_unquoted(s@);
        }
        assert forall|k: int| 0 <= k < out@.len() implies (#[trigger] out@[k])@.len() > 0 by {
            assert(views(out@)[k] == out@[k]@);
            assert(tokens(s@)[k] == views(out@)[k]);
        }
    }
    out
}

// --- writability detection ----------------------------------------------

/// Writability of a pin from the lines of its `show pin` output: the first
/// line whose fifth field is the pin's name decides; an `IN` pin is writable
/// (1) unless it is linked to a signal (-1); other pins are not (0).
pub open spec fn pin_writable_in(ls: Seq<Seq<char>>, name: Seq<char>) -> i8
    decreases ls.len(),
{
    if ls.len() == 0 {
        0i8
    } else {
        let t = words(ls[0]);
        if t.len() >= 5 && t[4] == name {
            if t[2] == "IN"@ {
                if t.len() >= 6 && (t[5] == "<=="@ || t[5] == "<=>"@) {
                    -1i8
                } else {
                    1i8
                }
            } else {
                0i8
            }
        } else {
            pin_writable_in(ls.drop_first(), name)
        }
    }
}

/// Writability of a parameter from the lines of its `show param` output:
/// the first line whose fifth field is its name decides; `RW` is writable.
pub open spec fn param_writable_in(ls: Seq<Seq<char>>, name: Seq<char>) -> i8
    decreases ls.len(),
{
    if ls.len() == 0 {
        0i8
    } else {
        let t = words(ls[0]);
        if t.len() >= 5 && t[4] == name {
            if t[2] == "RW"@ {
                1i8
            } else {
                0i8
            }
        } else {
            param_writable_in(ls.drop_first(), name)
        }
    }
}

/// The fields of line `k` of `v`, given the line bounds `r`.
fn line_fields(v: &Vec<char>, r: &Vec<(usize, usize)>, k: usize) -> (ws: Vec<String>)
    requires
        k < r@.len(),
        crate::text::spans_ok(v@, r@),
    ensures
        views(ws@) == words(spans(v@, r@)[k as int]),
{
    let (a, b) = r[k];
    assert(a <= b <= v@.len()) by {
        assert(r@[k as int].0 <= r@[k as int].1 <= v@.len());
    }
    split_ws_range(v, a, b)
}

/// 1 = writable, -1 = writable but linked to a signal, 0 = not writable.
pub fn pin_writable(show_out: &str, name: &str) -> (r: i8)
    ensures
        r == pin_writable_in(lines(show_out@), name@),
{
    let v = chars_of(show_out);
    let r = line_bounds(&v);
    let mut k: usize = 0;
    assert(spans(v@, r@).skip(0) =~= spans(v@, r@));
    while k < r.len()
        invariant
            k <= r@.len(),
            crate::text::spans_ok(v@, r@),
            spans(v@, r@) == lines(show_out@),
            v@ == show_out@,
            pin_writable_in(lines(show_out@), name@) == pin_writable_in(
                spans(v@, r@).skip(k as int),
                name@,
            ),
        decreases r@.len() - k,
    {
        let ws = line_fields(&v, &r, k);
        let ghost ls = spans(v@, r@).skip(k as int);
        assert(ls[0] == spans(v@, r@)[k as int]);
        assert(ls.drop_first() =~= spans(v@, r@).skip(k + 1));
        if ws.len() >= 5 && str_eq(ws[4].as_str(), name) {
            if str_eq(ws[2].as_str(), "IN") {
                if ws.len() >= 6 && (str_eq(ws[5].as_str(), "<==") || str_eq(
                    ws[5].as_str(),
                    "<=>",
                )) {
                    return -1;
                }
                return 1;
            }
            return 0;
        }
        k = k + 1;
    }
    assert(spans(v@, r@).skip(k as int) =~= seq![]);
    0
}

/// 1 = writable, 0 = not writable.
pub fn param_writable(show_out: &str, name: &str) -> (r: i8)
    ensures
        r == param_writable_in(lines(show_out@), name@),
{
    let v = chars_of(show_out);
    let r = line_bounds(&v);
    let mut k: usize = 0;
    assert(spans(v@, r@).skip(0) =~= spans(v@, r@));
    while k < r.len()
        invariant
            k <= r@.len(),
            crate::text::spans_ok(v@, r@),
            spans(v@, r@) == lines(show_out@),
            v@ == show_out@,
            param_writable_in(lines(show_out@), name@) == param_writable_in(
                spans(v@, r@).skip(k as int),
                name@,
            ),
        decreases r@.len() - k,
    {
        let ws = line_fields(&v, &r, k);
        let ghost ls = spans(v@, r@).skip(k as int);
        assert(ls[0] == spans(v@, r@)[k as int]);
        assert(ls.drop_first() =~= spans(v@, r@).skip(k + 1));
        if ws.len() >= 5 && str_eq(ws[4].as_str(), name) {
            if str_eq(ws[2].as_str(), "RW") {
                return 1;
            }
            return 0;
        }
        k = k + 1;
    }
    assert(spans(v@, r@).skip(k as int) =~= seq![]);
    0
}

/// Signals are writable unless an output pin ("<==") is linked.
pub fn sig_writable(show_out: &str) -> (r: i8)
    ensures
        r == (if first_sub(show_out@, "<="@) is Some {
            0i8
        } else {
            1i8
        }),
{
    let v = chars_of(show_out);
    let p = chars_of("<=");
    assert(v@.subrange(0, v@.len() as int) =~= v@);
    if find_sub(&v, 0, v.len(), &p).is_some() {
        0
    } else {
        1
    }
}


// --- batch session protocol ---------------------------------------------

/// The text sent to the session for a batch: each command on a line.
pub open spec fn script(cmds: Seq<Seq<char>>) -> Seq<char>
    decreases cmds.len(),
{
    if cmds.len() == 0 {
        seq![]
    } else {
        script(cmds.drop_last()) + cmds.last().push('\n')
    }
}

/// The text to write to the session for `cmds`.
pub fn batch_script(cmds: &Vec<String>) -> (s: String)
    ensures
        s@ == script(views(cmds@)),
{
    let mut s = String::new();
    let mut i: usize = 0;
    assert(views(cmds@).take(0) =~= seq![]);
    while i < cmds.len()
        invariant
            i <= cmds@.len(),
            s@ == script(views(cmds@).take(i as int)),
        decreases cmds@.len() - i,
    {
        push_str(&mut s, cmds[i].as_str());
        push_char(&mut s, '\n');
        assert(views(cmds@).take(i + 1).drop_last() =~= views(cmds@).take(i as int));
        assert(s@ =~= script(views(cmds@).take(i as int)) + cmds@[i as int]@.push('\n'));
        i = i + 1;
    }
    assert(views(cmds@).take(cmds@.len() as int) =~= views(cmds@));
    s
}

/// `n` error answers carrying `msg`.
pub fn batch_failure(n: usize, msg: &str) -> (r: Vec<BatchOut>)
    ensures
        r@.len() == n,
        forall|k: int| 0 <= k < n ==> (#[trigger] r@[k])@ == (msg@, true),
{
    let mut r: Vec<BatchOut> = Vec::new();
    while r.len() < n
        invariant
            r@.len() <= n,
            forall|k: int| 0 <= k < r@.len() ==> (#[trigger] r@[k])@ == (msg@, true),
        decreases n - r@.len(),
    {
        r.push(BatchOut::error(msg));
    }
    r
}

/// The answers to a batch of `n` commands when the session delivered the
/// lines `got` (fewer than `n` when it stopped answering): one answer per
/// delivered line, and "halcmd session died" for each missing one.
pub fn batch_results(got: &Vec<String>, n: usize) -> (r: Vec<BatchOut>)
    ensures
        r@.len() == n,
        forall|k: int|
            0 <= k < n ==> (#[trigger] r@[k])@ == (if k < got@.len() {
                answer_of(got@[k]@)
            } else {
                ("halcmd session died"@, true)
            }),
{
    let mut r: Vec<BatchOut> = Vec::new();
    while r.len() < n
        invariant
            r@.len() <= n,
            forall|k: int|
                0 <= k < r@.len() ==> (#[trigger] r@[k])@ == (if k < got@.len() {
                    answer_of(got@[k]@)
                } else {
                    ("halcmd session died"@, true)
                }),
        decreases n - r@.len(),
    {
        let k = r.len();
        if k < got.len() {
            let (line, err) = strip_err_prefix(got[k].as_str());
            r.push(BatchOut { line, err });
        } else {
            r.push(BatchOut::error("halcmd session died"));
        }
    }
    r
}

/// The merged output of a one-shot `halcmd`: stdout, then stderr on a line
/// of its own.
pub open spec fn merged(out: Seq<char>, err: Seq<char>) -> Seq<char> {
    if err.len() == 0 {
        out
    } else if out.len() > 0 && out.last() != '\n' {
        out.push('\n') + err
    } else {
        out + err
    }
}

/// Merges the standard output and error of a one-shot `halcmd`.
pub fn merge_output(out: &str, err: &str) -> (r: String)
    ensures
        r@ == merged(out@, err@),
{
    let vo = chars_of(out);
    let ve = chars_of(err);
    let mut s = string_of(&vo);
    if ve.len() > 0 {
        if vo.len() > 0 && vo[vo.len() - 1] != '\n' {
            push_char(&mut s, '\n');
        }
        crate::text::push_chars(&mut s, &ve);
    }
    s
}

/// The last component of a slash-separated path.
pub open spec fn basename(w: Seq<char>) -> Seq<char> {
    match last_pos(w, '/') {
        Some(p) => w.skip(p + 1),
        None => w,
    }
}

/// Whether a process list (one command line per line) shows a process whose
/// executable basename is `name`.
pub open spec fn lists_process(ps: Seq<char>, name: Seq<char>) -> bool {
    exists|i: int, j: int|
        0 <= i < lines(ps).len() && 0 <= j < words(lines(ps)[i]).len() && #[trigger] basename(
            words(lines(ps)[i])[j],
        ) == name
}

/// Whether the output of `ps -e -o args=` shows a process named `name`.
pub fn has_process(ps: &str, name: &str) -> (b: bool)
    ensures
        b == lists_process(ps@, name@),
{
    let v = chars_of(ps);
    let nm = chars_of(name);
    let r = line_bounds(&v);
    let mut k: usize = 0;
    while k < r.len()
        invariant
            k <= r@.len(),
            crate::text::spans_ok(v@, r@),
            spans(v@, r@) == lines(ps@),
            v@ == ps@,
            nm@ == name@,
            forall|i: int, j: int|
                0 <= i < k && 0 <= j < words(lines(ps@)[i]).len() ==> #[trigger] basename(
                    words(lines(ps@)[i])[j],
                ) != name@,
        decreases r@.len() - k,
    {
        let ws = line_fields(&v, &r, k);
        let mut j: usize = 0;
        while j < ws.len()
            invariant
                k < r@.len(),
                spans(v@, r@) == lines(ps@),
                j <= ws@.len(),
                views(ws@) == words(lines(ps@)[k as int]),
                nm@ == name@,
                forall|jj: int|
                    0 <= jj < j ==> #[trigger] basename(words(lines(ps@)[k as int])[jj])
                        != name@,
            decreases ws@.len() - j,
        {
            let w = chars_of(ws[j].as_str());
            assert(w@ == words(lines(ps@)[k as int])[j as int]);
            let start = match rfind_char(&w, 0, w.len(), '/') {
                Some(p) => p + 1,
                None => 0,
            };
            assert(w@.subrange(0, w@.len() as int) =~= w@);
            assert(w@.subrange(start as int, w@.len() as int) =~= basename(w@));
            if crate::text::range_eq(&w, start, w.len(), &nm) {
                assert(basename(words(lines(ps@)[k as int])[j as int]) == name@);
                return true;
            }
            j = j + 1;
        }
        k = k + 1;
    }
    false
}

} // verus!
