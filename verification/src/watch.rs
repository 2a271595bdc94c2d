//! Watch list: items and the `.halshow` watch file format.

use vstd::prelude::*;
use crate::hal::{HalType, kw_of, kind_of_kw, lemma_kw_roundtrip};
use crate::num::{all_digits, decimal, decimal_string, lemma_decimal};
use crate::text::{
    chars_of, concat_lines, first_pos, is_ws, lemma_concat_lines_append, lemma_first_pos_after,
    lemma_lines_concat, lemma_lines_single, lemma_trim_plain, lemma_words_single,
    lemma_words_spaced, line_bounds, line_ok, lines, no_ws, push_char, push_str, spans, spans_ok,
    split_ws_range, string_of_range, trim, trim_bounds, views, words, words_scan, find_char,
};

verus! {

broadcast use vstd::string::group_string_axioms;

/// A watched pin, parameter or signal.
#[derive(Clone, Debug)]
pub struct WatchItem {
    pub kind: HalType,
    pub name: String,
    /// data type from ptype/stype: bit, float, s32, u32
    pub dtype: String,
    /// 1 = writable, -1 = writable but linked, 0 = not writable
    pub writable: i8,
    pub value: String,
    pub error: bool,
}

/// The id of an item in watch files: `kind+name`.
pub open spec fn file_id_of(kind: HalType, name: Seq<char>) -> Seq<char> {
    kw_of(kind) + seq!['+'] + name
}

impl WatchItem {
    /// The item's id in watch files, e.g. `pin+axis.0.pos`.
    pub fn file_id(&self) -> (r: String)
        ensures
            r@ == file_id_of(self.kind, self.name@),
    {
        let mut s = String::new();
        push_str(&mut s, self.kind.kw());
        push_char(&mut s, '+');
        push_str(&mut s, self.name.as_str());
        s
    }
}

/// What one token of a watch file names: `kind+name`, or a bare name whose
/// kind is left open.
pub open spec fn parse_token(t: Seq<char>) -> (Option<HalType>, Seq<char>) {
    match first_pos(t, '+') {
        Some(i) => (kind_of_kw(t.take(i)), t.skip(i + 1)),
        None => (None, t),
    }
}

/// The tokens of one line of a watch file; blank and `#` lines hold none.
pub open spec fn line_tokens(line: Seq<char>) -> Seq<(Option<HalType>, Seq<char>)> {
    let l = trim(line);
    if l.len() == 0 || l[0] == '#' {
        seq![]
    } else {
        tokens_of(words(l))
    }
}

/// The entries that a sequence of tokens names.
pub open spec fn tokens_of(ws: Seq<Seq<char>>) -> Seq<(Option<HalType>, Seq<char>)> {
    ws.map_values(|t: Seq<char>| parse_token(t))
}

/// The tokens of a sequence of lines.
pub open spec fn lines_tokens(ls: Seq<Seq<char>>) -> Seq<(Option<HalType>, Seq<char>)>
    decreases ls.len(),
{
    if ls.len() == 0 {
        seq![]
    } else {
        lines_tokens(ls.drop_last()) + line_tokens(ls.last())
    }
}

/// The entries of a watch file.
pub open spec fn file_entries(text: Seq<char>) -> Seq<(Option<HalType>, Seq<char>)> {
    lines_tokens(lines(text))
}

/// The views of parsed entries.
pub open spec fn entry_views(v: Seq<(Option<HalType>, String)>) -> Seq<(Option<HalType>, Seq<char>)> {
    v.map_values(|e: (Option<HalType>, String)| (e.0, e.1@))
}

/// The entry that one token of a watch file names.
pub fn token_entry(t: &String) -> (r: (Option<HalType>, String))
    ensures
        (r.0, r.1@) == parse_token(t@),
{
    let v = chars_of(t.as_str());
    assert(v@.subrange(0, v@.len() as int) =~= v@);
    match find_char(&v, 0, v.len(), '+') {
        Some(i) => {
            let kind = string_of_range(&v, 0, i);
            let name = string_of_range(&v, i + 1, v.len());
            assert(kind@ =~= t@.take(i as int));
            assert(name@ =~= t@.skip(i + 1));
            (HalType::from_kw(kind.as_str()), name)
        },
        None => (None, string_of_range(&v, 0, v.len())),
    }
}

/// Parse a watchlist file: comment lines (#) and blank lines are
/// ignored, items are whitespace-separated "type+name" tokens.
/// Bare names keep type = None (caller guesses via ptype/stype).
pub fn parse_file(text: &str) -> (r: Vec<(Option<HalType>, String)>)
    ensures
        entry_views(r@) == file_entries(text@),
{
    let v = chars_of(text);
    let lb = line_bounds(&v);
    let mut out: Vec<(Option<HalType>, String)> = Vec::new();
    let mut k: usize = 0;
    assert(spans(v@, lb@).take(0) =~= seq![]);
    while k < lb.len()
        invariant
            k <= lb@.len(),
            spans_ok(v@, lb@),
            spans(v@, lb@) == lines(text@),
            entry_views(out@) == lines_tokens(spans(v@, lb@).take(k as int)),
        decreases lb@.len() - k,
    {
        let (a, b) = lb[k];
        assert(lb@[k as int].0 <= lb@[k as int].1 <= v@.len());
        let ghost line = spans(v@, lb@)[k as int];
        assert(spans(v@, lb@).take(k + 1).drop_last() =~= spans(v@, lb@).take(k as int));
        assert(spans(v@, lb@).take(k + 1).last() == line);
        let (ta, tb) = trim_bounds(&v, a, b);
        let ghost before = entry_views(out@);
        if ta < tb && v[ta] != '#' {
            let toks = split_ws_range(&v, ta, tb);
            let mut j: usize = 0;
            while j < toks.len()
                invariant
                    j <= toks@.len(),
                    views(toks@) == words(trim(line)),
                    entry_views(out@) == before + tokens_of(words(trim(line)).take(j as int))
                decreases toks@.len() - j,
            {
                let e = token_entry(&toks[j]);
                let ghost w = words(trim(line));
                assert(toks@[j as int]@ == w[j as int]);
                assert(w.take(j + 1) =~= w.take(j as int).push(w[j as int]));
                let ghost prev = entry_views(out@);
                let ghost ev = (e.0, e.1@);
                assert(ev == parse_token(w[j as int]));
                out.push(e);
                assert(entry_views(out@) =~= prev.push(ev));
                assert(tokens_of(w.take(j + 1)) =~= tokens_of(w.take(j as int)).push(
                    parse_token(w[j as int]),
                ));
                assert(entry_views(out@) =~= before + tokens_of(w.take(j + 1)));
                j = j + 1;
            }
            assert(words(trim(line)).take(toks@.len() as int) =~= words(trim(line)));
        } else {
            assert(entry_views(out@) =~= before + line_tokens(line));
        }
        k = k + 1;
    }
    assert(spans(v@, lb@).take(lb@.len() as int) =~= spans(v@, lb@));
    out
}

/// The ids of items, one after the other.
pub open spec fn item_ids(items: Seq<WatchItem>) -> Seq<Seq<char>> {
    items.map_values(|w: WatchItem| file_id_of(w.kind, w.name@))
}

/// The ids joined by single spaces.
pub open spec fn joined(ids: Seq<Seq<char>>) -> Seq<char>
    decreases ids.len(),
{
    if ids.len() == 0 {
        seq![]
    } else if ids.len() == 1 {
        ids[0]
    } else {
        joined(ids.drop_last()) + seq![' '] + ids.last()
    }
}

/// Each id on a line of its own.
pub open spec fn id_lines(ids: Seq<Seq<char>>) -> Seq<char>
    decreases ids.len(),
{
    if ids.len() == 0 {
        seq![]
    } else {
        id_lines(ids.drop_last()) + ids.last() + seq!['\n']
    }
}

/// The header of the multiline format.
pub open spec fn header(created: nat) -> Seq<char> {
    "# halshow watchlist created "@ + decimal(created) + "\n\n"@
}

/// A watch file: the multiline format has a header with the creation time
/// (seconds since the epoch) and one id per line; the oneline format joins
/// the ids with spaces.
pub open spec fn file_text_of(items: Seq<WatchItem>, multiline: bool, created: nat) -> Seq<char> {
    if multiline {
        header(created) + id_lines(item_ids(items))
    } else {
        joined(item_ids(items))
    }
}

/// Render a watchlist file. `multiline` matches halshow's
/// "Save Watch List (multiline)" format; `created` is the time of writing in
/// seconds since the epoch.
pub fn file_text(items: &[WatchItem], multiline: bool, created: u64) -> (r: String)
    ensures
        r@ == file_text_of(items@, multiline, created as nat),
{
    let mut s = String::new();
    if multiline {
        push_str(&mut s, "# halshow watchlist created ");
        let n = decimal_string(created);
        push_str(&mut s, n.as_str());
        push_str(&mut s, "\n\n");
        let ghost hd = s@;
        let mut i: usize = 0;
        assert(item_ids(items@).take(0) =~= seq![]);
        while i < items.len()
            invariant
                i <= items@.len(),
                hd == header(created as nat),
                s@ == hd + id_lines(item_ids(items@).take(i as int)),
            decreases items@.len() - i,
        {
            let id = items[i].file_id();
            push_str(&mut s, id.as_str());
            push_char(&mut s, '\n');
            assert(item_ids(items@).take(i + 1).drop_last() =~= item_ids(items@).take(i as int));
            assert(s@ =~= hd + id_lines(item_ids(items@).take(i + 1)));
            i = i + 1;
        }
        assert(item_ids(items@).take(items@.len() as int) =~= item_ids(items@));
    } else {
        let mut i: usize = 0;
        assert(item_ids(items@).take(0) =~= seq![]);
        while i < items.len()
            invariant
                i <= items@.len(),
                s@ == joined(item_ids(items@).take(i as int)),
            decreases items@.len() - i,
        {
            let id = items[i].file_id();
            if i > 0 {
                push_char(&mut s, ' ');
            }
            push_str(&mut s, id.as_str());
            assert(item_ids(items@).take(i + 1).drop_last() =~= item_ids(items@).take(i as int));
            assert(s@ =~= joined(item_ids(items@).take(i + 1)));
            i = i + 1;
        }
        assert(item_ids(items@).take(items@.len() as int) =~= item_ids(items@));
    }
    s
}

// ---------------------------------------------------------------------------
// Reading back what was written

/// The entries that items are read back as: each with its kind and name.
pub open spec fn entries_of(items: Seq<WatchItem>) -> Seq<(Option<HalType>, Seq<char>)> {
    items.map_values(|w: WatchItem| (Some(w.kind), w.name@))
}

/// A keyword is made of lower-case letters.
proof fn lemma_kw_letters(k: HalType)
    ensures
        kw_of(k).len() > 0,
        forall|j: int| 0 <= j < kw_of(k).len() ==> 97 <= (#[trigger] kw_of(k)[j]) as u32 <= 122,
{
    reveal_strlit("comp");
    reveal_strlit("pin");
    reveal_strlit("param");
    reveal_strlit("sig");
    reveal_strlit("funct");
    reveal_strlit("thread");
}

/// What is known of an item's id when its name holds no whitespace.
proof fn lemma_id(k: HalType, name: Seq<char>)
    requires
        no_ws(name),
    ensures
        file_id_of(k, name).len() > 0,
        no_ws(file_id_of(k, name)),
        line_ok(file_id_of(k, name)),
        97 <= file_id_of(k, name)[0] as u32 <= 122,
        !is_ws(file_id_of(k, name).last()),
        parse_token(file_id_of(k, name)) == (Some(k), name),
{
    let kw = kw_of(k);
    let id = file_id_of(k, name);
    lemma_kw_letters(k);
    lemma_kw_roundtrip(k);
    assert(!kw.contains('+')) by {
        if kw.contains('+') {
            let j = choose|j: int| 0 <= j < kw.len() && kw[j] == '+';
            assert(97 <= kw[j] as u32);
        }
    }
    lemma_first_pos_after(kw, name, '+');
    assert(id.take(kw.len() as int) =~= kw);
    assert(id.skip(kw.len() as int + 1) =~= name);
    assert forall|j: int| 0 <= j < id.len() implies !is_ws(#[trigger] id[j]) by {
        if j < kw.len() {
            assert(id[j] == kw[j]);
            assert(97 <= kw[j] as u32 <= 122);
        } else if j > kw.len() {
            assert(id[j] == name[j - kw.len() - 1]);
        }
    }
    assert(id[0] == kw[0]);
    assert(!id.contains('\n')) by {
        if id.contains('\n') {
            let j = choose|j: int| 0 <= j < id.len() && id[j] == '\n';
            assert(!is_ws(id[j]));
        }
    }
    assert(!is_ws(id[id.len() - 1]));
}

/// A line holding one id gives back its entry.
proof fn lemma_id_line(k: HalType, name: Seq<char>)
    requires
        no_ws(name),
    ensures
        line_tokens(file_id_of(k, name)) == seq![(Some(k), name)],
{
    let id = file_id_of(k, name);
    lemma_id(k, name);
    lemma_trim_plain(id);
    lemma_words_single(id);
    assert(tokens_of(seq![id]) =~= seq![parse_token(id)]);
}

proof fn lemma_lines_tokens_append(a: Seq<Seq<char>>, b: Seq<Seq<char>>)
    ensures
        lines_tokens(a + b) == lines_tokens(a) + lines_tokens(b),
    decreases b.len(),
{
    if b.len() == 0 {
        assert(a + b =~= a);
        assert(lines_tokens(a) + lines_tokens(b) =~= lines_tokens(a));
    } else {
        lemma_lines_tokens_append(a, b.drop_last());
        assert((a + b).drop_last() =~= a + b.drop_last());
        assert((a + b).last() == b.last());
        assert(lines_tokens(a + b) =~= lines_tokens(a) + lines_tokens(b));
    }
}

/// Whether every name of `items` holds no whitespace.
pub open spec fn names_plain(items: Seq<WatchItem>) -> bool {
    forall|i: int| 0 <= i < items.len() ==> no_ws(#[trigger] items[i].name@)
}

proof fn lemma_ids_tokens(items: Seq<WatchItem>)
    requires
        names_plain(items),
    ensures
        lines_tokens(item_ids(items)) == entries_of(items),
    decreases items.len(),
{
    if items.len() > 0 {
        let last = items.last();
        assert(no_ws(items[items.len() - 1].name@));
        assert(names_plain(items.drop_last())) by {
            assert forall|i: int| 0 <= i < items.drop_last().len() implies no_ws(
                #[trigger] items.drop_last()[i].name@,
            ) by {
                assert(items.drop_last()[i] == items[i]);
            }
        }
        lemma_ids_tokens(items.drop_last());
        assert(item_ids(items).drop_last() =~= item_ids(items.drop_last()));
        lemma_id_line(last.kind, last.name@);
        assert(entries_of(items) =~= entries_of(items.drop_last()).push((Some(last.kind), last.name@)));
    }
}

/// The multiline body is the ids as lines.
proof fn lemma_id_lines(ids: Seq<Seq<char>>)
    ensures
        id_lines(ids) == concat_lines(ids),
    decreases ids.len(),
{
    if ids.len() > 0 {
        lemma_id_lines(ids.drop_last());
        assert(id_lines(ids) =~= concat_lines(ids));
    }
}

/// The ids, joined by spaces, are read back word by word.
proof fn lemma_joined(ids: Seq<Seq<char>>)
    requires
        ids.len() > 0,
        forall|k: int| 0 <= k < ids.len() ==> (#[trigger] ids[k]).len() > 0 && no_ws(ids[k]),
    ensures
        words_scan(joined(ids)) == (ids.drop_last(), ids.last()),
        joined(ids).len() > 0,
        joined(ids)[0] == ids[0][0],
        joined(ids).last() == ids.last().last(),
        !joined(ids).contains('\n'),
    decreases ids.len(),
{
    let last = ids.last();
    assert(last.len() > 0 && no_ws(last)) by {
        assert(ids[ids.len() - 1] == last);
    }
    if ids.len() == 1 {
        lemma_words_single(last);
        crate::text::lemma_words_scan_one(last);
        assert(ids.drop_last() =~= Seq::<Seq<char>>::empty());
        assert(!last.contains('\n')) by {
            if last.contains('\n') {
                let j = choose|j: int| 0 <= j < last.len() && last[j] == '\n';
                assert(!is_ws(last[j]));
            }
        }
    } else {
        let d = ids.drop_last();
        assert forall|k: int| 0 <= k < d.len() implies (#[trigger] d[k]).len() > 0 && no_ws(d[k]) by {
            assert(d[k] == ids[k]);
        }
        lemma_joined(d);
        lemma_words_spaced(joined(d), last);
        assert(d.drop_last().push(d.last()) =~= d);
        let j = joined(ids);
        assert(j =~= joined(d) + seq![' '] + last);
        assert(j[0] == joined(d)[0]);
        assert(d[0] == ids[0]);
        assert(!j.contains('\n')) by {
            if j.contains('\n') {
                let i = choose|i: int| 0 <= i < j.len() && j[i] == '\n';
                if i < joined(d).len() {
                    assert(joined(d)[i] == '\n');
                } else if i > joined(d).len() {
                    assert(last[i - joined(d).len() - 1] == '\n');
                    assert(!is_ws(last[i - joined(d).len() - 1]));
                }
            }
        }
    }
}

/// A watch file reads back as the items it was written from, each with its
/// kind and name, in order, in either format, as long as no name holds
/// whitespace.
pub proof fn lemma_file_roundtrip(items: Seq<WatchItem>, multiline: bool, created: nat)
    requires
        names_plain(items),
    ensures
        file_entries(file_text_of(items, multiline, created)) == entries_of(items),
{
    let ids = item_ids(items);
    assert forall|k: int| 0 <= k < ids.len() implies (#[trigger] ids[k]).len() > 0 && no_ws(ids[k])
        && line_ok(ids[k]) && !is_ws(ids[k][0]) && !is_ws(ids[k].last()) && ids[k][0] != '#' by {
        assert(no_ws(items[k].name@));
        lemma_id(items[k].kind, items[k].name@);
    }
    lemma_ids_tokens(items);
    if multiline {
        reveal_strlit("# halshow watchlist created ");
        reveal_strlit("\n\n");
        let h = "# halshow watchlist created "@ + decimal(created);
        let e = Seq::<char>::empty();
        lemma_decimal(created);
        assert(seq![h, e].drop_last() =~= seq![h]);
        assert(seq![h].drop_last() =~= Seq::<Seq<char>>::empty());
        assert(seq![h].last() == h);
        assert(concat_lines(Seq::<Seq<char>>::empty()) =~= Seq::<char>::empty());
        assert(concat_lines(seq![h]) =~= h.push('\n'));
        assert(concat_lines(seq![h, e]) =~= h.push('\n').push('\n'));
        assert("\n\n"@ =~= seq!['\n', '\n']);
        assert(header(created) =~= concat_lines(seq![h, e]));
        lemma_id_lines(ids);
        lemma_concat_lines_append(seq![h, e], ids);
        let ls = seq![h, e] + ids;
        assert(line_ok(h)) by {
            assert(!h.contains('\n')) by {
                if h.contains('\n') {
                    let i = choose|i: int| 0 <= i < h.len() && h[i] == '\n';
                    if i >= 28 {
                        assert(48 <= decimal(created)[i - 28] as u32);
                    }
                }
            }
            assert(48 <= h.last() as u32) by {
                assert(h.last() == decimal(created)[decimal(created).len() - 1]);
            }
        }
        assert forall|k: int| 0 <= k < ls.len() implies line_ok(#[trigger] ls[k]) by {
            if k >= 2 {
                assert(ls[k] == ids[k - 2]);
            }
        }
        lemma_lines_concat(ls);
        lemma_lines_tokens_append(seq![h, e], ids);
        assert(seq![h, e].drop_last() =~= seq![h]);
        assert(seq![h].drop_last() =~= Seq::<Seq<char>>::empty());
        assert(48 <= h.last() as u32) by {
            assert(h.last() == decimal(created)[decimal(created).len() - 1]);
        }
        lemma_trim_plain(h);
        assert(line_tokens(h) =~= Seq::<(Option<HalType>, Seq<char>)>::empty());
        assert(trim(e) =~= e);
        assert(line_tokens(e) =~= Seq::<(Option<HalType>, Seq<char>)>::empty());
        assert(lines_tokens(Seq::<Seq<char>>::empty()) =~= Seq::<(Option<HalType>, Seq<char>)>::empty());
        assert(h[0] == '#');
        assert(line_tokens(h) =~= Seq::<(Option<HalType>, Seq<char>)>::empty());
        assert(lines_tokens(seq![h]) =~= Seq::<(Option<HalType>, Seq<char>)>::empty());
        assert(lines_tokens(seq![h, e]) =~= Seq::<(Option<HalType>, Seq<char>)>::empty());
        assert(file_text_of(items, multiline, created) == concat_lines(ls));
    } else {
        if ids.len() == 0 {
            lemma_lines_single(joined(ids));
            assert(items =~= Seq::<WatchItem>::empty());
            assert(entries_of(items) =~= Seq::<(Option<HalType>, Seq<char>)>::empty());
        } else {
            lemma_joined(ids);
            let j = joined(ids);
            lemma_lines_single(j);
            assert(lines_tokens(seq![j]) == line_tokens(j)) by {
                assert(seq![j].drop_last() =~= Seq::<Seq<char>>::empty());
                assert(seq![j].last() == j);
                assert(lines_tokens(Seq::<Seq<char>>::empty()) =~= Seq::<
                    (Option<HalType>, Seq<char>),
                >::empty());
                assert(lines_tokens(seq![j]) =~= line_tokens(j));
            }
            lemma_trim_plain(j);
            assert(ids.drop_last().push(ids.last()) =~= ids);
            assert(words(j) == ids);
            assert(lines_tokens(ids) == tokens_of(ids)) by {
                lemma_tokens_of_lines(ids);
            }
        }
    }
}

/// Lines of one plain token each give the tokens' entries.
proof fn lemma_tokens_of_lines(ids: Seq<Seq<char>>)
    requires
        forall|k: int| 0 <= k < ids.len() ==> (#[trigger] ids[k]).len() > 0 && no_ws(ids[k])
            && !is_ws(ids[k][0]) && !is_ws(ids[k].last()) && ids[k][0] != '#',
    ensures
        lines_tokens(ids) == tokens_of(ids),
    decreases ids.len(),
{
    if ids.len() > 0 {
        let d = ids.drop_last();
        assert forall|k: int| 0 <= k < d.len() implies (#[trigger] d[k]).len() > 0 && no_ws(d[k])
            && !is_ws(d[k][0]) && !is_ws(d[k].last()) && d[k][0] != '#' by {
            assert(d[k] == ids[k]);
        }
        lemma_tokens_of_lines(d);
        let l = ids.last();
        assert(ids[ids.len() - 1] == l);
        lemma_trim_plain(l);
        lemma_words_single(l);
        assert(tokens_of(seq![l]) =~= seq![parse_token(l)]);
        assert(tokens_of(ids) =~= tokens_of(d).push(parse_token(l)));
    }
}

} // verus!
