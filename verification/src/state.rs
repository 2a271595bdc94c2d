//! Application state that is plain data, and the small text rules of the
//! user interface: value alignment, editing the input line, and lexical path
//! normalization for the file dialog.

use vstd::prelude::*;
use crate::keys::{Key, KeyCode};
use crate::text::{
    chars_of, push_char, push_chars, spans, spans_ok, split_bounds, split_on, split_scan, string_of,
    string_of_range,
};

verus! {

broadcast use vstd::string::group_string_axioms;

/// Command-line options.
pub struct Cli {
    pub fformat: Option<String>,
    pub iformat: Option<String>,
    pub noprefs: bool,
    pub interval: Option<u64>,
    pub watchfile: Option<String>,
}

/// The tabs of the right-hand pane.
#[derive(Clone, Copy, PartialEq, Eq, Debug, Structural)]
pub enum Tab {
    Show,
    Watch,
}

/// Where keys go.
#[derive(Clone, Copy, PartialEq, Eq, Debug, Structural)]
pub enum Focus {
    Tree,
    Filter,
    ShowText,
    Command,
    Watch,
    Settings,
}

/// What confirming the input prompt does.
#[derive(Debug)]
pub enum InputAction {
    SetValue(usize),
    AddWatch,
    LoadWatchFile,
    SaveWatchFile(bool),
    SetSetting(usize),
}

/// The kind of input prompt.
#[derive(Debug, Clone, Copy, PartialEq, Eq, Structural)]
pub enum InputKind {
    Text,
    BitPick,
    FileDialog,
}

/// A value padded so that positive values line up with negative ones: a
/// space stands in for the sign unless the text begins with `-`, `+` or a
/// space.
pub open spec fn sign_padded(s: Seq<char>) -> Seq<char> {
    if s.len() > 0 && (s[0] == '-' || s[0] == '+' || s[0] == ' ') {
        s
    } else {
        seq![' '] + s
    }
}

/// Pad a numeric string so positive values occupy the same width as negative
/// ones: a space stands in for the `-` sign. Custom formats that already
/// produce their own sign or width (leading space / `+`) are left untouched.
pub fn sign_pad(s: &str) -> (r: String)
    ensures
        r@ == sign_padded(s@),
{
    let v = chars_of(s);
    let mut r = String::new();
    if !(v.len() > 0 && (v[0] == '-' || v[0] == '+' || v[0] == ' ')) {
        push_char(&mut r, ' ');
    }
    push_chars(&mut r, &v);
    r
}

/// A value and its negation take the same width once padded: the space
/// that stands in for the sign of a non-negative value is as wide as `-`.
pub proof fn lemma_sign_pad_aligned(s: Seq<char>)
    requires
        !(s.len() > 0 && (s[0] == '-' || s[0] == '+' || s[0] == ' ')),
    ensures
        sign_padded(s).len() == sign_padded(seq!['-'] + s).len(),
        sign_padded(s) == seq![' '] + s,
{
    assert((seq!['-'] + s)[0] == '-');
}

/// Removes the character at position `idx`, if there is one.
pub fn remove_char_at(s: &mut String, idx: usize)
    ensures
        final(s)@ == (if idx < old(s)@.len() {
            old(s)@.remove(idx as int)
        } else {
            old(s)@
        }),
{
    let v = chars_of(s.as_str());
    if idx < v.len() {
        let mut w: Vec<char> = Vec::new();
        let mut i: usize = 0;
        while i < v.len()
            invariant
                i <= v@.len(),
                idx < v@.len(),
                w@ == (if i <= idx {
                    v@.take(i as int)
                } else {
                    v@.remove(idx as int).take(i - 1)
                }),
            decreases v@.len() - i,
        {
            if i != idx {
                w.push(v[i]);
            }
            proof {
                if i < idx {
                    assert(v@.take(i + 1) =~= v@.take(i as int).push(v@[i as int]));
                } else if i == idx {
                    assert(v@.take(i as int) =~= v@.remove(idx as int).take(i as int));
                } else {
                    assert(v@.remove(idx as int).take(i as int) =~= v@.remove(idx as int).take(
                        i - 1,
                    ).push(v@[i as int]));
                }
            }
            i = i + 1;
        }
        assert(v@.remove(idx as int).take(v@.len() - 1) =~= v@.remove(idx as int));
        *s = string_of(&w);
    }
}

/// The components of a slash-separated path that name something: empty
/// components and `.` are dropped.
pub open spec fn path_parts(pieces: Seq<Seq<char>>) -> Seq<Seq<char>>
    decreases pieces.len(),
{
    if pieces.len() == 0 {
        seq![]
    } else {
        let c = pieces.last();
        if c.len() == 0 || c == "."@ {
            path_parts(pieces.drop_last())
        } else {
            path_parts(pieces.drop_last()).push(c)
        }
    }
}

/// The components left after each `..` removes the one before it (a `..`
/// with nothing before it is dropped).
pub open spec fn resolved(parts: Seq<Seq<char>>) -> Seq<Seq<char>>
    decreases parts.len(),
{
    if parts.len() == 0 {
        seq![]
    } else {
        let st = resolved(parts.drop_last());
        if parts.last() == ".."@ {
            if st.len() > 0 {
                st.drop_last()
            } else {
                st
            }
        } else {
            st.push(parts.last())
        }
    }
}

/// Components joined by `/`.
pub open spec fn slash_joined(parts: Seq<Seq<char>>) -> Seq<char>
    decreases parts.len(),
{
    if parts.len() == 0 {
        seq![]
    } else if parts.len() == 1 {
        parts[0]
    } else {
        slash_joined(parts.drop_last()) + seq!['/'] + parts.last()
    }
}

/// The lexically normalized form of a path: `.` and empty components
/// dropped, `..` resolved against what precedes it, the root kept; an empty
/// relative result is `.`.
pub open spec fn normalized(p: Seq<char>) -> Seq<char> {
    let body = slash_joined(resolved(path_parts(split_on(p, '/'))));
    if p.len() > 0 && p[0] == '/' {
        seq!['/'] + body
    } else if body.len() == 0 {
        seq!['.']
    } else {
        body
    }
}

/// Lexically resolve `.` / `..` components so a navigated directory path
/// doesn't accumulate `..` (e.g. `/a/b/..`). Never touches the filesystem.
pub fn norm_path(p: &str) -> (r: String)
    ensures
        r@ == normalized(p@),
        p@.len() > 0 && p@[0] == '/' ==> r@.len() > 0 && r@[0] == '/',
        r@ == "."@ || forall|k: int|
            0 <= k < split_on(r@, '/').len() ==> {
                let c = #[trigger] split_on(r@, '/')[k];
                c != "."@ && c != ".."@
            },
        normalized(r@) == r@,
{
    proof {
        lemma_normalized_clean(p@);
        lemma_normalized_idempotent(p@);
    }
    let v = chars_of(p);
    assert(v@.subrange(0, v@.len() as int) =~= v@);
    let pieces = split_bounds(&v, 0, v.len(), '/');
    let dot = chars_of(".");
    let dotdot = chars_of("..");
    let mut stack: Vec<(usize, usize)> = Vec::new();
    let mut k: usize = 0;
    assert(spans(v@, pieces@).take(0) =~= seq![]);
    while k < pieces.len()
        invariant
            k <= pieces@.len(),
            spans_ok(v@, pieces@),
            spans(v@, pieces@) == split_on(p@, '/'),
            dot@ == "."@,
            dotdot@ == ".."@,
            spans_ok(v@, stack@),
            spans(v@, stack@) == resolved(path_parts(spans(v@, pieces@).take(k as int))),
        decreases pieces@.len() - k,
    {
        let (a, b) = pieces[k];
        assert(pieces@[k as int].0 <= pieces@[k as int].1 <= v@.len());
        let ghost c = v@.subrange(a as int, b as int);
        let ghost pre = spans(v@, pieces@).take(k as int);
        assert(spans(v@, pieces@).take(k + 1).drop_last() =~= pre);
        assert(spans(v@, pieces@).take(k + 1).last() == c);
        let ghost nxt = spans(v@, pieces@).take(k + 1);
        assert(nxt.drop_last() == pre && nxt.last() == c);
        if a == b || crate::text::range_eq(&v, a, b, &dot) {
            assert(path_parts(nxt) == path_parts(pre));
        } else if crate::text::range_eq(&v, a, b, &dotdot) {
            proof {
                reveal_strlit(".");
                reveal_strlit("..");
                assert(c.len() != 0 && c != "."@);
                assert(path_parts(nxt) == path_parts(pre).push(c));
                assert(path_parts(nxt).drop_last() =~= path_parts(pre));
                assert(path_parts(nxt).last() == ".."@);
            }
            if stack.len() > 0 {
                let ghost prev = stack@;
                stack.pop();
                assert(stack@ =~= prev.drop_last());
                assert(spans(v@, stack@) =~= spans(v@, prev).drop_last());
            }
        } else {
            stack.push((a, b));
            assert(spans(v@, stack@) =~= spans(v@, stack@.drop_last()).push(c));
            assert(path_parts(nxt) == path_parts(pre).push(c));
            assert(path_parts(nxt).drop_last() =~= path_parts(pre));
            assert(path_parts(nxt).last() == c);
        }
        k = k + 1;
    }
    assert(spans(v@, pieces@).take(pieces@.len() as int) =~= spans(v@, pieces@));
    let mut out: Vec<char> = Vec::new();
    let rooted = v.len() > 0 && v[0] == '/';
    if rooted {
        out.push('/');
    }
    let mut j: usize = 0;
    while j < stack.len()
        invariant
            j <= stack@.len(),
            spans_ok(v@, stack@),
            out@ == (if rooted {
                seq!['/']
            } else {
                seq![]
            }) + slash_joined(spans(v@, stack@).take(j as int)),
        decreases stack@.len() - j,
    {
        let (a, b) = stack[j];
        assert(stack@[j as int].0 <= stack@[j as int].1 <= v@.len());
        if j > 0 {
            out.push('/');
        }
        let mut t = a;
        while t < b
            invariant
                a <= t <= b <= v@.len(),
                out@ == (if rooted {
                    seq!['/']
                } else {
                    seq![]
                }) + slash_joined(spans(v@, stack@).take(j as int)) + (if j > 0 {
                    seq!['/']
                } else {
                    seq![]
                }) + v@.subrange(a as int, t as int),
            decreases b - t,
        {
            out.push(v[t]);
            t = t + 1;
        }
        assert(spans(v@, stack@).take(j + 1).drop_last() =~= spans(v@, stack@).take(j as int));
        assert(out@ =~= (if rooted {
            seq!['/']
        } else {
            seq![]
        }) + slash_joined(spans(v@, stack@).take(j + 1)));
        j = j + 1;
    }
    assert(spans(v@, stack@).take(stack@.len() as int) =~= spans(v@, stack@));
    if !rooted && out.len() == 0 {
        out.push('.');
    }
    assert(out@ =~= normalized(p@));
    string_of(&out)
}

/// A component that survives normalization: not empty, not `.` or `..`,
/// and free of `/`.
pub open spec fn plain_part(c: Seq<char>) -> bool {
    c.len() > 0 && c != "."@ && c != ".."@ && !c.contains('/')
}

/// Every piece that splitting at `c` gives is free of `c`.
proof fn lemma_split_scan_free(s: Seq<char>, c: char)
    ensures
        forall|k: int|
            0 <= k < split_scan(s, c).0.len() ==> !(#[trigger] split_scan(s, c).0[k]).contains(c),
        !split_scan(s, c).1.contains(c),
    decreases s.len(),
{
    if s.len() > 0 {
        lemma_split_scan_free(s.drop_last(), c);
        let (done, cur) = split_scan(s.drop_last(), c);
        if s.last() != c {
            assert forall|i: int| 0 <= i < cur.push(s.last()).len() implies cur.push(s.last())[i]
                != c by {
                if i < cur.len() {
                    assert(cur.push(s.last())[i] == cur[i]);
                }
            }
        } else {
            assert forall|k: int| 0 <= k < done.push(cur).len() implies !(
            #[trigger] done.push(cur)[k]).contains(c) by {
                if k < done.len() {
                    assert(done.push(cur)[k] == done[k]);
                }
            }
        }
    }
}

/// Reading a piece free of `c` extends the piece in progress.
proof fn lemma_split_scan_append(a: Seq<char>, w: Seq<char>, c: char)
    requires
        !w.contains(c),
    ensures
        split_scan(a + w, c) == (split_scan(a, c).0, split_scan(a, c).1 + w),
    decreases w.len(),
{
    if w.len() == 0 {
        assert(a + w =~= a);
        assert(split_scan(a, c).1 + w =~= split_scan(a, c).1);
    } else {
        assert(!w.drop_last().contains(c)) by {
            if w.drop_last().contains(c) {
                let k = choose|k: int| 0 <= k < w.drop_last().len() && w.drop_last()[k] == c;
                assert(w[k] == c);
            }
        }
        lemma_split_scan_append(a, w.drop_last(), c);
        assert((a + w).drop_last() =~= a + w.drop_last());
        assert((a + w).last() == w.last());
        assert(w.last() != c) by {
            assert(w[w.len() - 1] == w.last());
        }
        assert((split_scan(a, c).1 + w.drop_last()).push(w.last()) =~= split_scan(a, c).1 + w);
    }
}

/// Components free of `/`, joined by `/` and split again, come back.
proof fn lemma_split_joined(parts: Seq<Seq<char>>)
    requires
        parts.len() >= 1,
        forall|k: int| 0 <= k < parts.len() ==> !(#[trigger] parts[k]).contains('/'),
    ensures
        split_on(slash_joined(parts), '/') == parts,
    decreases parts.len(),
{
    if parts.len() == 1 {
        lemma_split_scan_append(seq![], parts[0], '/');
        assert(Seq::<char>::empty() + parts[0] =~= parts[0]);
        assert(Seq::<Seq<char>>::empty().push(parts[0]) =~= parts);
    } else {
        let init = parts.drop_last();
        let last = parts.last();
        assert forall|k: int| 0 <= k < init.len() implies !(#[trigger] init[k]).contains('/') by {
            assert(init[k] == parts[k]);
        }
        lemma_split_joined(init);
        let x = slash_joined(init) + seq!['/'];
        assert(x.drop_last() =~= slash_joined(init));
        assert(x.last() == '/');
        assert(split_scan(x, '/') == (init, Seq::<char>::empty()));
        assert(!last.contains('/')) by {
            assert(parts[parts.len() - 1] == last);
        }
        lemma_split_scan_append(x, last, '/');
        assert(Seq::<char>::empty() + last =~= last);
        assert(slash_joined(parts) == x + last);
        assert(init.push(last) =~= parts);
    }
}

/// The components that `path_parts` keeps are non-empty and not `.`, and
/// free of `/` when the pieces are.
proof fn lemma_path_parts_kept(x: Seq<Seq<char>>)
    requires
        forall|k: int| 0 <= k < x.len() ==> !(#[trigger] x[k]).contains('/'),
    ensures
        forall|k: int|
            0 <= k < path_parts(x).len() ==> {
                let c = #[trigger] path_parts(x)[k];
                c.len() > 0 && c != "."@ && !c.contains('/')
            },
    decreases x.len(),
{
    if x.len() > 0 {
        assert forall|k: int| 0 <= k < x.drop_last().len() implies !(
        #[trigger] x.drop_last()[k]).contains('/') by {
            assert(x.drop_last()[k] == x[k]);
        }
        lemma_path_parts_kept(x.drop_last());
        assert(x[x.len() - 1] == x.last());
        let pp = path_parts(x.drop_last());
        let c = x.last();
        if !(c.len() == 0 || c == "."@) {
            assert forall|k: int| 0 <= k < pp.push(c).len() implies {
                let d = #[trigger] pp.push(c)[k];
                d.len() > 0 && d != "."@ && !d.contains('/')
            } by {
                if k < pp.len() {
                    assert(pp.push(c)[k] == pp[k]);
                }
            }
        }
    }
}

/// What `resolved` keeps of such components is plain.
proof fn lemma_resolved_plain(ps: Seq<Seq<char>>)
    requires
        forall|k: int|
            0 <= k < ps.len() ==> {
                let c = #[trigger] ps[k];
                c.len() > 0 && c != "."@ && !c.contains('/')
            },
    ensures
        forall|k: int| 0 <= k < resolved(ps).len() ==> plain_part(#[trigger] resolved(ps)[k]),
    decreases ps.len(),
{
    if ps.len() > 0 {
        assert forall|k: int| 0 <= k < ps.drop_last().len() implies {
            let c = #[trigger] ps.drop_last()[k];
            c.len() > 0 && c != "."@ && !c.contains('/')
        } by {
            assert(ps.drop_last()[k] == ps[k]);
        }
        lemma_resolved_plain(ps.drop_last());
        let st = resolved(ps.drop_last());
        assert(ps[ps.len() - 1] == ps.last());
        if ps.last() == ".."@ {
            if st.len() > 0 {
                assert forall|k: int| 0 <= k < st.drop_last().len() implies plain_part(
                    #[trigger] st.drop_last()[k],
                ) by {
                    assert(st.drop_last()[k] == st[k]);
                }
            }
        } else {
            assert forall|k: int| 0 <= k < st.push(ps.last()).len() implies plain_part(
                #[trigger] st.push(ps.last())[k],
            ) by {
                if k < st.len() {
                    assert(st.push(ps.last())[k] == st[k]);
                }
            }
        }
    }
}

/// Plain components pass `path_parts` and `resolved` unchanged.
proof fn lemma_plain_kept(r: Seq<Seq<char>>)
    requires
        forall|k: int| 0 <= k < r.len() ==> plain_part(#[trigger] r[k]),
    ensures
        path_parts(r) == r,
        resolved(r) == r,
        path_parts(seq![Seq::<char>::empty()] + r) == r,
    decreases r.len(),
{
    if r.len() == 0 {
        assert(seq![Seq::<char>::empty()] + r =~= seq![Seq::<char>::empty()]);
        assert(seq![Seq::<char>::empty()].drop_last() =~= Seq::<Seq<char>>::empty());
    } else {
        assert forall|k: int| 0 <= k < r.drop_last().len() implies plain_part(
            #[trigger] r.drop_last()[k],
        ) by {
            assert(r.drop_last()[k] == r[k]);
        }
        lemma_plain_kept(r.drop_last());
        assert(plain_part(r[r.len() - 1]));
        assert(r[r.len() - 1] == r.last());
        assert(r.drop_last().push(r.last()) =~= r);
        let e = seq![Seq::<char>::empty()] + r;
        assert(e.drop_last() =~= seq![Seq::<char>::empty()] + r.drop_last());
        assert(e.last() == r.last());
    }
}

/// A rooted path: an empty first component joins as a leading `/`.
proof fn lemma_root_joined(r: Seq<Seq<char>>)
    requires
        r.len() >= 1,
    ensures
        slash_joined(seq![Seq::<char>::empty()] + r) == seq!['/'] + slash_joined(r),
    decreases r.len(),
{
    let e = seq![Seq::<char>::empty()] + r;
    assert(e.drop_last() =~= seq![Seq::<char>::empty()] + r.drop_last());
    assert(e.last() == r.last());
    if r.len() == 1 {
        assert(e.drop_last() =~= seq![Seq::<char>::empty()]);
        assert(slash_joined(e.drop_last()) == Seq::<char>::empty());
        assert(Seq::<char>::empty() + seq!['/'] + r.last() =~= seq!['/'] + r[0]);
    } else {
        lemma_root_joined(r.drop_last());
        assert(seq!['/'] + slash_joined(r.drop_last()) + seq!['/'] + r.last() =~= seq!['/'] + (
        slash_joined(r.drop_last()) + seq!['/'] + r.last()));
    }
}

/// Joining non-empty components starts with the first one's first
/// character.
proof fn lemma_joined_head(r: Seq<Seq<char>>)
    requires
        r.len() >= 1,
        r[0].len() > 0,
    ensures
        slash_joined(r).len() > 0,
        slash_joined(r)[0] == r[0][0],
    decreases r.len(),
{
    if r.len() > 1 {
        assert(r.drop_last()[0] == r[0]);
        lemma_joined_head(r.drop_last());
        let a = slash_joined(r.drop_last());
        assert((a + seq!['/'] + r.last())[0] == a[0]);
    }
}

/// What a normalized path is made of: an absolute path stays absolute,
/// and unless the path is `.`, none of its `/`-separated components is `.`
/// or `..` (an absolute path's leading empty component is its root).
pub proof fn lemma_normalized_clean(p: Seq<char>)
    ensures
        p.len() > 0 && p[0] == '/' ==> normalized(p).len() > 0 && normalized(p)[0] == '/',
        normalized(p) == "."@ || forall|k: int|
            0 <= k < split_on(normalized(p), '/').len() ==> {
                let c = #[trigger] split_on(normalized(p), '/')[k];
                c != "."@ && c != ".."@
            },
{
    reveal_strlit(".");
    reveal_strlit("..");
    let s = split_on(p, '/');
    lemma_split_scan_free(p, '/');
    assert forall|k: int| 0 <= k < s.len() implies !(#[trigger] s[k]).contains('/') by {
        let (done, cur) = split_scan(p, '/');
        if k < done.len() {
            assert(s[k] == done[k]);
        } else {
            assert(s[k] == cur);
        }
    }
    lemma_path_parts_kept(s);
    let r = resolved(path_parts(s));
    lemma_resolved_plain(path_parts(s));
    let body = slash_joined(r);
    let q = normalized(p);
    if p.len() > 0 && p[0] == '/' {
        assert(q == seq!['/'] + body);
        if r.len() == 0 {
            assert(q =~= seq!['/']);
            assert(split_on(q, '/') =~= seq![Seq::<char>::empty(), Seq::<char>::empty()]) by {
                assert(q.drop_last() =~= Seq::<char>::empty());
                assert(q.last() == '/');
                assert(split_scan(q.drop_last(), '/') == (
                    Seq::<Seq<char>>::empty(),
                    Seq::<char>::empty(),
                ));
                assert(split_scan(q, '/') == (
                    seq![Seq::<char>::empty()],
                    Seq::<char>::empty(),
                ));
            }
        } else {
            let e = seq![Seq::<char>::empty()] + r;
            lemma_root_joined(r);
            assert forall|k: int| 0 <= k < e.len() implies !(#[trigger] e[k]).contains('/') by {
                if k > 0 {
                    assert(e[k] == r[k - 1]);
                    assert(plain_part(r[k - 1]));
                } else {
                    assert(e[k] =~= Seq::<char>::empty());
                }
            }
            lemma_split_joined(e);
            assert forall|k: int| 0 <= k < e.len() implies (#[trigger] e[k]) != "."@ && e[k]
                != ".."@ by {
                if k > 0 {
                    assert(e[k] == r[k - 1]);
                    assert(plain_part(r[k - 1]));
                } else {
                    assert(e[k] =~= Seq::<char>::empty());
                }
            }
        }
    } else if r.len() > 0 {
        assert(q == body);
        assert forall|k: int| 0 <= k < r.len() implies !(#[trigger] r[k]).contains('/') by {
            assert(plain_part(r[k]));
        }
        lemma_split_joined(r);
        assert forall|k: int| 0 <= k < r.len() implies (#[trigger] r[k]) != "."@ && r[k] != ".."@ by {
            assert(plain_part(r[k]));
        }
    } else {
        assert(q =~= "."@);
    }
}

/// A normalized path is its own normal form: normalizing it again changes
/// nothing, so no `.` or `..` component is left to resolve.
pub proof fn lemma_normalized_idempotent(p: Seq<char>)
    ensures
        normalized(normalized(p)) == normalized(p),
{
    let s = split_on(p, '/');
    lemma_split_scan_free(p, '/');
    assert forall|k: int| 0 <= k < s.len() implies !(#[trigger] s[k]).contains('/') by {
        let (done, cur) = split_scan(p, '/');
        if k < done.len() {
            assert(s[k] == done[k]);
        } else {
            assert(s[k] == cur);
        }
    }
    lemma_path_parts_kept(s);
    let r = resolved(path_parts(s));
    lemma_resolved_plain(path_parts(s));
    lemma_plain_kept(r);
    let body = slash_joined(r);
    let q = normalized(p);
    if p.len() > 0 && p[0] == '/' {
        assert(q == seq!['/'] + body);
        if r.len() == 0 {
            assert(q =~= seq!['/']);
            assert(split_on(q, '/') =~= seq![Seq::<char>::empty(), Seq::<char>::empty()]) by {
                assert(q.drop_last() =~= Seq::<char>::empty());
                assert(q.last() == '/');
                assert(split_scan(q.drop_last(), '/') == (
                    Seq::<Seq<char>>::empty(),
                    Seq::<char>::empty(),
                ));
                assert(split_scan(q, '/') == (
                    seq![Seq::<char>::empty()],
                    Seq::<char>::empty(),
                ));
            }
            let two = seq![Seq::<char>::empty(), Seq::<char>::empty()];
            assert(two.drop_last() =~= seq![Seq::<char>::empty()]);
            assert(seq![Seq::<char>::empty()].drop_last() =~= Seq::<Seq<char>>::empty());
            assert(path_parts(two) == Seq::<Seq<char>>::empty());
        } else {
            let e = seq![Seq::<char>::empty()] + r;
            lemma_root_joined(r);
            assert forall|k: int| 0 <= k < e.len() implies !(#[trigger] e[k]).contains('/') by {
                if k > 0 {
                    assert(e[k] == r[k - 1]);
                    assert(plain_part(r[k - 1]));
                } else {
                    assert(e[k] =~= Seq::<char>::empty());
                }
            }
            lemma_split_joined(e);
        }
    } else {
        if r.len() == 0 {
            assert(q =~= seq!['.']);
            lemma_split_joined(seq![seq!['.']]);
            assert(slash_joined(seq![seq!['.']]) == seq!['.']);
            let one = seq![seq!['.']];
            assert(one.drop_last() =~= Seq::<Seq<char>>::empty());
            reveal_strlit(".");
            assert(one.last() =~= "."@);
            assert(path_parts(one) == Seq::<Seq<char>>::empty());
        } else {
            assert(plain_part(r[0]));
            lemma_joined_head(r);
            assert(q == body);
            assert forall|k: int| 0 <= k < r.len() implies !(#[trigger] r[k]).contains('/') by {
                assert(plain_part(r[k]));
            }
            lemma_split_joined(r);
            assert(body[0] != '/') by {
                assert(r[0].contains(r[0][0]));
            }
        }
    }
}

/// The number of characters of `s`.
pub fn char_count(s: &str) -> (n: usize)
    ensures
        n == s@.len(),
{
    chars_of(s).len()
}

/// `s` with `c` inserted before position `i` (at the end when `i` is past
/// it).
pub open spec fn inserted_at(s: Seq<char>, i: int, c: char) -> Seq<char> {
    if i < s.len() {
        s.take(i) + seq![c] + s.skip(i)
    } else {
        s.push(c)
    }
}

/// `s` without the character at position `i`, if there is one.
pub open spec fn removed_at(s: Seq<char>, i: int) -> Seq<char> {
    if 0 <= i < s.len() {
        s.remove(i)
    } else {
        s
    }
}

/// Inserts `c` before the character at position `idx` (at the end when
/// there is none).
pub fn insert_char_at(s: &mut String, idx: usize, c: char)
    ensures
        final(s)@ == inserted_at(old(s)@, idx as int, c),
{
    let v = chars_of(s.as_str());
    if idx < v.len() {
        let mut r = string_of_range(&v, 0, idx);
        push_char(&mut r, c);
        let t = string_of_range(&v, idx, v.len());
        push_chars(&mut r, &chars_of(t.as_str()));
        assert(v@.subrange(0, idx as int) =~= v@.take(idx as int));
        assert(v@.subrange(idx as int, v@.len() as int) =~= v@.skip(idx as int));
        *s = r;
    } else {
        push_char(s, c);
    }
}

/// `s` without its last character (unchanged when empty).
pub open spec fn popped(s: Seq<char>) -> Seq<char> {
    if s.len() > 0 {
        s.drop_last()
    } else {
        s
    }
}

/// Removes the last character of `s`, if any.
pub fn pop_char(s: &mut String)
    ensures
        final(s)@ == popped(old(s)@),
{
    let v = chars_of(s.as_str());
    if v.len() > 0 {
        *s = string_of_range(&v, 0, v.len() - 1);
        assert(v@.subrange(0, v@.len() - 1) =~= v@.drop_last());
    }
}

/// What a key does to an input line and its cursor: moving, deleting
/// before or at the cursor, clearing (Control-U) and typing.
pub open spec fn line_edit(s: Seq<char>, cur: int, k: Key) -> (Seq<char>, int) {
    match k.code {
        KeyCode::Left => (s, if cur > 0 {
            cur - 1
        } else {
            0
        }),
        KeyCode::Right => (s, if cur + 1 < s.len() {
            cur + 1
        } else {
            s.len() as int
        }),
        KeyCode::Home => (s, 0),
        KeyCode::End => (s, s.len() as int),
        KeyCode::Backspace => if cur > 0 {
            (removed_at(s, cur - 1), cur - 1)
        } else {
            (s, cur)
        },
        KeyCode::Delete => (removed_at(s, cur), cur),
        KeyCode::Char(c) => if c == 'u' && k.ctrl {
            (seq![], 0)
        } else {
            (inserted_at(s, cur, c), cur + 1)
        },
        _ => (s, cur),
    }
}

/// Applies a key to an input line whose cursor is within it.
pub fn edit_line(buffer: &mut String, cursor: &mut usize, k: Key)
    requires
        *old(cursor) <= old(buffer)@.len(),
        old(buffer)@.len() < usize::MAX,
    ensures
        (final(buffer)@, *final(cursor) as int) == line_edit(old(buffer)@, *old(cursor) as int, k),
        *final(cursor) <= final(buffer)@.len(),
{
    let n = char_count(buffer.as_str());
    match k.code {
        KeyCode::Left => {
            if *cursor > 0 {
                *cursor = *cursor - 1;
            }
        },
        KeyCode::Right => {
            if *cursor < n {
                *cursor = *cursor + 1;
            } else {
                *cursor = n;
            }
        },
        KeyCode::Home => {
            *cursor = 0;
        },
        KeyCode::End => {
            *cursor = n;
        },
        KeyCode::Backspace => {
            if *cursor > 0 {
                *cursor = *cursor - 1;
                remove_char_at(buffer, *cursor);
            }
        },
        KeyCode::Delete => {
            remove_char_at(buffer, *cursor);
        },
        KeyCode::Char(c) => {
            if c == 'u' && k.ctrl {
                *buffer = String::new();
                *cursor = 0;
            } else {
                insert_char_at(buffer, *cursor, c);
                *cursor = *cursor + 1;
            }
        },
        _ => {},
    }
}

/// Typing a character and then Backspace leaves the line and the cursor as
/// they were.
pub proof fn lemma_type_then_erase(s: Seq<char>, cur: int, c: char)
    requires
        0 <= cur <= s.len(),
    ensures
        ({
            let typed = line_edit(s, cur, Key { code: KeyCode::Char(c), ctrl: false });
            line_edit(typed.0, typed.1, Key { code: KeyCode::Backspace, ctrl: false }) == (s, cur)
        }),
{
    let t = inserted_at(s, cur, c);
    if cur < s.len() {
        assert(t.remove(cur) =~= s);
    } else {
        assert(t =~= s.push(c));
        assert(t.remove(cur) =~= s);
    }
}

/// What a key does to the choice of a bit prompt: arrows and Tab flip it,
/// `t`, `T`, `1` set it and `f`, `F`, `0` clear it.
pub open spec fn bit_pick_of(v: bool, k: Key) -> bool {
    match k.code {
        KeyCode::Left | KeyCode::Right | KeyCode::Up | KeyCode::Down | KeyCode::Tab
        | KeyCode::BackTab => !v,
        KeyCode::Char(c) => if c == 't' || c == 'T' || c == '1' {
            true
        } else if c == 'f' || c == 'F' || c == '0' {
            false
        } else {
            v
        },
        _ => v,
    }
}

/// The choice of a bit prompt after a key.
pub fn pick_bit(v: bool, k: Key) -> (r: bool)
    ensures
        r == bit_pick_of(v, k),
{
    match k.code {
        KeyCode::Left | KeyCode::Right | KeyCode::Up | KeyCode::Down | KeyCode::Tab
        | KeyCode::BackTab => !v,
        KeyCode::Char(c) => if c == 't' || c == 'T' || c == '1' {
            true
        } else if c == 'f' || c == 'F' || c == '0' {
            false
        } else {
            v
        },
        _ => v,
    }
}

} // verus!
