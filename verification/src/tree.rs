//! HAL tree model: six roots (Components, Pins, Parameters, Signals,
//! Functions, Threads). Pin/param/signal names nest on every '.'.

use vstd::prelude::*;
use crate::hal::{HalType, kw_of, title_of, is_watchable, all_kinds};
use crate::text::{
    owned,
    chars_of, range_eq, find_char, rfind_char, first_pos, last_pos, string_of, string_of_range,
    spans, spans_ok, split_bounds, split_on, views, push_str,
};
use vstd::string::StrSliceExecFns;

verus! {

broadcast use {vstd::std_specs::vec::group_vec_axioms, vstd::seq::group_seq_axioms};

/// A node of the HAL tree.
#[derive(Debug)]
pub struct TreeNode {
    /// Display segment (last path component).
    pub name: String,
    /// Full node id, e.g. "pin", "pin+axis", "pin+axis.0.pos".
    pub path: String,
    pub kind: HalType,
    pub leaf: bool,
    pub children: Vec<TreeNode>,
    pub expanded: bool,
}

impl TreeNode {
    /// A node is a branch when it has children.
    pub fn is_branch(&self) -> (r: bool)
        ensures
            r == (self.children@.len() > 0),
    {
        !self.children.is_empty()
    }
}

/// One row of the visible tree: path, depth and whether it is a branch.
pub type Row = (Seq<char>, int, bool);

/// The visible rows of a forest whose nodes sit at depth `d`: each node,
/// then, if it is expanded, the rows of its children one level deeper.
pub open spec fn rows(nodes: Seq<TreeNode>, d: int) -> Seq<Row>
    decreases nodes,
{
    if nodes.len() == 0 {
        seq![]
    } else {
        let n = nodes.last();
        rows(nodes.drop_last(), d) + seq![(n.path@, d, n.children@.len() > 0)] + (if n.expanded {
            rows(n.children@, d + 1)
        } else {
            seq![]
        })
    }
}

/// The paths of the visible rows of a forest.
pub open spec fn vis_paths(nodes: Seq<TreeNode>) -> Seq<Seq<char>>
    decreases nodes,
{
    if nodes.len() == 0 {
        seq![]
    } else {
        let n = nodes.last();
        vis_paths(nodes.drop_last()) + seq![n.path@] + (if n.expanded {
            vis_paths(n.children@)
        } else {
            seq![]
        })
    }
}

/// How many levels below `nodes` expanded nodes reach (an expanded node
/// counts as one level even without children).
pub open spec fn open_height(nodes: Seq<TreeNode>) -> nat
    decreases nodes,
{
    if nodes.len() == 0 {
        0
    } else {
        let n = nodes.last();
        let h = if n.expanded {
            1 + open_height(n.children@)
        } else {
            0nat
        };
        if open_height(nodes.drop_last()) >= h {
            open_height(nodes.drop_last())
        } else {
            h
        }
    }
}

/// The views of exec rows.
pub open spec fn row_views(v: Seq<(String, usize, bool)>) -> Seq<Row> {
    v.map_values(|r: (String, usize, bool)| (r.0@, r.1 as int, r.2))
}

/// The path of every row is the corresponding visible path.
pub proof fn lemma_rows_paths(nodes: Seq<TreeNode>, d: int)
    ensures
        rows(nodes, d).len() == vis_paths(nodes).len(),
        forall|i: int| 0 <= i < vis_paths(nodes).len() ==> #[trigger] rows(nodes, d)[i].0
            == vis_paths(nodes)[i],
    decreases nodes,
{
    if nodes.len() > 0 {
        let n = nodes.last();
        lemma_rows_paths(nodes.drop_last(), d);
        if n.expanded {
            lemma_rows_paths(n.children@, d + 1);
        }
    }
}

fn walk(nodes: &[TreeNode], depth: usize, out: &mut Vec<(String, usize, bool)>)
    requires
        depth + open_height(nodes@) <= usize::MAX,
    ensures
        row_views(final(out)@) == row_views(old(out)@) + rows(nodes@, depth as int),
    decreases nodes@,
{
    let mut i: usize = 0;
    assert(nodes@.take(0) =~= seq![]);
    while i < nodes.len()
        invariant
            i <= nodes@.len(),
            depth + open_height(nodes@) <= usize::MAX,
            row_views(out@) == row_views(old(out)@) + rows(nodes@.take(i as int), depth as int),
        decreases nodes@.len() - i,
    {
        let n = &nodes[i];
        proof {
            lemma_open_height_prefix(nodes@, i as int + 1);
            assert(nodes@.take(i + 1).drop_last() =~= nodes@.take(i as int));
        }
        out.push((n.path.clone(), depth, n.is_branch()));
        assert(row_views(out@) =~= row_views(old(out)@) + rows(nodes@.take(i as int), depth as int)
            + seq![(n.path@, depth as int, n.children@.len() > 0)]);
        if n.expanded {
            walk(n.children.as_slice(), depth + 1, out);
        }
        assert(row_views(out@) =~= row_views(old(out)@) + rows(nodes@.take(i + 1), depth as int));
        i = i + 1;
    }
    assert(nodes@.take(nodes@.len() as int) =~= nodes@);
}

/// A prefix of a forest reaches no deeper than the forest, and an expanded
/// node of it reaches one level deeper than its children.
proof fn lemma_open_height_prefix(nodes: Seq<TreeNode>, k: int)
    requires
        0 < k <= nodes.len(),
    ensures
        open_height(nodes.take(k)) <= open_height(nodes),
        nodes[k - 1].expanded ==> 1 + open_height(nodes[k - 1].children@) <= open_height(nodes),
    decreases nodes.len(),
{
    if k == nodes.len() {
        assert(nodes.take(k) =~= nodes);
    } else {
        lemma_open_height_prefix(nodes.drop_last(), k);
        assert(nodes.drop_last().take(k) =~= nodes.take(k));
    }
}

fn height_of(nodes: &[TreeNode]) -> (r: Option<usize>)
    ensures
        match r {
            Some(h) => h == open_height(nodes@),
            None => open_height(nodes@) > usize::MAX,
        },
    decreases nodes@,
{
    let mut acc: usize = 0;
    let mut i: usize = 0;
    assert(nodes@.take(0) =~= Seq::<TreeNode>::empty());
    while i < nodes.len()
        invariant
            i <= nodes@.len(),
            acc == open_height(nodes@.take(i as int)),
        decreases nodes@.len() - i,
    {
        let n = &nodes[i];
        proof {
            lemma_open_height_prefix(nodes@, i + 1);
            assert(nodes@.take(i + 1).drop_last() =~= nodes@.take(i as int));
            assert(nodes@.take(i + 1).last() == nodes@[i as int]);
        }
        let h = if n.expanded {
            match height_of(n.children.as_slice()) {
                Some(c) => {
                    if c == usize::MAX {
                        return None;
                    }
                    c + 1
                },
                None => {
                    return None;
                },
            }
        } else {
            0
        };
        if h > acc {
            acc = h;
        }
        i = i + 1;
    }
    assert(nodes@.take(nodes@.len() as int) =~= nodes@);
    Some(acc)
}

/// Depth-first flatten of visible (expanded) nodes.
/// Returns (path, depth, is_branch) in render order.
pub fn visible(roots: &[TreeNode]) -> (r: Vec<(String, usize, bool)>)
    requires
        open_height(roots@) <= usize::MAX,
    ensures
        row_views(r@) == rows(roots@, 0),
{
    let mut out = Vec::new();
    walk(roots, 0, &mut out);
    assert(row_views(out@) =~= rows(roots@, 0));
    out
}


/// The first node with path `p` in a depth-first, pre-order search.
pub open spec fn find(nodes: Seq<TreeNode>, p: Seq<char>) -> Option<TreeNode>
    decreases nodes,
{
    if nodes.len() == 0 {
        None
    } else {
        match find(nodes.drop_last(), p) {
            Some(x) => Some(x),
            None => {
                let n = nodes.last();
                if n.path@ == p {
                    Some(n)
                } else {
                    find(n.children@, p)
                }
            },
        }
    }
}

/// Whether the path of `n` is `p`.
fn path_is(n: &TreeNode, p: &Vec<char>) -> (r: bool)
    ensures
        r == (n.path@ == p@),
{
    let v = chars_of(n.path.as_str());
    assert(v@.subrange(0, v@.len() as int) =~= v@);
    range_eq(&v, 0, v.len(), p)
}

fn find_in<'a>(nodes: &'a [TreeNode], p: &Vec<char>) -> (r: Option<&'a TreeNode>)
    ensures
        match r {
            Some(x) => find(nodes@, p@) == Some(*x),
            None => find(nodes@, p@) is None,
        },
    decreases nodes@,
{
    let mut i: usize = 0;
    assert(nodes@.take(0) =~= seq![]);
    while i < nodes.len()
        invariant
            i <= nodes@.len(),
            find(nodes@.take(i as int), p@) is None,
        decreases nodes@.len() - i,
    {
        let n = &nodes[i];
        assert(nodes@.take(i + 1).drop_last() =~= nodes@.take(i as int));
        if path_is(n, p) {
            proof {
                lemma_find_prefix(nodes@, i as int + 1, p@);
            }
            return Some(n);
        }
        match find_in(n.children.as_slice(), p) {
            Some(x) => {
                proof {
                    lemma_find_prefix(nodes@, i as int + 1, p@);
                }
                return Some(x);
            },
            None => {},
        }
        i = i + 1;
    }
    assert(nodes@.take(nodes@.len() as int) =~= nodes@);
    None
}

/// A hit in a prefix of a forest is the forest's hit.
proof fn lemma_find_prefix(nodes: Seq<TreeNode>, k: int, p: Seq<char>)
    requires
        0 <= k <= nodes.len(),
        find(nodes.take(k), p) is Some,
    ensures
        find(nodes, p) == find(nodes.take(k), p),
    decreases nodes.len(),
{
    if k < nodes.len() {
        assert(nodes.drop_last().take(k) =~= nodes.take(k));
        lemma_find_prefix(nodes.drop_last(), k, p);
    } else {
        assert(nodes.take(k) =~= nodes);
    }
}

/// The first node, in depth-first pre-order, whose path is `path`.
pub fn find_node<'a>(nodes: &'a [TreeNode], path: &str) -> (r: Option<&'a TreeNode>)
    ensures
        match r {
            Some(x) => find(nodes@, path@) == Some(*x),
            None => find(nodes@, path@) is None,
        },
{
    let p = chars_of(path);
    find_in(nodes, &p)
}

fn visible_has(nodes: &[TreeNode], p: &Vec<char>) -> (r: bool)
    ensures
        r == vis_paths(nodes@).contains(p@),
    decreases nodes@,
{
    let mut i: usize = 0;
    assert(nodes@.take(0) =~= seq![]);
    while i < nodes.len()
        invariant
            i <= nodes@.len(),
            !vis_paths(nodes@.take(i as int)).contains(p@),
        decreases nodes@.len() - i,
    {
        let n = &nodes[i];
        assert(nodes@.take(i + 1).drop_last() =~= nodes@.take(i as int));
        let ghost before = vis_paths(nodes@.take(i as int));
        let ghost after = vis_paths(nodes@.take(i + 1));
        if path_is(n, p) {
            proof {
                assert(after[before.len() as int] == p@);
                lemma_vis_prefix(nodes@, i as int + 1);
            }
            return true;
        }
        if n.expanded && visible_has(n.children.as_slice(), p) {
            proof {
                let j = choose|j: int| 0 <= j < vis_paths(n.children@).len() && vis_paths(
                    n.children@,
                )[j] == p@;
                assert(after[before.len() + 1 + j] == p@);
                lemma_vis_prefix(nodes@, i as int + 1);
            }
            return true;
        }
        proof {
            assert forall|j: int| 0 <= j < after.len() implies after[j] != p@ by {
                if j < before.len() {
                    assert(after[j] == before[j]);
                } else if j > before.len() {
                    assert(n.expanded);
                    assert(after[j] == vis_paths(n.children@)[j - before.len() - 1]);
                }
            }
        }
        i = i + 1;
    }
    assert(nodes@.take(nodes@.len() as int) =~= nodes@);
    false
}

/// The visible paths of a prefix of a forest begin its visible paths.
proof fn lemma_vis_prefix(nodes: Seq<TreeNode>, k: int)
    requires
        0 <= k <= nodes.len(),
    ensures
        vis_paths(nodes.take(k)).is_prefix_of(vis_paths(nodes)),
    decreases nodes.len(),
{
    if k < nodes.len() {
        lemma_vis_prefix(nodes.drop_last(), k);
        assert(nodes.drop_last().take(k) =~= nodes.take(k));
    } else {
        assert(nodes.take(k) =~= nodes);
    }
}

/// The tree: its roots, the selected path, the filter and its mode.
#[derive(Debug)]
pub struct HalTree {
    pub roots: Vec<TreeNode>,
    pub selected: String,
    pub filter: String,
    pub full_path: bool,
}

/// `b` is `a` with every node's `expanded` flag set to `v`.
pub open spec fn expanded_all(a: TreeNode, b: TreeNode, v: bool) -> bool
    decreases a,
{
    &&& b.name == a.name
    &&& b.path == a.path
    &&& b.kind == a.kind
    &&& b.leaf == a.leaf
    &&& b.expanded == v
    &&& b.children@.len() == a.children@.len()
    &&& forall|i: int|
        0 <= i < a.children@.len() ==> expanded_all(a.children@[i], #[trigger] b.children@[i], v)
}

/// `b` is `a` with `expanded` set to `v` on every node of kind `k`.
pub open spec fn kind_set(a: TreeNode, b: TreeNode, k: HalType, v: bool) -> bool
    decreases a,
{
    &&& b.name == a.name
    &&& b.path == a.path
    &&& b.kind == a.kind
    &&& b.leaf == a.leaf
    &&& b.expanded == (if a.kind == k {
        v
    } else {
        a.expanded
    })
    &&& b.children@.len() == a.children@.len()
    &&& forall|i: int|
        0 <= i < a.children@.len() ==> kind_set(a.children@[i], #[trigger] b.children@[i], k, v)
}

/// Forest form of [`expanded_all`].
pub open spec fn all_set(a: Seq<TreeNode>, b: Seq<TreeNode>, v: bool) -> bool {
    &&& b.len() == a.len()
    &&& forall|i: int| 0 <= i < a.len() ==> expanded_all(a[i], #[trigger] b[i], v)
}

/// Forest form of [`kind_set`].
pub open spec fn all_kind_set(a: Seq<TreeNode>, b: Seq<TreeNode>, k: HalType, v: bool) -> bool {
    &&& b.len() == a.len()
    &&& forall|i: int| 0 <= i < a.len() ==> kind_set(a[i], #[trigger] b[i], k, v)
}

fn set_all_expanded(nodes: &mut Vec<TreeNode>, value: bool)
    ensures
        all_set(old(nodes)@, final(nodes)@, value),
    decreases old(nodes)@,
{
    let ghost orig = nodes@;
    let mut i: usize = 0;
    while i < nodes.len()
        invariant
            i <= nodes@.len(),
            nodes@.len() == orig.len(),
            orig == old(nodes)@,
            forall|j: int| 0 <= j < i ==> expanded_all(orig[j], #[trigger] nodes@[j], value),
            forall|j: int| i <= j < orig.len() ==> #[trigger] nodes@[j] == orig[j],
        decreases orig.len() - i,
    {
        assert(nodes@[i as int] == orig[i as int]);
        set_all_expanded(&mut nodes[i].children, value);
        nodes[i].expanded = value;
        i = i + 1;
    }
}

fn set_kind_expanded(nodes: &mut Vec<TreeNode>, kind: HalType, value: bool)
    ensures
        all_kind_set(old(nodes)@, final(nodes)@, kind, value),
    decreases old(nodes)@,
{
    let ghost orig = nodes@;
    let mut i: usize = 0;
    while i < nodes.len()
        invariant
            i <= nodes@.len(),
            nodes@.len() == orig.len(),
            orig == old(nodes)@,
            forall|j: int| 0 <= j < i ==> kind_set(orig[j], #[trigger] nodes@[j], kind, value),
            forall|j: int| i <= j < orig.len() ==> #[trigger] nodes@[j] == orig[j],
        decreases orig.len() - i,
    {
        assert(nodes@[i as int] == orig[i as int]);
        set_kind_expanded(&mut nodes[i].children, kind, value);
        if nodes[i].kind == kind {
            nodes[i].expanded = value;
        }
        i = i + 1;
    }
}

/// The paths of the nodes of a forest, without their children.
pub open spec fn root_paths(nodes: Seq<TreeNode>) -> Seq<Seq<char>> {
    nodes.map_values(|n: TreeNode| n.path@)
}

/// Every path of a forest, each node before its children.
pub open spec fn all_paths(nodes: Seq<TreeNode>) -> Seq<Seq<char>>
    decreases nodes,
{
    if nodes.len() == 0 {
        seq![]
    } else {
        let n = nodes.last();
        all_paths(nodes.drop_last()) + seq![n.path@] + all_paths(n.children@)
    }
}

proof fn lemma_all_set_prefix(a: Seq<TreeNode>, b: Seq<TreeNode>, v: bool)
    requires
        all_set(a, b, v),
        a.len() > 0,
    ensures
        all_set(a.drop_last(), b.drop_last(), v),
        expanded_all(a.last(), b.last(), v),
        all_set(a.last().children@, b.last().children@, v),
{
    assert(expanded_all(a[a.len() - 1], b[a.len() - 1], v));
    assert forall|i: int| 0 <= i < a.drop_last().len() implies expanded_all(
        a.drop_last()[i],
        #[trigger] b.drop_last()[i],
        v,
    ) by {
        assert(expanded_all(a[i], b[i], v));
    }
}

/// After every node is collapsed, the visible rows are the roots, in order.
pub proof fn lemma_collapsed_visible(a: Seq<TreeNode>, b: Seq<TreeNode>)
    requires
        all_set(a, b, false),
    ensures
        vis_paths(b) == root_paths(a),
    decreases a.len(),
{
    if a.len() > 0 {
        lemma_all_set_prefix(a, b, false);
        lemma_collapsed_visible(a.drop_last(), b.drop_last());
        assert(root_paths(a) =~= root_paths(a.drop_last()).push(a.last().path@));
        assert(vis_paths(b) =~= vis_paths(b.drop_last()) + seq![b.last().path@]);
    } else {
        assert(b.len() == 0);
        assert(root_paths(a) =~= Seq::<Seq<char>>::empty());
    }
}

/// After every node is expanded, every node of the tree is visible, each
/// before its children.
pub proof fn lemma_expanded_visible(a: Seq<TreeNode>, b: Seq<TreeNode>)
    requires
        all_set(a, b, true),
    ensures
        vis_paths(b) == all_paths(a),
    decreases a,
{
    if a.len() > 0 {
        lemma_all_set_prefix(a, b, true);
        lemma_expanded_visible(a.drop_last(), b.drop_last());
        lemma_expanded_visible(a.last().children@, b.last().children@);
    } else {
        assert(b.len() == 0);
    }
}

impl HalTree {
    /// An empty tree.
    pub fn new() -> (r: Self)
        ensures
            r.roots@.len() == 0,
            r.selected@.len() == 0,
            r.filter@.len() == 0,
            !r.full_path,
    {
        HalTree { roots: Vec::new(), selected: String::new(), filter: String::new(), full_path: false }
    }

    /// The selected node, if the tree holds its path.
    pub fn selected_node(&self) -> (r: Option<&TreeNode>)
        ensures
            match r {
                Some(x) => find(self.roots@, self.selected@) == Some(*x),
                None => find(self.roots@, self.selected@) is None,
            },
    {
        find_node(self.roots.as_slice(), self.selected.as_str())
    }

    /// Whether `path` is one of the visible rows.
    pub fn path_exists(&self, path: &str) -> (r: bool)
        ensures
            r == vis_paths(self.roots@).contains(path@),
    {
        let p = chars_of(path);
        visible_has(self.roots.as_slice(), &p)
    }

    /// Expands every node.
    pub fn expand_all(&mut self)
        ensures
            all_set(old(self).roots@, final(self).roots@, true),
            final(self).selected == old(self).selected,
            final(self).filter == old(self).filter,
            final(self).full_path == old(self).full_path,
    {
        set_all_expanded(&mut self.roots, true);
    }

    /// Collapses every node.
    pub fn collapse_all(&mut self)
        ensures
            all_set(old(self).roots@, final(self).roots@, false),
            final(self).selected == old(self).selected,
            final(self).filter == old(self).filter,
            final(self).full_path == old(self).full_path,
    {
        set_all_expanded(&mut self.roots, false);
    }

    /// Expands every node of one kind.
    pub fn expand_kind(&mut self, kind: HalType)
        ensures
            all_kind_set(old(self).roots@, final(self).roots@, kind, true),
            final(self).selected == old(self).selected,
            final(self).filter == old(self).filter,
            final(self).full_path == old(self).full_path,
    {
        set_kind_expanded(&mut self.roots, kind, true);
    }

    /// Collapses every node of one kind.
    pub fn collapse_kind(&mut self, kind: HalType)
        ensures
            all_kind_set(old(self).roots@, final(self).roots@, kind, false),
            final(self).selected == old(self).selected,
            final(self).filter == old(self).filter,
            final(self).full_path == old(self).full_path,
    {
        set_kind_expanded(&mut self.roots, kind, false);
    }
}


/// The full HAL item name of a node path: what follows the first `+`.
pub open spec fn full_name_of(path: Seq<char>) -> Option<Seq<char>> {
    match first_pos(path, '+') {
        Some(i) => Some(path.skip(i + 1)),
        None => None,
    }
}

/// Full HAL item name of a node path ("pin+axis.0.pos" -> "axis.0.pos").
pub fn full_name(path: &str) -> (r: Option<&str>)
    ensures
        match r {
            Some(x) => full_name_of(path@) == Some(x@),
            None => full_name_of(path@) is None,
        },
{
    let v = chars_of(path);
    assert(v@.subrange(0, v@.len() as int) =~= v@);
    match find_char(&v, 0, v.len(), '+') {
        Some(i) => {
            let rest = path.substring_char(i + 1, v.len());
            assert(rest@ =~= path@.skip(i + 1));
            Some(rest)
        },
        None => None,
    }
}

/// The parent of a node path: everything before its last `.` or `+`.
pub open spec fn parent_of(path: Seq<char>) -> Option<Seq<char>> {
    match (last_pos(path, '.'), last_pos(path, '+')) {
        (Some(d), Some(p)) => Some(path.take(if d >= p { d } else { p })),
        (Some(d), None) => Some(path.take(d)),
        (None, Some(p)) => Some(path.take(p)),
        (None, None) => None,
    }
}

/// Strip the last path component ("pin+axis.0.pos" -> "pin+axis.0").
pub fn parent_path(path: &str) -> (r: Option<String>)
    ensures
        match r {
            Some(x) => parent_of(path@) == Some(x@),
            None => parent_of(path@) is None,
        },
        (r is None) == (!path@.contains('.') && !path@.contains('+')),
        r matches Some(x) ==> {
            &&& x@.is_prefix_of(path@)
            &&& x@.len() < path@.len()
            &&& (path@[x@.len() as int] == '.' || path@[x@.len() as int] == '+')
            &&& !path@.skip(x@.len() as int + 1).contains('.')
            &&& !path@.skip(x@.len() as int + 1).contains('+')
        },
{
    proof {
        lemma_parent_of(path@);
    }
    let v = chars_of(path);
    assert(v@.subrange(0, v@.len() as int) =~= v@);
    let cut = match (rfind_char(&v, 0, v.len(), '.'), rfind_char(&v, 0, v.len(), '+')) {
        (Some(d), Some(p)) => if d >= p {
            d
        } else {
            p
        },
        (Some(d), None) => d,
        (None, Some(p)) => p,
        (None, None) => {
            return None;
        },
    };
    let r = string_of_range(&v, 0, cut);
    assert(r@ =~= path@.take(cut as int));
    Some(r)
}

/// What a node itself adds to the leaves collected below a path: its kind
/// and full name when it is a watchable leaf.
pub open spec fn leaf_entry(n: TreeNode) -> Seq<(HalType, Seq<char>)> {
    if n.leaf && is_watchable(n.kind) && full_name_of(n.path@) is Some {
        seq![(n.kind, full_name_of(n.path@)->0)]
    } else {
        seq![]
    }
}

/// The watchable leaves of a forest in the order a stack walk finds them:
/// the last node first, then its subtree, then the nodes before it.
pub open spec fn leaves_rev(nodes: Seq<TreeNode>) -> Seq<(HalType, Seq<char>)>
    decreases nodes,
{
    if nodes.len() == 0 {
        seq![]
    } else {
        let n = nodes.last();
        leaf_entry(n) + leaves_rev(n.children@) + leaves_rev(nodes.drop_last())
    }
}

/// The views of collected leaves.
pub open spec fn entry_views(v: Seq<(HalType, String)>) -> Seq<(HalType, Seq<char>)> {
    v.map_values(|e: (HalType, String)| (e.0, e.1@))
}

/// The leaves that collecting below `path` yields.
pub open spec fn leaves_below(nodes: Seq<TreeNode>, path: Seq<char>) -> Seq<(HalType, Seq<char>)> {
    match find(nodes, path) {
        Some(n) => leaf_entry(n) + leaves_rev(n.children@),
        None => seq![],
    }
}

fn push_leaf_entry(n: &TreeNode, out: &mut Vec<(HalType, String)>)
    ensures
        entry_views(final(out)@) == entry_views(old(out)@) + leaf_entry(*n),
{
    if n.leaf && n.kind.watchable() {
        match full_name(n.path.as_str()) {
            Some(name) => {
                let mut s = String::new();
                crate::text::push_str(&mut s, name);
                out.push((n.kind, s));
                assert(entry_views(out@) =~= entry_views(old(out)@) + leaf_entry(*n));
                return ;
            },
            None => {},
        }
    }
    assert(entry_views(out@) =~= entry_views(old(out)@) + leaf_entry(*n));
}

fn gather(nodes: &[TreeNode], out: &mut Vec<(HalType, String)>)
    ensures
        entry_views(final(out)@) == entry_views(old(out)@) + leaves_rev(nodes@),
    decreases nodes@,
{
    let mut j = nodes.len();
    assert(nodes@.take(j as int) =~= nodes@);
    while j > 0
        invariant
            j <= nodes@.len(),
            entry_views(old(out)@) + leaves_rev(nodes@) == entry_views(out@) + leaves_rev(
                nodes@.take(j as int),
            ),
        decreases j,
    {
        let n = &nodes[j - 1];
        let ghost before = entry_views(out@);
        assert(nodes@.take(j as int).drop_last() =~= nodes@.take(j - 1));
        assert(nodes@.take(j as int).last() == *n);
        push_leaf_entry(n, out);
        gather(n.children.as_slice(), out);
        assert(entry_views(out@) + leaves_rev(nodes@.take(j - 1)) =~= before + leaves_rev(
            nodes@.take(j as int),
        ));
        j = j - 1;
    }
    assert(nodes@.take(0) =~= seq![]);
    assert(entry_views(out@) =~= entry_views(old(out)@) + leaves_rev(nodes@));
}

/// All watchable leaves below a node path.
pub fn collect_leaves(nodes: &[TreeNode], path: &str) -> (r: Vec<(HalType, String)>)
    ensures
        entry_views(r@) == leaves_below(nodes@, path@),
{
    let mut out: Vec<(HalType, String)> = Vec::new();
    match find_node(nodes, path) {
        Some(node) => {
            push_leaf_entry(node, &mut out);
            gather(node.children.as_slice(), &mut out);
            assert(entry_views(out@) =~= leaves_below(nodes@, path@));
        },
        None => {
            assert(entry_views(out@) =~= leaves_below(nodes@, path@));
        },
    }
    out
}

/// Whether `p` is the path of `x` or of a node below it.
pub open spec fn hit(x: TreeNode, p: Seq<char>) -> bool {
    x.path@ == p || find(x.children@, p) is Some
}

/// The index of the first node of a forest that holds `p` at or below it
/// (the length of the forest when none does).
pub open spec fn first_hit(a: Seq<TreeNode>, p: Seq<char>) -> int
    decreases a.len(),
{
    if a.len() == 0 {
        0
    } else if first_hit(a.drop_last(), p) < a.len() - 1 {
        first_hit(a.drop_last(), p)
    } else if hit(a.last(), p) {
        a.len() - 1
    } else {
        a.len() as int
    }
}

/// `b` is `a` with the nodes on the way to the first node with path `p`
/// expanded, that node included; nothing else changes.
pub open spec fn revealed(a: Seq<TreeNode>, b: Seq<TreeNode>, p: Seq<char>) -> bool
    decreases a,
{
    &&& b.len() == a.len()
    &&& forall|i: int|
        0 <= i < a.len() ==> if i == first_hit(a, p) {
            &&& (#[trigger] b[i]).name == a[i].name
            &&& b[i].path == a[i].path
            &&& b[i].kind == a[i].kind
            &&& b[i].leaf == a[i].leaf
            &&& b[i].expanded
            &&& if a[i].path@ == p {
                b[i].children == a[i].children
            } else {
                revealed(a[i].children@, b[i].children@, p)
            }
        } else {
            b[i] == a[i]
        }
}

/// The first hit of a forest is the first index whose node holds `p`.
proof fn lemma_first_hit(a: Seq<TreeNode>, p: Seq<char>)
    ensures
        0 <= first_hit(a, p) <= a.len(),
        forall|j: int| 0 <= j < first_hit(a, p) ==> !hit(#[trigger] a[j], p),
        first_hit(a, p) < a.len() ==> hit(a[first_hit(a, p)], p),
        (find(a, p) is Some) == (first_hit(a, p) < a.len()),
    decreases a.len(),
{
    if a.len() > 0 {
        lemma_first_hit(a.drop_last(), p);
        assert forall|j: int| 0 <= j < first_hit(a, p) implies !hit(#[trigger] a[j], p) by {
            if j < a.len() - 1 {
                assert(a.drop_last()[j] == a[j]);
            }
        }
    }
}

fn reveal_in(nodes: &mut Vec<TreeNode>, p: &Vec<char>) -> (found: bool)
    ensures
        found == (find(old(nodes)@, p@) is Some),
        revealed(old(nodes)@, final(nodes)@, p@),
    decreases old(nodes)@,
{
    let ghost orig = nodes@;
    proof {
        lemma_first_hit(orig, p@);
    }
    let mut i: usize = 0;
    while i < nodes.len()
        invariant
            i <= nodes@.len(),
            nodes@ == orig,
            orig == old(nodes)@,
            i <= first_hit(orig, p@),
            0 <= first_hit(orig, p@) <= orig.len(),
            forall|j: int| 0 <= j < first_hit(orig, p@) ==> !hit(#[trigger] orig[j], p@),
            first_hit(orig, p@) < orig.len() ==> hit(orig[first_hit(orig, p@)], p@),
            (find(orig, p@) is Some) == (first_hit(orig, p@) < orig.len()),
        decreases orig.len() - i,
    {
        if path_is(&nodes[i], p) {
            nodes[i].expanded = true;
            assert(nodes@ =~= orig.update(i as int, nodes@[i as int]));
            return true;
        }
        if find_in(nodes[i].children.as_slice(), p).is_some() {
            assert(i == first_hit(orig, p@));
            let found = reveal_in(&mut nodes[i].children, p);
            nodes[i].expanded = true;
            assert(nodes@ =~= orig.update(i as int, nodes@[i as int]));
            return true;
        }
        assert(!hit(orig[i as int], p@));
        i = i + 1;
    }
    assert(nodes@ =~= orig);
    false
}

/// A revealed node is visible: once the way to the first node with path `p`
/// is expanded, `p` is among the visible paths.
pub proof fn lemma_revealed_visible(a: Seq<TreeNode>, b: Seq<TreeNode>, p: Seq<char>)
    requires
        find(a, p) is Some,
        revealed(a, b, p),
    ensures
        vis_paths(b).contains(p),
    decreases a,
{
    lemma_first_hit(a, p);
    let i = first_hit(a, p);
    lemma_vis_prefix(b, i + 1);
    assert(b.take(i + 1).drop_last() =~= b.take(i));
    assert(b.take(i + 1).last() == b[i]);
    let pre = vis_paths(b.take(i));
    let whole = vis_paths(b.take(i + 1));
    if a[i].path@ == p {
        assert(whole[pre.len() as int] == p);
    } else {
        lemma_revealed_visible(a[i].children@, b[i].children@, p);
        let j = choose|j: int| 0 <= j < vis_paths(b[i].children@).len() && vis_paths(
            b[i].children@,
        )[j] == p;
        assert(whole[pre.len() + 1 + j] == p);
    }
    assert(vis_paths(b)[whole.index_of(p)] == p);
}

impl HalTree {
    /// Expand the path to `path` and select it.
    pub fn reveal_path(&mut self, path: &str)
        ensures
            revealed(old(self).roots@, final(self).roots@, path@),
            final(self).selected@ == (if find(old(self).roots@, path@) is Some {
                path@
            } else {
                old(self).selected@
            }),
            final(self).filter == old(self).filter,
            final(self).full_path == old(self).full_path,
    {
        let p = chars_of(path);
        if reveal_in(&mut self.roots, &p) {
            let mut s = String::new();
            crate::text::push_str(&mut s, path);
            self.selected = s;
        }
    }
}


/// The index of the first node of `a` whose path is `p` (the length of `a`
/// when there is none).
pub open spec fn first_path(a: Seq<TreeNode>, p: Seq<char>) -> int
    decreases a.len(),
{
    if a.len() == 0 {
        0
    } else if first_path(a.drop_last(), p) < a.len() - 1 {
        first_path(a.drop_last(), p)
    } else if a.last().path@ == p {
        a.len() - 1
    } else {
        a.len() as int
    }
}

proof fn lemma_first_path(a: Seq<TreeNode>, p: Seq<char>)
    ensures
        0 <= first_path(a, p) <= a.len(),
        forall|j: int| 0 <= j < first_path(a, p) ==> (#[trigger] a[j]).path@ != p,
        first_path(a, p) < a.len() ==> a[first_path(a, p)].path@ == p,
    decreases a.len(),
{
    if a.len() > 0 {
        lemma_first_path(a.drop_last(), p);
        assert forall|j: int| 0 <= j < first_path(a, p) implies (#[trigger] a[j]).path@ != p by {
            if j < a.len() - 1 {
                assert(a.drop_last()[j] == a[j]);
            }
        }
    }
}

/// `b` is the forest `a` after inserting the chain of segments `segs`,
/// whose first node has path `acc`: an existing node with that path is
/// reused (and left as it is), otherwise a new node is appended; the rest of
/// the chain goes below it, each path extending the previous one by `.` and
/// the next segment. The last segment's node is created as a leaf.
pub open spec fn ins_forest(
    a: Seq<TreeNode>,
    b: Seq<TreeNode>,
    kind: HalType,
    acc: Seq<char>,
    segs: Seq<Seq<char>>,
) -> bool
    decreases segs.len(),
{
    let i = first_path(a, acc);
    let rest = segs.drop_first();
    let next = acc + seq!['.'] + rest[0];
    &&& segs.len() >= 1
    &&& if i < a.len() {
        &&& b.len() == a.len()
        &&& forall|j: int| 0 <= j < a.len() && j != i ==> #[trigger] b[j] == a[j]
        &&& b[i].name == a[i].name
        &&& b[i].path == a[i].path
        &&& b[i].kind == a[i].kind
        &&& b[i].leaf == a[i].leaf
        &&& b[i].expanded == a[i].expanded
        &&& if rest.len() == 0 {
            b[i].children == a[i].children
        } else {
            ins_forest(a[i].children@, b[i].children@, kind, next, rest)
        }
    } else {
        &&& b.len() == a.len() + 1
        &&& forall|j: int| 0 <= j < a.len() ==> #[trigger] b[j] == a[j]
        &&& b[i].name@ == segs[0]
        &&& b[i].path@ == acc
        &&& b[i].kind == kind
        &&& b[i].leaf == (rest.len() == 0)
        &&& !b[i].expanded
        &&& if rest.len() == 0 {
            b[i].children@.len() == 0
        } else {
            ins_forest(seq![], b[i].children@, kind, next, rest)
        }
    }
}

/// `b` is the node `a` after inserting the dotted name `item` below it.
pub open spec fn inserted(a: TreeNode, b: TreeNode, item: Seq<char>) -> bool {
    let segs = split_on(item, '.');
    &&& b.name == a.name
    &&& b.path == a.path
    &&& b.kind == a.kind
    &&& b.leaf == a.leaf
    &&& b.expanded == a.expanded
    &&& ins_forest(a.children@, b.children@, a.kind, kw_of(a.kind) + seq!['+'] + segs[0], segs)
}

/// `acc`, then `sep`, then `v[a..b]`.
fn extended(acc: &Vec<char>, sep: char, v: &Vec<char>, a: usize, b: usize) -> (r: Vec<char>)
    requires
        a <= b <= v@.len(),
    ensures
        r@ == acc@ + seq![sep] + v@.subrange(a as int, b as int),
{
    let mut r: Vec<char> = Vec::new();
    let mut i: usize = 0;
    while i < acc.len()
        invariant
            i <= acc@.len(),
            r@ == acc@.take(i as int),
        decreases acc@.len() - i,
    {
        r.push(acc[i]);
        i = i + 1;
    }
    r.push(sep);
    let mut j = a;
    while j < b
        invariant
            a <= j <= b <= v@.len(),
            r@ == acc@ + seq![sep] + v@.subrange(a as int, j as int),
        decreases b - j,
    {
        r.push(v[j]);
        j = j + 1;
    }
    assert(acc@.take(acc@.len() as int) =~= acc@);
    r
}

fn insert_segs(
    nodes: &mut Vec<TreeNode>,
    kind: HalType,
    acc: Vec<char>,
    v: &Vec<char>,
    segs: &Vec<(usize, usize)>,
    k: usize,
)
    requires
        k < segs@.len(),
        spans_ok(v@, segs@),
    ensures
        ins_forest(old(nodes)@, final(nodes)@, kind, acc@, spans(v@, segs@).skip(k as int)),
    decreases segs@.len() - k,
{
    let ghost orig = nodes@;
    let ghost ss = spans(v@, segs@).skip(k as int);
    proof {
        lemma_first_path(orig, acc@);
    }
    let mut i: usize = 0;
    while i < nodes.len() && !path_is(&nodes[i], &acc)
        invariant
            i <= nodes@.len(),
            nodes@ == orig,
            forall|j: int| 0 <= j < i ==> (#[trigger] orig[j]).path@ != acc@,
            0 <= first_path(orig, acc@) <= orig.len(),
            forall|j: int| 0 <= j < first_path(orig, acc@) ==> (#[trigger] orig[j]).path@ != acc@,
            first_path(orig, acc@) < orig.len() ==> orig[first_path(orig, acc@)].path@ == acc@,
        decreases orig.len() - i,
    {
        i = i + 1;
    }
    assert(i == first_path(orig, acc@));
    let last = k == segs.len() - 1;
    assert(ss.drop_first() =~= spans(v@, segs@).skip(k + 1));
    let (sa, sb) = segs[k];
    assert(segs@[k as int].0 <= segs@[k as int].1 <= v@.len());
    assert(ss[0] == v@.subrange(sa as int, sb as int));
    if i < nodes.len() {
        if !last {
            let (na, nb) = segs[k + 1];
            assert(segs@[k + 1].0 <= segs@[k + 1].1 <= v@.len());
            assert(ss.drop_first()[0] == v@.subrange(na as int, nb as int));
            let next = extended(&acc, '.', v, na, nb);
            insert_segs(&mut nodes[i].children, kind, next, v, segs, k + 1);
        }
        assert(nodes@.len() == orig.len());
    } else {
        let node = TreeNode {
            name: string_of_range(v, sa, sb),
            path: string_of(&acc),
            kind,
            leaf: last,
            children: Vec::new(),
            expanded: false,
        };
        nodes.push(node);
        if !last {
            let (na, nb) = segs[k + 1];
            assert(segs@[k + 1].0 <= segs@[k + 1].1 <= v@.len());
            assert(ss.drop_first()[0] == v@.subrange(na as int, nb as int));
            let next = extended(&acc, '.', v, na, nb);
            let n = nodes.len();
            assert(nodes@[n - 1].children@ =~= seq![]);
            insert_segs(&mut nodes[n - 1].children, kind, next, v, segs, k + 1);
        }
    }
}

/// Insert a dotted name ("axis.0.pos") as a nested chain under `root`.
fn insert_dotted(root: &mut TreeNode, item: &str)
    ensures
        inserted(*old(root), *final(root), item@),
{
    let v = chars_of(item);
    assert(v@.subrange(0, v@.len() as int) =~= v@);
    let segs = split_bounds(&v, 0, v.len(), '.');
    let kind = root.kind;
    let kwv = chars_of(kind.kw());
    let (a, b) = segs[0];
    assert(segs@[0].0 <= segs@[0].1 <= v@.len());
    let acc = extended(&kwv, '+', &v, a, b);
    assert(spans(v@, segs@).skip(0) =~= split_on(item@, '.'));
    insert_segs(&mut root.children, kind, acc, &v, &segs, 0);
}


// --- filtering ------------------------------------------------------------

/// Whether `regex::Regex::new` accepts `pattern`.
pub uninterp spec fn regex_valid(pattern: Seq<char>) -> bool;

/// Whether the regex compiled from `pattern` matches somewhere in `text`.
pub uninterp spec fn regex_match(pattern: Seq<char>, text: Seq<char>) -> bool;

/// Calls `regex::Regex::new(pattern)` and reports whether it succeeded; the
/// contract only names that outcome (it depends on the pattern alone).
#[verifier::external_body]
fn regex_compiles(pattern: &str) -> (r: bool)
    ensures
        r == regex_valid(pattern@),
{
    regex::Regex::new(pattern).is_ok()
}

/// Calls `regex::Regex::is_match(text)` on the regex compiled from
/// `pattern`; the contract only names the outcome (a function of the pattern
/// and the text).
#[verifier::external_body]
fn regex_is_match(pattern: &str, text: &str) -> (r: bool)
    requires
        regex_valid(pattern@),
    ensures
        r == regex_match(pattern@, text@),
{
    match regex::Regex::new(pattern) {
        Ok(re) => re.is_match(text),
        Err(_) => false,
    }
}

/// Whether the filter keeps an item: in full-path mode the whole name must
/// match, otherwise one of its dot-separated segments.
pub open spec fn item_kept(pattern: Seq<char>, item: Seq<char>, full: bool) -> bool {
    if full {
        regex_match(pattern, item)
    } else {
        exists|k: int|
            0 <= k < split_on(item, '.').len() && regex_match(
                pattern,
                #[trigger] split_on(item, '.')[k],
            )
    }
}

/// The items that the filter keeps, in their order.
pub open spec fn kept(pattern: Seq<char>, full: bool, items: Seq<Seq<char>>) -> Seq<Seq<char>>
    decreases items.len(),
{
    if items.len() == 0 {
        seq![]
    } else {
        let r = kept(pattern, full, items.drop_last());
        if item_kept(pattern, items.last(), full) {
            r.push(items.last())
        } else {
            r
        }
    }
}

fn filter_match(pattern: &str, item: &str, full_path: bool) -> (r: bool)
    requires
        regex_valid(pattern@),
    ensures
        r == item_kept(pattern@, item@, full_path),
{
    if full_path {
        return regex_is_match(pattern, item);
    }
    let v = chars_of(item);
    assert(v@.subrange(0, v@.len() as int) =~= v@);
    let segs = split_bounds(&v, 0, v.len(), '.');
    let mut k: usize = 0;
    while k < segs.len()
        invariant
            k <= segs@.len(),
            spans_ok(v@, segs@),
            spans(v@, segs@) == split_on(item@, '.'),
            regex_valid(pattern@),
            !full_path,
            forall|j: int| 0 <= j < k ==> !regex_match(pattern@, #[trigger] split_on(item@, '.')[j]),
        decreases segs@.len() - k,
    {
        let (a, b) = segs[k];
        assert(segs@[k as int].0 <= segs@[k as int].1 <= v@.len());
        let seg = string_of_range(&v, a, b);
        if regex_is_match(pattern, seg.as_str()) {
            assert(split_on(item@, '.')[k as int] == seg@);
            assert(regex_match(pattern@, split_on(item@, '.')[k as int]));
            assert(item_kept(pattern@, item@, full_path));
            return true;
        }
        k = k + 1;
    }
    false
}

// --- building -------------------------------------------------------------

/// Pins, parameters and signals nest on every '.'; the other kinds are flat.
pub open spec fn is_dotted(t: HalType) -> bool {
    t is Pin || t is Param || t is Sig
}

/// A root as a rebuild creates it: titled, expanded, path = keyword.
pub open spec fn fresh_root(n: TreeNode, t: HalType) -> bool {
    &&& n.name@ == title_of(t)
    &&& n.path@ == kw_of(t)
    &&& n.kind == t
    &&& !n.leaf
    &&& n.expanded
}

/// `n` is the root of kind `t` after inserting `items`, in order, as dotted
/// chains.
pub open spec fn dotted_built(n: TreeNode, t: HalType, items: Seq<Seq<char>>) -> bool
    decreases items.len(),
{
    if items.len() == 0 {
        fresh_root(n, t) && n.children@.len() == 0
    } else {
        exists|m: TreeNode| dotted_built(m, t, items.drop_last()) && inserted(m, n, items.last())
    }
}

/// `n` is the root of kind `t` with one leaf per item, in order.
pub open spec fn flat_built(n: TreeNode, t: HalType, items: Seq<Seq<char>>) -> bool {
    &&& fresh_root(n, t)
    &&& n.children@.len() == items.len()
    &&& forall|k: int|
        0 <= k < items.len() ==> {
            let c = #[trigger] n.children@[k];
            &&& c.name@ == items[k]
            &&& c.path@ == kw_of(t) + seq!['+'] + items[k]
            &&& c.kind == t
            &&& c.leaf
            &&& !c.expanded
            &&& c.children@.len() == 0
        }
}

/// `n` is the root of kind `t` built from `items`.
pub open spec fn root_built(n: TreeNode, t: HalType, items: Seq<Seq<char>>) -> bool {
    if is_dotted(t) {
        dotted_built(n, t, items)
    } else {
        flat_built(n, t, items)
    }
}

/// The list of kind number `k`, or none.
pub open spec fn list_of(lists: Seq<Seq<Seq<char>>>, k: int) -> Seq<Seq<char>> {
    if k < lists.len() {
        lists[k]
    } else {
        seq![]
    }
}

/// The items shown under root `k`: those the filter keeps, or none when the
/// filter is not a valid regex.
pub open spec fn shown_items(
    filter: Seq<char>,
    full: bool,
    lists: Seq<Seq<Seq<char>>>,
    k: int,
) -> Seq<Seq<char>> {
    if regex_valid(filter) {
        kept(filter, full, list_of(lists, k))
    } else {
        seq![]
    }
}

/// The views of the lists of items.
pub open spec fn list_views(lists: Seq<Vec<String>>) -> Seq<Seq<Seq<char>>> {
    lists.map_values(|l: Vec<String>| views(l@))
}

/// `roots` are the six roots built from `lists` under the filter.
pub open spec fn roots_built(
    roots: Seq<TreeNode>,
    filter: Seq<char>,
    full: bool,
    lists: Seq<Seq<Seq<char>>>,
) -> bool {
    &&& roots.len() == 6
    &&& forall|k: int|
        0 <= k < 6 ==> root_built(#[trigger] roots[k], all_kinds()[k], shown_items(filter, full, lists, k))
}


fn build_root(t: HalType, items: &Vec<String>, filter: &str, full_path: bool, valid: bool) -> (r: TreeNode)
    requires
        valid == regex_valid(filter@),
    ensures
        root_built(r, t, if valid { kept(filter@, full_path, views(items@)) } else { seq![] }),
{
    let mut root = TreeNode {
        name: owned(t.title()),
        path: owned(t.kw()),
        kind: t,
        leaf: false,
        children: Vec::new(),
        expanded: true,
    };
    assert(root.children@ =~= seq![]);
    if !valid {
        return root;
    }
    let dotted = match t {
        HalType::Pin | HalType::Param | HalType::Sig => true,
        _ => false,
    };
    let mut i: usize = 0;
    assert(views(items@).take(0) =~= seq![]);
    while i < items.len()
        invariant
            i <= items@.len(),
            valid == regex_valid(filter@),
            valid,
            dotted == is_dotted(t),
            root_built(root, t, kept(filter@, full_path, views(items@).take(i as int))),
        decreases items@.len() - i,
    {
        let item = items[i].as_str();
        let ghost before = kept(filter@, full_path, views(items@).take(i as int));
        assert(views(items@).take(i + 1).drop_last() =~= views(items@).take(i as int));
        assert(views(items@).take(i + 1).last() == item@);
        if filter_match(filter, item, full_path) {
            assert(kept(filter@, full_path, views(items@).take(i + 1)) == before.push(item@));
            assert(before.push(item@).drop_last() =~= before);
            if dotted {
                let ghost m = root;
                assert(dotted_built(m, t, before));
                insert_dotted(&mut root, item);
                assert(inserted(m, root, item@));
                assert(dotted_built(m, t, before.push(item@).drop_last()));
                assert(before.push(item@).last() == item@);
                assert(dotted_built(root, t, before.push(item@)));
            } else {
                let mut path = owned(t.kw());
                crate::text::push_char(&mut path, '+');
                push_str(&mut path, item);
                let leaf = TreeNode {
                    name: owned(item),
                    path,
                    kind: t,
                    leaf: true,
                    children: Vec::new(),
                    expanded: false,
                };
                assert(leaf.children@ =~= seq![]);
                let ghost old_children = root.children@;
                assert(flat_built(root, t, before));
                root.children.push(leaf);
                let ghost its = before.push(item@);
                assert forall|k: int| 0 <= k < its.len() implies {
                    let c = #[trigger] root.children@[k];
                    &&& c.name@ == its[k]
                    &&& c.path@ == kw_of(t) + seq!['+'] + its[k]
                    &&& c.kind == t
                    &&& c.leaf
                    &&& !c.expanded
                    &&& c.children@.len() == 0
                } by {
                    if k < before.len() {
                        assert(root.children@[k] == old_children[k]);
                        assert(its[k] == before[k]);
                    }
                }
                assert(flat_built(root, t, its));
            }
        }
        i = i + 1;
    }
    assert(views(items@).take(items@.len() as int) =~= views(items@));
    root
}


// --- rebuilding -----------------------------------------------------------

/// The paths of the visible nodes that are expanded branches, in row order.
pub open spec fn open_paths(nodes: Seq<TreeNode>) -> Seq<Seq<char>>
    decreases nodes,
{
    if nodes.len() == 0 {
        seq![]
    } else {
        let n = nodes.last();
        open_paths(nodes.drop_last()) + (if n.expanded && n.children@.len() > 0 {
            seq![n.path@]
        } else {
            seq![]
        }) + (if n.expanded {
            open_paths(n.children@)
        } else {
            seq![]
        })
    }
}

fn collect_open(nodes: &[TreeNode], out: &mut Vec<String>)
    ensures
        views(final(out)@) == views(old(out)@) + open_paths(nodes@),
    decreases nodes@,
{
    let mut i: usize = 0;
    assert(nodes@.take(0) =~= seq![]);
    while i < nodes.len()
        invariant
            i <= nodes@.len(),
            views(out@) == views(old(out)@) + open_paths(nodes@.take(i as int)),
        decreases nodes@.len() - i,
    {
        let n = &nodes[i];
        assert(nodes@.take(i + 1).drop_last() =~= nodes@.take(i as int));
        let ghost before = views(out@);
        if n.expanded && n.is_branch() {
            out.push(n.path.clone());
            assert(views(out@) =~= before.push(n.path@));
        }
        if n.expanded {
            collect_open(n.children.as_slice(), out);
        }
        assert(views(out@) =~= views(old(out)@) + open_paths(nodes@.take(i + 1)));
        i = i + 1;
    }
    assert(nodes@.take(nodes@.len() as int) =~= nodes@);
}

/// `b` is `a` after expanding, in turn, the way to each path of `ps`.
pub open spec fn reopened(a: Seq<TreeNode>, b: Seq<TreeNode>, ps: Seq<Seq<char>>) -> bool
    decreases ps.len(),
{
    if ps.len() == 0 {
        b == a
    } else {
        exists|m: Seq<TreeNode>| reopened(a, m, ps.drop_last()) && revealed(m, b, ps.last())
    }
}

/// The selection after a rebuild: kept if still visible, else the first
/// visible row (or nothing).
pub open spec fn selection_after(roots: Seq<TreeNode>, selected: Seq<char>) -> Seq<char> {
    if vis_paths(roots).contains(selected) {
        selected
    } else if vis_paths(roots).len() > 0 {
        vis_paths(roots)[0]
    } else {
        seq![]
    }
}

impl HalTree {
    /// Rebuild the tree from `hal list` data: `lists[k]` holds the names of
    /// the objects of kind `HalType::all()[k]`. Expanded nodes and the
    /// selection survive the rebuild when they still exist.
    pub fn rebuild(&mut self, lists: &Vec<Vec<String>>)
        ensures
            exists|fresh: Seq<TreeNode>|
                #![trigger roots_built(fresh, old(self).filter@, old(self).full_path, list_views(lists@))]
                roots_built(fresh, old(self).filter@, old(self).full_path, list_views(lists@)) && if old(
                    self,
                ).filter@.len() > 0 {
                    all_set(fresh, final(self).roots@, true)
                } else {
                    reopened(fresh, final(self).roots@, open_paths(old(self).roots@))
                },
            final(self).selected@ == selection_after(final(self).roots@, old(self).selected@),
            final(self).filter == old(self).filter,
            final(self).full_path == old(self).full_path,
    {
        let mut open: Vec<String> = Vec::new();
        collect_open(self.roots.as_slice(), &mut open);
        assert(views(open@) =~= open_paths(self.roots@));
        let valid = regex_compiles(self.filter.as_str());
        let kinds = HalType::all();
        let empty: Vec<String> = Vec::new();
        let mut roots: Vec<TreeNode> = Vec::new();
        let mut k: usize = 0;
        while k < kinds.len()
            invariant
                k <= 6,
                kinds@ == all_kinds(),
                valid == regex_valid(self.filter@),
                empty@.len() == 0,
                roots@.len() == k,
                forall|j: int|
                    0 <= j < k ==> root_built(
                        #[trigger] roots@[j],
                        all_kinds()[j],
                        shown_items(self.filter@, self.full_path, list_views(lists@), j),
                    ),
            decreases 6 - k,
        {
            let items = if k < lists.len() {
                &lists[k]
            } else {
                &empty
            };
            assert(views(items@) == list_of(list_views(lists@), k as int)) by {
                if k >= lists@.len() {
                    assert(views(items@) =~= seq![]);
                }
            }
            let r = build_root(kinds[k], items, self.filter.as_str(), self.full_path, valid);
            roots.push(r);
            assert(roots@[k as int] == r);
            k = k + 1;
        }
        let ghost fresh = roots@;
        assert(roots_built(fresh, self.filter@, self.full_path, list_views(lists@)));
        if !self.filter.as_str().is_empty() {
            // filter active: reveal every surviving branch so matches are
            // immediately visible
            set_all_expanded(&mut roots, true);
        } else {
            // no filter: restore the previously expanded state
            let mut i: usize = 0;
            assert(views(open@).take(0) =~= seq![]);
            while i < open.len()
                invariant
                    i <= open@.len(),
                    reopened(fresh, roots@, views(open@).take(i as int)),
                decreases open@.len() - i,
            {
                let p = chars_of(open[i].as_str());
                let ghost m = roots@;
                reveal_in(&mut roots, &p);
                assert(views(open@).take(i + 1).drop_last() =~= views(open@).take(i as int));
                assert(views(open@).take(i + 1).last() == p@);
                assert(reopened(fresh, m, views(open@).take(i + 1).drop_last()));
                i = i + 1;
            }
            assert(views(open@).take(open@.len() as int) =~= views(open@));
        }
        self.roots = roots;
        // keep selection if it still exists
        if !self.path_exists(self.selected.as_str()) {
            let first = if self.roots.len() > 0 {
                self.roots[0].path.clone()
            } else {
                String::new()
            };
            proof {
                if self.roots@.len() > 0 {
                    lemma_vis_prefix(self.roots@, 1);
                    let t = self.roots@.take(1);
                    assert(t.drop_last() =~= Seq::<TreeNode>::empty());
                    assert(vis_paths(t.drop_last()).len() == 0);
                    assert(t.last() == self.roots@[0]);
                    assert(vis_paths(t)[0] == self.roots@[0].path@);
                }
            }
            self.selected = first;
        }
    }
}

// ---------------------------------------------------------------------------
// Moving the selection and expanding one node

/// The position of the first occurrence of `x` in `s`.
pub open spec fn index_in(s: Seq<Seq<char>>, x: Seq<char>) -> Option<int>
    decreases s.len(),
{
    if s.len() == 0 {
        None
    } else if s[0] == x {
        Some(0)
    } else {
        crate::text::shift(index_in(s.drop_first(), x), 1)
    }
}

/// The row `n` rows above or below row `i` of `len` rows, not past either
/// end.
pub open spec fn clamp_move(i: int, n: nat, up: bool, len: nat) -> int {
    if up {
        if i >= n {
            i - n
        } else {
            0
        }
    } else if i + n < len - 1 {
        i + n
    } else {
        len - 1
    }
}

/// The path selected after moving `n` rows up or down among the visible
/// paths: the first visible path when the selection is not visible, nothing
/// when no path is visible.
pub open spec fn moved_to(paths: Seq<Seq<char>>, sel: Seq<char>, n: nat, up: bool) -> Option<
    Seq<char>,
> {
    match index_in(paths, sel) {
        Some(i) => Some(paths[clamp_move(i, n, up, paths.len())]),
        None => if paths.len() > 0 {
            Some(paths[0])
        } else {
            None
        },
    }
}

proof fn lemma_index_in(s: Seq<Seq<char>>, x: Seq<char>, k: int)
    requires
        0 <= k <= s.len(),
        forall|j: int| 0 <= j < k ==> s[j] != x,
    ensures
        index_in(s, x) == crate::text::shift(index_in(s.skip(k), x), k),
    decreases k,
{
    if k > 0 {
        assert(s[0] != x);
        assert forall|j: int| 0 <= j < k - 1 implies s.drop_first()[j] != x by {
            assert(s.drop_first()[j] == s[j + 1]);
        }
        lemma_index_in(s.drop_first(), x, k - 1);
        assert(s.drop_first().skip(k - 1) =~= s.skip(k));
    } else {
        assert(s.skip(0) =~= s);
    }
}

impl HalTree {
    /// Whether the depth of the visible rows fits a `usize`, which listing
    /// them asks.
    pub fn rows_fit(&self) -> (r: bool)
        ensures
            r == (open_height(self.roots@) <= usize::MAX),
    {
        height_of(self.roots.as_slice()).is_some()
    }

    /// Moves the selection `n` visible rows up or down, not past either end;
    /// selects the first visible row when the selection is not visible.
    pub fn move_selection(&mut self, n: usize, up: bool)
        requires
            open_height(old(self).roots@) <= usize::MAX,
        ensures
            final(self).roots == old(self).roots,
            final(self).filter == old(self).filter,
            final(self).full_path == old(self).full_path,
            final(self).selected@ == match moved_to(vis_paths(old(self).roots@), old(self).selected@, n as nat, up) {
                Some(p) => p,
                None => old(self).selected@,
            },
    {
        let vis = visible(self.roots.as_slice());
        let ghost paths = vis_paths(self.roots@);
        proof {
            lemma_rows_paths(self.roots@, 0);
        }
        let mut i: usize = 0;
        let mut found = false;
        while i < vis.len() && !found
            invariant
                i <= vis@.len(),
                row_views(vis@) == rows(self.roots@, 0),
                paths == vis_paths(self.roots@),
                rows(self.roots@, 0).len() == paths.len(),
                forall|j: int| 0 <= j < paths.len() ==> #[trigger] rows(self.roots@, 0)[j].0 == paths[j],
                forall|j: int| 0 <= j < i ==> paths[j] != self.selected@,
                found ==> i < vis@.len() && paths[i as int] == self.selected@,
            decreases vis@.len() - i + (if found { 0int } else { 1int }),
        {
            assert(vis@[i as int].0@ == row_views(vis@)[i as int].0);
            if crate::text::str_eq(vis[i].0.as_str(), self.selected.as_str()) {
                found = true;
            } else {
                i = i + 1;
            }
        }
        proof {
            lemma_index_in(paths, self.selected@, i as int);
        }
        if found {
            assert(paths.skip(i as int)[0] == paths[i as int]);
            assert(index_in(paths.skip(i as int), self.selected@) == Some(0int));
            let last = vis.len() - 1;
            let j = if up {
                if i >= n {
                    i - n
                } else {
                    0
                }
            } else if n < last - i {
                i + n
            } else {
                last
            };
            assert(vis@[j as int].0@ == row_views(vis@)[j as int].0);
            self.selected = vis[j].0.clone();

        } else {
            assert(paths.skip(i as int) =~= Seq::<Seq<char>>::empty());
            if vis.len() > 0 {
                assert(vis@[0].0@ == row_views(vis@)[0].0);
                self.selected = vis[0].0.clone();

            }
        }
    }
}

/// `b` is `a` with the `expanded` flag of the first node with path `p`
/// (each node before its children) set to `v`; nothing else changes.
pub open spec fn set_at(a: Seq<TreeNode>, b: Seq<TreeNode>, p: Seq<char>, v: bool) -> bool
    decreases a,
{
    &&& b.len() == a.len()
    &&& forall|i: int|
        0 <= i < a.len() ==> if i == first_hit(a, p) {
            &&& (#[trigger] b[i]).name == a[i].name
            &&& b[i].path == a[i].path
            &&& b[i].kind == a[i].kind
            &&& b[i].leaf == a[i].leaf
            &&& if a[i].path@ == p {
                &&& b[i].expanded == v
                &&& b[i].children == a[i].children
            } else {
                &&& b[i].expanded == a[i].expanded
                &&& set_at(a[i].children@, b[i].children@, p, v)
            }
        } else {
            b[i] == a[i]
        }
}

fn set_in(nodes: &mut Vec<TreeNode>, p: &Vec<char>, value: bool) -> (found: bool)
    ensures
        found == (find(old(nodes)@, p@) is Some),
        set_at(old(nodes)@, final(nodes)@, p@, value),
    decreases old(nodes)@,
{
    let ghost orig = nodes@;
    proof {
        lemma_first_hit(orig, p@);
    }
    let mut i: usize = 0;
    while i < nodes.len()
        invariant
            i <= nodes@.len(),
            nodes@ == orig,
            orig == old(nodes)@,
            i <= first_hit(orig, p@),
            0 <= first_hit(orig, p@) <= orig.len(),
            forall|j: int| 0 <= j < first_hit(orig, p@) ==> !hit(#[trigger] orig[j], p@),
            first_hit(orig, p@) < orig.len() ==> hit(orig[first_hit(orig, p@)], p@),
            (find(orig, p@) is Some) == (first_hit(orig, p@) < orig.len()),
        decreases orig.len() - i,
    {
        if path_is(&nodes[i], p) {
            nodes[i].expanded = value;
            assert(nodes@ =~= orig.update(i as int, nodes@[i as int]));
            return true;
        }
        if find_in(nodes[i].children.as_slice(), p).is_some() {
            assert(i == first_hit(orig, p@));
            let found = set_in(&mut nodes[i].children, p, value);
            assert(nodes@ =~= orig.update(i as int, nodes@[i as int]));
            return true;
        }
        assert(!hit(orig[i as int], p@));
        i = i + 1;
    }
    assert(nodes@ =~= orig);
    false
}

impl HalTree {
    /// Sets whether the first node with path `path` is expanded.
    pub fn set_expanded(&mut self, path: &str, value: bool)
        ensures
            set_at(old(self).roots@, final(self).roots@, path@, value),
            final(self).selected == old(self).selected,
            final(self).filter == old(self).filter,
            final(self).full_path == old(self).full_path,
    {
        let p = chars_of(path);
        set_in(&mut self.roots, &p, value);
    }
}

// ---------------------------------------------------------------------------
// Parent paths

/// Facts of [`last_pos`]: the position holds `c` and nothing after it does;
/// without a position there is no `c` at all.
proof fn lemma_last_pos(s: Seq<char>, c: char)
    ensures
        match last_pos(s, c) {
            Some(i) => 0 <= i < s.len() && s[i] == c && !s.skip(i + 1).contains(c),
            None => !s.contains(c),
        },
    decreases s.len(),
{
    if s.len() > 0 {
        if s.last() == c {
            assert(s.skip(s.len() as int) =~= Seq::<char>::empty());
            assert(s[s.len() - 1] == s.last());
        } else {
            let d = s.drop_last();
            lemma_last_pos(d, c);
            match last_pos(d, c) {
                Some(i) => {
                    assert(d[i] == s[i]);
                    assert(s.skip(i + 1) =~= d.skip(i + 1).push(s.last()));
                    let t = s.skip(i + 1);
                    if t.contains(c) {
                        let j = choose|j: int| 0 <= j < t.len() && t[j] == c;
                        if j < d.skip(i + 1).len() {
                            assert(d.skip(i + 1)[j] == c);
                        } else {
                            assert(t[j] == s.last());
                        }
                    }
                },
                None => {
                    if s.contains(c) {
                        let j = choose|j: int| 0 <= j < s.len() && s[j] == c;
                        if j < d.len() {
                            assert(d[j] == c);
                        } else {
                            assert(s[j] == s.last());
                        }
                    }
                },
            }
        }
    }
}

/// The last `c` of a text after which `c` no longer occurs.
proof fn lemma_last_pos_at(x: Seq<char>, y: Seq<char>, c: char)
    requires
        !y.contains(c),
    ensures
        last_pos(x.push(c) + y, c) == Some(x.len() as int),
    decreases y.len(),
{
    if y.len() == 0 {
        assert(x.push(c) + y =~= x.push(c));
    } else {
        assert(!y.drop_last().contains(c)) by {
            if y.drop_last().contains(c) {
                let j = choose|j: int| 0 <= j < y.drop_last().len() && y.drop_last()[j] == c;
                assert(y[j] == c);
            }
        }
        lemma_last_pos_at(x, y.drop_last(), c);
        assert((x.push(c) + y).drop_last() =~= x.push(c) + y.drop_last());
        assert(y[y.len() - 1] != c);
    }
}

/// A text free of `c` added after `x` leaves the last `c` where it was.
proof fn lemma_last_pos_after(x: Seq<char>, y: Seq<char>, c: char)
    requires
        !y.contains(c),
    ensures
        last_pos(x + y, c) == last_pos(x, c),
    decreases y.len(),
{
    if y.len() == 0 {
        assert(x + y =~= x);
    } else {
        assert(!y.drop_last().contains(c)) by {
            if y.drop_last().contains(c) {
                let j = choose|j: int| 0 <= j < y.drop_last().len() && y.drop_last()[j] == c;
                assert(y[j] == c);
            }
        }
        lemma_last_pos_after(x, y.drop_last(), c);
        assert((x + y).drop_last() =~= x + y.drop_last());
        assert(y[y.len() - 1] != c);
    }
}

/// The parent of a path is the text before its last `.` or `+`: there is
/// none exactly when the path holds neither; otherwise the parent is a
/// prefix of the path, followed by a `.` or `+` and then a last component
/// that holds neither.
pub proof fn lemma_parent_of(path: Seq<char>)
    ensures
        (parent_of(path) is None) == (!path.contains('.') && !path.contains('+')),
        parent_of(path) matches Some(q) ==> {
            &&& q.is_prefix_of(path)
            &&& q.len() < path.len()
            &&& (path[q.len() as int] == '.' || path[q.len() as int] == '+')
            &&& !path.skip(q.len() as int + 1).contains('.')
            &&& !path.skip(q.len() as int + 1).contains('+')
        },
{
    lemma_last_pos(path, '.');
    lemma_last_pos(path, '+');
    match (last_pos(path, '.'), last_pos(path, '+')) {
        (Some(d), Some(p)) => {
            let cut = if d >= p {
                d
            } else {
                p
            };
            assert(path.take(cut).len() == cut);
            let rest = path.skip(cut + 1);
            assert forall|j: int| 0 <= j < rest.len() implies #[trigger] rest[j] != '.' && rest[j]
                != '+' by {
                if rest[j] == '.' {
                    assert(path.skip(d + 1)[j + cut - d] == '.');
                }
                if rest[j] == '+' {
                    assert(path.skip(p + 1)[j + cut - p] == '+');
                }
            }
        },
        (Some(d), None) => {
            assert(path.take(d).len() == d);
        },
        (None, Some(p)) => {
            assert(path.take(p).len() == p);
        },
        (None, None) => {},
    }
}

/// A node name without `.` or `+`.
pub open spec fn plain_name(x: Seq<char>) -> bool {
    !x.contains('.') && !x.contains('+')
}

/// Every child of `n` has as its path `n`'s path, then `sep`, then its
/// name; below that level the separator is `.`.
pub open spec fn chained(n: TreeNode, sep: char) -> bool
    decreases n,
{
    forall|k: int|
        0 <= k < n.children@.len() ==> (#[trigger] n.children@[k]).path@ == n.path@ + seq![sep]
            + n.children@[k].name@ && chained(n.children@[k], '.')
}

/// [`chained`] for the nodes of a forest below the path `p`.
pub open spec fn chained_forest(a: Seq<TreeNode>, p: Seq<char>, sep: char) -> bool {
    forall|k: int|
        0 <= k < a.len() ==> (#[trigger] a[k]).path@ == p + seq![sep] + a[k].name@ && chained(
            a[k],
            '.',
        )
}

/// Every node below `n` whose name holds neither `.` nor `+` has the path
/// of the node above it as its parent path.
pub open spec fn parents_found(n: TreeNode) -> bool
    decreases n,
{
    forall|k: int|
        0 <= k < n.children@.len() ==> (plain_name((#[trigger] n.children@[k]).name@) ==> parent_of(
            n.children@[k].path@,
        ) == Some(n.path@)) && parents_found(n.children@[k])
}

proof fn lemma_chained_children(n: TreeNode, sep: char)
    ensures
        chained(n, sep) == chained_forest(n.children@, n.path@, sep),
{
}

/// The parent path of `x`, `sep`, `y` is `x` when `y` is a plain name.
proof fn lemma_parent_of_joined(x: Seq<char>, sep: char, y: Seq<char>)
    requires
        sep == '.' || sep == '+',
        plain_name(y),
    ensures
        parent_of(x + seq![sep] + y) == Some(x),
{
    let z = x + seq![sep] + y;
    assert(z =~= x.push(sep) + y);
    lemma_last_pos_at(x, y, sep);
    let other = if sep == '.' {
        '+'
    } else {
        '.'
    };
    lemma_last_pos_after(x.push(sep), y, other);
    assert(x.push(sep).drop_last() =~= x);
    lemma_last_pos(x, other);
    assert(z.take(x.len() as int) =~= x);
}

/// A chained node finds its parents.
proof fn lemma_chained_parents(n: TreeNode, sep: char)
    requires
        sep == '.' || sep == '+',
        chained(n, sep),
    ensures
        parents_found(n),
    decreases n,
{
    assert forall|k: int| 0 <= k < n.children@.len() implies (plain_name(
        (#[trigger] n.children@[k]).name@,
    ) ==> parent_of(n.children@[k].path@) == Some(n.path@)) && parents_found(n.children@[k]) by {
        let c = n.children@[k];
        if plain_name(c.name@) {
            lemma_parent_of_joined(n.path@, sep, c.name@);
        }
        lemma_chained_parents(c, '.');
    }
}

/// Inserting a chain of segments keeps a forest chained.
proof fn lemma_ins_chained(
    a: Seq<TreeNode>,
    b: Seq<TreeNode>,
    kind: HalType,
    acc: Seq<char>,
    segs: Seq<Seq<char>>,
    p: Seq<char>,
    sep: char,
)
    requires
        chained_forest(a, p, sep),
        ins_forest(a, b, kind, acc, segs),
        acc == p + seq![sep] + segs[0],
    ensures
        chained_forest(b, p, sep),
    decreases segs.len(),
{
    let i = first_path(a, acc);
    let rest = segs.drop_first();
    let next = acc + seq!['.'] + rest[0];
    lemma_first_path(a, acc);
    if i < a.len() {
        assert(a[i].path@ == acc);
        lemma_chained_children(a[i], '.');
        lemma_chained_children(b[i], '.');
        if rest.len() > 0 {
            assert(rest[0] == segs[1]);
            lemma_ins_chained(a[i].children@, b[i].children@, kind, next, rest, acc, '.');
        }
        assert forall|k: int| 0 <= k < b.len() implies (#[trigger] b[k]).path@ == p + seq![sep]
            + b[k].name@ && chained(b[k], '.') by {
            if k != i {
                assert(b[k] == a[k]);
            }
        }
    } else {
        lemma_chained_children(b[i], '.');
        if rest.len() > 0 {
            lemma_ins_chained(seq![], b[i].children@, kind, next, rest, acc, '.');
        }
        assert forall|k: int| 0 <= k < b.len() implies (#[trigger] b[k]).path@ == p + seq![sep]
            + b[k].name@ && chained(b[k], '.') by {
            if k != i {
                assert(b[k] == a[k]);
            }
        }
    }
}

/// A root built from dotted names is chained below its keyword.
proof fn lemma_dotted_chained(n: TreeNode, t: HalType, items: Seq<Seq<char>>)
    requires
        dotted_built(n, t, items),
    ensures
        chained(n, '+'),
        n.path@ == kw_of(t),
        n.kind == t,
    decreases items.len(),
{
    if items.len() > 0 {
        let m = choose|m: TreeNode| dotted_built(m, t, items.drop_last()) && inserted(m, n, items.last());
        lemma_dotted_chained(m, t, items.drop_last());
        let segs = split_on(items.last(), '.');
        lemma_chained_children(m, '+');
        lemma_chained_children(n, '+');
        lemma_ins_chained(m.children@, n.children@, t, kw_of(t) + seq!['+'] + segs[0], segs, m.path@, '+');
    }
}

/// Every root of a built tree is chained below its keyword.
proof fn lemma_built_chained(
    roots: Seq<TreeNode>,
    filter: Seq<char>,
    full: bool,
    lists: Seq<Seq<Seq<char>>>,
)
    requires
        roots_built(roots, filter, full, lists),
    ensures
        forall|k: int| 0 <= k < roots.len() ==> chained(#[trigger] roots[k], '+'),
{
    assert forall|k: int| 0 <= k < roots.len() implies chained(#[trigger] roots[k], '+') by {
        let t = all_kinds()[k];
        let items = shown_items(filter, full, lists, k);
        assert(root_built(roots[k], t, items));
        if is_dotted(t) {
            lemma_dotted_chained(roots[k], t, items);
        } else {
            assert forall|j: int| 0 <= j < roots[k].children@.len() implies (
            #[trigger] roots[k].children@[j]).path@ == roots[k].path@ + seq!['+']
                + roots[k].children@[j].name@ && chained(roots[k].children@[j], '.') by {
                assert(roots[k].children@[j].children@.len() == 0);
            }
        }
    }
}

/// Setting every node's `expanded` flag keeps a node chained.
proof fn lemma_expanded_chained(a: TreeNode, b: TreeNode, v: bool, sep: char)
    requires
        chained(a, sep),
        expanded_all(a, b, v),
    ensures
        chained(b, sep),
    decreases a,
{
    assert forall|k: int| 0 <= k < b.children@.len() implies (#[trigger] b.children@[k]).path@
        == b.path@ + seq![sep] + b.children@[k].name@ && chained(b.children@[k], '.') by {
        assert(expanded_all(a.children@[k], b.children@[k], v));
        lemma_expanded_chained(a.children@[k], b.children@[k], v, '.');
    }
}

/// Revealing a path keeps a forest chained.
proof fn lemma_revealed_chained(a: Seq<TreeNode>, b: Seq<TreeNode>, q: Seq<char>, p: Seq<char>, sep: char)
    requires
        chained_forest(a, p, sep),
        revealed(a, b, q),
    ensures
        chained_forest(b, p, sep),
    decreases a,
{
    assert forall|i: int| 0 <= i < b.len() implies (#[trigger] b[i]).path@ == p + seq![sep]
        + b[i].name@ && chained(b[i], '.') by {
        if i == first_hit(a, q) {
            lemma_chained_children(a[i], '.');
            lemma_chained_children(b[i], '.');
            if a[i].path@ != q {
                lemma_revealed_chained(a[i].children@, b[i].children@, q, a[i].path@, '.');
            }
        } else {
            assert(b[i] == a[i]);
        }
    }
}

/// Reopening paths keeps a forest chained.
proof fn lemma_reopened_chained(a: Seq<TreeNode>, b: Seq<TreeNode>, ps: Seq<Seq<char>>)
    requires
        forall|k: int| 0 <= k < a.len() ==> chained(#[trigger] a[k], '+'),
        reopened(a, b, ps),
    ensures
        forall|k: int| 0 <= k < b.len() ==> chained(#[trigger] b[k], '+'),
    decreases ps.len(),
{
    if ps.len() > 0 {
        let m = choose|m: Seq<TreeNode>| reopened(a, m, ps.drop_last()) && revealed(m, b, ps.last());
        lemma_reopened_chained(a, m, ps.drop_last());
        assert forall|k: int| 0 <= k < b.len() implies chained(#[trigger] b[k], '+') by {
            if k == first_hit(m, ps.last()) {
                lemma_chained_children(m[k], '+');
                lemma_chained_children(b[k], '+');
                if m[k].path@ != ps.last() {
                    lemma_revealed_chained(m[k].children@, b[k].children@, ps.last(), m[k].path@, '+');
                }
            } else {
                assert(b[k] == m[k]);
            }
        }
    }
}

/// After a rebuild (the roots that [`HalTree::rebuild`] ensures, from the
/// built roots `fresh` with every node expanded or with paths reopened),
/// every node whose name holds neither `.` nor `+` has the path of the node
/// above it as its parent path, so that `parent_path` leads to it.
pub proof fn lemma_rebuilt_parents(
    fresh: Seq<TreeNode>,
    roots: Seq<TreeNode>,
    filter: Seq<char>,
    full: bool,
    lists: Seq<Seq<Seq<char>>>,
    open: Seq<Seq<char>>,
)
    requires
        roots_built(fresh, filter, full, lists),
        all_set(fresh, roots, true) || reopened(fresh, roots, open),
    ensures
        forall|k: int| 0 <= k < roots.len() ==> parents_found(#[trigger] roots[k]),
{
    lemma_built_chained(fresh, filter, full, lists);
    if all_set(fresh, roots, true) {
        assert forall|k: int| 0 <= k < roots.len() implies chained(#[trigger] roots[k], '+') by {
            lemma_expanded_chained(fresh[k], roots[k], true, '+');
        }
    } else {
        lemma_reopened_chained(fresh, roots, open);
    }
    assert forall|k: int| 0 <= k < roots.len() implies parents_found(#[trigger] roots[k]) by {
        lemma_chained_parents(roots[k], '+');
    }
}

} // verus!
