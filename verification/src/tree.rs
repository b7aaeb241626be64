//! File tree sidebar model: building, flattening and folding the directory tree.

use vstd::prelude::*;

use crate::text::{chars_of, lowercase, to_lowercase};
use crate::types::{DisplayFile, FileStatus};
use vstd::string::StringExecFns;

verus! {

/// A node of the file tree: a directory or a file.
#[derive(Debug)]
pub struct TreeNode {
    pub name: String,
    pub path: String,
    pub is_dir: bool,
    pub file_idx: Option<usize>,
    pub status: Option<FileStatus>,
    pub additions: u32,
    pub deletions: u32,
    pub children: Vec<TreeNode>,
    pub expanded: bool,
    pub moved_from: Option<String>,
}

/// A visible line of the tree, in display order.
#[derive(Debug, Clone)]
pub struct FlatNode {
    pub name: String,
    pub is_dir: bool,
    pub file_idx: Option<usize>,
    pub status: Option<FileStatus>,
    pub additions: u32,
    pub deletions: u32,
    pub depth: u16,
    pub expanded: bool,
    pub moved_from: Option<String>,
    pub is_reviewed: bool,
}

/// Parameters for drawing the tree pane.
#[derive(Debug, Clone, Copy)]
pub struct TreeRenderParams {
    pub current_file_idx: usize,
    pub tree_scroll: usize,
    pub tree_focused: bool,
    pub tree_cursor: usize,
    pub total_additions: u32,
    pub total_deletions: u32,
    pub file_count: usize,
    pub reviewed_count: usize,
}

/// The deepest indentation a visible line can have.
pub const MAX_DEPTH: u16 = 0xffffu16;

/// Every directory at `depth` or below leaves room for its children's depth.
pub open spec fn depth_fits(nodes: Seq<TreeNode>, depth: int) -> bool
    decreases nodes,
{
    forall|i: int|
        0 <= i < nodes.len() ==> (#[trigger] nodes[i]).is_dir ==> depth < MAX_DEPTH && depth_fits(
            nodes[i].children@,
            depth + 1,
        )
}

/// The line that `n` shows at `depth`.
pub open spec fn flat_of(n: TreeNode, depth: int) -> FlatNode {
    FlatNode {
        name: n.name,
        is_dir: n.is_dir,
        file_idx: n.file_idx,
        status: n.status,
        additions: n.additions,
        deletions: n.deletions,
        depth: depth as u16,
        expanded: n.expanded,
        moved_from: n.moved_from,
        is_reviewed: false,
    }
}

/// The visible lines of `nodes` at `depth`: each node, followed by the lines
/// of its children when it is an expanded directory.
pub open spec fn visible(nodes: Seq<TreeNode>, depth: int) -> Seq<FlatNode>
    decreases nodes,
{
    if nodes.len() == 0 {
        Seq::empty()
    } else {
        visible(nodes.drop_last(), depth) + visible_one(nodes.last(), depth)
    }
}

/// The visible lines of one node at `depth`.
pub open spec fn visible_one(n: TreeNode, depth: int) -> Seq<FlatNode>
    decreases n,
{
    seq![flat_of(n, depth)] + if n.is_dir && n.expanded {
        visible(n.children@, depth + 1)
    } else {
        Seq::empty()
    }
}

/// A copy of an optional string.
pub fn copy_opt_string(s: &Option<String>) -> (r: Option<String>)
    ensures
        r == *s,
{
    match s {
        Some(t) => Some(t.clone()),
        None => None,
    }
}

/// The line that `n` shows at `depth`.
fn flat_node(n: &TreeNode, depth: u16) -> (r: FlatNode)
    ensures
        r == flat_of(*n, depth as int),
{
    FlatNode {
        name: n.name.clone(),
        is_dir: n.is_dir,
        file_idx: n.file_idx,
        status: n.status,
        additions: n.additions,
        deletions: n.deletions,
        depth,
        expanded: n.expanded,
        moved_from: copy_opt_string(&n.moved_from),
        is_reviewed: false,
    }
}

/// Flattens the tree into its visible lines, in display order: each node,
/// then the lines of its children when it is an expanded directory, one level deeper.
pub fn flatten_visible(nodes: &[TreeNode], depth: u16) -> (r: Vec<FlatNode>)
    requires
        depth_fits(nodes@, depth as int),
    ensures
        r@ == visible(nodes@, depth as int),
    decreases nodes@,
{
    let mut result: Vec<FlatNode> = Vec::new();
    let mut i: usize = 0;
    while i < nodes.len()
        invariant
            i <= nodes@.len(),
            depth_fits(nodes@, depth as int),
            result@ == visible(nodes@.take(i as int), depth as int),
        decreases nodes.len() - i,
    {
        let node = &nodes[i];
        let ghost before = result@;
        result.push(flat_node(node, depth));
        if node.is_dir && node.expanded {
            assert(depth_fits(nodes@, depth as int) ==> nodes@[i as int].is_dir ==> depth_fits(
                nodes@[i as int].children@,
                depth + 1,
            ));
            assert(decreases_to!(nodes@ => nodes@[i as int]));
            let mut sub = flatten_visible(node.children.as_slice(), depth + 1);
            result.append(&mut sub);
        }
        proof {
            assert(nodes@.take(i + 1).drop_last() == nodes@.take(i as int));
            assert(nodes@.take(i + 1).last() == nodes@[i as int]);
            assert(result@ == before + visible_one(nodes@[i as int], depth as int));
            assert(visible(nodes@.take(i + 1), depth as int) == visible(nodes@.take(i as int), depth as int) + visible_one(nodes@[i as int], depth as int));
        }
        i = i + 1;
    }
    assert(nodes@.take(nodes@.len() as int) == nodes@);
    result
}

/// Number of visible lines of `nodes`.
pub open spec fn vis_count(nodes: Seq<TreeNode>) -> nat
    decreases nodes,
{
    if nodes.len() == 0 {
        0
    } else {
        vis_count(nodes.drop_last()) + vis_count_one(nodes.last())
    }
}

/// Number of visible lines of one node.
pub open spec fn vis_count_one(n: TreeNode) -> nat
    decreases n,
{
    1 + if n.is_dir && n.expanded {
        vis_count(n.children@)
    } else {
        0
    }
}

/// The number of visible lines does not depend on the depth.
pub proof fn lemma_visible_len(nodes: Seq<TreeNode>, depth: int)
    ensures
        visible(nodes, depth).len() == vis_count(nodes),
    decreases nodes,
{
    if nodes.len() > 0 {
        lemma_visible_len(nodes.drop_last(), depth);
        let n = nodes.last();
        if n.is_dir && n.expanded {
            lemma_visible_len(n.children@, depth + 1);
        }
        assert(visible_one(n, depth).len() == vis_count_one(n));
        assert(visible(nodes, depth) == visible(nodes.drop_last(), depth) + visible_one(n, depth));
    }
}

/// `n` equals `o` but for its `expanded` flag and its children.
pub open spec fn same_node_fields(o: TreeNode, n: TreeNode) -> bool {
    &&& n.name == o.name
    &&& n.path == o.path
    &&& n.is_dir == o.is_dir
    &&& n.file_idx == o.file_idx
    &&& n.status == o.status
    &&& n.additions == o.additions
    &&& n.deletions == o.deletions
    &&& n.moved_from == o.moved_from
}

/// `a` and `b` are the same tree: same fields, same flags, same children.
pub open spec fn node_eq(a: TreeNode, b: TreeNode) -> bool
    decreases a,
{
    &&& same_node_fields(a, b)
    &&& a.expanded == b.expanded
    &&& nodes_eq(a.children@, b.children@)
}

/// `a` and `b` are the same sequence of trees.
pub open spec fn nodes_eq(a: Seq<TreeNode>, b: Seq<TreeNode>) -> bool
    decreases a,
{
    &&& a.len() == b.len()
    &&& forall|i: int| 0 <= i < a.len() ==> node_eq(#[trigger] a[i], b[i])
}

/// Every tree is the same as itself.
pub proof fn lemma_nodes_eq_refl(a: Seq<TreeNode>)
    ensures
        nodes_eq(a, a),
    decreases a,
{
    assert forall|i: int| 0 <= i < a.len() implies node_eq(#[trigger] a[i], a[i]) by {
        assert(decreases_to!(a => a[i]));
        lemma_nodes_eq_refl(a[i].children@);
    }
}

/// Equal trees show the same lines and need the same room for depth.
pub proof fn lemma_nodes_eq_same(a: Seq<TreeNode>, b: Seq<TreeNode>, depth: int)
    requires
        nodes_eq(a, b),
    ensures
        visible(a, depth) == visible(b, depth),
        vis_count(a) == vis_count(b),
        depth_fits(a, depth) == depth_fits(b, depth),
    decreases a,
{
    if a.len() > 0 {
        assert(nodes_eq(a.drop_last(), b.drop_last())) by {
            assert forall|i: int| 0 <= i < a.drop_last().len() implies node_eq(
                #[trigger] a.drop_last()[i],
                b.drop_last()[i],
            ) by {
                assert(node_eq(a[i], b[i]));
            }
        }
        lemma_nodes_eq_same(a.drop_last(), b.drop_last(), depth);
        let x = a.last();
        let y = b.last();
        assert(node_eq(a[a.len() - 1], b[b.len() - 1]));
        lemma_nodes_eq_same(x.children@, y.children@, depth + 1);
        assert(flat_of(x, depth) == flat_of(y, depth));
        assert(visible_one(x, depth) == visible_one(y, depth));
        assert(vis_count_one(x) == vis_count_one(y));
        assert forall|i: int| 0 <= i < a.len() implies (#[trigger] a[i]).is_dir == b[i].is_dir && depth_fits(a[i].children@, depth + 1) == depth_fits(b[i].children@, depth + 1) by {
            assert(node_eq(a[i], b[i]));
            assert(decreases_to!(a => a[i]));
            lemma_nodes_eq_same(a[i].children@, b[i].children@, depth + 1);
        }
        assert(depth_fits(a, depth) == depth_fits(b, depth)) by {
            if depth_fits(a, depth) {
                assert forall|i: int| 0 <= i < b.len() implies (#[trigger] b[i]).is_dir ==> depth < MAX_DEPTH && depth_fits(b[i].children@, depth + 1) by {
                    assert(a[i].is_dir == b[i].is_dir);
                }
            }
            if depth_fits(b, depth) {
                assert forall|i: int| 0 <= i < a.len() implies (#[trigger] a[i]).is_dir ==> depth < MAX_DEPTH && depth_fits(a[i].children@, depth + 1) by {
                    assert(a[i].is_dir == b[i].is_dir);
                }
            }
        }
    }
}

/// `new` is `old` with the node shown at visible line `t` folded or unfolded:
/// a directory there flips its `expanded` flag, a file stays as it is, and
/// every other node is unchanged.
pub open spec fn toggled(old: Seq<TreeNode>, new: Seq<TreeNode>, t: int) -> bool
    decreases old,
{
    if old.len() == 0 {
        new.len() == 0
    } else {
        &&& new.len() == old.len()
        &&& if t < vis_count(old.drop_last()) {
            toggled(old.drop_last(), new.drop_last(), t) && node_eq(old.last(), new.last())
        } else {
            nodes_eq(old.drop_last(), new.drop_last()) && toggled_one(
                old.last(),
                new.last(),
                t - vis_count(old.drop_last()),
            )
        }
    }
}

/// `n` is `o` with its visible line `k` (0 is `o` itself) folded or unfolded.
pub open spec fn toggled_one(o: TreeNode, n: TreeNode, k: int) -> bool
    decreases o,
{
    &&& same_node_fields(o, n)
    &&& if k == 0 {
        &&& n.expanded == if o.is_dir {
            !o.expanded
        } else {
            o.expanded
        }
        &&& nodes_eq(o.children@, n.children@)
    } else {
        &&& n.expanded == o.expanded
        &&& o.is_dir && o.expanded
        &&& toggled(o.children@, n.children@, k - 1)
    }
}

/// The visible-line count of a prefix grows by the count of the next node.
pub proof fn lemma_vis_count_take(s: Seq<TreeNode>, i: int)
    requires
        0 <= i < s.len(),
    ensures
        vis_count(s.take(i + 1)) == vis_count(s.take(i)) + vis_count_one(s[i]),
{
    assert(s.take(i + 1).drop_last() == s.take(i));
    assert(s.take(i + 1).last() == s[i]);
}

/// A prefix has no more visible lines than the whole sequence.
pub proof fn lemma_vis_count_prefix(s: Seq<TreeNode>, i: int)
    requires
        0 <= i <= s.len(),
    ensures
        vis_count(s.take(i)) <= vis_count(s),
    decreases s.len() - i,
{
    if i < s.len() {
        lemma_vis_count_take(s, i);
        lemma_vis_count_prefix(s, i + 1);
    } else {
        assert(s.take(i) == s);
    }
}

/// Changing node `i` as `toggled_one` says, and nothing else, toggles the whole
/// sequence at the matching line.
pub proof fn lemma_toggled_at(s: Seq<TreeNode>, new: Seq<TreeNode>, i: int, k: int)
    requires
        0 <= i < s.len(),
        new.len() == s.len(),
        forall|j: int| 0 <= j < s.len() && j != i ==> node_eq(#[trigger] s[j], new[j]),
        0 <= k < vis_count_one(s[i]),
        toggled_one(s[i], new[i], k),
    ensures
        toggled(s, new, vis_count(s.take(i)) + k),
    decreases s.len(),
{
    if i == s.len() - 1 {
        assert(s.take(i) == s.drop_last());
        assert(nodes_eq(s.drop_last(), new.drop_last())) by {
            assert forall|j: int| 0 <= j < s.drop_last().len() implies node_eq(
                #[trigger] s.drop_last()[j],
                new.drop_last()[j],
            ) by {
                assert(node_eq(s[j], new[j]));
            }
        }
    } else {
        lemma_vis_count_take(s, i);
        lemma_vis_count_prefix(s.drop_last(), i + 1);
        assert(s.drop_last().take(i + 1) == s.take(i + 1));
        assert(s.drop_last().take(i) == s.take(i));
        assert forall|j: int| 0 <= j < s.drop_last().len() && j != i implies node_eq(
            #[trigger] s.drop_last()[j],
            new.drop_last()[j],
        ) by {
            assert(node_eq(s[j], new[j]));
        }
        lemma_toggled_at(s.drop_last(), new.drop_last(), i, k);
        assert(node_eq(s[s.len() - 1], new[new.len() - 1]));
    }
}

/// Folding keeps the room for depth, which ignores folding.
pub proof fn lemma_toggled_fits(old: Seq<TreeNode>, new: Seq<TreeNode>, t: int, depth: int)
    requires
        toggled(old, new, t),
        depth_fits(old, depth),
    ensures
        depth_fits(new, depth),
    decreases old,
{
    if old.len() > 0 {
        assert(depth_fits(old.drop_last(), depth)) by {
            assert forall|i: int| 0 <= i < old.drop_last().len() implies (#[trigger] old.drop_last()[i]).is_dir ==> depth < MAX_DEPTH && depth_fits(old.drop_last()[i].children@, depth + 1) by {
                assert(old.drop_last()[i] == old[i]);
            }
        }
        let k = t - vis_count(old.drop_last());
        let o = old.last();
        let n = new.last();
        assert(o == old[old.len() - 1]);
        assert(n == new[new.len() - 1]);
        if t < vis_count(old.drop_last()) {
            lemma_toggled_fits(old.drop_last(), new.drop_last(), t, depth);
            assert(node_eq(o, n));
            lemma_nodes_eq_same(o.children@, n.children@, depth + 1);
        } else {
            lemma_nodes_eq_same(old.drop_last(), new.drop_last(), depth);
            assert(toggled_one(o, n, k));
            if k != 0 {
                lemma_toggled_fits(o.children@, n.children@, k - 1, depth + 1);
            } else {
                lemma_nodes_eq_same(o.children@, n.children@, depth + 1);
            }
        }
        assert forall|i: int| 0 <= i < new.len() implies (#[trigger] new[i]).is_dir ==> depth < MAX_DEPTH && depth_fits(new[i].children@, depth + 1) by {
            if i < new.len() - 1 {
                assert(new[i] == new.drop_last()[i]);
            } else {
                assert(new[i] == new.last());
                assert(old[i] == old.last());
            }
        }
    }
}

/// Sameness of trees goes both ways and chains.
pub proof fn lemma_nodes_eq_sym_trans(a: Seq<TreeNode>, b: Seq<TreeNode>, c: Seq<TreeNode>)
    ensures
        nodes_eq(a, b) ==> nodes_eq(b, a),
        nodes_eq(a, b) && nodes_eq(b, c) ==> nodes_eq(a, c),
    decreases a,
{
    if nodes_eq(a, b) {
        assert forall|i: int| 0 <= i < b.len() implies node_eq(#[trigger] b[i], a[i]) by {
            assert(node_eq(a[i], b[i]));
            assert(decreases_to!(a => a[i]));
            lemma_nodes_eq_sym_trans(a[i].children@, b[i].children@, b[i].children@);
        }
        if nodes_eq(b, c) {
            assert forall|i: int| 0 <= i < a.len() implies node_eq(#[trigger] a[i], c[i]) by {
                assert(node_eq(a[i], b[i]));
                assert(node_eq(b[i], c[i]));
                assert(decreases_to!(a => a[i]));
                lemma_nodes_eq_sym_trans(a[i].children@, b[i].children@, c[i].children@);
            }
        }
    }
}

/// The line that was folded or unfolded is still shown afterwards.
pub proof fn lemma_toggled_keeps_line(a: Seq<TreeNode>, b: Seq<TreeNode>, t: int)
    requires
        toggled(a, b, t),
        0 <= t < vis_count(a),
    ensures
        t < vis_count(b),
    decreases a,
{
    if a.len() > 0 {
        let c = vis_count(a.drop_last());
        if t < c {
            lemma_toggled_keeps_line(a.drop_last(), b.drop_last(), t);
        } else {
            lemma_nodes_eq_same(a.drop_last(), b.drop_last(), 0);
            let o = a.last();
            let n = b.last();
            let k = t - c;
            assert(toggled_one(o, n, k));
            assert(vis_count(a) == c + vis_count_one(o));
            assert(vis_count(b) == vis_count(b.drop_last()) + vis_count_one(n));
            if k > 0 {
                assert(o.is_dir && o.expanded && toggled(o.children@, n.children@, k - 1));
                assert(vis_count_one(o) == 1 + vis_count(o.children@));
                assert(decreases_to!(a => a[a.len() - 1]));
                lemma_toggled_keeps_line(o.children@, n.children@, k - 1);
                assert(vis_count_one(n) == 1 + vis_count(n.children@));
            }
        }
    }
}

/// Folding or unfolding the line of one node twice over gives back the same
/// node.
pub proof fn lemma_toggled_one_twice(a: TreeNode, b: TreeNode, c: TreeNode, k: int)
    requires
        toggled_one(a, b, k),
        toggled_one(b, c, k),
        0 <= k < vis_count_one(a),
    ensures
        node_eq(a, c),
    decreases a,
{
    if k == 0 {
        lemma_nodes_eq_sym_trans(a.children@, b.children@, c.children@);
    } else {
        assert(decreases_to!(a => a.children));
        assert(decreases_to!(a.children => a.children@));
        law_toggle_twice(a.children@, b.children@, c.children@, k - 1);
    }
}

/// Folding or unfolding the same visible line twice gives back the same tree:
/// the line still shows the same node after the first fold.
pub proof fn law_toggle_twice(a: Seq<TreeNode>, b: Seq<TreeNode>, c: Seq<TreeNode>, t: int)
    requires
        toggled(a, b, t),
        toggled(b, c, t),
        0 <= t < vis_count(a),
    ensures
        nodes_eq(a, c),
    decreases a,
{
    if a.len() > 0 {
        let ca = vis_count(a.drop_last());
        if t < ca {
            lemma_toggled_keeps_line(a.drop_last(), b.drop_last(), t);
            law_toggle_twice(a.drop_last(), b.drop_last(), c.drop_last(), t);
            lemma_nodes_eq_sym_trans(seq![a.last()], seq![b.last()], seq![c.last()]);
            assert(node_eq(seq![a.last()][0], seq![b.last()][0]));
            assert(nodes_eq(seq![a.last()], seq![b.last()]));
            assert(nodes_eq(seq![b.last()], seq![c.last()])) by {
                assert(node_eq(seq![b.last()][0], seq![c.last()][0]));
            }
            assert(node_eq(seq![a.last()][0], seq![c.last()][0]));
        } else {
            lemma_nodes_eq_same(a.drop_last(), b.drop_last(), 0);
            lemma_nodes_eq_sym_trans(a.drop_last(), b.drop_last(), c.drop_last());
            assert(decreases_to!(a => a[a.len() - 1]));
            lemma_toggled_one_twice(a.last(), b.last(), c.last(), t - ca);
        }
        assert forall|i: int| 0 <= i < a.len() implies node_eq(#[trigger] a[i], c[i]) by {
            if i < a.len() - 1 {
                assert(node_eq(a.drop_last()[i], c.drop_last()[i]));
            }
        }
    }
}

/// Walks the visible lines of `nodes` from line number `*count` on and folds
/// or unfolds the node at line `target`; says whether that line was among them.
fn toggle_node_recursive(nodes: &mut Vec<TreeNode>, target: usize, count: &mut usize) -> (found: bool)
    requires
        *old(count) <= target,
    ensures
        found == (target < *old(count) + vis_count(old(nodes)@)),
        found ==> toggled(old(nodes)@, final(nodes)@, target - *old(count)),
        !found ==> nodes_eq(old(nodes)@, final(nodes)@) && *final(count) == *old(count)
            + vis_count(old(nodes)@),
    decreases old(nodes)@,
{
    let ghost start = *count;
    let ghost orig = nodes@;
    proof {
        lemma_nodes_eq_refl(orig);
    }
    let mut i: usize = 0;
    while i < nodes.len()
        invariant
            i <= nodes@.len(),
            nodes@.len() == orig.len(),
            forall|j: int| 0 <= j < orig.len() ==> node_eq(#[trigger] orig[j], nodes@[j]),
            forall|j: int| i <= j < orig.len() ==> #[trigger] nodes@[j] == orig[j],
            orig == old(nodes)@,
            start == *old(count),
            start <= *count <= target,
            *count == start + vis_count(orig.take(i as int)),
        decreases nodes.len() - i,
    {
        proof {
            lemma_vis_count_take(orig, i as int);
        }
        if *count == target {
            let ghost before = nodes@;
            let node = &mut nodes[i];
            if node.is_dir {
                node.expanded = !node.expanded;
            }
            proof {
                assert(nodes@[i as int].children@ == orig[i as int].children@);
                lemma_nodes_eq_refl(orig[i as int].children@);
                assert(toggled_one(orig[i as int], nodes@[i as int], 0));
                assert forall|j: int| 0 <= j < orig.len() && j != i implies node_eq(
                    #[trigger] orig[j],
                    nodes@[j],
                ) by {
                    assert(nodes@[j] == before[j]);
                }
                lemma_toggled_at(orig, nodes@, i as int, 0);
                lemma_vis_count_prefix(orig, i as int + 1);
                assert(vis_count_one(orig[i as int]) >= 1);
            }
            return true;
        }
        *count = *count + 1;
        if nodes[i].is_dir && nodes[i].expanded {
            let ghost before = nodes@;
            let ghost c0 = *count;
            assert(decreases_to!(orig => orig[i as int]));
            assert(decreases_to!(orig[i as int] => orig[i as int].children));
            assert(decreases_to!(orig => orig[i as int].children@));
            let node = &mut nodes[i];
            let f = toggle_node_recursive(&mut node.children, target, count);
            if f {
                proof {
                    let n = nodes@[i as int];
                    lemma_vis_count_prefix(orig, i as int + 1);
                    assert(vis_count_one(orig[i as int]) == 1 + vis_count(orig[i as int].children@));
                    assert(toggled_one(orig[i as int], n, target - c0 + 1));
                    assert forall|j: int| 0 <= j < orig.len() && j != i implies node_eq(
                        #[trigger] orig[j],
                        nodes@[j],
                    ) by {
                        assert(nodes@[j] == before[j]);
                    }
                    lemma_toggled_at(orig, nodes@, i as int, target - c0 + 1);
                }
                return true;
            }
            proof {
                assert(node_eq(orig[i as int], nodes@[i as int]));
                assert forall|j: int| 0 <= j < orig.len() implies node_eq(
                    #[trigger] orig[j],
                    nodes@[j],
                ) by {
                    if j != i {
                        assert(nodes@[j] == before[j]);
                    }
                }
            }
        }
        i = i + 1;
    }
    assert(orig.take(orig.len() as int) == orig);
    false
}

/// Folds or unfolds the directory shown at visible line `flat_idx`; a file
/// there, or a line past the end, changes nothing.
pub fn toggle_node(nodes: &mut Vec<TreeNode>, flat_idx: usize)
    ensures
        flat_idx < vis_count(old(nodes)@) ==> toggled(old(nodes)@, final(nodes)@, flat_idx as int),
        flat_idx >= vis_count(old(nodes)@) ==> nodes_eq(old(nodes)@, final(nodes)@),
{
    let mut count: usize = 0;
    toggle_node_recursive(nodes, flat_idx, &mut count);
}


// ---------------------------------------------------------------------------
// Building the tree from the files of a diff.
// ---------------------------------------------------------------------------

/// The parts of a path joined with '/' between consecutive parts.
pub open spec fn joined(parts: Seq<Seq<char>>) -> Seq<char>
    decreases parts.len(),
{
    if parts.len() == 0 {
        Seq::empty()
    } else if parts.len() == 1 {
        parts[0]
    } else {
        joined(parts.drop_last()) + seq!['/'] + parts.last()
    }
}

/// Number of '/' characters in `s`.
pub open spec fn slashes(s: Seq<char>) -> nat
    decreases s.len(),
{
    if s.len() == 0 {
        0
    } else {
        slashes(s.drop_last()) + if s.last() == '/' {
            1nat
        } else {
            0nat
        }
    }
}

/// The views of a list of strings.
pub open spec fn views(v: Seq<String>) -> Seq<Seq<char>> {
    v.map_values(|p: String| p@)
}

/// Joining from the front: the first part, '/', then the rest.
pub proof fn lemma_joined_front(parts: Seq<Seq<char>>)
    requires
        parts.len() >= 2,
    ensures
        joined(parts) == parts[0] + seq!['/'] + joined(parts.drop_first()),
    decreases parts.len(),
{
    if parts.len() == 2 {
        assert(parts.drop_first().len() == 1);
        assert(parts.drop_last().len() == 1);
        assert(joined(parts.drop_last()) == parts[0]);
        assert(joined(parts.drop_first()) == parts[1]);
    } else {
        let dl = parts.drop_last();
        let df = parts.drop_first();
        lemma_joined_front(dl);
        assert(dl.drop_first() == df.drop_last());
        assert(df.last() == parts.last());
        assert(dl[0] == parts[0]);
        assert(joined(df) == joined(df.drop_last()) + seq!['/'] + df.last());
        assert(joined(parts) == joined(dl) + seq!['/'] + parts.last());
        assert(joined(parts) == parts[0] + seq!['/'] + joined(dl.drop_first()) + seq!['/']
            + parts.last());
        assert(joined(parts) =~= parts[0] + seq!['/'] + joined(df));
    }
}

/// Splits a path at each '/': the parts joined with '/' give the path back,
/// there is one part more than there are slashes, and no part holds a '/'.
pub fn split_path(s: &str) -> (r: Vec<String>)
    ensures
        r@.len() == slashes(s@) + 1,
        joined(views(r@)) == s@,
        forall|i: int| 0 <= i < r@.len() ==> !(#[trigger] r@[i]@).contains('/'),
{
    let cs = chars_of(s);
    let mut parts: Vec<String> = Vec::new();
    let mut cur = String::new();
    let mut i: usize = 0;
    while i < cs.len()
        invariant
            i <= cs@.len(),
            cs@ == s@,
            parts@.len() == slashes(cs@.take(i as int)),
            joined(views(parts@).push(cur@)) == cs@.take(i as int),
            forall|j: int| 0 <= j < parts@.len() ==> !(#[trigger] parts@[j]@).contains('/'),
            !cur@.contains('/'),
        decreases cs.len() - i,
    {
        let c = cs[i];
        let ghost old_parts = parts@;
        let ghost old_cur = cur@;
        assert(cs@.take(i + 1).drop_last() == cs@.take(i as int));
        assert(cs@.take(i + 1).last() == c);
        if c == '/' {
            parts.push(cur);
            cur = String::new();
            proof {
                let v = views(parts@).push(cur@);
                assert(views(parts@) == views(old_parts).push(old_cur));
                assert(v.drop_last() == views(old_parts).push(old_cur));
                assert(v.last() == Seq::<char>::empty());
                assert(v.len() >= 2);
                assert(cs@.take(i + 1) == cs@.take(i as int) + seq!['/']);
                assert forall|j: int| 0 <= j < parts@.len() implies !(#[trigger] parts@[j]@).contains('/') by {
                    if j < old_parts.len() {
                        assert(parts@[j] == old_parts[j]);
                    }
                }
                assert(!cur@.contains('/'));
            }
        } else {
            cur.push(c);
            proof {
                let v = views(parts@).push(cur@);
                let ov = views(old_parts).push(old_cur);
                assert(v.drop_last() == ov.drop_last());
                assert(v.last() == ov.last().push(c));
                if ov.len() >= 2 {
                    assert(joined(v) == joined(ov.drop_last()) + seq!['/'] + ov.last().push(c));
                    assert(joined(v) == joined(ov).push(c));
                } else {
                    assert(joined(v) == joined(ov).push(c));
                }
                assert(cs@.take(i + 1) == cs@.take(i as int).push(c));
                assert forall|k: int| 0 <= k < cur@.len() implies cur@[k] != '/' by {
                    if k < old_cur.len() {
                        assert(cur@[k] == old_cur[k]);
                        assert(!old_cur.contains('/'));
                    }
                }
            }
        }
        i = i + 1;
    }
    let ghost before = parts@;
    let ghost last = cur@;
    parts.push(cur);
    proof {
        assert(cs@.take(cs@.len() as int) == cs@);
        assert(views(parts@) == views(before).push(last));
        assert forall|j: int| 0 <= j < parts@.len() implies !(#[trigger] parts@[j]@).contains('/') by {
            if j < parts@.len() - 1 {
            }
        }
    }
    parts
}

/// A file line standing for one of `files`: its fields come from that file.
pub open spec fn leaf_of(n: TreeNode, files: Seq<DisplayFile>) -> bool {
    &&& !n.is_dir
    &&& n.children@.len() == 0
    &&& n.expanded
    &&& n.path@ == n.name@
    &&& n.file_idx is Some
    &&& n.file_idx->0 < files.len()
    &&& n.status == Some(files[n.file_idx->0 as int].status)
    &&& n.additions == files[n.file_idx->0 as int].additions
    &&& n.deletions == files[n.file_idx->0 as int].deletions
    &&& n.moved_from == files[n.file_idx->0 as int].moved_from
}

/// Every node is a file line of `files` or an expanded directory with at least
/// one child that shows the moved-from path of the first file below it; with
/// `flat`, no directory has a directory as its only child.
pub open spec fn shaped(nodes: Seq<TreeNode>, files: Seq<DisplayFile>, flat: bool) -> bool
    decreases nodes,
{
    forall|i: int| 0 <= i < nodes.len() ==> shaped_one(#[trigger] nodes[i], files, flat)
}

/// One node of a tree that is `shaped`.
pub open spec fn shaped_one(n: TreeNode, files: Seq<DisplayFile>, flat: bool) -> bool
    decreases n,
{
    if n.is_dir {
        &&& n.file_idx is None
        &&& n.status is None
        &&& n.expanded
        &&& n.children@.len() > 0
        &&& flat ==> !(n.children@.len() == 1 && n.children@[0].is_dir)
        &&& shaped(n.children@, files, flat)
        &&& exists|k: usize| #[trigger] first_below(n, k) && n.moved_from == files[k as int].moved_from
    } else {
        leaf_of(n, files)
    }
}

/// The file line of index `k` is `n` or lies below it.
pub open spec fn has_leaf_one(n: TreeNode, k: usize) -> bool
    decreases n,
{
    if n.is_dir {
        has_leaf(n.children@, k)
    } else {
        n.file_idx == Some(k)
    }
}

/// The file line of index `k` is one of `nodes` or lies below one of them.
pub open spec fn has_leaf(nodes: Seq<TreeNode>, k: usize) -> bool
    decreases nodes,
{
    exists|i: int| 0 <= i < nodes.len() && has_leaf_one(#[trigger] nodes[i], k)
}

/// `k` is the smallest index of a file line below `n`.
pub open spec fn first_below(n: TreeNode, k: usize) -> bool {
    has_leaf_one(n, k) && forall|k2: usize| #[trigger] has_leaf_one(n, k2) ==> k <= k2
}

/// `n` has one first file line.
proof fn lemma_first_unique(n: TreeNode, k1: usize, k2: usize)
    requires
        first_below(n, k1),
        first_below(n, k2),
    ensures
        k1 == k2,
{
    assert(has_leaf_one(n, k2));
    assert(has_leaf_one(n, k1));
}

/// Siblings come in the order of the first file lines below them, at every
/// level.
pub open spec fn by_first(nodes: Seq<TreeNode>) -> bool
    decreases nodes,
{
    &&& forall|a: int, b: int, ka: usize, kb: usize|
        #![trigger first_below(nodes[a], ka), first_below(nodes[b], kb)]
        0 <= a < b < nodes.len() && first_below(nodes[a], ka) && first_below(nodes[b], kb) ==> ka < kb
    &&& forall|i: int| 0 <= i < nodes.len() ==> (#[trigger] nodes[i]).is_dir ==> by_first(nodes[i].children@)
}

/// Siblings that sibling order puts level come in the order of the first file
/// lines below them, at every level.
pub open spec fn ties_by_first(nodes: Seq<TreeNode>) -> bool
    decreases nodes,
{
    &&& forall|a: int, b: int, ka: usize, kb: usize|
        #![trigger first_below(nodes[a], ka), first_below(nodes[b], kb)]
        0 <= a < b < nodes.len() && node_le(nodes[a], nodes[b]) && node_le(nodes[b], nodes[a]) && first_below(
            nodes[a],
            ka,
        ) && first_below(nodes[b], kb) ==> ka < kb
    &&& forall|i: int| 0 <= i < nodes.len() ==> (#[trigger] nodes[i]).is_dir ==> ties_by_first(nodes[i].children@)
}

/// A file line lies below `n` exactly when it has a full path there.
proof fn lemma_has_leaf_one(n: TreeNode, pre: Seq<char>, k: usize)
    ensures
        has_leaf_one(n, k) <==> exists|p: Seq<char>| #[trigger] leaf_at_one(n, pre, p, k),
    decreases n,
{
    if n.is_dir {
        let sub = pre + n.name@ + seq!['/'];
        assert(decreases_to!(n => n.children));
        assert(decreases_to!(n.children => n.children@));
        lemma_has_leaf(n.children@, sub, k);
        if has_leaf_one(n, k) {
            let p = choose|p: Seq<char>| #[trigger] leaf_at(n.children@, sub, p, k);
            assert(leaf_at_one(n, pre, p, k));
        }
        if exists|p: Seq<char>| #[trigger] leaf_at_one(n, pre, p, k) {
            let p = choose|p: Seq<char>| #[trigger] leaf_at_one(n, pre, p, k);
            assert(leaf_at(n.children@, sub, p, k));
        }
    } else if n.file_idx == Some(k) {
        assert(leaf_at_one(n, pre, pre + n.name@, k));
    }
}

/// A file line lies below `nodes` exactly when it has a full path there.
proof fn lemma_has_leaf(nodes: Seq<TreeNode>, pre: Seq<char>, k: usize)
    ensures
        has_leaf(nodes, k) <==> exists|p: Seq<char>| #[trigger] leaf_at(nodes, pre, p, k),
    decreases nodes,
{
    if has_leaf(nodes, k) {
        let i = choose|i: int| 0 <= i < nodes.len() && has_leaf_one(#[trigger] nodes[i], k);
        assert(decreases_to!(nodes => nodes[i]));
        lemma_has_leaf_one(nodes[i], pre, k);
        let p = choose|p: Seq<char>| #[trigger] leaf_at_one(nodes[i], pre, p, k);
        assert(leaf_at(nodes, pre, p, k));
    }
    if exists|p: Seq<char>| #[trigger] leaf_at(nodes, pre, p, k) {
        let p = choose|p: Seq<char>| #[trigger] leaf_at(nodes, pre, p, k);
        let i = choose|i: int| 0 <= i < nodes.len() && leaf_at_one(#[trigger] nodes[i], pre, p, k);
        assert(decreases_to!(nodes => nodes[i]));
        lemma_has_leaf_one(nodes[i], pre, k);
    }
}

/// Nodes with the same file lines at the same full paths have the same first
/// file line below them.
proof fn lemma_same_first(n: TreeNode, o: TreeNode, pre: Seq<char>)
    requires
        forall|p: Seq<char>, k: usize| #[trigger] leaf_at_one(n, pre, p, k) == leaf_at_one(o, pre, p, k),
    ensures
        forall|k: usize| #[trigger] first_below(n, k) == first_below(o, k),
{
    assert forall|k: usize| #[trigger] has_leaf_one(n, k) == has_leaf_one(o, k) by {
        lemma_has_leaf_one(n, pre, k);
        lemma_has_leaf_one(o, pre, k);
        if has_leaf_one(n, k) {
            let p = choose|p: Seq<char>| #[trigger] leaf_at_one(n, pre, p, k);
            assert(leaf_at_one(o, pre, p, k));
        }
        if has_leaf_one(o, k) {
            let p = choose|p: Seq<char>| #[trigger] leaf_at_one(o, pre, p, k);
            assert(leaf_at_one(n, pre, p, k));
        }
    }
    assert forall|k: usize| #[trigger] first_below(n, k) == first_below(o, k) by {
        if first_below(n, k) {
            assert forall|k2: usize| #[trigger] has_leaf_one(o, k2) implies k <= k2 by {
                assert(has_leaf_one(n, k2));
            }
        }
        if first_below(o, k) {
            assert forall|k2: usize| #[trigger] has_leaf_one(n, k2) implies k <= k2 by {
                assert(has_leaf_one(o, k2));
            }
        }
    }
}

/// Below `nodes`, whose names follow the path prefix `pre`, a file line of
/// index `k` has the full path `p`.
pub open spec fn leaf_at(nodes: Seq<TreeNode>, pre: Seq<char>, p: Seq<char>, k: usize) -> bool
    decreases nodes,
{
    exists|i: int| 0 <= i < nodes.len() && leaf_at_one(#[trigger] nodes[i], pre, p, k)
}

/// `n`, or a node below it, is a file line of index `k` with full path `p`.
pub open spec fn leaf_at_one(n: TreeNode, pre: Seq<char>, p: Seq<char>, k: usize) -> bool
    decreases n,
{
    if n.is_dir {
        leaf_at(n.children@, pre + n.name@ + seq!['/'], p, k)
    } else {
        n.file_idx == Some(k) && pre + n.name@ == p
    }
}

/// A node of a `shaped` list is `shaped_one`.
proof fn lemma_shaped_at(nodes: Seq<TreeNode>, files: Seq<DisplayFile>, flat: bool, i: int)
    requires
        shaped(nodes, files, flat),
        0 <= i < nodes.len(),
    ensures
        shaped_one(nodes[i], files, flat),
{
}

/// Some file line below `nodes` has the full path `p`.
pub open spec fn shows_at(nodes: Seq<TreeNode>, pre: Seq<char>, p: Seq<char>) -> bool {
    exists|k: usize| #[trigger] leaf_at(nodes, pre, p, k)
}

/// The additions (`adds`) or deletions of the file lines below `nodes`, summed.
pub open spec fn total(nodes: Seq<TreeNode>, adds: bool) -> nat
    decreases nodes,
{
    if nodes.len() == 0 {
        0
    } else {
        total(nodes.drop_last(), adds) + total_one(nodes.last(), adds)
    }
}

/// The additions or deletions of the file lines at or below `n`, summed.
pub open spec fn total_one(n: TreeNode, adds: bool) -> nat
    decreases n,
{
    if n.is_dir {
        total(n.children@, adds)
    } else if adds {
        n.additions as nat
    } else {
        n.deletions as nat
    }
}

/// Every node shows the additions and deletions of the file lines at or below it.
pub open spec fn counted(nodes: Seq<TreeNode>) -> bool
    decreases nodes,
{
    forall|i: int| 0 <= i < nodes.len() ==> counted_one(#[trigger] nodes[i])
}

/// One node of a tree that is `counted`.
pub open spec fn counted_one(n: TreeNode) -> bool
    decreases n,
{
    &&& n.additions == total_one(n, true)
    &&& n.deletions == total_one(n, false)
    &&& n.is_dir ==> counted(n.children@)
}

/// Some file of `files` has the path `p`.
pub open spec fn path_seen(files: Seq<DisplayFile>, p: Seq<char>) -> bool {
    exists|j: int| 0 <= j < files.len() && #[trigger] files[j].path@ == p
}

/// The additions (`adds`) or deletions of the files of `files` whose path no
/// earlier file has (the files that the tree shows), summed.
pub open spec fn shown_total(files: Seq<DisplayFile>, adds: bool) -> nat
    decreases files.len(),
{
    if files.len() == 0 {
        0
    } else {
        shown_total(files.drop_last(), adds) + if path_seen(files.drop_last(), files.last().path@) {
            0
        } else if adds {
            files.last().additions as nat
        } else {
            files.last().deletions as nat
        }
    }
}

/// The sum over a concatenation is the sum of the sums.
pub proof fn lemma_total_concat(a: Seq<TreeNode>, b: Seq<TreeNode>, adds: bool)
    ensures
        total(a + b, adds) == total(a, adds) + total(b, adds),
    decreases b.len(),
{
    if b.len() == 0 {
        assert(a + b == a);
    } else {
        lemma_total_concat(a, b.drop_last(), adds);
        assert((a + b).drop_last() == a + b.drop_last());
        assert((a + b).last() == b.last());
    }
}

/// Replacing one node changes the sum by the difference of the two nodes' sums.
pub proof fn lemma_total_update(s: Seq<TreeNode>, i: int, x: TreeNode, adds: bool)
    requires
        0 <= i < s.len(),
    ensures
        total(s.update(i, x), adds) + total_one(s[i], adds) == total(s, adds) + total_one(x, adds),
{
    let pre = s.take(i);
    let post = s.skip(i + 1);
    assert(s == pre + seq![s[i]] + post);
    assert(s.update(i, x) == pre + seq![x] + post);
    lemma_total_concat(pre + seq![s[i]], post, adds);
    lemma_total_concat(pre, seq![s[i]], adds);
    lemma_total_concat(pre + seq![x], post, adds);
    lemma_total_concat(pre, seq![x], adds);
    assert(seq![x].drop_last() == Seq::<TreeNode>::empty());
    assert(seq![s[i]].drop_last() == Seq::<TreeNode>::empty());
}

/// The parts from `start` on, joined with '/'.
fn join_parts(parts: &Vec<String>, start: usize) -> (r: String)
    requires
        start < parts@.len(),
    ensures
        r@ == joined(views(parts@).skip(start as int)),
{
    let mut r = parts[start].clone();
    let mut i: usize = start;
    assert(views(parts@).subrange(start as int, start + 1).len() == 1);
    while i < parts.len() - 1
        invariant
            start <= i < parts@.len(),
            r@ == joined(views(parts@).subrange(start as int, i + 1)),
        decreases parts.len() - i,
    {
        let ghost before = r@;
        i = i + 1;
        r.push('/');
        r.append(parts[i].as_str());
        proof {
            let v = views(parts@).subrange(start as int, i + 1);
            assert(v.drop_last() == views(parts@).subrange(start as int, i as int));
            assert(v.last() == parts@[i as int]@);
            assert(r@ == before + seq!['/'] + parts@[i as int]@);
        }
    }
    assert(views(parts@).subrange(start as int, parts@.len() as int) == views(parts@).skip(start as int));
    r
}

/// No name in the tree holds a '/'.
pub open spec fn slash_free(nodes: Seq<TreeNode>) -> bool
    decreases nodes,
{
    forall|i: int|
        0 <= i < nodes.len() ==> !(#[trigger] nodes[i]).name@.contains('/') && (nodes[i].is_dir
            ==> slash_free(nodes[i].children@))
}

/// No two siblings have the same name and kind, at every level.
pub open spec fn unique_names(nodes: Seq<TreeNode>) -> bool
    decreases nodes,
{
    &&& forall|i: int, j: int|
        #![trigger nodes[i], nodes[j]]
        0 <= i < j < nodes.len() ==> !(nodes[i].name@ == nodes[j].name@ && nodes[i].is_dir
            == nodes[j].is_dir)
    &&& forall|i: int| 0 <= i < nodes.len() ==> (#[trigger] nodes[i]).is_dir ==> unique_names(nodes[i].children@)
}

/// `p` starts with `q`.
pub open spec fn starts_with_seq(p: Seq<char>, q: Seq<char>) -> bool {
    q.len() <= p.len() && p.take(q.len() as int) == q
}

/// The full path of a file line starts with the prefix of the names above it.
proof fn lemma_leaf_prefix(n: TreeNode, pre: Seq<char>, p: Seq<char>, k: usize)
    requires
        leaf_at_one(n, pre, p, k),
    ensures
        n.is_dir ==> starts_with_seq(p, pre + n.name@ + seq!['/']),
        !n.is_dir ==> p == pre + n.name@,
    decreases n,
{
    if n.is_dir {
        let sub = pre + n.name@ + seq!['/'];
        let i = choose|i: int| 0 <= i < n.children@.len() && leaf_at_one(#[trigger] n.children@[i], sub, p, k);
        let c = n.children@[i];
        assert(decreases_to!(n => n.children));
        assert(decreases_to!(n.children => n.children@));
        assert(decreases_to!(n => c));
        lemma_leaf_prefix(c, sub, p, k);
        if c.is_dir {
            let sub2 = sub + c.name@ + seq!['/'];
            assert(p.take(sub.len() as int) == p.take(sub2.len() as int).take(sub.len() as int));
            assert(sub2.take(sub.len() as int) == sub);
        } else {
            assert(p.take(sub.len() as int) == sub);
        }
    }
}

/// Two '/'-free names that are each followed by '/' at the start of `s` are
/// the same name.
proof fn lemma_first_slash(a: Seq<char>, c: Seq<char>, s: Seq<char>)
    requires
        !a.contains('/'),
        !c.contains('/'),
        starts_with_seq(s, a + seq!['/']),
        starts_with_seq(s, c + seq!['/']),
    ensures
        a == c,
{
    assert(s[a.len() as int] == '/') by {
        assert(s.take(a.len() as int + 1)[a.len() as int] == (a + seq!['/'])[a.len() as int]);
    }
    assert(s[c.len() as int] == '/') by {
        assert(s.take(c.len() as int + 1)[c.len() as int] == (c + seq!['/'])[c.len() as int]);
    }
    if a.len() < c.len() {
        assert(s.take(c.len() as int + 1)[a.len() as int] == (c + seq!['/'])[a.len() as int]);
        assert(c[a.len() as int] == '/');
    } else if c.len() < a.len() {
        assert(s.take(a.len() as int + 1)[c.len() as int] == (a + seq!['/'])[c.len() as int]);
        assert(a[c.len() as int] == '/');
    } else {
        assert forall|i: int| 0 <= i < a.len() implies a[i] == c[i] by {
            assert(s.take(a.len() as int + 1)[i] == (a + seq!['/'])[i]);
            assert(s.take(c.len() as int + 1)[i] == (c + seq!['/'])[i]);
        }
        assert(a =~= c);
    }
}

/// A file line of full path `pre + joined(parts from start)` below a node
/// whose name is '/'-free lies under the node named `parts[start]`: a
/// directory when more parts follow, the file line itself when it is the last.
proof fn lemma_leaf_shape(n: TreeNode, pre: Seq<char>, parts: Seq<Seq<char>>, start: int, k: usize)
    requires
        0 <= start < parts.len(),
        forall|q: int| 0 <= q < parts.len() ==> !(#[trigger] parts[q]).contains('/'),
        !n.name@.contains('/'),
        leaf_at_one(n, pre, pre + joined(parts.skip(start)), k),
    ensures
        n.name@ == parts[start],
        n.is_dir == (start < parts.len() - 1),
{
    let rest = parts.skip(start);
    let j = joined(rest);
    let p = pre + j;
    lemma_leaf_prefix(n, pre, p, k);
    assert(rest[0] == parts[start]);
    if start < parts.len() - 1 {
        lemma_joined_front(rest);
        assert(rest.len() >= 2);
        assert(j == parts[start] + seq!['/'] + joined(rest.drop_first()));
        let t = parts[start] + seq!['/'];
        assert(starts_with_seq(j, t)) by {
            assert(j.take(t.len() as int) =~= t);
        }
        if n.is_dir {
            let u = n.name@ + seq!['/'];
            assert(starts_with_seq(j, u)) by {
                assert(p.take((pre + u).len() as int) == pre + u);
                assert forall|i: int| 0 <= i < u.len() implies j[i] == u[i] by {
                    assert(p[pre.len() + i] == j[i]);
                    assert(p.take((pre + u).len() as int)[pre.len() + i] == (pre + u)[pre.len() + i]);
                }
                assert(j.take(u.len() as int) =~= u);
            }
            lemma_first_slash(n.name@, parts[start], j);
        } else {
            assert(pre + n.name@ == pre + j);
            assert(n.name@ =~= j) by {
                assert((pre + n.name@).len() == (pre + j).len());
                assert forall|i: int| 0 <= i < j.len() implies n.name@[i] == j[i] by {
                    assert((pre + n.name@)[pre.len() + i] == (pre + j)[pre.len() + i]);
                }
            }
            assert(j[parts[start].len() as int] == '/');
            assert(n.name@.contains('/'));
        }
    } else {
        assert(rest.len() == 1);
        assert(j == parts[start]);
        if n.is_dir {
            let u = n.name@ + seq!['/'];
            assert(p.take((pre + u).len() as int) == pre + u);
            assert(p[pre.len() as int + n.name@.len()] == '/') by {
                assert(p.take((pre + u).len() as int)[pre.len() as int + n.name@.len()] == (pre + u)[pre.len() as int + n.name@.len()]);
            }
            assert(j[n.name@.len() as int] == '/');
            assert(parts[start].contains('/'));
        } else {
            assert(n.name@ =~= j) by {
                assert((pre + n.name@).len() == (pre + j).len());
                assert forall|i: int| 0 <= i < j.len() implies n.name@[i] == j[i] by {
                    assert((pre + n.name@)[pre.len() + i] == (pre + j)[pre.len() + i]);
                }
            }
        }
    }
}

/// No file line below `nodes` has the full path of `parts` from `start` on
/// when no sibling has the name `parts[start]` and the kind that the rest of
/// the path asks for.
proof fn lemma_absent_when_unmatched(nodes: Seq<TreeNode>, pre: Seq<char>, parts: Seq<Seq<char>>, start: int)
    requires
        0 <= start < parts.len(),
        slash_free(nodes),
        forall|q: int| 0 <= q < parts.len() ==> !(#[trigger] parts[q]).contains('/'),
        forall|j: int|
            0 <= j < nodes.len() ==> !((#[trigger] nodes[j]).name@ == parts[start] && nodes[j].is_dir
                != (start == parts.len() - 1)),
    ensures
        forall|k: usize| !#[trigger] leaf_at(nodes, pre, pre + joined(parts.skip(start)), k),
{
    assert forall|k: usize| !#[trigger] leaf_at(nodes, pre, pre + joined(parts.skip(start)), k) by {
        if leaf_at(nodes, pre, pre + joined(parts.skip(start)), k) {
            let i = choose|i: int| 0 <= i < nodes.len() && leaf_at_one(#[trigger] nodes[i], pre, pre + joined(parts.skip(start)), k);
            lemma_leaf_shape(nodes[i], pre, parts, start, k);
        }
    }
}

/// A file line with the full path of `parts` from `start` on lies under the
/// one directory named `parts[start]`, when more parts follow.
proof fn lemma_leaf_under(nodes: Seq<TreeNode>, pre: Seq<char>, parts: Seq<Seq<char>>, start: int, pos: int)
    requires
        0 <= start < parts.len() - 1,
        0 <= pos < nodes.len(),
        slash_free(nodes),
        unique_names(nodes),
        forall|q: int| 0 <= q < parts.len() ==> !(#[trigger] parts[q]).contains('/'),
        nodes[pos].is_dir,
        nodes[pos].name@ == parts[start],
    ensures
        forall|k: usize|
            #[trigger] leaf_at(nodes, pre, pre + joined(parts.skip(start)), k) ==> leaf_at(
                nodes[pos].children@,
                pre + parts[start] + seq!['/'],
                pre + joined(parts.skip(start)),
                k,
            ),
{
    assert forall|k: usize| #[trigger] leaf_at(nodes, pre, pre + joined(parts.skip(start)), k) implies leaf_at(
        nodes[pos].children@,
        pre + parts[start] + seq!['/'],
        pre + joined(parts.skip(start)),
        k,
    ) by {
        let i = choose|i: int| 0 <= i < nodes.len() && leaf_at_one(#[trigger] nodes[i], pre, pre + joined(parts.skip(start)), k);
        lemma_leaf_shape(nodes[i], pre, parts, start, k);
        if i < pos {
            assert(!(nodes[i].name@ == nodes[pos].name@ && nodes[i].is_dir == nodes[pos].is_dir));
        } else if pos < i {
            assert(!(nodes[pos].name@ == nodes[i].name@ && nodes[pos].is_dir == nodes[i].is_dir));
        }
    }
}

/// Replacing a node by one of the same name and kind whose children are
/// fine keeps the names '/'-free and unique.
proof fn lemma_names_update(nodes: Seq<TreeNode>, pos: int, n: TreeNode)
    requires
        0 <= pos < nodes.len(),
        slash_free(nodes),
        unique_names(nodes),
        n.name == nodes[pos].name,
        n.is_dir == nodes[pos].is_dir,
        n.is_dir ==> slash_free(n.children@) && unique_names(n.children@),
    ensures
        slash_free(nodes.update(pos, n)),
        unique_names(nodes.update(pos, n)),
{
    let t = nodes.update(pos, n);
    assert forall|i: int| 0 <= i < t.len() implies !(#[trigger] t[i]).name@.contains('/') && (t[i].is_dir
        ==> slash_free(t[i].children@)) by {
        if i != pos {
            assert(t[i] == nodes[i]);
        }
    }
    assert forall|i: int, j: int|
        #![trigger t[i], t[j]]
        0 <= i < j < t.len() implies !(t[i].name@ == t[j].name@ && t[i].is_dir == t[j].is_dir) by {
        assert(!(nodes[i].name@ == nodes[j].name@ && nodes[i].is_dir == nodes[j].is_dir));
    }
    assert forall|i: int| 0 <= i < t.len() implies (#[trigger] t[i]).is_dir ==> unique_names(t[i].children@) by {
        if i != pos {
            assert(t[i] == nodes[i]);
        }
    }
}

/// Adding a node whose name and kind no sibling has, with fine children,
/// keeps the names '/'-free and unique.
proof fn lemma_names_push(nodes: Seq<TreeNode>, n: TreeNode)
    requires
        slash_free(nodes),
        unique_names(nodes),
        !n.name@.contains('/'),
        n.is_dir ==> slash_free(n.children@) && unique_names(n.children@),
        forall|j: int| 0 <= j < nodes.len() ==> !((#[trigger] nodes[j]).name@ == n.name@ && nodes[j].is_dir == n.is_dir),
    ensures
        slash_free(nodes.push(n)),
        unique_names(nodes.push(n)),
{
    let t = nodes.push(n);
    assert forall|i: int| 0 <= i < t.len() implies !(#[trigger] t[i]).name@.contains('/') && (t[i].is_dir
        ==> slash_free(t[i].children@)) by {
        if i < nodes.len() {
            assert(t[i] == nodes[i]);
        }
    }
    assert forall|i: int, j: int|
        #![trigger t[i], t[j]]
        0 <= i < j < t.len() implies !(t[i].name@ == t[j].name@ && t[i].is_dir == t[j].is_dir) by {
        assert(t[i] == nodes[i]);
        if j < nodes.len() {
            assert(t[j] == nodes[j]);
            assert(!(nodes[i].name@ == nodes[j].name@ && nodes[i].is_dir == nodes[j].is_dir));
        }
    }
    assert forall|i: int| 0 <= i < t.len() implies (#[trigger] t[i]).is_dir ==> unique_names(t[i].children@) by {
        if i < nodes.len() {
            assert(t[i] == nodes[i]);
        }
    }
}

/// A directory that gains only file lines of an index above all those it had
/// keeps its first file line.
proof fn lemma_first_grows(oc: TreeNode, n: TreeNode, files: Seq<DisplayFile>, sub: Seq<char>, file_idx: usize)
    requires
        oc.is_dir,
        n.is_dir,
        n.moved_from == oc.moved_from,
        exists|k: usize| #[trigger] first_below(oc, k) && oc.moved_from == files[k as int].moved_from,
        forall|p: Seq<char>, k: usize|
            #[trigger] leaf_at(n.children@, sub, p, k) ==> leaf_at(oc.children@, sub, p, k) || k == file_idx,
        forall|p: Seq<char>, k: usize|
            #[trigger] leaf_at(oc.children@, sub, p, k) ==> leaf_at(n.children@, sub, p, k) && k < file_idx,
    ensures
        exists|k: usize| #[trigger] first_below(n, k) && n.moved_from == files[k as int].moved_from,
        forall|k: usize| #[trigger] first_below(n, k) == first_below(oc, k),
{
    let k0 = choose|k: usize| #[trigger] first_below(oc, k) && oc.moved_from == files[k as int].moved_from;
    lemma_has_leaf(oc.children@, sub, k0);
    lemma_has_leaf(n.children@, sub, k0);
    let p0 = choose|p: Seq<char>| #[trigger] leaf_at(oc.children@, sub, p, k0);
    assert(leaf_at(n.children@, sub, p0, k0));
    assert forall|k2: usize| #[trigger] has_leaf_one(n, k2) implies k0 <= k2 by {
        lemma_has_leaf(n.children@, sub, k2);
        lemma_has_leaf(oc.children@, sub, k2);
        let p2 = choose|p: Seq<char>| #[trigger] leaf_at(n.children@, sub, p, k2);
        if leaf_at(oc.children@, sub, p2, k2) {
            assert(has_leaf_one(oc, k2));
        }
    }
    assert(first_below(n, k0));
    assert forall|k: usize| #[trigger] first_below(n, k) == first_below(oc, k) by {
        if first_below(n, k) {
            lemma_first_unique(n, k, k0);
        }
        if first_below(oc, k) {
            lemma_first_unique(oc, k, k0);
        }
    }
}

/// A new directory whose only file line is `file_idx` has it as its first.
proof fn lemma_first_new(node: TreeNode, files: Seq<DisplayFile>, sub: Seq<char>, file_idx: usize, whole: Seq<char>)
    requires
        node.is_dir,
        file_idx < files.len(),
        node.moved_from == files[file_idx as int].moved_from,
        forall|p: Seq<char>, k: usize| #[trigger] leaf_at(node.children@, sub, p, k) ==> k == file_idx,
        exists|k: usize| #[trigger] leaf_at(node.children@, sub, whole, k),
    ensures
        exists|k: usize| #[trigger] first_below(node, k) && node.moved_from == files[k as int].moved_from,
        first_below(node, file_idx),
{
    let k = choose|k: usize| #[trigger] leaf_at(node.children@, sub, whole, k);
    lemma_has_leaf(node.children@, sub, k);
    assert forall|k2: usize| #[trigger] has_leaf_one(node, k2) implies k <= k2 by {
        lemma_has_leaf(node.children@, sub, k2);
    }
    assert(first_below(node, file_idx));
}

/// The first file line below each of `nodes` is one of the file lines below
/// `nodes`, so it lies below any bound on those.
proof fn lemma_first_bound(nodes: Seq<TreeNode>, pre: Seq<char>, bound: usize)
    requires
        forall|p: Seq<char>, k: usize| #[trigger] leaf_at(nodes, pre, p, k) ==> k < bound,
    ensures
        forall|a: int, ka: usize| 0 <= a < nodes.len() && #[trigger] first_below(nodes[a], ka) ==> ka < bound,
{
    assert forall|a: int, ka: usize| 0 <= a < nodes.len() && #[trigger] first_below(nodes[a], ka) implies ka
        < bound by {
        lemma_has_leaf_one(nodes[a], pre, ka);
        let p = choose|p: Seq<char>| #[trigger] leaf_at_one(nodes[a], pre, p, ka);
        assert(leaf_at(nodes, pre, p, ka));
    }
}

/// Replacing a node by one with the same first file line and children in
/// order keeps siblings in order.
proof fn lemma_by_first_update(nodes: Seq<TreeNode>, pos: int, n: TreeNode)
    requires
        0 <= pos < nodes.len(),
        by_first(nodes),
        n.is_dir ==> by_first(n.children@),
        forall|k: usize| #[trigger] first_below(n, k) == first_below(nodes[pos], k),
    ensures
        by_first(nodes.update(pos, n)),
{
    let t = nodes.update(pos, n);
    assert forall|a: int, b: int, ka: usize, kb: usize|
        #![trigger first_below(t[a], ka), first_below(t[b], kb)]
        0 <= a < b < t.len() && first_below(t[a], ka) && first_below(t[b], kb) implies ka < kb by {
        assert(first_below(nodes[a], ka) && first_below(nodes[b], kb));
    }
    assert forall|i: int| 0 <= i < t.len() implies (#[trigger] t[i]).is_dir ==> by_first(t[i].children@) by {
        if i != pos {
            assert(t[i] == nodes[i]);
        }
    }
}

/// A node added after all others, whose first file line comes after theirs,
/// keeps siblings in order.
proof fn lemma_by_first_push(nodes: Seq<TreeNode>, n: TreeNode, k: usize)
    requires
        by_first(nodes),
        n.is_dir ==> by_first(n.children@),
        first_below(n, k),
        forall|a: int, ka: usize| 0 <= a < nodes.len() && #[trigger] first_below(nodes[a], ka) ==> ka < k,
    ensures
        by_first(nodes.push(n)),
{
    let t = nodes.push(n);
    assert forall|a: int, b: int, ka: usize, kb: usize|
        #![trigger first_below(t[a], ka), first_below(t[b], kb)]
        0 <= a < b < t.len() && first_below(t[a], ka) && first_below(t[b], kb) implies ka < kb by {
        assert(t[a] == nodes[a]);
        if b < nodes.len() {
            assert(t[b] == nodes[b]);
        } else {
            assert(t[b] == n);
            lemma_first_unique(n, kb, k);
            assert(first_below(nodes[a], ka));
        }
    }
    assert forall|i: int| 0 <= i < t.len() implies (#[trigger] t[i]).is_dir ==> by_first(t[i].children@) by {
        if i < nodes.len() {
            assert(t[i] == nodes[i]);
        }
    }
}

/// Inserts file `file_idx`, whose path from `parts[start]` on is still to place,
/// below `nodes` (whose names follow the path prefix `pre`, at depth `depth`): it
/// walks down the directories named by the parts, creating those missing, and
/// adds the file line unless one of that name is there already.
fn insert_into_tree(
    nodes: &mut Vec<TreeNode>,
    parts: &Vec<String>,
    start: usize,
    file_idx: usize,
    file: &DisplayFile,
    Ghost(files): Ghost<Seq<DisplayFile>>,
    Ghost(pre): Ghost<Seq<char>>,
    Ghost(depth): Ghost<int>,
)
    requires
        start < parts@.len(),
        file_idx < files.len(),
        files[file_idx as int] == *file,
        shaped(old(nodes)@, files, false),
        depth_fits(old(nodes)@, depth),
        depth + parts@.len() - start <= MAX_DEPTH + 1,
        slash_free(old(nodes)@),
        unique_names(old(nodes)@),
        forall|q: int| 0 <= q < parts@.len() ==> !(#[trigger] views(parts@)[q]).contains('/'),
        forall|p: Seq<char>, k: usize| #[trigger] leaf_at(old(nodes)@, pre, p, k) ==> k < file_idx,
        by_first(old(nodes)@),
    ensures
        shaped(final(nodes)@, files, false),
        by_first(final(nodes)@),
        depth_fits(final(nodes)@, depth),
        slash_free(final(nodes)@),
        unique_names(final(nodes)@),
        final(nodes)@.len() > 0,
        forall|p: Seq<char>, k: usize|
            #[trigger] leaf_at(final(nodes)@, pre, p, k) ==> leaf_at(old(nodes)@, pre, p, k) || (p
                == pre + joined(views(parts@).skip(start as int)) && k == file_idx && forall|k2: usize|
                !#[trigger] leaf_at(old(nodes)@, pre, p, k2)),
        forall|p: Seq<char>, k: usize|
            #[trigger] leaf_at(old(nodes)@, pre, p, k) ==> leaf_at(final(nodes)@, pre, p, k),
        exists|k: usize| #[trigger]
            leaf_at(final(nodes)@, pre, pre + joined(views(parts@).skip(start as int)), k),
        total(final(nodes)@, true) == total(old(nodes)@, true) + if shows_at(
            old(nodes)@,
            pre,
            pre + joined(views(parts@).skip(start as int)),
        ) {
            0
        } else {
            file.additions as nat
        },
        total(final(nodes)@, false) == total(old(nodes)@, false) + if shows_at(
            old(nodes)@,
            pre,
            pre + joined(views(parts@).skip(start as int)),
        ) {
            0
        } else {
            file.deletions as nat
        },
    decreases parts@.len() - start,
{
    let ghost orig = nodes@;
    let ghost whole = pre + joined(views(parts@).skip(start as int));
    let is_last = start == parts.len() - 1;
    let name = &parts[start];
    proof {
        if is_last {
            assert(views(parts@).skip(start as int).len() == 1);
            assert(joined(views(parts@).skip(start as int)) == name@);
        } else {
            let v = views(parts@).skip(start as int);
            lemma_joined_front(v);
            assert(v.drop_first() == views(parts@).skip(start + 1));
            assert(v[0] == name@);
        }
    }
    let mut pos: usize = 0;
    let mut found = false;
    while pos < nodes.len()
        invariant
            pos <= nodes@.len(),
            nodes@ == orig,
            found ==> pos < nodes@.len() && nodes@[pos as int].name@ == name@
                && nodes@[pos as int].is_dir != is_last,
            !found ==> forall|j: int|
                0 <= j < pos ==> !((#[trigger] nodes@[j]).name@ == name@ && nodes@[j].is_dir != is_last),
        ensures
            nodes@ == orig,
            found ==> pos < nodes@.len() && nodes@[pos as int].name@ == name@
                && nodes@[pos as int].is_dir != is_last,
            !found ==> forall|j: int|
                0 <= j < nodes@.len() ==> !((#[trigger] nodes@[j]).name@ == name@ && nodes@[j].is_dir != is_last),
        decreases nodes.len() - pos,
    {
        if nodes[pos].name == *name && nodes[pos].is_dir != is_last {
            found = true;
            break;
        }
        pos = pos + 1;
    }
    if found {
        if !is_last {
            let ghost old_child = nodes@[pos as int];
            let ghost sub_pre = pre + name@ + seq!['/'];
            proof {
                lemma_shaped_at(orig, files, false, pos as int);
                assert(!orig[pos as int].name@.contains('/') && (orig[pos as int].is_dir ==> slash_free(orig[pos as int].children@)));
                assert(orig[pos as int].is_dir ==> unique_names(orig[pos as int].children@));
                assert(orig[pos as int].is_dir ==> by_first(orig[pos as int].children@));
                lemma_leaf_under(orig, pre, views(parts@), start as int, pos as int);
                assert forall|p: Seq<char>, k: usize| #[trigger] leaf_at(old_child.children@, sub_pre, p, k) implies k
                    < file_idx by {
                    assert(leaf_at_one(orig[pos as int], pre, p, k));
                    assert(leaf_at(orig, pre, p, k));
                }
            }
            assert(decreases_to!(orig => orig[pos as int]));
            let node = &mut nodes[pos];
            insert_into_tree(
                &mut node.children,
                parts,
                start + 1,
                file_idx,
                file,
                Ghost(files),
                Ghost(sub_pre),
                Ghost(depth + 1),
            );
            proof {
                let n = nodes@[pos as int];
                assert(nodes@ == orig.update(pos as int, n));
                assert(sub_pre + joined(views(parts@).skip(start + 1)) == whole);
                lemma_first_grows(old_child, n, files, sub_pre, file_idx);
                lemma_by_first_update(orig, pos as int, n);
                assert(shaped_one(n, files, false));
                assert forall|i: int| 0 <= i < nodes@.len() implies #[trigger] shaped_one(
                    nodes@[i],
                    files,
                    false,
                ) by {
                    if i != pos {
                        assert(nodes@[i] == orig[i]);
                    }
                }
                assert forall|i: int| 0 <= i < nodes@.len() implies (#[trigger] nodes@[i]).is_dir
                    ==> depth < MAX_DEPTH && depth_fits(nodes@[i].children@, depth + 1) by {
                    if i != pos {
                        assert(nodes@[i] == orig[i]);
                    } else {
                        assert(orig[i].is_dir);
                    }
                }
                lemma_names_update(orig, pos as int, n);
                assert(views(parts@)[start as int] == name@);
                assert forall|p: Seq<char>, k: usize| #[trigger]
                    leaf_at(nodes@, pre, p, k) implies leaf_at(orig, pre, p, k) || (p == whole && k
                    == file_idx && forall|k2: usize| !#[trigger] leaf_at(orig, pre, p, k2)) by {
                    let i = choose|i: int| 0 <= i < nodes@.len() && leaf_at_one(
                        #[trigger] nodes@[i],
                        pre,
                        p,
                        k,
                    );
                    if i != pos {
                        assert(nodes@[i] == orig[i]);
                        assert(leaf_at_one(orig[i], pre, p, k));
                    } else {
                        assert(leaf_at(n.children@, sub_pre, p, k));
                        if leaf_at(old_child.children@, sub_pre, p, k) {
                            assert(leaf_at_one(orig[i], pre, p, k));
                        } else {
                            assert forall|k2: usize| !#[trigger] leaf_at(orig, pre, p, k2) by {
                                if leaf_at(orig, pre, whole, k2) {
                                    assert(leaf_at(old_child.children@, sub_pre, whole, k2));
                                }
                            }
                        }
                    }
                }
                assert forall|p: Seq<char>, k: usize| #[trigger]
                    leaf_at(orig, pre, p, k) implies leaf_at(nodes@, pre, p, k) by {
                    let i = choose|i: int| 0 <= i < orig.len() && leaf_at_one(
                        #[trigger] orig[i],
                        pre,
                        p,
                        k,
                    );
                    if i != pos {
                        assert(nodes@[i] == orig[i]);
                        assert(leaf_at_one(nodes@[i], pre, p, k));
                    } else {
                        assert(leaf_at(old_child.children@, sub_pre, p, k));
                        assert(leaf_at_one(nodes@[i], pre, p, k));
                    }
                }
                let k = choose|k: usize| #[trigger]
                    leaf_at(n.children@, sub_pre, sub_pre + joined(views(parts@).skip(start + 1)), k);
                assert(leaf_at_one(nodes@[pos as int], pre, whole, k));
                assert(leaf_at(nodes@, pre, whole, k));
                lemma_total_update(orig, pos as int, n, true);
                lemma_total_update(orig, pos as int, n, false);
                assert(n.is_dir && old_child.is_dir);
                assert(total_one(n, true) == total(n.children@, true));
                assert(total_one(old_child, true) == total(old_child.children@, true));
                assert(total_one(n, false) == total(n.children@, false));
                assert(total_one(old_child, false) == total(old_child.children@, false));
            }
        } else {
            proof {
                let n = orig[pos as int];
                assert(shaped_one(n, files, false));
                let k = n.file_idx->0;
                assert(leaf_at_one(n, pre, whole, k));
                assert(leaf_at(nodes@, pre, whole, k));
            }
        }
    } else {
        let mut node = TreeNode {
            name: name.clone(),
            path: join_parts(parts, start),
            is_dir: !is_last,
            file_idx: if is_last {
                Some(file_idx)
            } else {
                None
            },
            status: if is_last {
                Some(file.status)
            } else {
                None
            },
            additions: if is_last {
                file.additions
            } else {
                0
            },
            deletions: if is_last {
                file.deletions
            } else {
                0
            },
            children: Vec::new(),
            expanded: true,
            moved_from: copy_opt_string(&file.moved_from),
        };
        let ghost sub_pre = pre + name@ + seq!['/'];
        if !is_last {
            assert(forall|p: Seq<char>, k: usize| !#[trigger] leaf_at(Seq::<TreeNode>::empty(), sub_pre, p, k));
            insert_into_tree(
                &mut node.children,
                parts,
                start + 1,
                file_idx,
                file,
                Ghost(files),
                Ghost(sub_pre),
                Ghost(depth + 1),
            );
            proof {
                assert(sub_pre + joined(views(parts@).skip(start + 1)) == whole);
                let k = choose|k: usize| #[trigger]
                    leaf_at(node.children@, sub_pre, sub_pre + joined(views(parts@).skip(start + 1)), k);
                assert(leaf_at(node.children@, sub_pre, whole, k));
                lemma_first_new(node, files, sub_pre, file_idx, whole);
            }
        }
        proof {
            assert(views(parts@)[start as int] == name@);
            assert(forall|j: int|
                0 <= j < orig.len() ==> !((#[trigger] orig[j]).name@ == name@ && orig[j].is_dir != is_last));
            lemma_absent_when_unmatched(orig, pre, views(parts@), start as int);
            lemma_names_push(orig, node);
            lemma_first_bound(orig, pre, file_idx);
            if is_last {
                assert forall|k2: usize| #[trigger] has_leaf_one(node, k2) implies file_idx <= k2 by {
                }
                assert(first_below(node, file_idx));
            }
            lemma_by_first_push(orig, node, file_idx);
        }
        nodes.push(node);
        proof {
            assert(nodes@ == orig.push(node));
            assert(nodes@.drop_last() == orig);
            let last = orig.len() as int;
            assert(nodes@[last] == node);
            assert(shaped_one(node, files, false));
            assert forall|i: int| 0 <= i < nodes@.len() implies #[trigger] shaped_one(
                nodes@[i],
                files,
                false,
            ) by {
                if i < orig.len() {
                    assert(nodes@[i] == orig[i]);
                }
            }
            assert forall|i: int| 0 <= i < nodes@.len() implies (#[trigger] nodes@[i]).is_dir
                ==> depth < MAX_DEPTH && depth_fits(nodes@[i].children@, depth + 1) by {
                if i < orig.len() {
                    assert(nodes@[i] == orig[i]);
                }
            }
            assert forall|p: Seq<char>, k: usize| #[trigger]
                leaf_at(nodes@, pre, p, k) implies leaf_at(orig, pre, p, k) || (p == whole && k
                == file_idx && forall|k2: usize| !#[trigger] leaf_at(orig, pre, p, k2)) by {
                let i = choose|i: int| 0 <= i < nodes@.len() && leaf_at_one(
                    #[trigger] nodes@[i],
                    pre,
                    p,
                    k,
                );
                if i < last {
                    assert(nodes@[i] == orig[i]);
                    assert(leaf_at_one(orig[i], pre, p, k));
                } else {
                    assert(nodes@[i] == node);
                    if !is_last {
                        assert(leaf_at(node.children@, sub_pre, p, k));
                        assert(p == sub_pre + joined(views(parts@).skip(start + 1)));
                    }
                }
            }
            assert forall|p: Seq<char>, k: usize| #[trigger]
                leaf_at(orig, pre, p, k) implies leaf_at(nodes@, pre, p, k) by {
                let i = choose|i: int| 0 <= i < orig.len() && leaf_at_one(
                    #[trigger] orig[i],
                    pre,
                    p,
                    k,
                );
                assert(nodes@[i] == orig[i]);
                assert(leaf_at_one(nodes@[i], pre, p, k));
            }
            if is_last {
                assert(leaf_at_one(node, pre, whole, file_idx));
                assert(leaf_at(nodes@, pre, whole, file_idx));
            } else {
                let k = choose|k: usize| #[trigger]
                    leaf_at(node.children@, sub_pre, sub_pre + joined(views(parts@).skip(start + 1)), k);
                assert(leaf_at_one(node, pre, whole, k));
                assert(leaf_at(nodes@, pre, whole, k));
            }
            assert(total(Seq::<TreeNode>::empty(), true) == 0);
            assert(total(Seq::<TreeNode>::empty(), false) == 0);
            assert(nodes@.last() == node);
            assert(total(nodes@, true) == total(orig, true) + total_one(node, true));
            assert(total(nodes@, false) == total(orig, false) + total_one(node, false));
        }
    }
}

/// The two lists have the same file lines with the same full paths.
pub open spec fn same_leaves(a: Seq<TreeNode>, b: Seq<TreeNode>, pre: Seq<char>) -> bool {
    forall|p: Seq<char>, k: usize|
        #![trigger leaf_at(a, pre, p, k)]
        #![trigger leaf_at(b, pre, p, k)]
        leaf_at(a, pre, p, k) == leaf_at(b, pre, p, k)
}

/// Lists that agree node by node on their file lines agree as a whole.
proof fn lemma_same_leaves_pointwise(a: Seq<TreeNode>, b: Seq<TreeNode>, pre: Seq<char>)
    requires
        a.len() == b.len(),
        forall|i: int, p: Seq<char>, k: usize|
            0 <= i < a.len() ==> #[trigger] leaf_at_one(a[i], pre, p, k) == leaf_at_one(b[i], pre, p, k),
    ensures
        same_leaves(a, b, pre),
{
    assert forall|p: Seq<char>, k: usize| leaf_at(a, pre, p, k) implies leaf_at(b, pre, p, k) by {
        let i = choose|i: int| 0 <= i < a.len() && leaf_at_one(#[trigger] a[i], pre, p, k);
        assert(leaf_at_one(a[i], pre, p, k) == leaf_at_one(b[i], pre, p, k));
    }
    assert forall|p: Seq<char>, k: usize| leaf_at(b, pre, p, k) implies leaf_at(a, pre, p, k) by {
        let i = choose|i: int| 0 <= i < b.len() && leaf_at_one(#[trigger] b[i], pre, p, k);
        assert(leaf_at_one(a[i], pre, p, k) == leaf_at_one(b[i], pre, p, k));
    }
}

/// Lists that agree node by node on their sums agree as a whole.
proof fn lemma_total_pointwise(a: Seq<TreeNode>, b: Seq<TreeNode>, adds: bool)
    requires
        a.len() == b.len(),
        forall|i: int| 0 <= i < a.len() ==> total_one(#[trigger] a[i], adds) == total_one(b[i], adds),
    ensures
        total(a, adds) == total(b, adds),
    decreases a.len(),
{
    if a.len() > 0 {
        lemma_total_pointwise(a.drop_last(), b.drop_last(), adds);
        assert(total_one(a[a.len() - 1], adds) == total_one(b[a.len() - 1], adds));
    }
}

/// Room for one level more leaves room for the same levels.
proof fn lemma_depth_fits_mono(s: Seq<TreeNode>, d: int)
    requires
        depth_fits(s, d + 1),
    ensures
        depth_fits(s, d),
    decreases s,
{
    assert forall|i: int| 0 <= i < s.len() implies (#[trigger] s[i]).is_dir ==> d < MAX_DEPTH
        && depth_fits(s[i].children@, d + 1) by {
        if s[i].is_dir {
            assert(decreases_to!(s => s[i]));
            lemma_depth_fits_mono(s[i].children@, d + 1);
        }
    }
}

/// `x` is the name `o`, or a name that starts with `o` and a '/'.
pub open spec fn keeps_head(x: Seq<char>, o: Seq<char>) -> bool {
    x == o || starts_with_seq(x, o + seq!['/'])
}

/// Names that keep the heads of two different '/'-free names differ.
proof fn lemma_heads_differ(x: Seq<char>, y: Seq<char>, ox: Seq<char>, oy: Seq<char>)
    requires
        !ox.contains('/'),
        !oy.contains('/'),
        ox != oy,
        keeps_head(x, ox),
        keeps_head(y, oy),
    ensures
        x != y,
{
    if x == y {
        if x == ox && y != oy {
            assert(ox.take(oy.len() as int + 1)[oy.len() as int] == (oy + seq!['/'])[oy.len() as int]);
            assert(ox[oy.len() as int] == '/');
        } else if x != ox && y == oy {
            assert(oy.take(ox.len() as int + 1)[ox.len() as int] == (ox + seq!['/'])[ox.len() as int]);
            assert(oy[ox.len() as int] == '/');
        } else if x != ox && y != oy {
            lemma_first_slash(ox, oy, x);
        }
    }
}

/// Nodes that keep the kinds and name heads of a list of unique '/'-free
/// names, and whose children are unique, are unique.
proof fn lemma_unique_heads(t: Seq<TreeNode>, o: Seq<TreeNode>)
    requires
        t.len() == o.len(),
        slash_free(o),
        unique_names(o),
        forall|j: int|
            0 <= j < t.len() ==> (#[trigger] t[j]).is_dir == o[j].is_dir && keeps_head(t[j].name@, o[j].name@),
        forall|j: int| 0 <= j < t.len() ==> (#[trigger] t[j]).is_dir ==> unique_names(t[j].children@),
    ensures
        unique_names(t),
{
    assert forall|a: int, b: int|
        #![trigger t[a], t[b]]
        0 <= a < b < t.len() implies !(t[a].name@ == t[b].name@ && t[a].is_dir == t[b].is_dir) by {
        assert(!(o[a].name@ == o[b].name@ && o[a].is_dir == o[b].is_dir));
        assert(!o[a].name@.contains('/'));
        assert(!o[b].name@.contains('/'));
        if t[a].is_dir == t[b].is_dir {
            lemma_heads_differ(t[a].name@, t[b].name@, o[a].name@, o[b].name@);
        }
    }
}

/// Merges each directory whose only child is a directory with that child,
/// repeatedly and from the bottom up: the merged line is named "parent/child"
/// and shows the child's children.
fn flatten_single_child(
    nodes: &mut Vec<TreeNode>,
    Ghost(files): Ghost<Seq<DisplayFile>>,
    Ghost(pre): Ghost<Seq<char>>,
    Ghost(depth): Ghost<int>,
)
    requires
        shaped(old(nodes)@, files, false),
        depth_fits(old(nodes)@, depth),
        slash_free(old(nodes)@),
        unique_names(old(nodes)@),
        by_first(old(nodes)@),
    ensures
        final(nodes)@.len() == old(nodes)@.len(),
        shaped(final(nodes)@, files, true),
        unique_names(final(nodes)@),
        by_first(final(nodes)@),
        depth_fits(final(nodes)@, depth),
        same_leaves(old(nodes)@, final(nodes)@, pre),
        total(final(nodes)@, true) == total(old(nodes)@, true),
        total(final(nodes)@, false) == total(old(nodes)@, false),
    decreases old(nodes)@,
{
    let ghost orig = nodes@;
    let mut i: usize = 0;
    while i < nodes.len()
        invariant
            i <= nodes@.len(),
            nodes@.len() == orig.len(),
            orig == old(nodes)@,
            shaped(orig, files, false),
            depth_fits(orig, depth),
            slash_free(orig),
            unique_names(orig),
            by_first(orig),
            forall|j: int| 0 <= j < i ==> (#[trigger] nodes@[j]).is_dir ==> by_first(nodes@[j].children@),
            forall|j: int, k: usize| 0 <= j < i ==> #[trigger] first_below(nodes@[j], k) == first_below(orig[j], k),
            forall|j: int| i <= j < orig.len() ==> #[trigger] nodes@[j] == orig[j],
            forall|j: int| 0 <= j < i ==> shaped_one(#[trigger] nodes@[j], files, true),
            forall|j: int|
                0 <= j < i ==> (#[trigger] nodes@[j]).is_dir == orig[j].is_dir && keeps_head(
                    nodes@[j].name@,
                    orig[j].name@,
                ) && (nodes@[j].is_dir ==> unique_names(nodes@[j].children@)),
            forall|j: int|
                0 <= j < i ==> (#[trigger] nodes@[j]).is_dir ==> depth < MAX_DEPTH && depth_fits(
                    nodes@[j].children@,
                    depth + 1,
                ),
            forall|j: int, p: Seq<char>, k: usize|
                0 <= j < i ==> #[trigger] leaf_at_one(nodes@[j], pre, p, k) == leaf_at_one(
                    orig[j],
                    pre,
                    p,
                    k,
                ),
            forall|j: int|
                0 <= j < i ==> total_one(#[trigger] nodes@[j], true) == total_one(orig[j], true)
                    && total_one(nodes@[j], false) == total_one(orig[j], false),
        decreases nodes.len() - i,
    {
        let ghost o = orig[i as int];
        let ghost before = nodes@;
        assert(shaped_one(orig[i as int], files, false));
        assert(orig[i as int].is_dir ==> depth < MAX_DEPTH && depth_fits(orig[i as int].children@, depth + 1));
        assert(orig[i as int].is_dir ==> slash_free(orig[i as int].children@) && unique_names(orig[i as int].children@));
        assert(orig[i as int].is_dir ==> by_first(orig[i as int].children@));
        assert(decreases_to!(orig => orig[i as int]));
        let node = &mut nodes[i];
        let ghost sub_pre = pre + o.name@ + seq!['/'];
        if node.is_dir {
            flatten_single_child(&mut node.children, Ghost(files), Ghost(sub_pre), Ghost(depth + 1));
            while node.children.len() == 1 && node.children[0].is_dir
                invariant
                    node.is_dir,
                    node.file_idx == o.file_idx,
                    node.moved_from == o.moved_from,
                    node.status == o.status,
                    node.expanded == o.expanded,
                    node.additions == o.additions,
                    node.deletions == o.deletions,
                    node.children@.len() > 0,
                    shaped(node.children@, files, true),
                    unique_names(node.children@),
                    by_first(node.children@),
                    keeps_head(node.name@, o.name@),
                    depth < MAX_DEPTH,
                    depth_fits(node.children@, depth + 1),
                    forall|p: Seq<char>, k: usize|
                        #[trigger] leaf_at(node.children@, pre + node.name@ + seq!['/'], p, k)
                            == leaf_at(o.children@, sub_pre, p, k),
                    total(node.children@, true) == total(o.children@, true),
                    total(node.children@, false) == total(o.children@, false),
                decreases node.children@,
            {
                let ghost kids = node.children@;
                let ghost name0 = node.name@;
                let child = node.children.remove(0);
                assert(child == kids[0]);
                assert(shaped_one(kids[0], files, true));
                assert(kids[0].is_dir ==> unique_names(kids[0].children@));
                assert(kids[0].is_dir ==> by_first(kids[0].children@));
                node.name.push('/');
                node.name.append(child.name.as_str());
                node.path = child.path;
                node.children = child.children;
                proof {
                    let cp = pre + name0 + seq!['/'];
                    assert(pre + node.name@ + seq!['/'] == cp + child.name@ + seq!['/']);
                    assert(node.name@ == name0 + seq!['/'] + child.name@);
                    assert(keeps_head(node.name@, o.name@)) by {
                        let h = o.name@ + seq!['/'];
                        if name0 == o.name@ {
                            assert(node.name@.take(h.len() as int) =~= h);
                        } else {
                            assert(node.name@.take(h.len() as int) =~= name0.take(h.len() as int));
                        }
                    }
                    assert(kids[0].is_dir ==> depth + 1 < MAX_DEPTH && depth_fits(kids[0].children@, depth + 2));
                    lemma_depth_fits_mono(node.children@, depth + 1);
                    assert forall|p: Seq<char>, k: usize| #[trigger]
                        leaf_at(node.children@, pre + node.name@ + seq!['/'], p, k) == leaf_at(o.children@, sub_pre, p, k) by {
                        assert(leaf_at(kids, cp, p, k) == leaf_at(o.children@, sub_pre, p, k));
                        if leaf_at(kids, cp, p, k) {
                            let j = choose|j: int| 0 <= j < kids.len() && leaf_at_one(#[trigger] kids[j], cp, p, k);
                            assert(j == 0);
                        }
                        if leaf_at(node.children@, pre + node.name@ + seq!['/'], p, k) {
                            assert(leaf_at_one(kids[0], cp, p, k));
                        }
                    }
                    assert(total(kids, true) == total_one(kids[0], true)) by {
                        assert(kids.drop_last().len() == 0);
                        assert(total(kids.drop_last(), true) == 0);
                        assert(kids.last() == kids[0]);
                    }
                    assert(total(kids, false) == total_one(kids[0], false)) by {
                        assert(kids.drop_last().len() == 0);
                        assert(total(kids.drop_last(), false) == 0);
                        assert(kids.last() == kids[0]);
                    }
                    assert(decreases_to!(kids => kids[0]));
                    assert(decreases_to!(kids[0] => kids[0].children));
                    assert(decreases_to!(kids[0].children => kids[0].children@));
                    assert(decreases_to!(kids => node.children@));
                }
            }
        }
        proof {
            let n = nodes@[i as int];
            assert(nodes@ == before.update(i as int, n));
            if o.is_dir {
                assert forall|p: Seq<char>, k: usize| #[trigger] leaf_at_one(n, pre, p, k) == leaf_at_one(o, pre, p, k) by {
                    assert(leaf_at_one(n, pre, p, k) == leaf_at(n.children@, pre + n.name@ + seq!['/'], p, k));
                }
                lemma_same_first(n, o, pre);
                let k0 = choose|k: usize| #[trigger] first_below(o, k) && o.moved_from == files[k as int].moved_from;
                assert(first_below(n, k0));
                assert(shaped_one(n, files, true));
            } else {
                assert(n == o);
            }
            assert forall|k: usize| #[trigger] first_below(n, k) == first_below(o, k) by {
                if o.is_dir {
                    lemma_same_first(n, o, pre);
                }
            }
            assert forall|j: int| i < j < orig.len() implies #[trigger] nodes@[j] == orig[j] by {
                assert(nodes@[j] == before[j]);
            }
            assert forall|j: int| 0 <= j < i implies #[trigger] nodes@[j] == before[j] by {
            }
        }
        i = i + 1;
    }
    proof {
        assert forall|j: int| 0 <= j < nodes@.len() implies (#[trigger] nodes@[j]).is_dir ==> depth
            < MAX_DEPTH && depth_fits(nodes@[j].children@, depth + 1) by {
        }
        assert forall|j: int, p: Seq<char>, k: usize|
            0 <= j < orig.len() implies #[trigger] leaf_at_one(orig[j], pre, p, k) == leaf_at_one(
                nodes@[j],
                pre,
                p,
                k,
            ) by {
            assert(leaf_at_one(nodes@[j], pre, p, k) == leaf_at_one(orig[j], pre, p, k));
        }
        lemma_same_leaves_pointwise(orig, nodes@, pre);
        lemma_total_pointwise(nodes@, orig, true);
        lemma_total_pointwise(nodes@, orig, false);
        lemma_unique_heads(nodes@, orig);
        let t = nodes@;
        assert forall|a: int, b: int, ka: usize, kb: usize|
            #![trigger first_below(t[a], ka), first_below(t[b], kb)]
            0 <= a < b < t.len() && first_below(t[a], ka) && first_below(t[b], kb) implies ka < kb by {
            assert(first_below(orig[a], ka) && first_below(orig[b], kb));
        }
        assert(by_first(t));
    }
}

/// The sum over a prefix grows by one node at a time and never passes the whole.
proof fn lemma_total_take(s: Seq<TreeNode>, i: int, adds: bool)
    requires
        0 <= i < s.len(),
    ensures
        total(s.take(i + 1), adds) == total(s.take(i), adds) + total_one(s[i], adds),
        total(s.take(i + 1), adds) <= total(s, adds),
{
    assert(s.take(i + 1).drop_last() == s.take(i));
    assert(s.take(i + 1).last() == s[i]);
    assert(s == s.take(i + 1) + s.skip(i + 1));
    lemma_total_concat(s.take(i + 1), s.skip(i + 1), adds);
}

/// Sets the additions and deletions of every directory to the sums of the file
/// lines below it, and returns the sums over all of `nodes`.
fn propagate_stats(
    nodes: &mut Vec<TreeNode>,
    Ghost(files): Ghost<Seq<DisplayFile>>,
    Ghost(pre): Ghost<Seq<char>>,
    Ghost(depth): Ghost<int>,
    Ghost(flat): Ghost<bool>,
) -> (r: (u32, u32))
    requires
        total(old(nodes)@, true) <= u32::MAX,
        total(old(nodes)@, false) <= u32::MAX,
        shaped(old(nodes)@, files, flat),
        depth_fits(old(nodes)@, depth),
        unique_names(old(nodes)@),
        by_first(old(nodes)@),
    ensures
        r.0 == total(old(nodes)@, true),
        unique_names(final(nodes)@),
        by_first(final(nodes)@),
        r.1 == total(old(nodes)@, false),
        counted(final(nodes)@),
        final(nodes)@.len() == old(nodes)@.len(),
        forall|j: int|
            0 <= j < old(nodes)@.len() ==> (#[trigger] final(nodes)@[j]).is_dir == old(nodes)@[j].is_dir
                && final(nodes)@[j].name == old(nodes)@[j].name,
        shaped(final(nodes)@, files, flat),
        depth_fits(final(nodes)@, depth),
        same_leaves(old(nodes)@, final(nodes)@, pre),
        total(final(nodes)@, true) == total(old(nodes)@, true),
        total(final(nodes)@, false) == total(old(nodes)@, false),
    decreases old(nodes)@,
{
    let ghost orig = nodes@;
    let mut total_add: u32 = 0;
    let mut total_del: u32 = 0;
    let mut i: usize = 0;
    while i < nodes.len()
        invariant
            i <= nodes@.len(),
            nodes@.len() == orig.len(),
            orig == old(nodes)@,
            total(orig, true) <= u32::MAX,
            total(orig, false) <= u32::MAX,
            shaped(orig, files, flat),
            depth_fits(orig, depth),
            unique_names(orig),
            by_first(orig),
            forall|j: int| 0 <= j < i ==> (#[trigger] nodes@[j]).is_dir ==> unique_names(nodes@[j].children@),
            forall|j: int| 0 <= j < i ==> (#[trigger] nodes@[j]).is_dir ==> by_first(nodes@[j].children@),
            forall|j: int, k: usize| 0 <= j < i ==> #[trigger] first_below(nodes@[j], k) == first_below(orig[j], k),
            total_add == total(orig.take(i as int), true),
            total_del == total(orig.take(i as int), false),
            forall|j: int| i <= j < orig.len() ==> #[trigger] nodes@[j] == orig[j],
            forall|j: int| 0 <= j < i ==> counted_one(#[trigger] nodes@[j]),
            forall|j: int|
                0 <= j < i ==> (#[trigger] nodes@[j]).is_dir == orig[j].is_dir && nodes@[j].name
                    == orig[j].name,
            forall|j: int| 0 <= j < i ==> shaped_one(#[trigger] nodes@[j], files, flat),
            forall|j: int|
                0 <= j < i ==> (#[trigger] nodes@[j]).is_dir ==> depth < MAX_DEPTH && depth_fits(
                    nodes@[j].children@,
                    depth + 1,
                ),
            forall|j: int, p: Seq<char>, k: usize|
                0 <= j < i ==> #[trigger] leaf_at_one(nodes@[j], pre, p, k) == leaf_at_one(
                    orig[j],
                    pre,
                    p,
                    k,
                ),
            forall|j: int|
                0 <= j < i ==> total_one(#[trigger] nodes@[j], true) == total_one(orig[j], true)
                    && total_one(nodes@[j], false) == total_one(orig[j], false),
        decreases nodes.len() - i,
    {
        let ghost o = orig[i as int];
        let ghost before = nodes@;
        proof {
            lemma_total_take(orig, i as int, true);
            lemma_total_take(orig, i as int, false);
        }
        assert(shaped_one(orig[i as int], files, flat));
        assert(orig[i as int].is_dir ==> depth < MAX_DEPTH && depth_fits(orig[i as int].children@, depth + 1));
        assert(orig[i as int].is_dir ==> unique_names(orig[i as int].children@));
        assert(orig[i as int].is_dir ==> by_first(orig[i as int].children@));
        assert(decreases_to!(orig => orig[i as int]));
        let node = &mut nodes[i];
        if node.is_dir {
            let ghost sub_pre = pre + o.name@ + seq!['/'];
            let (add, del) = propagate_stats(
                &mut node.children,
                Ghost(files),
                Ghost(sub_pre),
                Ghost(depth + 1),
                Ghost(flat),
            );
            node.additions = add;
            node.deletions = del;
        }
        total_add = total_add + node.additions;
        total_del = total_del + node.deletions;
        proof {
            let n = nodes@[i as int];
            assert(nodes@ == before.update(i as int, n));
            assert forall|p: Seq<char>, k: usize| #[trigger] leaf_at_one(n, pre, p, k) == leaf_at_one(o, pre, p, k) by {
                if o.is_dir {
                    assert(leaf_at_one(n, pre, p, k) == leaf_at(n.children@, pre + n.name@ + seq!['/'], p, k));
                }
            }
            lemma_same_first(n, o, pre);
            if o.is_dir {
                let k0 = choose|k: usize| #[trigger] first_below(o, k) && o.moved_from == files[k as int].moved_from;
                assert(first_below(n, k0));
            }
            assert(shaped_one(n, files, flat));
            assert(counted_one(n));
            assert forall|j: int| i < j < orig.len() implies #[trigger] nodes@[j] == orig[j] by {
                assert(nodes@[j] == before[j]);
            }
            assert forall|j: int| 0 <= j < i implies #[trigger] nodes@[j] == before[j] by {
            }
        }
        i = i + 1;
    }
    proof {
        assert(orig.take(orig.len() as int) == orig);
        assert forall|j: int, p: Seq<char>, k: usize|
            0 <= j < orig.len() implies #[trigger] leaf_at_one(orig[j], pre, p, k) == leaf_at_one(
                nodes@[j],
                pre,
                p,
                k,
            ) by {
            assert(leaf_at_one(nodes@[j], pre, p, k) == leaf_at_one(orig[j], pre, p, k));
        }
        lemma_same_leaves_pointwise(orig, nodes@, pre);
        lemma_total_pointwise(nodes@, orig, true);
        lemma_total_pointwise(nodes@, orig, false);
        let t = nodes@;
        assert forall|a: int, b: int|
            #![trigger t[a], t[b]]
            0 <= a < b < t.len() implies !(t[a].name@ == t[b].name@ && t[a].is_dir == t[b].is_dir) by {
            assert(!(orig[a].name@ == orig[b].name@ && orig[a].is_dir == orig[b].is_dir));
        }
        assert(unique_names(t));
        assert forall|a: int, b: int, ka: usize, kb: usize|
            #![trigger first_below(t[a], ka), first_below(t[b], kb)]
            0 <= a < b < t.len() && first_below(t[a], ka) && first_below(t[b], kb) implies ka < kb by {
            assert(first_below(orig[a], ka) && first_below(orig[b], kb));
        }
        assert(by_first(t));
    }
    (total_add, total_del)
}

/// `a` comes no later than `b` in character order; a prefix comes first.
pub open spec fn lex_le(a: Seq<char>, b: Seq<char>) -> bool
    decreases a.len(),
{
    if a.len() == 0 {
        true
    } else if b.len() == 0 {
        false
    } else if (a[0] as u32) != (b[0] as u32) {
        (a[0] as u32) < (b[0] as u32)
    } else {
        lex_le(a.drop_first(), b.drop_first())
    }
}

/// Any two strings are ordered one way or the other.
pub proof fn lemma_lex_total(a: Seq<char>, b: Seq<char>)
    ensures
        lex_le(a, b) || lex_le(b, a),
    decreases a.len(),
{
    if a.len() > 0 && b.len() > 0 && (a[0] as u32) == (b[0] as u32) {
        lemma_lex_total(a.drop_first(), b.drop_first());
    }
}

/// Character order is transitive.
pub proof fn lemma_lex_trans(a: Seq<char>, b: Seq<char>, c: Seq<char>)
    requires
        lex_le(a, b),
        lex_le(b, c),
    ensures
        lex_le(a, c),
    decreases a.len(),
{
    if a.len() > 0 && b.len() > 0 && c.len() > 0 && (a[0] as u32) == (b[0] as u32) && (b[0] as u32)
        == (c[0] as u32) {
        lemma_lex_trans(a.drop_first(), b.drop_first(), c.drop_first());
    }
}

/// Sibling order of the tree: directories before files, then names in
/// character order after lowercasing.
pub open spec fn node_le(a: TreeNode, b: TreeNode) -> bool {
    if a.is_dir != b.is_dir {
        a.is_dir
    } else {
        lex_le(lowercase(a.name@), lowercase(b.name@))
    }
}

/// Siblings are in sibling order.
pub open spec fn sorted_level(s: Seq<TreeNode>) -> bool {
    forall|i: int, j: int| 0 <= i < j < s.len() ==> node_le(#[trigger] s[i], #[trigger] s[j])
}

/// Siblings are in sibling order at every level.
pub open spec fn sorted_tree(s: Seq<TreeNode>) -> bool
    decreases s,
{
    &&& sorted_level(s)
    &&& forall|i: int| 0 <= i < s.len() ==> (#[trigger] s[i]).is_dir ==> sorted_tree(s[i].children@)
}

/// `a` comes no later than `b` in character order.
fn lex_le_chars(a: &Vec<char>, b: &Vec<char>) -> (r: bool)
    ensures
        r == lex_le(a@, b@),
{
    let mut i: usize = 0;
    assert(a@.skip(0) == a@ && b@.skip(0) == b@);
    while i < a.len() && i < b.len() && (a[i] as u32) == (b[i] as u32)
        invariant
            i <= a@.len(),
            i <= b@.len(),
            lex_le(a@, b@) == lex_le(a@.skip(i as int), b@.skip(i as int)),
        decreases a.len() - i,
    {
        assert(a@.skip(i as int).drop_first() == a@.skip(i + 1));
        assert(b@.skip(i as int).drop_first() == b@.skip(i + 1));
        i = i + 1;
    }
    if i == a.len() {
        true
    } else if i == b.len() {
        false
    } else {
        assert(a@.skip(i as int)[0] == a@[i as int]);
        assert(b@.skip(i as int)[0] == b@[i as int]);
        (a[i] as u32) < (b[i] as u32)
    }
}

/// `a` goes after `b` in sibling order.
fn goes_after(a: &TreeNode, b: &TreeNode) -> (r: bool)
    ensures
        r == !node_le(*a, *b),
{
    if a.is_dir != b.is_dir {
        return !a.is_dir;
    }
    let la = to_lowercase(a.name.as_str());
    let lb = to_lowercase(b.name.as_str());
    let ca = chars_of(la.as_str());
    let cb = chars_of(lb.as_str());
    !lex_le_chars(&ca, &cb)
}

/// Exchanges the nodes at `j - 1` and `j`.
fn swap_adjacent(v: &mut Vec<TreeNode>, j: usize)
    requires
        0 < j < old(v)@.len(),
    ensures
        final(v)@ == old(v)@.update(j - 1, old(v)@[j as int]).update(j as int, old(v)@[j - 1]),
{
    let x = v.remove(j);
    v.insert(j - 1, x);
    assert(v@ =~= old(v)@.update(j - 1, old(v)@[j as int]).update(j as int, old(v)@[j - 1]));
}

/// Exchanging two neighbours keeps everything that does not depend on order.
proof fn lemma_swap_keeps(
    s: Seq<TreeNode>,
    j: int,
    files: Seq<DisplayFile>,
    pre: Seq<char>,
    depth: int,
)
    requires
        0 < j < s.len(),
    ensures
        ({
            let t = s.update(j - 1, s[j]).update(j, s[j - 1]);
            &&& shaped(s, files, true) ==> shaped(t, files, true)
            &&& depth_fits(s, depth) ==> depth_fits(t, depth)
            &&& counted(s) ==> counted(t)
            &&& total(t, true) == total(s, true)
            &&& total(t, false) == total(s, false)
            &&& same_leaves(s, t, pre)
        }),
{
    let t = s.update(j - 1, s[j]).update(j, s[j - 1]);
    assert forall|i: int| 0 <= i < t.len() implies exists|m: int| 0 <= m < s.len() && #[trigger] t[i]
        == s[m] by {
        if i == j - 1 {
            assert(t[i] == s[j]);
        } else if i == j {
            assert(t[i] == s[j - 1]);
        } else {
            assert(t[i] == s[i]);
        }
    }
    if shaped(s, files, true) {
        assert forall|i: int| 0 <= i < t.len() implies shaped_one(#[trigger] t[i], files, true) by {
            let m = choose|m: int| 0 <= m < s.len() && #[trigger] t[i] == s[m];
            assert(shaped_one(s[m], files, true));
        }
    }
    if depth_fits(s, depth) {
        assert forall|i: int| 0 <= i < t.len() implies (#[trigger] t[i]).is_dir ==> depth < MAX_DEPTH
            && depth_fits(t[i].children@, depth + 1) by {
            let m = choose|m: int| 0 <= m < s.len() && #[trigger] t[i] == s[m];
            assert(s[m].is_dir ==> depth < MAX_DEPTH && depth_fits(s[m].children@, depth + 1));
        }
    }
    if counted(s) {
        assert forall|i: int| 0 <= i < t.len() implies counted_one(#[trigger] t[i]) by {
            let m = choose|m: int| 0 <= m < s.len() && #[trigger] t[i] == s[m];
            assert(counted_one(s[m]));
        }
    }
    let u = s.update(j - 1, s[j]);
    lemma_total_update(s, j - 1, s[j], true);
    lemma_total_update(s, j - 1, s[j], false);
    lemma_total_update(u, j, s[j - 1], true);
    lemma_total_update(u, j, s[j - 1], false);
    assert forall|p: Seq<char>, k: usize| leaf_at(s, pre, p, k) implies leaf_at(t, pre, p, k) by {
        let i = choose|i: int| 0 <= i < s.len() && leaf_at_one(#[trigger] s[i], pre, p, k);
        if i == j - 1 {
            assert(t[j] == s[i]);
        } else if i == j {
            assert(t[j - 1] == s[i]);
        } else {
            assert(t[i] == s[i]);
        }
    }
    assert forall|p: Seq<char>, k: usize| leaf_at(t, pre, p, k) implies leaf_at(s, pre, p, k) by {
        let i = choose|i: int| 0 <= i < t.len() && leaf_at_one(#[trigger] t[i], pre, p, k);
        let m = choose|m: int| 0 <= m < s.len() && #[trigger] t[i] == s[m];
        assert(leaf_at_one(s[m], pre, p, k));
    }
}

/// Puts siblings in sibling order at every level (stably: siblings that
/// compare equal keep their order), changing nothing else.
fn sort_tree(
    nodes: &mut Vec<TreeNode>,
    Ghost(files): Ghost<Seq<DisplayFile>>,
    Ghost(pre): Ghost<Seq<char>>,
    Ghost(depth): Ghost<int>,
) -> (perm: Ghost<Seq<int>>)
    requires
        shaped(old(nodes)@, files, true),
        depth_fits(old(nodes)@, depth),
        counted(old(nodes)@),
        unique_names(old(nodes)@),
        by_first(old(nodes)@),
    ensures
        sorted_tree(final(nodes)@),
        ties_by_first(final(nodes)@),
        final(nodes)@.len() == old(nodes)@.len(),
        perm@.len() == old(nodes)@.len(),
        forall|m: int| 0 <= m < perm@.len() ==> 0 <= #[trigger] perm@[m] < perm@.len(),
        forall|a: int, b: int| 0 <= a < b < perm@.len() ==> #[trigger] perm@[a] != #[trigger] perm@[b],
        forall|m: int|
            0 <= m < perm@.len() ==> (#[trigger] final(nodes)@[m]).is_dir == old(nodes)@[perm@[m]].is_dir
                && final(nodes)@[m].name == old(nodes)@[perm@[m]].name,
        forall|m: int, p: Seq<char>, k: usize|
            0 <= m < perm@.len() ==> #[trigger] leaf_at_one(final(nodes)@[m], pre, p, k) == leaf_at_one(
                old(nodes)@[perm@[m]],
                pre,
                p,
                k,
            ),
        forall|a: int, b: int|
            0 <= a < b < perm@.len() && node_le(#[trigger] final(nodes)@[a], #[trigger] final(nodes)@[b])
                && node_le(final(nodes)@[b], final(nodes)@[a]) ==> perm@[a] < perm@[b],
        unique_names(final(nodes)@),
        shaped(final(nodes)@, files, true),
        depth_fits(final(nodes)@, depth),
        counted(final(nodes)@),
        same_leaves(old(nodes)@, final(nodes)@, pre),
        total(final(nodes)@, true) == total(old(nodes)@, true),
        total(final(nodes)@, false) == total(old(nodes)@, false),
    decreases old(nodes)@,
{
    let ghost orig = nodes@;
    let n = nodes.len();
    let mut i: usize = 1;
    let ghost mut perm: Seq<int> = Seq::new(n as nat, |m: int| m);
    while i < n
        invariant
            1 <= i || n == 0,
            nodes@.len() == n,
            n == orig.len(),
            perm.len() == n,
            forall|m: int| 0 <= m < n ==> 0 <= #[trigger] perm[m] < n,
            forall|a: int, b: int| 0 <= a < b < n ==> #[trigger] perm[a] != #[trigger] perm[b],
            forall|m: int| 0 <= m < n ==> #[trigger] nodes@[m] == orig[perm[m]],
            forall|a: int, b: int|
                0 <= a < b < n && node_le(#[trigger] nodes@[a], #[trigger] nodes@[b]) && node_le(nodes@[b], nodes@[a])
                    ==> perm[a] < perm[b],
            shaped(nodes@, files, true),
            depth_fits(nodes@, depth),
            counted(nodes@),
            same_leaves(orig, nodes@, pre),
            total(nodes@, true) == total(orig, true),
            total(nodes@, false) == total(orig, false),
            forall|a: int, b: int| 0 <= a < b < i && b < n ==> node_le(#[trigger] nodes@[a], #[trigger] nodes@[b]),
        decreases n - i,
    {
        let mut j: usize = i;
        while j > 0 && goes_after(&nodes[j - 1], &nodes[j])
            invariant
                0 <= j <= i < n,
                nodes@.len() == n,
                n == orig.len(),
                perm.len() == n,
                forall|m: int| 0 <= m < n ==> 0 <= #[trigger] perm[m] < n,
                forall|a: int, b: int| 0 <= a < b < n ==> #[trigger] perm[a] != #[trigger] perm[b],
                forall|m: int| 0 <= m < n ==> #[trigger] nodes@[m] == orig[perm[m]],
                forall|a: int, b: int|
                    0 <= a < b < n && node_le(#[trigger] nodes@[a], #[trigger] nodes@[b]) && node_le(nodes@[b], nodes@[a])
                        ==> perm[a] < perm[b],
                shaped(nodes@, files, true),
                depth_fits(nodes@, depth),
                counted(nodes@),
                same_leaves(orig, nodes@, pre),
                total(nodes@, true) == total(orig, true),
                total(nodes@, false) == total(orig, false),
                forall|a: int, b: int|
                    0 <= a < b <= i && a != j && b != j ==> node_le(#[trigger] nodes@[a], #[trigger] nodes@[b]),
                forall|b: int| j < b <= i ==> node_le(nodes@[j as int], #[trigger] nodes@[b]),
            decreases j,
        {
            let ghost s = nodes@;
            let ghost pm = perm;
            proof {
                lemma_swap_keeps(s, j as int, files, pre, depth);
                lemma_lex_total(lowercase(s[j - 1].name@), lowercase(s[j as int].name@));
            }
            swap_adjacent(nodes, j);
            proof {
                perm = pm.update(j - 1, pm[j as int]).update(j as int, pm[j - 1]);
                let t = nodes@;
                assert forall|m: int| 0 <= m < n implies #[trigger] t[m] == orig[perm[m]] by {
                    if m != j - 1 && m != j {
                        assert(t[m] == s[m]);
                    }
                }
                assert forall|a: int, b: int| 0 <= a < b < n implies #[trigger] perm[a] != #[trigger] perm[b] by {
                    let ia = if a == j - 1 { j as int } else if a == j { j - 1 } else { a };
                    let ib = if b == j - 1 { j as int } else if b == j { j - 1 } else { b };
                    assert(perm[a] == pm[ia] && perm[b] == pm[ib]);
                    if ia < ib {
                        assert(pm[ia] != pm[ib]);
                    } else {
                        assert(pm[ib] != pm[ia]);
                    }
                }
                assert forall|m: int| 0 <= m < n implies 0 <= #[trigger] perm[m] < n by {
                    let im = if m == j - 1 { j as int } else if m == j { j - 1 } else { m };
                    assert(perm[m] == pm[im]);
                }
                assert forall|a: int, b: int|
                    0 <= a < b < n && node_le(#[trigger] t[a], #[trigger] t[b]) && node_le(t[b], t[a]) implies perm[a]
                    < perm[b] by {
                    let ia = if a == j - 1 { j as int } else if a == j { j - 1 } else { a };
                    let ib = if b == j - 1 { j as int } else if b == j { j - 1 } else { b };
                    assert(perm[a] == pm[ia] && perm[b] == pm[ib]);
                    assert(t[a] == s[ia] && t[b] == s[ib]);
                    if a == j - 1 && b == j {
                        assert(!node_le(s[j - 1], s[j as int]));
                    } else {
                        assert(ia < ib);
                        assert(node_le(s[ia], s[ib]) && node_le(s[ib], s[ia]));
                    }
                }
                assert(node_le(s[j as int], s[j - 1]));
                assert forall|a: int, b: int|
                    0 <= a < b <= i && a != j - 1 && b != j - 1 implies node_le(#[trigger] t[a], #[trigger] t[b]) by {
                    if b == j {
                        assert(t[b] == s[j - 1]);
                        assert(t[a] == s[a]);
                    } else if a == j {
                        assert(t[a] == s[j - 1]);
                        assert(t[b] == s[b]);
                    } else {
                        assert(t[a] == s[a]);
                        assert(t[b] == s[b]);
                    }
                }
                assert forall|b: int| j - 1 < b <= i implies node_le(t[j - 1], #[trigger] t[b]) by {
                    if b == j {
                    } else {
                        assert(t[b] == s[b]);
                    }
                }
                assert(same_leaves(orig, t, pre));
            }
            j = j - 1;
        }
        proof {
            let t = nodes@;
            assert forall|a: int, b: int| 0 <= a < b < i + 1 && b < n implies node_le(#[trigger] t[a], #[trigger] t[b]) by {
                if a == j {
                } else if b == j {
                    assert(node_le(t[j - 1], t[j as int]));
                    if a < j - 1 {
                        assert(node_le(t[a], t[j - 1]));
                        if t[a].is_dir == t[j - 1].is_dir && t[j - 1].is_dir == t[b].is_dir {
                            lemma_lex_trans(lowercase(t[a].name@), lowercase(t[j - 1].name@), lowercase(t[b].name@));
                        }
                    }
                }
            }
        }
        i = i + 1;
    }
    proof {
        assert(sorted_level(nodes@));
    }
    let ghost level = nodes@;
    let mut i: usize = 0;
    while i < nodes.len()
        invariant
            i <= nodes@.len(),
            nodes@.len() == level.len(),
            level.len() == orig.len(),
            orig == old(nodes)@,
            unique_names(orig),
            perm.len() == level.len(),
            forall|m: int| 0 <= m < level.len() ==> 0 <= #[trigger] perm[m] < level.len(),
            forall|m: int| 0 <= m < level.len() ==> #[trigger] level[m] == orig[perm[m]],
            forall|j: int| 0 <= j < i ==> (#[trigger] nodes@[j]).is_dir ==> unique_names(nodes@[j].children@),
            by_first(orig),
            forall|j: int| 0 <= j < i ==> (#[trigger] nodes@[j]).is_dir ==> ties_by_first(nodes@[j].children@),
            sorted_level(level),
            shaped(level, files, true),
            depth_fits(level, depth),
            counted(level),
            same_leaves(orig, level, pre),
            total(level, true) == total(orig, true),
            total(level, false) == total(orig, false),
            forall|j: int| i <= j < level.len() ==> #[trigger] nodes@[j] == level[j],
            forall|j: int|
                0 <= j < level.len() ==> (#[trigger] nodes@[j]).is_dir == level[j].is_dir && nodes@[j].name
                    == level[j].name,
            forall|j: int| 0 <= j < i ==> shaped_one(#[trigger] nodes@[j], files, true),
            forall|j: int| 0 <= j < i ==> counted_one(#[trigger] nodes@[j]),
            forall|j: int| 0 <= j < i ==> (#[trigger] nodes@[j]).is_dir ==> sorted_tree(nodes@[j].children@),
            forall|j: int|
                0 <= j < i ==> (#[trigger] nodes@[j]).is_dir ==> depth < MAX_DEPTH && depth_fits(
                    nodes@[j].children@,
                    depth + 1,
                ),
            forall|j: int, p: Seq<char>, k: usize|
                0 <= j < i ==> #[trigger] leaf_at_one(nodes@[j], pre, p, k) == leaf_at_one(
                    level[j],
                    pre,
                    p,
                    k,
                ),
            forall|j: int|
                0 <= j < i ==> total_one(#[trigger] nodes@[j], true) == total_one(level[j], true)
                    && total_one(nodes@[j], false) == total_one(level[j], false),
        decreases level.len() - i,
    {
        let ghost o = level[i as int];
        let ghost before = nodes@;
        assert(shaped_one(o, files, true));
        assert(counted_one(o));
        assert(o.is_dir ==> depth < MAX_DEPTH && depth_fits(o.children@, depth + 1));
        let ghost q = perm[i as int];
        assert(orig[q] == level[i as int]);
        assert(decreases_to!(orig => orig[q]));
        assert(decreases_to!(orig[q] => orig[q].children));
        assert(decreases_to!(orig[q].children => orig[q].children@));
        assert(nodes@[i as int] == orig[q]);
        assert(decreases_to!(orig => nodes@[i as int].children@));
        let node = &mut nodes[i];
        assert(level[i as int] == orig[perm[i as int]]);
        assert(o.is_dir ==> unique_names(o.children@));
        assert(o.is_dir ==> by_first(o.children@));
        if node.is_dir {
            let ghost sub_pre = pre + o.name@ + seq!['/'];
            let _ = sort_tree(&mut node.children, Ghost(files), Ghost(sub_pre), Ghost(depth + 1));
        }
        proof {
            let n = nodes@[i as int];
            assert(nodes@ == before.update(i as int, n));
            if o.is_dir {
                assert forall|p: Seq<char>, k: usize| #[trigger] leaf_at_one(n, pre, p, k) == leaf_at_one(o, pre, p, k) by {
                    assert(leaf_at_one(n, pre, p, k) == leaf_at(n.children@, pre + n.name@ + seq!['/'], p, k));
                }
                lemma_same_first(n, o, pre);
                let k0 = choose|k: usize| #[trigger] first_below(o, k) && o.moved_from == files[k as int].moved_from;
                assert(first_below(n, k0));
                assert(shaped_one(n, files, true));
                assert(counted_one(n));
            } else {
                assert(n == o);
            }
            assert forall|j: int| i < j < level.len() implies #[trigger] nodes@[j] == level[j] by {
                assert(nodes@[j] == before[j]);
            }
            assert forall|j: int| 0 <= j < i implies #[trigger] nodes@[j] == before[j] by {
            }
        }
        i = i + 1;
    }
    proof {
        let t = nodes@;
        assert forall|a: int, b: int| 0 <= a < b < t.len() implies node_le(#[trigger] t[a], #[trigger] t[b]) by {
            assert(node_le(level[a], level[b]));
        }
        assert(sorted_tree(t));
        assert forall|j: int, p: Seq<char>, k: usize|
            0 <= j < level.len() implies #[trigger] leaf_at_one(level[j], pre, p, k) == leaf_at_one(
                t[j],
                pre,
                p,
                k,
            ) by {
            assert(leaf_at_one(t[j], pre, p, k) == leaf_at_one(level[j], pre, p, k));
        }
        lemma_same_leaves_pointwise(level, t, pre);
        lemma_total_pointwise(t, level, true);
        lemma_total_pointwise(t, level, false);
        assert forall|m: int| 0 <= m < perm.len() implies (#[trigger] t[m]).is_dir == orig[perm[m]].is_dir
            && t[m].name == orig[perm[m]].name by {
            assert(level[m] == orig[perm[m]]);
        }
        assert forall|m: int, p: Seq<char>, k: usize|
            0 <= m < perm.len() implies #[trigger] leaf_at_one(t[m], pre, p, k) == leaf_at_one(
                orig[perm[m]],
                pre,
                p,
                k,
            ) by {
            assert(level[m] == orig[perm[m]]);
            assert(leaf_at_one(t[m], pre, p, k) == leaf_at_one(level[m], pre, p, k));
        }
        assert forall|a: int, b: int|
            0 <= a < b < perm.len() && node_le(#[trigger] t[a], #[trigger] t[b]) && node_le(t[b], t[a]) implies perm[a]
            < perm[b] by {
            assert(node_le(level[a], level[b]) && node_le(level[b], level[a]));
        }
        assert forall|a: int, b: int|
            #![trigger t[a], t[b]]
            0 <= a < b < t.len() implies !(t[a].name@ == t[b].name@ && t[a].is_dir == t[b].is_dir) by {
            assert(level[a] == orig[perm[a]] && level[b] == orig[perm[b]]);
            if perm[a] < perm[b] {
                assert(!(orig[perm[a]].name@ == orig[perm[b]].name@ && orig[perm[a]].is_dir == orig[perm[b]].is_dir));
            } else {
                assert(perm[a] != perm[b]);
                assert(!(orig[perm[b]].name@ == orig[perm[a]].name@ && orig[perm[b]].is_dir == orig[perm[a]].is_dir));
            }
        }
        assert forall|j: int| 0 <= j < t.len() implies (#[trigger] t[j]).is_dir ==> unique_names(t[j].children@) by {
        }
        assert(unique_names(t));
        assert forall|a: int, b: int, ka: usize, kb: usize|
            #![trigger first_below(t[a], ka), first_below(t[b], kb)]
            0 <= a < b < t.len() && node_le(t[a], t[b]) && node_le(t[b], t[a]) && first_below(t[a], ka)
                && first_below(t[b], kb) implies ka < kb by {
            lemma_same_first(t[a], orig[perm[a]], pre);
            lemma_same_first(t[b], orig[perm[b]], pre);
            assert(perm[a] < perm[b]);
            assert(first_below(orig[perm[a]], ka) && first_below(orig[perm[b]], kb));
        }
        assert forall|j: int| 0 <= j < t.len() implies (#[trigger] t[j]).is_dir ==> ties_by_first(t[j].children@) by {
        }
        assert(ties_by_first(t));
    }
    Ghost(perm)
}

/// Every path has at most `MAX_DEPTH` slashes, so that no directory lies
/// deeper than the depth counter can go.
pub open spec fn paths_fit(files: Seq<DisplayFile>) -> bool {
    forall|j: int| 0 <= j < files.len() ==> slashes(#[trigger] files[j].path@) <= MAX_DEPTH
}

/// What the tree built from `files` is: file lines that carry their file's
/// status and counts, directories that carry the counts of the files below
/// them and the moved-from path of the first of those files, no directory
/// whose only child is a directory, no two siblings of one name and kind,
/// siblings in sibling order and, where that order puts two level, in the
/// order of their first files; each file line has the full path of the file
/// it stands for, the path of every file is the full path of a file line, and
/// where several files share a path, the line stands for the first of them.
pub open spec fn built_from(r: Seq<TreeNode>, files: Seq<DisplayFile>) -> bool {
    &&& shaped(r, files, true)
    &&& counted(r)
    &&& sorted_tree(r)
    &&& depth_fits(r, 0)
    &&& forall|p: Seq<char>, k: usize|
        #[trigger] leaf_at(r, Seq::empty(), p, k) ==> k < files.len() && p == files[k as int].path@
    &&& forall|j: int| 0 <= j < files.len() ==> shows_path(r, #[trigger] files[j])
    &&& forall|p: Seq<char>, k: usize, j: int|
        #[trigger] leaf_at(r, Seq::empty(), p, k) && 0 <= j < k ==> (#[trigger] files[j]).path@ != p
    &&& unique_names(r)
    &&& ties_by_first(r)
}

/// Some file line of `r` has the full path of `f`.
pub open spec fn shows_path(r: Seq<TreeNode>, f: DisplayFile) -> bool {
    exists|k: usize| #[trigger] leaf_at(r, Seq::empty(), f.path@, k)
}

/// The sum over a prefix of the files never passes the sum over all of them.
pub proof fn lemma_shown_total_prefix(files: Seq<DisplayFile>, i: int, adds: bool)
    requires
        0 <= i <= files.len(),
    ensures
        shown_total(files.take(i), adds) <= shown_total(files, adds),
    decreases files.len(),
{
    if i < files.len() {
        assert(files.take(i) == files.drop_last().take(i));
        lemma_shown_total_prefix(files.drop_last(), i, adds);
    } else {
        assert(files.take(i) == files);
    }
}

/// Nothing before a path leaves it as it is.
proof fn lemma_empty_prefix(s: Seq<char>)
    ensures
        Seq::<char>::empty() + s == s,
{
    assert(Seq::<char>::empty() + s =~= s);
}

/// The tree of `files` before any merging, counting or sorting: each file
/// inserted in turn.
#[verifier::rlimit(80)]
#[verifier::spinoff_prover]
fn insert_files(files: &[DisplayFile]) -> (root: Vec<TreeNode>)
    requires
        paths_fit(files@),
    ensures
        shaped(root@, files@, false),
        depth_fits(root@, 0),
        total(root@, true) == shown_total(files@, true),
        total(root@, false) == shown_total(files@, false),
        forall|p: Seq<char>, k: usize|
            #[trigger] leaf_at(root@, Seq::empty(), p, k) ==> k < files@.len() && p == files@[k as int].path@,
        forall|j: int| 0 <= j < files@.len() ==> shows_path(root@, #[trigger] files@[j]),
        forall|p: Seq<char>, k: usize, j: int|
            #[trigger] leaf_at(root@, Seq::empty(), p, k) && 0 <= j < k ==> (#[trigger] files@[j]).path@ != p,
        slash_free(root@),
        unique_names(root@),
        by_first(root@),
{
    let ghost fs = files@;
    let mut root: Vec<TreeNode> = Vec::new();
    let mut idx: usize = 0;
    while idx < files.len()
        invariant
            idx <= fs.len(),
            fs == files@,
            paths_fit(fs),
            shaped(root@, fs, false),
            depth_fits(root@, 0),
            total(root@, true) == shown_total(fs.take(idx as int), true),
            total(root@, false) == shown_total(fs.take(idx as int), false),
            forall|p: Seq<char>, k: usize|
                #[trigger] leaf_at(root@, Seq::<char>::empty(), p, k) ==> k < idx && p == fs[k as int].path@,
            forall|j: int| 0 <= j < idx ==> shows_path(root@, #[trigger] fs[j]),
            forall|p: Seq<char>, k: usize, j: int|
                #[trigger] leaf_at(root@, Seq::<char>::empty(), p, k) && 0 <= j < k ==> (#[trigger] fs[j]).path@ != p,
            slash_free(root@),
            unique_names(root@),
            by_first(root@),
        decreases files.len() - idx,
    {
        let file = &files[idx];
        let parts = split_path(file.path.as_str());
        let ghost before = root@;
        let ghost path = fs[idx as int].path@;
        proof {
            assert(views(parts@).skip(0) == views(parts@));
            assert(slashes(path) <= MAX_DEPTH);
            assert(joined(views(parts@)) == path);
            lemma_empty_prefix(path);
            assert forall|q: int| 0 <= q < parts@.len() implies !(#[trigger] views(parts@)[q]).contains('/') by {
                assert(views(parts@)[q] == parts@[q]@);
            }
        }
        insert_into_tree(&mut root, &parts, 0, idx, file, Ghost(fs), Ghost(Seq::<char>::empty()), Ghost(0));
        proof {
            assert(fs.take(idx + 1).drop_last() == fs.take(idx as int));
            assert(fs.take(idx + 1).last() == fs[idx as int]);
            assert(Seq::<char>::empty() + joined(views(parts@).skip(0)) == path);
            assert(shows_at(before, Seq::<char>::empty(), path) == path_seen(fs.take(idx as int), path)) by {
                if shows_at(before, Seq::<char>::empty(), path) {
                    let k = choose|k: usize| #[trigger] leaf_at(before, Seq::<char>::empty(), path, k);
                    assert(fs.take(idx as int)[k as int].path@ == path);
                }
                if path_seen(fs.take(idx as int), path) {
                    let j = choose|j: int| 0 <= j < idx && #[trigger] fs.take(idx as int)[j].path@ == path;
                    assert(fs.take(idx as int)[j] == fs[j]);
                    assert(shows_path(before, fs[j]));
                }
            }
            assert(shows_path(root@, fs[idx as int]));
            assert forall|j: int| 0 <= j < idx + 1 implies shows_path(root@, #[trigger] fs[j]) by {
                if j < idx {
                    assert(shows_path(before, fs[j]));
                    let k = choose|k: usize| #[trigger] leaf_at(before, Seq::<char>::empty(), fs[j].path@, k);
                    assert(leaf_at(root@, Seq::<char>::empty(), fs[j].path@, k));
                }
            }
            assert forall|p: Seq<char>, k: usize, j: int|
                #[trigger] leaf_at(root@, Seq::<char>::empty(), p, k) && 0 <= j < k implies (#[trigger] fs[j]).path@
                != p by {
                if !leaf_at(before, Seq::<char>::empty(), p, k) && fs[j].path@ == p {
                    assert(shows_path(before, fs[j]));
                    let k2 = choose|k2: usize| #[trigger] leaf_at(before, Seq::<char>::empty(), fs[j].path@, k2);
                    assert(leaf_at(before, Seq::<char>::empty(), p, k2));
                }
            }
        }
        idx = idx + 1;
    }
    proof {
        assert(fs.take(fs.len() as int) == fs);
    }
    root
}

/// Builds the file tree of a diff: one line per file, under its directories,
/// directories with a single directory child merged, the counts of every
/// directory summed from the files below it, and siblings sorted with
/// directories first, then by lowercase name.
pub fn build_tree(files: &[DisplayFile]) -> (r: Vec<TreeNode>)
    requires
        paths_fit(files@),
        shown_total(files@, true) <= u32::MAX,
        shown_total(files@, false) <= u32::MAX,
    ensures
        built_from(r@, files@),
{
    let ghost fs = files@;
    let mut root = insert_files(files);
    let ghost inserted = root@;
    flatten_single_child(&mut root, Ghost(fs), Ghost(Seq::<char>::empty()), Ghost(0));
    let ghost flattened = root@;
    propagate_stats(&mut root, Ghost(fs), Ghost(Seq::<char>::empty()), Ghost(0), Ghost(true));
    let ghost counted_tree = root@;
    sort_tree(&mut root, Ghost(fs), Ghost(Seq::<char>::empty()), Ghost(0));
    proof {
        assert forall|p: Seq<char>, k: usize| #[trigger] leaf_at(root@, Seq::<char>::empty(), p, k) implies k < fs.len()
            && p == fs[k as int].path@ by {
            assert(leaf_at(counted_tree, Seq::<char>::empty(), p, k));
            assert(leaf_at(flattened, Seq::<char>::empty(), p, k));
            assert(leaf_at(inserted, Seq::<char>::empty(), p, k));
        }
        assert forall|j: int| 0 <= j < fs.len() implies shows_path(root@, #[trigger] fs[j]) by {
            assert(shows_path(inserted, fs[j]));
            let k = choose|k: usize| #[trigger] leaf_at(inserted, Seq::<char>::empty(), fs[j].path@, k);
            assert(leaf_at(flattened, Seq::<char>::empty(), fs[j].path@, k));
            assert(leaf_at(counted_tree, Seq::<char>::empty(), fs[j].path@, k));
            assert(leaf_at(root@, Seq::<char>::empty(), fs[j].path@, k));
        }
        assert forall|p: Seq<char>, k: usize, j: int|
            #[trigger] leaf_at(root@, Seq::<char>::empty(), p, k) && 0 <= j < k implies (#[trigger] fs[j]).path@
            != p by {
            assert(leaf_at(counted_tree, Seq::<char>::empty(), p, k));
            assert(leaf_at(flattened, Seq::<char>::empty(), p, k));
            assert(leaf_at(inserted, Seq::<char>::empty(), p, k));
        }
    }
    root
}

} // verus!
