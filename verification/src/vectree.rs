//! The flat tree store: nodes in pre-order, addressed by index.
//!
//! Structural metadata (subtree size, parent back-reference, previous-sibling
//! offset) is fixed at build time; only the collapse state (`collapsed` flag
//! and per-boundary jump-back stacks) mutates afterwards.

use vstd::prelude::*;

verus! {

/// One line of text content of a node.
#[derive(Debug)]
pub struct Line {
    pub full_line: String,
}

impl View for Line {
    type V = Seq<char>;

    open spec fn view(&self) -> Seq<char> {
        self.full_line@
    }
}

impl DeepView for Line {
    type V = Seq<char>;

    open spec fn deep_view(&self) -> Seq<char> {
        self.full_line@
    }
}

impl Line {
    pub fn new(full_line: String) -> (r: Line)
        ensures
            r@ == full_line@,
    {
        Line { full_line }
    }
}

/// The mathematical content of one node.
#[verifier::ext_equal]
pub ghost struct NodeView {
    pub lines: Seq<Seq<char>>,
    pub subtree_size: int,
    pub depth: int,
    pub parent_index: int,
    pub psib_offset: int,
    pub jump_back: Seq<int>,
    pub collapsed: bool,
}

/// One node of the flat tree: one line of the source document plus the
/// structural metadata that makes constant-time navigation possible.
#[derive(Debug)]
pub struct VecTreeNode {
    pub lines: Vec<Line>,
    /// Number of descendants, excluding this node.
    pub subtree_size: usize,
    pub depth: usize,
    /// Back-reference to the owning node; a node is a root iff it points
    /// at itself.
    pub parent_index: usize,
    /// Stored on the last node of a finished subtree: the distance from the
    /// node immediately after that subtree back to the subtree's root.
    pub next_node_previous_sibling_offset: usize,
    /// One entry per active collapse whose boundary is this node: how far to
    /// jump backward to skip the hidden subtree. Bottom entry is always 1,
    /// the plain one-step fallback.
    pub jump_back_stack: Vec<usize>,
    pub collapsed: bool,
}

impl View for VecTreeNode {
    type V = NodeView;

    open spec fn view(&self) -> NodeView {
        NodeView {
            lines: self.lines.deep_view(),
            subtree_size: self.subtree_size as int,
            depth: self.depth as int,
            parent_index: self.parent_index as int,
            psib_offset: self.next_node_previous_sibling_offset as int,
            jump_back: self.jump_back_stack@.map_values(|x: usize| x as int),
            collapsed: self.collapsed,
        }
    }
}

/// The flat tree: all nodes in pre-order, stored contiguously.
#[derive(Debug)]
pub struct VecTree {
    pub nodes: Vec<VecTreeNode>,
}

/// The mathematical contents of a node sequence.
pub open spec fn views_of(ns: Seq<VecTreeNode>) -> Seq<NodeView> {
    ns.map_values(|n: VecTreeNode| n@)
}

impl View for VecTree {
    type V = Seq<NodeView>;

    open spec fn view(&self) -> Seq<NodeView> {
        views_of(self.nodes@)
    }
}

impl VecTreeNode {
    /// A fresh leaf holding one line of text, with default collapse state.
    pub fn new(parent_index: usize, depth: usize, text: String) -> (r: VecTreeNode)
        ensures
            r@ == (NodeView {
                lines: seq![text@],
                subtree_size: 0,
                depth: depth as int,
                parent_index: parent_index as int,
                psib_offset: 1,
                jump_back: seq![1],
                collapsed: false,
            }),
    {
        let r = VecTreeNode {
            lines: vec![Line::new(text)],
            collapsed: false,
            subtree_size: 0,
            jump_back_stack: vec![1],
            depth: depth,
            parent_index: parent_index,
            next_node_previous_sibling_offset: 1,
        };
        proof {
            assert(r@.lines =~= seq![r.lines[0].full_line@]);
            assert(r@.jump_back =~= seq![1int]);
        }
        r
    }

    /// Record a collapse whose hidden subtree ends just before this node.
    pub fn collapse_jump(&mut self, distance: usize)
        ensures
            final(self)@ == (NodeView {
                jump_back: old(self)@.jump_back.push(distance as int),
                ..old(self)@
            }),
    {
        self.jump_back_stack.push(distance);
        proof {
            assert(final(self)@.jump_back =~= old(self)@.jump_back.push(distance as int));
        }
    }

    /// Forget the most recent collapse recorded at this boundary.
    pub fn uncollapse_jump(&mut self)
        requires
            old(self)@.jump_back.len() > 0,
        ensures
            final(self)@ == (NodeView {
                jump_back: old(self)@.jump_back.drop_last(),
                ..old(self)@
            }),
    {
        self.jump_back_stack.pop();
        proof {
            assert(final(self)@.jump_back =~= old(self)@.jump_back.drop_last());
        }
    }

    /// Append a further line of text to this node.
    pub fn push_line(&mut self, line: String)
        ensures
            final(self)@ == (NodeView {
                lines: old(self)@.lines.push(line@),
                ..old(self)@
            }),
    {
        self.lines.push(Line::new(line));
        proof {
            assert(final(self)@.lines =~= old(self)@.lines.push(line@));
        }
    }

    /// The text lines of this node.
    pub fn lines_iter(&self) -> (r: &Vec<Line>)
        ensures
            r.deep_view() == self@.lines,
    {
        &self.lines
    }
}

/// Last index of the subtree rooted at `i`: the root itself for a leaf.
pub open spec fn sub_end(s: Seq<NodeView>, i: int) -> int {
    i + s[i].subtree_size
}

/// Structural soundness of one node's metadata within the pre-order array:
/// its subtree is a contiguous in-bounds block of strictly deeper nodes, and
/// parent back-references point at the enclosing subtree's root.
pub open spec fn wf_struct(s: Seq<NodeView>, i: int) -> bool {
    &&& 0 <= s[i].subtree_size
    &&& i + s[i].subtree_size < s.len()
    &&& 0 <= s[i].parent_index <= i
    &&& (s[i].parent_index == i <==> s[i].depth == 0)
    &&& 0 <= s[i].depth
    &&& (s[i].depth > 0 ==> i <= sub_end(s, s[i].parent_index)
        && s[s[i].parent_index].depth + 1 == s[i].depth)
    &&& (forall|j: int| i < j <= sub_end(s, i) ==> #[trigger] s[j].depth > s[i].depth)
    &&& (sub_end(s, i) + 1 < s.len() ==> s[sub_end(s, i) + 1].depth <= s[i].depth)
    &&& (forall|j: int| i < j <= sub_end(s, i) ==> #[trigger] sub_end(s, j) <= sub_end(s, i))
    &&& (forall|j: int|
        #![trigger s[j].parent_index]
        i < j <= sub_end(s, i) && s[j].depth == s[i].depth + 1 ==> s[j].parent_index == i)
    &&& (s[i].subtree_size > 0 ==> s[i + 1].depth == s[i].depth + 1 && s[i + 1].parent_index == i)
}

/// Soundness of the stored previous-sibling offset: it jumps back to the
/// root of the outermost subtree that ends at this node.
pub open spec fn wf_offset(s: Seq<NodeView>, i: int) -> bool {
    &&& 1 <= s[i].psib_offset <= i + 1
    &&& (s[i].subtree_size > 0 ==> s[i].psib_offset == 1)
    &&& (s[i].subtree_size == 0 ==> sub_end(s, i + 1 - s[i].psib_offset) == i
        && (forall|c: int| 0 <= c < i + 1 - s[i].psib_offset ==> #[trigger] sub_end(s, c) != i))
}

pub open spec fn wf_node(s: Seq<NodeView>, i: int) -> bool {
    &&& wf_struct(s, i)
    &&& wf_offset(s, i)
}

/// Structural well-formedness of the whole tree. Established at build time
/// and untouched by collapse/expand, which only flip `collapsed` flags and
/// manipulate jump-back stacks.
pub open spec fn tree_wf(s: Seq<NodeView>) -> bool {
    &&& (forall|i: int| 0 <= i < s.len() ==> #[trigger] wf_node(s, i))
    &&& (s.len() > 0 ==> s[0].depth == 0)
}

/// `c` is a currently collapsed node whose hidden subtree ends immediately
/// before position `j` (so `j` is its collapse boundary).
pub open spec fn is_collapse_boundary(s: Seq<NodeView>, c: int, j: int) -> bool {
    &&& 0 <= c < s.len()
    &&& sub_end(s, c) + 1 == j
    &&& s[c].collapsed
}

/// The jump-back stack at position `j` records exactly the active collapses
/// whose boundary is `j`: above the constant bottom entry 1 sit the backward
/// jump distances of those collapsed roots, strictly increasing towards the
/// top, so the top always skips the outermost hidden subtree.
pub open spec fn stack_wf_at(s: Seq<NodeView>, j: int) -> bool {
    let st = s[j].jump_back;
    &&& st.len() >= 1
    &&& st[0] == 1
    &&& (forall|k: int|
        1 <= k < st.len() ==> 1 <= #[trigger] st[k] <= j && is_collapse_boundary(s, j - st[k], j))
    &&& (forall|c: int|
        #[trigger] is_collapse_boundary(s, c, j) ==> exists|k: int|
            1 <= k < st.len() && #[trigger] st[k] == j - c)
    &&& (forall|k1: int, k2: int|
        #![trigger st[k1], st[k2]]
        1 <= k1 < k2 < st.len() ==> st[k1] < st[k2])
}

/// Consistency of the collapse bookkeeping over the whole tree.
pub open spec fn collapse_wf(s: Seq<NodeView>) -> bool {
    forall|j: int| 0 <= j < s.len() ==> #[trigger] stack_wf_at(s, j)
}

/// A node is visible when it sits inside no collapsed ancestor's subtree.
/// (A collapsed node is itself still visible; only its descendants hide.)
pub open spec fn visible_at(s: Seq<NodeView>, i: int) -> bool {
    forall|a: int| 0 <= a < i && i <= #[trigger] sub_end(s, a) ==> !s[a].collapsed
}

/// The tree after collapsing the node at `i`: its `collapsed` flag is set
/// and, when a node exists just after its subtree, the jump over the hidden
/// block is pushed onto that boundary node's stack. Collapsing an already
/// collapsed node, or an out-of-range index, changes nothing.
pub open spec fn spec_collapse(s: Seq<NodeView>, i: int) -> Seq<NodeView> {
    if 0 <= i < s.len() && !s[i].collapsed {
        let s1 = s.update(i, NodeView { collapsed: true, ..s[i] });
        let b = sub_end(s, i) + 1;
        if b < s.len() {
            s1.update(b, NodeView { jump_back: s[b].jump_back.push(s[i].subtree_size + 1), ..s1[b] })
        } else {
            s1
        }
    } else {
        s
    }
}

/// The tree after expanding the node at `i`: the flag is cleared and the
/// boundary node's most recent jump entry is dropped. Expanding a node that
/// is not collapsed, or an out-of-range index, changes nothing.
pub open spec fn spec_uncollapse(s: Seq<NodeView>, i: int) -> Seq<NodeView> {
    if 0 <= i < s.len() && s[i].collapsed {
        let s1 = s.update(i, NodeView { collapsed: false, ..s[i] });
        let b = sub_end(s, i) + 1;
        if b < s.len() && s[b].jump_back.len() > 0 {
            s1.update(b, NodeView { jump_back: s[b].jump_back.drop_last(), ..s1[b] })
        } else {
            s1
        }
    } else {
        s
    }
}

/// The forward visible-skip distance from a node: over its whole subtree
/// when it is collapsed, one step otherwise.
pub open spec fn next_jump(n: NodeView) -> int {
    if n.collapsed {
        n.subtree_size + 1
    } else {
        1
    }
}

/// The backward visible-skip distance recorded at a node: the top of its
/// jump-back stack, or the plain one-step fallback.
pub open spec fn prev_jump(n: NodeView) -> int {
    if n.jump_back.len() > 0 {
        n.jump_back.last()
    } else {
        1
    }
}

/// Where `next_sibling` moves from `i`: the position just after `i`'s
/// subtree, provided it is within both the reported length and the tree,
/// and holds a node of the same depth.
pub open spec fn spec_next_sibling(s: Seq<NodeView>, i: int, length: int) -> Option<int> {
    if 0 <= i < s.len() {
        let cand = sub_end(s, i) + 1;
        if cand < length && cand < s.len() && s[cand].depth == s[i].depth {
            Some(cand)
        } else {
            None
        }
    } else {
        None
    }
}

/// Where `prev_sibling` moves from `i`: backward by the offset stored on
/// the node immediately before `i`, provided the target has `i`'s depth.
pub open spec fn spec_prev_sibling(s: Seq<NodeView>, i: int) -> Option<int> {
    if 0 < i < s.len() {
        let cand = i - s[i - 1].psib_offset;
        if 0 <= cand && s[cand].depth == s[i].depth {
            Some(cand)
        } else {
            None
        }
    } else {
        None
    }
}

/// The tree after toggling the node at `i`: collapse or expand according
/// to its current state. A leaf (empty subtree) is left untouched.
pub open spec fn spec_toggle(s: Seq<NodeView>, i: int) -> Seq<NodeView> {
    if 0 <= i < s.len() && s[i].subtree_size > 0 {
        if s[i].collapsed {
            spec_uncollapse(s, i)
        } else {
            spec_collapse(s, i)
        }
    } else {
        s
    }
}

/// A single movable position into the flat tree. The tree is supplied per
/// call rather than owned, so cursor and tree stay independently borrowable.
pub struct VecTreeCursor {
    pub index: usize,
}

impl VecTreeCursor {
    /// A cursor at the first node.
    pub fn new() -> (r: VecTreeCursor)
        ensures
            r.index == 0,
    {
        VecTreeCursor { index: 0 }
    }

    /// Hide the subtree of the node under the cursor and record, on the
    /// first node after that subtree (if any), how far backward moves must
    /// jump to skip it. No-op when the node is already collapsed.
    pub fn collapse(&mut self, tree: &mut VecTree)
        requires
            tree_wf(old(tree)@),
        ensures
            final(tree)@ == spec_collapse(old(tree)@, old(self).index as int),
            final(self).index == old(self).index,
    {
        let i = self.index;
        let ghost s = tree@;
        if i < tree.nodes.len() {
            if !tree.nodes[i].collapsed {
                proof {
                    assert(wf_node(s, i as int));
                }
                let subtree_size = tree.nodes[i].subtree_size;
                let n = &mut tree.nodes[i];
                n.collapsed = true;
                let jump = subtree_size + 1;
                let b = i + jump;
                if b < tree.nodes.len() {
                    let m = &mut tree.nodes[b];
                    m.collapse_jump(jump);
                    proof {
                        assert(tree@ =~= spec_collapse(s, i as int));
                    }
                } else {
                    proof {
                        assert(tree@ =~= spec_collapse(s, i as int));
                    }
                }
            }
        }
    }

    /// Reveal the subtree of the node under the cursor, dropping the most
    /// recent jump entry at its boundary. No-op when not collapsed.
    pub fn uncollapse(&mut self, tree: &mut VecTree)
        requires
            tree_wf(old(tree)@),
        ensures
            final(tree)@ == spec_uncollapse(old(tree)@, old(self).index as int),
            final(self).index == old(self).index,
    {
        let i = self.index;
        let ghost s = tree@;
        if i < tree.nodes.len() {
            if tree.nodes[i].collapsed {
                proof {
                    assert(wf_node(s, i as int));
                }
                let subtree_size = tree.nodes[i].subtree_size;
                let n = &mut tree.nodes[i];
                n.collapsed = false;
                let b = i + subtree_size + 1;
                if b < tree.nodes.len() && tree.nodes[b].jump_back_stack.len() > 0 {
                    let m = &mut tree.nodes[b];
                    m.uncollapse_jump();
                    proof {
                        assert(tree@ =~= spec_uncollapse(s, i as int));
                    }
                } else {
                    proof {
                        assert(tree@ =~= spec_uncollapse(s, i as int));
                    }
                }
            }
        }
    }

    /// Collapse or expand the node under the cursor according to its state;
    /// a leaf is left untouched.
    pub fn toggle_collapse(&mut self, tree: &mut VecTree)
        requires
            tree_wf(old(tree)@),
        ensures
            final(tree)@ == spec_toggle(old(tree)@, old(self).index as int),
            final(self).index == old(self).index,
    {
        let i = self.index;
        if i < tree.nodes.len() {
            if tree.nodes[i].subtree_size > 0 {
                if tree.nodes[i].collapsed {
                    self.uncollapse(tree);
                } else {
                    self.collapse(tree);
                }
            }
        }
    }

    /// Move to the next sibling: just past the current subtree, provided a
    /// node of the same depth stands there. The cursor does not move on
    /// failure.
    pub fn next_sibling(&mut self, tree: &VecTree, length: usize) -> (r: Option<usize>)
        requires
            tree_wf(tree@),
        ensures
            spec_next_sibling(tree@, old(self).index as int, length as int) is Some ==> {
                let c = spec_next_sibling(tree@, old(self).index as int, length as int)->0;
                r == Some(c as usize) && final(self).index == c
            },
            spec_next_sibling(tree@, old(self).index as int, length as int) is None ==> r is None
                && final(self).index == old(self).index,
    {
        let i = self.index;
        if i >= tree.nodes.len() {
            return None;
        }
        proof {
            assert(wf_node(tree@, i as int));
        }
        let node_depth = tree.nodes[i].depth;
        let candidate = i + tree.nodes[i].subtree_size + 1;
        if candidate < length && candidate < tree.nodes.len() {
            if tree.nodes[candidate].depth == node_depth {
                self.index = candidate;
                return Some(candidate);
            }
        }
        None
    }

    /// Move to the previous sibling, using the offset stored on the node
    /// immediately before the cursor. The cursor does not move on failure.
    pub fn prev_sibling(&mut self, tree: &VecTree) -> (r: Option<usize>)
        requires
            tree_wf(tree@),
        ensures
            spec_prev_sibling(tree@, old(self).index as int) is Some ==> {
                let c = spec_prev_sibling(tree@, old(self).index as int)->0;
                r == Some(c as usize) && final(self).index == c
            },
            spec_prev_sibling(tree@, old(self).index as int) is None ==> r is None
                && final(self).index == old(self).index,
    {
        let i = self.index;
        if i == 0 || i >= tree.nodes.len() {
            return None;
        }
        proof {
            assert(wf_node(tree@, i as int - 1));
        }
        let gap = tree.nodes[i - 1].next_node_previous_sibling_offset;
        let candidate = i - gap;
        if tree.nodes[candidate].depth == tree.nodes[i].depth {
            self.index = candidate;
            Some(candidate)
        } else {
            None
        }
    }

    /// Move to the parent of the given node (the node under the cursor).
    /// Always succeeds; a root is its own parent, so the move is a no-op
    /// there.
    pub fn parent(&mut self, node: &VecTreeNode) -> (r: usize)
        ensures
            r == node@.parent_index,
            final(self).index == node@.parent_index,
    {
        self.index = node.parent_index;
        self.index
    }

    /// Move backward to the previous visible node: by the top of the given
    /// node's jump-back stack (skipping a hidden subtree ending just before
    /// it), or one step. Fails at the start of the tree without moving.
    pub fn prev(&mut self, node: &VecTreeNode) -> (r: Option<usize>)
        ensures
            prev_jump(node@) <= old(self).index ==> {
                &&& r == Some((old(self).index - prev_jump(node@)) as usize)
                &&& final(self).index == old(self).index - prev_jump(node@)
            },
            prev_jump(node@) > old(self).index ==> r is None && final(self).index == old(
                self,
            ).index,
    {
        let stack_len = node.jump_back_stack.len();
        let jump = if stack_len > 0 {
            node.jump_back_stack[stack_len - 1]
        } else {
            1
        };
        if jump <= self.index {
            self.index = self.index - jump;
            Some(self.index)
        } else {
            None
        }
    }

    /// Move forward to the next visible node: one step past the given node,
    /// or past its whole subtree when it is collapsed. Fails at the end of
    /// the reported length without moving.
    pub fn next(&mut self, node: &VecTreeNode, length: usize) -> (r: Option<usize>)
        requires
            old(self).index + next_jump(node@) <= usize::MAX,
        ensures
            old(self).index + next_jump(node@) < length ==> {
                &&& r == Some((old(self).index + next_jump(node@)) as usize)
                &&& final(self).index == old(self).index + next_jump(node@)
            },
            old(self).index + next_jump(node@) >= length ==> r is None && final(self).index == old(
                self,
            ).index,
    {
        let increment = if node.collapsed {
            node.subtree_size + 1
        } else {
            1
        };
        let candidate = self.index + increment;
        if candidate < length {
            self.index = candidate;
            Some(candidate)
        } else {
            None
        }
    }
}

impl VecTree {
    /// The node at `index`, or nothing when `index` is out of range.
    pub fn get(&self, index: usize) -> (r: Option<&VecTreeNode>)
        ensures
            index < self@.len() ==> r is Some && r->0@ == self@[index as int],
            index >= self@.len() ==> r is None,
    {
        if index < self.nodes.len() {
            Some(&self.nodes[index])
        } else {
            None
        }
    }
}


/// The forward skip the node iterator takes from a node: over the whole
/// subtree of a collapsed non-leaf, one step otherwise.
pub open spec fn chain_step(n: NodeView) -> int {
    if n.collapsed && n.subtree_size > 0 {
        n.subtree_size + 1
    } else {
        1
    }
}

/// The indices of the visible rows from position `i` on: repeated forward
/// visible-skips until the end of the tree.
pub open spec fn visible_chain(s: Seq<NodeView>, i: int) -> Seq<int>
    decreases s.len() - i,
{
    if 0 <= i < s.len() {
        let next = i + chain_step(s[i]);
        if next <= s.len() {
            seq![i] + visible_chain(s, next)
        } else {
            seq![i]
        }
    } else {
        seq![]
    }
}

/// There are never more visible rows than nodes.
pub proof fn lemma_visible_chain_len(s: Seq<NodeView>, i: int)
    requires
        0 <= i <= s.len(),
    ensures
        visible_chain(s, i).len() <= s.len() - i,
    decreases s.len() - i,
{
    if i < s.len() {
        let next = i + chain_step(s[i]);
        if next <= s.len() {
            lemma_visible_chain_len(s, next);
        }
    }
}

/// Walks the visible nodes of a tree in order, skipping every collapsed
/// subtree in one hop.
pub struct VecTreeNodeIterator {
    pub index: usize,
}

impl VecTreeNodeIterator {
    /// The node under the iterator together with its index, advancing past
    /// its subtree when it is collapsed; nothing at the end of the tree.
    pub fn next<'a>(&mut self, tree: &'a VecTree) -> (r: Option<(&'a VecTreeNode, usize)>)
        requires
            tree_wf(tree@),
        ensures
            old(self).index < tree@.len() ==> {
                &&& r is Some
                &&& (r->0).1 == old(self).index
                &&& (r->0).0@ == tree@[old(self).index as int]
                &&& final(self).index == old(self).index + chain_step(tree@[old(self).index as int])
            },
            old(self).index >= tree@.len() ==> r is None && final(self).index == old(self).index,
    {
        if self.index < tree.nodes.len() {
            let i = self.index;
            proof {
                assert(wf_node(tree@, i as int));
            }
            let node = &tree.nodes[i];
            let step = if node.collapsed && node.subtree_size > 0 {
                node.subtree_size + 1
            } else {
                1
            };
            self.index = i + step;
            Some((node, i))
        } else {
            None
        }
    }
}

impl VecTree {
    /// Mutable access to the node at `index`, or nothing when out of
    /// range. The tree afterwards is the tree before with that one slot
    /// holding whatever the caller leaves behind.
    pub fn get_mut(&mut self, index: usize) -> (r: Option<&mut VecTreeNode>)
        ensures
            index >= old(self)@.len() ==> r is None && final(self)@ == old(self)@,
            index < old(self)@.len() ==> {
                &&& r is Some
                &&& *r->0 == old(self).nodes@[index as int]
                &&& final(self).nodes@ == old(self).nodes@.update(index as int, *final(r->0))
            },
    {
        if index < self.nodes.len() {
            Some(&mut self.nodes[index])
        } else {
            None
        }
    }

    /// An iterator over the visible nodes, starting at the first node.
    pub fn nodes_iter(&self) -> (r: VecTreeNodeIterator)
        ensures
            r.index == 0,
    {
        VecTreeNodeIterator { index: 0 }
    }

    /// How many rows are visible: the length of the visible chain.
    pub fn visible_row_count(&self) -> (r: usize)
        requires
            tree_wf(self@),
        ensures
            r as int == visible_chain(self@, 0).len(),
    {
        let ghost s = self@;
        let mut j: usize = 0;
        let mut count: usize = 0;
        while j < self.nodes.len()
            invariant
                s == self@,
                tree_wf(s),
                count <= j <= s.len(),
                count + visible_chain(s, j as int).len() == visible_chain(s, 0).len(),
            decreases s.len() - j,
        {
            proof {
                assert(wf_node(s, j as int));
            }
            let node = &self.nodes[j];
            let step = if node.collapsed && node.subtree_size > 0 {
                node.subtree_size + 1
            } else {
                1
            };
            proof {
                assert(visible_chain(s, j as int) == seq![j as int] + visible_chain(
                    s,
                    j as int + chain_step(s[j as int]),
                ));
            }
            j = j + step;
            count = count + 1;
        }
        count
    }
}


/// The number of visible rows crossed when moving forward from `from` to
/// `to`: the count of visible-skip hops taken until `to` is reached (both
/// positions on the visible chain in the intended use).
pub open spec fn vis_dist(s: Seq<NodeView>, from: int, to: int) -> int
    decreases to - from,
{
    if 0 <= from < to && from < s.len() {
        let next = from + chain_step(s[from]);
        if next <= to {
            1 + vis_dist(s, next, to)
        } else {
            1
        }
    } else {
        0
    }
}

impl VecTree {
    /// Count the visible rows between two positions by walking the forward
    /// visible-skip chain from the earlier one.
    pub fn visible_distance(&self, from: usize, to: usize) -> (r: usize)
        requires
            tree_wf(self@),
            from <= to,
            to < self@.len(),
        ensures
            r as int == vis_dist(self@, from as int, to as int),
            r <= to - from,
    {
        let ghost s = self@;
        let total = self.nodes.len();
        let mut j = from;
        let mut steps: usize = 0;
        while j < to
            invariant
                s == self@,
                tree_wf(s),
                s.len() == total,
                from + steps <= j,
                steps <= to - from,
                to < s.len(),
                vis_dist(s, from as int, to as int) == steps + vis_dist(s, j as int, to as int),
            decreases (if j <= to {
                to - j
            } else {
                0int
            }),
        {
            let node = &self.nodes[j];
            proof {
                assert(wf_node(s, j as int));
                assert(node@ == s[j as int]);
            }
            let step = if node.collapsed && node.subtree_size > 0 {
                node.subtree_size + 1
            } else {
                1
            };
            j = j + step;
            steps = steps + 1;
        }
        steps
    }
}

} // verus!
