//! Tree-wide laws: the structural and collapse-bookkeeping invariants are
//! preserved by every mutation, collapse round-trips are no-ops, and forward
//! and backward visible moves are inverses.

use vstd::prelude::*;

use crate::vectree::NodeView;
use crate::vectree::chain_step;
use crate::vectree::collapse_wf;
use crate::vectree::is_collapse_boundary;
use crate::vectree::next_jump;
use crate::vectree::prev_jump;
use crate::vectree::spec_collapse;
use crate::vectree::spec_toggle;
use crate::vectree::spec_uncollapse;
use crate::vectree::stack_wf_at;
use crate::vectree::sub_end;
use crate::vectree::tree_wf;
use crate::vectree::visible_at;
use crate::vectree::visible_chain;
use crate::vectree::wf_node;

verus! {

/// Agreement of the build-time structural metadata of two nodes.
pub open spec fn struct_eq(a: NodeView, b: NodeView) -> bool {
    &&& a.subtree_size == b.subtree_size
    &&& a.depth == b.depth
    &&& a.parent_index == b.parent_index
    &&& a.psib_offset == b.psib_offset
}

/// Structural well-formedness only reads the build-time metadata, so it
/// transfers between trees that agree on it node for node.
pub proof fn lemma_tree_wf_agree(s: Seq<NodeView>, t: Seq<NodeView>)
    requires
        s.len() == t.len(),
        forall|k: int| 0 <= k < s.len() ==> struct_eq(s[k], #[trigger] t[k]),
        tree_wf(s),
    ensures
        tree_wf(t),
{
    assert forall|k: int| 0 <= k < t.len() implies wf_node(t, k) by {
        assert(wf_node(s, k));
        assert forall|j: int| 0 <= j < t.len() implies #[trigger] sub_end(t, j) == sub_end(s, j) by {
            assert(struct_eq(s[j], t[j]));
        }
        assert forall|j: int| k < j <= sub_end(t, k) implies #[trigger] t[j].depth > t[k].depth by {
            assert(sub_end(t, k) == sub_end(s, k));
            assert(s[j].depth > s[k].depth);
        }
        assert forall|j: int| k < j <= sub_end(t, k) implies #[trigger] sub_end(t, j) <= sub_end(
            t,
            k,
        ) by {
            assert(sub_end(s, j) <= sub_end(s, k));
        }
        assert forall|j: int|
            #![trigger t[j].parent_index]
            k < j <= sub_end(t, k) && t[j].depth == t[k].depth + 1 implies t[j].parent_index
            == k by {
            assert(s[j].depth == s[k].depth + 1);
            assert(s[j].parent_index == k);
        }
        if t[k].subtree_size == 0 {
            assert(sub_end(t, k + 1 - t[k].psib_offset) == k) by {
                assert(struct_eq(s[k + 1 - s[k].psib_offset], t[k + 1 - t[k].psib_offset]));
            }
            assert forall|c: int| 0 <= c < k + 1 - t[k].psib_offset implies #[trigger] sub_end(
                t,
                c,
            ) != k by {
                assert(sub_end(s, c) != k);
            }
        }
    }
}

/// Collapsing a node changes no structural metadata, so structural
/// well-formedness survives.
pub proof fn lemma_collapse_preserves_tree_wf(s: Seq<NodeView>, i: int)
    requires
        tree_wf(s),
    ensures
        tree_wf(spec_collapse(s, i)),
{
    let t = spec_collapse(s, i);
    assert forall|k: int| 0 <= k < s.len() implies struct_eq(s[k], #[trigger] t[k]) by {
        if 0 <= i < s.len() && !s[i].collapsed {
            assert(wf_node(s, i));
            let s1 = s.update(i, NodeView { collapsed: true, ..s[i] });
            let b = sub_end(s, i) + 1;
            assert(struct_eq(s[k], s1[k]));
            if b < s.len() {
                assert(t == s1.update(
                    b,
                    NodeView { jump_back: s[b].jump_back.push(s[i].subtree_size + 1), ..s1[b] },
                ));
                assert(struct_eq(s1[k], t[k]));
            }
        }
    }
    if 0 <= i < s.len() {
        assert(wf_node(s, i));
    }
    assert(s.len() == t.len());
    lemma_tree_wf_agree(s, t);
}

/// Expanding a node changes no structural metadata, so structural
/// well-formedness survives.
pub proof fn lemma_uncollapse_preserves_tree_wf(s: Seq<NodeView>, i: int)
    requires
        tree_wf(s),
    ensures
        tree_wf(spec_uncollapse(s, i)),
{
    let t = spec_uncollapse(s, i);
    assert forall|k: int| 0 <= k < s.len() implies struct_eq(s[k], #[trigger] t[k]) by {
        if 0 <= i < s.len() && s[i].collapsed {
            assert(wf_node(s, i));
            let s1 = s.update(i, NodeView { collapsed: false, ..s[i] });
            let b = sub_end(s, i) + 1;
            assert(struct_eq(s[k], s1[k]));
            if b < s.len() && s[b].jump_back.len() > 0 {
                assert(t == s1.update(
                    b,
                    NodeView { jump_back: s[b].jump_back.drop_last(), ..s1[b] },
                ));
                assert(struct_eq(s1[k], t[k]));
            }
        }
    }
    if 0 <= i < s.len() {
        assert(wf_node(s, i));
    }
    assert(s.len() == t.len());
    lemma_tree_wf_agree(s, t);
}

/// Toggling a node changes no structural metadata, so structural
/// well-formedness survives.
pub proof fn lemma_toggle_preserves_tree_wf(s: Seq<NodeView>, i: int)
    requires
        tree_wf(s),
    ensures
        tree_wf(spec_toggle(s, i)),
{
    lemma_tree_wf_agree(s, spec_toggle(s, i));
}

/// Two subtrees that end at the same position nest: the later root lies
/// strictly inside the earlier root's subtree.
proof fn lemma_shared_end_nests(s: Seq<NodeView>, c: int, i: int)
    requires
        tree_wf(s),
        0 <= c < i < s.len(),
        sub_end(s, c) == sub_end(s, i),
    ensures
        c < i <= sub_end(s, c),
        !visible_at(s, i) || !s[c].collapsed,
{
    assert(wf_node(s, c));
    assert(wf_node(s, i));
    assert(i <= i + s[i].subtree_size);
    if s[c].collapsed && visible_at(s, i) {
        assert(0 <= c < i && i <= sub_end(s, c));
        assert(!s[c].collapsed);
    }
}

/// Collapsing a visible, not yet collapsed node keeps the collapse
/// bookkeeping consistent: the jump pushed at the boundary skips the
/// outermost hidden subtree ending there, so it lands on top.
pub proof fn lemma_collapse_preserves_collapse_wf(s: Seq<NodeView>, i: int)
    requires
        tree_wf(s),
        collapse_wf(s),
        0 <= i < s.len(),
        !s[i].collapsed,
        visible_at(s, i),
    ensures
        collapse_wf(spec_collapse(s, i)),
{
    let t = spec_collapse(s, i);
    let b = sub_end(s, i) + 1;
    assert(wf_node(s, i));
    assert forall|j: int| 0 <= j < t.len() implies #[trigger] stack_wf_at(t, j) by {
        assert(stack_wf_at(s, j));
        assert forall|c: int| 0 <= c < s.len() implies #[trigger] sub_end(t, c) == sub_end(s, c) by {}
        if j != b {
            assert(t[j].jump_back == s[j].jump_back);
            assert forall|k: int| 1 <= k < t[j].jump_back.len() implies 1 <= #[trigger] t[
                j
            ].jump_back[k] <= j && is_collapse_boundary(t, j - t[j].jump_back[k], j) by {
                let c = j - s[j].jump_back[k];
                assert(is_collapse_boundary(s, c, j));
                assert(c != i);
            }
            assert forall|c: int| #[trigger]
                is_collapse_boundary(t, c, j) implies exists|k: int|
                1 <= k < t[j].jump_back.len() && #[trigger] t[j].jump_back[k] == j - c by {
                assert(c != i);
                assert(is_collapse_boundary(s, c, j));
                let k = choose|k: int|
                    1 <= k < s[j].jump_back.len() && #[trigger] s[j].jump_back[k] == j - c;
                assert(1 <= k < t[j].jump_back.len() && t[j].jump_back[k] == j - c);
            }
        } else {
            let st = s[j].jump_back;
            let st2 = t[j].jump_back;
            assert(st2 == st.push(b - i));
            assert(st2.len() == st.len() + 1);
            assert(st2[0] == st[0]);
            // Every pre-existing entry records a collapsed subtree that also
            // ends at b - 1; sharing the end with i's subtree while i is
            // visible forces its root past i.
            assert forall|k: int| 1 <= k < st.len() implies st[k] < b - i && 1 <= #[trigger] st2[k]
                <= j && is_collapse_boundary(t, j - st2[k], j) by {
                assert(st2[k] == st[k]);
                let c = j - st[k];
                assert(is_collapse_boundary(s, c, j));
                assert(c != i);
                if c < i {
                    lemma_shared_end_nests(s, c, i);
                    assert(false);
                }
                assert(c > i);
                assert(is_collapse_boundary(t, c, j));
            }
            assert(st2[st.len() as int] == b - i);
            assert(1 <= b - i <= j);
            assert(is_collapse_boundary(t, i, j));
            assert forall|c: int| #[trigger]
                is_collapse_boundary(t, c, j) implies exists|k: int|
                1 <= k < st2.len() && #[trigger] st2[k] == j - c by {
                if c == i {
                    assert(st2[st.len() as int] == j - c);
                } else {
                    assert(is_collapse_boundary(s, c, j));
                    let k = choose|k: int| 1 <= k < st.len() && #[trigger] st[k] == j - c;
                    assert(st2[k] == j - c);
                }
            }
            assert forall|k1: int, k2: int|
                #![trigger st2[k1], st2[k2]]
                1 <= k1 < k2 < st2.len() implies st2[k1] < st2[k2] by {
                if k2 < st.len() {
                    assert(st[k1] < st[k2]);
                } else {
                    assert(st2[k2] == b - i);
                    assert(st2[k1] == st[k1]);
                }
            }
        }
    }
}

/// The boundary stack of a collapsed visible node has that node's jump on
/// top: every other collapse recorded there lies strictly inside its hidden
/// subtree.
pub proof fn lemma_top_of_boundary_stack(s: Seq<NodeView>, i: int)
    requires
        tree_wf(s),
        collapse_wf(s),
        0 <= i < s.len(),
        s[i].collapsed,
        visible_at(s, i),
        sub_end(s, i) + 1 < s.len(),
    ensures
        s[sub_end(s, i) + 1].jump_back.len() >= 2,
        s[sub_end(s, i) + 1].jump_back.last() == sub_end(s, i) + 1 - i,
{
    let b = sub_end(s, i) + 1;
    let st = s[b].jump_back;
    assert(wf_node(s, i));
    assert(stack_wf_at(s, b));
    assert(is_collapse_boundary(s, i, b));
    let k = choose|k: int| 1 <= k < st.len() && #[trigger] st[k] == b - i;
    assert(st.len() >= 2);
    // Any entry above k would record a collapse with a larger backward jump,
    // i.e. a collapsed subtree that ends where i's does but starts earlier;
    // such a root would hide i.
    assert forall|k2: int| k < k2 < st.len() implies #[trigger] st[k2] < 0 by {
        assert(st[k] < st[k2]);
        let c = b - st[k2];
        assert(is_collapse_boundary(s, c, b));
        assert(c < i);
        lemma_shared_end_nests(s, c, i);
    }
    if k < st.len() - 1 {
        assert(st[st.len() - 1] < 0);
        assert(st[st.len() - 1] >= 1);
    }
    assert(k == st.len() - 1);
}

/// Expanding a visible collapsed node keeps the collapse bookkeeping
/// consistent: the entry popped at the boundary is exactly the jump its
/// collapse had pushed.
pub proof fn lemma_uncollapse_preserves_collapse_wf(s: Seq<NodeView>, i: int)
    requires
        tree_wf(s),
        collapse_wf(s),
        0 <= i < s.len(),
        s[i].collapsed,
        visible_at(s, i),
    ensures
        collapse_wf(spec_uncollapse(s, i)),
{
    let t = spec_uncollapse(s, i);
    let b = sub_end(s, i) + 1;
    assert(wf_node(s, i));
    if b < s.len() {
        lemma_top_of_boundary_stack(s, i);
    }
    assert forall|j: int| 0 <= j < t.len() implies #[trigger] stack_wf_at(t, j) by {
        assert(stack_wf_at(s, j));
        assert forall|c: int| 0 <= c < s.len() implies #[trigger] sub_end(t, c) == sub_end(s, c) by {}
        if j != b || b >= s.len() {
            assert(t[j].jump_back == s[j].jump_back);
            assert forall|k: int| 1 <= k < t[j].jump_back.len() implies 1 <= #[trigger] t[
                j
            ].jump_back[k] <= j && is_collapse_boundary(t, j - t[j].jump_back[k], j) by {
                let c = j - s[j].jump_back[k];
                assert(is_collapse_boundary(s, c, j));
                assert(c != i);
            }
            assert forall|c: int| #[trigger]
                is_collapse_boundary(t, c, j) implies exists|k: int|
                1 <= k < t[j].jump_back.len() && #[trigger] t[j].jump_back[k] == j - c by {
                assert(is_collapse_boundary(s, c, j));
                let k = choose|k: int|
                    1 <= k < s[j].jump_back.len() && #[trigger] s[j].jump_back[k] == j - c;
                assert(1 <= k < t[j].jump_back.len() && t[j].jump_back[k] == j - c);
            }
        } else {
            let st = s[j].jump_back;
            let st2 = t[j].jump_back;
            assert(st2 == st.drop_last());
            assert(st2.len() == st.len() - 1);
            assert forall|k: int| 1 <= k < st2.len() implies 1 <= #[trigger] st2[k] <= j
                && is_collapse_boundary(t, j - st2[k], j) by {
                assert(st2[k] == st[k]);
                let c = j - st[k];
                assert(is_collapse_boundary(s, c, j));
                assert(st[k] < st[st.len() - 1]);
                assert(c != i);
                assert(is_collapse_boundary(t, c, j));
            }
            assert forall|c: int| #[trigger]
                is_collapse_boundary(t, c, j) implies exists|k: int|
                1 <= k < st2.len() && #[trigger] st2[k] == j - c by {
                assert(c != i);
                assert(is_collapse_boundary(s, c, j));
                let k = choose|k: int| 1 <= k < st.len() && #[trigger] st[k] == j - c;
                assert(k < st.len() - 1);
                assert(st2[k] == j - c);
            }
            assert forall|k1: int, k2: int|
                #![trigger st2[k1], st2[k2]]
                1 <= k1 < k2 < st2.len() implies st2[k1] < st2[k2] by {
                assert(st[k1] < st[k2]);
            }
        }
    }
}

/// Toggling a visible node keeps the collapse bookkeeping consistent.
pub proof fn lemma_toggle_preserves_collapse_wf(s: Seq<NodeView>, i: int)
    requires
        tree_wf(s),
        collapse_wf(s),
        0 <= i < s.len() ==> visible_at(s, i),
    ensures
        collapse_wf(spec_toggle(s, i)),
{
    if 0 <= i < s.len() && s[i].subtree_size > 0 {
        if s[i].collapsed {
            lemma_uncollapse_preserves_collapse_wf(s, i);
        } else {
            lemma_collapse_preserves_collapse_wf(s, i);
        }
    }
}

/// Collapsing a node and immediately expanding it again restores the tree
/// exactly: flag and boundary stack are back to what they were, so every
/// observable cursor or viewport behaviour is unchanged. (An already
/// collapsed node is the one exception: collapsing it is a no-op, so the
/// expansion would genuinely change it.)
pub proof fn lemma_collapse_uncollapse_round_trip(s: Seq<NodeView>, i: int)
    requires
        tree_wf(s),
        0 <= i < s.len() ==> !s[i].collapsed,
    ensures
        spec_uncollapse(spec_collapse(s, i), i) == s,
{
    if 0 <= i < s.len() {
        let t = spec_collapse(s, i);
        let b = sub_end(s, i) + 1;
        assert(wf_node(s, i));
        assert(b > i);
        assert(t[i].collapsed);
        assert(sub_end(t, i) == sub_end(s, i));
        let u = spec_uncollapse(t, i);
        if b < s.len() {
            assert(t[b].jump_back == s[b].jump_back.push(s[i].subtree_size + 1));
            assert(t[b].jump_back.len() > 0);
            assert(t[b].jump_back.drop_last() =~= s[b].jump_back);
            assert forall|k: int| 0 <= k < s.len() implies u[k] =~= s[k] by {}
            assert(u =~= s);
        } else {
            assert forall|k: int| 0 <= k < s.len() implies u[k] =~= s[k] by {}
            assert(u =~= s);
        }
    }
}

/// `k` lies strictly below `n` in the tree: following parent back-references
/// from `k` reaches `n`.
pub open spec fn is_strict_descendant(s: Seq<NodeView>, n: int, k: int) -> bool
    decreases k,
{
    &&& 0 <= n < s.len()
    &&& 0 <= k < s.len()
    &&& k != n
    &&& {
        let p = s[k].parent_index;
        ||| p == n
        ||| (0 <= p < k && is_strict_descendant(s, n, p))
    }
}

/// The strict descendants of a node are exactly the nodes of the interval
/// its `subtree_size` spans.
pub proof fn lemma_descendants_are_subtree(s: Seq<NodeView>, n: int, k: int)
    requires
        tree_wf(s),
        0 <= n < s.len(),
        0 <= k < s.len(),
    ensures
        is_strict_descendant(s, n, k) <==> n < k <= sub_end(s, n),
    decreases k,
{
    assert(wf_node(s, n));
    assert(wf_node(s, k));
    let p = s[k].parent_index;
    if is_strict_descendant(s, n, k) {
        if p == n {
            assert(s[k].depth > 0);
            assert(n < k <= sub_end(s, n));
        } else {
            assert(0 <= p < k && is_strict_descendant(s, n, p));
            lemma_descendants_are_subtree(s, n, p);
            assert(n < p <= sub_end(s, n));
            assert(s[k].depth > 0);
            assert(k <= sub_end(s, p));
            assert(sub_end(s, p) <= sub_end(s, n));
        }
    }
    if n < k <= sub_end(s, n) {
        assert(s[k].depth > s[n].depth >= 0);
        assert(p < k && k <= sub_end(s, p) && s[p].depth + 1 == s[k].depth);
        if p < n {
            // The parent's subtree contains k, hence also n, so the parent
            // would be shallower than n while containing k; but every node
            // of n's subtree is deeper than n.
            assert(p < n < k <= sub_end(s, p));
            assert(wf_node(s, p));
            assert(s[n].depth > s[p].depth);
            assert(s[k].depth > s[n].depth);
            assert(false);
        } else if p == n {
            assert(is_strict_descendant(s, n, k));
        } else {
            assert(n < p <= sub_end(s, n));
            lemma_descendants_are_subtree(s, n, p);
            assert(is_strict_descendant(s, n, p));
            assert(is_strict_descendant(s, n, k));
        }
    }
}

/// For every node, `subtree_size` equals the number of its strict
/// descendants.
pub proof fn lemma_subtree_size_counts_descendants(s: Seq<NodeView>, n: int)
    requires
        tree_wf(s),
        0 <= n < s.len(),
    ensures
        Set::new(|k: int| is_strict_descendant(s, n, k)).len() == s[n].subtree_size,
{
    assert(wf_node(s, n));
    let d = Set::new(|k: int| is_strict_descendant(s, n, k));
    let r = vstd::set_lib::set_int_range(n + 1, sub_end(s, n) + 1);
    assert forall|k: int| d.contains(k) <==> r.contains(k) by {
        if 0 <= n < s.len() && 0 <= k < s.len() {
            lemma_descendants_are_subtree(s, n, k);
        }
    }
    assert(d =~= r);
    vstd::set_lib::lemma_int_range(n + 1, sub_end(s, n) + 1);
}

/// The chain of next-sibling hops starting at `c`: each hop lands just past
/// the current subtree, as long as a node of the same depth stands there.
pub open spec fn sibling_chain(s: Seq<NodeView>, c: int) -> Seq<int>
    decreases s.len() - c,
{
    if 0 <= c < s.len() {
        let next = sub_end(s, c) + 1;
        if c < next && next < s.len() && s[next].depth == s[c].depth {
            seq![c] + sibling_chain(s, next)
        } else {
            seq![c]
        }
    } else {
        seq![]
    }
}

/// Hopping from child to next sibling, starting at a node's first child,
/// enumerates exactly that node's children, in pre-order position order.
pub proof fn lemma_sibling_chain_children(s: Seq<NodeView>, n: int, c: int)
    requires
        tree_wf(s),
        0 <= n < s.len(),
        s[n].subtree_size > 0,
        n < c <= sub_end(s, n),
        s[c].parent_index == n,
        s[c].depth == s[n].depth + 1,
    ensures
        forall|j: int|
            #![trigger sibling_chain(s, c).contains(j)]
            sibling_chain(s, c).contains(j) <==> (c <= j <= sub_end(s, n) && s[j].parent_index == n
                && j != n),
        forall|t: int|
            0 <= t < sibling_chain(s, c).len() - 1 ==> #[trigger] sibling_chain(s, c)[t]
                < sibling_chain(s, c)[t + 1],
    decreases s.len() - c,
{
    assert(wf_node(s, n));
    assert(wf_node(s, c));
    let ch = sibling_chain(s, c);
    let next = sub_end(s, c) + 1;
    assert(c < next);
    assert(sub_end(s, c) <= sub_end(s, n));
    if next < s.len() && s[next].depth == s[c].depth {
        if next <= sub_end(s, n) {
            assert(s[next].parent_index == n);
            lemma_sibling_chain_children(s, n, next);
            let tail = sibling_chain(s, next);
            assert(ch == seq![c] + tail);
            assert forall|j: int|
                #![trigger ch.contains(j)]
                ch.contains(j) <==> (c <= j <= sub_end(s, n) && s[j].parent_index == n && j
                    != n) by {
                if ch.contains(j) {
                    let k = choose|k: int| 0 <= k < ch.len() && ch[k] == j;
                    if k == 0 {
                        assert(j == c);
                    } else {
                        assert(tail[k - 1] == j);
                        assert(tail.contains(j));
                    }
                }
                if c <= j <= sub_end(s, n) && s[j].parent_index == n && j != n {
                    if j == c {
                        assert(ch[0] == c);
                        assert(ch.contains(c));
                    } else {
                        // No child of n lies strictly inside c's subtree:
                        // such nodes are deeper than c.
                        assert(wf_node(s, j));
                        if j <= sub_end(s, c) {
                            assert(s[j].depth > s[c].depth);
                            assert(s[j].depth == s[n].depth + 1);
                            assert(false);
                        }
                        assert(j >= next);
                        assert(tail.contains(j));
                        let k = choose|k: int| 0 <= k < tail.len() && tail[k] == j;
                        assert(ch[k + 1] == j);
                        assert(ch.contains(j));
                    }
                }
            }
            assert(tail[0] == next);
            assert forall|t: int| 0 <= t < ch.len() - 1 implies #[trigger] ch[t] < ch[t + 1] by {
                if t == 0 {
                    assert(ch[0] == c && ch[1] == tail[0]);
                } else {
                    assert(ch[t] == tail[t - 1] && ch[t + 1] == tail[t]);
                    assert(tail[t - 1] < tail[t]);
                }
            }
        } else {
            // The node after c's subtree is outside n's subtree, yet as deep
            // as c; but the follower of n's subtree is no deeper than n.
            assert(next == sub_end(s, n) + 1);
            assert(s[next].depth <= s[n].depth);
            assert(false);
        }
    } else {
        // The chain is the single child c, and no further children exist:
        // any child past c would begin just after c's subtree.
        assert(ch == seq![c]);
        assert forall|j: int|
            #![trigger ch.contains(j)]
            ch.contains(j) <==> (c <= j <= sub_end(s, n) && s[j].parent_index == n && j != n) by {
            if ch.contains(j) {
                let k = choose|k: int| 0 <= k < ch.len() && ch[k] == j;
                assert(j == c);
            }
            if j == c {
                assert(ch[0] == c);
                assert(ch.contains(c));
            }
            if c <= j <= sub_end(s, n) && s[j].parent_index == n && j != n && j != c {
                assert(wf_node(s, j));
                if j <= sub_end(s, c) {
                    assert(s[j].depth > s[c].depth);
                    assert(s[j].depth == s[n].depth + 1);
                } else {
                    assert(j >= next);
                    if next > sub_end(s, n) {
                    } else {
                        assert(s[next].depth > s[n].depth);
                        assert(sub_end(s, next) <= sub_end(s, n));
                        if j == next {
                        } else {
                            assert(next < s.len());
                            assert(s[next].depth != s[c].depth);
                            // j is a child of n past next, so next lies
                            // between two children of n at depth(c), forcing
                            // depth(next) == depth(c) after all.
                            assert(s[j].depth == s[n].depth + 1);
                            assert(s[next].depth >= s[n].depth + 1);
                            if s[next].depth > s[n].depth + 1 {
                                // next is inside some child subtree between c
                                // and j; that child starts at next's position
                                // or earlier, contradicting that c's subtree
                                // ends right before next.
                                let q = s[next].parent_index;
                                assert(wf_node(s, next));
                                assert(q < next && next <= sub_end(s, q));
                                lemma_descendants_are_subtree(s, n, next);
                                lemma_descendants_are_subtree(s, n, q);
                                assert(is_strict_descendant(s, n, next));
                                assert(0 <= q < next && (q == n || is_strict_descendant(s, n, q)));
                                if q == n {
                                    assert(s[next].depth == s[n].depth + 1);
                                    assert(false);
                                } else {
                                    assert(n < q <= sub_end(s, n));
                                    assert(q <= sub_end(s, c) || q >= next);
                                    assert(q < next);
                                    if q <= sub_end(s, c) && q > c {
                                        assert(sub_end(s, q) <= sub_end(s, c));
                                        assert(next <= sub_end(s, c));
                                        assert(false);
                                    } else if q == c {
                                        assert(next <= sub_end(s, c));
                                        assert(false);
                                    } else {
                                        // q < c: then c is inside q's subtree
                                        // (q's subtree reaches next > c), so
                                        // depth(c) > depth(q) >= depth(n)+1,
                                        // contradicting depth(c) = depth(n)+1.
                                        assert(q < c);
                                        assert(c <= sub_end(s, q));
                                        assert(wf_node(s, q));
                                        assert(s[c].depth > s[q].depth);
                                        assert(s[q].depth >= s[n].depth + 1);
                                        assert(false);
                                    }
                                }
                            }
                            assert(false);
                        }
                    }
                }
            }
        }
    }
}

/// A forward visible move followed by a backward visible move returns to
/// the start: the jump found on top of the landing node's stack is exactly
/// the forward jump taken.
pub proof fn lemma_move_next_then_prev(s: Seq<NodeView>, i: int)
    requires
        tree_wf(s),
        collapse_wf(s),
        0 <= i < s.len(),
        visible_at(s, i),
        i + next_jump(s[i]) < s.len(),
    ensures
        prev_jump(s[i + next_jump(s[i])]) == next_jump(s[i]),
{
    let j = i + next_jump(s[i]);
    assert(wf_node(s, i));
    assert(stack_wf_at(s, j));
    if s[i].collapsed {
        assert(j == sub_end(s, i) + 1);
        lemma_top_of_boundary_stack(s, i);
    } else {
        // One step forward: no collapsed subtree can end at i without hiding
        // or being i itself, so the landing stack holds only the bottom 1.
        let st = s[j].jump_back;
        assert forall|k: int| 1 <= k < st.len() implies #[trigger] st[k] < 0 by {
            let c = j - st[k];
            assert(is_collapse_boundary(s, c, j));
            assert(sub_end(s, c) == i);
            assert(wf_node(s, c));
            assert(c <= sub_end(s, c));
            if c == i {
                assert(s[i].collapsed);
            } else {
                assert(c < i && i <= sub_end(s, c));
                assert(!s[c].collapsed);
            }
        }
        if st.len() >= 2 {
            assert(st[1] < 0);
            assert(st[1] >= 1);
        }
        assert(st.len() == 1);
        assert(prev_jump(s[j]) == st[0]);
    }
}


/// The forward visible-skip lands on a visible node.
pub proof fn lemma_next_visible(s: Seq<NodeView>, i: int)
    requires
        tree_wf(s),
        0 <= i < s.len(),
        visible_at(s, i),
        i + next_jump(s[i]) < s.len(),
    ensures
        visible_at(s, i + next_jump(s[i])),
{
    let j = i + next_jump(s[i]);
    assert(wf_node(s, i));
    assert forall|a: int| 0 <= a < j && j <= #[trigger] sub_end(s, a) implies !s[a].collapsed by {
        assert(wf_node(s, a));
        if s[i].collapsed {
            // j is the boundary of i's subtree; a subtree containing j and
            // starting before it must contain i as well.
            if a > i {
                assert(a <= sub_end(s, i));
                assert(sub_end(s, a) <= sub_end(s, i) < j);
            } else if a == i {
                assert(sub_end(s, i) < j);
            } else {
                assert(a < i < j <= sub_end(s, a));
            }
        } else {
            if a != i {
                assert(a < i && i < j <= sub_end(s, a));
            }
        }
    }
}

/// The backward visible-skip lands on a visible node.
pub proof fn lemma_prev_visible(s: Seq<NodeView>, i: int)
    requires
        tree_wf(s),
        collapse_wf(s),
        0 <= i < s.len(),
        visible_at(s, i),
        prev_jump(s[i]) <= i,
    ensures
        0 <= i - prev_jump(s[i]) < s.len(),
        visible_at(s, i - prev_jump(s[i])),
{
    let g = prev_jump(s[i]);
    let j = i - g;
    assert(stack_wf_at(s, i));
    let st = s[i].jump_back;
    assert(g == st[st.len() - 1]);
    assert forall|a: int| 0 <= a < j && j <= #[trigger] sub_end(s, a) implies !s[a].collapsed by {
        assert(wf_node(s, a));
        if s[a].collapsed {
            if sub_end(s, a) >= i {
                assert(a < i && i <= sub_end(s, a));
                assert(!s[a].collapsed);
            } else {
                // a's subtree ends inside (j-1, i): it contains the node
                // the jump targets, so it ends exactly at i - 1 and is a
                // recorded collapse boundary of i; its jump entry would
                // then exceed the stack's top.
                assert(j <= sub_end(s, a) < i);
                if st.len() >= 2 {
                    let c = i - g;
                    assert(is_collapse_boundary(s, c, i));
                    assert(wf_node(s, c));
                    assert(sub_end(s, c) == i - 1);
                    assert(j == c);
                    assert(a < c && c <= sub_end(s, a));
                    assert(sub_end(s, c) <= sub_end(s, a));
                    assert(sub_end(s, a) == i - 1);
                    assert(is_collapse_boundary(s, a, i));
                    let k = choose|k: int| 1 <= k < st.len() && #[trigger] st[k] == i - a;
                    assert(st[k] <= st[st.len() - 1]);
                    assert(i - a > g);
                    assert(false);
                } else {
                    // Only the one-step fallback: then a's subtree would end
                    // at i - 1, making it a boundary that the stack must
                    // record.
                    assert(g == 1);
                    assert(sub_end(s, a) == i - 1);
                    assert(is_collapse_boundary(s, a, i));
                    let k = choose|k: int| 1 <= k < st.len() && #[trigger] st[k] == i - a;
                    assert(false);
                }
            }
        }
    }
}

/// The parent of a visible node is visible.
pub proof fn lemma_parent_visible(s: Seq<NodeView>, i: int)
    requires
        tree_wf(s),
        0 <= i < s.len(),
        visible_at(s, i),
    ensures
        visible_at(s, s[i].parent_index),
{
    let p = s[i].parent_index;
    assert(wf_node(s, i));
    assert forall|a: int| 0 <= a < p && p <= #[trigger] sub_end(s, a) implies !s[a].collapsed by {
        assert(wf_node(s, a));
        assert(wf_node(s, p));
        if p == i {
        } else {
            assert(p < i <= sub_end(s, p));
            assert(sub_end(s, p) <= sub_end(s, a));
            assert(a < i && i <= sub_end(s, a));
        }
    }
}

/// The next-sibling target of a visible node is visible.
pub proof fn lemma_next_sibling_visible(s: Seq<NodeView>, i: int, c: int)
    requires
        tree_wf(s),
        0 <= i < s.len(),
        visible_at(s, i),
        c == sub_end(s, i) + 1,
        c < s.len(),
        s[c].depth == s[i].depth,
    ensures
        visible_at(s, c),
{
    assert(wf_node(s, i));
    assert forall|a: int| 0 <= a < c && c <= #[trigger] sub_end(s, a) implies !s[a].collapsed by {
        assert(wf_node(s, a));
        if a > i {
            assert(a <= sub_end(s, i));
            assert(sub_end(s, a) <= sub_end(s, i) < c);
        } else if a == i {
            assert(sub_end(s, i) < c);
        } else {
            assert(a < i && i < c <= sub_end(s, a));
        }
    }
}

/// The previous-sibling target of a visible node is visible.
pub proof fn lemma_prev_sibling_visible(s: Seq<NodeView>, i: int, c: int)
    requires
        tree_wf(s),
        0 <= i < s.len(),
        visible_at(s, i),
         0 <= c < i,
        sub_end(s, c) + 1 == i,
        s[c].depth == s[i].depth,
    ensures
        visible_at(s, c),
{
    assert(wf_node(s, i));
    assert(wf_node(s, c));
    assert forall|a: int| 0 <= a < c && c <= #[trigger] sub_end(s, a) implies !s[a].collapsed by {
        assert(wf_node(s, a));
        if sub_end(s, a) >= i {
            assert(a < i && i <= sub_end(s, a));
        } else {
            // a's subtree contains c yet ends before i, so it ends with c's
            // subtree at i - 1; a node following it is then no deeper than
            // a, yet i is as deep as c, which lies strictly inside a.
            assert(c <= sub_end(s, a) < i);
            assert(sub_end(s, c) <= sub_end(s, a));
            assert(sub_end(s, a) == i - 1);
            assert(s[i].depth <= s[a].depth);
            assert(s[c].depth > s[a].depth);
            assert(false);
        }
    }
}


/// The iterator's skip chain enumerates exactly the visible nodes: every
/// node it visits has no collapsed ancestor, and it visits every such node
/// at or after its starting point.
pub proof fn lemma_chain_is_visible_nodes(s: Seq<NodeView>, i: int)
    requires
        tree_wf(s),
        0 <= i <= s.len(),
        i < s.len() ==> visible_at(s, i),
    ensures
        forall|k: int|
            #![trigger visible_chain(s, i).contains(k)]
            visible_chain(s, i).contains(k) <==> (i <= k < s.len() && visible_at(s, k)),
    decreases s.len() - i,
{
    if i < s.len() {
        assert(wf_node(s, i));
        let step = chain_step(s[i]);
        let nx = i + step;
        assert(nx <= s.len());
        let ch = visible_chain(s, i);
        let tail = visible_chain(s, nx);
        assert(ch == seq![i] + tail);
        if nx < s.len() {
            // The landing node is visible: a subtree containing it from
            // before i would contain i too.
            assert(visible_at(s, nx)) by {
                assert forall|a: int|
                    0 <= a < nx && nx <= #[trigger] sub_end(s, a) implies !s[a].collapsed by {
                    assert(wf_node(s, a));
                    if s[i].collapsed && s[i].subtree_size > 0 {
                        if a > i {
                            assert(a <= sub_end(s, i));
                            assert(sub_end(s, a) <= sub_end(s, i) < nx);
                        } else if a == i {
                            assert(sub_end(s, i) < nx);
                        } else {
                            assert(a < i && i < nx <= sub_end(s, a));
                        }
                    } else {
                        if a == i {
                            if s[i].collapsed {
                                assert(sub_end(s, i) == i);
                                assert(sub_end(s, i) < nx);
                            }
                        } else {
                            assert(a < i && i < nx <= sub_end(s, a));
                        }
                    }
                }
            }
        }
        lemma_chain_is_visible_nodes(s, nx);
        assert forall|k: int|
            #![trigger ch.contains(k)]
            ch.contains(k) <==> (i <= k < s.len() && visible_at(s, k)) by {
            if ch.contains(k) {
                let t = choose|t: int| 0 <= t < ch.len() && ch[t] == k;
                if t == 0 {
                    assert(k == i);
                } else {
                    assert(tail[t - 1] == k);
                    assert(tail.contains(k));
                }
            }
            if i <= k < s.len() && visible_at(s, k) {
                if k == i {
                    assert(ch[0] == i);
                    assert(ch.contains(i));
                } else {
                    // Nothing strictly between i and the landing point is
                    // visible: those nodes sit inside i's collapsed subtree.
                    if k < nx {
                        assert(i < k <= sub_end(s, i));
                        assert(s[i].collapsed);
                        assert(!visible_at(s, k));
                    } else {
                        assert(tail.contains(k));
                        let t = choose|t: int| 0 <= t < tail.len() && tail[t] == k;
                        assert(ch[t + 1] == k);
                        assert(ch.contains(k));
                    }
                }
            }
        }
    }
}

/// The viewport's visible-row total is the number of visible nodes.
pub proof fn lemma_row_count_is_visible_count(s: Seq<NodeView>)
    requires
        tree_wf(s),
    ensures
        visible_chain(s, 0).to_set() =~= Set::new(
            |k: int| 0 <= k < s.len() && visible_at(s, k),
        ),
{
    assert(visible_at(s, 0));
    lemma_chain_is_visible_nodes(s, 0);
    let ch = visible_chain(s, 0);
    assert forall|k: int| ch.to_set().contains(k) <==> (0 <= k < s.len() && visible_at(s, k)) by {
        if ch.to_set().contains(k) {
            assert(ch.contains(k));
        }
        if 0 <= k < s.len() && visible_at(s, k) {
            assert(ch.contains(k));
            assert(ch.to_set().contains(k));
        }
    }
}


/// A forward move crosses exactly one visible row: everything it skips is
/// hidden, and it lands on a visible node.
pub proof fn lemma_move_next_skips_only_hidden(s: Seq<NodeView>, i: int)
    requires
        tree_wf(s),
        0 <= i < s.len(),
        visible_at(s, i),
    ensures
        forall|k: int| i < k < i + next_jump(s[i]) ==> !visible_at(s, k),
        i + next_jump(s[i]) < s.len() ==> visible_at(s, i + next_jump(s[i])),
{
    assert(wf_node(s, i));
    assert forall|k: int| i < k < i + next_jump(s[i]) implies !visible_at(s, k) by {
        assert(s[i].collapsed);
        assert(0 <= i < k && k <= sub_end(s, i));
    }
    if i + next_jump(s[i]) < s.len() {
        lemma_next_visible(s, i);
    }
}

/// A backward move crosses exactly one visible row: everything it skips
/// lies in the hidden subtree its jump records, and it lands on a visible
/// node.
pub proof fn lemma_move_prev_skips_only_hidden(s: Seq<NodeView>, i: int)
    requires
        tree_wf(s),
        collapse_wf(s),
        0 <= i < s.len(),
        visible_at(s, i),
        prev_jump(s[i]) <= i,
    ensures
        forall|k: int| i - prev_jump(s[i]) < k < i ==> !visible_at(s, k),
        visible_at(s, i - prev_jump(s[i])),
{
    let g = prev_jump(s[i]);
    let j = i - g;
    lemma_prev_visible(s, i);
    assert(stack_wf_at(s, i));
    let st = s[i].jump_back;
    assert forall|k: int| j < k < i implies !visible_at(s, k) by {
        // A jump longer than one step is a recorded collapse whose hidden
        // subtree is exactly the skipped region.
        assert(g > 1);
        assert(st.len() >= 2 && g == st[st.len() - 1]);
        assert(is_collapse_boundary(s, j, i));
        assert(wf_node(s, j));
        assert(0 <= j < k && k <= sub_end(s, j));
        assert(s[j].collapsed);
    }
}

} // verus!
