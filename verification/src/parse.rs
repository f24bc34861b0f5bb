//! Building the flat tree from depth-annotated lines.
//!
//! The input is a sequence of (text, level) pairs in document order. A
//! recursive descent consumes lines at the current depth as siblings and
//! recurses for each child block one level deeper; a shallower line closes
//! the current block. A depth that jumps by more than one level between
//! consecutive lines has no unambiguous nesting and is rejected.

use vstd::prelude::*;

use crate::MalformedInputError;
use crate::laws::struct_eq;
use crate::vectree::NodeView;
use crate::vectree::VecTree;
use crate::vectree::VecTreeNode;
use crate::vectree::sub_end;
use crate::vectree::views_of;
use crate::vectree::wf_offset;
use crate::vectree::wf_struct;

verus! {

/// One input line with its indentation level already resolved.
pub ghost struct TextLineView {
    pub text: Seq<char>,
    pub level: int,
}

/// One input line with its indentation level already resolved.
pub struct TextLine {
    pub text: String,
    pub level: usize,
}

impl View for TextLine {
    type V = TextLineView;

    open spec fn view(&self) -> TextLineView {
        TextLineView { text: self.text@, level: self.level as int }
    }
}

impl DeepView for TextLine {
    type V = TextLineView;

    open spec fn deep_view(&self) -> TextLineView {
        self@
    }
}

/// The region `[lo, hi)` holds a sequence of complete sibling subtrees at
/// `depth`, children of `parent` (or self-parented roots at depth 0), laid
/// out in pre-order. Each subtree's last node carries the backward offset to
/// its subtree root, except the region's very last node when `last_off` is
/// false: that offset belongs to the outermost enclosing subtree sharing the
/// same end, and is recorded by the caller.
pub open spec fn is_forest(
    s: Seq<NodeView>,
    lo: int,
    hi: int,
    depth: int,
    parent: int,
    last_off: bool,
) -> bool
    decreases hi - lo,
{
    if lo >= hi {
        lo == hi
    } else {
        let e = sub_end(s, lo);
        &&& 0 <= lo
        &&& hi <= s.len()
        &&& lo <= e < hi
        &&& s[lo].depth == depth
        &&& s[lo].parent_index == (if depth == 0 {
            lo
        } else {
            parent
        })
        &&& (e > lo ==> s[lo].psib_offset == 1)
        &&& ((e + 1 < hi || last_off) ==> s[e].psib_offset == e - lo + 1)
        &&& is_forest(s, lo + 1, e + 1, depth + 1, lo, false)
        &&& is_forest(s, e + 1, hi, depth, parent, last_off)
    }
}

/// Agreement of structural metadata, the previous-sibling offset excepted.
pub open spec fn struct_eq_nooff(a: NodeView, b: NodeView) -> bool {
    &&& a.subtree_size == b.subtree_size
    &&& a.depth == b.depth
    &&& a.parent_index == b.parent_index
}

/// A forest reads only the structural metadata of its own region, so it
/// transfers to any tree agreeing there.
proof fn lemma_forest_agree(
    s: Seq<NodeView>,
    t: Seq<NodeView>,
    lo: int,
    hi: int,
    depth: int,
    parent: int,
    last_off: bool,
)
    requires
        is_forest(s, lo, hi, depth, parent, last_off),
        hi <= t.len(),
        forall|k: int| lo <= k < hi ==> struct_eq(s[k], #[trigger] t[k]),
    ensures
        is_forest(t, lo, hi, depth, parent, last_off),
    decreases hi - lo,
{
    if lo < hi {
        let e = sub_end(s, lo);
        assert(struct_eq(s[lo], t[lo]));
        assert(sub_end(t, lo) == e);
        if e + 1 < hi || last_off {
            assert(struct_eq(s[e], t[e]));
        }
        lemma_forest_agree(s, t, lo + 1, e + 1, depth + 1, lo, false);
        lemma_forest_agree(s, t, e + 1, hi, depth, parent, last_off);
    }
}

/// A forest also transfers when the region's last node changes only its
/// previous-sibling offset, provided that offset was not pinned: the claim
/// is weakened to `last_off == false`.
proof fn lemma_forest_retarget_end(
    s: Seq<NodeView>,
    t: Seq<NodeView>,
    lo: int,
    hi: int,
    depth: int,
    parent: int,
    last_off: bool,
)
    requires
        is_forest(s, lo, hi, depth, parent, last_off),
        hi <= t.len(),
        forall|k: int| lo <= k < hi - 1 ==> struct_eq(s[k], #[trigger] t[k]),
        lo < hi ==> struct_eq_nooff(s[hi - 1], t[hi - 1]),
    ensures
        is_forest(t, lo, hi, depth, parent, false),
    decreases hi - lo,
{
    if lo < hi {
        let e = sub_end(s, lo);
        assert(struct_eq_nooff(s[lo], t[lo]));
        assert(sub_end(t, lo) == e);
        if e + 1 < hi {
            assert(struct_eq(s[e], t[e]));
            lemma_forest_agree(s, t, lo + 1, e + 1, depth + 1, lo, false);
        } else {
            lemma_forest_retarget_end(s, t, lo + 1, e + 1, depth + 1, lo, false);
        }
        lemma_forest_retarget_end(s, t, e + 1, hi, depth, parent, last_off);
    }
}

/// Appending one further complete sibling subtree `[m, e]` to the right of
/// a forest `[lo, m)` yields the forest `[lo, e + 1)`.
proof fn lemma_forest_snoc(s: Seq<NodeView>, lo: int, m: int, depth: int, parent: int)
    requires
        is_forest(s, lo, m, depth, parent, true),
        0 <= lo <= m,
        m <= sub_end(s, m) < s.len(),
        s[m].depth == depth,
        s[m].parent_index == (if depth == 0 {
            m
        } else {
            parent
        }),
        sub_end(s, m) > m ==> s[m].psib_offset == 1,
        s[sub_end(s, m)].psib_offset == sub_end(s, m) - m + 1,
        is_forest(s, m + 1, sub_end(s, m) + 1, depth + 1, m, false),
    ensures
        is_forest(s, lo, sub_end(s, m) + 1, depth, parent, true),
    decreases m - lo,
{
    let e = sub_end(s, m);
    if lo == m {
        assert(is_forest(s, e + 1, e + 1, depth, parent, true));
    } else {
        let e0 = sub_end(s, lo);
        lemma_forest_snoc(s, e0 + 1, m, depth, parent);
    }
}

/// The node at `i` is no shallower than its region and its subtree stays
/// inside the region.
pub open spec fn forest_bounds(s: Seq<NodeView>, depth: int, hi: int, i: int) -> bool {
    &&& s[i].depth >= depth
    &&& i <= sub_end(s, i)
    &&& sub_end(s, i) < hi
}

/// A node at exactly the region's depth is one of its sibling roots, so it
/// carries the region's parent (or itself, for a root of the whole tree).
pub open spec fn forest_parent_ok(s: Seq<NodeView>, depth: int, parent: int, i: int) -> bool {
    s[i].depth == depth ==> s[i].parent_index == (if depth == 0 {
        i
    } else {
        parent
    })
}

/// Every node of a forest region is structurally well formed, given sound
/// surroundings: a parent whose subtree covers the region, a follower no
/// deeper than the region, and no outside subtree ending strictly inside.
proof fn lemma_forest_wf(
    s: Seq<NodeView>,
    lo: int,
    hi: int,
    depth: int,
    parent: int,
    last_off: bool,
)
    requires
        is_forest(s, lo, hi, depth, parent, last_off),
        0 <= depth,
        depth > 0 ==> 0 <= parent < lo && s[parent].depth == depth - 1 && sub_end(s, parent) >= hi
            - 1,
        hi < s.len() ==> s[hi].depth <= depth,
        forall|c: int|
            0 <= c < lo ==> #[trigger] sub_end(s, c) < lo || (!last_off && sub_end(s, c) >= hi - 1),
    ensures
        forall|i: int| lo <= i < hi ==> #[trigger] forest_bounds(s, depth, hi, i),
        forall|i: int| lo <= i < hi ==> #[trigger] wf_struct(s, i),
        forall|i: int| lo <= i < hi && (i < hi - 1 || last_off) ==> #[trigger] wf_offset(s, i),
        forall|i: int| lo <= i < hi ==> #[trigger] forest_parent_ok(s, depth, parent, i),
    decreases hi - lo,
{
    if lo < hi {
        let e = sub_end(s, lo);
        if e + 1 < hi {
            assert(is_forest(s, e + 1, hi, depth, parent, last_off));
            assert(s[e + 1].depth == depth);
        }
        assert forall|c: int| 0 <= c < lo + 1 implies #[trigger] sub_end(s, c) < lo + 1 || (!false
            && sub_end(s, c) >= (e + 1) - 1) by {
            if c < lo {
                assert(sub_end(s, c) < lo || (!last_off && sub_end(s, c) >= hi - 1));
            }
        }
        lemma_forest_wf(s, lo + 1, e + 1, depth + 1, lo, false);
        assert forall|c: int| 0 <= c < e + 1 implies #[trigger] sub_end(s, c) < e + 1 || (!last_off
            && sub_end(s, c) >= hi - 1) by {
            if c < lo {
                assert(sub_end(s, c) < lo || (!last_off && sub_end(s, c) >= hi - 1));
            } else if c > lo {
                assert(forest_bounds(s, depth + 1, e + 1, c));
            }
        }
        lemma_forest_wf(s, e + 1, hi, depth, parent, last_off);

        assert(wf_struct(s, lo)) by {
            assert forall|j: int| lo < j <= sub_end(s, lo) implies #[trigger] s[j].depth > s[
                lo
            ].depth by {
                assert(forest_bounds(s, depth + 1, e + 1, j));
            }
            assert forall|j: int| lo < j <= sub_end(s, lo) implies #[trigger] sub_end(s, j)
                <= sub_end(s, lo) by {
                assert(forest_bounds(s, depth + 1, e + 1, j));
            }
            assert forall|j: int|
                lo < j <= sub_end(s, lo) && #[trigger] s[j].depth == s[lo].depth + 1 implies s[
                j
            ].parent_index == lo by {
                assert(forest_bounds(s, depth + 1, e + 1, j));
                assert(forest_parent_ok(s, depth + 1, lo, j));
            }
            if s[lo].subtree_size > 0 {
                assert(is_forest(s, lo + 1, e + 1, depth + 1, lo, false));
                assert(s[lo + 1].depth == depth + 1 && s[lo + 1].parent_index == lo);
            }
        }

        // The first subtree's last node is a leaf, and its stored offset
        // points back at the subtree root, the outermost subtree ending
        // there.
        if e + 1 < hi || last_off {
            assert(wf_offset(s, e)) by {
                if e > lo {
                    assert(forest_bounds(s, depth + 1, e + 1, e));
                }
                assert(sub_end(s, e) == e);
                assert(s[e].psib_offset == e - lo + 1);
                assert(sub_end(s, e + 1 - s[e].psib_offset) == e);
                assert forall|c: int| 0 <= c < e + 1 - s[e].psib_offset implies #[trigger] sub_end(
                    s,
                    c,
                ) != e by {
                    assert(c < lo);
                    assert(sub_end(s, c) < lo || (!last_off && sub_end(s, c) >= hi - 1));
                }
            }
        }
        if lo < e {
            assert(wf_offset(s, lo)) by {
                assert(s[lo].psib_offset == 1);
                assert(s[lo].subtree_size > 0);
            }
        }

        assert forall|i: int| lo <= i < hi implies #[trigger] forest_bounds(s, depth, hi, i) by {
            if i == lo {
            } else if i <= e {
                assert(forest_bounds(s, depth + 1, e + 1, i));
            } else {
                assert(forest_bounds(s, depth, hi, i));
            }
        }
        assert forall|i: int| lo <= i < hi implies #[trigger] wf_struct(s, i) by {
            if lo < i <= e {
                assert(wf_struct(s, i));
            } else if i > e {
                assert(wf_struct(s, i));
            }
        }
        assert forall|i: int| lo <= i < hi && (i < hi - 1 || last_off) implies #[trigger] wf_offset(
            s,
            i,
        ) by {
            if i == lo {
                if lo == e {
                    assert(e + 1 < hi || last_off);
                    assert(wf_offset(s, e));
                }
            } else if i < e {
                assert(i < (e + 1) - 1 || false);
                assert(wf_offset(s, i));
            } else if i == e {
                assert(e + 1 < hi || last_off);
                assert(wf_offset(s, e));
            } else {
                assert(wf_offset(s, i));
            }
        }
        assert forall|i: int| lo <= i < hi implies #[trigger] forest_parent_ok(
            s,
            depth,
            parent,
            i,
        ) by {
            if i == lo {
            } else if i <= e {
                assert(forest_bounds(s, depth + 1, e + 1, i));
            } else {
                assert(forest_parent_ok(s, depth, parent, i));
            }
        }
    }
}

/// An empty region is a forest.
proof fn lemma_forest_empty(s: Seq<NodeView>, lo: int, depth: int, parent: int, last_off: bool)
    ensures
        is_forest(s, lo, lo, depth, parent, last_off),
{
}

/// The node is exactly what the parser makes of one input line: that line's
/// text, its level as the depth, and pristine collapse state.
pub open spec fn node_matches_item(n: VecTreeNode, it: TextLine) -> bool {
    &&& n@.lines == seq![it.text@]
    &&& n@.depth == it.level as int
    &&& !n@.collapsed
    &&& n@.jump_back == seq![1int]
}

/// The input levels nest unambiguously: the first line is a root and no
/// line is more than one level deeper than its predecessor.
pub open spec fn depths_ok(items: Seq<TextLine>) -> bool {
    &&& (items.len() > 0 ==> items[0].level == 0)
    &&& (forall|t: int| 0 < t < items.len() ==> #[trigger] items[t].level <= items[t - 1].level + 1)
}

/// Line `ln` is where the nesting breaks: a non-root first line, or a jump
/// of more than one level from its predecessor.
pub open spec fn depth_jump_at(items: Seq<TextLine>, ln: int) -> bool {
    if ln == 0 {
        items.len() > 0 && items[0].level > 0
    } else {
        0 < ln < items.len() && items[ln].level > items[ln - 1].level + 1
    }
}

/// One pass of the recursive descent: starting at line `pos`, consume the
/// sibling subtrees at `depth` under `parent_index` and append their nodes,
/// returning the position of the first unconsumed line. Rejects a depth
/// jump of more than one level with the offending line's number.
#[verifier::rlimit(100)]
pub fn parse_stacktree_rec(
    items: &Vec<TextLine>,
    nodes: &mut Vec<VecTreeNode>,
    pos: usize,
    parent_index: usize,
    depth: usize,
) -> (r: Result<usize, MalformedInputError>)
    requires
        pos <= items@.len(),
        depth == 0 ==> pos == 0,
        depth > 0 ==> pos < items@.len() && items@[pos as int].level == depth,
    ensures
        r is Ok ==> {
            let np = r->Ok_0 as int;
            &&& pos <= np <= items@.len()
            &&& final(nodes)@.len() == old(nodes)@.len() + (np - pos)
            &&& (forall|k: int| 0 <= k < old(nodes)@.len() ==> final(nodes)@[k] == old(nodes)@[k])
            &&& (forall|t: int|
                old(nodes)@.len() <= t < final(nodes)@.len() ==> node_matches_item(
                    #[trigger] final(nodes)@[t],
                    items@[pos + t - old(nodes)@.len()],
                ))
            &&& is_forest(
                views_of(final(nodes)@),
                old(nodes)@.len() as int,
                final(nodes)@.len() as int,
                depth as int,
                parent_index as int,
                true,
            )
            &&& (np == items@.len() || items@[np].level < depth)
        },
        r is Err ==> depth_jump_at(items@, r->Err_0.line_number as int),
    decreases items@.len() - pos,
{
    let items_len = items.len();
    let start_len = nodes.len();
    let ghost base = nodes@.len() as int;
    let ghost par = parent_index as int;
    let mut p = pos;
    let ghost mut last_root: int = base;
    let mut done = false;

    while p < items_len && !done
        invariant
            items_len == items@.len(),
            pos <= p <= items_len,
            par == parent_index as int,
            start_len as int == base,
            base == old(nodes)@.len(),
            nodes@.len() == base + (p - pos),
            depth == 0 ==> pos == 0,
            depth > 0 ==> pos < items@.len() && items@[pos as int].level == depth,
            forall|k: int| 0 <= k < base ==> nodes@[k] == old(nodes)@[k],
            forall|t: int|
                base <= t < nodes@.len() ==> node_matches_item(
                    #[trigger] nodes@[t],
                    items@[pos + t - base],
                ),
            p == pos ==> last_root == base,
            p > pos ==> {
                let vs = views_of(nodes@);
                &&& base <= last_root < vs.len()
                &&& is_forest(vs, base, last_root, depth as int, par, true)
                &&& sub_end(vs, last_root) == vs.len() - 1
                &&& vs[last_root].depth == depth
                &&& vs[last_root].parent_index == (if depth == 0 {
                    last_root
                } else {
                    par
                })
                &&& (last_root < vs.len() - 1 ==> vs[last_root].psib_offset == 1)
                &&& vs[vs.len() - 1].psib_offset == vs.len() - 1 - last_root + 1
                &&& is_forest(vs, last_root + 1, vs.len() as int, depth + 1, last_root, false)
            },
            p > pos && p < items_len && items@[p as int].level > depth ==> items@[p as int
                - 1].level == depth && last_root == nodes@.len() - 1,
            done ==> p < items_len && items@[p as int].level < depth,
        decreases items_len - p, (if done { 0int } else { 1int }),
    {
        let level = items[p].level;
        if level < depth {
            done = true;
        } else if level == depth {
            proof {
                if p > pos {
                    lemma_forest_snoc(views_of(nodes@), base, last_root, depth as int, par);
                }
            }
            let self_index = nodes.len();
            let owner = if depth == 0 {
                self_index
            } else {
                parent_index
            };
            let ghost s0 = views_of(nodes@);
            let node = VecTreeNode::new(owner, depth, items[p].text.clone());
            nodes.push(node);
            proof {
                let vs = views_of(nodes@);
                assert(vs.len() == s0.len() + 1);
                assert forall|k: int| 0 <= k < s0.len() implies s0[k] == #[trigger] vs[k] by {}
                assert forall|k: int| base <= k < s0.len() implies struct_eq(
                    s0[k],
                    #[trigger] vs[k],
                ) by {}
                if p > pos {
                    lemma_forest_agree(s0, vs, base, s0.len() as int, depth as int, par, true);
                }
                last_root = s0.len() as int;
                assert(sub_end(vs, last_root) == last_root);
                assert(is_forest(vs, last_root + 1, vs.len() as int, depth + 1, last_root, false));
                assert(base <= last_root < vs.len());
                if p > pos {
                    assert(is_forest(vs, base, last_root, depth as int, par, true));
                } else {
                    assert(last_root == base);
                    lemma_forest_empty(vs, base, depth as int, par, true);
                }
                assert(vs[last_root] == node@);
                assert(vs[last_root].parent_index == (if depth == 0 {
                    last_root
                } else {
                    par
                }));
            }
            p = p + 1;
        } else {
            // level > depth: a child block, or a malformed jump.
            if nodes.len() == start_len || level > depth + 1 {
                return Err(MalformedInputError { line_number: p });
            }
            let node_index = nodes.len() - 1;
            proof {
                assert(node_index as int == last_root);
            }
            let ghost s1 = views_of(nodes@);
            let ghost p_old = p as int;
            let sub = parse_stacktree_rec(items, nodes, p, node_index, depth + 1);
            let new_p = match sub {
                Ok(v) => v,
                Err(e) => {
                    return Err(e);
                },
            };
            let ghost s2 = views_of(nodes@);
            proof {
                assert(new_p > p) by {
                    if new_p == p {
                        assert(items@[p as int].level < depth + 1);
                    }
                }
                assert forall|k: int| 0 <= k < s1.len() implies s1[k] == #[trigger] s2[k] by {}
            }
            let subtree_size = nodes.len() - node_index - 1;
            let n = &mut nodes[node_index];
            n.subtree_size = subtree_size;
            let ghost s3 = views_of(nodes@);
            let last = nodes.len() - 1;
            let m = &mut nodes[last];
            m.next_node_previous_sibling_offset = subtree_size + 1;
            proof {
                let s4 = views_of(nodes@);
                let lr = last_root;
                let mm = s2.len() as int;
                // The child forest survives the two metadata writes: the
                // subtree-size write lands before it, the offset write only
                // retargets its final node.
                assert forall|k: int| lr + 1 <= k < mm implies struct_eq(s2[k], #[trigger] s3[k]) by {}
                lemma_forest_agree(s2, s3, lr + 1, mm, depth as int + 1, lr, true);
                assert forall|k: int| lr + 1 <= k < mm - 1 implies struct_eq(
                    s3[k],
                    #[trigger] s4[k],
                ) by {}
                assert(struct_eq_nooff(s3[mm - 1], s4[mm - 1]));
                lemma_forest_retarget_end(s3, s4, lr + 1, mm, depth as int + 1, lr, true);
                // The completed earlier siblings are untouched.
                assert forall|k: int| base <= k < lr implies struct_eq(s1[k], #[trigger] s4[k]) by {
                    assert(s2[k] == s1[k]);
                }
                if p_old > pos {
                    lemma_forest_agree(s1, s4, base, lr, depth as int, par, true);
                }
                assert(sub_end(s4, lr) == mm - 1);
                assert(s4[mm - 1].psib_offset == mm - 1 - lr + 1);
                assert(s4[lr].parent_index == (if depth == 0 {
                    lr
                } else {
                    par
                }));
            }
            p = new_p;
        }
    }
    proof {
        if p > pos {
            lemma_forest_snoc(views_of(nodes@), base, last_root, depth as int, par);
        }
    }
    Ok(p)
}

/// A whole-tree forest is a structurally well-formed tree.
pub proof fn lemma_forest_tree_wf(s: Seq<NodeView>)
    requires
        is_forest(s, 0, s.len() as int, 0, 0, true),
    ensures
        crate::vectree::tree_wf(s),
{
    lemma_forest_wf(s, 0, s.len() as int, 0, 0, true);
    assert forall|i: int| 0 <= i < s.len() implies #[trigger] crate::vectree::wf_node(s, i) by {
        assert(wf_struct(s, i));
        assert(wf_offset(s, i));
    }
    if s.len() > 0 {
        assert(is_forest(s, 0, s.len() as int, 0, 0, true));
        assert(s[0].depth == 0);
    }
}


/// Counting leading indentation characters from position `k` on.
pub open spec fn indent_from(s: Seq<char>, k: int) -> int
    decreases s.len() - k,
{
    if 0 <= k < s.len() && is_indent_char(s[k]) {
        1 + indent_from(s, k + 1)
    } else {
        0
    }
}

/// A character of the Unicode White_Space set, written out code point by
/// code point: tab through carriage return, space, next line, no-break
/// space, ogham space mark, the en-quad..hair-space range, the line and
/// paragraph separators, narrow no-break space, medium mathematical space,
/// and ideographic space.
pub open spec fn is_whitespace_char(c: char) -> bool {
    let u = c as u32;
    ||| (0x09 <= u && u <= 0x0D)
    ||| u == 0x20
    ||| u == 0x85
    ||| u == 0xA0
    ||| u == 0x1680
    ||| (0x2000 <= u && u <= 0x200A)
    ||| u == 0x2028
    ||| u == 0x2029
    ||| u == 0x202F
    ||| u == 0x205F
    ||| u == 0x3000
}

/// A character that counts as indentation: any whitespace except a line
/// break.
pub open spec fn is_indent_char(c: char) -> bool {
    is_whitespace_char(c) && c != '\n'
}

/// The width of a line's leading indentation, in characters.
pub open spec fn spec_indentation(s: Seq<char>) -> int {
    indent_from(s, 0)
}

proof fn lemma_indent_from_at(s: Seq<char>, n: int, k: int)
    requires
        0 <= k <= n <= s.len(),
        forall|j: int| 0 <= j < n ==> is_indent_char(#[trigger] s[j]),
        n < s.len() ==> !is_indent_char(s[n]),
    ensures
        indent_from(s, k) == n - k,
    decreases n - k,
{
    if k < n {
        assert(is_indent_char(s[k]));
        lemma_indent_from_at(s, n, k + 1);
    }
}

/// The width of the leading run of spaces and tabs.
pub fn get_indentation(line: &str) -> (r: usize)
    ensures
        r as int == spec_indentation(line@),
        r <= line@.len(),
        forall|k: int| 0 <= k < r ==> is_indent_char(#[trigger] line@[k]),
{
    let len = line.unicode_len();
    let mut i: usize = 0;
    let mut stop = false;
    while i < len && !stop
        invariant
            len == line@.len(),
            i <= len,
            forall|k: int| 0 <= k < i ==> is_indent_char(#[trigger] line@[k]),
            stop ==> i < len && !is_indent_char(line@[i as int]),
        decreases len - i, (if stop {
            0int
        } else {
            1int
        }),
    {
        let c = line.get_char(i);
        let u = c as u32;
        let whitespace = (0x09 <= u && u <= 0x0D) || u == 0x20 || u == 0x85 || u == 0xA0 || u
            == 0x1680 || (0x2000 <= u && u <= 0x200A) || u == 0x2028 || u == 0x2029 || u == 0x202F
            || u == 0x205F || u == 0x3000;
        if whitespace && c != '\n' {
            i = i + 1;
        } else {
            stop = true;
        }
    }
    proof {
        lemma_indent_from_at(line@, i as int, 0);
    }
    i
}

/// Resolve raw lines into (text, level) pairs under the caller's
/// indentation rule: the level is the indentation width divided by `unit`
/// characters per level, and the text is the line minus its indentation.
pub fn lines_to_items(lines: &Vec<String>, unit: usize) -> (r: Vec<TextLine>)
    requires
        unit >= 1,
    ensures
        r@.len() == lines@.len(),
        forall|k: int|
            0 <= k < lines@.len() ==> {
                &&& (#[trigger] r@[k]).level as int == spec_indentation(lines@[k]@) / (
                unit as int)
                &&& r@[k].text@ == lines@[k]@.subrange(
                    spec_indentation(lines@[k]@),
                    lines@[k]@.len() as int,
                )
            },
{
    let mut out: Vec<TextLine> = Vec::new();
    let mut idx: usize = 0;
    while idx < lines.len()
        invariant
            unit >= 1,
            idx <= lines@.len(),
            out@.len() == idx,
            forall|k: int|
                0 <= k < idx ==> {
                    &&& (#[trigger] out@[k]).level as int == spec_indentation(lines@[k]@) / (
                    unit as int)
                    &&& out@[k].text@ == lines@[k]@.subrange(
                        spec_indentation(lines@[k]@),
                        lines@[k]@.len() as int,
                    )
                },
        decreases lines@.len() - idx,
    {
        let line = &lines[idx];
        let indentation = get_indentation(line.as_str());
        let total = line.as_str().unicode_len();
        let text = line.as_str().substring_char(indentation, total).to_owned();
        let level = indentation / unit;
        out.push(TextLine { text, level });
        idx = idx + 1;
    }
    out
}

/// In a well-formed tree the depth can grow by at most one from each node
/// to the next: a child follows its parent directly, and a node after a
/// subtree is no deeper than that subtree's root.
pub proof fn lemma_tree_wf_depth_steps(s: Seq<NodeView>, t: int)
    requires
        crate::vectree::tree_wf(s),
        0 < t < s.len(),
    ensures
        s[t].depth <= s[t - 1].depth + 1,
{
    assert(crate::vectree::wf_node(s, t - 1));
}

/// Build the flat tree from depth-annotated lines: one node per line, in
/// input order, with all structural metadata in place and nothing
/// collapsed. Fails, naming the offending line, exactly when the input's
/// levels do not nest unambiguously.
pub fn parse_vectree(input: &Vec<TextLine>) -> (r: Result<VecTree, MalformedInputError>)
    ensures
        r is Ok <==> depths_ok(input@),
        r is Ok ==> {
            let tree = r->Ok_0;
            &&& tree@.len() == input@.len()
            &&& crate::vectree::tree_wf(tree@)
            &&& crate::vectree::collapse_wf(tree@)
            &&& (forall|k: int|
                0 <= k < input@.len() ==> node_matches_item(
                    #[trigger] tree.nodes@[k],
                    input@[k],
                ))
        },
        r is Err ==> depth_jump_at(input@, r->Err_0.line_number as int),
{
    let mut nodes: Vec<VecTreeNode> = Vec::new();
    let result = parse_stacktree_rec(input, &mut nodes, 0, 0, 0);
    match result {
        Ok(consumed) => {
            proof {
                assert(consumed == input@.len());
                let vs = views_of(nodes@);
                lemma_forest_tree_wf(vs);
                assert forall|j: int| 0 <= j < vs.len() implies
                    #[trigger] crate::vectree::stack_wf_at(vs, j) by {
                    assert(node_matches_item(nodes@[j], input@[j]));
                    assert(vs[j].jump_back == seq![1int]);
                    assert forall|c: int|
                        #[trigger] crate::vectree::is_collapse_boundary(vs, c, j) implies false by {
                        assert(node_matches_item(nodes@[c], input@[c]));
                    }
                }
                // A well-formed tree built from the input can only exist
                // when the levels nest: each step grows depth by at most 1.
                assert forall|t: int| 0 < t < input@.len() implies #[trigger] input@[t].level
                    <= input@[t - 1].level + 1 by {
                    lemma_tree_wf_depth_steps(vs, t);
                    assert(node_matches_item(nodes@[t], input@[t]));
                    assert(node_matches_item(nodes@[t - 1], input@[t - 1]));
                }
                if input@.len() > 0 {
                    assert(node_matches_item(nodes@[0], input@[0]));
                }
            }
            Ok(VecTree { nodes })
        },
        Err(e) => {
            proof {
                let ln = e.line_number as int;
                if ln == 0 {
                    assert(!depths_ok(input@));
                } else {
                    assert(input@[ln].level > input@[ln - 1].level + 1);
                    assert(!depths_ok(input@));
                }
            }
            Err(e)
        },
    }
}

} // verus!
