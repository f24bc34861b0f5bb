//! The scrolling viewport: maps the cursor's visible-row ordinal to a window
//! of rows on a fixed-height terminal, keeping a padding margin between the
//! cursor and the window edges.

use vstd::prelude::*;

use crate::NavigationBoundaryError;
use crate::laws::lemma_next_sibling_visible;
use crate::laws::lemma_next_visible;
use crate::laws::lemma_parent_visible;
use crate::laws::lemma_prev_sibling_visible;
use crate::laws::lemma_prev_visible;
use crate::laws::lemma_toggle_preserves_collapse_wf;
use crate::laws::lemma_toggle_preserves_tree_wf;
use crate::vectree::VecTree;
use crate::vectree::VecTreeCursor;
use crate::vectree::collapse_wf;
use crate::vectree::next_jump;
use crate::vectree::prev_jump;
use crate::vectree::spec_next_sibling;
use crate::vectree::spec_prev_sibling;
use crate::vectree::spec_toggle;
use crate::vectree::sub_end;
use crate::vectree::tree_wf;
use crate::vectree::visible_at;
use crate::vectree::vis_dist;
use crate::vectree::visible_chain;
use crate::vectree::wf_node;

verus! {

/// A semantic navigation or folding request, as decoded from an input
/// event.
pub enum Action {
    ToggleCollapse,
    Up,
    Down,
    NextSibling,
    PrevSibling,
    Parent,
}

/// How rows are numbered when rendered. Rendering itself is an external
/// concern; the choice is carried as explicit configuration.
pub enum Numbering {
    Relative,
    Absolute,
    Off,
}

/// Explicit rendering configuration handed to the presentation layer.
pub struct Settings {
    pub numbering: Numbering,
    pub debug: bool,
}

/// The mathematical content of a viewport.
#[verifier::ext_equal]
pub ghost struct ViewportView {
    pub lines_visible: int,
    pub max_line: int,
    pub cursor: int,
    pub first_line: int,
    pub cursor_pad: int,
    pub tree_length: int,
}

/// A window of `lines_visible` rows over the visible rows of the tree.
/// `cursor` and `first_line` are visible-row ordinals (0, 1, 2, ... over
/// currently uncollapsed nodes), not array indices; `max_line` is the total
/// count of visible rows; `tree_length` is the tree's node count, fixed at
/// build time.
pub struct Viewport {
    pub lines_visible: usize,
    pub max_line: usize,
    pub cursor: usize,
    pub first_line: usize,
    /// Minimum rows kept between the cursor and a window edge.
    pub cursor_pad: usize,
    pub tree_length: usize,
}

impl View for Viewport {
    type V = ViewportView;

    open spec fn view(&self) -> ViewportView {
        ViewportView {
            lines_visible: self.lines_visible as int,
            max_line: self.max_line as int,
            cursor: self.cursor as int,
            first_line: self.first_line as int,
            cursor_pad: self.cursor_pad as int,
            tree_length: self.tree_length as int,
        }
    }
}

pub open spec fn clamp_int(x: int, lo: int, hi: int) -> int {
    if x < lo {
        lo
    } else if x > hi {
        hi
    } else {
        x
    }
}

pub open spec fn max_int(a: int, b: int) -> int {
    if a > b {
        a
    } else {
        b
    }
}

/// All viewport quantities stay within terminal-realistic bounds, so the
/// row arithmetic cannot overflow a `usize`.
pub open spec fn vp_bounded(v: ViewportView) -> bool {
    &&& 0 <= v.lines_visible <= i32::MAX
    &&& 0 <= v.max_line <= i32::MAX
    &&& 0 <= v.cursor <= i32::MAX
    &&& 0 <= v.first_line <= i32::MAX
    &&& 0 <= v.cursor_pad <= i32::MAX
}

/// The cursor row after a scroll by `lines`: clamped to the existing rows.
pub open spec fn spec_scroll_cursor(v: ViewportView, lines: int) -> int {
    clamp_int(v.cursor + lines, 0, max_int(v.max_line - 1, 0))
}

/// The top row after a scroll: pulled up when the cursor comes within
/// `cursor_pad` of the top (or sits above the window), pushed down when
/// within `cursor_pad` of the bottom (or below the window), then clamped so
/// the window never extends past the last row. The distances are signed, so
/// a cursor outside the window is always brought back even with a zero pad.
pub open spec fn spec_scroll_first(v: ViewportView, c: int) -> int {
    let padding_up = c - v.first_line;
    let padding_down = v.first_line + v.lines_visible - (c + 1);
    let pulled = if padding_up < v.cursor_pad {
        max_int(c - v.cursor_pad, 0)
    } else if padding_down < v.cursor_pad {
        max_int(c - max_int(v.lines_visible - (v.cursor_pad + 1), 0), 0)
    } else {
        v.first_line
    };
    if v.max_line > v.lines_visible {
        if pulled > v.max_line - v.lines_visible {
            v.max_line - v.lines_visible
        } else {
            pulled
        }
    } else {
        0
    }
}

/// The whole viewport after a scroll by `lines`.
pub open spec fn spec_scroll(v: ViewportView, lines: int) -> ViewportView {
    let c = spec_scroll_cursor(v, lines);
    ViewportView { cursor: c, first_line: spec_scroll_first(v, c), ..v }
}

/// After any scroll, the cursor sits at least `cursor_pad` rows inside both
/// window edges, whenever the window is clamped at neither content edge.
pub proof fn lemma_scroll_keeps_cursor_padded(v: ViewportView, lines: int)
    requires
        vp_bounded(v),
        v.lines_visible >= 1,
        v.cursor_pad == v.lines_visible / 4,
        v.max_line > v.lines_visible,
    ensures
        ({
            let w = spec_scroll(v, lines);
            (0 < w.first_line && w.first_line < v.max_line - v.lines_visible) ==> {
                &&& v.cursor_pad <= w.cursor - w.first_line
                &&& w.cursor - w.first_line <= v.lines_visible - 1 - v.cursor_pad
            }
        }),
{
    let c = spec_scroll_cursor(v, lines);
    let pad = v.cursor_pad;
    let lv = v.lines_visible;
    assert(lv == 4 * (lv / 4) + lv % 4) by (nonlinear_arith)
        requires
            lv >= 1,
    ;
    assert(2 * pad <= lv - 1);
}

impl Viewport {
    /// A fresh viewport over `max_line` visible rows of a tree of
    /// `tree_length` nodes, showing `lines_visible` rows at a time.
    pub fn new(lines_visible: usize, max_line: usize, tree_length: usize) -> (r: Viewport)
        ensures
            r@ == (ViewportView {
                lines_visible: lines_visible as int,
                max_line: max_line as int,
                cursor: 0,
                first_line: 0,
                cursor_pad: lines_visible as int / 4,
                tree_length: tree_length as int,
            }),
    {
        Viewport {
            lines_visible,
            max_line,
            cursor: 0,
            first_line: 0,
            cursor_pad: lines_visible / 4,
            tree_length,
        }
    }

    /// Move the cursor row by `lines` (negative is up), re-centering the
    /// window so the cursor keeps its padding from both edges and the
    /// window does not run past the last visible row.
    pub fn handle_scroll(&mut self, lines: i32)
        requires
            vp_bounded(old(self)@),
        ensures
            final(self)@ == spec_scroll(old(self)@, lines as int),
    {
        let total_lines = self.max_line;
        let hi = if total_lines > 0 {
            total_lines - 1
        } else {
            0
        };
        let new_cursor = if lines >= 0 {
            let moved = self.cursor + (lines as usize);
            if moved > hi {
                hi
            } else {
                moved
            }
        } else {
            let delta = (-(lines as i64)) as usize;
            let moved = self.cursor.saturating_sub(delta);
            if moved > hi {
                hi
            } else {
                moved
            }
        };
        self.cursor = new_cursor;

        if self.cursor < self.first_line + self.cursor_pad {
            self.first_line = self.cursor.saturating_sub(self.cursor_pad);
        } else if self.first_line + self.lines_visible < self.cursor + 1 + self.cursor_pad {
            self.first_line = self.cursor.saturating_sub(
                self.lines_visible.saturating_sub(self.cursor_pad + 1),
            );
        }

        if total_lines > self.lines_visible {
            if self.first_line > total_lines - self.lines_visible {
                self.first_line = total_lines - self.lines_visible;
            }
        } else {
            self.first_line = 0;
        }
    }

    /// Scroll the window so that the cursor row sits in its middle.
    pub fn handle_center(&mut self)
        requires
            vp_bounded(old(self)@),
        ensures
            final(self)@ == (ViewportView {
                first_line: max_int(old(self)@.cursor - old(self)@.lines_visible / 2, 0),
                ..old(self)@
            }),
    {
        let half = self.lines_visible / 2;
        self.first_line = self.cursor.saturating_sub(half);
    }

    /// Set the vertical size of the viewport.
    pub fn set_size(&mut self, height: usize)
        ensures
            final(self)@ == (ViewportView { lines_visible: height as int, ..old(self)@ }),
    {
        self.lines_visible = height;
    }
}


/// The window that `visible_rows` selects from the visible chain: up to
/// `count` entries starting at ordinal `first`.
pub open spec fn window_of(chain: Seq<int>, first: int, count: int) -> Seq<int> {
    if first >= chain.len() || first < 0 || count < 0 {
        seq![]
    } else if first + count <= chain.len() {
        chain.subrange(first, first + count)
    } else {
        chain.subrange(first, chain.len() as int)
    }
}

impl Viewport {
    /// The array indices of the rows the window shows: up to
    /// `lines_visible` visible nodes starting at the `first_line`-th
    /// visible row.
    pub fn visible_rows(&self, tree: &VecTree) -> (r: Vec<usize>)
        requires
            tree_wf(tree@),
        ensures
            r@.map_values(|x: usize| x as int) == window_of(
                visible_chain(tree@, 0),
                self.first_line as int,
                self.lines_visible as int,
            ),
    {
        let ghost s = tree@;
        let ghost chain = visible_chain(s, 0);
        let mut j: usize = 0;
        let mut seen: usize = 0;
        let mut out: Vec<usize> = Vec::new();

        while j < tree.nodes.len() && seen < self.first_line
            invariant
                s == tree@,
                tree_wf(s),
                chain == visible_chain(s, 0),
                seen <= chain.len(),
                seen <= j <= s.len(),
                visible_chain(s, j as int) =~= chain.skip(seen as int),
                seen <= self.first_line,
                out@.len() == 0,
            decreases s.len() - j,
        {
            proof {
                assert(wf_node(s, j as int));
            }
            let node = &tree.nodes[j];
            let step = if node.collapsed && node.subtree_size > 0 {
                node.subtree_size + 1
            } else {
                1
            };
            proof {
                let nj = j as int + crate::vectree::chain_step(s[j as int]);
                assert(visible_chain(s, j as int) == seq![j as int] + visible_chain(s, nj));
                assert(chain.skip(seen as int + 1) =~= chain.skip(seen as int).skip(1));
                assert(chain.skip(seen as int).skip(1) =~= visible_chain(s, nj));
            }
            j = j + step;
            seen = seen + 1;
        }
        proof {
            if j >= s.len() {
                assert(visible_chain(s, j as int) == Seq::<int>::empty());
                assert(chain.skip(seen as int).len() == 0);
                assert(seen == chain.len());
            }
        }

        while j < tree.nodes.len() && out.len() < self.lines_visible
            invariant
                s == tree@,
                tree_wf(s),
                chain == visible_chain(s, 0),
                seen <= chain.len(),
                seen <= j <= s.len(),
                visible_chain(s, j as int) =~= chain.skip(seen as int),
                out@.len() <= self.lines_visible,
                seen >= self.first_line ==> out@.map_values(|x: usize| x as int) =~= chain.subrange(
                    self.first_line as int,
                    seen as int,
                ),
                seen < self.first_line ==> out@.len() == 0 && j >= s.len(),
            decreases s.len() - j,
        {
            proof {
                assert(wf_node(s, j as int));
                assert(visible_chain(s, j as int)[0] == j);
                assert(chain.skip(seen as int).len() > 0);
                assert(seen < chain.len());
                assert(chain.skip(seen as int)[0] == chain[seen as int]);
                assert(chain[seen as int] == j);
            }
            out.push(j);
            let node = &tree.nodes[j];
            let step = if node.collapsed && node.subtree_size > 0 {
                node.subtree_size + 1
            } else {
                1
            };
            proof {
                let nj = j as int + crate::vectree::chain_step(s[j as int]);
                assert(visible_chain(s, j as int) == seq![j as int] + visible_chain(s, nj));
                assert(chain.skip(seen as int + 1) =~= chain.skip(seen as int).skip(1));
                assert(chain.skip(seen as int).skip(1) =~= visible_chain(s, nj));
                assert(out@.map_values(|x: usize| x as int) =~= chain.subrange(
                    self.first_line as int,
                    seen as int + 1,
                ));
            }
            j = j + step;
            seen = seen + 1;
        }
        proof {
            if j >= s.len() {
                assert(visible_chain(s, j as int) == Seq::<int>::empty());
                assert(chain.skip(seen as int).len() == 0);
                assert(seen == chain.len());
            }
            assert(out@.map_values(|x: usize| x as int) =~= window_of(
                chain,
                self.first_line as int,
                self.lines_visible as int,
            ));
        }
        out
    }

    /// Apply one semantic action to the tree, cursor and viewport: folding
    /// toggles the node under the cursor and refreshes the visible-row
    /// count; moves relocate the cursor and scroll the window by the number
    /// of visible rows crossed, so hidden subtrees between the two positions
    /// do not shift the window. A move off the tree's edge changes nothing
    /// and reports the boundary.
    pub fn handle_actions(
        &mut self,
        tree: &mut VecTree,
        cursor: &mut VecTreeCursor,
        action: Action,
    ) -> (r: Result<(), NavigationBoundaryError>)
        requires
            tree_wf(old(tree)@),
            collapse_wf(old(tree)@),
            vp_bounded(old(self)@),
            old(tree)@.len() <= i32::MAX,
            old(cursor).index < old(tree)@.len(),
            visible_at(old(tree)@, old(cursor).index as int),
            old(self).tree_length == old(tree)@.len(),
        ensures
            tree_wf(final(tree)@),
            collapse_wf(final(tree)@),
            final(tree)@.len() == old(tree)@.len(),
            final(cursor).index < final(tree)@.len(),
            visible_at(final(tree)@, final(cursor).index as int),
            final(self)@.tree_length == old(self)@.tree_length,
            action is ToggleCollapse ==> {
                &&& final(tree)@ == spec_toggle(old(tree)@, old(cursor).index as int)
                &&& final(cursor).index == old(cursor).index
                &&& r is Ok
                &&& final(self)@ == spec_scroll(
                    ViewportView {
                        max_line: visible_chain(final(tree)@, 0).len() as int,
                        ..old(self)@
                    },
                    0,
                )
            },
            action is Up ==> final(tree)@ == old(tree)@ && {
                let jump = prev_jump(old(tree)@[old(cursor).index as int]);
                if jump <= old(cursor).index {
                    &&& final(cursor).index == old(cursor).index - jump
                    &&& r is Ok
                    &&& final(self)@ == spec_scroll(old(self)@, -1)
                } else {
                    &&& final(cursor).index == old(cursor).index
                    &&& r is Err
                    &&& final(self)@ == old(self)@
                }
            },
            action is Down ==> final(tree)@ == old(tree)@ && {
                let jump = next_jump(old(tree)@[old(cursor).index as int]);
                if old(cursor).index + jump < old(self).tree_length {
                    &&& final(cursor).index == old(cursor).index + jump
                    &&& r is Ok
                    &&& final(self)@ == spec_scroll(old(self)@, 1)
                } else {
                    &&& final(cursor).index == old(cursor).index
                    &&& r is Err
                    &&& final(self)@ == old(self)@
                }
            },
            action is Parent ==> final(tree)@ == old(tree)@ && {
                let p = old(tree)@[old(cursor).index as int].parent_index;
                &&& final(cursor).index == p
                &&& r is Ok
                &&& final(self)@ == spec_scroll(
                    old(self)@,
                    -vis_dist(old(tree)@, p, old(cursor).index as int),
                )
            },
            action is NextSibling ==> final(tree)@ == old(tree)@ && {
                let target = spec_next_sibling(
                    old(tree)@,
                    old(cursor).index as int,
                    old(self).tree_length as int,
                );
                if target is Some {
                    &&& final(cursor).index == target->0
                    &&& r is Ok
                    &&& final(self)@ == spec_scroll(
                        old(self)@,
                        vis_dist(old(tree)@, old(cursor).index as int, target->0),
                    )
                } else {
                    &&& final(cursor).index == old(cursor).index
                    &&& r is Err
                    &&& final(self)@ == old(self)@
                }
            },
            action is PrevSibling ==> final(tree)@ == old(tree)@ && {
                let target = spec_prev_sibling(old(tree)@, old(cursor).index as int);
                if target is Some {
                    &&& final(cursor).index == target->0
                    &&& r is Ok
                    &&& final(self)@ == spec_scroll(
                        old(self)@,
                        -vis_dist(old(tree)@, target->0, old(cursor).index as int),
                    )
                } else {
                    &&& final(cursor).index == old(cursor).index
                    &&& r is Err
                    &&& final(self)@ == old(self)@
                }
            },
    {
        let ghost s = tree@;
        let i = cursor.index;
        match action {
            Action::ToggleCollapse => {
                cursor.toggle_collapse(tree);
                proof {
                    lemma_toggle_preserves_tree_wf(s, i as int);
                    lemma_toggle_preserves_collapse_wf(s, i as int);
                    assert(visible_at(tree@, i as int)) by {
                        assert forall|a: int|
                            0 <= a < i && i <= #[trigger] sub_end(tree@, a) implies !tree@[
                        a].collapsed by {
                            assert(sub_end(s, a) == sub_end(tree@, a));
                            assert(!s[a].collapsed);
                            assert(a != i as int);
                        }
                    }
                }
                proof {
                    crate::vectree::lemma_visible_chain_len(tree@, 0);
                }
                let total = tree.visible_row_count();
                self.max_line = total;
                self.handle_scroll(0);
                Ok(())
            },
            Action::Up => {
                let node = &tree.nodes[i];
                match cursor.prev(node) {
                    Some(_) => {
                        proof {
                            lemma_prev_visible(s, i as int);
                        }
                        self.handle_scroll(-1);
                        Ok(())
                    },
                    None => Err(NavigationBoundaryError),
                }
            },
            Action::Down => {
                let node = &tree.nodes[i];
                proof {
                    assert(wf_node(s, i as int));
                }
                match cursor.next(node, self.tree_length) {
                    Some(_) => {
                        proof {
                            lemma_next_visible(s, i as int);
                        }
                        self.handle_scroll(1);
                        Ok(())
                    },
                    None => Err(NavigationBoundaryError),
                }
            },
            Action::Parent => {
                let node = &tree.nodes[i];
                let target = cursor.parent(node);
                proof {
                    assert(wf_node(s, i as int));
                    lemma_parent_visible(s, i as int);
                }
                let delta = tree.visible_distance(target, i);
                self.handle_scroll(-(delta as i32));
                Ok(())
            },
            Action::NextSibling => {
                match cursor.next_sibling(tree, self.tree_length) {
                    Some(target) => {
                        proof {
                            assert(wf_node(s, i as int));
                            lemma_next_sibling_visible(s, i as int, target as int);
                        }
                        let delta = tree.visible_distance(i, target);
                        self.handle_scroll(delta as i32);
                        Ok(())
                    },
                    None => Err(NavigationBoundaryError),
                }
            },
            Action::PrevSibling => {
                match cursor.prev_sibling(tree) {
                    Some(target) => {
                        proof {
                            assert(wf_node(s, i as int));
                            assert(wf_node(s, i as int - 1));
                            lemma_prev_sibling_visible(s, i as int, target as int);
                        }
                        let delta = tree.visible_distance(target, i);
                        self.handle_scroll(-(delta as i32));
                        Ok(())
                    },
                    None => Err(NavigationBoundaryError),
                }
            },
        }
    }
}

} // verus!
