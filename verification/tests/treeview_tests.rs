use treeview::MalformedInputError;
use treeview::interact::Action;
use treeview::interact::Viewport;
use treeview::parse::TextLine;
use treeview::parse::get_indentation;
use treeview::parse::lines_to_items;
use treeview::parse::parse_vectree;
use treeview::vectree::VecTree;
use treeview::vectree::VecTreeCursor;
use treeview::vectree::VecTreeNode;

fn items_from(lines: &[&str], unit: usize) -> Vec<TextLine> {
    let owned: Vec<String> = lines.iter().map(|l| l.to_string()).collect();
    lines_to_items(&owned, unit)
}

/// The five-line sample document under a two-space indentation rule.
fn sample_tree() -> VecTree {
    let items = items_from(&["a", "  b", "  c", "    d", "e"], 2);
    parse_vectree(&items).expect("sample input is well nested")
}

#[test]
fn indentation_width_is_counted_in_characters() {
    assert_eq!(get_indentation(""), 0);
    assert_eq!(get_indentation("a"), 0);
    assert_eq!(get_indentation("  b"), 2);
    assert_eq!(get_indentation("\tb"), 1);
    assert_eq!(get_indentation("    "), 4);
    // Any whitespace except a line break counts: no-break space, carriage
    // return, em quad.
    assert_eq!(get_indentation("\u{A0}b"), 1);
    assert_eq!(get_indentation("\rb"), 1);
    assert_eq!(get_indentation("\u{2001}\u{2001}b"), 2);
    assert_eq!(get_indentation("\nb"), 0);
}

#[test]
fn lines_to_items_strips_indentation_and_divides_levels() {
    let items = items_from(&["a", "  b", "    c"], 2);
    assert_eq!(items.len(), 3);
    assert_eq!(items[0].text, "a");
    assert_eq!(items[0].level, 0);
    assert_eq!(items[1].text, "b");
    assert_eq!(items[1].level, 1);
    assert_eq!(items[2].text, "c");
    assert_eq!(items[2].level, 2);
}

#[test]
fn sample_document_depths_and_subtree_sizes() {
    let tree = sample_tree();
    let depths: Vec<usize> = tree.nodes.iter().map(|n| n.depth).collect();
    assert_eq!(depths, vec![0, 1, 1, 2, 0]);
    assert_eq!(tree.nodes[1].subtree_size, 0); // "b"
    assert_eq!(tree.nodes[2].subtree_size, 1); // "c"
    assert_eq!(tree.nodes[0].subtree_size, 3); // "a"
    let texts: Vec<&str> = tree.nodes.iter().map(|n| n.lines[0].full_line.as_str()).collect();
    assert_eq!(texts, vec!["a", "b", "c", "d", "e"]);
}

#[test]
fn subtree_size_counts_descendants() {
    let tree = sample_tree();
    for n in 0..tree.nodes.len() {
        let mut count = 0;
        for k in 0..tree.nodes.len() {
            // Walk parent back-references from k; a root points at itself.
            let mut at = k;
            loop {
                let p = tree.nodes[at].parent_index;
                if at != k && at == n {
                    break;
                }
                if p == at {
                    break;
                }
                at = p;
            }
            if k != n && at == n {
                count += 1;
            }
        }
        assert_eq!(tree.nodes[n].subtree_size, count, "node {}", n);
    }
}

#[test]
fn parent_back_references() {
    let tree = sample_tree();
    let parents: Vec<usize> = tree.nodes.iter().map(|n| n.parent_index).collect();
    // Roots are their own parents.
    assert_eq!(parents, vec![0, 0, 0, 2, 4]);
}

#[test]
fn malformed_jump_is_rejected_with_line_number() {
    // One level per indentation character: "    b" jumps four levels at once.
    let items = items_from(&["a", "    b"], 1);
    let err = parse_vectree(&items).unwrap_err();
    assert_eq!(err, MalformedInputError { line_number: 1 });
}

#[test]
fn malformed_first_line_is_rejected() {
    let items = items_from(&["  a"], 2);
    let err = parse_vectree(&items).unwrap_err();
    assert_eq!(err, MalformedInputError { line_number: 0 });
}

#[test]
fn two_space_rule_accepts_four_space_jump_under_four_space_unit() {
    // The same text is fine when a level is four spaces wide.
    let items = items_from(&["a", "    b"], 4);
    assert!(parse_vectree(&items).is_ok());
    // ... and malformed when a level is two spaces wide.
    let items = items_from(&["a", "    b"], 2);
    assert_eq!(parse_vectree(&items).unwrap_err(), MalformedInputError { line_number: 1 });
}

#[test]
fn collapse_hides_subtree_and_moves_skip_it() {
    let mut tree = sample_tree();
    let mut cursor = VecTreeCursor::new();
    cursor.index = 2; // "c", whose subtree is {"d"}
    cursor.toggle_collapse(&mut tree);
    assert!(tree.nodes[2].collapsed);

    // move_next from "c" lands on "e".
    let len = tree.nodes.len();
    let step = cursor.next(&tree.nodes[2], len);
    assert_eq!(step, Some(4));
    assert_eq!(cursor.index, 4);

    // move_prev from "e" lands back on "c".
    let back = cursor.prev(&tree.nodes[4]);
    assert_eq!(back, Some(2));
    assert_eq!(cursor.index, 2);
}

#[test]
fn collapse_then_uncollapse_is_a_no_op() {
    let mut tree = sample_tree();
    let mut cursor = VecTreeCursor::new();
    cursor.index = 0;
    let before: Vec<(bool, Vec<usize>)> =
        tree.nodes.iter().map(|n| (n.collapsed, n.jump_back_stack.clone())).collect();
    cursor.collapse(&mut tree);
    cursor.uncollapse(&mut tree);
    let after: Vec<(bool, Vec<usize>)> =
        tree.nodes.iter().map(|n| (n.collapsed, n.jump_back_stack.clone())).collect();
    assert_eq!(before, after);
}

#[test]
fn move_next_then_move_prev_returns() {
    let tree = sample_tree();
    let len = tree.nodes.len();
    // From every position but the last, a forward move followed by a
    // backward move returns to the start.
    for start in 0..len - 1 {
        let mut cursor = VecTreeCursor::new();
        cursor.index = start;
        let moved = cursor.next(&tree.nodes[start], len);
        assert!(moved.is_some());
        let back = cursor.prev(&tree.nodes[cursor.index]);
        assert_eq!(back, Some(start));
    }
}

#[test]
fn sibling_hops_enumerate_children_in_order() {
    let tree = sample_tree();
    // Children of "a" (index 0): "b" then "c".
    let mut cursor = VecTreeCursor::new();
    cursor.index = 3; // "d"
    let parent = cursor.parent(&tree.nodes[3]);
    assert_eq!(parent, 2); // "c"
    let grandparent = cursor.parent(&tree.nodes[2]);
    assert_eq!(grandparent, 0); // "a"

    let mut children = Vec::new();
    let mut walker = VecTreeCursor::new();
    walker.index = 1; // first child of "a"
    children.push(walker.index);
    while let Some(next) = walker.next_sibling(&tree, tree.nodes.len()) {
        children.push(next);
    }
    assert_eq!(children, vec![1, 2]);

    // ... and backwards.
    assert_eq!(walker.prev_sibling(&tree), Some(1));
    assert_eq!(walker.prev_sibling(&tree), None);
}

#[test]
fn next_sibling_fails_across_depths() {
    let tree = sample_tree();
    let mut cursor = VecTreeCursor::new();
    cursor.index = 2; // "c": next position is "e", a root, not a sibling
    assert_eq!(cursor.next_sibling(&tree, tree.nodes.len()), None);
    assert_eq!(cursor.index, 2);
}

#[test]
fn visible_rows_skip_collapsed_subtrees() {
    let mut tree = sample_tree();
    assert_eq!(tree.visible_row_count(), 5);
    let mut cursor = VecTreeCursor::new();
    cursor.index = 0; // collapse "a", hiding "b", "c", "d"
    cursor.toggle_collapse(&mut tree);
    assert_eq!(tree.visible_row_count(), 2);

    let viewport = Viewport::new(10, 2, tree.nodes.len());
    let rows = viewport.visible_rows(&tree);
    assert_eq!(rows, vec![0, 4]);

    let mut iter = tree.nodes_iter();
    let mut seen = Vec::new();
    while let Some((_, idx)) = iter.next(&tree) {
        seen.push(idx);
    }
    assert_eq!(seen, vec![0, 4]);
}

#[test]
fn scroll_keeps_cursor_padded_from_bottom() {
    // Ten visible lines, pad of two: landing on row 8 pushes the window
    // down so the cursor sits no closer than two rows from the bottom edge.
    let mut viewport = Viewport::new(10, 30, 30);
    assert_eq!(viewport.cursor_pad, 2);
    viewport.handle_scroll(8);
    assert_eq!(viewport.cursor, 8);
    assert_eq!(viewport.first_line, 1);
    let bottom = viewport.first_line + viewport.lines_visible - 1;
    assert!(bottom - viewport.cursor >= viewport.cursor_pad);
}

#[test]
fn scroll_clamps_at_both_edges() {
    let mut viewport = Viewport::new(10, 5, 5);
    viewport.handle_scroll(-3);
    assert_eq!(viewport.cursor, 0);
    assert_eq!(viewport.first_line, 0);
    viewport.handle_scroll(100);
    assert_eq!(viewport.cursor, 4);
    // All five rows fit in the ten-line window: no scrolling past them.
    assert_eq!(viewport.first_line, 0);
}

#[test]
fn center_places_cursor_mid_window() {
    let mut viewport = Viewport::new(10, 100, 100);
    viewport.handle_scroll(50);
    viewport.handle_center();
    assert_eq!(viewport.first_line, viewport.cursor - 5);
    viewport.set_size(4);
    assert_eq!(viewport.lines_visible, 4);
}

#[test]
fn boundary_moves_report_and_leave_state_unchanged() {
    let mut tree = sample_tree();
    let total = tree.visible_row_count();
    let mut viewport = Viewport::new(10, total, tree.nodes.len());
    let mut cursor = VecTreeCursor::new();

    // Up from the first node falls off the edge.
    let res = viewport.handle_actions(&mut tree, &mut cursor, Action::Up);
    assert!(res.is_err());
    assert_eq!(cursor.index, 0);
    assert_eq!(viewport.cursor, 0);

    // Down succeeds and scrolls.
    let res = viewport.handle_actions(&mut tree, &mut cursor, Action::Down);
    assert!(res.is_ok());
    assert_eq!(cursor.index, 1);
    assert_eq!(viewport.cursor, 1);
}

#[test]
fn toggling_under_the_cursor_refreshes_the_row_count() {
    let mut tree = sample_tree();
    let total = tree.visible_row_count();
    let mut viewport = Viewport::new(10, total, tree.nodes.len());
    let mut cursor = VecTreeCursor::new();
    assert_eq!(viewport.max_line, 5);
    let res = viewport.handle_actions(&mut tree, &mut cursor, Action::ToggleCollapse);
    assert!(res.is_ok());
    assert!(tree.nodes[0].collapsed);
    assert_eq!(viewport.max_line, 2);
}

#[test]
fn leaf_toggle_is_a_no_op() {
    let mut tree = sample_tree();
    let mut cursor = VecTreeCursor::new();
    cursor.index = 1; // "b" is a leaf
    cursor.toggle_collapse(&mut tree);
    assert!(!tree.nodes[1].collapsed);
    assert_eq!(tree.nodes[2].jump_back_stack, vec![1]);
}

#[test]
fn nested_collapse_unwinds_in_order() {
    // Collapse "c" first, then "a": both hidden subtrees end before "e",
    // so "e" records both jumps, the larger on top.
    let mut tree = sample_tree();
    let mut cursor = VecTreeCursor::new();
    cursor.index = 2;
    cursor.collapse(&mut tree);
    cursor.index = 0;
    cursor.collapse(&mut tree);
    assert_eq!(tree.nodes[4].jump_back_stack, vec![1, 2, 4]);

    // Backwards from "e" lands on the outermost visible node "a".
    cursor.index = 4;
    let back = cursor.prev(&tree.nodes[4]);
    assert_eq!(back, Some(0));

    // Expanding "a" exposes "c" again, still collapsed.
    cursor.index = 0;
    cursor.uncollapse(&mut tree);
    assert_eq!(tree.nodes[4].jump_back_stack, vec![1, 2]);
    assert!(tree.nodes[2].collapsed);
}

#[test]
fn parse_of_empty_input_is_an_empty_tree() {
    let items = items_from(&[], 2);
    let tree = parse_vectree(&items).unwrap();
    assert_eq!(tree.nodes.len(), 0);
    assert_eq!(tree.visible_row_count(), 0);
}

#[test]
fn node_text_lines_accumulate() {
    let mut node = VecTreeNode::new(0, 0, "first".to_string());
    node.push_line("second".to_string());
    let lines = node.lines_iter();
    assert_eq!(lines.len(), 2);
    assert_eq!(lines[0].full_line, "first");
    assert_eq!(lines[1].full_line, "second");
}

#[test]
fn parent_and_sibling_actions_move_cursor_and_window() {
    let mut tree = sample_tree();
    let total = tree.visible_row_count();
    let mut viewport = Viewport::new(10, total, tree.nodes.len());
    let mut cursor = VecTreeCursor::new();

    // Walk down to "d" (index 3).
    for _ in 0..3 {
        viewport.handle_actions(&mut tree, &mut cursor, Action::Down).unwrap();
    }
    assert_eq!(cursor.index, 3);
    assert_eq!(viewport.cursor, 3);

    // To its parent "c" ...
    viewport.handle_actions(&mut tree, &mut cursor, Action::Parent).unwrap();
    assert_eq!(cursor.index, 2);
    assert_eq!(viewport.cursor, 2);

    // ... back to the previous sibling "b", and forward again.
    viewport.handle_actions(&mut tree, &mut cursor, Action::PrevSibling).unwrap();
    assert_eq!(cursor.index, 1);
    viewport.handle_actions(&mut tree, &mut cursor, Action::NextSibling).unwrap();
    assert_eq!(cursor.index, 2);

    // "c" has no further sibling at its depth: state is left unchanged.
    let res = viewport.handle_actions(&mut tree, &mut cursor, Action::NextSibling);
    assert!(res.is_err());
    assert_eq!(cursor.index, 2);
    assert_eq!(viewport.cursor, 2);
}

#[test]
fn parent_of_a_root_is_itself() {
    let tree = sample_tree();
    let mut cursor = VecTreeCursor::new();
    cursor.index = 4; // "e" is a root
    assert_eq!(cursor.parent(&tree.nodes[4]), 4);
    assert_eq!(cursor.index, 4);
}


#[test]
fn window_follows_cursor_with_zero_pad() {
    // Three visible lines give a zero pad; the window must still follow the
    // cursor both ways instead of stranding it outside.
    let mut viewport = Viewport::new(3, 100, 100);
    assert_eq!(viewport.cursor_pad, 0);
    viewport.handle_scroll(20);
    assert_eq!(viewport.cursor, 20);
    assert_eq!(viewport.first_line, 18);
    viewport.handle_center();
    assert_eq!(viewport.first_line, 19);
    viewport.handle_scroll(-15);
    assert_eq!(viewport.cursor, 5);
    assert_eq!(viewport.first_line, 5);
    assert!(viewport.first_line <= viewport.cursor);
    assert!(viewport.cursor <= viewport.first_line + viewport.lines_visible - 1);
}

#[test]
fn sibling_moves_scroll_by_visible_rows_not_indices() {
    // "b" hides two rows when collapsed; hopping between its siblings must
    // move the window by one visible row, not by three array positions.
    let items = items_from(&["a", "b", "  c", "  d", "e", "f"], 2);
    let mut tree = parse_vectree(&items).unwrap();
    let mut cursor = VecTreeCursor::new();
    cursor.index = 1;
    cursor.toggle_collapse(&mut tree);
    assert!(tree.nodes[1].collapsed);

    let total = tree.visible_row_count();
    assert_eq!(total, 4); // a, b, e, f
    let mut viewport = Viewport::new(10, total, tree.nodes.len());
    cursor.index = 0;
    viewport.handle_actions(&mut tree, &mut cursor, Action::Down).unwrap();
    viewport.handle_actions(&mut tree, &mut cursor, Action::Down).unwrap();
    assert_eq!(cursor.index, 4); // "e", two visible rows below "a"
    assert_eq!(viewport.cursor, 2);

    // Back to the previous sibling "b": one visible row up.
    viewport.handle_actions(&mut tree, &mut cursor, Action::PrevSibling).unwrap();
    assert_eq!(cursor.index, 1);
    assert_eq!(viewport.cursor, 1);

    // And forward again: one visible row down.
    viewport.handle_actions(&mut tree, &mut cursor, Action::NextSibling).unwrap();
    assert_eq!(cursor.index, 4);
    assert_eq!(viewport.cursor, 2);
}
