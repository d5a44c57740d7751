use hydration::cursor::{branch_marker_of, Cursor, Position};
use hydration::dom::{Dom, COMMENT_NODE, ELEMENT_NODE, TEXT_NODE};
use hydration::mount::{DetachedNodes, Mountable};

fn element(dom: &mut Dom) -> usize {
    dom.create_node(ELEMENT_NODE, None)
}

fn comment(dom: &mut Dom, text: &str) -> usize {
    dom.create_node(COMMENT_NODE, Some(text.to_string()))
}

fn text(dom: &mut Dom, t: &str) -> usize {
    dom.create_node(TEXT_NODE, Some(t.to_string()))
}

fn children_of(dom: &mut Dom, parent: usize, children: &[usize]) {
    for &c in children {
        dom.append_child(parent, c);
    }
}

#[test]
fn dom_navigation() {
    let mut dom = Dom::new();
    let root = element(&mut dom);
    let a = element(&mut dom);
    let b = text(&mut dom, "hi");
    let c = comment(&mut dom, "");
    children_of(&mut dom, root, &[a, b, c]);
    assert_eq!(dom.len(), 4);
    assert_eq!(dom.first_child(root), Some(a));
    assert_eq!(dom.last_child(root), Some(c));
    assert_eq!(dom.next_sibling(a), Some(b));
    assert_eq!(dom.next_sibling(c), None);
    assert_eq!(dom.previous_sibling(b), Some(a));
    assert_eq!(dom.previous_sibling(a), None);
    assert_eq!(dom.parent_node(b), Some(root));
    assert_eq!(dom.parent_element(b), Some(root));
    assert_eq!(dom.parent_node(root), None);
    assert_eq!(dom.node_type(b), TEXT_NODE);
    assert_eq!(dom.text_content(b), Some("hi"));
    assert_eq!(dom.text_content(a), None);
    assert_eq!(dom.children(root).clone(), vec![a, b, c]);
}

#[test]
fn dom_remove_then_reinsert_restores_order() {
    let mut dom = Dom::new();
    let root = element(&mut dom);
    let a = element(&mut dom);
    let b = element(&mut dom);
    let c = element(&mut dom);
    children_of(&mut dom, root, &[a, b, c]);
    let next = dom.next_sibling(b);
    dom.remove_child(root, b);
    assert_eq!(dom.children(root).clone(), vec![a, c]);
    assert_eq!(dom.parent_node(b), None);
    dom.insert_before(root, b, next);
    assert_eq!(dom.children(root).clone(), vec![a, b, c]);
    assert_eq!(dom.parent_node(b), Some(root));
}

#[test]
fn parent_element_requires_an_element() {
    let mut dom = Dom::new();
    let frag = comment(&mut dom, "frag");
    let child = element(&mut dom);
    dom.append_child(frag, child);
    assert_eq!(dom.parent_node(child), Some(frag));
    assert_eq!(dom.parent_element(child), None);
}

#[test]
fn cursor_moves_without_markers() {
    let mut dom = Dom::new();
    let root = element(&mut dom);
    let open = comment(&mut dom, "bo-a");
    let div = element(&mut dom);
    let t = text(&mut dom, "x");
    children_of(&mut dom, root, &[open, div, t]);

    let mut cursor = Cursor::new(root);
    assert_eq!(cursor.current(), root);
    cursor.child(&dom);
    assert_eq!(cursor.current(), open);
    cursor.sibling(&dom);
    assert_eq!(cursor.current(), div);
    cursor.child(&dom); // no child: stays
    assert_eq!(cursor.current(), div);
    cursor.sibling(&dom);
    assert_eq!(cursor.current(), t);
    cursor.sibling(&dom); // no sibling: stays
    assert_eq!(cursor.current(), t);
    cursor.parent(&dom);
    assert_eq!(cursor.current(), root);
    cursor.parent(&dom); // no parent: stays
    assert_eq!(cursor.current(), root);
    cursor.set(div);
    assert_eq!(cursor.current(), div);
}

#[test]
fn cursor_steps_over_branch_markers() {
    let mut dom = Dom::new();
    let root = element(&mut dom);
    let open = comment(&mut dom, "bo-a");
    let close = comment(&mut dom, "bc-a");
    let div = element(&mut dom);
    let plain = comment(&mut dom, "placeholder");
    let last_open = comment(&mut dom, "bo-z");
    children_of(&mut dom, root, &[open, close, div, plain, last_open]);

    let mut cursor = Cursor::with_branch_markers(root);
    cursor.child(&dom);
    assert_eq!(cursor.current(), div);
    cursor.sibling(&dom);
    assert_eq!(cursor.current(), plain);
    // a marker that is the last sibling is where the cursor stops
    cursor.sibling(&dom);
    assert_eq!(cursor.current(), last_open);
}

#[test]
fn advance_and_next_placeholder() {
    let mut dom = Dom::new();
    let root = element(&mut dom);
    let first = comment(&mut dom, "");
    let second = comment(&mut dom, "");
    children_of(&mut dom, root, &[first, second]);

    let mut cursor = Cursor::new(root);
    let mut position = Position::FirstChild;
    assert_eq!(cursor.next_placeholder(&dom, &mut position), first);
    assert_eq!(position, Position::NextChild);
    assert_eq!(cursor.next_placeholder(&dom, &mut position), second);
    assert_eq!(position, Position::NextChild);

    let mut cursor = Cursor::new(first);
    let mut position = Position::OnlyChild;
    cursor.advance_to_placeholder(&dom, &mut position);
    assert_eq!(cursor.current(), second);
    assert_eq!(position, Position::NextChild);
}

#[test]
fn branch_marker_parsing() {
    let mut dom = Dom::new();
    let open = comment(&mut dom, "bo-header");
    let close = comment(&mut dom, "bc-header");
    let short = comment(&mut dom, "bo");
    let other = comment(&mut dom, "hello");
    let empty = comment(&mut dom, "bo-");
    let t = text(&mut dom, "bo-x");
    assert_eq!(branch_marker_of(&dom, open), Some((true, "header".to_string())));
    assert_eq!(branch_marker_of(&dom, close), Some((false, "header".to_string())));
    assert_eq!(branch_marker_of(&dom, short), None);
    assert_eq!(branch_marker_of(&dom, other), None);
    assert_eq!(branch_marker_of(&dom, empty), Some((true, String::new())));
    assert_eq!(branch_marker_of(&dom, t), None);
}

#[test]
fn next_branch_marker_by_position() {
    let mut dom = Dom::new();
    let root = element(&mut dom);
    let open = comment(&mut dom, "bo-a");
    let close = comment(&mut dom, "bc-a");
    children_of(&mut dom, root, &[open, close]);

    let cursor = Cursor::new(root);
    let m = cursor.next_branch_marker(&dom, &Position::FirstChild).unwrap();
    assert_eq!(m.node(), open);
    assert_eq!(m.id(), "a");
    assert!(cursor.next_branch_marker(&dom, &Position::Current).is_none());

    let at_open = Cursor::new(open);
    assert_eq!(at_open.next_branch_marker(&dom, &Position::Current).unwrap().id(), "a");
    // the next sibling is a closing marker
    assert!(at_open.next_branch_marker(&dom, &Position::NextChild).is_none());
}

#[test]
fn next_branch_marker_matching_candidates() {
    let mut dom = Dom::new();
    let root = element(&mut dom);
    let a = comment(&mut dom, "bo-a");
    let b = comment(&mut dom, "bo-b");
    let c = comment(&mut dom, "bo-c");
    let close = comment(&mut dom, "bc-c");
    let d = comment(&mut dom, "bo-d");
    children_of(&mut dom, root, &[a, b, c, close, d]);

    let cursor = Cursor::new(root);
    let m = cursor.next_branch_marker_matching(&dom, &Position::FirstChild, &["c", "b"]).unwrap();
    assert_eq!(m.node(), b);
    assert_eq!(m.id(), "b");
    let m = cursor.next_branch_marker_matching(&dom, &Position::FirstChild, &["a"]).unwrap();
    assert_eq!(m.node(), a);
    // the run of opening markers ends at the closing marker before `d`
    assert!(cursor.next_branch_marker_matching(&dom, &Position::FirstChild, &["d"]).is_none());
    assert!(cursor.next_branch_marker_matching(&dom, &Position::FirstChild, &[]).is_none());
}

#[test]
fn replace_next_branch_swaps_the_branch() {
    let mut dom = Dom::new();
    let root = element(&mut dom);
    let before = element(&mut dom);
    let open = comment(&mut dom, "bo-x");
    let span = element(&mut dom);
    let close = comment(&mut dom, "bc-x");
    let after = element(&mut dom);
    children_of(&mut dom, root, &[before, open, span, close, after]);
    let fresh = element(&mut dom);

    let mut cursor = Cursor::new(before);
    let mut position = Position::NextChild;
    let mut replacement = DetachedNodes::new(vec![fresh]);
    let edit = cursor
        .replace_next_branch(&mut dom, &mut position, &["x"], &mut replacement)
        .unwrap();
    assert_eq!(edit.parent, root);
    assert_eq!(edit.removed, vec![open, span, close]);
    assert_eq!(edit.after, Some(after));

    assert_eq!(dom.children(root).clone(), vec![before, fresh, after]);
    assert_eq!(dom.parent_node(open), None);
    assert_eq!(dom.parent_node(span), None);
    assert_eq!(dom.parent_node(close), None);
    assert_eq!(cursor.current(), fresh);
    assert_eq!(position, Position::NextChild);
}

#[test]
fn replace_next_branch_balances_nested_markers() {
    let mut dom = Dom::new();
    let root = element(&mut dom);
    let o1 = comment(&mut dom, "bo-x");
    let o2 = comment(&mut dom, "bo-y");
    let c2 = comment(&mut dom, "bc-y");
    let c1 = comment(&mut dom, "bc-x");
    let tail = element(&mut dom);
    children_of(&mut dom, root, &[o1, o2, c2, c1, tail]);
    let n1 = element(&mut dom);
    let n2 = text(&mut dom, "new");

    let mut cursor = Cursor::new(root);
    let mut position = Position::FirstChild;
    let mut replacement = DetachedNodes::new(vec![n1, n2]);
    let edit = cursor
        .replace_next_branch(&mut dom, &mut position, &["x"], &mut replacement)
        .unwrap();
    assert_eq!(edit.removed, vec![o1, o2, c2, c1]);
    assert_eq!(edit.after, Some(tail));

    assert_eq!(dom.children(root).clone(), vec![n1, n2, tail]);
    assert_eq!(cursor.current(), n2);
    assert_eq!(position, Position::NextChild);
}

#[test]
fn replace_next_branch_to_the_end() {
    let mut dom = Dom::new();
    let root = element(&mut dom);
    let open = comment(&mut dom, "bo-x");
    let body = element(&mut dom);
    children_of(&mut dom, root, &[open, body]);

    let mut cursor = Cursor::new(root);
    let mut position = Position::FirstChild;
    let mut nothing = DetachedNodes::new(vec![]);
    let edit = cursor
        .replace_next_branch(&mut dom, &mut position, &["x"], &mut nothing)
        .unwrap();
    assert_eq!(edit.removed, vec![open, body]);
    assert_eq!(edit.after, None);
    // no closing marker: the rest of the siblings go; the parent is now empty
    assert!(dom.children(root).is_empty());
    assert_eq!(cursor.current(), root);
    assert_eq!(position, Position::NextChild);
}

#[test]
fn replace_next_branch_without_match_changes_nothing() {
    let mut dom = Dom::new();
    let root = element(&mut dom);
    let open = comment(&mut dom, "bo-x");
    let close = comment(&mut dom, "bc-x");
    children_of(&mut dom, root, &[open, close]);
    let fresh = element(&mut dom);

    let mut cursor = Cursor::new(root);
    let mut position = Position::FirstChild;
    let mut replacement = DetachedNodes::new(vec![fresh]);
    assert!(cursor
        .replace_next_branch(&mut dom, &mut position, &["y"], &mut replacement)
        .is_none());
    assert_eq!(dom.children(root).clone(), vec![open, close]);
    assert_eq!(dom.parent_node(fresh), None);
    assert_eq!(cursor.current(), root);
    assert_eq!(position, Position::FirstChild);
}

#[test]
fn detached_nodes_skip_attached_ones() {
    let mut dom = Dom::new();
    let root = element(&mut dom);
    let other = element(&mut dom);
    let attached = element(&mut dom);
    dom.append_child(other, attached);
    let free = element(&mut dom);
    let mut nodes = DetachedNodes::new(vec![attached, free, root]);
    nodes.mount(&mut dom, root, None);
    assert_eq!(dom.children(root).clone(), vec![free]);
    assert_eq!(dom.parent_node(attached), Some(other));
}

#[test]
fn child_then_parent_returns_with_markers() {
    let mut dom = Dom::new();
    let root = element(&mut dom);
    let ul = element(&mut dom);
    let open = comment(&mut dom, "bo-1");
    let close = comment(&mut dom, "bc-1");
    let li = element(&mut dom);
    children_of(&mut dom, root, &[ul]);
    children_of(&mut dom, ul, &[open, close, li]);

    let mut cursor = Cursor::with_branch_markers(ul);
    cursor.child(&dom);
    assert_eq!(cursor.current(), li);
    cursor.parent(&dom);
    assert_eq!(cursor.current(), ul);
    cursor.sibling(&dom); // no sibling: stays, parent unchanged
    assert_eq!(cursor.current(), ul);
    assert_eq!(dom.parent_node(cursor.current()), Some(root));
}

#[test]
fn child_of_a_childless_marker_does_nothing() {
    let mut dom = Dom::new();
    let div = element(&mut dom);
    let open = comment(&mut dom, "bo-1");
    let p = element(&mut dom);
    children_of(&mut dom, div, &[open, p]);

    let mut cursor = Cursor::with_branch_markers(div);
    cursor.set(open);
    cursor.child(&dom);
    assert_eq!(cursor.current(), open);
    cursor.set(p);
    cursor.sibling(&dom); // no sibling: nothing happens
    assert_eq!(cursor.current(), p);
}

#[test]
fn ancestors_are_not_inserted_below_their_descendants() {
    let mut dom = Dom::new();
    let top = element(&mut dom);
    let mid = element(&mut dom);
    let leaf = element(&mut dom);
    dom.append_child(top, mid);
    dom.append_child(mid, leaf);
    assert!(dom.is_ancestor(top, leaf));
    assert!(dom.is_ancestor(leaf, leaf));
    assert!(!dom.is_ancestor(leaf, top));
    // `top` is detached but is an ancestor of `leaf`: mounting skips it
    let mut nodes = DetachedNodes::new(vec![top]);
    nodes.mount(&mut dom, leaf, None);
    assert!(dom.children(leaf).is_empty());
    assert_eq!(dom.parent_node(top), None);
}
