use roc_devlink::markup::{
    header_to_markup, index_of, set_parent_for_all, slice_get, AppHeader, Attributes, EdError,
    HighlightStyle, MarkupNode, SlowPool,
};

fn text(content: &str, ast: u64) -> MarkupNode {
    MarkupNode::Text {
        content: content.to_string(),
        ast_node_id: ast,
        syn_high_style: HighlightStyle::Variable,
        attributes: Attributes::new(),
        parent_id_opt: None,
        newline_at_end: false,
    }
}

fn nested(ast: u64, children: Vec<usize>) -> MarkupNode {
    MarkupNode::Nested { ast_node_id: ast, children_ids: children, parent_id_opt: None, newline_at_end: false }
}

fn blank(ast: u64) -> MarkupNode {
    MarkupNode::Blank {
        ast_node_id: ast,
        attributes: Attributes::new(),
        syn_high_style: HighlightStyle::Blank,
        parent_id_opt: None,
        newline_at_end: false,
    }
}

#[test]
fn node_kinds_and_contents() {
    assert_eq!(text("abc", 1).node_type_as_string(), "Text");
    assert_eq!(nested(1, vec![]).node_type_as_string(), "Nested");
    assert_eq!(blank(1).node_type_as_string(), "Blank");
    assert_eq!(blank(1).get_content(), " ");
    assert_eq!(nested(1, vec![]).get_content(), "");
    assert_eq!(text("x1", 4).get_content(), "x1");
    assert!(blank(1).is_blank());
    assert!(nested(1, vec![]).is_nested());
    assert_eq!(text("a", 9).get_ast_node_id(), 9);
}

#[test]
fn alphanumeric_content() {
    assert!(text("abc123", 1).is_all_alphanumeric());
    assert!(!text("a b", 1).is_all_alphanumeric());
    assert!(!blank(1).is_all_alphanumeric());
    assert!(nested(1, vec![]).is_all_alphanumeric());
}

#[test]
fn children_are_inserted_in_place() {
    let mut n = nested(1, vec![4, 6]);
    assert!(n.add_child_at_index(1, 5).is_ok());
    assert_eq!(n.get_children_ids(), vec![4, 5, 6]);
    let mut t = text("a", 1);
    assert!(matches!(t.add_child_at_index(0, 5), Err(EdError::NestedNodeRequired { .. })));
    assert!(t.get_children_ids().is_empty());
}

#[test]
fn content_of_text_node_can_change() {
    let mut t = text("a", 1);
    t.get_content_mut().ok().unwrap().push('b');
    assert_eq!(t.get_content(), "ab");
    assert!(matches!(blank(1).get_content_mut(), Err(EdError::ExpectedTextNode { .. })));
}

#[test]
fn newline_flag() {
    let mut t = text("a", 1);
    assert!(!t.has_newline_at_end());
    t.add_newline_at_end();
    assert!(t.has_newline_at_end());
}

#[test]
fn parents_are_set_through_the_tree() {
    let mut pool = SlowPool::new();
    let a = pool.add(text("a", 2));
    let b = pool.add(text("b", 3));
    let inner = pool.add(nested(4, vec![a, b]));
    let c = pool.add(text(",", 1));
    let root = pool.add(nested(1, vec![inner, c]));
    set_parent_for_all(root, &mut pool);
    assert_eq!(pool.get(inner).get_parent_id_opt(), Some(root));
    assert_eq!(pool.get(a).get_parent_id_opt(), Some(inner));
    assert_eq!(pool.get(b).get_parent_id_opt(), Some(inner));
    assert_eq!(pool.get(c).get_parent_id_opt(), Some(root));
    assert_eq!(pool.get(root).get_parent_id_opt(), None);
    assert_eq!(pool.get(a).get_sibling_ids(&pool), vec![a, b]);
}

#[test]
fn child_indices_count_syntax_children() {
    let mut pool = SlowPool::new();
    let open = pool.add(text("[ ", 1));
    let x = pool.add(text("x", 2));
    let comma = pool.add(text(", ", 1));
    let y = pool.add(text("y", 3));
    let close = pool.add(text(" ]", 1));
    let list = nested(1, vec![open, x, comma, y, close]);
    assert!(matches!(list.get_child_indices(close, &pool), Ok((4, 2))));
    assert!(matches!(list.get_child_indices(comma, &pool), Ok((2, 1))));
    assert!(matches!(list.get_child_indices(99, &pool), Err(EdError::NestedNodeMissingChild { .. })));
    assert!(matches!(text("a", 1).get_child_indices(x, &pool), Err(EdError::NestedNodeRequired { .. })));
}

#[test]
fn list_lookups() {
    assert!(matches!(index_of(7, &vec![1, 7, 7]), Ok(1)));
    assert!(matches!(index_of(8, &vec![1, 7]), Err(EdError::IndexOfFailed { elt: 8 })));
    assert!(matches!(slice_get(1, &vec![1, 7]), Ok(7)));
    assert!(matches!(slice_get(2, &vec![1, 7]), Err(EdError::OutOfBounds { index: 2, len: 2 })));
}

#[test]
fn app_header_markup_has_four_lines() {
    let mut pool = SlowPool::new();
    let header = AppHeader {
        app_name: "\"hello\"".to_string(),
        packages_base: "\"platform\"".to_string(),
        imports: vec!["Task".to_string(), "Stdout".to_string()],
        provides: vec!["main".to_string()],
        ast_node_id: 7,
    };
    let root = header_to_markup(&header, &mut pool);
    assert_eq!(pool.nodes.len(), 23);
    assert_eq!(root, 22);
    let lines = pool.get(root).get_children_ids();
    assert_eq!(lines, vec![18, 19, 20, 21]);
    let imports = pool.get(lines[2]).get_children_ids();
    let texts: Vec<String> = imports.iter().map(|id| pool.get(*id).get_content()).collect();
    assert_eq!(texts, vec!["    imports ", "[ ", "Task", ", ", "Stdout", " ]"]);
    assert_eq!(pool.get(imports[2]).get_parent_id_opt(), Some(lines[2]));
    assert_eq!(pool.get(lines[0]).get_parent_id_opt(), Some(root));
    assert!(pool.get(root).has_newline_at_end());
    let provides: Vec<String> = pool.get(lines[3]).get_children_ids().iter().map(|id| pool.get(*id).get_content()).collect();
    assert_eq!(provides, vec!["    provides ", "[ ", "main", " ]", " to base"]);
}

#[test]
fn new_text_node_is_added_last() {
    let mut pool = SlowPool::new();
    pool.add(blank(1));
    let id = roc_devlink::markup::new_markup_node("x".to_string(), 5, HighlightStyle::Variable, &mut pool);
    assert_eq!(id, 1);
    assert_eq!(pool.get(id).get_content(), "x");
    assert_eq!(pool.get(id).get_ast_node_id(), 5);
    assert_eq!(pool.get(id).get_parent_id_opt(), None);
}
