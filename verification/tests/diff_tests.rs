use smithy::diff::DiffOperation;
use smithy::tree::token_eq;
use smithy::tree::BareToken;

fn elem(tag: &str, attrs: Vec<(&str, &str)>, children: Vec<BareToken>) -> BareToken {
    BareToken::Elem {
        tag: tag.to_string(),
        attrs: attrs
            .into_iter()
            .map(|(k, v)| (k.to_string(), v.to_string()))
            .collect(),
        children,
    }
}

fn text(s: &str) -> BareToken {
    BareToken::Text { text: s.to_string() }
}

#[test]
fn diff_identical_trees_is_empty() {
    let t = elem(
        "div",
        vec![("id", "app")],
        vec![
            elem("span", vec![("class", "a")], vec![text("hi")]),
            text("tail"),
        ],
    );
    let d = t.get_diff_with(&t);
    assert_eq!(d.len(), 0);
}

#[test]
fn diff_appended_child_yields_insert() {
    // root has children [div, span]; the new tree appends a p
    let old = elem("main", vec![], vec![elem("div", vec![], vec![]), elem("span", vec![], vec![])]);
    let new = elem(
        "main",
        vec![],
        vec![
            elem("div", vec![], vec![]),
            elem("span", vec![], vec![]),
            elem("p", vec![], vec![]),
        ],
    );
    let d = new.get_diff_with(&old);
    assert_eq!(d.len(), 1);
    assert_eq!(d[0].path, vec![2]);
    match &d[0].op {
        DiffOperation::Insert { content } => {
            assert!(token_eq(content, &elem("p", vec![], vec![])));
        }
        _ => panic!("expected an insert"),
    }
}

#[test]
fn diff_removed_child_yields_delete() {
    let old = elem("main", vec![], vec![elem("div", vec![], vec![]), elem("span", vec![], vec![])]);
    let new = elem("main", vec![], vec![elem("div", vec![], vec![])]);
    let d = new.get_diff_with(&old);
    assert_eq!(d.len(), 1);
    assert_eq!(d[0].path, vec![1]);
    assert!(matches!(d[0].op, DiffOperation::Delete));
}

#[test]
fn diff_attribute_change_yields_update() {
    let old = elem(
        "main",
        vec![],
        vec![elem("div", vec![], vec![]), elem("span", vec![("class", "a")], vec![])],
    );
    let new = elem(
        "main",
        vec![],
        vec![elem("div", vec![], vec![]), elem("span", vec![("class", "b")], vec![])],
    );
    let d = new.get_diff_with(&old);
    assert_eq!(d.len(), 1);
    assert_eq!(d[0].path, vec![1]);
    match &d[0].op {
        DiffOperation::UpdateAttributes { new_attributes } => {
            assert_eq!(new_attributes.len(), 1);
            assert_eq!(new_attributes[0].0, "class");
            assert_eq!(new_attributes[0].1, "b");
        }
        _ => panic!("expected an attribute update"),
    }
}

#[test]
fn diff_replace_span_with_text() {
    let old = elem("main", vec![], vec![elem("div", vec![], vec![]), elem("span", vec![], vec![])]);
    let new = elem("main", vec![], vec![elem("div", vec![], vec![]), text("hi")]);
    let d = new.get_diff_with(&old);
    assert_eq!(d.len(), 1);
    assert_eq!(d[0].path, vec![1]);
    match &d[0].op {
        DiffOperation::Replace { content } => {
            assert!(token_eq(content, &text("hi")));
        }
        _ => panic!("expected a replace"),
    }
}

#[test]
fn diff_trailing_deletes_come_descending() {
    let old = elem(
        "ul",
        vec![],
        vec![text("a"), text("b"), text("c"), text("d")],
    );
    let new = elem("ul", vec![], vec![text("a")]);
    let d = new.get_diff_with(&old);
    assert_eq!(d.len(), 3);
    assert_eq!(d[0].path, vec![3]);
    assert_eq!(d[1].path, vec![2]);
    assert_eq!(d[2].path, vec![1]);
    for entry in &d {
        assert!(matches!(entry.op, DiffOperation::Delete));
    }
}

#[test]
fn diff_root_tag_change_replaces_at_empty_path() {
    let old = elem("main", vec![], vec![text("x")]);
    let new = elem("section", vec![], vec![text("x")]);
    let d = new.get_diff_with(&old);
    assert_eq!(d.len(), 1);
    assert_eq!(d[0].path, Vec::<usize>::new());
    match &d[0].op {
        DiffOperation::Replace { content } => {
            assert!(token_eq(content, &new));
        }
        _ => panic!("expected a replace"),
    }
}

#[test]
fn diff_text_change_replaces_that_child() {
    let old = elem("main", vec![], vec![text("0")]);
    let new = elem("main", vec![], vec![text("1")]);
    let d = new.get_diff_with(&old);
    assert_eq!(d.len(), 1);
    assert_eq!(d[0].path, vec![0]);
    match &d[0].op {
        DiffOperation::Replace { content } => {
            assert!(token_eq(content, &text("1")));
        }
        _ => panic!("expected a replace"),
    }
}

#[test]
fn diff_nested_change_addresses_deep_path() {
    let old = elem(
        "main",
        vec![],
        vec![elem("div", vec![], vec![elem("span", vec![], vec![text("old")])])],
    );
    let new = elem(
        "main",
        vec![],
        vec![elem("div", vec![], vec![elem("span", vec![], vec![text("new")])])],
    );
    let d = new.get_diff_with(&old);
    assert_eq!(d.len(), 1);
    assert_eq!(d[0].path, vec![0, 0, 0]);
}

#[test]
fn attribute_update_carries_complete_mapping() {
    // an attribute present before but absent now is dropped by the new
    // complete mapping, not kept
    let old = elem("div", vec![("class", "a"), ("id", "x")], vec![]);
    let new = elem("div", vec![("class", "a")], vec![]);
    let d = new.get_diff_with(&old);
    assert_eq!(d.len(), 1);
    assert_eq!(d[0].path, Vec::<usize>::new());
    match &d[0].op {
        DiffOperation::UpdateAttributes { new_attributes } => {
            assert_eq!(new_attributes.len(), 1);
            assert_eq!(new_attributes[0].0, "class");
        }
        _ => panic!("expected an attribute update"),
    }
}

#[test]
fn attribute_order_is_significant() {
    // attributes are an ordered association list produced by a
    // deterministic render: a reordering counts as a change
    let old = elem("div", vec![("a", "1"), ("b", "2")], vec![]);
    let new = elem("div", vec![("b", "2"), ("a", "1")], vec![]);
    let d = new.get_diff_with(&old);
    assert_eq!(d.len(), 1);
    assert!(matches!(d[0].op, DiffOperation::UpdateAttributes { .. }));
}

#[test]
fn diff_of_bare_text_roots() {
    let old = text("same");
    let new = text("same");
    assert_eq!(new.get_diff_with(&old).len(), 0);
    let changed = text("other");
    let d = changed.get_diff_with(&old);
    assert_eq!(d.len(), 1);
    assert_eq!(d[0].path, Vec::<usize>::new());
}
