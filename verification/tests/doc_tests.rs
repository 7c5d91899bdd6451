use smithy::diff::DiffEntry;
use smithy::diff::DiffOperation;
use smithy::doc::find_node_by_path;
use smithy::doc::get_path_from;
use smithy::doc::LiveDoc;
use smithy::tree::token_eq;
use smithy::tree::BareToken;

fn elem(tag: &str, attrs: Vec<(&str, &str)>, children: Vec<BareToken>) -> BareToken {
    BareToken::Elem {
        tag: tag.to_string(),
        attrs: attrs
            .into_iter()
            .map(|(k, v)| (k.to_string(), v.to_string()))
            .collect(),
        children,
    }
}

fn text(s: &str) -> BareToken {
    BareToken::Text { text: s.to_string() }
}

fn sample_tree() -> BareToken {
    elem(
        "main",
        vec![("id", "app")],
        vec![
            elem("div", vec![], vec![elem("span", vec![], vec![text("hi")])]),
            elem("p", vec![("class", "c")], vec![text("tail")]),
        ],
    )
}

#[test]
fn document_reads_back_what_built_it() {
    let t = sample_tree();
    let doc = LiveDoc::from_token(&t);
    assert!(token_eq(&doc.to_token(), &t));
}

#[test]
fn applying_a_diff_yields_the_new_tree() {
    // the diff of a against b, applied to a document built from a, gives a
    // document equal to one built from b
    let a = sample_tree();
    let b = elem(
        "main",
        vec![("id", "app")],
        vec![
            elem("div", vec![("class", "x")], vec![text("swapped")]),
            elem("p", vec![("class", "c")], vec![text("tail"), text("more")]),
            text("appended"),
        ],
    );
    let d = b.get_diff_with(&a);
    let mut doc = LiveDoc::from_token(&a);
    assert!(doc.apply_diff(&d).is_ok());
    assert!(token_eq(&doc.to_token(), &b));
    assert_eq!(
        doc.to_token().as_inner_html(),
        LiveDoc::from_token(&b).to_token().as_inner_html()
    );
}

#[test]
fn applying_the_empty_patch_changes_nothing() {
    let a = sample_tree();
    let mut doc = LiveDoc::from_token(&a);
    let before = doc.to_token().as_inner_html();
    let empty: Vec<DiffEntry> = vec![];
    assert!(doc.apply_diff(&empty).is_ok());
    // byte for byte unchanged
    assert_eq!(doc.to_token().as_inner_html(), before);
}

#[test]
fn unresolvable_path_reports_desync() {
    let a = sample_tree();
    let mut doc = LiveDoc::from_token(&a);
    let bad = vec![DiffEntry { path: vec![7], op: DiffOperation::Delete }];
    let e = doc.apply_diff(&bad).unwrap_err();
    assert_eq!(e.entry_index, 0);
    assert_eq!(e.path, vec![7]);
}

#[test]
fn insert_beyond_child_count_appends() {
    let a = elem("ul", vec![], vec![text("a"), text("b")]);
    let mut doc = LiveDoc::from_token(&a);
    let patch = vec![DiffEntry {
        path: vec![9],
        op: DiffOperation::Insert { content: text("z") },
    }];
    assert!(doc.apply_diff(&patch).is_ok());
    let want = elem("ul", vec![], vec![text("a"), text("b"), text("z")]);
    assert!(token_eq(&doc.to_token(), &want));
}

#[test]
fn replace_at_empty_path_replaces_the_root() {
    let a = elem("main", vec![], vec![text("x")]);
    let b = elem("section", vec![], vec![]);
    let mut doc = LiveDoc::from_token(&a);
    let patch = vec![DiffEntry {
        path: vec![],
        op: DiffOperation::Replace { content: b.clone_token() },
    }];
    assert!(doc.apply_diff(&patch).is_ok());
    assert!(token_eq(&doc.to_token(), &b));
}

#[test]
fn update_attributes_replaces_the_whole_mapping() {
    let a = elem("div", vec![("class", "a"), ("id", "x")], vec![]);
    let b = elem("div", vec![("class", "b")], vec![]);
    let d = b.get_diff_with(&a);
    let mut doc = LiveDoc::from_token(&a);
    assert!(doc.apply_diff(&d).is_ok());
    assert!(token_eq(&doc.to_token(), &b));
}

#[test]
fn path_resolver_round_trips_every_node() {
    let t = sample_tree();
    let doc = LiveDoc::from_token(&t);
    // every arena slot of a freshly built document is reachable
    for target in 0..doc.nodes.len() {
        let path = get_path_from(&doc, target).expect("reachable node");
        let found = find_node_by_path(&doc, path.as_slice()).expect("path resolves");
        assert_eq!(found, target);
    }
}

#[test]
fn path_resolver_fails_for_detached_node() {
    let t = elem("main", vec![], vec![text("a"), text("b")]);
    let mut doc = LiveDoc::from_token(&t);
    // find the slot the last child occupies, then delete it
    let victim = find_node_by_path(&doc, &[1]).unwrap();
    let patch = vec![DiffEntry { path: vec![1], op: DiffOperation::Delete }];
    assert!(doc.apply_diff(&patch).is_ok());
    // the detached node is no longer inside the mounted subtree: the walk
    // reports that explicitly rather than handing back a garbage path
    assert!(get_path_from(&doc, victim).is_none());
}

#[test]
fn find_node_by_path_rejects_bad_paths() {
    let t = sample_tree();
    let doc = LiveDoc::from_token(&t);
    assert!(find_node_by_path(&doc, &[5]).is_none());
    assert!(find_node_by_path(&doc, &[0, 0, 0, 0]).is_none());
}

#[test]
fn markup_matches_expected_bytes() {
    let t = elem(
        "div",
        vec![("id", "app")],
        vec![elem("span", vec![], vec![text("hi")]), text("!")],
    );
    assert_eq!(t.as_inner_html(), "<div id=\"app\"><span>hi</span>!</div>");
}

#[test]
fn a_text_root_document_round_trips() {
    let t = text("alone");
    let doc = LiveDoc::from_token(&t);
    assert!(token_eq(&doc.to_token(), &t));
    assert_eq!(doc.to_token().as_inner_html(), "alone");
}
