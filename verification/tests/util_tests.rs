use smithy::tree::find_token_by_path;
use smithy::tree::EventHandlers;
use smithy::tree::HtmlToken;
use smithy::util::Slot;
use smithy::util::WithInnerValue;

#[test]
fn slot_hands_its_value_out_once() {
    let mut slot: Slot<u32> = Slot::empty();
    assert_eq!(slot.with_inner_value(), None);
    assert_eq!(slot.store(5), None);
    assert_eq!(slot.store(6), Some(5));
    assert_eq!(slot.with_inner_value(), Some(6));
    assert_eq!(slot.with_inner_value(), None);
}

#[test]
fn token_path_resolution_descends_and_rejects() {
    let tree = HtmlToken::Elem {
        tag: "main".to_string(),
        attrs: vec![],
        handlers: EventHandlers::none(),
        children: vec![
            HtmlToken::Text { text: "lead".to_string() },
            HtmlToken::Elem {
                tag: "div".to_string(),
                attrs: vec![],
                handlers: EventHandlers::none(),
                children: vec![HtmlToken::Text { text: "deep".to_string() }],
            },
        ],
    };
    match find_token_by_path(&tree, &[1, 0]) {
        Some(HtmlToken::Text { text }) => assert_eq!(text, "deep"),
        _ => panic!("expected the deep text node"),
    }
    match find_token_by_path(&tree, &[]) {
        Some(HtmlToken::Elem { tag, .. }) => assert_eq!(tag, "main"),
        _ => panic!("the empty path is the root"),
    }
    assert!(find_token_by_path(&tree, &[2]).is_none());
    // text nodes have no children to descend into
    assert!(find_token_by_path(&tree, &[0, 0]).is_none());
}
