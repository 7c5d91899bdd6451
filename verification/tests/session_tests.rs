use smithy::diff::DiffOperation;
use smithy::doc::find_node_by_path;
use smithy::session::handler_at;
use smithy::session::DispatchError;
use smithy::session::Session;
use smithy::tree::token_eq;
use smithy::tree::BareToken;
use smithy::tree::EventHandlers;
use smithy::tree::EventKind;
use smithy::tree::HtmlToken;

const INCREMENT: u64 = 1;

/// A counter component: one piece of state, one click handler on the
/// button at path [0, 1], whose text at path [0, 1, 0] shows the count.
struct Counter {
    count: u64,
}

impl Counter {
    fn render(&self) -> HtmlToken {
        HtmlToken::Elem {
            tag: "main".to_string(),
            attrs: vec![],
            handlers: EventHandlers::none(),
            children: vec![HtmlToken::Elem {
                tag: "div".to_string(),
                attrs: vec![],
                handlers: EventHandlers::none(),
                children: vec![
                    HtmlToken::Elem {
                        tag: "span".to_string(),
                        attrs: vec![],
                        handlers: EventHandlers::none(),
                        children: vec![],
                    },
                    HtmlToken::Elem {
                        tag: "button".to_string(),
                        attrs: vec![],
                        handlers: EventHandlers {
                            on_click: Some(INCREMENT),
                            on_keydown: None,
                            on_input: None,
                        },
                        children: vec![HtmlToken::Text { text: self.count.to_string() }],
                    },
                ],
            }],
        }
    }

    fn invoke(&mut self, handler: u64) {
        if handler == INCREMENT {
            self.count += 1;
        }
    }
}

#[test]
fn click_dispatch_patches_the_counter_text() {
    let mut component = Counter { count: 0 };
    let mut session = Session::mount(&component.render());

    // the host event targets the live button: the node at path [0, 1]
    let target = find_node_by_path(&session.doc, &[0, 1]).expect("button exists");

    let path = session.begin_dispatch(target).expect("dispatch starts");
    assert_eq!(path, vec![0, 1]);

    // a fresh render carries the handler slots; the resolved node has one
    let fresh = component.render();
    let handler = handler_at(&fresh, path.as_slice(), EventKind::Click).expect("handler present");
    component.invoke(handler);

    let d = session.complete_dispatch(&component.render());

    // exactly one operation: the text under [0, 1, 0] changes "0" -> "1"
    assert_eq!(d.len(), 1);
    assert_eq!(d[0].path, vec![0, 1, 0]);
    match &d[0].op {
        DiffOperation::Replace { content } => {
            assert!(token_eq(content, &BareToken::Text { text: "1".to_string() }));
        }
        _ => panic!("expected a text replace"),
    }

    // the stored snapshot now equals the reduction of the new tree, and so
    // does the live document
    let want = component.render().as_bare_token();
    assert!(token_eq(&session.last_rendered_token, &want));
    assert!(token_eq(&session.doc.to_token(), &want));
}

#[test]
fn dispatch_without_handler_is_a_clean_no_op() {
    let component = Counter { count: 0 };
    let mut session = Session::mount(&component.render());
    let before = session.doc.to_token().as_inner_html();

    // the span at [0, 0] carries no handler
    let target = find_node_by_path(&session.doc, &[0, 0]).expect("span exists");
    let path = session.begin_dispatch(target).expect("dispatch starts");
    assert_eq!(path, vec![0, 0]);
    assert!(handler_at(&component.render(), path.as_slice(), EventKind::Click).is_none());
    session.cancel_dispatch();

    // the host document is left exactly as it was
    assert_eq!(session.doc.to_token().as_inner_html(), before);
}

#[test]
fn reentrant_dispatch_is_refused() {
    let component = Counter { count: 0 };
    let mut session = Session::mount(&component.render());
    let target = find_node_by_path(&session.doc, &[0, 1]).unwrap();
    session.begin_dispatch(target).expect("first dispatch starts");
    match session.begin_dispatch(target) {
        Err(DispatchError::Reentrant) => {}
        _ => panic!("a second dispatch must be refused while one is in flight"),
    }
}

#[test]
fn target_outside_the_tree_is_an_explicit_failure() {
    let component = Counter { count: 0 };
    let mut session = Session::mount(&component.render());
    // detach the button, then dispatch at it
    let target = find_node_by_path(&session.doc, &[0, 1]).unwrap();
    let d = session
        .begin_dispatch(find_node_by_path(&session.doc, &[0]).unwrap())
        .expect("dispatch starts");
    assert_eq!(d, vec![0]);
    let patch = session.complete_dispatch(&HtmlToken::Elem {
        tag: "main".to_string(),
        attrs: vec![],
        handlers: EventHandlers::none(),
        children: vec![],
    });
    assert!(!patch.is_empty());
    match session.begin_dispatch(target) {
        Err(DispatchError::TargetOutside) => {}
        _ => panic!("a detached target must be reported, not approximated"),
    }
}

#[test]
fn keydown_and_input_slots_route_independently() {
    let token = HtmlToken::Elem {
        tag: "input".to_string(),
        attrs: vec![],
        handlers: EventHandlers { on_click: None, on_keydown: Some(7), on_input: Some(8) },
        children: vec![],
    };
    assert_eq!(handler_at(&token, &[], EventKind::Keydown), Some(7));
    assert_eq!(handler_at(&token, &[], EventKind::Input), Some(8));
    assert_eq!(handler_at(&token, &[], EventKind::Click), None);
}

#[test]
fn mount_installs_the_initial_snapshot() {
    let component = Counter { count: 3 };
    let session = Session::mount(&component.render());
    let want = component.render().as_bare_token();
    assert!(token_eq(&session.last_rendered_token, &want));
    assert!(token_eq(&session.doc.to_token(), &want));
    assert!(!session.dispatching);
}
