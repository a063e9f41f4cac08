use diagwiz::layout::{EdgeStyle, Layout, Message, Participant};
use diagwiz::parser::{Alias, SequenceDiagram};
use diagwiz::renderer::render;
use diagwiz::transform;

#[test]
fn layout_smoke() {
    let mut layout = Layout::new();
    layout.add_participant(Participant {
        id: "alice".to_string(),
        name: "Alice".to_string(),
    });
    layout.add_participant(Participant {
        id: "bob".to_string(),
        name: "Bob".to_string(),
    });
    layout.add_message(Message {
        source: 0,
        target: 1,
        payload: "hello".to_string(),
        edge_style: EdgeStyle::Continuous,
    });
    layout.add_message(Message {
        source: 1,
        target: 0,
        payload: "hello back".to_string(),
        edge_style: EdgeStyle::Continuous,
    });
    layout.add_message(Message {
        source: 1,
        target: 1,
        payload: "who am i?".to_string(),
        edge_style: EdgeStyle::Continuous,
    });
    let output = layout.render();
    assert!(output.len() > 0);
}

#[test]
fn renderer_smoke() {
    let mut diag = SequenceDiagram::default();
    diag.aliases.push(Alias {
        id: "test1".to_string(),
        label: "label".to_string(),
    });
    diag.aliases.push(Alias {
        id: "test2".to_string(),
        label: "label".to_string(),
    });
    render(diag);
}

#[test]
fn lib_test_smoke() {
    let data = r#"
        alias a="Foo"
        alias b="Bar"
        a->b:"hey"
        "#;
    let result = transform(String::from(data)).unwrap();
    assert_eq!(result.contains("Foo"), true);
    assert_eq!(result.contains("Bar"), true);
}
