use diagwiz::transform;

#[test]
fn test_loop() {
    let output = transform(String::from("a->a")).unwrap();
    let expected = vec![
        "┌────┐     ",
        "│ a  │     ",
        "└────┘     ",
        "   │─┐     ",
        "   │ │     ",
        "   │◀┘     ",
        "   │       ",
        "┌────┐     ",
        "│ a  │     ",
        "└────┘     ",
    ]
    .join("\n");
    assert_eq!(output, expected);
}

#[test]
fn test_two_participants_with_continuous_line() {
    let output = transform(String::from("a->b")).unwrap();
    let expected = vec![
        "┌────┐ ┌────┐ ",
        "│ a  │ │ b  │ ",
        "└────┘ └────┘ ",
        "   │      │   ",
        "   │─────▶│   ",
        "   │      │   ",
        "┌────┐ ┌────┐ ",
        "│ a  │ │ b  │ ",
        "└────┘ └────┘ ",
    ]
    .join("\n");
    assert_eq!(output, expected);
}

#[test]
fn test_two_participants_with_dashed_line() {
    let output = transform(String::from("a-->b")).unwrap();
    let expected = vec![
        "┌────┐ ┌────┐ ",
        "│ a  │ │ b  │ ",
        "└────┘ └────┘ ",
        "   │      │   ",
        "   │-----▶│   ",
        "   │      │   ",
        "┌────┐ ┌────┐ ",
        "│ a  │ │ b  │ ",
        "└────┘ └────┘ ",
    ]
    .join("\n");
    assert_eq!(output, expected);
}

#[test]
fn test_two_participants_with_message() {
    let data = r#"
            a->b: "hello world"
            "#;
    let output = transform(String::from(data)).unwrap();
    let expected = vec![
        "┌────┐           ┌────┐ ",
        "│ a  │           │ b  │ ",
        "└────┘           └────┘ ",
        "   │  hello world   │   ",
        "   │───────────────▶│   ",
        "   │                │   ",
        "┌────┐           ┌────┐ ",
        "│ a  │           │ b  │ ",
        "└────┘           └────┘ ",
    ]
    .join("\n");
    assert_eq!(output, expected);
}

#[test]
fn test_complex() {
    let data = vec![
        "alias a = \"Alice\"",
        "alias b = \"Bob\"",
        "alias c = \"Charlie\"",
        "a->c: \"hello world\"",
        "a<-b: \"hello there\"",
        "a<--c: \"hello back\"",
        "b<-c: \"hello back too\"",
        "b->b: \"hello?\"",
    ]
    .join("\n");
    let output = transform(String::from(data)).unwrap();
    let expected = vec![
        "┌────────┐        ┌──────┐         ┌──────────┐ ",
        "│ Alice  │        │ Bob  │         │ Charlie  │ ",
        "└────────┘        └──────┘         └──────────┘ ",
        "     │            hello world            │      ",
        "     │──────────────────────────────────▶│      ",
        "     │                │                  │      ",
        "     │  hello there   │                  │      ",
        "     │◀───────────────│                  │      ",
        "     │                │                  │      ",
        "     │            hello back             │      ",
        "     │◀----------------------------------│      ",
        "     │                │                  │      ",
        "     │                │  hello back too  │      ",
        "     │                │◀─────────────────│      ",
        "     │                │                  │      ",
        "     │                │─┐                │      ",
        "     │                │ │ hello?         │      ",
        "     │                │◀┘                │      ",
        "     │                │                  │      ",
        "┌────────┐        ┌──────┐         ┌──────────┐ ",
        "│ Alice  │        │ Bob  │         │ Charlie  │ ",
        "└────────┘        └──────┘         └──────────┘ ",
    ]
    .join("\n");
    assert_eq!(output, expected);
}
