use diagwiz::ast::{Atom, AtomValue, Attrs, AttrValue, Span, Str};
use diagwiz::transform;
use diagwiz::TransformError;

#[test]
fn rerender_is_identical() {
    let data = "alias a = \"Ann\"\na->b: \"ping\"\nb-->a: \"pong\"";
    let first = transform(String::from(data)).unwrap();
    let second = transform(String::from(data)).unwrap();
    assert_eq!(first, second);
}

#[test]
fn alias_labels_appear_in_output() {
    let data = "alias x = \"Front desk\"\nalias y = \"Archive\"\nx->y: \"file this\"";
    let output = transform(String::from(data)).unwrap();
    assert!(output.contains("Front desk"));
    assert!(output.contains("Archive"));
    assert!(output.contains("file this"));
}

#[test]
fn every_row_has_the_canvas_width() {
    let data = "alias a = \"Alice\"\na->b: \"hello there\"\nb->b: \"thinking\"";
    let output = transform(String::from(data)).unwrap();
    let widths: Vec<usize> = output.lines().map(|l| l.chars().count()).collect();
    assert!(widths.len() > 0);
    for w in &widths {
        assert_eq!(*w, widths[0]);
    }
}

#[test]
fn outer_lifeline_column_is_clear() {
    let data = "a->c: \"hello world\"\nb->a: \"hi\"\nc-->a: \"bye\"";
    let output = transform(String::from(data)).unwrap();
    let rows: Vec<Vec<char>> = output.lines().map(|l| l.chars().collect()).collect();
    // the first lifeline stands at the center of the first box
    let col = (rows[0].iter().position(|c| *c == '┐').unwrap() + 1) / 2;
    let h = rows.len();
    for r in 3..h - 3 {
        assert_eq!(rows[r][col], '│');
    }
}

#[test]
fn payloads_stack_in_input_order() {
    let data = "a->b: \"first\"\nb->a: \"second\"\na->a: \"third\"";
    let output = transform(String::from(data)).unwrap();
    let row_of = |needle: &str| {
        output
            .lines()
            .position(|l| l.contains(needle))
            .unwrap()
    };
    assert!(row_of("first") < row_of("second"));
    assert!(row_of("second") < row_of("third"));
}

#[test]
fn swapping_aliases_swaps_columns() {
    let forward = "alias a = \"Pine\"\nalias b = \"Oak\"\na->b";
    let backward = "alias b = \"Oak\"\nalias a = \"Pine\"\na->b";
    let out1 = transform(String::from(forward)).unwrap();
    let out2 = transform(String::from(backward)).unwrap();
    let label_row1 = out1.lines().nth(1).unwrap();
    let label_row2 = out2.lines().nth(1).unwrap();
    assert!(label_row1.find("Pine").unwrap() < label_row1.find("Oak").unwrap());
    assert!(label_row2.find("Oak").unwrap() < label_row2.find("Pine").unwrap());
}

#[test]
fn empty_input_renders_empty() {
    assert_eq!(transform(String::new()).unwrap(), "");
    assert_eq!(transform(String::from("\n  \n# only a comment\n")).unwrap(), "");
}

#[test]
fn malformed_input_is_a_parse_error() {
    let result = transform(String::from("alias 1a = \"b\""));
    let err = result.err().unwrap();
    let TransformError::ParseError(details) = err;
    assert!(details.len() > 0);
}

#[test]
fn parse_error_description_carries_the_details() {
    let err = TransformError::ParseError(String::from("something went sideways"));
    assert_eq!(err.describe(), "Invalid syntax:\nsomething went sideways");
}

#[test]
fn duplicate_mentions_make_one_participant() {
    let output = transform(String::from("a->b\nb->a\na->a")).unwrap();
    let top_row = output.lines().next().unwrap();
    assert_eq!(top_row.matches('┌').count(), 2);
}

#[test]
fn right_to_left_arrows_point_left() {
    let output = transform(String::from("a->b: \"call\"\na<-b: \"reply\"")).unwrap();
    let reply_arrow_row = output
        .lines()
        .position(|l| l.contains("reply"))
        .unwrap() + 1;
    assert!(output.lines().nth(reply_arrow_row).unwrap().contains("│◀"));
}

#[test]
fn dashed_loops_keep_solid_corners() {
    let output = transform(String::from("a-->a: \"note\"")).unwrap();
    assert!(output.contains("─┐"));
    assert!(output.contains("◀┘"));
    assert!(output.contains("note"));
}

#[test]
fn attrs_get_str_reads_string_values() {
    let attrs = Attrs {
        span: Span { start: 0, end: 20 },
        data: vec![
            (
                Str::spanless("bold"),
                AttrValue::ImplicitTrue,
            ),
            (
                Str::spanless("label"),
                AttrValue::Atom(Atom {
                    span: Span { start: 8, end: 13 },
                    value: AtomValue::String("Ann"),
                }),
            ),
        ],
    };
    let got = attrs.get_str("label").unwrap();
    assert_eq!(got.value, "Ann");
    assert_eq!(got.span, Span { start: 8, end: 13 });
    assert!(attrs.get_str("bold").is_none());
}

#[test]
fn attrs_get_str_skips_boolean_values() {
    let attrs = Attrs {
        span: Span { start: 0, end: 12 },
        data: vec![(
            Str::spanless("compact"),
            AttrValue::Atom(Atom {
                span: Span { start: 2, end: 7 },
                value: AtomValue::Boolean(false),
            }),
        )],
    };
    assert!(attrs.get_str("compact").is_none());
}
