use diagwiz::canvas::{Draw, DrawError, TextCanvas};

#[test]
fn overlapping_text() {
    let mut canvas = TextCanvas::new(5, 5);
    let data = ["123", "456", "789"];
    canvas.draw(0, 0, &data).expect("Draw failed");
    canvas.draw(2, 2, &data).expect("Draw failed");
    let expected = vec![
        "123  ",
        "456  ",
        "78123",
        "  456",
        "  789",
    ];
    assert_eq!(canvas.content(), expected.join("\n"));
}

#[test]
fn horizontal_overflow() {
    let data = ["123", "456", "789"];
    let mut canvas = TextCanvas::new(2, 3);
    assert_eq!(canvas.draw(0, 0, &data), Err(DrawError::HorizontalOverflow));
}

#[test]
fn vertical_overflow() {
    let data = ["123", "456", "789"];
    let mut canvas = TextCanvas::new(3, 2);
    assert_eq!(canvas.draw(0, 0, &data), Err(DrawError::VerticalOverflow));
}

#[test]
fn unicode_boundaries() {
    // Draw a 4 byte character on the canvas, then try to replace it with a 1 byte character
    // and ensure that the replacement process respects the character boundaries.
    let mut canvas = TextCanvas::new(1, 1);

    let data = ["𩸽"];
    canvas.draw(0, 0, &data).expect("Draw failed");
    assert_eq!(canvas.content(), data.join("\n"));

    let data = ["a"];
    canvas.draw(0, 0, &data).expect("Draw failed");
    assert_eq!(canvas.content(), data.join("\n"));
}

#[test]
fn region_draw() {
    let mut canvas = TextCanvas::new(3, 1);

    // Paint in a one pixel region
    let region1 = canvas.region(0, 0, 1, 1);
    let data = ["a"];
    region1.draw(&mut canvas, 0, 0, &data).expect("Draw failed");

    // Paint in a different one pixel region twice
    let region2 = canvas.region(2, 0, 1, 1);
    let data = ["z"];
    region2.draw(&mut canvas, 0, 0, &data).expect("Draw failed");
    let data = ["b"];
    region2.draw(&mut canvas, 0, 0, &data).expect("Draw failed");

    // Inspect the canvas content
    let expected = ["a b"];
    assert_eq!(canvas.content(), expected.join("\n"));
}

#[test]
fn region_horizontal_overflow() {
    let mut canvas = TextCanvas::new(3, 3);
    let region = canvas.region(0, 0, 1, 1);
    let data = ["a"];
    assert_eq!(region.draw(&mut canvas, 1, 0, &data), Err(DrawError::HorizontalOverflow));
}

#[test]
fn region_vertical_overflow() {
    let mut canvas = TextCanvas::new(3, 3);
    let region = canvas.region(0, 0, 1, 1);
    let data = ["a"];
    assert_eq!(region.draw(&mut canvas, 0, 1, &data), Err(DrawError::VerticalOverflow));
}
