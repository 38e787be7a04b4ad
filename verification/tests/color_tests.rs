//! Color construction and preset palette behavior.

use geomcore::Color;

#[test]
fn test_color_constructor() {
    let mut red = Color::new(255, 0, 0, 255);
    red.name = "red".to_string();
    assert_eq!(red.name, "red");
    assert!(!red.guid.to_string().is_empty());
    assert_eq!(red.r, 255);
    assert_eq!(red.g, 0);
    assert_eq!(red.b, 0);
    assert_eq!(red.a, 255);
}

#[test]
fn test_color_equality() {
    let c1 = Color::new(0, 100, 50, 200);
    let c2 = Color::new(0, 100, 50, 200);
    // Colors have different identifiers, so compare the channel values.
    assert_eq!(c1.r, c2.r);
    assert_eq!(c1.g, c2.g);
    assert_eq!(c1.b, c2.b);
    assert_eq!(c1.a, c2.a);

    let c3 = Color::new(0, 100, 50, 200);
    let c4 = Color::new(1, 100, 50, 200);
    assert_ne!(c3.r, c4.r);
}

#[test]
fn test_color_white() {
    let white = Color::white();
    assert_eq!(white.name, "white");
    assert_eq!(white.r, 255);
    assert_eq!(white.g, 255);
    assert_eq!(white.b, 255);
    assert_eq!(white.a, 255);
}

#[test]
fn test_color_black() {
    let black = Color::black();
    assert_eq!(black.name, "black");
    assert_eq!(black.r, 0);
    assert_eq!(black.g, 0);
    assert_eq!(black.b, 0);
    assert_eq!(black.a, 255);
}

#[test]
fn test_color_red() {
    let red = Color::red();
    assert_eq!(red.name, "red");
    assert_eq!(red.r, 255);
    assert_eq!(red.g, 0);
    assert_eq!(red.b, 0);
    assert_eq!(red.a, 255);
}

#[test]
fn test_color_green() {
    let green = Color::green();
    assert_eq!(green.name, "green");
    assert_eq!(green.r, 0);
    assert_eq!(green.g, 255);
    assert_eq!(green.b, 0);
    assert_eq!(green.a, 255);
}

#[test]
fn test_color_blue() {
    let blue = Color::blue();
    assert_eq!(blue.name, "blue");
    assert_eq!(blue.r, 0);
    assert_eq!(blue.g, 0);
    assert_eq!(blue.b, 255);
    assert_eq!(blue.a, 255);
}

#[test]
fn test_color_grey() {
    let grey = Color::grey();
    assert_eq!(grey.name, "grey");
    assert_eq!(grey.r, 128);
    assert_eq!(grey.g, 128);
    assert_eq!(grey.b, 128);
    assert_eq!(grey.a, 255);
}

#[test]
fn test_color_preset_custom_equality() {
    // The hand-written equality compares name and channels, not the
    // identifier.
    let a = Color::teal();
    let b = Color::teal();
    assert_eq!(a, b);
    assert_ne!(Color::teal(), Color::navy());
}
