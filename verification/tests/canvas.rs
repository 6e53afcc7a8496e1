use glossa::zographia::{
    inner_size, parse_computed_px, resize_target, ParseComputedPxError, ResizeStrategy, Size,
};

#[test]
fn computed_pixels_are_read() {
    assert_eq!(parse_computed_px("12px").unwrap(), 12);
    assert_eq!(parse_computed_px("0px").unwrap(), 0);
    assert_eq!(parse_computed_px("+7px").unwrap(), 7);
    assert!(matches!(parse_computed_px("12"), Err(ParseComputedPxError::MissingPx)));
    assert!(matches!(parse_computed_px(""), Err(ParseComputedPxError::MissingPx)));
    assert!(matches!(parse_computed_px("12pxx"), Err(ParseComputedPxError::TrailingChars)));
    assert!(matches!(parse_computed_px("1px2px"), Err(ParseComputedPxError::TrailingChars)));
    assert!(matches!(parse_computed_px("px"), Err(ParseComputedPxError::IntParseError(_))));
    assert!(matches!(
        parse_computed_px("99999999999px"),
        Err(ParseComputedPxError::IntParseError(_))
    ));
    assert!(matches!(parse_computed_px("1.5px"), Err(ParseComputedPxError::IntParseError(_))));
    assert_eq!(parse_computed_px("12").unwrap_err().to_string(), "missing px");
    assert_eq!(
        parse_computed_px("3pxs").unwrap_err().to_string(),
        "trailing characters after px"
    );
    assert_eq!(
        parse_computed_px("px").unwrap_err().to_string(),
        "cannot parse integer from empty string"
    );
}

#[test]
fn resizing_follows_the_strategy() {
    let logical = Size { x: 400, y: 300 };
    let parent = Size { x: 800, y: 800 };
    assert_eq!(resize_target(ResizeStrategy::NoResize, logical, parent), None);
    assert_eq!(resize_target(ResizeStrategy::KeepSize, logical, parent), Some(logical));
    assert_eq!(resize_target(ResizeStrategy::AdaptRatio, logical, parent), Some(parent));
    assert_eq!(
        resize_target(ResizeStrategy::KeepRatio, logical, parent),
        Some(Size { x: 800, y: 600 })
    );
    assert_eq!(
        resize_target(ResizeStrategy::KeepRatio, Size { x: 300, y: 400 }, parent),
        Some(Size { x: 600, y: 800 })
    );
    assert!(matches!(ResizeStrategy::default(), ResizeStrategy::KeepRatio));
}

#[test]
fn paddings_are_taken_off() {
    let size = inner_size(Size { x: 100, y: 50 }, 1, 2, 3, 4);
    assert_eq!(size, Size { x: 94, y: 46 });
}

#[test]
fn pixel_errors_clone() {
    let error = parse_computed_px("px").unwrap_err();
    let copy = error.clone();
    assert_eq!(copy.to_string(), error.to_string());
    assert!(matches!(parse_computed_px("1").unwrap_err().clone(), ParseComputedPxError::MissingPx));
}
