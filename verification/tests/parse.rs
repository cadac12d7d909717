use wincap::{parse_xwininfo, Field, FieldError, NumberErrorKind, ParseError, WindowInfo};

fn missing(field: Field) -> ParseError {
    ParseError::MissingField(FieldError::new(field))
}

fn bad(field: Field, kind: NumberErrorKind) -> ParseError {
    ParseError::NumberFormat { field, kind }
}

fn window(x: i64, y: i64, width: i64, height: i64) -> WindowInfo {
    WindowInfo { x, y, width, height }
}

#[test]
fn test_parse_xwininfo_empty() {
    let src = "";
    let r = parse_xwininfo(src.to_string());
    assert!(r.is_err());
}

#[test]
fn test_parse_xwininfo() {
    let src = r#"
xwininfo: Please select the window about which you
          would like information by clicking the
          mouse in that window.

xwininfo: Window id: 0xe00021 "Firefox Developer Edition"

  Relative upper-left X:  0
  Relative upper-left Y:  0
  Width: 958
  Height: 1178
  Depth: 24
  Visual: 0x2b
  Visual Class: TrueColor
  Border width: 0
  Class: InputOutput
  Colormap: 0xe00002 (not installed)
  Bit Gravity State: NorthWestGravity
  Window Gravity State: NorthWestGravity
  Backing Store State: NotUseful
  Save Under State: no
  Map State: IsViewable
  Override Redirect State: no
  Corners:  +3841+21  -961+21  -961-961  +3841-961
  -geometry 958x1178+3840+20
"#;
    let r = parse_xwininfo(src.to_string());
    assert!(r.is_err());
}

#[test]
fn test_parse_xwininfo_ok() {
    let src = r#"
xwininfo: Please select the window about which you
          would like information by clicking the
          mouse in that window.

xwininfo: Window id: 0xe00021 "Firefox Developer Edition"

  Absolute upper-left X:  3841
  Absolute upper-left Y:  21
  Relative upper-left X:  0
  Relative upper-left Y:  0
  Width: 958
  Height: 1178
  Depth: 24
  Visual: 0x2b
  Visual Class: TrueColor
  Border width: 0
  Class: InputOutput
  Colormap: 0xe00002 (not installed)
  Bit Gravity State: NorthWestGravity
  Window Gravity State: NorthWestGravity
  Backing Store State: NotUseful
  Save Under State: no
  Map State: IsViewable
  Override Redirect State: no
  Corners:  +3841+21  -961+21  -961-961  +3841-961
  -geometry 958x1178+3840+20
"#;
    let r = parse_xwininfo(src.to_string());
    assert!(r.is_ok());

    let info = r.unwrap();
    assert_eq!(info.x, 3841);
    assert_eq!(info.y, 21);
    assert_eq!(info.width, 958);
    assert_eq!(info.height, 1178);
}

#[test]
fn empty_text_lacks_x() {
    assert_eq!(parse_xwininfo(String::new()), Err(missing(Field::X)));
}

#[test]
fn blank_text_lacks_x() {
    assert_eq!(parse_xwininfo("  \n\t\n\r\n".to_string()), Err(missing(Field::X)));
}

#[test]
fn only_width_and_height_lacks_x() {
    let src = "  Width: 958\n  Height: 1178\n";
    assert_eq!(parse_xwininfo(src.to_string()), Err(missing(Field::X)));
}

#[test]
fn each_single_missing_field_is_named() {
    let x = "Absolute upper-left X: 1\n";
    let y = "Absolute upper-left Y: 2\n";
    let w = "Width: 3\n";
    let h = "Height: 4\n";
    assert_eq!(parse_xwininfo(format!("{}{}{}", y, w, h)), Err(missing(Field::X)));
    assert_eq!(parse_xwininfo(format!("{}{}{}", x, w, h)), Err(missing(Field::Y)));
    assert_eq!(parse_xwininfo(format!("{}{}{}", x, y, h)), Err(missing(Field::Width)));
    assert_eq!(parse_xwininfo(format!("{}{}{}", x, y, w)), Err(missing(Field::Height)));
    assert_eq!(parse_xwininfo(format!("{}{}{}{}", x, y, w, h)), Ok(window(1, 2, 3, 4)));
}

#[test]
fn earliest_missing_field_is_named() {
    let x = "Absolute upper-left X: 1\n";
    let y = "Absolute upper-left Y: 2\n";
    let w = "Width: 3\n";
    let h = "Height: 4\n";
    assert_eq!(parse_xwininfo(format!("{}{}", x, h)), Err(missing(Field::Y)));
    assert_eq!(parse_xwininfo(format!("{}{}", x, y)), Err(missing(Field::Width)));
    assert_eq!(parse_xwininfo(format!("{}{}", h, w)), Err(missing(Field::X)));
    assert_eq!(parse_xwininfo(x.to_string()), Err(missing(Field::Y)));
    assert_eq!(parse_xwininfo(h.to_string()), Err(missing(Field::X)));
}

#[test]
fn order_and_noise_do_not_matter() {
    let expected = Ok(window(3841, 21, 958, 1178));
    let a = "Absolute upper-left X:  3841\nAbsolute upper-left Y:  21\nWidth: 958\nHeight: 1178";
    let b = "Height: 1178\nnoise\nWidth: 958\n\nAbsolute upper-left Y:  21\nDepth: 24\nAbsolute upper-left X:  3841\n";
    let c = "\t Width:958 \r\n  Absolute upper-left X:3841\r\n Height:\t1178\r\nAbsolute upper-left Y: 21\r\n";
    assert_eq!(parse_xwininfo(a.to_string()), expected);
    assert_eq!(parse_xwininfo(b.to_string()), expected);
    assert_eq!(parse_xwininfo(c.to_string()), expected);
}

#[test]
fn labels_are_case_sensitive_and_anchored() {
    let src = "Absolute upper-left X: 1\nAbsolute upper-left Y: 2\nwidth: 3\nThe Width: 3\nHeight: 4\n";
    assert_eq!(parse_xwininfo(src.to_string()), Err(missing(Field::Width)));
    let relative = "Relative upper-left X: 1\nAbsolute upper-left Y: 2\nWidth: 3\nHeight: 4\n";
    assert_eq!(parse_xwininfo(relative.to_string()), Err(missing(Field::X)));
}

#[test]
fn negative_and_signed_numbers_are_read() {
    let src = "Absolute upper-left X: -1920\nAbsolute upper-left Y: +0\nWidth: 0010\nHeight: -0\n";
    assert_eq!(parse_xwininfo(src.to_string()), Ok(window(-1920, 0, 10, 0)));
    let wide = "Absolute upper-left X: -9223372036854775808\nAbsolute upper-left Y: 9223372036854775807\nWidth: 1\nHeight: 1\n";
    assert_eq!(parse_xwininfo(wide.to_string()), Ok(window(i64::MIN, i64::MAX, 1, 1)));
}

#[test]
fn last_line_of_a_field_stands() {
    let src = "Width: 1\nAbsolute upper-left X: 7\nWidth: 2\nAbsolute upper-left Y: 8\nHeight: 9\nWidth: 3\n";
    assert_eq!(parse_xwininfo(src.to_string()), Ok(window(7, 8, 3, 9)));
}

#[test]
fn bad_number_comes_before_missing_field() {
    assert_eq!(
        parse_xwininfo("Width: abc\n".to_string()),
        Err(bad(Field::Width, NumberErrorKind::InvalidDigit))
    );
    assert_eq!(
        parse_xwininfo("Height:\n".to_string()),
        Err(bad(Field::Height, NumberErrorKind::Empty))
    );
    assert_eq!(
        parse_xwininfo("Absolute upper-left Y: 9223372036854775808".to_string()),
        Err(bad(Field::Y, NumberErrorKind::PosOverflow))
    );
    assert_eq!(
        parse_xwininfo("Absolute upper-left X: -9223372036854775809".to_string()),
        Err(bad(Field::X, NumberErrorKind::NegOverflow))
    );
}

#[test]
fn first_bad_number_is_reported() {
    let src = "Absolute upper-left X: 1\nHeight: 1 2\nWidth: \nHeight: 5\n";
    assert_eq!(parse_xwininfo(src.to_string()), Err(bad(Field::Height, NumberErrorKind::InvalidDigit)));
    let later_fixed = "Width: x\nWidth: 3\nAbsolute upper-left X: 1\nAbsolute upper-left Y: 2\nHeight: 4\n";
    assert_eq!(
        parse_xwininfo(later_fixed.to_string()),
        Err(bad(Field::Width, NumberErrorKind::InvalidDigit))
    );
}

#[test]
fn label_is_removed_once() {
    let src = "Absolute upper-left X: 1\nAbsolute upper-left Y: 2\nWidth:Width: 3\nHeight: 4\n";
    assert_eq!(parse_xwininfo(src.to_string()), Err(bad(Field::Width, NumberErrorKind::InvalidDigit)));
}

#[test]
fn same_text_same_outcome() {
    let good = "Absolute upper-left X: 10\nAbsolute upper-left Y: 20\nWidth: 100\nHeight: 200\n";
    assert_eq!(parse_xwininfo(good.to_string()), parse_xwininfo(good.to_string()));
    assert_eq!(parse_xwininfo(good.to_string()), Ok(window(10, 20, 100, 200)));
    let poor = "Width: 1\n";
    assert_eq!(parse_xwininfo(poor.to_string()), parse_xwininfo(poor.to_string()));
}

#[test]
fn unicode_whitespace_is_trimmed() {
    let src = "\u{3000}Absolute upper-left X:\u{a0}1\u{2003}\n\u{85}Absolute upper-left Y: 2\nWidth: 3\u{2028}\nHeight: 4\u{1680}";
    assert_eq!(parse_xwininfo(src.to_string()), Ok(window(1, 2, 3, 4)));
    let inner = "Absolute upper-left X: 1\u{a0}1\n";
    assert_eq!(parse_xwininfo(inner.to_string()), Err(bad(Field::X, NumberErrorKind::InvalidDigit)));
}
