use html::style::{hex_color_channels, parse_style, HtmlElement};

#[test]
fn test_style_parsing() {
    let style = "my-style: 15; my-other-style: 'hello'";

    assert_eq!(parse_style(style, "my-style").unwrap(), "15");
    assert_eq!(parse_style(style, "my-other-style").unwrap(), "'hello'");

    let style2 = "background-color: #ff0000";

    assert_eq!(parse_style(style2, "background-color").unwrap(), "#ff0000");
    assert_eq!(parse_style(style2, "color").is_none(), true);
}

#[test]
fn test_style_parsing_tolerates_whitespace() {
    let style = "margin: 1 ;\tcolor\t:  red  ; x: y";
    assert_eq!(parse_style(style, "color").unwrap(), "red");
}

#[test]
fn test_style_parsing_needs_separator_before_property() {
    // The property must stand at the start or right after a semicolon.
    assert!(parse_style("not-color: red", "color").is_none());
    assert!(parse_style("  color: red", "color").is_none());
    assert_eq!(parse_style("x;color: red", "color").unwrap(), "red");
}

#[test]
fn test_style_parsing_skips_empty_value() {
    // A match with nothing at all before the next semicolon does not count;
    // the scan goes on and may match later.
    assert!(parse_style("color:;", "color").is_none());
    assert_eq!(parse_style("color:; color: blue", "color").unwrap(), "blue");
    // A value of pure whitespace trims to the empty string.
    assert_eq!(parse_style("color: ;", "color").unwrap(), "");
}

#[test]
fn test_hex_color_channels() {
    assert_eq!(hex_color_channels("#ffaa00").unwrap(), (255, 170, 0));
    assert_eq!(hex_color_channels("ffaa00").unwrap(), (255, 170, 0));
    assert_eq!(hex_color_channels("#1A2b3C").unwrap(), (26, 43, 60));
}

#[test]
fn test_hex_to_rgba() {
    // The front end divides each channel by 255 and fixes alpha at 1.0.
    let (r, g, b) = hex_color_channels("#ffaa00").unwrap();
    let rgba = [
        r as f32 / 255.0,
        g as f32 / 255.0,
        b as f32 / 255.0,
        1.0f32,
    ];
    assert_eq!(rgba, [1.0, 0.6666667, 0.0, 1.0]);
}

#[test]
fn test_hex_color_rejects_bad_input() {
    assert!(hex_color_channels("#ffaa0").is_none());
    assert!(hex_color_channels("#ffaa000").is_none());
    assert!(hex_color_channels("ggaa00").is_none());
    assert!(hex_color_channels("").is_none());
    assert!(hex_color_channels("#").is_none());
}

#[test]
fn test_classify_tags() {
    assert_eq!(HtmlElement::classify("html"), HtmlElement::Html);
    assert_eq!(HtmlElement::classify("HEADER"), HtmlElement::Header);
    assert_eq!(HtmlElement::classify("Body"), HtmlElement::Body);
    assert_eq!(HtmlElement::classify("DIV"), HtmlElement::Div);
    assert_eq!(HtmlElement::classify("img"), HtmlElement::Img);
    assert_eq!(HtmlElement::classify("h1"), HtmlElement::H1);
    assert_eq!(HtmlElement::classify("h2"), HtmlElement::H2);
    assert_eq!(HtmlElement::classify("h3"), HtmlElement::H3);
    assert_eq!(HtmlElement::classify("p"), HtmlElement::Paragraph);
    assert_eq!(HtmlElement::classify("content"), HtmlElement::Content);
    assert_eq!(HtmlElement::classify("blink"), HtmlElement::Unknown);
    assert_eq!(HtmlElement::classify(""), HtmlElement::Unknown);
}
