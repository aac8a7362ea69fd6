use fm_verified::model::IrInlineStyle;
use fm_verified::style::{is_allowed_style_property, parse_style_string, sanitize_style_value};

#[test]
fn parse_style_string_basic() {
    let style = parse_style_string("fill:#f9f,stroke:#333,stroke-width:4px");
    assert_eq!(style.properties.get("fill").unwrap(), "#f9f");
    assert_eq!(style.properties.get("stroke").unwrap(), "#333");
    assert_eq!(style.properties.get("stroke-width").unwrap(), "4px");
}

#[test]
fn parse_style_string_semicolons() {
    let style = parse_style_string("fill: #fff; stroke: #000; opacity: 0.5");
    assert_eq!(style.properties.get("fill").unwrap(), "#fff");
    assert_eq!(style.properties.get("stroke").unwrap(), "#000");
    assert_eq!(style.properties.get("opacity").unwrap(), "0.5");
}

#[test]
fn parse_style_string_preserves_parens() {
    let style = parse_style_string("fill:rgb(255,128,0),stroke:rgba(0,0,0,0.5)");
    assert_eq!(style.properties.get("fill").unwrap(), "rgb(255,128,0)");
    assert_eq!(style.properties.get("stroke").unwrap(), "rgba(0,0,0,0.5)");
}

#[test]
fn parse_style_string_empty_input() {
    let style = parse_style_string("");
    assert!(style.is_empty());
}

#[test]
fn parse_style_string_whitespace_only() {
    let style = parse_style_string("   ,  ;  ");
    assert!(style.is_empty());
}

#[test]
fn sanitize_rejects_url() {
    assert!(sanitize_style_value("url(http://evil.com)").is_none());
}

#[test]
fn sanitize_rejects_javascript() {
    assert!(sanitize_style_value("javascript:alert(1)").is_none());
}

#[test]
fn sanitize_rejects_event_handlers() {
    assert!(sanitize_style_value("onclick=alert(1)").is_none());
    assert!(sanitize_style_value("onerror=fetch()").is_none());
}

#[test]
fn sanitize_rejects_xml_injection() {
    assert!(sanitize_style_value("<script>").is_none());
    assert!(sanitize_style_value("val>ue").is_none());
}

#[test]
fn sanitize_rejects_expression() {
    assert!(sanitize_style_value("expression(alert(1))").is_none());
}

#[test]
fn sanitize_accepts_normal_values() {
    assert_eq!(sanitize_style_value("#f9f").unwrap(), "#f9f");
    assert_eq!(sanitize_style_value("4px").unwrap(), "4px");
    assert_eq!(
        sanitize_style_value("rgb(255,128,0)").unwrap(),
        "rgb(255,128,0)"
    );
    assert_eq!(sanitize_style_value("bold").unwrap(), "bold");
}

#[test]
fn sanitize_trims_whitespace() {
    assert_eq!(sanitize_style_value("  #fff  ").unwrap(), "#fff");
}

#[test]
fn ir_inline_style_to_css_string() {
    let style = IrInlineStyle::from_pairs(vec![
        ("fill".to_string(), "#f9f".to_string()),
        ("stroke".to_string(), "#333".to_string()),
    ]);
    let css = style.to_css_string();
    assert!(css.contains("fill: #f9f"));
    assert!(css.contains("stroke: #333"));
}

#[test]
fn ir_inline_style_from_pairs_sanitizes() {
    let style = IrInlineStyle::from_pairs(vec![
        ("fill".to_string(), "#fff".to_string()),
        ("bad".to_string(), "javascript:alert(1)".to_string()),
    ]);
    assert_eq!(style.properties.len(), 1);
    assert!(style.properties.contains_key("fill"));
}

#[test]
fn is_allowed_style_property_checks() {
    assert!(is_allowed_style_property("fill"));
    assert!(is_allowed_style_property("stroke-width"));
    assert!(is_allowed_style_property("font-size"));
    assert!(!is_allowed_style_property("display"));
    assert!(!is_allowed_style_property("position"));
}

#[test]
fn parse_style_string_rejects_unsafe_values() {
    let style =
        parse_style_string("fill:url(http://evil.com),stroke:#333,color:javascript:alert(1)");
    // fill and color should be rejected, stroke should remain.
    assert!(!style.properties.contains_key("fill"));
    assert!(!style.properties.contains_key("color"));
    assert_eq!(style.properties.get("stroke").unwrap(), "#333");
}

#[test]
fn parse_style_string_keeps_parenthesised_values_and_later_wins() {
    let style = parse_style_string("fill:rgb(255,128,0),stroke:#333;FILL: #abc ;bogus:1;color:url(x)");
    assert_eq!(style.properties.len(), 2);
    assert_eq!(style.properties.get("fill").map(String::as_str), Some("#abc"));
    assert_eq!(style.properties.get("stroke").map(String::as_str), Some("#333"));
    assert_eq!(style.to_css_string(), "fill: #abc; stroke: #333");
}

#[test]
fn from_pairs_sanitizes_values_and_renders_in_key_order() {
    let style = IrInlineStyle::from_pairs(vec![
        ("stroke".to_string(), "#333".to_string()),
        ("fill".to_string(), " #f9f ".to_string()),
        ("color".to_string(), "javascript:alert(1)".to_string()),
    ]);
    assert_eq!(style.to_css_string(), "fill: #f9f; stroke: #333");
}
