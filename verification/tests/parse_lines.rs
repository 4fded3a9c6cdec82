use os_dev_specs::model::PdfPageEntry;
use os_dev_specs::parse::{parse_id_line, parse_page_entry, ParseError};

#[test]
fn id_line() {
    assert_eq!(parse_id_line("# `id`").unwrap(), "id".to_string());
    assert!(matches!(parse_id_line("#"), Err(_)));
    assert!(matches!(parse_id_line("# "), Err(_)));
    assert!(matches!(parse_id_line("# ``"), Err(_)));
    assert!(matches!(parse_id_line("`id`"), Err(_)));
}

#[test]
fn page_line() {
    assert_eq!(
        parse_page_entry("- p.268: page1").unwrap(),
        PdfPageEntry {
            page: 268,
            description: "page1".to_string()
        }
    );
    assert!(matches!(parse_id_line("#"), Err(_)));
    assert!(matches!(parse_id_line("# "), Err(_)));
    assert!(matches!(parse_id_line("# ``"), Err(_)));
    assert!(matches!(parse_id_line("`id`"), Err(_)));
}

#[test]
fn id_line_takes_the_leftmost_match() {
    assert_eq!(parse_id_line("x # `a_1` # `b`").unwrap(), "a_1");
    assert_eq!(parse_id_line("#\t \u{3000}`x9`").unwrap(), "x9");
    assert_eq!(
        parse_id_line("# `Id`"),
        Err(ParseError::InvalidIdLine("# `Id`".to_string()))
    );
    assert!(parse_id_line("# `a-b`").is_err());
    assert!(parse_id_line("# `ab").is_err());
    assert_eq!(parse_id_line("##`ok`").unwrap(), "ok");
}

#[test]
fn page_line_edges() {
    let e = parse_page_entry("-p.007:   spaced out  ").unwrap();
    assert_eq!(e.page, 7);
    assert_eq!(e.description, "spaced out");
    let e = parse_page_entry("- p.18446744073709551615:max").unwrap();
    assert_eq!(e.page, u64::MAX);
    let e = parse_page_entry("- p.1:").unwrap();
    assert_eq!(e.description, "");
    assert_eq!(
        parse_page_entry("- p1: x"),
        Err(ParseError::InvalidPageEntry("- p1: x".to_string()))
    );
    assert!(parse_page_entry(" - p.1: x").is_err());
    assert!(parse_page_entry("- p.: x").is_err());
    assert!(parse_page_entry("- p.1: a\nb").is_err());
    assert!(parse_page_entry("- p.1 : x").is_err());
}
