use ase2ttf_core::edge::Point;
use ase2ttf_core::glyph::fg_column_range;
use ase2ttf_core::glyph::glyph_metric;
use ase2ttf_core::glyph::parse_codepoint;
use ase2ttf_core::glyph::path_stats;
use ase2ttf_core::glyph::weight_class;

#[test]
fn parse_codepoint_accepts_hex_after_marker() {
    assert_eq!(parse_codepoint(b"U+0041"), Some(0x41));
    assert_eq!(parse_codepoint(b"u+ff"), Some(0xFF));
    assert_eq!(parse_codepoint(b"U+2600"), Some(0x2600));
    assert_eq!(parse_codepoint(b"U+FFFFFFFF"), Some(u32::MAX));
}

#[test]
fn parse_codepoint_ignores_trailing_text() {
    assert_eq!(parse_codepoint(b"U+41 basic latin"), Some(0x41));
    assert_eq!(parse_codepoint(b"u+2athings"), Some(0x2A));
}

#[test]
fn parse_codepoint_rejects_bad_names() {
    assert_eq!(parse_codepoint(b""), None);
    assert_eq!(parse_codepoint(b"U+"), None);
    assert_eq!(parse_codepoint(b"U+xyz"), None);
    assert_eq!(parse_codepoint(b"layer 1"), None);
    assert_eq!(parse_codepoint(b"0041"), None);
    assert_eq!(parse_codepoint(b"V+41"), None);
}

#[test]
fn parse_codepoint_rejects_overflow() {
    assert_eq!(parse_codepoint(b"U+100000000"), None);
    assert_eq!(parse_codepoint(b"U+123456789AB"), None);
}

#[test]
fn weight_class_table() {
    assert_eq!(weight_class(b"thin"), 100);
    assert_eq!(weight_class(b"extra-light"), 200);
    assert_eq!(weight_class(b"extralight"), 200);
    assert_eq!(weight_class(b"ultra-light"), 200);
    assert_eq!(weight_class(b"ultralight"), 200);
    assert_eq!(weight_class(b"light"), 300);
    assert_eq!(weight_class(b"regular"), 400);
    assert_eq!(weight_class(b"medium"), 500);
    assert_eq!(weight_class(b"semibold"), 600);
    assert_eq!(weight_class(b"semi-bold"), 600);
    assert_eq!(weight_class(b"demi-bold"), 600);
    assert_eq!(weight_class(b"demibold"), 600);
    assert_eq!(weight_class(b"bold"), 700);
    assert_eq!(weight_class(b"extrabold"), 800);
    assert_eq!(weight_class(b"extra-bold"), 800);
    assert_eq!(weight_class(b"ultrabold"), 800);
    assert_eq!(weight_class(b"ultra-bold"), 800);
    assert_eq!(weight_class(b"black"), 900);
    assert_eq!(weight_class(b"heavy"), 900);
}

#[test]
fn weight_class_defaults_to_regular() {
    assert_eq!(weight_class(b"oblique"), 400);
    assert_eq!(weight_class(b""), 400);
    assert_eq!(weight_class(b"Bold"), 400);
}

#[test]
fn fg_column_range_finds_extremes() {
    // 3 wide, 2 tall; foreground in columns 1 and 2
    let grid = vec![0u8, 9, 0, 0, 1, 4];
    assert_eq!(fg_column_range(&grid, 3, 2), Some((1, 2)));
    let empty = vec![0u8; 6];
    assert_eq!(fg_column_range(&empty, 3, 2), None);
    let full = vec![1u8; 6];
    assert_eq!(fg_column_range(&full, 3, 2), Some((0, 2)));
}

#[test]
fn glyph_metric_with_and_without_trim() {
    // trimming off: full cell width
    assert_eq!(glyph_metric(false, 1, Some((2, 5)), 16, 16, 10), (160, 20));
    // trimming on: span of columns 2..=5 plus one pad column
    assert_eq!(glyph_metric(true, 1, Some((2, 5)), 16, 16, 10), (50, 20));
    // a taller cell stretches the advance by the aspect step
    assert_eq!(glyph_metric(true, 1, Some((2, 5)), 16, 32, 10), (100, 20));
    // no foreground at all
    assert_eq!(glyph_metric(true, 1, None, 16, 16, 10), (0, 0));
}

#[test]
fn path_stats_counts_points_and_contours() {
    let square = vec![
        Point { x: 0, y: 0 },
        Point { x: 0, y: 1 },
        Point { x: 1, y: 1 },
        Point { x: 1, y: 0 },
        Point { x: 0, y: 0 },
    ];
    let tri = vec![
        Point { x: 0, y: 0 },
        Point { x: 2, y: 0 },
        Point { x: 2, y: 2 },
        Point { x: 0, y: 0 },
    ];
    let paths = vec![square, Vec::new(), tri];
    assert_eq!(path_stats(&paths), (7, 2));
}
