use clir::display::{chars_count, format_pattern, to_humanreadable, SizeUnit};
use clir::path::SegPath;

#[test]
fn humanreadable_sizes() {
    assert_eq!(to_humanreadable(0), "");
    assert_eq!(to_humanreadable(1), "1");
    assert_eq!(to_humanreadable(999), "999");
    assert_eq!(to_humanreadable(1000), "1K");
    assert_eq!(to_humanreadable(1500), "1K");
    assert_eq!(to_humanreadable(1024), "1K");
    assert_eq!(to_humanreadable(2_000_000), "2M");
    assert_eq!(to_humanreadable(3_000_000_000), "3G");
    assert_eq!(to_humanreadable(4_000_000_000_000), "4T");
    // Beyond terabytes the value is printed bare.
    assert_eq!(to_humanreadable(5_000_000_000_000_000), "5");
}

#[test]
fn size_unit_binary_rendering() {
    assert_eq!(SizeUnit::new(0, true).display_string(), "0B");
    assert_eq!(SizeUnit::new(512, true).display_string(), "512B");
    assert_eq!(SizeUnit::new(1024, true).display_string(), "1.00KiB");
    assert_eq!(SizeUnit::new(2048, true).display_string(), "2.00KiB");
    assert_eq!(SizeUnit::new(4096, true).display_string(), "4.00KiB");
    assert_eq!(SizeUnit::new(46080, true).display_string(), "45.0KiB");
    assert_eq!(SizeUnit::new(102400, true).display_string(), "100KiB");
    assert_eq!(SizeUnit::new(1024 * 1024, true).display_string(), "1.00MiB");
    assert_eq!(
        SizeUnit::new(3 * 1024 * 1024 * 1024, true).display_string(),
        "3.00GiB"
    );
}

#[test]
fn size_unit_decimal_rendering() {
    assert_eq!(SizeUnit::new(999, false).display_string(), "999B");
    assert_eq!(SizeUnit::new(2000, false).display_string(), "2.00KB");
    assert_eq!(SizeUnit::new(5_000_000, false).display_string(), "5.00MB");
    assert_eq!(SizeUnit::new(7_000_000_000, false).display_string(), "7.00GB");
}

#[test]
fn size_unit_tera_gap() {
    // Four reductions map to no unit letter at all — only five read as
    // tera — so terabyte-scale values come back as a bare byte count.
    let tb = 1024u64 * 1024 * 1024 * 1024;
    assert_eq!(SizeUnit::new(tb, true).display_string(), "1B");
    let pb = tb * 1024;
    assert_eq!(SizeUnit::new(pb, true).display_string(), "1.00TiB");
}

#[test]
fn chars_count_skips_ansi_escapes() {
    assert_eq!(chars_count("hello"), 5);
    assert_eq!(chars_count(""), 0);
    // A colored "hi": the escape runs take no visible space.
    assert_eq!(chars_count("\x1b[31mhi\x1b[0m"), 2);
    assert_eq!(chars_count("[\x1b[32mok\x1b[0m]"), 4);
}

#[test]
fn format_pattern_relativizes_near_paths() {
    let w = SegPath::parse("/home/me/proj");
    assert_eq!(
        format_pattern(&SegPath::parse("/home/me/proj/target"), &w, false),
        "target"
    );
    assert_eq!(
        format_pattern(&SegPath::parse("/home/me/other/x"), &w, false),
        "../other/x"
    );
    assert_eq!(
        format_pattern(&SegPath::parse("/home/you/a"), &w, false),
        "../../you/a"
    );
    // More than two directories up: the absolute path is clearer.
    assert_eq!(
        format_pattern(&SegPath::parse("/srv/data"), &SegPath::parse("/home/me/a/b"), false),
        "/srv/data"
    );
    assert_eq!(
        format_pattern(&SegPath::parse("/home/me/proj/target"), &w, true),
        "/home/me/proj/target"
    );
}
