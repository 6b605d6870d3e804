use fip_rank::records::Player;
use fip_rank::repair::repair_chars;

fn repair(s: &str) -> String {
    repair_chars(&s.chars().collect()).into_iter().collect()
}

#[test]
fn repair_is_identity_on_clean_ascii() {
    assert_eq!(repair("John Doe"), "John Doe");
    assert_eq!(repair(""), "");
    assert_eq!(repair("A. B. Carpenter-Smith 123"), "A. B. Carpenter-Smith 123");
}

#[test]
fn repair_fixes_known_corruptions() {
    // "Pe\u{c3}\u{b1}a" is the double-encoded form of "Pe\u{f1}a".
    assert_eq!(repair("Pe\u{c3}\u{b1}a"), "Pe\u{f1}a");
    assert_eq!(repair("Garc\u{c3}\u{a1}a"), "Garc\u{e1}a");
    assert_eq!(repair("M\u{c3}\u{b6}ller"), "M\u{f6}ller");
    // a single corrupted lead byte becomes an accented capital
    assert_eq!(repair("\u{c3}lvarez"), "\u{c1}lvarez");
    // the stray byte is dropped entirely
    assert_eq!(repair("A\u{c2}B"), "AB");
}

#[test]
fn repair_applies_rewrites_in_table_order() {
    // "\u{c5}\u{201e}" must be rewritten as a pair before any single-char rule.
    assert_eq!(repair("Ba\u{c5}\u{201e}ka"), "Ba\u{144}ka");
    assert_eq!(repair("\u{c5}\u{a1}"), "\u{161}");
    assert_eq!(repair("\u{c4}\u{b1}"), "\u{131}");
}

#[test]
fn repair_idempotent_when_output_is_clean() {
    let once = repair("Pe\u{c3}\u{b1}a G\u{c3}\u{b3}mez");
    let twice = repair(&once);
    assert_eq!(once, twice);
}

#[test]
fn repair_not_idempotent_when_output_still_corrupted() {
    // Dropping the stray byte manufactures a corrupted pair that only a
    // second pass rewrites: the corrected text still holds a table pattern.
    let once = repair("\u{c5}\u{c2}\u{201e}");
    assert_eq!(once, "\u{c5}\u{201e}");
    let twice = repair(&once);
    assert_eq!(twice, "\u{144}");
    assert_ne!(once, twice);
}

#[test]
fn repair_leaves_unknown_corruption_untouched() {
    // no table entry mentions this character, so it passes through
    assert_eq!(repair("X\u{d1}Y"), "X\u{d1}Y");
}

#[test]
fn error_names_lists_unreached_names_only() {
    let mk = |name: &str| Player::new(name.to_string(), "ESP".to_string(), 1, 1);
    let players = vec![
        mk("John Doe"),               // ASCII: not listed
        mk("Pe\u{f1}a"),              // holds a repaired glyph: not listed
        mk("X\u{d1}Y"),               // non-ASCII, no known glyph: listed
        mk("\u{c1}lvarez"),           // holds a repaired glyph: not listed
    ];
    let names = fip_rank::error_names(&players);
    assert_eq!(names, vec!["X\u{d1}Y".to_string()]);
}
