use fip_rank::records::DisplayOption;
use fip_rank::records::RankHistory;
use fip_rank::records::RankHistoryDisplay;
use fip_rank::numbers::parse_i16;

#[test]
fn display_option_renders_with_explicit_plus() {
    assert_eq!(DisplayOption(Some(10)).render(), "+10");
    assert_eq!(DisplayOption(Some(-5)).render(), "-5");
    assert_eq!(DisplayOption(Some(0)).render(), "0");
    assert_eq!(DisplayOption::<i32>(None).render(), "-");
    assert_eq!(DisplayOption(Some(2147483647)).render(), "+2147483647");
    assert_eq!(DisplayOption(Some(-2147483648)).render(), "-2147483648");
}

#[test]
fn rank_history_renders_all_entries() {
    let hs = RankHistoryDisplay(vec![
        RankHistory { date: "2023-09-11".to_string(), points: 90, position: 8 },
        RankHistory { date: "2023-10-02".to_string(), points: -3, position: 12 },
    ]);
    assert_eq!(
        hs.render(),
        "Previous: 2023-09-11, Points: 90, Position: 8\
         Previous: 2023-10-02, Points: -3, Position: 12"
    );
    assert_eq!(RankHistoryDisplay(Vec::new()).render(), "");
}

fn parse(s: &str) -> Option<i16> {
    parse_i16(&s.chars().collect())
}

#[test]
fn parse_i16_accepts_signed_decimals() {
    assert_eq!(parse("1200"), Some(1200));
    assert_eq!(parse("-5"), Some(-5));
    assert_eq!(parse("+7"), Some(7));
    assert_eq!(parse("0"), Some(0));
    assert_eq!(parse("32767"), Some(32767));
    assert_eq!(parse("-32768"), Some(-32768));
}

#[test]
fn parse_i16_rejects_junk_and_overflow() {
    assert_eq!(parse(""), None);
    assert_eq!(parse("-"), None);
    assert_eq!(parse("+"), None);
    assert_eq!(parse("12a"), None);
    assert_eq!(parse(" 12"), None);
    assert_eq!(parse("32768"), None);
    assert_eq!(parse("-32769"), None);
    assert_eq!(parse("99999999999999999999"), None);
}
