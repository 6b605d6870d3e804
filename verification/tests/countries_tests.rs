use fip_rank::get_all_countries;
use fip_rank::get_top_countries;
use fip_rank::records::Player;

fn mk(name: &str, country: &str) -> Player {
    Player::new(name.to_string(), country.to_string(), 1, 1)
}

fn sample() -> Vec<Player> {
    vec![
        mk("a", "ESP"),
        mk("b", "USA"),
        mk("c", "ESP"),
        mk("d", "ARG"),
        mk("e", "ESP"),
        mk("f", "USA"),
        mk("g", ""),
    ]
}

#[test]
fn all_countries_sorted_and_distinct() {
    let cs = get_all_countries(&sample());
    assert_eq!(cs, vec!["".to_string(), "ARG".to_string(), "ESP".to_string(), "USA".to_string()]);
    // strictly increasing: no duplicates, alphabetical order
    for w in cs.windows(2) {
        assert!(w[0] < w[1]);
    }
}

#[test]
fn all_countries_of_empty_snapshot_is_empty() {
    assert!(get_all_countries(&Vec::new()).is_empty());
}

#[test]
fn top_countries_orders_by_count_then_name() {
    let top = get_top_countries(&sample(), 10);
    // ESP has 3, USA 2, then the single-record countries alphabetically
    assert_eq!(
        top,
        vec!["ESP".to_string(), "USA".to_string(), "".to_string(), "ARG".to_string()]
    );
}

#[test]
fn top_countries_never_exceeds_limit() {
    let top = get_top_countries(&sample(), 2);
    assert_eq!(top, vec!["ESP".to_string(), "USA".to_string()]);
    let all = get_top_countries(&sample(), 10);
    assert!(all.len() <= 10);
    let cs = get_all_countries(&sample());
    for c in &all {
        assert!(cs.contains(c));
    }
}

#[test]
fn top_countries_zero_is_empty() {
    assert!(get_top_countries(&sample(), 0).is_empty());
}
