use fip_rank::add_rank_history;
use fip_rank::records::Player;

fn mk(name: &str, country: &str, points: i16, position: i16) -> Player {
    Player::new(name.to_string(), country.to_string(), points, position)
}

#[test]
fn merge_appends_history_and_computes_deltas() {
    let mut current = vec![mk("A", "ESP", 100, 5)];
    let prior = vec![mk("A", "ESP", 90, 8)];
    add_rank_history(&mut current, &prior, "2023-09-11");
    let p = &current[0];
    assert_eq!(p.rank_history.0.len(), 1);
    assert_eq!(p.rank_history.0[0].date, "2023-09-11");
    assert_eq!(p.rank_history.0[0].points, 90);
    assert_eq!(p.rank_history.0[0].position, 8);
    assert_eq!(p.points_change.0, Some(10));
    assert_eq!(p.position_change.0, Some(3));
}

#[test]
fn merge_leaves_unmatched_records_untouched() {
    let mut current = vec![mk("A", "ESP", 100, 5), mk("B", "USA", 50, 9)];
    let prior = vec![mk("A", "ESP", 90, 8)];
    add_rank_history(&mut current, &prior, "2023-09-11");
    assert_eq!(current[0].rank_history.0.len(), 1);
    let b = &current[1];
    assert!(b.rank_history.0.is_empty());
    assert!(b.points_change.0.is_none());
    assert!(b.position_change.0.is_none());
}

#[test]
fn merge_matches_first_prior_record_on_duplicates() {
    let mut current = vec![mk("A", "ESP", 100, 5)];
    let prior = vec![mk("A", "ESP", 70, 2), mk("A", "ESP", 90, 8)];
    add_rank_history(&mut current, &prior, "prev");
    assert_eq!(current[0].rank_history.0[0].points, 70);
    assert_eq!(current[0].points_change.0, Some(30));
    assert_eq!(current[0].position_change.0, Some(-3));
}

#[test]
fn merge_twice_grows_history_and_overwrites_deltas() {
    let mut current = vec![mk("A", "ESP", 100, 5)];
    let older = vec![mk("A", "ESP", 90, 8)];
    let newer = vec![mk("A", "ESP", 120, 2)];
    add_rank_history(&mut current, &older, "first");
    add_rank_history(&mut current, &newer, "second");
    let p = &current[0];
    // the history grows monotonically, oldest merge first
    assert_eq!(p.rank_history.0.len(), 2);
    assert_eq!(p.rank_history.0[0].date, "first");
    assert_eq!(p.rank_history.0[1].date, "second");
    // the deltas reflect only the most recent merge, not a cumulative trend
    assert_eq!(p.points_change.0, Some(-20));
    assert_eq!(p.position_change.0, Some(-3));
}

#[test]
fn negative_delta_directions() {
    // losing points and dropping in rank both show as negative deltas
    let mut current = vec![mk("A", "ESP", 80, 9)];
    let prior = vec![mk("A", "ESP", 90, 5)];
    add_rank_history(&mut current, &prior, "prev");
    assert_eq!(current[0].points_change.0, Some(-10));
    assert_eq!(current[0].position_change.0, Some(-4));
}
