//! Verified core of a ranking-list tracker: repairs mojibake in names,
//! tokenizes semi-structured ranking lines, normalizes them into a
//! comma-delimited table, loads that table back into typed records,
//! merges successive snapshots into per-record histories with signed
//! deltas, and aggregates records by country.

pub mod countries;
pub mod merge;
pub mod normalize;
pub mod numbers;
pub mod records;
pub mod repair;
pub mod rows;
pub mod table;
pub mod text;
pub mod tokenize;

pub use countries::get_all_countries;
pub use countries::get_top_countries;
pub use merge::add_rank_history;
pub use normalize::normalize;
pub use normalize::ParseError;
pub use records::DisplayOption;
pub use records::Player;
pub use records::PlayerData;
pub use records::RankHistory;
pub use records::RankHistoryDisplay;
pub use repair::error_names;
pub use table::parse_table;
pub use table::LoadError;
