use fip_rank::normalize;
use fip_rank::parse_table;
use fip_rank::LoadError;
use fip_rank::ParseError;

const HEADER: &str = "Name Countries Points Position";

#[test]
fn normalize_builds_delimited_document() {
    let input = format!("{}\nJohn Doe   ESP 1200 3\nJane Roe   USA 900 7", HEADER);
    let doc = normalize(&input, 3).unwrap();
    assert_eq!(
        doc,
        "Name,Countries,Points,Position\r\nJohn Doe,ESP,1200,3\r\nJane Roe,USA,900,7"
    );
}

#[test]
fn normalize_injects_empty_country_for_two_tokens() {
    let input = format!("{}\nJohn Doe   1200 3", HEADER);
    let doc = normalize(&input, 3).unwrap();
    assert_eq!(doc, "Name,Countries,Points,Position\r\nJohn Doe,,1200,3");
}

#[test]
fn normalize_keeps_other_token_counts_unchanged() {
    // four trailing tokens are not repaired; the row is left too wide and
    // the later load rejects it
    let input = format!("{}\nJohn Doe   ESP X 1200 3", HEADER);
    let doc = normalize(&input, 3).unwrap();
    assert_eq!(doc, "Name,Countries,Points,Position\r\nJohn Doe,ESP,X,1200,3");
    assert_eq!(parse_table(&doc).unwrap_err(), LoadError::RowWidth);
}

#[test]
fn normalize_repairs_names_but_not_header() {
    let input = "Name Countries Points Position\nPe\u{c3}\u{b1}a   ESP 10 1";
    let doc = normalize(input, 3).unwrap();
    assert_eq!(doc, "Name,Countries,Points,Position\r\nPe\u{f1}a,ESP,10,1");
}

#[test]
fn normalize_rejects_empty_input() {
    assert_eq!(normalize("", 3), Err(ParseError::MissingHeader));
}

#[test]
fn normalize_rejects_line_without_separator() {
    let input = format!("{}\nJohnDoe ESP 1200 3", HEADER);
    assert_eq!(normalize(&input, 3), Err(ParseError::MalformedLine));
    // one trailing newline is not a data line, but an empty line is
    let trailing = format!("{}\n", HEADER);
    assert_eq!(normalize(&trailing, 3).unwrap(), "Name,Countries,Points,Position");
    let empty_line = format!("{}\n\n", HEADER);
    assert_eq!(normalize(&empty_line, 3), Err(ParseError::MalformedLine));
}

#[test]
fn two_space_separator_is_configurable() {
    // the separator width is a tunable: some snapshots used two spaces
    let input = format!("{}\nJohn Doe  ESP 1200 3", HEADER);
    let doc = normalize(&input, 2).unwrap();
    assert_eq!(doc, "Name,Countries,Points,Position\r\nJohn Doe,ESP,1200,3");
}

#[test]
fn end_to_end_single_line() {
    // one line through the two-space tokenizer, all the way to a record
    let input = format!("{}\nJohn Doe  ESP 1200 3", HEADER);
    let doc = normalize(&input, 2).unwrap();
    let players = parse_table(&doc).unwrap();
    assert_eq!(players.len(), 1);
    assert_eq!(players[0].name, "John Doe");
    assert_eq!(players[0].country, "ESP");
    assert_eq!(players[0].points, 1200);
    assert_eq!(players[0].position, 3);
    assert!(players[0].rank_history.0.is_empty());
    assert!(players[0].points_change.0.is_none());
    assert!(players[0].position_change.0.is_none());
}

#[test]
fn round_trip_preserves_tuples() {
    let input = format!(
        "{}\nPe\u{c3}\u{b1}a   ESP 1200 3\nJane Roe   900 7\nAl Smith   USA -5 210",
        HEADER
    );
    let doc = normalize(&input, 3).unwrap();
    let players = parse_table(&doc).unwrap();
    let tuples: Vec<(String, String, i16, i16)> = players
        .iter()
        .map(|p| (p.name.clone(), p.country.clone(), p.points, p.position))
        .collect();
    assert_eq!(
        tuples,
        vec![
            ("Pe\u{f1}a".to_string(), "ESP".to_string(), 1200, 3),
            ("Jane Roe".to_string(), "".to_string(), 900, 7),
            ("Al Smith".to_string(), "USA".to_string(), -5, 210),
        ]
    );
}

#[test]
fn load_accepts_title_alias_for_name() {
    let doc = "Title,Countries,Points,Position\r\nJohn,ESP,10,2";
    let players = parse_table(doc).unwrap();
    assert_eq!(players[0].name, "John");
}

#[test]
fn load_maps_columns_by_header_name() {
    let doc = "Points,Name,Position,Countries\r\n10,John,2,ESP";
    let players = parse_table(doc).unwrap();
    assert_eq!(players[0].name, "John");
    assert_eq!(players[0].country, "ESP");
    assert_eq!(players[0].points, 10);
    assert_eq!(players[0].position, 2);
}

#[test]
fn load_rejects_missing_column() {
    let doc = "Name,Points,Position\r\nJohn,10,2";
    assert_eq!(parse_table(doc).unwrap_err(), LoadError::MissingColumn);
}

#[test]
fn load_rejects_bad_number() {
    let doc = "Name,Countries,Points,Position\r\nJohn,ESP,abc,2";
    assert_eq!(parse_table(doc).unwrap_err(), LoadError::BadNumber);
    let doc2 = "Name,Countries,Points,Position\r\nJohn,ESP,10,1 2";
    assert_eq!(parse_table(doc2).unwrap_err(), LoadError::BadNumber);
}

#[test]
fn load_aborts_whole_load_on_first_bad_row() {
    let doc = "Name,Countries,Points,Position\r\nJohn,ESP,10,2\r\nBad,ESP,x,1\r\nOk,USA,5,9";
    assert_eq!(parse_table(doc).unwrap_err(), LoadError::BadNumber);
}

#[test]
fn load_of_header_only_is_empty() {
    let players = parse_table("Name,Countries,Points,Position").unwrap();
    assert!(players.is_empty());
    assert!(parse_table("").unwrap().is_empty());
}

#[test]
fn load_agrees_with_csv_reader() {
    // the verified loader sees the same fields as a conventional reader
    let input = format!("{}\nPe\u{c3}\u{b1}a   ESP 1200 3\nJane Roe   USA 900 7", HEADER);
    let doc = normalize(&input, 3).unwrap();
    let players = parse_table(&doc).unwrap();

    let mut rdr = csv::ReaderBuilder::new().from_reader(doc.as_bytes());
    let headers = rdr.headers().unwrap().clone();
    assert_eq!(headers, vec!["Name", "Countries", "Points", "Position"]);
    let records: Vec<csv::StringRecord> = rdr.records().map(|r| r.unwrap()).collect();
    assert_eq!(records.len(), players.len());
    for (rec, p) in records.iter().zip(players.iter()) {
        assert_eq!(&rec[0], p.name.as_str());
        assert_eq!(&rec[1], p.country.as_str());
        assert_eq!(rec[2].parse::<i16>().unwrap(), p.points);
        assert_eq!(rec[3].parse::<i16>().unwrap(), p.position);
    }
}
