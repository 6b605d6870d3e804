use fip_rank::tokenize::tokenize_line;

fn tok(line: &str, w: usize) -> Option<(String, Vec<String>)> {
    let chars: Vec<char> = line.chars().collect();
    tokenize_line(&chars, w).map(|(name, toks)| {
        (
            name.into_iter().collect(),
            toks.into_iter().map(|t| t.into_iter().collect()).collect(),
        )
    })
}

#[test]
fn three_tokens_pass_through_unchanged() {
    let (name, toks) = tok("John Doe   ESP 1200 3", 3).unwrap();
    assert_eq!(name, "John Doe");
    assert_eq!(toks, vec!["ESP", "1200", "3"]);
}

#[test]
fn two_tokens_gain_empty_country_in_front() {
    let (name, toks) = tok("John Doe   1200 3", 3).unwrap();
    assert_eq!(name, "John Doe");
    assert_eq!(toks, vec!["", "1200", "3"]);
}

#[test]
fn other_token_counts_pass_through_unchanged() {
    let (_, one) = tok("John Doe   1200", 3).unwrap();
    assert_eq!(one, vec!["1200"]);
    let (_, four) = tok("John Doe   ESP X 1200 3", 3).unwrap();
    assert_eq!(four, vec!["ESP", "X", "1200", "3"]);
    let (_, zero) = tok("John Doe   ", 3).unwrap();
    assert!(zero.is_empty());
}

#[test]
fn split_happens_at_first_separator_run() {
    let (name, toks) = tok("John   Doe   ESP", 3).unwrap();
    assert_eq!(name, "John");
    // the remainder has two tokens, so the empty country is injected too
    assert_eq!(toks, vec!["", "Doe", "ESP"]);
}

#[test]
fn longer_runs_count_as_separator() {
    let (name, toks) = tok("John Doe      ESP 1 2", 3).unwrap();
    assert_eq!(name, "John Doe");
    assert_eq!(toks, vec!["ESP", "1", "2"]);
}

#[test]
fn line_without_separator_is_rejected() {
    assert!(tok("JohnDoe ESP 1200 3", 3).is_none());
    assert!(tok("", 3).is_none());
    assert!(tok("a  b", 3).is_none());
}
