use egostats::parse::{parse_edge_line, split_tokens};

#[test]
fn test_split_tokens_basic() {
    let toks = split_tokens(&b"  alice   bob ".to_vec());
    assert_eq!(toks, vec![b"alice".to_vec(), b"bob".to_vec()]);
}

#[test]
fn test_split_tokens_empty_and_blank() {
    assert_eq!(split_tokens(&b"".to_vec()), Vec::<Vec<u8>>::new());
    assert_eq!(split_tokens(&b" \t  ".to_vec()), Vec::<Vec<u8>>::new());
}

#[test]
fn test_parse_edge_line_token_counts() {
    assert_eq!(
        parse_edge_line(&b"1 2".to_vec()),
        Some((b"1".to_vec(), b"2".to_vec()))
    );
    assert_eq!(parse_edge_line(&b"5".to_vec()), None);
    assert_eq!(parse_edge_line(&b"6 7 8".to_vec()), None);
    assert_eq!(parse_edge_line(&b"".to_vec()), None);
}
