use kenken::parse::parse_matrix;

#[test]
fn test_parse_matrix_rows_and_tokens() {
    // the format embeds literal `\r\n` sequences between rows and stray
    // quotes around the block; empty rows and lone quotes are dropped
    let input = "  \"\\r\\n3 0\\r\\n0 4\\r\\n\\r\\n\"  ";
    let m = parse_matrix(input);
    assert_eq!(m, vec![vec!["3", "0"], vec!["0", "4"]]);
}

#[test]
fn test_parse_matrix_whitespace_runs() {
    let input = "1   22\t333\\r\\n  4  ";
    let m = parse_matrix(input);
    assert_eq!(m, vec![vec!["1", "22", "333"], vec!["4"]]);
}

#[test]
fn test_parse_matrix_empty_input() {
    let m = parse_matrix("   ");
    assert_eq!(m.len(), 0);
}
