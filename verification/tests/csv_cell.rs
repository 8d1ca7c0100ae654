use vibrato::utils::quote_csv_cell;

#[test]
fn quote_csv_cell_plain() {
    assert_eq!(quote_csv_cell(b"abc"), b"abc".to_vec());
}

#[test]
fn quote_csv_cell_comma() {
    assert_eq!(quote_csv_cell(b"a,b"), b"\"a,b\"".to_vec());
}

#[test]
fn quote_csv_cell_quotes_doubled() {
    assert_eq!(quote_csv_cell(b"say \"hi\""), b"\"say \"\"hi\"\"\"".to_vec());
}

#[test]
fn quote_csv_cell_newline() {
    assert_eq!(quote_csv_cell(b"a\nb"), b"\"a\nb\"".to_vec());
}

#[test]
fn quote_csv_cell_empty() {
    assert_eq!(quote_csv_cell(b""), b"\"\"".to_vec());
}
