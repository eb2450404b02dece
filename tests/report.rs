use std::collections::HashSet;

use csv_gp::cell::Cell;
use csv_gp::checker::{check_file, check_rows, check_text, is_valid_delimiter, valid_subset};
use csv_gp::csv_details::CSVDetails;
use csv_gp::error::{CSVError, UnknownEncoding};
use csv_gp::parser::{has_open_quotes, parse_cells, parse_file, split_rows, CSVReader};

fn set(v: &[usize]) -> HashSet<usize> {
    v.iter().copied().collect()
}

#[test]
fn column_count_mismatch_is_reported() {
    let d = check_text("a,b\n1,2\n3,4,5\n", ",");
    assert_eq!(d.column_count, 2);
    assert_eq!(d.row_count, 3);
    assert_eq!(d.too_many_columns, vec![2]);
    assert_eq!(d.too_few_columns, Vec::<usize>::new());
    assert_eq!(d.column_count_per_line, vec![2, 2, 3]);
    assert_eq!(d.valid_rows, set(&[0, 1]));
}

#[test]
fn quoted_delimiter_stays_in_cell() {
    let rows = CSVReader::new("a,b\n\"x,y\",2\n", ',').into_lines();
    assert_eq!(rows[1][0], Cell::new("\"x,y\""));
    let d = check_text("a,b\n\"x,y\",2\n", ",");
    assert_eq!(d.quoted_delimiter, vec![1]);
    assert_eq!(d.incorrect_cell_quote, Vec::<usize>::new());
    assert_eq!(d.valid_rows, set(&[0, 1]));
}

#[test]
fn quoted_newline_keeps_row_whole() {
    let rows = CSVReader::new("a,b\n\"x\ny\",2\n", ',').into_lines();
    assert_eq!(rows.len(), 2);
    assert_eq!(rows[1], vec![Cell::new("\"x\ny\""), Cell::new("2")]);
    let d = check_text("a,b\n\"x\ny\",2\n", ",");
    assert_eq!(d.quoted_newline, vec![1]);
    assert_eq!(d.valid_rows, set(&[0, 1]));
}

#[test]
fn dangling_quote_ends_the_text() {
    let rows = CSVReader::new("a,b\n\"bad\n", ',').into_lines();
    assert_eq!(rows, vec![vec![Cell::new("a"), Cell::new("b")], vec![Cell::new("\"bad\n")]]);
    assert!(!rows[1][0].correctly_quoted());
    let d = check_text("a,b\n\"bad\n", ",");
    assert_eq!(d.incorrect_cell_quote, vec![1]);
    assert_eq!(d.too_few_columns, vec![1]);
}

#[test]
fn empty_cells_row_is_not_compared() {
    let d = check_text("a,b\n,\n", ",");
    assert_eq!(d.all_empty_rows, vec![1]);
    assert_eq!(d.row_count, 1);
    assert_eq!(d.too_few_columns, Vec::<usize>::new());
    assert_eq!(d.too_many_columns, Vec::<usize>::new());
    assert_eq!(d.valid_rows, set(&[0]));
}

#[test]
fn valid_subset_keeps_valid_rows_in_order() {
    let rows = CSVReader::new("a,b\n1,2\n3,4,5\n", ',').into_lines();
    let d = check_rows(&rows, ",");
    let kept = valid_subset(&rows, &d);
    assert_eq!(
        kept,
        vec![vec![Cell::new("a"), Cell::new("b")], vec![Cell::new("1"), Cell::new("2")]]
    );
}

#[test]
fn valid_subset_keeps_raw_quotes() {
    let rows = CSVReader::new("a,b\ninvalid\n\"\"\"quoted\"\"\",row", ',').into_lines();
    let d = check_rows(&rows, ",");
    assert_eq!(d.valid_rows, set(&[0, 2]));
    let kept = valid_subset(&rows, &d);
    assert_eq!(kept[1], vec![Cell::new("\"\"\"quoted\"\"\""), Cell::new("row")]);
}

#[test]
fn unquoted_cells_are_correct() {
    for t in ["", "plain", " spaced ", "a,b", "line\nbreak"] {
        assert!(Cell::new(t).correctly_quoted());
    }
}

#[test]
fn quoting_rule_cases() {
    assert!(Cell::new("\"\"").correctly_quoted());
    assert!(!Cell::new("\"").correctly_quoted());
    assert!(!Cell::new("\"a\"\"\"\"\"b\"\"\"").correctly_quoted());
    assert!(!Cell::new("\"a\"b\"").correctly_quoted());
    assert!(Cell::new("\t\"a\"\"b\"\n").correctly_quoted());
}

#[test]
fn well_formed_cells_pass_after_split() {
    let cells = parse_cells("\"a,b\",plain,\"say \"\"hi\"\"\",\"\"", ',');
    assert_eq!(cells.len(), 4);
    for c in &cells {
        assert!(c.correctly_quoted());
    }
}

#[test]
fn joined_cells_split_back() {
    let original = vec!["x", "", "y z", "last"];
    let joined = original.join(";");
    let cells = parse_cells(&joined, ';');
    let back: Vec<Cell> = original.iter().map(|s| Cell::new(s)).collect();
    assert_eq!(cells, back);
}

#[test]
fn single_empty_cell_joins_to_no_cell() {
    assert_eq!(parse_cells("", ','), Vec::<Cell>::new());
}

fn same_report(a: &CSVDetails, b: &CSVDetails) -> bool {
    a.row_count == b.row_count
        && a.column_count == b.column_count
        && a.invalid_character_count == b.invalid_character_count
        && a.too_few_columns == b.too_few_columns
        && a.too_many_columns == b.too_many_columns
        && a.column_count_per_line == b.column_count_per_line
        && a.quoted_delimiter == b.quoted_delimiter
        && a.quoted_newline == b.quoted_newline
        && a.quoted_quote == b.quoted_quote
        && a.quoted_quote_correctly == b.quoted_quote_correctly
        && a.incorrect_cell_quote == b.incorrect_cell_quote
        && a.all_empty_rows == b.all_empty_rows
        && a.blank_rows == b.blank_rows
        && a.valid_rows == b.valid_rows
}

#[test]
fn folding_twice_gives_the_same_report() {
    let text = "h1,h2,h3\n\"a\"\"b\",c\n,,\nx,\"y\nz\",w\n\"q,r\",s,t,u\n";
    let rows = CSVReader::new(text, ',').into_lines();
    let a = check_rows(&rows, ",");
    let b = check_rows(&rows, ",");
    assert!(same_report(&a, &b));
    assert_eq!(a.report(), b.report());
}

#[test]
fn valid_rows_are_disjoint_from_problems() {
    let text = "h1,h2\n1,2\n1\n1,2,3\nx,ba\"d\n,\n\"ok\",\"fine\"\n";
    let d = check_text(text, ",");
    for i in &d.valid_rows {
        assert!(!d.too_few_columns.contains(i));
        assert!(!d.too_many_columns.contains(i));
        assert!(!d.incorrect_cell_quote.contains(i));
        assert!(!d.all_empty_rows.contains(i));
    }
    assert_eq!(d.valid_rows, set(&[0, 1, 6]));
}

#[test]
fn header_messed_up_cases() {
    let d = check_text("a,b,c\n1,2\n1,2,3,4\n", ",");
    assert!(d.header_messed_up());
    let d = check_text("a,b\n1,2\n1\n", ",");
    assert!(!d.header_messed_up());
    let d = CSVDetails::new();
    assert!(!d.header_messed_up());
}

#[test]
fn report_of_single_row() {
    let d = check_text("a,b\n", ",");
    assert!(d.header_messed_up());
    assert_eq!(d.report(), "There is only one row in the file.");
}

#[test]
fn report_of_single_column() {
    let d = check_text("a\nb\nc\n", ",");
    assert_eq!(
        d.report(),
        "There is 1 columns in the file, so the delimiter is almost surely wrong."
    );
}

#[test]
fn report_full_summary() {
    let d = check_text("a,b\n1,2\n3,4,5\n\"x,y\",\"\"\"q\"\"\"\n,\n", ",");
    assert_eq!(
        d.report(),
        "There are 4 (3 of which are valid) rows in the file (including header), with 2 columns (according to the header).\n\
There are 1 rows with too many columns, and 0 rows with too few columns.\n\
There are 1 rows where all the cells are empty.\n\
There are 1 lines with correctly quoted delimiter.\n\
There are no rows with correctly quoted newline.\n\
There are 1 lines with correctly quoted quote, out of that 1 are absolutely correct.\n\
There are no rows with incorrect cell quotes.\n"
    );
}

#[test]
fn report_large_counts() {
    let mut text = String::from("a,b\n");
    for i in 0..123 {
        text.push_str(&format!("{},{}\n", i, i));
    }
    let d = check_text(&text, ",");
    assert!(d.report().starts_with("There are 124 (124 of which are valid) rows"));
}

#[test]
fn delimiter_must_be_one_byte() {
    assert!(is_valid_delimiter(","));
    assert!(is_valid_delimiter(";"));
    assert!(!is_valid_delimiter(""));
    assert!(!is_valid_delimiter(",,"));
    assert!(!is_valid_delimiter("é"));
    match check_file(b"a,b\n", "", "utf-8") {
        Err(CSVError::InvalidDelimiter(s)) => assert_eq!(s, ""),
        other => panic!("unexpected {:?}", other),
    }
    match check_file(b"a,b\n", "é", "utf-8") {
        Err(CSVError::InvalidDelimiter(s)) => assert_eq!(s, "é"),
        other => panic!("unexpected {:?}", other),
    }
}

#[test]
fn unknown_encoding_is_refused() {
    match check_file(b"a,b\n", ",", "no-such-encoding") {
        Err(CSVError::UnknownEncoding(UnknownEncoding::Encoding(e))) => {
            assert_eq!(e, "no-such-encoding")
        }
        other => panic!("unexpected {:?}", other),
    }
    match parse_file(b"a", ',', "bogus") {
        Err(CSVError::UnknownEncoding(UnknownEncoding::Encoding(e))) => assert_eq!(e, "bogus"),
        other => panic!("unexpected {:?}", other),
    }
}

#[test]
fn decoding_follows_the_encoding() {
    let rows = parse_file(b"caf\xe9,x\n", ',', "windows-1252").unwrap();
    assert_eq!(rows, vec![vec![Cell::new("café"), Cell::new("x")]]);
    let rows = parse_file(b"caf\xc3\xa9,x\n", ',', "UTF-8").unwrap();
    assert_eq!(rows, vec![vec![Cell::new("café"), Cell::new("x")]]);
}

#[test]
fn undecodable_bytes_are_counted() {
    let d = check_file(b"a,b\n\xff,\xfe\xfe\n", ",", "utf-8").unwrap();
    assert_eq!(d.invalid_character_count, 3);
    assert_eq!(d.row_count, 2);
    assert_eq!(Cell::new("x\u{FFFD}y\u{FFFD}").invalid_character_count(), 2);
}

#[test]
fn cell_emptiness_and_search() {
    assert!(Cell::new("").is_empty());
    assert!(Cell::new("\"\"").is_empty());
    assert!(!Cell::new(" ").is_empty());
    assert!(!Cell::new("\"\"\"\"").is_empty());
    assert!(Cell::new("ab\"\"cd").contains("\"\""));
    assert!(!Cell::new("ab\"cd").contains("\"\""));
    assert!(Cell::new("abc").contains(""));
    assert!(!Cell::new("ab").contains("abc"));
}

#[test]
fn doubled_quote_next_to_delimiter() {
    assert!(!has_open_quotes("a,\"\",b", ','));
    assert!(!has_open_quotes("a,\"\"", ','));
    assert!(!has_open_quotes("\"\",\"\"", ','));
    assert!(has_open_quotes("a,\"\"\",b", ','));
    assert!(has_open_quotes("a;\"x", ';'));
    assert!(!has_open_quotes("a,\"x", ';'));
}

#[test]
fn carriage_returns_and_blank_lines() {
    assert_eq!(split_rows("a,b\r\r\n\r\nc,d\r", ","), vec!["a,b", "", "c,d"]);
    let rows = CSVReader::new("a,b\n\nc,d", ',').into_lines();
    assert_eq!(rows[1], Vec::<Cell>::new());
    let d = check_rows(&rows, ",");
    assert_eq!(d.all_empty_rows, vec![1]);
    assert_eq!(d.row_count, 2);
}

#[test]
fn well_formed_text_reads_back() {
    let text = "id,\"note\"\n1,\"two\nlines, and \"\"quotes\"\"\"\n\"\",plain\n\n\"\"\"\"\"\",\"a\nb\nc\"\n";
    let rows = CSVReader::new(text, ',').into_lines();
    assert_eq!(
        rows,
        vec![
            vec![Cell::new("id"), Cell::new("\"note\"")],
            vec![Cell::new("1"), Cell::new("\"two\nlines, and \"\"quotes\"\"\"")],
            vec![Cell::new("\"\""), Cell::new("plain")],
            vec![],
            vec![Cell::new("\"\"\"\"\"\""), Cell::new("\"a\nb\nc\"")],
        ]
    );
    for row in &rows {
        for c in row {
            assert!(c.correctly_quoted());
        }
    }
}

#[test]
fn get_rows_numbers_the_chosen_rows() {
    let rows = CSVReader::new("a,b\nc,d\n\"e\",f\n", ',').into_lines();
    let chosen = csv_gp::checker::get_rows(&rows, &set(&[0, 2, 7]));
    assert_eq!(
        chosen,
        vec![
            (0, vec!["a".to_string(), "b".to_string()]),
            (2, vec!["\"e\"".to_string(), "f".to_string()]),
        ]
    );
}
