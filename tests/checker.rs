use csv_gp::cell::Cell;
use csv_gp::checker::check_row;
use csv_gp::csv_details::CSVDetails;

#[test]
fn test_too_many_columns() {
    let mut csv_details = CSVDetails::new();
    csv_details.column_count = 2;

    check_row(
        &mut csv_details,
        &vec![Cell::new("test"), Cell::new("row")],
        ",",
        0,
    );
    check_row(
        &mut csv_details,
        &vec![Cell::new("test"), Cell::new("row"), Cell::new("extra")],
        ",",
        1,
    );

    assert_eq!(csv_details.too_many_columns, vec![1])
}

#[test]
fn test_too_few_columns() {
    let mut csv_details = CSVDetails::new();
    csv_details.column_count = 2;

    check_row(
        &mut csv_details,
        &vec![Cell::new("test"), Cell::new("row")],
        ",",
        0,
    );
    check_row(&mut csv_details, &vec![Cell::new("test")], ",", 1);

    assert_eq!(csv_details.too_few_columns, vec![1])
}

#[test]
fn test_all_correctly_quoted() {
    let mut csv_details = CSVDetails::new();

    check_row(&mut csv_details, &vec![Cell::new("test")], ",", 0);
    check_row(&mut csv_details, &vec![Cell::new("\"test")], ",", 1);

    assert_eq!(csv_details.incorrect_cell_quote, vec![1])
}

#[test]
fn checker_test_quoted_quote() {
    let mut csv_details = CSVDetails::new();

    check_row(&mut csv_details, &vec![Cell::new("test")], ",", 0);
    check_row(&mut csv_details, &vec![Cell::new("\"\"test")], ",", 1);
    check_row(&mut csv_details, &vec![Cell::new("\"\"\"test\"")], ",", 2);

    assert_eq!(csv_details.quoted_quote, vec![1, 2]);
    assert_eq!(csv_details.quoted_quote_correctly, vec![2]);
}

#[test]
fn checker_test_quoted_newline() {
    let mut csv_details = CSVDetails::new();

    check_row(&mut csv_details, &vec![Cell::new("test")], ",", 0);
    check_row(&mut csv_details, &vec![Cell::new("\"test\n\"")], ",", 1);

    assert_eq!(csv_details.quoted_newline, vec![1]);
}

#[test]
fn checker_test_quoted_delimiter() {
    let mut csv_details = CSVDetails::new();

    check_row(&mut csv_details, &vec![Cell::new("test")], ",", 0);
    check_row(&mut csv_details, &vec![Cell::new("\"test,\"")], ",", 1);

    assert_eq!(csv_details.quoted_delimiter, vec![1]);
}

#[test]
fn test_all_empty() {
    let mut csv_details = CSVDetails::new();

    check_row(
        &mut csv_details,
        &vec![Cell::new("test"), Cell::new("")],
        ",",
        0,
    );
    check_row(
        &mut csv_details,
        &vec![Cell::new(""), Cell::new("\"\"")],
        ",",
        1,
    );

    assert_eq!(csv_details.all_empty_rows, vec![1]);
    assert_eq!(csv_details.row_count, 1);
    assert_eq!(csv_details.too_few_columns, vec![]);
}
