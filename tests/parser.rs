use csv_gp::cell::Cell;
use csv_gp::parser::{has_open_quotes, parse_cells, split_rows, CSVReader};

#[test]
fn parser_test_empty() {
    let input = "";

    assert!(!has_open_quotes(input, ','))
}

#[test]
fn parser_test_no_quotes() {
    let input = "asdfasdf";

    assert!(!has_open_quotes(input, ','))
}

#[test]
fn test_with_opened_quote() {
    let input = "\"asdfasdf";

    assert!(has_open_quotes(input, ','))
}

#[test]
fn test_with_closed_quote() {
    let input = "\"\"asdfasdf";

    assert!(!has_open_quotes(input, ','))
}

#[test]
fn test_two_quotes_middle() {
    let input = "\"asdf\"\"asdf";

    assert!(has_open_quotes(input, ','))
}

#[test]
fn test_two_quotes_end() {
    let input = "\"asdfasdf\"\"";

    assert!(has_open_quotes(input, ','))
}

#[test]
fn test_three_quotes_end() {
    let input = "\"asdfasdf\"\"\"";

    assert!(!has_open_quotes(input, ','))
}

#[test]
fn test_three_quotes_start() {
    let input = "\"\"\"asdfasdf";

    assert!(has_open_quotes(input, ','))
}

#[test]
fn test_only_three_quotes_start() {
    let input = "\"\"\"";

    assert!(has_open_quotes(input, ','))
}

#[test]
fn test_three_quotes_end_of_line() {
    let input = "X,\"\"\"";

    assert!(has_open_quotes(input, ','))
}

#[test]
fn test_just_delimiter_quotes() {
    let input = "d,e,\",\"";

    assert!(!has_open_quotes(input, ','));
}

#[test]
fn test_just_delimiter_open() {
    let input = "a,,\",";

    assert!(has_open_quotes(input, ','));
}

#[test]
fn parser_test_simple() {
    let input = "test,row\nnext,row\n";
    let result = CSVReader::new(input, ',')
        .into_lines();

    assert_eq!(
        result,
        vec![
            vec![Cell::new("test"), Cell::new("row")],
            vec![Cell::new("next"), Cell::new("row")],
        ]
    )
}

#[test]
fn test_strange_crlf() {
    let input = "test,\"row\"\r\r\nnext,row\r\r\n";
    let result = CSVReader::new(input, ',')
        .into_lines();

    assert_eq!(
        result,
        vec![
            vec![Cell::new("test"), Cell::new("\"row\"")],
            vec![Cell::new("next"), Cell::new("row")],
        ]
    )
}

#[test]
fn parser_test_no_trailing_newline() {
    let input = "test,row\nnext,row";
    let result = CSVReader::new(input, ',')
        .into_lines();

    assert_eq!(
        result,
        vec![
            vec![Cell::new("test"), Cell::new("row")],
            vec![Cell::new("next"), Cell::new("row")],
        ]
    )
}

#[test]
fn parser_test_quoted_newline() {
    let input = "\"test\n\",\"broken\ncolumn\",\"another\ncolumn\"\nnext,row";
    let result = CSVReader::new(input, ',')
        .into_lines();

    assert_eq!(
        result,
        vec![
            vec![
                Cell::new("\"test\n\""),
                Cell::new("\"broken\ncolumn\""),
                Cell::new("\"another\ncolumn\"")
            ],
            vec![Cell::new("next"), Cell::new("row")],
        ]
    )
}

#[test]
fn parser_test_quoted_quote() {
    let input = "test,\"\"\"row\"\"\"\nnext,row";
    let result = CSVReader::new(input, ',')
        .into_lines();

    assert_eq!(
        result,
        vec![
            vec![Cell::new("test"), Cell::new("\"\"\"row\"\"\"")],
            vec![Cell::new("next"), Cell::new("row")],
        ]
    );
}

#[test]
fn test_incorrect_quoted_quote() {
    let input = "test,\"\"row\"\"\n\"\"next\"\",row";
    let result = CSVReader::new(input, ',')
        .into_lines();

    assert_eq!(
        result,
        vec![
            vec![Cell::new("test"), Cell::new("\"\"row\"\"")],
            vec![Cell::new("\"\"next\"\""), Cell::new("row")],
        ]
    );
}

#[test]
fn parser_test_quoted_delimiter() {
    let input = "test,\"row,\"\nnext,row";
    let result = CSVReader::new(input, ',')
        .into_lines();

    assert_eq!(
        result,
        vec![
            vec![Cell::new("test"), Cell::new("\"row,\"")],
            vec![Cell::new("next"), Cell::new("row")],
        ]
    );
}

#[test]
fn test_blank_row() {
    let input = "test,row\n\nnext,row";
    let result = CSVReader::new(input, ',')
        .into_lines();

    assert_eq!(
        result,
        vec![
            vec![Cell::new("test"), Cell::new("row")],
            vec![],
            vec![Cell::new("next"), Cell::new("row")],
        ]
    );
}

#[test]
fn test_empty_row() {
    let input = "test,row\n,\nnext,row";
    let result = CSVReader::new(input, ',')
        .into_lines();

    assert_eq!(
        result,
        vec![
            vec![Cell::new("test"), Cell::new("row")],
            vec![Cell::new(""), Cell::new("")],
            vec![Cell::new("next"), Cell::new("row")],
        ]
    );
}

#[test]
fn test_dangling_quote() {
    let input = "test,row\n\"next,row";
    let result = CSVReader::new(input, ',')
        .into_lines();

    assert_eq!(
        result,
        vec![
            vec![Cell::new("test"), Cell::new("row")],
            vec![Cell::new("\"next,row\n")],
        ]
    );
}

#[test]
fn test_unescaped_cell_quote_does_not_consume_rest_of_rows() {
    let input = "test,row\n\"ne\"xt\",row\nfinal,row";
    let result = CSVReader::new(input, ',')
        .into_lines();

    assert_eq!(
        result,
        vec![
            vec![Cell::new("test"), Cell::new("row")],
            vec![Cell::new("\"ne\"xt\",row")],
            vec![Cell::new("final"), Cell::new("row")],
        ]
    );
}

#[test]
fn test_newline_and_quotes() {
    let input = "A,B,C\nA,X,\"\"\"28-35, GIDC Industrial\nEstate, Nan\"\nY,Z,Q\nX,\"\"\"\nVillege Poicha\"\"\",Q\nX,\"\"\"Villege Poicha\"\"\n\",Q\nN,Y,C";
    let result = CSVReader::new(input, ',')
        .into_lines();

    assert_eq!(
        result,
        vec![
            vec![Cell::new("A"), Cell::new("B"), Cell::new("C")],
            vec![
                Cell::new("A"),
                Cell::new("X"),
                Cell::new("\"\"\"28-35, GIDC Industrial\nEstate, Nan\"")
            ],
            vec![Cell::new("Y"), Cell::new("Z"), Cell::new("Q")],
            vec![
                Cell::new("X"),
                Cell::new("\"\"\"\nVillege Poicha\"\"\""),
                Cell::new("Q"),
            ],
            vec![
                Cell::new("X"),
                Cell::new("\"\"\"Villege Poicha\"\"\n\""),
                Cell::new("Q"),
            ],
            vec![Cell::new("N"), Cell::new("Y"), Cell::new("C")],
        ]
    )
}

#[test]
fn test_quotes_just_delimiter() {
    let input = "c1,c2,c3\nd,e,\",\"\na,b,c\nd,e,\",\"";
    let result = CSVReader::new(input, ',')
        .into_lines();

    assert_eq!(
        result,
        vec![
            vec![Cell::new("c1"), Cell::new("c2"), Cell::new("c3")],
            vec![Cell::new("d"), Cell::new("e"), Cell::new("\",\"")],
            vec![Cell::new("a"), Cell::new("b"), Cell::new("c")],
            vec![Cell::new("d"), Cell::new("e"), Cell::new("\",\"")],
        ]
    )
}

#[test]
fn test_false_positive_delimiter_removal() {
    let input = "a,b,c\n\"lll\",\"\"\"\",\"\"\",\n\"";
    let result = CSVReader::new(input, ',')
        .into_lines();

    assert_eq!(
        result,
        vec![
            vec![Cell::new("a"), Cell::new("b"), Cell::new("c")],
            vec![
                Cell::new("\"lll\""),
                Cell::new("\"\"\"\""),
                Cell::new("\"\"\",\n\"")
            ],
        ]
    )
}

#[test]
fn parse_cells_test_simple() {
    let input = "test,row";
    assert_eq!(
        parse_cells(input, ','),
        vec![Cell::new("test"), Cell::new("row")]
    )
}

#[test]
fn parse_cells_test_quoted_newline() {
    let input = "test,\"row\n\"";

    assert_eq!(
        parse_cells(input, ','),
        vec![Cell::new("test"), Cell::new("\"row\n\"")]
    )
}

#[test]
fn parse_cells_test_quoted_quote() {
    let input = "test,\"\"\"row\"\"\"";

    assert_eq!(
        parse_cells(input, ','),
        vec![Cell::new("test"), Cell::new("\"\"\"row\"\"\"")]
    )
}

#[test]
fn parse_cells_test_quoted_delimiter() {
    let input = "test,\"row,\"";

    assert_eq!(
        parse_cells(input, ','),
        vec![Cell::new("test"), Cell::new("\"row,\"")]
    )
}

#[test]
fn parse_cells_test_empty() {
    assert_eq!(parse_cells("", ','), vec![])
}

#[test]
fn split_rows_test_simple() {
    let input = "test,row\nnext,row\n";

    assert_eq!(split_rows(input, ","), vec!["test,row", "next,row"])
}

#[test]
fn split_rows_test_no_trailing_newline() {
    let input = "test,row\nnext,row";

    assert_eq!(split_rows(input, ","), vec!["test,row", "next,row"])
}

#[test]
fn split_rows_test_quoted_newline() {
    let input = "test,\"row\n\"\nnext,row";

    assert_eq!(split_rows(input, ","), vec!["test,\"row\n\"", "next,row"])
}

#[test]
fn split_rows_test_quoted_quote() {
    let input = "test,\"\"\"row\"\"\"\nnext,row";

    assert_eq!(
        split_rows(input, ","),
        vec!["test,\"\"\"row\"\"\"", "next,row"]
    )
}
