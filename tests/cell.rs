use csv_gp::cell::Cell;

#[test]
fn test_incorrect() {
    assert!(!Cell::new("\"Anlagestiftung der UBS f端r \"Immobilien Schweiz\", Z端rich, c/o UBS Fund Management AG\"").correctly_quoted())
}

#[test]
fn test_incorrect_2() {
    assert!(!Cell::new("\"5\"379'319'026\",\"SINV-00110094\"").correctly_quoted())
}

#[test]
fn test_correct() {
    assert!(Cell::new("\"Anlagestiftung der UBS f端r \"\"Immobilien Schweiz\"\", Z端rich, c/o UBS Fund Management AG\"").correctly_quoted())
}

#[test]
fn test_correct_2() {
    assert!(Cell::new("\"5\"\"379'319'026\"\",\"\"SINV-00110094\"").correctly_quoted())
}

#[test]
fn test_quotes_strip_whitespace() {
    assert!(Cell::new("\"cameron\" ").correctly_quoted());
    assert!(Cell::new(" \"james\"").correctly_quoted());
    assert!(Cell::new(" \"matt\" ").correctly_quoted());
}

#[test]
fn cell_test_no_quotes() {
    assert!(Cell::new("test").correctly_quoted())
}

#[test]
fn test_no_quotes_when_stripped() {
    assert!(Cell::new("\"test\"").correctly_quoted())
}

#[test]
fn test_does_not_start() {
    assert!(!Cell::new("test\"").correctly_quoted())
}

#[test]
fn test_does_not_end() {
    assert!(!Cell::new("\"test").correctly_quoted())
}
