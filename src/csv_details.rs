use vstd::prelude::*;

use std::collections::HashSet;

use crate::cell::push_char;

verus! {

/// What a report holds, as mathematical values.
pub struct DetailsView {
    pub row_count: nat,
    pub column_count: nat,
    pub invalid_character_count: nat,
    pub too_few_columns: Seq<usize>,
    pub too_many_columns: Seq<usize>,
    pub column_count_per_line: Seq<usize>,
    pub quoted_delimiter: Seq<usize>,
    pub quoted_newline: Seq<usize>,
    pub quoted_quote: Seq<usize>,
    pub quoted_quote_correctly: Seq<usize>,
    pub incorrect_cell_quote: Seq<usize>,
    pub all_empty_rows: Seq<usize>,
    pub blank_rows: Seq<usize>,
    pub valid_rows: Set<usize>,
}

/// The report before any row is read.
pub open spec fn empty_details() -> DetailsView {
    DetailsView {
        row_count: 0,
        column_count: 0,
        invalid_character_count: 0,
        too_few_columns: Seq::empty(),
        too_many_columns: Seq::empty(),
        column_count_per_line: Seq::empty(),
        quoted_delimiter: Seq::empty(),
        quoted_newline: Seq::empty(),
        quoted_quote: Seq::empty(),
        quoted_quote_correctly: Seq::empty(),
        incorrect_cell_quote: Seq::empty(),
        all_empty_rows: Seq::empty(),
        blank_rows: Seq::empty(),
        valid_rows: Set::empty(),
    }
}

/// Whether the header's cell count matches no other non-empty row.
pub open spec fn header_messed_up_spec(v: DetailsView) -> bool {
    v.row_count - 1 == v.too_few_columns.len() + v.too_many_columns.len()
}

/// The decimal digit for `n`, which is below ten.
pub open spec fn digit_char(n: nat) -> char {
    seq!['0', '1', '2', '3', '4', '5', '6', '7', '8', '9'][n as int]
}

/// The decimal representation of `n`, without leading zeros.
pub open spec fn decimal(n: nat) -> Seq<char>
    decreases n,
{
    if n < 10 {
        seq![digit_char(n)]
    } else {
        decimal(n / 10).push(digit_char(n % 10))
    }
}

/// `pre`, then `n` in decimal, then `post`.
pub open spec fn counted(pre: Seq<char>, n: nat, post: Seq<char>) -> Seq<char> {
    pre + decimal(n) + post
}

/// The line on the header, if it is messed up.
pub open spec fn header_line(v: DetailsView) -> Seq<char> {
    if header_messed_up_spec(v) {
        "The header is totally messed up, no rows have the same number of columns as the header.\n"@
    } else {
        Seq::empty()
    }
}

/// The line on rows with a wrong number of cells.
pub open spec fn columns_line(v: DetailsView) -> Seq<char> {
    if v.too_few_columns.len() > 0 || v.too_many_columns.len() > 0 {
        counted("There are "@, v.too_many_columns.len(), " rows with too many columns, and "@)
            + counted(Seq::empty(), v.too_few_columns.len(), " rows with too few columns.\n"@)
    } else {
        "All rows have the same number of columns.\n"@
    }
}

/// The line on blank rows, if there are any.
pub open spec fn blank_line(v: DetailsView) -> Seq<char> {
    if v.blank_rows.len() > 0 {
        counted("There are "@, v.blank_rows.len(), " blank rows.\n"@)
    } else {
        Seq::empty()
    }
}

/// The line on rows of empty cells, if there are any.
pub open spec fn empty_line(v: DetailsView) -> Seq<char> {
    if v.all_empty_rows.len() > 0 {
        counted("There are "@, v.all_empty_rows.len(), " rows where all the cells are empty.\n"@)
    } else {
        Seq::empty()
    }
}

/// The line on cells that hold the delimiter.
pub open spec fn delimiter_line(v: DetailsView) -> Seq<char> {
    if v.quoted_delimiter.len() > 0 {
        counted(
            "There are "@,
            v.quoted_delimiter.len(),
            " lines with correctly quoted delimiter.\n"@,
        )
    } else {
        "There are no rows with correctly quoted delimiter.\n"@
    }
}

/// The line on cells that hold a line break.
pub open spec fn newline_line(v: DetailsView) -> Seq<char> {
    if v.quoted_newline.len() > 0 {
        counted("There are "@, v.quoted_newline.len(), " lines with correctly quoted newline.\n"@)
    } else {
        "There are no rows with correctly quoted newline.\n"@
    }
}

/// The line on cells that hold a doubled quote.
pub open spec fn quote_line(v: DetailsView) -> Seq<char> {
    if v.quoted_quote.len() > 0 {
        counted(
            "There are "@,
            v.quoted_quote.len(),
            " lines with correctly quoted quote, out of that "@,
        ) + counted(Seq::empty(), v.quoted_quote_correctly.len(), " are absolutely correct.\n"@)
    } else {
        "There are no rows with correctly quoted quote.\n"@
    }
}

/// The line on cells that break the quoting rule.
pub open spec fn incorrect_line(v: DetailsView) -> Seq<char> {
    if v.incorrect_cell_quote.len() > 0 {
        counted("There are "@, v.incorrect_cell_quote.len(), " lines with incorrect cell quotes.\n"@)
    } else {
        "There are no rows with incorrect cell quotes.\n"@
    }
}

/// The lines of the summary after the totals.
pub open spec fn detail_lines(v: DetailsView) -> Seq<char> {
    columns_line(v) + blank_line(v) + empty_line(v) + delimiter_line(v) + newline_line(v)
        + quote_line(v) + incorrect_line(v)
}

/// The human-readable summary of a report. A file of at most one row, or with at
/// most one column, gets a single line that says so.
pub open spec fn report_text(v: DetailsView) -> Seq<char> {
    if v.row_count <= 1 {
        "There is only one row in the file."@
    } else if v.column_count <= 1 {
        counted(
            "There is "@,
            v.column_count,
            " columns in the file, so the delimiter is almost surely wrong."@,
        )
    } else {
        header_line(v) + counted("There are "@, v.row_count, " ("@) + counted(
            Seq::empty(),
            v.valid_rows.len(),
            " of which are valid) rows in the file (including header), with "@,
        ) + counted(Seq::empty(), v.column_count, " columns (according to the header).\n"@)
            + detail_lines(v)
    }
}

/// Appends `n` in decimal to `out`.
fn push_decimal(out: &mut String, n: usize)
    ensures
        final(out)@ == old(out)@ + decimal(n as nat),
    decreases n,
{
    if n >= 10 {
        push_decimal(out, n / 10);
    }
    let d = n % 10;
    let c = if d == 0 {
        '0'
    } else if d == 1 {
        '1'
    } else if d == 2 {
        '2'
    } else if d == 3 {
        '3'
    } else if d == 4 {
        '4'
    } else if d == 5 {
        '5'
    } else if d == 6 {
        '6'
    } else if d == 7 {
        '7'
    } else if d == 8 {
        '8'
    } else {
        '9'
    };
    push_char(out, c);
    assert(final(out)@ =~= old(out)@ + decimal(n as nat));
}

/// Appends `pre`, `n` in decimal, and `post` to `out`.
fn push_counted(out: &mut String, pre: &str, n: usize, post: &str)
    ensures
        final(out)@ == old(out)@ + counted(pre@, n as nat, post@),
{
    out.append(pre);
    push_decimal(out, n);
    out.append(post);
    assert(final(out)@ =~= old(out)@ + counted(pre@, n as nat, post@));
}

/// The diagnostics gathered over the rows of a delimited text. Index lists hold
/// row numbers, row 0 being the header.
#[derive(Debug)]
pub struct CSVDetails {
    /// Number of non-empty rows, the header included.
    pub row_count: usize,
    /// Number of cells in the header.
    pub column_count: usize,
    /// Number of decode replacement characters (U+FFFD) in all cells.
    pub invalid_character_count: usize,
    /// Non-empty rows with fewer cells than the header.
    pub too_few_columns: Vec<usize>,
    /// Non-empty rows with more cells than the header.
    pub too_many_columns: Vec<usize>,
    /// The number of cells of each row, by row number.
    pub column_count_per_line: Vec<usize>,
    /// Rows with a cell that holds the delimiter.
    pub quoted_delimiter: Vec<usize>,
    /// Rows with a cell that holds a line break.
    pub quoted_newline: Vec<usize>,
    /// Rows with a non-empty cell that holds a doubled quote.
    pub quoted_quote: Vec<usize>,
    /// Those rows of `quoted_quote` whose cells all follow the quoting rule.
    pub quoted_quote_correctly: Vec<usize>,
    /// Rows with a cell that breaks the quoting rule: a missing opening or
    /// closing quote, or a quote inside that is not doubled.
    pub incorrect_cell_quote: Vec<usize>,
    /// Rows whose cells are all empty (no characters, or just `""`).
    pub all_empty_rows: Vec<usize>,
    /// Rows that are completely blank.
    pub blank_rows: Vec<usize>,
    /// Rows that are non-empty, have as many cells as the header, and whose
    /// cells all follow the quoting rule.
    pub valid_rows: HashSet<usize>,
}

impl View for CSVDetails {
    type V = DetailsView;

    open spec fn view(&self) -> DetailsView {
        DetailsView {
            row_count: self.row_count as nat,
            column_count: self.column_count as nat,
            invalid_character_count: self.invalid_character_count as nat,
            too_few_columns: self.too_few_columns@,
            too_many_columns: self.too_many_columns@,
            column_count_per_line: self.column_count_per_line@,
            quoted_delimiter: self.quoted_delimiter@,
            quoted_newline: self.quoted_newline@,
            quoted_quote: self.quoted_quote@,
            quoted_quote_correctly: self.quoted_quote_correctly@,
            incorrect_cell_quote: self.incorrect_cell_quote@,
            all_empty_rows: self.all_empty_rows@,
            blank_rows: self.blank_rows@,
            valid_rows: self.valid_rows@,
        }
    }
}

impl CSVDetails {
    /// An empty report.
    pub fn new() -> (r: Self)
        ensures
            r@ == empty_details(),
    {
        broadcast use vstd::std_specs::hash::group_hash_axioms;

        let r = CSVDetails {
            row_count: 0,
            column_count: 0,
            invalid_character_count: 0,
            too_few_columns: Vec::new(),
            too_many_columns: Vec::new(),
            column_count_per_line: Vec::new(),
            quoted_delimiter: Vec::new(),
            quoted_newline: Vec::new(),
            quoted_quote: Vec::new(),
            quoted_quote_correctly: Vec::new(),
            incorrect_cell_quote: Vec::new(),
            all_empty_rows: Vec::new(),
            blank_rows: Vec::new(),
            valid_rows: HashSet::new(),
        };
        assert(r@ =~= empty_details());
        r
    }

    /// The header is messed up when no other row has as many cells as the header.
    pub fn header_messed_up(&self) -> (r: bool)
        ensures
            r == header_messed_up_spec(self@),
    {
        let few = self.too_few_columns.len();
        let many = self.too_many_columns.len();
        if self.row_count == 0 || few > self.row_count - 1 {
            return false;
        }
        self.row_count - 1 - few == many
    }

    /// A human-readable summary of the report.
    pub fn report(&self) -> (r: String)
        ensures
            r@ == report_text(self@),
    {
        broadcast use vstd::std_specs::hash::group_hash_axioms;

        let mut results = String::new();
        if self.row_count <= 1 {
            results.append("There is only one row in the file.");
            assert(results@ =~= report_text(self@));
            return results;
        }
        if self.column_count <= 1 {
            push_counted(
                &mut results,
                "There is ",
                self.column_count,
                " columns in the file, so the delimiter is almost surely wrong.",
            );
            assert(results@ =~= report_text(self@));
            return results;
        }
        if self.header_messed_up() {
            results.append(
                "The header is totally messed up, no rows have the same number of columns as the header.\n",
            );
        }
        assert(results@ =~= header_line(self@));
        push_counted(&mut results, "There are ", self.row_count, " (");
        push_counted(
            &mut results,
            "",
            self.valid_rows.len(),
            " of which are valid) rows in the file (including header), with ",
        );
        push_counted(&mut results, "", self.column_count, " columns (according to the header).\n");
        proof {
            reveal_strlit("");
        }
        assert(""@ =~= Seq::<char>::empty());
        self.append_details(&mut results);
        assert(results@ =~= report_text(self@));
        results
    }

    /// Appends the lines of the summary after the totals.
    fn append_details(&self, results: &mut String)
        ensures
            final(results)@ == old(results)@ + detail_lines(self@),
    {
        let ghost start = results@;
        self.append_columns_line(results);
        self.append_blank_line(results);
        self.append_empty_line(results);
        self.append_delimiter_line(results);
        self.append_newline_line(results);
        self.append_quote_line(results);
        self.append_incorrect_line(results);
        assert(results@ =~= start + detail_lines(self@));
    }

    fn append_columns_line(&self, results: &mut String)
        ensures
            final(results)@ == old(results)@ + columns_line(self@),
    {
        proof {
            reveal_strlit("");
        }
        assert(""@ =~= Seq::<char>::empty());
        if !self.too_few_columns.is_empty() || !self.too_many_columns.is_empty() {
            push_counted(results, "There are ", self.too_many_columns.len(), " rows with too many columns, and ");
            push_counted(results, "", self.too_few_columns.len(), " rows with too few columns.\n");
        } else {
            results.append("All rows have the same number of columns.\n");
        }
        assert(final(results)@ =~= old(results)@ + columns_line(self@));
    }

    fn append_blank_line(&self, results: &mut String)
        ensures
            final(results)@ == old(results)@ + blank_line(self@),
    {
        if !self.blank_rows.is_empty() {
            push_counted(results, "There are ", self.blank_rows.len(), " blank rows.\n");
        }
        assert(final(results)@ =~= old(results)@ + blank_line(self@));
    }

    fn append_empty_line(&self, results: &mut String)
        ensures
            final(results)@ == old(results)@ + empty_line(self@),
    {
        if !self.all_empty_rows.is_empty() {
            push_counted(results, "There are ", self.all_empty_rows.len(), " rows where all the cells are empty.\n");
        }
        assert(final(results)@ =~= old(results)@ + empty_line(self@));
    }

    fn append_delimiter_line(&self, results: &mut String)
        ensures
            final(results)@ == old(results)@ + delimiter_line(self@),
    {
        if !self.quoted_delimiter.is_empty() {
            push_counted(results, "There are ", self.quoted_delimiter.len(), " lines with correctly quoted delimiter.\n");
        } else {
            results.append("There are no rows with correctly quoted delimiter.\n");
        }
        assert(final(results)@ =~= old(results)@ + delimiter_line(self@));
    }

    fn append_newline_line(&self, results: &mut String)
        ensures
            final(results)@ == old(results)@ + newline_line(self@),
    {
        if !self.quoted_newline.is_empty() {
            push_counted(results, "There are ", self.quoted_newline.len(), " lines with correctly quoted newline.\n");
        } else {
            results.append("There are no rows with correctly quoted newline.\n");
        }
        assert(final(results)@ =~= old(results)@ + newline_line(self@));
    }

    fn append_quote_line(&self, results: &mut String)
        ensures
            final(results)@ == old(results)@ + quote_line(self@),
    {
        proof {
            reveal_strlit("");
        }
        assert(""@ =~= Seq::<char>::empty());
        if !self.quoted_quote.is_empty() {
            push_counted(results, "There are ", self.quoted_quote.len(), " lines with correctly quoted quote, out of that ");
            push_counted(results, "", self.quoted_quote_correctly.len(), " are absolutely correct.\n");
        } else {
            results.append("There are no rows with correctly quoted quote.\n");
        }
        assert(final(results)@ =~= old(results)@ + quote_line(self@));
    }

    fn append_incorrect_line(&self, results: &mut String)
        ensures
            final(results)@ == old(results)@ + incorrect_line(self@),
    {
        if !self.incorrect_cell_quote.is_empty() {
            push_counted(results, "There are ", self.incorrect_cell_quote.len(), " lines with incorrect cell quotes.\n");
        } else {
            results.append("There are no rows with incorrect cell quotes.\n");
        }
        assert(final(results)@ =~= old(results)@ + incorrect_line(self@));
    }
}

} // verus!
