use vstd::prelude::*;

use crate::cell::{
    correctly_quoted_text, count_char, empty_text, has_infix, quote, replacement_char, Cell,
};
use crate::csv_details::{empty_details, CSVDetails, DetailsView};

use std::collections::HashSet;
use crate::error::{CSVError, UnknownEncoding};
use crate::file::{decoded, is_encoding_label};
use crate::parser::{parse_file, parsed_rows, table, texts, CSVReader};

verus! {

/// Every cell of the row is empty.
pub open spec fn row_empty(cells: Seq<Seq<char>>) -> bool {
    forall|k: int| 0 <= k < cells.len() ==> empty_text(#[trigger] cells[k])
}

/// Every cell of the row follows the quoting rule.
pub open spec fn row_correctly_quoted(cells: Seq<Seq<char>>) -> bool {
    forall|k: int| 0 <= k < cells.len() ==> correctly_quoted_text(#[trigger] cells[k])
}

/// Some non-empty cell of the row holds a doubled quote.
pub open spec fn row_quoted_quote(cells: Seq<Seq<char>>) -> bool {
    exists|k: int|
        0 <= k < cells.len() && !empty_text(#[trigger] cells[k]) && has_infix(
            cells[k],
            seq![quote(), quote()],
        )
}

/// Some cell of the row holds `p`.
pub open spec fn row_holds(cells: Seq<Seq<char>>, p: Seq<char>) -> bool {
    exists|k: int| 0 <= k < cells.len() && has_infix(#[trigger] cells[k], p)
}

/// The number of decode replacement characters in the row.
pub open spec fn row_invalid_characters(cells: Seq<Seq<char>>) -> nat
    decreases cells.len(),
{
    if cells.len() == 0 {
        0
    } else {
        row_invalid_characters(cells.drop_last()) + count_char(cells.last(), replacement_char())
    }
}

/// `a + b`, or the largest `usize` where the sum exceeds it.
pub open spec fn capped_sum(a: nat, b: nat) -> nat {
    if a + b > usize::MAX {
        usize::MAX as nat
    } else {
        a + b
    }
}

/// `s` with `i` appended where `cond` holds.
pub open spec fn push_if(s: Seq<usize>, cond: bool, i: usize) -> Seq<usize> {
    if cond {
        s.push(i)
    } else {
        s
    }
}

/// The report `r` after the row numbered `i` with cells `cells` is folded in;
/// `d` is the delimiter. An empty row is not compared with the header.
pub open spec fn after_row(r: DetailsView, cells: Seq<Seq<char>>, d: Seq<char>, i: usize) -> DetailsView {
    let empty = row_empty(cells);
    let few = !empty && cells.len() < r.column_count;
    let many = !empty && cells.len() > r.column_count;
    let quoted_ok = row_correctly_quoted(cells);
    let quoted_quote = row_quoted_quote(cells);
    DetailsView {
        row_count: if empty {
            r.row_count
        } else {
            r.row_count + 1
        },
        invalid_character_count: capped_sum(
            r.invalid_character_count,
            row_invalid_characters(cells),
        ),
        too_few_columns: push_if(r.too_few_columns, few, i),
        too_many_columns: push_if(r.too_many_columns, many, i),
        quoted_delimiter: push_if(r.quoted_delimiter, row_holds(cells, d), i),
        quoted_newline: push_if(r.quoted_newline, row_holds(cells, seq!['\n']), i),
        quoted_quote: push_if(r.quoted_quote, quoted_quote, i),
        quoted_quote_correctly: push_if(r.quoted_quote_correctly, quoted_quote && quoted_ok, i),
        incorrect_cell_quote: push_if(r.incorrect_cell_quote, !quoted_ok, i),
        all_empty_rows: push_if(r.all_empty_rows, empty, i),
        valid_rows: if quoted_ok && !few && !many && !empty {
            r.valid_rows.insert(i)
        } else {
            r.valid_rows
        },
        ..r
    }
}

/// The report of a sequence of rows, folded in order: row 0 fixes the column
/// count, each row adds its cell count and is then folded in by `after_row`.
pub open spec fn report_of(rows: Seq<Seq<Seq<char>>>, d: Seq<char>) -> DetailsView
    decreases rows.len(),
{
    if rows.len() == 0 {
        empty_details()
    } else {
        let prev = report_of(rows.drop_last(), d);
        let i = rows.len() - 1;
        let counted = DetailsView {
            column_count: if i == 0 {
                rows[0].len()
            } else {
                prev.column_count
            },
            column_count_per_line: prev.column_count_per_line.push(rows[i].len() as usize),
            ..prev
        };
        after_row(counted, rows[i], d, i as usize)
    }
}

/// No row number in the report reaches the number of rows folded.
pub open spec fn indices_below(v: DetailsView, n: nat) -> bool {
    &&& forall|k: int| 0 <= k < v.too_few_columns.len() ==> v.too_few_columns[k] < n
    &&& forall|k: int| 0 <= k < v.too_many_columns.len() ==> v.too_many_columns[k] < n
    &&& forall|k: int| 0 <= k < v.incorrect_cell_quote.len() ==> v.incorrect_cell_quote[k] < n
    &&& forall|k: int| 0 <= k < v.all_empty_rows.len() ==> v.all_empty_rows[k] < n
    &&& forall|i: usize| v.valid_rows.contains(i) ==> i < n
}

/// No valid row is also listed with too few or too many cells, with bad
/// quoting, or as empty.
pub open spec fn valid_rows_disjoint(v: DetailsView) -> bool {
    forall|i: usize|
        #[trigger] v.valid_rows.contains(i) ==> !v.too_few_columns.contains(i)
            && !v.too_many_columns.contains(i) && !v.incorrect_cell_quote.contains(i)
            && !v.all_empty_rows.contains(i)
}

proof fn lemma_indices_below(rows: Seq<Seq<Seq<char>>>, d: Seq<char>)
    requires
        rows.len() <= usize::MAX,
    ensures
        indices_below(report_of(rows, d), rows.len()),
    decreases rows.len(),
{
    if rows.len() > 0 {
        lemma_indices_below(rows.drop_last(), d);
    }
}

/// In the report of any sequence of rows, the valid rows are disjoint from the
/// rows with too few cells, with too many cells, with bad quoting, and from the
/// empty rows.
pub proof fn lemma_valid_rows_disjoint(rows: Seq<Seq<Seq<char>>>, d: Seq<char>)
    requires
        rows.len() <= usize::MAX,
    ensures
        valid_rows_disjoint(report_of(rows, d)),
    decreases rows.len(),
{
    if rows.len() > 0 {
        let prev = rows.drop_last();
        lemma_valid_rows_disjoint(prev, d);
        lemma_indices_below(prev, d);
        let p = report_of(prev, d);
        let n = (rows.len() - 1) as usize;
        let counted = DetailsView {
            column_count: if n == 0 {
                rows[0].len()
            } else {
                p.column_count
            },
            column_count_per_line: p.column_count_per_line.push(rows[n as int].len() as usize),
            ..p
        };
        assert(!p.valid_rows.contains(n));
        assert(!p.too_few_columns.contains(n));
        assert(!p.too_many_columns.contains(n));
        assert(!p.incorrect_cell_quote.contains(n));
        assert(!p.all_empty_rows.contains(n));
        lemma_after_row_keeps_disjoint(counted, rows[n as int], d, n);
    }
}

/// Folding one row into a report whose valid rows are disjoint from its problem
/// lists keeps them disjoint, when the row's number is not yet in any of them.
pub proof fn lemma_after_row_keeps_disjoint(
    r: DetailsView,
    cells: Seq<Seq<char>>,
    d: Seq<char>,
    i: usize,
)
    requires
        valid_rows_disjoint(r),
        !r.valid_rows.contains(i),
        !r.too_few_columns.contains(i),
        !r.too_many_columns.contains(i),
        !r.incorrect_cell_quote.contains(i),
        !r.all_empty_rows.contains(i),
    ensures
        valid_rows_disjoint(after_row(r, cells, d, i)),
{
    let n = after_row(r, cells, d, i);
    assert forall|k: usize| #[trigger] n.valid_rows.contains(k) implies !n.too_few_columns.contains(k)
        && !n.too_many_columns.contains(k) && !n.incorrect_cell_quote.contains(k)
        && !n.all_empty_rows.contains(k) by {
        if k != i {
            assert(r.valid_rows.contains(k));
            assert(n.too_few_columns.contains(k) ==> r.too_few_columns.contains(k)) by {
                if n.too_few_columns.contains(k) {
                    let j = choose|j: int| 0 <= j < n.too_few_columns.len() && n.too_few_columns[j] == k;
                    assert(r.too_few_columns[j] == k);
                }
            }
            assert(n.too_many_columns.contains(k) ==> r.too_many_columns.contains(k)) by {
                if n.too_many_columns.contains(k) {
                    let j = choose|j: int| 0 <= j < n.too_many_columns.len() && n.too_many_columns[j] == k;
                    assert(r.too_many_columns[j] == k);
                }
            }
            assert(n.incorrect_cell_quote.contains(k) ==> r.incorrect_cell_quote.contains(k)) by {
                if n.incorrect_cell_quote.contains(k) {
                    let j = choose|j: int| 0 <= j < n.incorrect_cell_quote.len() && n.incorrect_cell_quote[j] == k;
                    assert(r.incorrect_cell_quote[j] == k);
                }
            }
            assert(n.all_empty_rows.contains(k) ==> r.all_empty_rows.contains(k)) by {
                if n.all_empty_rows.contains(k) {
                    let j = choose|j: int| 0 <= j < n.all_empty_rows.len() && n.all_empty_rows[j] == k;
                    assert(r.all_empty_rows[j] == k);
                }
            }
        }
    }
}

/// Folding the same rows into two fresh reports gives identical reports.
pub proof fn lemma_fold_deterministic(
    first: &CSVDetails,
    second: &CSVDetails,
    rows: Seq<Vec<Cell>>,
    d: Seq<char>,
)
    requires
        first@ == report_of(table(rows), d),
        second@ == report_of(table(rows), d),
    ensures
        first@ == second@,
{
}

/// Folds one row, numbered `row_number`, into the report.
pub fn check_row(csv_details: &mut CSVDetails, cells: &Vec<Cell>, delimiter: &str, row_number: usize)
    requires
        old(csv_details).row_count < usize::MAX,
    ensures
        final(csv_details)@ == after_row(old(csv_details)@, texts(cells@), delimiter@, row_number),
{
    broadcast use vstd::std_specs::hash::group_hash_axioms;

    let ghost t = texts(cells@);
    let mut all_correctly_quoted = true;
    let mut has_quoted_quote = false;
    let mut has_quoted_newline = false;
    let mut has_quoted_delimiter = false;
    let mut empty = true;
    let ghost start = csv_details.invalid_character_count as nat;
    let doubled = "\"\"";
    let newline = "\n";
    proof {
        reveal_strlit("\"\"");
        reveal_strlit("\n");
    }
    assert(doubled@ =~= seq![quote(), quote()]);
    assert(newline@ =~= seq!['\n']);

    let mut k: usize = 0;
    while k < cells.len()
        invariant
            k <= cells.len(),
            t == texts(cells@),
            doubled@ == seq![quote(), quote()],
            newline@ == seq!['\n'],
            all_correctly_quoted == (forall|j: int|
                0 <= j < k ==> correctly_quoted_text(#[trigger] t[j])),
            empty == (forall|j: int| 0 <= j < k ==> empty_text(#[trigger] t[j])),
            has_quoted_quote == (exists|j: int|
                0 <= j < k && !empty_text(#[trigger] t[j]) && has_infix(t[j], doubled@)),
            has_quoted_newline == (exists|j: int| 0 <= j < k && has_infix(#[trigger] t[j], newline@)),
            has_quoted_delimiter == (exists|j: int|
                0 <= j < k && has_infix(#[trigger] t[j], delimiter@)),
            csv_details.invalid_character_count as nat == capped_sum(
                start,
                row_invalid_characters(t.take(k as int)),
            ),
            csv_details.row_count == old(csv_details).row_count,
            csv_details.column_count == old(csv_details).column_count,
            csv_details@ == (DetailsView {
                invalid_character_count: csv_details.invalid_character_count as nat,
                ..old(csv_details)@
            }),
        decreases cells.len() - k,
    {
        let cell = &cells[k];
        assert(t[k as int] == cell@);
        let ok = cell.correctly_quoted();
        all_correctly_quoted = all_correctly_quoted && ok;
        let cell_empty = cell.is_empty();
        has_quoted_quote = has_quoted_quote || (!cell_empty && cell.contains(doubled));
        has_quoted_newline = has_quoted_newline || cell.contains(newline);
        has_quoted_delimiter = has_quoted_delimiter || cell.contains(delimiter);
        empty = empty && cell_empty;
        let n = cell.invalid_character_count();
        assert(t.take(k + 1).drop_last() =~= t.take(k as int));
        csv_details.invalid_character_count = csv_details.invalid_character_count.saturating_add(n);
        k += 1;
    }
    assert(t.take(k as int) =~= t);

    let mut too_many_columns = false;
    let mut too_few_columns = false;
    if !empty {
        if cells.len() > csv_details.column_count {
            too_many_columns = true;
        } else if cells.len() < csv_details.column_count {
            too_few_columns = true;
        }
    }

    if has_quoted_quote {
        csv_details.quoted_quote.push(row_number);
        if all_correctly_quoted {
            csv_details.quoted_quote_correctly.push(row_number);
        }
    }
    if has_quoted_newline {
        csv_details.quoted_newline.push(row_number);
    }
    if has_quoted_delimiter {
        csv_details.quoted_delimiter.push(row_number);
    }
    if empty {
        csv_details.all_empty_rows.push(row_number);
    } else {
        csv_details.row_count += 1;
    }
    if !all_correctly_quoted {
        csv_details.incorrect_cell_quote.push(row_number);
    }
    if too_few_columns {
        csv_details.too_few_columns.push(row_number);
    }
    if too_many_columns {
        csv_details.too_many_columns.push(row_number);
    }
    if all_correctly_quoted && !too_few_columns && !too_many_columns && !empty {
        csv_details.valid_rows.insert(row_number);
    }
    assert(csv_details@ =~= after_row(old(csv_details)@, t, delimiter@, row_number));
}

/// Folds every row, in order, into a new report.
pub fn check_rows(rows: &Vec<Vec<Cell>>, delimiter: &str) -> (r: CSVDetails)
    ensures
        r@ == report_of(table(rows@), delimiter@),
        valid_rows_disjoint(r@),
{
    let ghost all = table(rows@);
    let mut csv_details = CSVDetails::new();
    let mut i: usize = 0;
    assert(all.take(0) =~= Seq::<Seq<Seq<char>>>::empty());
    while i < rows.len()
        invariant
            i <= rows.len(),
            all == table(rows@),
            csv_details.row_count <= i,
            csv_details@ == report_of(all.take(i as int), delimiter@),
        decreases rows.len() - i,
    {
        let cells = &rows[i];
        let ghost prev = csv_details@;
        assert(all[i as int] == texts(cells@));
        assert(all.take(i + 1).drop_last() =~= all.take(i as int));
        csv_details.column_count_per_line.push(cells.len());
        if i == 0 {
            csv_details.column_count = cells.len();
        }
        assert(csv_details@ =~= (DetailsView {
            column_count: if i == 0 {
                all.take(i + 1)[0].len()
            } else {
                prev.column_count
            },
            column_count_per_line: prev.column_count_per_line.push(all[i as int].len() as usize),
            ..prev
        }));
        check_row(&mut csv_details, cells, delimiter, i);
        i += 1;
    }
    assert(all.take(i as int) =~= all);
    proof {
        lemma_valid_rows_disjoint(all, delimiter@);
    }
    csv_details
}

/// A delimiter is a single character of one byte.
pub open spec fn valid_delimiter(d: Seq<char>) -> bool {
    d.len() == 1 && (d[0] as u32) < 128
}

/// Whether `delimiter` is a single character of one byte.
pub fn is_valid_delimiter(delimiter: &str) -> (r: bool)
    ensures
        r == valid_delimiter(delimiter@),
{
    if delimiter.unicode_len() != 1 {
        return false;
    }
    (delimiter.get_char(0) as u32) < 128
}

/// The report of a decoded text.
pub fn check_text(text: &str, delimiter: &str) -> (r: CSVDetails)
    requires
        delimiter@.len() == 1,
    ensures
        r@ == report_of(parsed_rows(text@, delimiter@[0]), delimiter@),
{
    let rows = CSVReader::new(text, delimiter.get_char(0)).into_lines();
    check_rows(&rows, delimiter)
}

/// Checks a file's contents, read with `delimiter` and decoded from `encoding`.
/// A delimiter that is not one single-byte character, then an unknown encoding,
/// are refused before anything is parsed.
pub fn check_file(contents: &[u8], delimiter: &str, encoding: &str) -> (r: Result<
    CSVDetails,
    CSVError,
>)
    ensures
        !valid_delimiter(delimiter@) <==> (r matches Err(CSVError::InvalidDelimiter(s))
            && s@ == delimiter@),
        valid_delimiter(delimiter@) ==> (!is_encoding_label(encoding@) <==> (r matches Err(
            CSVError::UnknownEncoding(UnknownEncoding::Encoding(e)),
        ) && e@ == encoding@)),
        valid_delimiter(delimiter@) && is_encoding_label(encoding@) ==> r is Ok,
        r matches Ok(details) ==> details@ == report_of(
            parsed_rows(decoded(encoding@, contents@), delimiter@[0]),
            delimiter@,
        ),
{
    if !is_valid_delimiter(delimiter) {
        return Err(CSVError::InvalidDelimiter(delimiter.to_owned()));
    }
    let rows = parse_file(contents, delimiter.get_char(0), encoding)?;
    Ok(check_rows(&rows, delimiter))
}

/// The rows whose numbers are in `valid`, in their order.
pub open spec fn select_rows(rows: Seq<Seq<Seq<char>>>, valid: Set<usize>) -> Seq<Seq<Seq<char>>>
    decreases rows.len(),
{
    if rows.len() == 0 {
        Seq::empty()
    } else {
        let prev = select_rows(rows.drop_last(), valid);
        if valid.contains((rows.len() - 1) as usize) {
            prev.push(rows.last())
        } else {
            prev
        }
    }
}

/// The rows of `rows` that the report counts as valid, in their order, with
/// their cells' raw text unchanged.
pub fn valid_subset(rows: &Vec<Vec<Cell>>, csv_details: &CSVDetails) -> (r: Vec<Vec<Cell>>)
    ensures
        table(r@) == select_rows(table(rows@), csv_details@.valid_rows),
{
    broadcast use vstd::std_specs::hash::group_hash_axioms;

    let ghost all = table(rows@);
    let mut out: Vec<Vec<Cell>> = Vec::new();
    let mut i: usize = 0;
    assert(all.take(0) =~= Seq::<Seq<Seq<char>>>::empty());
    assert(table(out@) =~= Seq::<Seq<Seq<char>>>::empty());
    while i < rows.len()
        invariant
            i <= rows.len(),
            all == table(rows@),
            table(out@) == select_rows(all.take(i as int), csv_details@.valid_rows),
        decreases rows.len() - i,
    {
        assert(all.take(i + 1).drop_last() =~= all.take(i as int));
        if csv_details.valid_rows.contains(&i) {
            let row = &rows[i];
            let mut copy: Vec<Cell> = Vec::new();
            let mut k: usize = 0;
            while k < row.len()
                invariant
                    k <= row.len(),
                    texts(copy@) =~= texts(row@).take(k as int),
                decreases row.len() - k,
            {
                let ghost before = copy@;
                copy.push(Cell::new(row[k].as_str()));
                assert(copy@ =~= before.push(copy@.last()));
                assert(texts(row@).take(k + 1) =~= texts(row@).take(k as int).push(row@[k as int]@));
                k += 1;
            }
            assert(texts(row@).take(k as int) =~= texts(row@));
            let ghost before = out@;
            out.push(copy);
            assert(out@ =~= before.push(copy));
            assert(table(out@) =~= table(before).push(all[i as int]));
        }
        i += 1;
    }
    assert(all.take(i as int) =~= all);
    out
}

/// The rows whose numbers are in `wanted`, each with its number, in order.
pub open spec fn numbered_rows(rows: Seq<Seq<Seq<char>>>, wanted: Set<usize>) -> Seq<
    (usize, Seq<Seq<char>>),
>
    decreases rows.len(),
{
    if rows.len() == 0 {
        Seq::empty()
    } else {
        let prev = numbered_rows(rows.drop_last(), wanted);
        let i = (rows.len() - 1) as usize;
        if wanted.contains(i) {
            prev.push((i, rows.last()))
        } else {
            prev
        }
    }
}

/// The texts of a sequence of numbered rows.
pub open spec fn numbered_texts(v: Seq<(usize, Vec<String>)>) -> Seq<(usize, Seq<Seq<char>>)> {
    v.map_values(|e: (usize, Vec<String>)| (e.0, e.1@.map_values(|s: String| s@)))
}

/// The rows whose numbers are in `row_numbers`, each with its number and its
/// cells' raw text, in order.
pub fn get_rows(rows: &Vec<Vec<Cell>>, row_numbers: &HashSet<usize>) -> (r: Vec<(usize, Vec<String>)>)
    ensures
        numbered_texts(r@) == numbered_rows(table(rows@), row_numbers@),
{
    broadcast use vstd::std_specs::hash::group_hash_axioms;

    let ghost all = table(rows@);
    let mut out: Vec<(usize, Vec<String>)> = Vec::new();
    let mut i: usize = 0;
    assert(all.take(0) =~= Seq::<Seq<Seq<char>>>::empty());
    assert(numbered_texts(out@) =~= Seq::<(usize, Seq<Seq<char>>)>::empty());
    while i < rows.len()
        invariant
            i <= rows.len(),
            all == table(rows@),
            numbered_texts(out@) == numbered_rows(all.take(i as int), row_numbers@),
        decreases rows.len() - i,
    {
        assert(all.take(i + 1).drop_last() =~= all.take(i as int));
        if row_numbers.contains(&i) {
            let row = &rows[i];
            let mut strings: Vec<String> = Vec::new();
            let mut k: usize = 0;
            while k < row.len()
                invariant
                    k <= row.len(),
                    strings@.map_values(|s: String| s@) =~= texts(row@).take(k as int),
                decreases row.len() - k,
            {
                let ghost before = strings@;
                strings.push(row[k].as_str().to_owned());
                assert(strings@ =~= before.push(strings@.last()));
                assert(texts(row@).take(k + 1) =~= texts(row@).take(k as int).push(row@[k as int]@));
                k += 1;
            }
            assert(texts(row@).take(k as int) =~= texts(row@));
            let ghost before = out@;
            out.push((i, strings));
            assert(out@ =~= before.push(out@.last()));
            assert(numbered_texts(out@) =~= numbered_texts(before).push((i, all[i as int])));
        }
        i += 1;
    }
    assert(all.take(i as int) =~= all);
    out
}

} // verus!
