use vstd::prelude::*;

use crate::cell::{
    chars_of, correctly_quoted_text, is_white_space, only_doubled_quotes, quote, string_of, trim,
    trim_end, trim_start, Cell,
};
use crate::error::{CSVError, UnknownEncoding};
use crate::file::{decoded, read_encoded};

verus! {

/// The raw texts of a sequence of cells.
pub open spec fn texts(cells: Seq<Cell>) -> Seq<Seq<char>> {
    cells.map_values(|c: Cell| c@)
}

/// The raw texts of a sequence of rows of cells.
pub open spec fn table(rows: Seq<Vec<Cell>>) -> Seq<Seq<Seq<char>>> {
    rows.map_values(|r: Vec<Cell>| texts(r@))
}

/// The contents of a sequence of character vectors.
pub open spec fn views(vs: Seq<Vec<char>>) -> Seq<Seq<char>> {
    vs.map_values(|v: Vec<char>| v@)
}

/// The quote state after reading `c` in the tokenizer: every quote flips it.
pub open spec fn toggled(open: bool, c: char) -> bool {
    if c == quote() {
        !open
    } else {
        open
    }
}

/// Splits `s` into cells, given the text `cur` of the cell being read and whether a
/// quote is open: a delimiter outside quotes ends a cell, anything else is kept.
pub open spec fn tokenize(s: Seq<char>, d: char, open: bool, cur: Seq<char>) -> Seq<Seq<char>>
    decreases s.len(),
{
    if s.len() == 0 {
        seq![cur]
    } else if s[0] == d && !open {
        seq![cur] + tokenize(s.drop_first(), d, false, Seq::empty())
    } else {
        tokenize(s.drop_first(), d, toggled(open, s[0]), cur.push(s[0]))
    }
}

/// The cells of one logical row: none for an empty row.
pub open spec fn cells_of(row: Seq<char>, d: char) -> Seq<Seq<char>> {
    if row.len() == 0 {
        Seq::empty()
    } else {
        tokenize(row, d, false, Seq::empty())
    }
}

/// `s` with every doubled quote removed, pairing quotes from the left.
pub open spec fn without_doubled_quotes(s: Seq<char>) -> Seq<char>
    decreases s.len(),
{
    if s.len() == 0 {
        s
    } else if s.len() >= 2 && s[0] == quote() && s[1] == quote() {
        without_doubled_quotes(s.skip(2))
    } else {
        seq![s[0]] + without_doubled_quotes(s.skip(1))
    }
}

/// The quote state after position `i` of `t`: a quote at the start opens; at the
/// end it opens if it follows the delimiter and nothing is open, and closes
/// otherwise; before the delimiter it closes an open quote; after the delimiter
/// it opens; anywhere else it changes nothing.
pub open spec fn quote_step(t: Seq<char>, d: char, i: int, open: bool) -> bool {
    if t[i] != quote() {
        open
    } else if i == 0 {
        true
    } else if i == t.len() - 1 {
        t[i - 1] == d && !open
    } else if t[i + 1] == d && open {
        false
    } else if t[i - 1] == d {
        true
    } else {
        open
    }
}

/// The quote state at the end of `t`, reading from position `i` in state `open`.
pub open spec fn open_from(t: Seq<char>, d: char, i: int, open: bool) -> bool
    decreases t.len() - i,
{
    if i < 0 || i >= t.len() {
        open
    } else {
        open_from(t, d, i + 1, quote_step(t, d, i, open))
    }
}

/// Whether a quoted cell is still open at the end of `s`.
pub open spec fn quote_left_open(s: Seq<char>, d: char) -> bool {
    open_from(without_doubled_quotes(s), d, 0, false)
}

/// The lines of `t` split at each newline, `cur` being the line being read; the
/// empty text after a final newline is no line.
pub open spec fn lines_from(t: Seq<char>, cur: Seq<char>) -> Seq<Seq<char>>
    decreases t.len(),
{
    if t.len() == 0 {
        if cur.len() == 0 {
            Seq::empty()
        } else {
            seq![cur]
        }
    } else if t[0] == '\n' {
        seq![cur] + lines_from(t.drop_first(), Seq::empty())
    } else {
        lines_from(t.drop_first(), cur.push(t[0]))
    }
}

/// `l` without its trailing carriage returns.
pub open spec fn trim_cr(l: Seq<char>) -> Seq<char>
    decreases l.len(),
{
    if l.len() > 0 && l.last() == '\r' {
        trim_cr(l.drop_last())
    } else {
        l
    }
}

/// The physical lines of a text, carriage returns at their ends removed.
pub open spec fn physical_lines(t: Seq<char>) -> Seq<Seq<char>> {
    lines_from(t, Seq::empty()).map_values(|l: Seq<char>| trim_cr(l))
}

/// Groups lines into logical rows, `buf` holding the row being gathered: a line
/// that leaves a quote open is joined to the next one by a newline.
pub open spec fn gather(lines: Seq<Seq<char>>, d: char, buf: Seq<char>) -> Seq<Seq<char>>
    decreases lines.len(),
{
    if lines.len() == 0 {
        if buf.len() == 0 {
            Seq::empty()
        } else {
            seq![buf]
        }
    } else {
        let b = buf + lines[0];
        if quote_left_open(b, d) {
            gather(lines.drop_first(), d, b.push('\n'))
        } else {
            seq![b] + gather(lines.drop_first(), d, Seq::empty())
        }
    }
}

/// The logical rows of a text.
pub open spec fn logical_rows(t: Seq<char>, d: char) -> Seq<Seq<char>> {
    gather(physical_lines(t), d, Seq::empty())
}

/// The cells of every logical row of a text.
pub open spec fn parsed_rows(t: Seq<char>, d: char) -> Seq<Seq<Seq<char>>> {
    logical_rows(t, d).map_values(|r: Seq<char>| cells_of(r, d))
}

/// The cells of the row held in `v`.
fn cells_in(v: &Vec<char>, delimiter: char) -> (r: Vec<Cell>)
    ensures
        texts(r@) == cells_of(v@, delimiter),
{
    let mut cells: Vec<Cell> = Vec::new();
    if v.len() == 0 {
        assert(texts(cells@) =~= Seq::<Seq<char>>::empty());
        return cells;
    }
    let mut cur: Vec<char> = Vec::new();
    let mut opened_quote = false;
    let mut i: usize = 0;
    assert(v@.skip(0) =~= v@);
    assert(texts(cells@) =~= Seq::<Seq<char>>::empty());
    while i < v.len()
        invariant
            i <= v.len(),
            v.len() > 0,
            tokenize(v@, delimiter, false, Seq::empty()) == texts(cells@) + tokenize(
                v@.skip(i as int),
                delimiter,
                opened_quote,
                cur@,
            ),
        decreases v.len() - i,
    {
        let c = v[i];
        let ghost rest = v@.skip(i as int);
        assert(rest.drop_first() =~= v@.skip(i + 1));
        if c == delimiter && !opened_quote {
            let ghost before = texts(cells@);
            cells.push(Cell::from_chars(&cur));
            assert(texts(cells@) =~= before.push(cur@));
            assert(before + (seq![cur@] + tokenize(v@.skip(i + 1), delimiter, false, Seq::empty()))
                =~= before.push(cur@) + tokenize(v@.skip(i + 1), delimiter, false, Seq::empty()));
            cur = Vec::new();
            assert(cur@ =~= Seq::<char>::empty());
        } else {
            cur.push(c);
            if c == '"' {
                opened_quote = !opened_quote;
            }
        }
        i += 1;
    }
    let ghost before = texts(cells@);
    assert(v@.skip(i as int) =~= Seq::<char>::empty());
    cells.push(Cell::from_chars(&cur));
    assert(texts(cells@) =~= before.push(cur@));
    assert(before + seq![cur@] =~= before.push(cur@));
    cells
}

/// Splits one logical row into cells at the delimiters that stand outside quotes.
/// Quotes stay in the cells' text; an empty row has no cell.
pub fn parse_cells(row: &str, delimiter: char) -> (r: Vec<Cell>)
    ensures
        texts(r@) == cells_of(row@, delimiter),
{
    let v = chars_of(row);
    cells_in(&v, delimiter)
}

/// `v` with every doubled quote removed, pairing quotes from the left.
fn drop_doubled_quotes(v: &Vec<char>) -> (r: Vec<char>)
    ensures
        r@ == without_doubled_quotes(v@),
{
    let mut out: Vec<char> = Vec::new();
    let mut i: usize = 0;
    assert(v@.skip(0) =~= v@);
    while i < v.len()
        invariant
            i <= v.len(),
            without_doubled_quotes(v@) == out@ + without_doubled_quotes(v@.skip(i as int)),
        decreases v.len() - i,
    {
        let ghost rest = v@.skip(i as int);
        if i + 1 < v.len() && v[i] == '"' && v[i + 1] == '"' {
            assert(rest.skip(2) =~= v@.skip(i + 2));
            i += 2;
        } else {
            assert(rest.skip(1) =~= v@.skip(i + 1));
            let ghost before = out@;
            out.push(v[i]);
            assert(before + (seq![rest[0]] + without_doubled_quotes(rest.skip(1))) =~= out@
                + without_doubled_quotes(rest.skip(1)));
            i += 1;
        }
    }
    assert(v@.skip(i as int) =~= Seq::<char>::empty());
    assert(out@ + Seq::<char>::empty() =~= out@);
    out
}

/// Whether a quoted cell is still open at the end of the text held in `v`.
fn open_quotes_in(v: &Vec<char>, delimiter: char) -> (r: bool)
    ensures
        r == quote_left_open(v@, delimiter),
{
    let t = drop_doubled_quotes(v);
    let n = t.len();
    let mut is_open = false;
    let mut i: usize = 0;
    while i < n
        invariant
            i <= n == t.len(),
            t@ == without_doubled_quotes(v@),
            open_from(t@, delimiter, 0, false) == open_from(t@, delimiter, i as int, is_open),
        decreases n - i,
    {
        if t[i] == '"' {
            if i == 0 {
                is_open = true;
            } else if i == n - 1 {
                is_open = t[i - 1] == delimiter && !is_open;
            } else if t[i + 1] == delimiter && is_open {
                is_open = false;
            } else if t[i - 1] == delimiter {
                is_open = true;
            }
        }
        i += 1;
    }
    is_open
}

/// Whether a quoted cell is still open at the end of `s`, so that a line break
/// after it belongs to the cell. Doubled quotes are read as one unit and change
/// nothing.
pub fn has_open_quotes(s: &str, delimiter: char) -> (r: bool)
    ensures
        r == quote_left_open(s@, delimiter),
{
    let v = chars_of(s);
    open_quotes_in(&v, delimiter)
}

/// The lines of `v`, split at each newline, as read from a file.
fn raw_lines(v: &Vec<char>) -> (r: Vec<Vec<char>>)
    ensures
        views(r@) == lines_from(v@, Seq::empty()),
{
    let mut out: Vec<Vec<char>> = Vec::new();
    let mut cur: Vec<char> = Vec::new();
    let mut i: usize = 0;
    assert(v@.skip(0) =~= v@);
    assert(views(out@) =~= Seq::<Seq<char>>::empty());
    while i < v.len()
        invariant
            i <= v.len(),
            lines_from(v@, Seq::empty()) == views(out@) + lines_from(v@.skip(i as int), cur@),
        decreases v.len() - i,
    {
        let ghost rest = v@.skip(i as int);
        assert(rest.drop_first() =~= v@.skip(i + 1));
        if v[i] == '\n' {
            let ghost before = views(out@);
            out.push(cur);
            assert(views(out@) =~= before.push(cur@));
            cur = Vec::new();
            assert(cur@ =~= Seq::<char>::empty());
            assert(before + (seq![views(out@).last()] + lines_from(v@.skip(i + 1), cur@))
                =~= views(out@) + lines_from(v@.skip(i + 1), cur@));
        } else {
            cur.push(v[i]);
        }
        i += 1;
    }
    assert(v@.skip(i as int) =~= Seq::<char>::empty());
    if cur.len() > 0 {
        let ghost before = views(out@);
        out.push(cur);
        assert(views(out@) =~= before.push(cur@));
        assert(before + seq![cur@] =~= views(out@));
    } else {
        assert(views(out@) + Seq::<Seq<char>>::empty() =~= views(out@));
    }
    out
}

/// Appends to `buf` the characters of `line` up to its trailing carriage returns.
fn push_trimmed(buf: &mut Vec<char>, line: &Vec<char>)
    ensures
        final(buf)@ == old(buf)@ + trim_cr(line@),
{
    let mut end = line.len();
    assert(line@.take(end as int) =~= line@);
    while end > 0 && line[end - 1] == '\r'
        invariant
            end <= line.len(),
            trim_cr(line@) == trim_cr(line@.take(end as int)),
        decreases end,
    {
        assert(line@.take(end as int).drop_last() =~= line@.take(end - 1));
        end -= 1;
    }
    assert(trim_cr(line@) == line@.take(end as int));
    let ghost start = buf@;
    let mut i: usize = 0;
    while i < end
        invariant
            i <= end <= line.len(),
            buf@ == start + line@.take(i as int),
        decreases end - i,
    {
        buf.push(line[i]);
        assert(start + line@.take(i + 1) =~= (start + line@.take(i as int)).push(line@[i as int]));
        i += 1;
    }
}

/// The logical rows of the text held in `v`.
fn rows_in(v: &Vec<char>, delimiter: char) -> (r: Vec<Vec<char>>)
    ensures
        views(r@) == logical_rows(v@, delimiter),
{
    let lines = raw_lines(v);
    let ghost all = physical_lines(v@);
    let mut out: Vec<Vec<char>> = Vec::new();
    let mut buf: Vec<char> = Vec::new();
    let mut i: usize = 0;
    assert(all.skip(0) =~= all);
    assert(views(out@) =~= Seq::<Seq<char>>::empty());
    while i < lines.len()
        invariant
            i <= lines.len(),
            all.len() == lines.len(),
            forall|k: int| 0 <= k < all.len() ==> all[k] == trim_cr(#[trigger] lines@[k]@),
            gather(all, delimiter, Seq::empty()) == views(out@) + gather(
                all.skip(i as int),
                delimiter,
                buf@,
            ),
        decreases lines.len() - i,
    {
        let ghost rest = all.skip(i as int);
        assert(rest.drop_first() =~= all.skip(i + 1));
        assert(rest[0] == trim_cr(lines@[i as int]@));
        push_trimmed(&mut buf, &lines[i]);
        if open_quotes_in(&buf, delimiter) {
            buf.push('\n');
        } else {
            let ghost before = views(out@);
            out.push(buf);
            assert(views(out@) =~= before.push(buf@));
            buf = Vec::new();
            assert(buf@ =~= Seq::<char>::empty());
            assert(before + (seq![views(out@).last()] + gather(all.skip(i + 1), delimiter, buf@))
                =~= views(out@) + gather(all.skip(i + 1), delimiter, buf@));
        }
        i += 1;
    }
    assert(all.skip(i as int) =~= Seq::<Seq<char>>::empty());
    if buf.len() > 0 {
        let ghost before = views(out@);
        out.push(buf);
        assert(views(out@) =~= before.push(buf@));
        assert(before + seq![buf@] =~= views(out@));
    } else {
        assert(views(out@) + Seq::<Seq<char>>::empty() =~= views(out@));
    }
    out
}

/// Splits a text into logical rows: a line break inside an open quoted cell
/// stays in the row; a quote still open at the end of the text leaves the rest
/// as a final row.
pub fn split_rows(text: &str, delimiter: &str) -> (r: Vec<String>)
    requires
        delimiter@.len() == 1,
    ensures
        r@.map_values(|s: String| s@) == logical_rows(text@, delimiter@[0]),
{
    let d = delimiter.get_char(0);
    let v = chars_of(text);
    let rows = rows_in(&v, d);
    let mut out: Vec<String> = Vec::new();
    let mut i: usize = 0;
    while i < rows.len()
        invariant
            i <= rows.len(),
            out@.map_values(|s: String| s@) =~= views(rows@).take(i as int),
        decreases rows.len() - i,
    {
        let ghost before = out@;
        out.push(string_of(&rows[i]));
        assert(out@ =~= before.push(out@.last()));
        assert(views(rows@).take(i + 1) =~= views(rows@).take(i as int).push(rows@[i as int]@));
        i += 1;
    }
    assert(views(rows@).take(i as int) =~= views(rows@));
    out
}

/// The rows of cells of the text held in `v`.
fn table_in(v: &Vec<char>, delimiter: char) -> (r: Vec<Vec<Cell>>)
    ensures
        table(r@) == parsed_rows(v@, delimiter),
{
    let rows = rows_in(v, delimiter);
    let ghost want = parsed_rows(v@, delimiter);
    let mut out: Vec<Vec<Cell>> = Vec::new();
    let mut i: usize = 0;
    while i < rows.len()
        invariant
            i <= rows.len(),
            views(rows@) == logical_rows(v@, delimiter),
            want == parsed_rows(v@, delimiter),
            table(out@) =~= want.take(i as int),
        decreases rows.len() - i,
    {
        let ghost before = out@;
        out.push(cells_in(&rows[i], delimiter));
        assert(out@ =~= before.push(out@.last()));
        assert(want.take(i + 1) =~= want.take(i as int).push(want[i as int]));
        i += 1;
    }
    assert(want.take(i as int) =~= want);
    out
}

/// A reader of delimited text, yielding its logical rows as cells.
pub struct CSVReader {
    text: String,
    delimiter: char,
}

impl View for CSVReader {
    type V = (Seq<char>, char);

    closed spec fn view(&self) -> (Seq<char>, char) {
        (self.text@, self.delimiter)
    }
}

impl CSVReader {
    pub fn new(text: &str, delimiter: char) -> (r: Self)
        ensures
            r@ == (text@, delimiter),
    {
        CSVReader { text: text.to_owned(), delimiter }
    }

    /// The cells of every logical row, in order.
    pub fn into_lines(self) -> (r: Vec<Vec<Cell>>)
        ensures
            table(r@) == parsed_rows(self@.0, self@.1),
    {
        let v = chars_of(self.text.as_str());
        table_in(&v, self.delimiter)
    }
}

/// Decodes a file's contents in the encoding named `encoding` and splits the text
/// into rows of cells.
pub fn parse_file(contents: &[u8], delimiter: char, encoding: &str) -> (r: Result<
    Vec<Vec<Cell>>,
    CSVError,
>)
    ensures
        !crate::file::is_encoding_label(encoding@) <==> (r matches Err(
            CSVError::UnknownEncoding(UnknownEncoding::Encoding(e)),
        ) && e@ == encoding@),
        crate::file::is_encoding_label(encoding@) ==> r is Ok,
        r matches Ok(rows) ==> table(rows@) == parsed_rows(decoded(encoding@, contents@), delimiter),
{
    let text = read_encoded(contents, encoding)?;
    let reader = CSVReader::new(text.as_str(), delimiter);
    Ok(reader.into_lines())
}

/// Cells joined into one row text, the delimiter between each two.
pub open spec fn join(cells: Seq<Seq<char>>, d: char) -> Seq<char>
    decreases cells.len(),
{
    if cells.len() == 0 {
        Seq::empty()
    } else if cells.len() == 1 {
        cells[0]
    } else {
        cells[0] + seq![d] + join(cells.drop_first(), d)
    }
}

/// A cell text without quotes and without the delimiter.
pub open spec fn plain_cell(c: Seq<char>, d: char) -> bool {
    !c.contains(quote()) && !c.contains(d)
}

/// A cell text that opens and closes with a quote, every quote between them
/// being doubled.
pub open spec fn quoted_cell(c: Seq<char>) -> bool {
    &&& c.len() >= 2
    &&& c[0] == quote()
    &&& c.last() == quote()
    &&& only_doubled_quotes(c.subrange(1, c.len() - 1))
}

/// A well-formed cell text: plain, or properly quoted.
pub open spec fn well_formed_cell(c: Seq<char>, d: char) -> bool {
    plain_cell(c, d) || quoted_cell(c)
}

proof fn lemma_plain_passes(x: Seq<char>, r: Seq<char>, d: char, cur: Seq<char>)
    requires
        !x.contains(quote()),
        !x.contains(d),
    ensures
        tokenize(x + r, d, false, cur) == tokenize(r, d, false, cur + x),
    decreases x.len(),
{
    if x.len() == 0 {
        assert(x + r =~= r);
        assert(cur + x =~= cur);
    } else {
        assert((x + r)[0] == x[0]);
        assert((x + r).drop_first() =~= x.drop_first() + r);
        assert(!x.drop_first().contains(quote()) && !x.drop_first().contains(d)) by {
            if x.drop_first().contains(quote()) {
                let k = choose|k: int| 0 <= k < x.drop_first().len() && x.drop_first()[k] == quote();
                assert(x[k + 1] == quote());
            }
            if x.drop_first().contains(d) {
                let k = choose|k: int| 0 <= k < x.drop_first().len() && x.drop_first()[k] == d;
                assert(x[k + 1] == d);
            }
        }
        assert(x[0] != d && x[0] != quote()) by {
            assert(x.contains(x[0]));
        }
        lemma_plain_passes(x.drop_first(), r, d, cur.push(x[0]));
        assert(cur.push(x[0]) + x.drop_first() =~= cur + x);
    }
}

proof fn lemma_inner_passes(x: Seq<char>, r: Seq<char>, d: char, cur: Seq<char>)
    requires
        only_doubled_quotes(x),
        d != quote(),
    ensures
        tokenize(x + r, d, true, cur) == tokenize(r, d, true, cur + x),
    decreases x.len(),
{
    if x.len() == 0 {
        assert(x + r =~= r);
        assert(cur + x =~= cur);
    } else if x[0] == quote() {
        let s = x + r;
        assert(s[0] == quote() && s[1] == quote());
        assert(s.drop_first()[0] == quote());
        assert(s.drop_first().drop_first() =~= x.skip(2) + r);
        assert(tokenize(s, d, true, cur) == tokenize(s.drop_first(), d, false, cur.push(quote())));
        assert(tokenize(s.drop_first(), d, false, cur.push(quote())) == tokenize(
            s.drop_first().drop_first(),
            d,
            true,
            cur.push(quote()).push(quote()),
        ));
        lemma_inner_passes(x.skip(2), r, d, cur.push(quote()).push(quote()));
        assert(cur.push(quote()).push(quote()) + x.skip(2) =~= cur + x);
    } else {
        assert((x + r)[0] == x[0]);
        assert((x + r).drop_first() =~= x.skip(1) + r);
        assert(tokenize(x + r, d, true, cur) == tokenize(x.skip(1) + r, d, true, cur.push(x[0])));
        lemma_inner_passes(x.skip(1), r, d, cur.push(x[0]));
        assert(cur.push(x[0]) + x.skip(1) =~= cur + x);
    }
}

proof fn lemma_cell_passes(c: Seq<char>, r: Seq<char>, d: char, cur: Seq<char>)
    requires
        well_formed_cell(c, d),
        quoted_cell(c) ==> d != quote(),
    ensures
        tokenize(c + r, d, false, cur) == tokenize(r, d, false, cur + c),
{
    if plain_cell(c, d) {
        lemma_plain_passes(c, r, d, cur);
    } else {
        let inner = c.subrange(1, c.len() - 1);
        let tail = seq![quote()] + r;
        assert((c + r)[0] == quote());
        assert((c + r).drop_first() =~= inner + tail);
        lemma_inner_passes(inner, tail, d, cur.push(quote()));
        assert(tail[0] == quote());
        assert(tail.drop_first() =~= r);
        assert(cur.push(quote()) + inner + seq![quote()] =~= cur + c);
        assert((cur.push(quote()) + inner).push(quote()) =~= cur + c);
    }
}

proof fn lemma_join_tokenizes(cells: Seq<Seq<char>>, d: char)
    requires
        cells.len() >= 1,
        forall|k: int| 0 <= k < cells.len() ==> well_formed_cell(#[trigger] cells[k], d),
        forall|k: int| 0 <= k < cells.len() && quoted_cell(#[trigger] cells[k]) ==> d != quote(),
    ensures
        tokenize(join(cells, d), d, false, Seq::empty()) == cells,
    decreases cells.len(),
{
    let c = cells[0];
    if cells.len() == 1 {
        lemma_cell_passes(c, Seq::empty(), d, Seq::empty());
        assert(c + Seq::<char>::empty() =~= c);
        assert(Seq::<char>::empty() + c =~= c);
        assert(seq![c] =~= cells);
    } else {
        let rest = cells.drop_first();
        assert forall|k: int| 0 <= k < rest.len() implies well_formed_cell(#[trigger] rest[k], d) by {
            assert(rest[k] == cells[k + 1]);
        }
        assert forall|k: int| 0 <= k < rest.len() && quoted_cell(#[trigger] rest[k]) implies d
            != quote() by {
            assert(rest[k] == cells[k + 1]);
        }
        lemma_join_tokenizes(rest, d);
        let tail = seq![d] + join(rest, d);
        assert(join(cells, d) =~= c + tail);
        lemma_cell_passes(c, tail, d, Seq::empty());
        assert(Seq::<char>::empty() + c =~= c);
        assert(tail[0] == d);
        assert(tail.drop_first() =~= join(rest, d));
        assert(seq![c] + rest =~= cells);
    }
}

proof fn lemma_join_nonempty(cells: Seq<Seq<char>>, d: char)
    requires
        cells.len() >= 2,
    ensures
        join(cells, d).len() > 0,
{
    assert(join(cells, d) =~= cells[0] + seq![d] + join(cells.drop_first(), d));
}

/// Joining cells that hold neither the delimiter nor a quote with the delimiter,
/// then splitting the text again, gives back the same cells; a single empty cell
/// joins to the empty row, which has no cell.
pub proof fn lemma_join_round_trip(cells: Seq<Seq<char>>, d: char)
    requires
        forall|k: int|
            0 <= k < cells.len() ==> !(#[trigger] cells[k]).contains(d) && !cells[k].contains(
                quote(),
            ),
        !(cells.len() == 1 && cells[0].len() == 0),
    ensures
        cells_of(join(cells, d), d) == cells,
{
    if cells.len() == 0 {
        assert(cells =~= Seq::<Seq<char>>::empty());
    } else {
        assert forall|k: int| 0 <= k < cells.len() implies well_formed_cell(#[trigger] cells[k], d) by {
        }
        assert forall|k: int| 0 <= k < cells.len() && quoted_cell(#[trigger] cells[k]) implies d
            != quote() by {
            assert(cells[k].contains(cells[k][0]));
        }
        lemma_join_tokenizes(cells, d);
        if cells.len() >= 2 {
            lemma_join_nonempty(cells, d);
        }
    }
}

/// A row made of well-formed cells, plain or properly quoted, splits back into
/// exactly those cells, and every one of them follows the quoting rule.
pub proof fn lemma_well_formed_row(cells: Seq<Seq<char>>, d: char)
    requires
        d != quote(),
        forall|k: int| 0 <= k < cells.len() ==> well_formed_cell(#[trigger] cells[k], d),
        !(cells.len() == 1 && cells[0].len() == 0),
    ensures
        cells_of(join(cells, d), d) == cells,
        forall|k: int|
            0 <= k < cells_of(join(cells, d), d).len() ==> correctly_quoted_text(
                #[trigger] cells_of(join(cells, d), d)[k],
            ),
{
    if cells.len() == 0 {
        assert(cells =~= Seq::<Seq<char>>::empty());
    } else {
        lemma_join_tokenizes(cells, d);
        if cells.len() >= 2 {
            lemma_join_nonempty(cells, d);
        }
    }
    assert forall|k: int| 0 <= k < cells.len() implies correctly_quoted_text(#[trigger] cells[k]) by {
        let c = cells[k];
        if quoted_cell(c) {
            assert(!is_white_space(c[0]));
            assert(trim_start(c) == c);
            assert(!is_white_space(c.last()));
            assert(trim_end(c) == c);
            assert(trim(c) == c);
        }
    }
}

} // verus!
