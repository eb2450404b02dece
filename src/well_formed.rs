use vstd::prelude::*;

use crate::cell::{correctly_quoted_text, only_doubled_quotes, quote};
use crate::parser::CSVReader;
use crate::parser::{
    cells_of, gather, join, lemma_well_formed_row, lines_from, open_from, parsed_rows,
    physical_lines, trim_cr, logical_rows, plain_cell, quote_left_open, quote_step, quoted_cell, well_formed_cell,
    without_doubled_quotes,
};

verus! {

/// `s` without its quotes.
pub open spec fn strip_quotes(s: Seq<char>) -> Seq<char>
    decreases s.len(),
{
    if s.len() == 0 {
        s
    } else if s[0] == quote() {
        strip_quotes(s.skip(1))
    } else {
        seq![s[0]] + strip_quotes(s.skip(1))
    }
}

proof fn lemma_removal_concat(a: Seq<char>, b: Seq<char>)
    requires
        a.len() == 0 || b.len() == 0 || a.last() != quote() || b[0] != quote(),
    ensures
        without_doubled_quotes(a + b) == without_doubled_quotes(a) + without_doubled_quotes(b),
    decreases a.len(),
{
    let q = quote();
    let s = a + b;
    if a.len() == 0 {
        assert(s =~= b);
        assert(without_doubled_quotes(a) + without_doubled_quotes(b) =~= without_doubled_quotes(b));
    } else if a.len() >= 2 && a[0] == q && a[1] == q {
        assert(s[0] == q && s[1] == q);
        assert(s.skip(2) =~= a.skip(2) + b);
        lemma_removal_concat(a.skip(2), b);
    } else if a.len() == 1 && a[0] == q {
        assert(b.len() == 0 || b[0] != q);
        if b.len() == 0 {
            assert(s =~= a);
            assert(without_doubled_quotes(b) =~= Seq::<char>::empty());
            assert(without_doubled_quotes(a) + without_doubled_quotes(b) =~= without_doubled_quotes(a));
        } else {
            assert(s[1] == b[0]);
            assert(s.skip(1) =~= b);
            assert(a.skip(1) =~= Seq::<char>::empty());
            assert(without_doubled_quotes(a.skip(1)) =~= Seq::<char>::empty());
            assert(without_doubled_quotes(a) =~= seq![q]);
        }
    } else {
        assert(s[0] == a[0]);
        assert(!(s.len() >= 2 && s[0] == q && s[1] == q)) by {
            if a[0] == q {
                assert(a.len() >= 2 && a[1] != q);
                assert(s[1] == a[1]);
            }
        }
        assert(s.skip(1) =~= a.skip(1) + b);
        if a.len() > 1 {
            assert(a.skip(1).last() == a.last());
        }
        lemma_removal_concat(a.skip(1), b);
        assert(seq![a[0]] + (without_doubled_quotes(a.skip(1)) + without_doubled_quotes(b)) =~= (
        seq![a[0]] + without_doubled_quotes(a.skip(1))) + without_doubled_quotes(b));
    }
}

proof fn lemma_removal_no_quote(s: Seq<char>)
    requires
        !s.contains(quote()),
    ensures
        without_doubled_quotes(s) == s,
        strip_quotes(s) == s,
    decreases s.len(),
{
    if s.len() > 0 {
        assert(s.contains(s[0]));
        assert(!s.skip(1).contains(quote())) by {
            if s.skip(1).contains(quote()) {
                let k = choose|k: int| 0 <= k < s.skip(1).len() && s.skip(1)[k] == quote();
                assert(s[k + 1] == quote());
            }
        }
        lemma_removal_no_quote(s.skip(1));
        assert(seq![s[0]] + s.skip(1) =~= s);
    }
}

/// Removal on text made only of doubled quotes and other characters, with no
/// quote pending, leaves the other characters.
proof fn lemma_removal_even(inner: Seq<char>)
    requires
        only_doubled_quotes(inner),
    ensures
        without_doubled_quotes(inner) == strip_quotes(inner),
    decreases inner.len(),
{
    let q = quote();
    if inner.len() > 0 {
        if inner[0] == q {
            lemma_removal_even(inner.skip(2));
            assert(inner.skip(1)[0] == q);
            assert(inner.skip(1).skip(1) =~= inner.skip(2));
            assert(strip_quotes(inner.skip(1)) == strip_quotes(inner.skip(2)));
            assert(strip_quotes(inner) == strip_quotes(inner.skip(2)));
            assert(without_doubled_quotes(inner) == without_doubled_quotes(inner.skip(2)));
        } else {
            lemma_removal_even(inner.skip(1));
        }
    }
}

proof fn lemma_removal_single()
    ensures
        without_doubled_quotes(seq![quote()]) == seq![quote()],
{
    let s = seq![quote()];
    assert(s.skip(1) =~= Seq::<char>::empty());
    assert(without_doubled_quotes(s.skip(1)) =~= Seq::<char>::empty());
    assert(seq![s[0]] + Seq::<char>::empty() =~= s);
}

/// Such text followed by one quote: the quote stays, the doubled quotes go.
proof fn lemma_removal_close(inner: Seq<char>)
    requires
        only_doubled_quotes(inner),
    ensures
        without_doubled_quotes(inner + seq![quote()]) == strip_quotes(inner) + seq![quote()],
    decreases inner.len(),
{
    let q = quote();
    let s = inner + seq![q];
    if inner.len() == 0 {
        assert(s =~= seq![q]);
        lemma_removal_single();
        assert(strip_quotes(inner) + seq![q] =~= seq![q]);
    } else if inner[0] == q {
        assert(s[0] == q && s[1] == q);
        assert(s.skip(2) =~= inner.skip(2) + seq![q]);
        assert(inner.skip(1)[0] == q);
        assert(inner.skip(1).skip(1) =~= inner.skip(2));
        lemma_removal_close(inner.skip(2));
        assert(strip_quotes(inner.skip(1)) == strip_quotes(inner.skip(2)));
    } else {
        assert(s[0] == inner[0]);
        assert(s.skip(1) =~= inner.skip(1) + seq![q]);
        lemma_removal_close(inner.skip(1));
        assert(without_doubled_quotes(s) == seq![inner[0]] + without_doubled_quotes(s.skip(1)));
        assert(seq![inner[0]] + (strip_quotes(inner.skip(1)) + seq![q]) =~= (seq![inner[0]]
            + strip_quotes(inner.skip(1))) + seq![q]);
    }
}

/// One quote pending before such text: the quote stays, the doubled quotes go.
proof fn lemma_removal_open(inner: Seq<char>)
    requires
        only_doubled_quotes(inner),
    ensures
        without_doubled_quotes(seq![quote()] + inner) == seq![quote()] + strip_quotes(inner),
    decreases inner.len(),
{
    let q = quote();
    let s = seq![q] + inner;
    if inner.len() == 0 {
        assert(s =~= seq![q]);
        lemma_removal_single();
        assert(strip_quotes(inner) =~= inner);
        assert(seq![q] + inner =~= seq![q]);
    } else if inner[0] == q {
        assert(s[0] == q && s[1] == q);
        assert(s.skip(2) =~= seq![q] + inner.skip(2));
        assert(inner.skip(1)[0] == q);
        assert(inner.skip(1).skip(1) =~= inner.skip(2));
        lemma_removal_open(inner.skip(2));
        assert(strip_quotes(inner.skip(1)) == strip_quotes(inner.skip(2)));
    } else {
        assert(s[1] == inner[0]);
        assert(s.skip(1) =~= inner);
        lemma_removal_even(inner);
        assert(without_doubled_quotes(s) == seq![q] + without_doubled_quotes(s.skip(1)));
    }
}

/// Removal on a quoted cell: the quotes at both ends stay around the other
/// characters, unless there are none, and then nothing stays.
proof fn lemma_removal_quoted(inner: Seq<char>)
    requires
        only_doubled_quotes(inner),
    ensures
        strip_quotes(inner).len() > 0 ==> without_doubled_quotes(seq![quote()] + inner + seq![quote()])
            == seq![quote()] + strip_quotes(inner) + seq![quote()],
        strip_quotes(inner).len() == 0 ==> without_doubled_quotes(seq![quote()] + inner + seq![quote()])
            == Seq::<char>::empty(),
    decreases inner.len(),
{
    let q = quote();
    let s = seq![q] + inner + seq![q];
    if inner.len() == 0 {
        assert(s =~= seq![q, q]);
        assert(s.skip(2) =~= Seq::<char>::empty());
        assert(without_doubled_quotes(s.skip(2)) =~= Seq::<char>::empty());
        assert(strip_quotes(inner) =~= Seq::<char>::empty());
    } else if inner[0] == q {
        assert(s[0] == q && s[1] == q);
        assert(s.skip(2) =~= seq![q] + inner.skip(2) + seq![q]);
        assert(inner.skip(1)[0] == q);
        assert(inner.skip(1).skip(1) =~= inner.skip(2));
        lemma_removal_quoted(inner.skip(2));
        assert(strip_quotes(inner.skip(1)) == strip_quotes(inner.skip(2)));
    } else {
        assert(s[1] == inner[0]);
        assert(s.skip(1) =~= inner + seq![q]);
        lemma_removal_close(inner);
        assert(without_doubled_quotes(s) == seq![q] + without_doubled_quotes(s.skip(1)));
        assert(strip_quotes(inner) =~= seq![inner[0]] + strip_quotes(inner.skip(1)));
        assert(seq![q] + (strip_quotes(inner) + seq![q]) =~= seq![q] + strip_quotes(inner) + seq![q]);
    }
}

/// A quoted cell after doubled quotes are removed: a quote, other characters, a
/// quote.
pub open spec fn closed_piece(p: Seq<char>) -> bool {
    &&& p.len() >= 3
    &&& p[0] == quote()
    &&& p.last() == quote()
    &&& !p.subrange(1, p.len() - 1).contains(quote())
}

/// A cell after doubled quotes are removed: without quotes, or a closed quote.
pub open spec fn good_piece(p: Seq<char>) -> bool {
    !p.contains(quote()) || closed_piece(p)
}

proof fn lemma_scan_stretch(t: Seq<char>, d: char, i: int, k: int, o: bool)
    requires
        0 <= i <= k <= t.len(),
        forall|j: int| i <= j < k ==> t[j] != quote(),
    ensures
        open_from(t, d, i, o) == open_from(t, d, k, o),
    decreases k - i,
{
    if i < k {
        assert(quote_step(t, d, i, o) == o);
        lemma_scan_stretch(t, d, i + 1, k, o);
    }
}

proof fn lemma_scan_piece(t: Seq<char>, d: char, i: int, p: Seq<char>)
    requires
        d != quote(),
        0 <= i,
        i + p.len() <= t.len(),
        t.subrange(i, i + p.len()) == p,
        i == 0 || t[i - 1] == d,
        i + p.len() == t.len() || t[i + p.len()] == d,
        good_piece(p),
    ensures
        open_from(t, d, i, false) == open_from(t, d, i + p.len(), false),
{
    let q = quote();
    let e = i + p.len();
    if !p.contains(q) {
        assert forall|j: int| i <= j < e implies t[j] != q by {
            assert(t[j] == p[j - i]);
            assert(p.contains(p[j - i]));
        }
        lemma_scan_stretch(t, d, i, e, false);
    } else {
        assert(t[i] == p[0]);
        assert(t[e - 1] == p.last());
        assert(quote_step(t, d, i, false) == true);
        assert forall|j: int| i + 1 <= j < e - 1 implies t[j] != q by {
            let mid = p.subrange(1, p.len() - 1);
            assert(t[j] == p[j - i]);
            assert(mid[j - i - 1] == p[j - i]);
            assert(mid.contains(mid[j - i - 1]));
        }
        lemma_scan_stretch(t, d, i + 1, e - 1, true);
        assert(quote_step(t, d, e - 1, true) == false);
    }
}

/// Scanning a row of good pieces joined by the delimiter, from a closed state,
/// ends in a closed state.
proof fn lemma_scan_join(t: Seq<char>, d: char, i: int, pieces: Seq<Seq<char>>)
    requires
        d != quote(),
        0 <= i,
        i + join(pieces, d).len() <= t.len(),
        t.subrange(i, i + join(pieces, d).len()) == join(pieces, d),
        i == 0 || t[i - 1] == d,
        i + join(pieces, d).len() == t.len() || t[i + join(pieces, d).len()] == d,
        forall|k: int| 0 <= k < pieces.len() ==> good_piece(#[trigger] pieces[k]),
    ensures
        open_from(t, d, i, false) == open_from(t, d, i + join(pieces, d).len(), false),
    decreases pieces.len(),
{
    if pieces.len() == 1 {
        lemma_scan_piece(t, d, i, pieces[0]);
    } else if pieces.len() >= 2 {
        let first = pieces[0];
        let rest = pieces.drop_first();
        let j = join(pieces, d);
        let jr = join(rest, d);
        assert(j == first + seq![d] + jr);
        let m = i + first.len();
        assert(t.subrange(i, m) =~= first) by {
            assert forall|x: int| 0 <= x < first.len() implies t.subrange(i, m)[x] == first[x] by {
                assert(t.subrange(i, i + j.len())[x] == j[x]);
            }
        }
        assert(t[m] == d) by {
            assert(t.subrange(i, i + j.len())[first.len() as int] == j[first.len() as int]);
        }
        lemma_scan_piece(t, d, i, first);
        assert(quote_step(t, d, m, false) == false);
        assert(open_from(t, d, m, false) == open_from(t, d, m + 1, false));
        assert(t.subrange(m + 1, m + 1 + jr.len()) =~= jr) by {
            assert forall|x: int| 0 <= x < jr.len() implies t.subrange(m + 1, m + 1 + jr.len())[x]
                == jr[x] by {
                assert(t.subrange(i, i + j.len())[first.len() + 1 + x] == j[first.len() + 1 + x]);
            }
        }
        assert forall|k: int| 0 <= k < rest.len() implies good_piece(#[trigger] rest[k]) by {
            assert(rest[k] == pieces[k + 1]);
        }
        lemma_scan_join(t, d, m + 1, rest);
    }
}

/// A well-formed cell that can stand in a text of lines: no carriage return, and
/// a line break only inside quotes.
pub open spec fn line_cell(c: Seq<char>, d: char) -> bool {
    &&& well_formed_cell(c, d)
    &&& !c.contains('\r')
    &&& plain_cell(c, d) ==> !c.contains('\n')
}

/// The cells after doubled quotes are removed.
pub open spec fn pieces_of(cells: Seq<Seq<char>>) -> Seq<Seq<char>> {
    cells.map_values(|c: Seq<char>| without_doubled_quotes(c))
}

proof fn lemma_removal_delimiter(d: char, b: Seq<char>)
    requires
        d != quote(),
    ensures
        without_doubled_quotes(seq![d] + b) == seq![d] + without_doubled_quotes(b),
{
    let s = seq![d] + b;
    assert(s[0] == d);
    assert(s.skip(1) =~= b);
}

proof fn lemma_removal_join(cells: Seq<Seq<char>>, d: char)
    requires
        d != quote(),
    ensures
        without_doubled_quotes(join(cells, d)) == join(pieces_of(cells), d),
    decreases cells.len(),
{
    let ps = pieces_of(cells);
    if cells.len() == 0 {
        assert(without_doubled_quotes(Seq::<char>::empty()) =~= Seq::<char>::empty());
    } else if cells.len() == 1 {
    } else {
        let rest = cells.drop_first();
        lemma_removal_join(rest, d);
        assert(pieces_of(rest) =~= ps.drop_first());
        let b = seq![d] + join(rest, d);
        assert(join(cells, d) =~= cells[0] + b);
        lemma_removal_concat(cells[0], b);
        lemma_removal_delimiter(d, join(rest, d));
        assert(join(ps, d) =~= ps[0] + (seq![d] + join(ps.drop_first(), d)));
    }
}

proof fn lemma_piece_good(c: Seq<char>, d: char)
    requires
        well_formed_cell(c, d),
    ensures
        good_piece(without_doubled_quotes(c)),
{
    let q = quote();
    if plain_cell(c, d) {
        lemma_removal_no_quote(c);
    } else {
        let inner = c.subrange(1, c.len() - 1);
        assert(c =~= seq![q] + inner + seq![q]);
        lemma_removal_quoted(inner);
        lemma_strip_has_no_quote(inner);
        if strip_quotes(inner).len() > 0 {
            let p = seq![q] + strip_quotes(inner) + seq![q];
            assert(p.subrange(1, p.len() - 1) =~= strip_quotes(inner));
        } else {
            assert(!Seq::<char>::empty().contains(q));
        }
    }
}

proof fn lemma_strip_has_no_quote(s: Seq<char>)
    ensures
        !strip_quotes(s).contains(quote()),
    decreases s.len(),
{
    if s.len() > 0 {
        lemma_strip_has_no_quote(s.skip(1));
        if s[0] != quote() {
            let r = strip_quotes(s.skip(1));
            assert forall|k: int| 0 <= k < (seq![s[0]] + r).len() implies (seq![s[0]] + r)[k]
                != quote() by {
                if k > 0 {
                    assert((seq![s[0]] + r)[k] == r[k - 1]);
                    assert(r.contains(r[k - 1]));
                }
            }
        }
    }
}

proof fn lemma_pieces_good(cells: Seq<Seq<char>>, d: char)
    requires
        forall|k: int| 0 <= k < cells.len() ==> well_formed_cell(#[trigger] cells[k], d),
    ensures
        forall|k: int| 0 <= k < cells.len() ==> good_piece(#[trigger] pieces_of(cells)[k]),
{
    assert forall|k: int| 0 <= k < cells.len() implies good_piece(#[trigger] pieces_of(cells)[k]) by {
        lemma_piece_good(cells[k], d);
    }
}

/// A row of well-formed cells leaves no quote open.
proof fn lemma_row_closed(cells: Seq<Seq<char>>, d: char)
    requires
        d != quote(),
        forall|k: int| 0 <= k < cells.len() ==> well_formed_cell(#[trigger] cells[k], d),
    ensures
        !quote_left_open(join(cells, d), d),
{
    let t = join(pieces_of(cells), d);
    lemma_removal_join(cells, d);
    lemma_pieces_good(cells, d);
    assert(t.subrange(0, t.len() as int) =~= t);
    lemma_scan_join(t, d, 0, pieces_of(cells));
}

/// The text of the first `k` cells of a row, with the delimiter that follows them.
pub open spec fn prefix_join(cells: Seq<Seq<char>>, k: int, d: char) -> Seq<char> {
    if k <= 0 {
        Seq::empty()
    } else {
        join(cells.take(k), d) + seq![d]
    }
}

proof fn lemma_locate_newline(cells: Seq<Seq<char>>, d: char, p: int) -> (r: (int, int))
    requires
        d != '\n',
        0 <= p < join(cells, d).len(),
        join(cells, d)[p] == '\n',
    ensures
        0 <= r.0 < cells.len(),
        0 <= r.1 < cells[r.0].len(),
        cells[r.0][r.1] == '\n',
        join(cells, d).take(p) == prefix_join(cells, r.0, d) + cells[r.0].take(r.1),
    decreases cells.len(),
{
    let j = join(cells, d);
    let c0 = cells[0];
    if cells.len() == 1 {
        assert(j.take(p) =~= Seq::<char>::empty() + c0.take(p));
        (0, p)
    } else {
        let rest = cells.drop_first();
        assert(j =~= c0 + seq![d] + join(rest, d));
        if p < c0.len() {
            assert(j[p] == c0[p]);
            assert(j.take(p) =~= Seq::<char>::empty() + c0.take(p));
            (0, p)
        } else {
            assert(p != c0.len());
            let p2 = p - c0.len() - 1;
            assert(join(rest, d)[p2] == j[p]);
            let r2 = lemma_locate_newline(rest, d, p2);
            let k = r2.0 + 1;
            assert(rest[r2.0] == cells[k]);
            assert(cells.take(k).drop_first() =~= rest.take(r2.0));
            if r2.0 == 0 {
                assert(cells.take(k) =~= seq![c0]);
                assert(j.take(p) =~= c0 + seq![d] + join(rest, d).take(p2));
                assert(prefix_join(cells, k, d) =~= c0 + seq![d]);
            } else {
                assert(join(cells.take(k), d) =~= c0 + seq![d] + join(rest.take(r2.0), d));
                assert(j.take(p) =~= c0 + seq![d] + join(rest, d).take(p2));
            }
            (k, r2.1)
        }
    }
}

proof fn lemma_doubled_take(s: Seq<char>, j: int)
    requires
        only_doubled_quotes(s),
        0 <= j < s.len(),
        s[j] != quote(),
    ensures
        only_doubled_quotes(s.take(j)),
    decreases s.len(),
{
    let q = quote();
    if j > 0 {
        if s[0] == q {
            assert(j >= 2);
            lemma_doubled_take(s.skip(2), j - 2);
            assert(s.take(j).skip(2) =~= s.skip(2).take(j - 2));
        } else {
            lemma_doubled_take(s.skip(1), j - 1);
            assert(s.take(j).skip(1) =~= s.skip(1).take(j - 1));
        }
    } else {
        assert(s.take(j).len() == 0);
    }
}

/// In a row of such cells, the text before a line break leaves a quote open.
proof fn lemma_row_open_at_newline(cells: Seq<Seq<char>>, d: char, p: int)
    requires
        d != quote(),
        d != '\n',
        forall|k: int| 0 <= k < cells.len() ==> line_cell(#[trigger] cells[k], d),
        0 <= p < join(cells, d).len(),
        join(cells, d)[p] == '\n',
    ensures
        quote_left_open(join(cells, d).take(p), d),
{
    let q = quote();
    let (k, r) = lemma_locate_newline(cells, d, p);
    let c = cells[k];
    assert(line_cell(c, d));
    assert(c.contains('\n'));
    assert(quoted_cell(c));
    let inner = c.subrange(1, c.len() - 1);
    assert(r >= 1 && r < c.len() - 1);
    let cut = inner.take(r - 1);
    assert(inner[r - 1] == '\n');
    lemma_doubled_take(inner, r - 1);
    assert(c.take(r) =~= seq![q] + cut);
    lemma_removal_open(cut);
    let x = strip_quotes(cut);
    lemma_strip_has_no_quote(cut);
    let a = prefix_join(cells, k, d);
    let whole = a + c.take(r);
    lemma_removal_concat(a, c.take(r));
    let t = without_doubled_quotes(whole);
    let s0 = a.len();
    if k == 0 {
        assert(without_doubled_quotes(a) =~= Seq::<char>::empty());
        assert(t =~= seq![q] + x);
        assert(quote_step(t, d, 0, false) == true);
        assert forall|i: int| 1 <= i < t.len() implies t[i] != q by {
            assert(t[i] == x[i - 1]);
            assert(x.contains(x[i - 1]));
        }
        lemma_scan_stretch(t, d, 1, t.len() as int, true);
    } else {
        let ck = cells.take(k);
        let jk = join(ck, d);
        let ps = pieces_of(ck);
        lemma_removal_concat(jk, seq![d]);
        lemma_removal_delimiter(d, Seq::empty());
        assert(seq![d] + Seq::<char>::empty() =~= seq![d]);
        assert(without_doubled_quotes(Seq::<char>::empty()) =~= Seq::<char>::empty());
        lemma_removal_join(ck, d);
        let jp = join(ps, d);
        assert(t =~= jp + seq![d] + seq![q] + x);
        assert forall|i: int| 0 <= i < ck.len() implies well_formed_cell(#[trigger] ck[i], d) by {
            assert(ck[i] == cells[i]);
        }
        lemma_pieces_good(ck, d);
        assert(t.subrange(0, jp.len() as int) =~= jp);
        assert(t[jp.len() as int] == d);
        lemma_scan_join(t, d, 0, ps);
        let m = jp.len() as int;
        assert(quote_step(t, d, m, false) == false);
        assert(open_from(t, d, m, false) == open_from(t, d, m + 1, false));
        assert(t[m + 1] == q);
        assert(quote_step(t, d, m + 1, false) == true);
        assert forall|i: int| m + 2 <= i < t.len() implies t[i] != q by {
            assert(t[i] == x[i - m - 2]);
            assert(x.contains(x[i - m - 2]));
        }
        lemma_scan_stretch(t, d, m + 2, t.len() as int, true);
    }
}

/// The lines of one row's text, split at each line break.
pub open spec fn split_from(r: Seq<char>, cur: Seq<char>) -> Seq<Seq<char>>
    decreases r.len(),
{
    if r.len() == 0 {
        seq![cur]
    } else if r[0] == '\n' {
        seq![cur] + split_from(r.drop_first(), Seq::empty())
    } else {
        split_from(r.drop_first(), cur.push(r[0]))
    }
}

/// Rows of cells written as a text: each row's cells joined by the delimiter,
/// and each row ended by a line break.
pub open spec fn text_of(rows: Seq<Seq<Seq<char>>>, d: char) -> Seq<char>
    decreases rows.len(),
{
    if rows.len() == 0 {
        Seq::empty()
    } else {
        join(rows[0], d) + seq!['\n'] + text_of(rows.drop_first(), d)
    }
}

proof fn lemma_lines_of_row(r: Seq<char>, rest: Seq<char>, cur: Seq<char>)
    ensures
        lines_from(r + seq!['\n'] + rest, cur) == split_from(r, cur) + lines_from(rest, Seq::empty()),
    decreases r.len(),
{
    let s = r + seq!['\n'] + rest;
    if r.len() == 0 {
        assert(s[0] == '\n');
        assert(s.drop_first() =~= rest);
    } else {
        assert(s[0] == r[0]);
        assert(s.drop_first() =~= r.drop_first() + seq!['\n'] + rest);
        if r[0] == '\n' {
            lemma_lines_of_row(r.drop_first(), rest, Seq::empty());
            assert(seq![cur] + (split_from(r.drop_first(), Seq::empty()) + lines_from(
                rest,
                Seq::empty(),
            )) =~= seq![cur] + split_from(r.drop_first(), Seq::empty()) + lines_from(
                rest,
                Seq::empty(),
            ));
        } else {
            lemma_lines_of_row(r.drop_first(), rest, cur.push(r[0]));
        }
    }
}

/// The row's lines are gathered back into the whole row.
proof fn lemma_gather_row(
    cells: Seq<Seq<char>>,
    d: char,
    j: int,
    buf: Seq<char>,
    cur: Seq<char>,
    more: Seq<Seq<char>>,
)
    requires
        d != quote(),
        d != '\n',
        forall|k: int| 0 <= k < cells.len() ==> line_cell(#[trigger] cells[k], d),
        0 <= j <= join(cells, d).len(),
        buf + cur == join(cells, d).take(j),
    ensures
        gather(split_from(join(cells, d).skip(j), cur) + more, d, buf) == seq![join(cells, d)]
            + gather(more, d, Seq::empty()),
    decreases join(cells, d).len() - j,
{
    let r = join(cells, d);
    let s = r.skip(j);
    if j == r.len() {
        assert(s.len() == 0);
        assert(split_from(s, cur) + more =~= seq![cur] + more);
        assert((seq![cur] + more).drop_first() =~= more);
        assert(buf + cur =~= r);
        assert forall|k: int| 0 <= k < cells.len() implies well_formed_cell(#[trigger] cells[k], d) by {
            assert(line_cell(cells[k], d));
        }
        lemma_row_closed(cells, d);
    } else if r[j] == '\n' {
        assert(s[0] == '\n');
        assert(s.drop_first() =~= r.skip(j + 1));
        let x = split_from(r.skip(j + 1), Seq::empty());
        assert(split_from(s, cur) + more =~= seq![cur] + (x + more));
        assert((seq![cur] + (x + more)).drop_first() =~= x + more);
        lemma_row_open_at_newline(cells, d, j);
        assert(buf + cur == r.take(j));
        assert((buf + cur).push('\n') + Seq::<char>::empty() =~= r.take(j + 1));
        lemma_gather_row(cells, d, j + 1, (buf + cur).push('\n'), Seq::empty(), more);
    } else {
        assert(s[0] == r[j]);
        assert(s.drop_first() =~= r.skip(j + 1));
        assert(buf + cur.push(r[j]) =~= r.take(j + 1));
        lemma_gather_row(cells, d, j + 1, buf, cur.push(r[j]), more);
    }
}

proof fn lemma_gather_text(rows: Seq<Seq<Seq<char>>>, d: char)
    requires
        d != quote(),
        d != '\n',
        forall|i: int, k: int|
            0 <= i < rows.len() && 0 <= k < rows[i].len() ==> line_cell(#[trigger] rows[i][k], d),
    ensures
        gather(lines_from(text_of(rows, d), Seq::empty()), d, Seq::empty()) == rows.map_values(
            |c: Seq<Seq<char>>| join(c, d),
        ),
    decreases rows.len(),
{
    if rows.len() == 0 {
        assert(lines_from(text_of(rows, d), Seq::empty()) =~= Seq::<Seq<char>>::empty());
        assert(rows.map_values(|c: Seq<Seq<char>>| join(c, d)) =~= Seq::<Seq<char>>::empty());
    } else {
        let r0 = join(rows[0], d);
        let rest = rows.drop_first();
        lemma_lines_of_row(r0, text_of(rest, d), Seq::empty());
        assert forall|k: int| 0 <= k < rows[0].len() implies line_cell(#[trigger] rows[0][k], d) by {
            assert(line_cell(rows[0][k], d));
        }
        assert(r0.skip(0) =~= r0);
        assert(Seq::<char>::empty() + Seq::<char>::empty() =~= r0.take(0));
        lemma_gather_row(rows[0], d, 0, Seq::empty(), Seq::empty(), lines_from(text_of(rest, d), Seq::empty()));
        assert forall|i: int, k: int|
            0 <= i < rest.len() && 0 <= k < rest[i].len() implies line_cell(#[trigger] rest[i][k], d) by {
            assert(rest[i] == rows[i + 1]);
            assert(line_cell(rows[i + 1][k], d));
        }
        lemma_gather_text(rest, d);
        assert(rows.map_values(|c: Seq<Seq<char>>| join(c, d)) =~= seq![r0] + rest.map_values(
            |c: Seq<Seq<char>>| join(c, d),
        ));
    }
}

proof fn lemma_no_cr_join(cells: Seq<Seq<char>>, d: char)
    requires
        d != '\r',
        forall|k: int| 0 <= k < cells.len() ==> !(#[trigger] cells[k]).contains('\r'),
    ensures
        !join(cells, d).contains('\r'),
    decreases cells.len(),
{
    if cells.len() >= 2 {
        let rest = cells.drop_first();
        assert forall|k: int| 0 <= k < rest.len() implies !(#[trigger] rest[k]).contains('\r') by {
            assert(rest[k] == cells[k + 1]);
        }
        lemma_no_cr_join(rest, d);
        let j = join(cells, d);
        assert(j =~= cells[0] + seq![d] + join(rest, d));
        assert forall|i: int| 0 <= i < j.len() implies j[i] != '\r' by {
            if i < cells[0].len() {
                assert(cells[0].contains(cells[0][i]));
            } else if i > cells[0].len() {
                assert(join(rest, d).contains(join(rest, d)[i - cells[0].len() - 1]));
            }
        }
    }
}

proof fn lemma_no_cr_text(rows: Seq<Seq<Seq<char>>>, d: char)
    requires
        d != '\r',
        forall|i: int, k: int|
            0 <= i < rows.len() && 0 <= k < rows[i].len() ==> !(#[trigger] rows[i][k]).contains('\r'),
    ensures
        !text_of(rows, d).contains('\r'),
    decreases rows.len(),
{
    if rows.len() > 0 {
        let rest = rows.drop_first();
        assert forall|i: int, k: int|
            0 <= i < rest.len() && 0 <= k < rest[i].len() implies !(#[trigger] rest[i][k]).contains('\r') by {
            assert(rest[i] == rows[i + 1]);
        }
        lemma_no_cr_text(rest, d);
        assert forall|k: int| 0 <= k < rows[0].len() implies !(#[trigger] rows[0][k]).contains('\r') by {
        }
        lemma_no_cr_join(rows[0], d);
        let a = join(rows[0], d);
        let b = text_of(rest, d);
        let t = text_of(rows, d);
        assert(t =~= a + seq!['\n'] + b);
        assert forall|i: int| 0 <= i < t.len() implies t[i] != '\r' by {
            if i < a.len() {
                assert(a.contains(a[i]));
            } else if i > a.len() {
                assert(b.contains(b[i - a.len() - 1]));
            }
        }
    }
}

proof fn lemma_lines_no_cr(t: Seq<char>, cur: Seq<char>)
    requires
        !t.contains('\r'),
        !cur.contains('\r'),
    ensures
        forall|k: int|
            0 <= k < lines_from(t, cur).len() ==> !(#[trigger] lines_from(t, cur)[k]).contains('\r'),
    decreases t.len(),
{
    if t.len() > 0 {
        assert(t.contains(t[0]));
        assert(!t.drop_first().contains('\r')) by {
            if t.drop_first().contains('\r') {
                let k = choose|k: int| 0 <= k < t.drop_first().len() && t.drop_first()[k] == '\r';
                assert(t[k + 1] == '\r');
            }
        }
        if t[0] == '\n' {
            lemma_lines_no_cr(t.drop_first(), Seq::empty());
            let l = lines_from(t.drop_first(), Seq::empty());
            assert(lines_from(t, cur) == seq![cur] + l);
            assert forall|k: int| 0 <= k < (seq![cur] + l).len() implies !(#[trigger] (seq![cur]
                + l)[k]).contains('\r') by {
                if k > 0 {
                    assert((seq![cur] + l)[k] == l[k - 1]);
                } else {
                    assert((seq![cur] + l)[k] == cur);
                }
            }
        } else {
            assert(!cur.push(t[0]).contains('\r')) by {
                if cur.push(t[0]).contains('\r') {
                    let k = choose|k: int| 0 <= k < cur.push(t[0]).len() && cur.push(t[0])[k] == '\r';
                    if k < cur.len() {
                        assert(cur[k] == '\r');
                    }
                }
            }
            lemma_lines_no_cr(t.drop_first(), cur.push(t[0]));
            assert(lines_from(t, cur) == lines_from(t.drop_first(), cur.push(t[0])));
        }
    } else if cur.len() > 0 {
        assert(lines_from(t, cur) =~= seq![cur]);
        assert(lines_from(t, cur)[0] == cur);
    }
}

/// A text made of rows of well-formed cells, each row ended by a line break,
/// with no carriage return, and line breaks only inside quoted cells, is read
/// back as exactly those rows of cells, and every cell read follows the quoting
/// rule. A row of a single empty cell is written as an empty line, which is read
/// as a row without cells, so such rows are left out.
pub proof fn lemma_well_formed_text(rows: Seq<Seq<Seq<char>>>, d: char)
    requires
        d != quote(),
        d != '\n',
        d != '\r',
        forall|i: int, k: int|
            0 <= i < rows.len() && 0 <= k < rows[i].len() ==> line_cell(#[trigger] rows[i][k], d),
        forall|i: int| 0 <= i < rows.len() ==> !((#[trigger] rows[i]).len() == 1 && rows[i][0].len() == 0),
    ensures
        parsed_rows(text_of(rows, d), d) == rows,
        forall|i: int, k: int|
            0 <= i < rows.len() && 0 <= k < rows[i].len() ==> correctly_quoted_text(
                #[trigger] parsed_rows(text_of(rows, d), d)[i][k],
            ),
{
    let t = text_of(rows, d);
    lemma_no_cr_text(rows, d);
    lemma_lines_no_cr(t, Seq::empty());
    let lines = lines_from(t, Seq::empty());
    assert(physical_lines(t) =~= lines) by {
        assert forall|k: int| 0 <= k < lines.len() implies trim_cr(#[trigger] lines[k]) == lines[k] by {
            if lines[k].len() > 0 {
                assert(lines[k].contains(lines[k].last()));
            }
        }
    }
    lemma_gather_text(rows, d);
    let joined = rows.map_values(|c: Seq<Seq<char>>| join(c, d));
    assert(logical_rows(t, d) == joined);
    assert forall|i: int| 0 <= i < rows.len() implies cells_of(#[trigger] joined[i], d) == rows[i]
        && (forall|k: int| 0 <= k < rows[i].len() ==> correctly_quoted_text(#[trigger] rows[i][k])) by {
        assert forall|k: int| 0 <= k < rows[i].len() implies well_formed_cell(#[trigger] rows[i][k], d) by {
            assert(line_cell(rows[i][k], d));
        }
        lemma_well_formed_row(rows[i], d);
    }
    assert(parsed_rows(t, d) =~= rows);
}

/// A reader over such a text yields exactly its rows, with every cell following
/// the quoting rule.
pub proof fn lemma_reader_well_formed(reader: CSVReader, rows: Seq<Seq<Seq<char>>>, d: char)
    requires
        reader@ == (text_of(rows, d), d),
        d != quote(),
        d != '\n',
        d != '\r',
        forall|i: int, k: int|
            0 <= i < rows.len() && 0 <= k < rows[i].len() ==> line_cell(#[trigger] rows[i][k], d),
        forall|i: int| 0 <= i < rows.len() ==> !((#[trigger] rows[i]).len() == 1 && rows[i][0].len() == 0),
    ensures
        parsed_rows(reader@.0, reader@.1) == rows,
        forall|i: int, k: int|
            0 <= i < rows.len() && 0 <= k < rows[i].len() ==> correctly_quoted_text(
                #[trigger] parsed_rows(reader@.0, reader@.1)[i][k],
            ),
{
    lemma_well_formed_text(rows, d);
}

} // verus!
