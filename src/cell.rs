use vstd::prelude::*;

verus! {

/// The quote character.
pub open spec fn quote() -> char {
    '"'
}

/// The character that a decoder puts in place of an undecodable byte sequence.
pub open spec fn replacement_char() -> char {
    '\u{FFFD}'
}

/// The characters with the Unicode White_Space property.
pub open spec fn is_white_space(c: char) -> bool {
    let u = c as u32;
    (0x09 <= u <= 0x0D) || u == 0x20 || u == 0x85 || u == 0xA0 || u == 0x1680 || (0x2000 <= u
        <= 0x200A) || u == 0x2028 || u == 0x2029 || u == 0x202F || u == 0x205F || u == 0x3000
}

/// `s` without its leading white space.
pub open spec fn trim_start(s: Seq<char>) -> Seq<char>
    decreases s.len(),
{
    if s.len() > 0 && is_white_space(s[0]) {
        trim_start(s.drop_first())
    } else {
        s
    }
}

/// `s` without its trailing white space.
pub open spec fn trim_end(s: Seq<char>) -> Seq<char>
    decreases s.len(),
{
    if s.len() > 0 && is_white_space(s.last()) {
        trim_end(s.drop_last())
    } else {
        s
    }
}

/// `s` without white space at either end.
pub open spec fn trim(s: Seq<char>) -> Seq<char> {
    trim_end(trim_start(s))
}

/// Scanning from the left, every quote is the first of a doubled pair: removing
/// each doubled pair leaves no quote.
pub open spec fn only_doubled_quotes(s: Seq<char>) -> bool
    decreases s.len(),
{
    if s.len() == 0 {
        true
    } else if s[0] == quote() {
        s.len() >= 2 && s[1] == quote() && only_doubled_quotes(s.skip(2))
    } else {
        only_doubled_quotes(s.skip(1))
    }
}

/// The quoting rule of one cell's raw text: a text without a quote is correct;
/// otherwise, once trimmed, it must open and close with a quote, and every quote
/// between those two must belong to a doubled pair.
pub open spec fn correctly_quoted_text(s: Seq<char>) -> bool {
    !s.contains(quote()) || {
        let t = trim(s);
        &&& t.len() >= 2
        &&& t[0] == quote()
        &&& t.last() == quote()
        &&& only_doubled_quotes(t.subrange(1, t.len() - 1))
    }
}

/// A cell is empty when it holds nothing or just an empty quoted text.
pub open spec fn empty_text(s: Seq<char>) -> bool {
    s.len() == 0 || s == seq![quote(), quote()]
}

/// `p` occurs in `s` at position `i`.
pub open spec fn occurs_at(s: Seq<char>, p: Seq<char>, i: int) -> bool {
    0 <= i && i + p.len() <= s.len() && s.subrange(i, i + p.len()) == p
}

/// `p` occurs somewhere in `s`.
pub open spec fn has_infix(s: Seq<char>, p: Seq<char>) -> bool {
    exists|i: int| occurs_at(s, p, i)
}

/// How many times `c` occurs in `s`.
pub open spec fn count_char(s: Seq<char>, c: char) -> nat
    decreases s.len(),
{
    if s.len() == 0 {
        0
    } else {
        count_char(s.drop_last(), c) + if s.last() == c {
            1nat
        } else {
            0nat
        }
    }
}

/// A cell text without any quote character follows the quoting rule.
pub proof fn lemma_unquoted_is_correct(s: Seq<char>)
    requires
        !s.contains(quote()),
    ensures
        correctly_quoted_text(s),
{
}

/// Whether `c` has the Unicode White_Space property.
pub fn white_space(c: char) -> (r: bool)
    ensures
        r == is_white_space(c),
{
    let u = c as u32;
    (0x09 <= u && u <= 0x0D) || u == 0x20 || u == 0x85 || u == 0xA0 || u == 0x1680 || (0x2000
        <= u && u <= 0x200A) || u == 0x2028 || u == 0x2029 || u == 0x202F || u == 0x205F || u
        == 0x3000
}

/// Whether the characters of `v` between `from` and `to` pass `only_doubled_quotes`.
fn doubled_quotes_only(v: &Vec<char>, from: usize, to: usize) -> (r: bool)
    requires
        from <= to <= v.len(),
    ensures
        r == only_doubled_quotes(v@.subrange(from as int, to as int)),
{
    let mut i = from;
    while i < to
        invariant
            from <= i <= to <= v.len(),
            only_doubled_quotes(v@.subrange(from as int, to as int)) == only_doubled_quotes(
                v@.subrange(i as int, to as int),
            ),
        decreases to - i,
    {
        let ghost rest = v@.subrange(i as int, to as int);
        if v[i] == '"' {
            if i + 1 < to && v[i + 1] == '"' {
                assert(rest.skip(2) =~= v@.subrange(i + 2, to as int));
                i = i + 2;
            } else {
                return false;
            }
        } else {
            assert(rest.skip(1) =~= v@.subrange(i + 1, to as int));
            i = i + 1;
        }
    }
    assert(v@.subrange(i as int, to as int).len() == 0);
    true
}

/// Whether `c` occurs in `v`.
fn has_char(v: &Vec<char>, c: char) -> (r: bool)
    ensures
        r == v@.contains(c),
{
    let mut i: usize = 0;
    while i < v.len()
        invariant
            i <= v.len(),
            forall|j: int| 0 <= j < i ==> v@[j] != c,
        decreases v.len() - i,
    {
        if v[i] == c {
            return true;
        }
        i += 1;
    }
    false
}

/// The characters of `s`, in order.
pub fn chars_of(s: &str) -> (r: Vec<char>)
    ensures
        r@ == s@,
{
    let mut r: Vec<char> = Vec::new();
    for c in it: s.chars()
        invariant
            it.seq() == s@,
            r@ == it.seq().take(it.index() as int),
    {
        r.push(c);
    }
    r
}

/// Relies on String::push: appends one character.
#[verifier::external_body]
pub(crate) fn push_char(s: &mut String, c: char)
    ensures
        final(s)@ == old(s)@.push(c),
{
    s.push(c)
}

/// A string holding exactly the characters of `v`.
pub fn string_of(v: &Vec<char>) -> (r: String)
    ensures
        r@ == v@,
{
    let mut r = String::new();
    let mut i: usize = 0;
    while i < v.len()
        invariant
            i <= v.len(),
            r@ == v@.take(i as int),
        decreases v.len() - i,
    {
        push_char(&mut r, v[i]);
        assert(v@.take(i + 1) =~= v@.take(i as int).push(v@[i as int]));
        i += 1;
    }
    assert(v@.take(v.len() as int) =~= v@);
    r
}

/// One delimiter-bounded field, holding its raw text exactly as found.
#[derive(Debug, Clone, PartialEq, Eq)]
pub struct Cell(String);

impl View for Cell {
    type V = Seq<char>;

    closed spec fn view(&self) -> Seq<char> {
        self.0@
    }
}

impl Cell {
    pub fn new(v: &str) -> (r: Cell)
        ensures
            r@ == v@,
    {
        Cell(v.to_owned())
    }

    /// The cell holding exactly the characters of `v`.
    pub fn from_chars(v: &Vec<char>) -> (r: Cell)
        ensures
            r@ == v@,
    {
        Cell(string_of(v))
    }

    /// The raw text of the cell.
    pub fn as_str(&self) -> (r: &str)
        ensures
            r@ == self@,
    {
        self.0.as_str()
    }

    /// Whether the raw text follows the quoting rule.
    pub fn correctly_quoted(&self) -> (r: bool)
        ensures
            r == correctly_quoted_text(self@),
    {
        let v = chars_of(self.0.as_str());
        if !has_char(&v, '"') {
            return true;
        }
        let n = v.len();
        let mut lo: usize = 0;
        assert(v@.subrange(0, n as int) =~= v@);
        while lo < n && white_space(v[lo])
            invariant
                lo <= n == v.len(),
                trim_start(v@) == trim_start(v@.subrange(lo as int, n as int)),
            decreases n - lo,
        {
            assert(v@.subrange(lo as int, n as int).drop_first() =~= v@.subrange(
                lo + 1,
                n as int,
            ));
            lo += 1;
        }
        let mut hi: usize = n;
        while hi > lo && white_space(v[hi - 1])
            invariant
                lo <= hi <= n == v.len(),
                trim(v@) == trim_end(v@.subrange(lo as int, hi as int)),
            decreases hi,
        {
            assert(v@.subrange(lo as int, hi as int).drop_last() =~= v@.subrange(
                lo as int,
                hi - 1,
            ));
            hi -= 1;
        }
        let ghost t = v@.subrange(lo as int, hi as int);
        assert(trim(v@) == t);
        if hi - lo < 2 || v[lo] != '"' || v[hi - 1] != '"' {
            return false;
        }
        assert(t.subrange(1, t.len() - 1) =~= v@.subrange(lo + 1, hi - 1));
        doubled_quotes_only(&v, lo + 1, hi - 1)
    }

    /// Whether the cell holds nothing or just `""`.
    pub fn is_empty(&self) -> (r: bool)
        ensures
            r == empty_text(self@),
    {
        let v = chars_of(self.0.as_str());
        if v.len() == 0 {
            return true;
        }
        let r = v.len() == 2 && v[0] == '"' && v[1] == '"';
        assert(r ==> v@ =~= seq![quote(), quote()]);
        r
    }

    /// Whether `pat` occurs in the raw text.
    pub fn contains(&self, pat: &str) -> (r: bool)
        ensures
            r == has_infix(self@, pat@),
    {
        let v = chars_of(self.0.as_str());
        let p = chars_of(pat);
        if p.len() > v.len() {
            return false;
        }
        let last = v.len() - p.len();
        let mut i: usize = 0;
        while i <= last
            invariant
                v@ == self@,
                p@ == pat@,
                last == v.len() - p.len(),
                i <= last + 1,
                forall|k: int| 0 <= k < i ==> !occurs_at(v@, p@, k),
            decreases last + 1 - i,
        {
            let mut j: usize = 0;
            while j < p.len() && v[i + j] == p[j]
                invariant
                    i <= last,
                    last == v.len() - p.len(),
                    j <= p.len(),
                    forall|m: int| 0 <= m < j ==> v@[i + m] == p@[m],
                decreases p.len() - j,
            {
                j += 1;
            }
            if j == p.len() {
                assert(v@.subrange(i as int, i + p.len()) =~= p@);
                assert(occurs_at(v@, p@, i as int));
                assert(has_infix(v@, p@));
                return true;
            }
            assert(!occurs_at(v@, p@, i as int)) by {
                if v@.subrange(i as int, i + p.len()) == p@ {
                    assert(v@.subrange(i as int, i + p.len())[j as int] == v@[i + j]);
                }
            }
            i += 1;
        }
        assert forall|k: int| !occurs_at(v@, p@, k) by {
            if occurs_at(v@, p@, k) {
                assert(k < i);
            }
        }
        false
    }

    /// How many decode replacement characters the raw text holds.
    pub fn invalid_character_count(&self) -> (r: usize)
        ensures
            r == count_char(self@, replacement_char()),
    {
        let v = chars_of(self.0.as_str());
        let mut n: usize = 0;
        let mut i: usize = 0;
        while i < v.len()
            invariant
                i <= v.len(),
                n == count_char(v@.take(i as int), replacement_char()),
                n <= i,
            decreases v.len() - i,
        {
            assert(v@.take(i + 1).drop_last() =~= v@.take(i as int));
            if v[i] == '\u{FFFD}' {
                n += 1;
            }
            i += 1;
        }
        assert(v@.take(v.len() as int) =~= v@);
        n
    }
}

} // verus!
