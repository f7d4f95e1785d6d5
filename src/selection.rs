use vstd::prelude::*;
use vstd::string::StrSliceExecFns;
use crate::text::{
    all_digits, decimal, lemma_decimal, lemma_usize_of_decimal, parse_usize, push_char, push_decimal,
    usize_of,
};

verus! {

/// A position in the buffer.
#[derive(Clone, Copy, Debug, PartialEq, Eq, Structural)]
pub struct Pos {
    pub line: usize,
    pub col: usize,
}

/// A selection in the buffer, from `start` to `end`.
#[derive(Clone, Copy, Debug, PartialEq, Eq, Structural)]
pub struct Sel {
    pub start: Pos,
    pub end: Pos,
}

/// The index of the first `c` in `s`, or the length of `s` if there is none.
pub open spec fn index_of(s: Seq<char>, c: char) -> int
    decreases s.len(),
{
    if s.len() == 0 {
        0
    } else if s[0] == c {
        0
    } else {
        1 + index_of(s.skip(1), c)
    }
}

/// The text before the first `c`, and that between the first and the second
/// `c` (or the end), if there is a first `c`.
pub open spec fn two_pieces(s: Seq<char>, c: char) -> Option<(Seq<char>, Seq<char>)> {
    let i = index_of(s, c);
    if i >= s.len() {
        None
    } else {
        let rest = s.skip(i + 1);
        Some((s.take(i), rest.take(index_of(rest, c))))
    }
}

/// The position that `s` writes as `line.column`; what follows a second
/// `.` is not read.
pub open spec fn pos_of(s: Seq<char>) -> Option<Pos> {
    match two_pieces(s, '.') {
        Some((a, b)) => match (usize_of(a), usize_of(b)) {
            (Some(line), Some(col)) => Some(Pos { line, col }),
            _ => None,
        },
        None => None,
    }
}

/// The selection that `s` writes as `start,end`, each a position; what
/// follows a second `,` is not read.
pub open spec fn sel_of(s: Seq<char>) -> Option<Sel> {
    match two_pieces(s, ',') {
        Some((a, b)) => match (pos_of(a), pos_of(b)) {
            (Some(start), Some(end)) => Some(Sel { start, end }),
            _ => None,
        },
        None => None,
    }
}

/// A selection written as `line.column,line.column`.
pub open spec fn sel_text(sel: Sel) -> Seq<char> {
    decimal(sel.start.line as nat) + seq!['.'] + decimal(sel.start.col as nat) + seq![','] + decimal(
        sel.end.line as nat,
    ) + seq!['.'] + decimal(sel.end.col as nat)
}

/// A search from the left that passed over other characters only.
proof fn lemma_index_of(s: Seq<char>, c: char, i: int)
    requires
        0 <= i <= s.len(),
        forall|k: int| 0 <= k < i ==> s[k] != c,
        i == s.len() || s[i] == c,
    ensures
        index_of(s, c) == i,
    decreases i,
{
    if i > 0 {
        lemma_index_of(s.skip(1), c, i - 1);
    }
}

/// Splitting `a`, `c`, `b` at `c`, where neither `a` nor `b` holds `c`,
/// gives back `a` and `b`.
proof fn lemma_two_pieces(a: Seq<char>, c: char, b: Seq<char>)
    requires
        !a.contains(c),
        !b.contains(c),
    ensures
        two_pieces(a + seq![c] + b, c) == Some((a, b)),
{
    let s = a + seq![c] + b;
    assert forall|k: int| 0 <= k < a.len() implies s[k] != c by {
        assert(s[k] == a[k]);
    }
    lemma_index_of(s, c, a.len() as int);
    let rest = s.skip(a.len() as int + 1);
    assert(rest =~= b);
    lemma_index_of(b, c, b.len() as int);
    assert(s.take(a.len() as int) =~= a);
    assert(b.take(b.len() as int) =~= b);
}

/// Decimal digits hold neither separator.
proof fn lemma_decimal_plain(n: nat)
    ensures
        !decimal(n).contains('.'),
        !decimal(n).contains(','),
{
    lemma_decimal(n);
    let d = decimal(n);
    assert(all_digits(d));
    if d.contains('.') {
        let i = choose|i: int| 0 <= i < d.len() && d[i] == '.';
        assert('0' <= d[i] <= '9');
    }
    if d.contains(',') {
        let i = choose|i: int| 0 <= i < d.len() && d[i] == ',';
        assert('0' <= d[i] <= '9');
    }
}

/// The text of a position reads back as it.
proof fn lemma_pos_round_trip(p: Pos)
    ensures
        pos_of(decimal(p.line as nat) + seq!['.'] + decimal(p.col as nat)) == Some(p),
        !(decimal(p.line as nat) + seq!['.'] + decimal(p.col as nat)).contains(','),
{
    let a = decimal(p.line as nat);
    let b = decimal(p.col as nat);
    lemma_decimal_plain(p.line as nat);
    lemma_decimal_plain(p.col as nat);
    lemma_two_pieces(a, '.', b);
    lemma_usize_of_decimal(p.line);
    lemma_usize_of_decimal(p.col);
    let s = a + seq!['.'] + b;
    if s.contains(',') {
        let i = choose|i: int| 0 <= i < s.len() && s[i] == ',';
        if i < a.len() {
            assert(a[i] == s[i]);
        } else if i > a.len() {
            assert(b[i - a.len() - 1] == s[i]);
        }
    }
}

/// A selection written out by `to_str` reads back as the same selection.
pub proof fn lemma_sel_round_trip(sel: Sel)
    ensures
        sel_of(sel_text(sel)) == Some(sel),
{
    lemma_pos_round_trip(sel.start);
    lemma_pos_round_trip(sel.end);
    let a = decimal(sel.start.line as nat) + seq!['.'] + decimal(sel.start.col as nat);
    let b = decimal(sel.end.line as nat) + seq!['.'] + decimal(sel.end.col as nat);
    assert(sel_text(sel) =~= a + seq![','] + b);
    lemma_two_pieces(a, ',', b);
}

/// The index of the first `c` in `s`, or its length.
fn find_char(s: &str, c: char) -> (r: usize)
    ensures
        r == index_of(s@, c),
        r <= s@.len(),
{
    let n = s.unicode_len();
    let mut i: usize = 0;
    while i < n
        invariant
            n == s@.len(),
            i <= n,
            forall|k: int| 0 <= k < i ==> s@[k] != c,
        decreases n - i,
    {
        if s.get_char(i) == c {
            proof {
                lemma_index_of(s@, c, i as int);
            }
            return i;
        }
        i = i + 1;
    }
    proof {
        lemma_index_of(s@, c, i as int);
    }
    i
}

/// The two first pieces of `s` split at `c`, as `two_pieces` gives them.
fn split_two<'a>(s: &'a str, c: char) -> (r: Option<(&'a str, &'a str)>)
    ensures
        r is None <==> two_pieces(s@, c) is None,
        match r {
            Some((a, b)) => two_pieces(s@, c) == Some((a@, b@)),
            None => true,
        },
{
    let n = s.unicode_len();
    let i = find_char(s, c);
    if i == n {
        return None;
    }
    let first = s.substring_char(0, i);
    let rest = s.substring_char(i + 1, n);
    let j = find_char(rest, c);
    let second = rest.substring_char(0, j);
    assert(first@ =~= s@.take(i as int));
    assert(rest@ =~= s@.skip(i + 1));
    assert(second@ =~= rest@.take(j as int));
    Some((first, second))
}

impl Pos {
    /// Reads a position written as `line.column`.
    pub fn parse(s: &str) -> (r: Result<Pos, ()>)
        ensures
            r is Ok <==> pos_of(s@) is Some,
            r is Ok ==> r->Ok_0 == pos_of(s@)->0,
    {
        match split_two(s, '.') {
            None => Err(()),
            Some((a, b)) => match (parse_usize(a), parse_usize(b)) {
                (Some(line), Some(col)) => Ok(Pos { line, col }),
                _ => Err(()),
            },
        }
    }
}

impl std::str::FromStr for Pos {
    type Err = ();

    fn from_str(s: &str) -> Result<Pos, ()> {
        Pos::parse(s)
    }
}

impl Sel {
    /// Reads a selection written as `line.column,line.column`.
    pub fn parse(s: &str) -> (r: Result<Sel, ()>)
        ensures
            r is Ok <==> sel_of(s@) is Some,
            r is Ok ==> r->Ok_0 == sel_of(s@)->0,
    {
        match split_two(s, ',') {
            None => Err(()),
            Some((a, b)) => match (Pos::parse(a), Pos::parse(b)) {
                (Ok(start), Ok(end)) => Ok(Sel { start, end }),
                _ => Err(()),
            },
        }
    }

    /// The selection written as `line.column,line.column`.
    pub fn to_str(&self) -> (r: String)
        ensures
            r@ == sel_text(*self),
    {
        let mut s = String::new();
        push_decimal(&mut s, self.start.line);
        push_char(&mut s, '.');
        push_decimal(&mut s, self.start.col);
        push_char(&mut s, ',');
        push_decimal(&mut s, self.end.line);
        push_char(&mut s, '.');
        push_decimal(&mut s, self.end.col);
        assert(s@ =~= sel_text(*self));
        s
    }
}

impl std::str::FromStr for Sel {
    type Err = ();

    fn from_str(s: &str) -> Result<Sel, ()> {
        Sel::parse(s)
    }
}

} // verus!
