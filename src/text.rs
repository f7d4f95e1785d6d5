use vstd::prelude::*;
use vstd::string::StrSliceExecFns;
use crate::trie::views;

verus! {

/// The characters with Unicode's White_Space property.
pub open spec fn is_white_space(c: char) -> bool {
    let u = c as u32;
    ||| 0x9 <= u <= 0xd
    ||| u == 0x20
    ||| u == 0x85
    ||| u == 0xa0
    ||| u == 0x1680
    ||| 0x2000 <= u <= 0x200a
    ||| u == 0x2028
    ||| u == 0x2029
    ||| u == 0x202f
    ||| u == 0x205f
    ||| u == 0x3000
}

/// The maximal runs of characters other than white space, in order.
pub open spec fn words(s: Seq<char>) -> Seq<Seq<char>>
    decreases s.len(),
{
    if s.len() == 0 {
        Seq::empty()
    } else {
        let w = words(s.drop_last());
        let c = s.last();
        if is_white_space(c) {
            w
        } else if s.len() == 1 || is_white_space(s[s.len() - 2]) {
            w.push(seq![c])
        } else {
            w.update(w.len() - 1, w.last().push(c))
        }
    }
}

/// The value of a run of decimal digits.
pub open spec fn digits_value(d: Seq<char>) -> nat
    decreases d.len(),
{
    if d.len() == 0 {
        0
    } else {
        digits_value(d.drop_last()) * 10 + (d.last() as nat - '0' as nat) as nat
    }
}

/// Whether every character is a decimal digit.
pub open spec fn all_digits(d: Seq<char>) -> bool {
    forall|i: int| 0 <= i < d.len() ==> '0' <= #[trigger] d[i] <= '9'
}

/// The digits of an unsigned number, a leading `+` taken off.
pub open spec fn unsigned_digits(s: Seq<char>) -> Seq<char> {
    if s.len() > 1 && s[0] == '+' {
        s.skip(1)
    } else {
        s
    }
}

/// The `usize` that `s` writes in decimal, if any: digits, after an
/// optional `+`, whose value fits.
pub open spec fn usize_of(s: Seq<char>) -> Option<usize> {
    let d = unsigned_digits(s);
    if d.len() > 0 && all_digits(d) && digits_value(d) <= usize::MAX {
        Some(digits_value(d) as usize)
    } else {
        None
    }
}

/// The decimal digits of `n`, without leading zeros.
pub open spec fn decimal(n: nat) -> Seq<char>
    decreases n,
{
    let last = ((48 + n % 10) as u8) as char;
    if n < 10 {
        seq![last]
    } else {
        decimal(n / 10).push(last)
    }
}

/// The decimal digits of a number are digits that read back as it.
pub proof fn lemma_decimal(n: nat)
    ensures
        decimal(n).len() > 0,
        all_digits(decimal(n)),
        digits_value(decimal(n)) == n,
    decreases n,
{
    let last = ((48 + n % 10) as u8) as char;
    assert('0' <= last <= '9' && last as nat - '0' as nat == n % 10);
    if n >= 10 {
        lemma_decimal(n / 10);
        let d = decimal(n);
        assert(d.drop_last() == decimal(n / 10));
        assert(d.last() == last);
        assert((n / 10) * 10 + n % 10 == n) by (nonlinear_arith);
        assert(digits_value(d) == digits_value(d.drop_last()) * 10 + (d.last() as nat - '0' as nat) as nat);
        assert forall|i: int| 0 <= i < d.len() implies '0' <= #[trigger] d[i] <= '9' by {
            if i < d.len() - 1 {
                assert(d[i] == decimal(n / 10)[i]);
            }
        }
    } else {
        assert(decimal(n).drop_last() =~= Seq::<char>::empty());
        assert(decimal(n).last() == last);
        assert(n % 10 == n);
        assert(digits_value(decimal(n)) == digits_value(decimal(n).drop_last()) * 10 + (last as nat
            - '0' as nat) as nat);
    }
}

/// A number written in decimal reads back as itself.
pub proof fn lemma_usize_of_decimal(n: usize)
    ensures
        usize_of(decimal(n as nat)) == Some(n),
{
    lemma_decimal(n as nat);
    let d = decimal(n as nat);
    assert('0' <= d[0] <= '9');
    assert(unsigned_digits(d) == d);
}

/// More digits never give a smaller value.
proof fn lemma_digits_grow(d: Seq<char>, i: int)
    requires
        0 <= i <= d.len(),
        all_digits(d),
    ensures
        digits_value(d.take(i)) <= digits_value(d),
    decreases d.len(),
{
    if i < d.len() {
        let e = d.drop_last();
        assert(all_digits(e)) by {
            assert forall|k: int| 0 <= k < e.len() implies '0' <= #[trigger] e[k] <= '9' by {
                assert(e[k] == d[k]);
            }
        }
        lemma_digits_grow(e, i);
        assert(e.take(i) =~= d.take(i));
    } else {
        assert(d.take(i) =~= d);
    }
}

/// Relies on String::push: appends one character.
#[verifier::external_body]
pub(crate) fn push_char(s: &mut String, c: char)
    ensures
        final(s)@ == old(s)@.push(c),
{
    s.push(c)
}

/// The number that `s` writes in decimal, as `str::parse` reads a `usize`.
pub fn parse_usize(s: &str) -> (r: Option<usize>)
    ensures
        r == usize_of(s@),
{
    let n = s.unicode_len();
    let mut i: usize = 0;
    if n > 1 && s.get_char(0) == '+' {
        i = 1;
    }
    let ghost d = unsigned_digits(s@);
    assert(d =~= s@.skip(i as int));
    if i == n {
        return None;
    }
    let ghost start = i as int;
    let mut v: usize = 0;
    while i < n
        invariant
            n == s@.len(),
            0 <= start <= i <= n,
            d == s@.skip(start),
            d == unsigned_digits(s@),
            forall|k: int| 0 <= k < i - start ==> '0' <= #[trigger] d[k] <= '9',
            v == digits_value(d.take(i - start)),
        decreases n - i,
    {
        let ghost j = i - start;
        let c = s.get_char(i);
        assert(d[j] == c);
        assert(d.take(j + 1).drop_last() =~= d.take(j));
        if c < '0' || c > '9' {
            assert(!all_digits(d));
            return None;
        }
        let digit = (c as u32 - '0' as u32) as usize;
        assert(d.take(j + 1).last() == c);
        assert(digits_value(d.take(j + 1)) == v * 10 + digit);
        match v.checked_mul(10) {
            Some(x) => match x.checked_add(digit) {
                Some(y) => {
                    v = y;
                },
                None => {
                    proof {
                        if all_digits(d) {
                            lemma_digits_grow(d, j + 1);
                        }
                    }
                    return None;
                },
            },
            None => {
                proof {
                    if all_digits(d) {
                        lemma_digits_grow(d, j + 1);
                    }
                }
                return None;
            },
        }
        i = i + 1;
    }
    assert(d.take(d.len() as int) =~= d);
    Some(v)
}

/// Appends the decimal digits of `n` to `s`.
pub fn push_decimal(s: &mut String, n: usize)
    ensures
        final(s)@ == old(s)@ + decimal(n as nat),
    decreases n,
{
    if n >= 10 {
        push_decimal(s, n / 10);
    }
    let last = (48 + (n % 10) as u8) as char;
    push_char(s, last);
    proof {
        if n >= 10 {
            assert(old(s)@ + decimal((n / 10) as nat) + seq![last] =~= old(s)@ + decimal(n as nat));
        } else {
            assert(old(s)@.push(last) =~= old(s)@ + decimal(n as nat));
        }
    }
}

/// Whether `c` is white space.
pub fn is_whitespace(c: char) -> (r: bool)
    ensures
        r == is_white_space(c),
{
    let u = c as u32;
    (0x9 <= u && u <= 0xd) || u == 0x20 || u == 0x85 || u == 0xa0 || u == 0x1680 || (0x2000 <= u
        && u <= 0x200a) || u == 0x2028 || u == 0x2029 || u == 0x202f || u == 0x205f || u == 0x3000
}

/// The words of `s`, split at white space.
pub fn split_whitespace(s: &str) -> (r: Vec<String>)
    ensures
        views(r@) == words(s@),
{
    let n = s.unicode_len();
    let mut out: Vec<String> = Vec::new();
    let mut cur = String::new();
    let mut in_word = false;
    let mut i: usize = 0;
    while i < n
        invariant
            n == s@.len(),
            i <= n,
            in_word == (i > 0 && !is_white_space(s@[i - 1])),
            in_word ==> cur@.len() > 0,
            !in_word ==> cur@.len() == 0,
            words(s@.take(i as int)) == views(out@) + if in_word {
                seq![cur@]
            } else {
                Seq::empty()
            },
        decreases n - i,
    {
        let c = s.get_char(i);
        let ghost before = views(out@);
        let ghost prev = cur@;
        assert(s@.take(i + 1).drop_last() =~= s@.take(i as int));
        if is_whitespace(c) {
            if in_word {
                let w = cur;
                out.push(w);
                cur = String::new();
                assert(views(out@) =~= before.push(prev));
            }
            in_word = false;
        } else {
            push_char(&mut cur, c);
            if in_word {
                assert(words(s@.take(i + 1)) =~= before + seq![cur@]);
            } else {
                assert(cur@ =~= seq![c]);
                assert(words(s@.take(i as int)) =~= before);
                assert(words(s@.take(i + 1)) =~= before + seq![cur@]);
            }
            in_word = true;
        }
        i = i + 1;
    }
    if in_word {
        out.push(cur);
    }
    assert(s@.take(n as int) =~= s@);
    assert(views(out@) =~= words(s@));
    out
}

} // verus!
