//! Character-level helpers shared by the parsers: splitting text into
//! lines the way `str::lines` does, Unicode whitespace, and decimal
//! numbers the way `usize::from_str` reads them.

use vstd::prelude::*;

verus! {

// ---------------------------------------------------------------------
// Lines
// ---------------------------------------------------------------------

/// A line's text without one trailing carriage return.
pub open spec fn strip_cr(line: Seq<char>) -> Seq<char> {
    if line.len() > 0 && line.last() == '\r' {
        line.drop_last()
    } else {
        line
    }
}

/// The lines of `s` that begin at or after `start`, where `i` is the
/// position being scanned for the end of the line that begins at `start`.
/// A line ends at `'\n'`, which is dropped together with one carriage
/// return before it; a last line without `'\n'` is kept as it is, and
/// nothing follows a final `'\n'`.
pub open spec fn lines_from(s: Seq<char>, start: int, i: int) -> Seq<Seq<char>>
    decreases s.len() - i,
{
    if i >= s.len() {
        if start < s.len() {
            seq![s.subrange(start, s.len() as int)]
        } else {
            seq![]
        }
    } else if s[i] == '\n' {
        seq![strip_cr(s.subrange(start, i))] + lines_from(s, i + 1, i + 1)
    } else {
        lines_from(s, start, i + 1)
    }
}

/// The lines of `s`, as `str::lines` yields them.
pub open spec fn text_lines(s: Seq<char>) -> Seq<Seq<char>> {
    lines_from(s, 0, 0)
}

/// Whether `s` begins with `prefix`.
pub open spec fn has_prefix(s: Seq<char>, prefix: Seq<char>) -> bool {
    prefix.len() <= s.len() && s.take(prefix.len() as int) == prefix
}

// ---------------------------------------------------------------------
// Whitespace and tokens
// ---------------------------------------------------------------------

/// Unicode `White_Space`, the set that `char::is_whitespace` tests.
pub open spec fn is_whitespace(c: char) -> bool {
    let u = c as u32;
    ||| 0x9 <= u && u <= 0xD
    ||| u == 0x20
    ||| u == 0x85
    ||| u == 0xA0
    ||| u == 0x1680
    ||| 0x2000 <= u && u <= 0x200A
    ||| u == 0x2028
    ||| u == 0x2029
    ||| u == 0x202F
    ||| u == 0x205F
    ||| u == 0x3000
}

/// The first position in `i..e` that does not hold whitespace, or `e`.
pub open spec fn skip_whitespace(s: Seq<char>, i: int, e: int) -> int
    decreases e - i,
{
    if i >= e {
        e
    } else if !is_whitespace(s[i]) {
        i
    } else {
        skip_whitespace(s, i + 1, e)
    }
}

/// The first position in `i..e` that holds whitespace, or `e`.
pub open spec fn token_end(s: Seq<char>, i: int, e: int) -> int
    decreases e - i,
{
    if i >= e {
        e
    } else if is_whitespace(s[i]) {
        i
    } else {
        token_end(s, i + 1, e)
    }
}

/// Both scans stay inside `i..e`.
pub proof fn lemma_token_bounds(s: Seq<char>, i: int, e: int)
    requires
        i <= e,
    ensures
        i <= skip_whitespace(s, i, e) <= e,
        i <= token_end(s, i, e) <= e,
    decreases e - i,
{
    if i < e {
        lemma_token_bounds(s, i + 1, e);
    }
}

/// The first position at or after `i` that holds `c`, or `s.len()`.
pub open spec fn index_of(s: Seq<char>, c: char, i: int) -> int
    decreases s.len() - i,
{
    if i >= s.len() {
        s.len() as int
    } else if s[i] == c {
        i
    } else {
        index_of(s, c, i + 1)
    }
}

// ---------------------------------------------------------------------
// Decimal numbers
// ---------------------------------------------------------------------

pub open spec fn is_digit(c: char) -> bool {
    48 <= (c as u32) && (c as u32) <= 57
}

pub open spec fn all_digits(s: Seq<char>) -> bool {
    forall|i: int| 0 <= i < s.len() ==> is_digit(#[trigger] s[i])
}

pub open spec fn digit_value(c: char) -> nat {
    ((c as u32) - 48) as nat
}

/// The number that the decimal digits `s` write.
pub open spec fn decimal_value(s: Seq<char>) -> nat
    decreases s.len(),
{
    if s.len() == 0 {
        0
    } else {
        decimal_value(s.drop_last()) * 10 + digit_value(s.last())
    }
}

/// What `usize::from_str` gives for `s`: an optional `'+'`, then one or
/// more ASCII digits whose value fits in `usize`.
pub open spec fn decimal_usize(s: Seq<char>) -> Option<usize> {
    let digits = if s.len() > 0 && s[0] == '+' {
        s.drop_first()
    } else {
        s
    };
    if digits.len() > 0 && all_digits(digits) && decimal_value(digits) <= usize::MAX {
        Some(decimal_value(digits) as usize)
    } else {
        None
    }
}

/// A prefix of a digit string never writes a larger number.
pub proof fn lemma_decimal_prefix_le(s: Seq<char>, i: int)
    requires
        all_digits(s),
        0 <= i <= s.len(),
    ensures
        decimal_value(s.take(i)) <= decimal_value(s),
    decreases s.len(),
{
    if i == s.len() {
        assert(s.take(i) =~= s);
    } else {
        let p = s.drop_last();
        assert(all_digits(p)) by {
            assert forall|k: int| 0 <= k < p.len() implies is_digit(#[trigger] p[k]) by {
                assert(p[k] == s[k]);
            }
        }
        lemma_decimal_prefix_le(p, i);
        assert(p.take(i) =~= s.take(i));
    }
}

// ---------------------------------------------------------------------
// Executable helpers
// ---------------------------------------------------------------------

/// The characters of `s`, in order.
pub fn chars_of(s: &str) -> (v: Vec<char>)
    ensures
        v@ == s@,
{
    let mut v: Vec<char> = Vec::new();
    for c in it: s.chars()
        invariant
            v@ == it.seq().take(it.index() as int),
            it.seq() == s@,
    {
        v.push(c);
    }
    v
}

/// A copy of `v[lo..hi]`.
pub fn copy_range(v: &Vec<char>, lo: usize, hi: usize) -> (r: Vec<char>)
    requires
        lo <= hi <= v.len(),
    ensures
        r@ == v@.subrange(lo as int, hi as int),
{
    let mut r: Vec<char> = Vec::new();
    let mut k = lo;
    while k < hi
        invariant
            lo <= k <= hi <= v.len(),
            r@ == v@.subrange(lo as int, k as int),
        decreases hi - k,
    {
        r.push(v[k]);
        k = k + 1;
        assert(r@ =~= v@.subrange(lo as int, k as int));
    }
    r
}

/// Whether `c` is Unicode whitespace.
pub fn char_is_whitespace(c: char) -> (b: bool)
    ensures
        b == is_whitespace(c),
{
    let u = c as u32;
    (0x9 <= u && u <= 0xD) || u == 0x20 || u == 0x85 || u == 0xA0 || u == 0x1680 || (0x2000
        <= u && u <= 0x200A) || u == 0x2028 || u == 0x2029 || u == 0x202F || u == 0x205F || u
        == 0x3000
}

/// The first position in `i..e` of `v` that does not hold whitespace, or `e`.
pub fn find_non_whitespace(v: &Vec<char>, i: usize, e: usize) -> (r: usize)
    requires
        i <= e <= v.len(),
    ensures
        r == skip_whitespace(v@, i as int, e as int),
        i <= r <= e,
{
    let mut k = i;
    while k < e && char_is_whitespace(v[k])
        invariant
            i <= k <= e <= v.len(),
            skip_whitespace(v@, i as int, e as int) == skip_whitespace(v@, k as int, e as int),
        decreases e - k,
    {
        k = k + 1;
    }
    k
}

/// The first position in `i..e` of `v` that holds whitespace, or `e`.
pub fn find_whitespace(v: &Vec<char>, i: usize, e: usize) -> (r: usize)
    requires
        i <= e <= v.len(),
    ensures
        r == token_end(v@, i as int, e as int),
        i <= r <= e,
{
    let mut k = i;
    while k < e && !char_is_whitespace(v[k])
        invariant
            i <= k <= e <= v.len(),
            token_end(v@, i as int, e as int) == token_end(v@, k as int, e as int),
        decreases e - k,
    {
        k = k + 1;
    }
    k
}

/// The first position at or after `i` of `v` that holds `c`, or `v.len()`.
pub fn find_char(v: &Vec<char>, c: char, i: usize) -> (r: usize)
    requires
        i <= v.len(),
    ensures
        r == index_of(v@, c, i as int),
        i <= r <= v.len(),
{
    let mut k = i;
    while k < v.len() && v[k] != c
        invariant
            i <= k <= v.len(),
            index_of(v@, c, i as int) == index_of(v@, c, k as int),
        decreases v.len() - k,
    {
        k = k + 1;
    }
    k
}

/// The end of the line that begins at `pos`: the next `'\n'`, or the end.
pub fn line_end(v: &Vec<char>, pos: usize) -> (r: usize)
    requires
        pos <= v.len(),
    ensures
        pos <= r <= v.len(),
        r < v.len() ==> v@[r as int] == '\n',
        lines_from(v@, pos as int, pos as int) == lines_from(v@, pos as int, r as int),
{
    let mut k = pos;
    while k < v.len() && v[k] != '\n'
        invariant
            pos <= k <= v.len(),
            lines_from(v@, pos as int, pos as int) == lines_from(v@, pos as int, k as int),
        decreases v.len() - k,
    {
        k = k + 1;
    }
    k
}

/// Whether `v` begins with `prefix`.
pub fn starts_with(v: &Vec<char>, prefix: &Vec<char>) -> (b: bool)
    ensures
        b == has_prefix(v@, prefix@),
{
    if prefix.len() > v.len() {
        return false;
    }
    let mut k: usize = 0;
    while k < prefix.len()
        invariant
            prefix.len() <= v.len(),
            k <= prefix.len(),
            forall|j: int| 0 <= j < k ==> v@[j] == prefix@[j],
        decreases prefix.len() - k,
    {
        if v[k] != prefix[k] {
            assert(v@.take(prefix.len() as int)[k as int] != prefix@[k as int]);
            return false;
        }
        k = k + 1;
    }
    assert(v@.take(prefix.len() as int) =~= prefix@);
    true
}

/// `usize::from_str` on the characters `t`.
pub fn parse_usize(t: &Vec<char>) -> (r: Option<usize>)
    ensures
        r == decimal_usize(t@),
{
    let ghost digits = if t@.len() > 0 && t@[0] == '+' {
        t@.drop_first()
    } else {
        t@
    };
    let d: usize = if t.len() > 0 && t[0] == '+' {
        1
    } else {
        0
    };
    assert(digits =~= t@.subrange(d as int, t@.len() as int));
    if d == t.len() {
        return None;
    }
    let mut val: usize = 0;
    let mut k: usize = d;
    while k < t.len()
        invariant
            d <= k <= t.len(),
            digits == t@.subrange(d as int, t@.len() as int),
            digits == (if t@.len() > 0 && t@[0] == '+' {
                t@.drop_first()
            } else {
                t@
            }),
            all_digits(t@.subrange(d as int, k as int)),
            val == decimal_value(t@.subrange(d as int, k as int)),
        decreases t.len() - k,
    {
        let c = t[k];
        let u = c as u32;
        if u < 48 || u > 57 {
            assert(digits[k - d] == c);
            return None;
        }
        let ghost next = t@.subrange(d as int, k + 1);
        assert(next.drop_last() =~= t@.subrange(d as int, k as int));
        assert(next =~= digits.take(k + 1 - d));
        assert(all_digits(next)) by {
            assert forall|j: int| 0 <= j < next.len() implies is_digit(#[trigger] next[j]) by {
                if j < next.len() - 1 {
                    assert(next[j] == t@.subrange(d as int, k as int)[j]);
                }
            }
        }
        let dv = (u - 48) as usize;
        match val.checked_mul(10) {
            Some(m) => match m.checked_add(dv) {
                Some(n) => {
                    val = n;
                },
                None => {
                    proof {
                        overflow_means_none(t@, digits, next, (k + 1 - d) as int);
                    }
                    return None;
                },
            },
            None => {
                proof {
                    overflow_means_none(t@, digits, next, (k + 1 - d) as int);
                }
                return None;
            },
        }
        k = k + 1;
    }
    assert(t@.subrange(d as int, k as int) =~= digits);
    Some(val)
}

proof fn overflow_means_none(t: Seq<char>, digits: Seq<char>, prefix: Seq<char>, n: int)
    requires
        digits == (if t.len() > 0 && t[0] == '+' {
            t.drop_first()
        } else {
            t
        }),
        0 <= n <= digits.len(),
        prefix == digits.take(n),
        decimal_value(prefix) > usize::MAX,
    ensures
        decimal_usize(t) is None,
{
    if all_digits(digits) {
        lemma_decimal_prefix_le(digits, n);
    }
}

} // verus!
