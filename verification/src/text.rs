//! Text handling over characters: integer parsing and printing as std does
//! it, substring search, first-occurrence replacement and whitespace trimming.
use vstd::prelude::*;
use crate::util::{decimal, push_char, push_decimal};

verus! {

/// `char::is_ascii_digit`.
pub open spec fn is_digit(c: char) -> bool {
    '0' <= c && c <= '9'
}

/// Every character is an ASCII digit.
pub open spec fn all_digits(s: Seq<char>) -> bool {
    forall|i: int| 0 <= i < s.len() ==> is_digit(#[trigger] s[i])
}

/// Value of a string of ASCII digits, read in base 10.
pub open spec fn digits_value(s: Seq<char>) -> nat
    decreases s.len(),
{
    if s.len() == 0 {
        0
    } else {
        digits_value(s.drop_last()) * 10 + ((s.last() as int - '0' as int) as nat)
    }
}

/// `s` with its first character removed when it is `c`.
pub open spec fn without_sign(s: Seq<char>, c: char) -> Seq<char> {
    if s.len() > 0 && s[0] == c {
        s.subrange(1, s.len() as int)
    } else {
        s
    }
}

/// `i64::from_str`: an optional `+` or `-`, then at least one ASCII digit,
/// the value in range.
pub open spec fn parse_i64_spec(s: Seq<char>) -> Option<i64> {
    let neg = s.len() > 0 && s[0] == '-';
    let body = if neg {
        s.subrange(1, s.len() as int)
    } else {
        without_sign(s, '+')
    };
    if body.len() == 0 || !all_digits(body) {
        None
    } else {
        let v: int = if neg {
            -digits_value(body)
        } else {
            digits_value(body) as int
        };
        if i64::MIN <= v <= i64::MAX {
            Some(v as i64)
        } else {
            None
        }
    }
}

/// `usize::from_str`: an optional `+`, then at least one ASCII digit, the
/// value in range.
pub open spec fn parse_usize_spec(s: Seq<char>) -> Option<usize> {
    let body = without_sign(s, '+');
    if body.len() == 0 || !all_digits(body) || digits_value(body) > usize::MAX {
        None
    } else {
        Some(digits_value(body) as usize)
    }
}

/// How `Display` prints an `i64`.
pub open spec fn i64_text(n: i64) -> Seq<char> {
    if n < 0 {
        seq!['-'] + decimal((-(n as int)) as nat)
    } else {
        decimal(n as nat)
    }
}

/// `pattern` occurs in `s` at character position `i`.
pub open spec fn occurs_at(s: Seq<char>, pattern: Seq<char>, i: int) -> bool {
    0 <= i && i + pattern.len() <= s.len() && s.subrange(i, i + pattern.len()) == pattern
}

/// First position, from `from` on, where `pattern` occurs in `s`.
pub open spec fn find_from(s: Seq<char>, pattern: Seq<char>, from: int) -> Option<int>
    decreases s.len() + 1 - from,
{
    if from < 0 || from + pattern.len() > s.len() {
        None
    } else if occurs_at(s, pattern, from) {
        Some(from)
    } else {
        find_from(s, pattern, from + 1)
    }
}

/// `str::contains` with a string pattern.
pub open spec fn contains_spec(s: Seq<char>, pattern: Seq<char>) -> bool {
    find_from(s, pattern, 0) is Some
}

/// `str::replacen(s, pattern, with, 1)`.
pub open spec fn replace_first_spec(s: Seq<char>, pattern: Seq<char>, with: Seq<char>) -> Seq<char> {
    match find_from(s, pattern, 0) {
        Some(i) => s.subrange(0, i) + with + s.subrange(i + pattern.len(), s.len() as int),
        None => s,
    }
}

/// The characters of `s`, one by one.
pub fn chars_of(s: &str) -> (r: Vec<char>)
    ensures
        r@ == s@,
{
    let mut r: Vec<char> = Vec::new();
    for c in it: s.chars()
        invariant
            it.seq() == s@,
            r@ == s@.subrange(0, it.index() as int),
    {
        proof {
            let k = it.index() as int;
            assert(s@.subrange(0, k + 1) =~= s@.subrange(0, k).push(c));
        }
        r.push(c);
    }
    proof {
        assert(s@.subrange(0, s@.len() as int) =~= s@);
    }
    r
}

/// A string of the characters `cs[from..to]`.
pub fn string_of(cs: &Vec<char>, from: usize, to: usize) -> (r: String)
    requires
        from <= to <= cs@.len(),
    ensures
        r@ == cs@.subrange(from as int, to as int),
{
    let mut r = String::new();
    let mut i = from;
    while i < to
        invariant
            from <= i <= to <= cs@.len(),
            r@ == cs@.subrange(from as int, i as int),
        decreases to - i,
    {
        push_char(&mut r, cs[i]);
        proof {
            assert(cs@.subrange(from as int, i + 1) =~= cs@.subrange(from as int, i as int).push(cs@[i as int]));
        }
        i = i + 1;
    }
    r
}

/// Whether `pattern` occurs in `s` at `i`.
fn matches_at(s: &Vec<char>, pattern: &Vec<char>, i: usize) -> (r: bool)
    requires
        i + pattern@.len() <= s@.len(),
    ensures
        r == occurs_at(s@, pattern@, i as int),
{
    let n = s.len();
    let mut k: usize = 0;
    while k < pattern.len()
        invariant
            n == s@.len(),
            i + pattern@.len() <= s@.len(),
            k <= pattern@.len(),
            forall|j: int| 0 <= j < k ==> s@[i + j] == pattern@[j],
        decreases pattern@.len() - k,
    {
        if s[i + k] != pattern[k] {
            proof {
                assert(s@.subrange(i as int, i + pattern@.len())[k as int] != pattern@[k as int]);
            }
            return false;
        }
        k = k + 1;
    }
    proof {
        assert(s@.subrange(i as int, i + pattern@.len()) =~= pattern@);
    }
    true
}

/// First character position of `pattern` in `s`.
pub fn find_chars(s: &Vec<char>, pattern: &Vec<char>) -> (r: Option<usize>)
    ensures
        match r {
            Some(i) => find_from(s@, pattern@, 0) == Some(i as int),
            None => find_from(s@, pattern@, 0) is None,
        },
{
    if pattern.len() > s.len() {
        return None;
    }
    let last = s.len() - pattern.len();
    let mut i: usize = 0;
    loop
        invariant
            last == s@.len() - pattern@.len(),
            i <= last,
            find_from(s@, pattern@, 0) == find_from(s@, pattern@, i as int),
        decreases last - i,
    {
        if matches_at(s, pattern, i) {
            return Some(i);
        }
        if i == last {
            return None;
        }
        i = i + 1;
    }
}

/// `str::contains` with a string pattern.
pub fn contains(s: &str, pattern: &str) -> (r: bool)
    ensures
        r == contains_spec(s@, pattern@),
{
    let cs = chars_of(s);
    let ps = chars_of(pattern);
    find_chars(&cs, &ps).is_some()
}

/// `str::replacen(s, pattern, with, 1)`: the first occurrence of `pattern`
/// replaced.
pub fn replace_first(s: &str, pattern: &str, with: &str) -> (r: String)
    ensures
        r@ == replace_first_spec(s@, pattern@, with@),
{
    let cs = chars_of(s);
    let ps = chars_of(pattern);
    let n = cs.len();
    match find_chars(&cs, &ps) {
        Some(i) => {
            proof {
                assert(occurs_at(s@, pattern@, i as int)) by {
                    lemma_find_from_occurs(s@, pattern@, 0);
                }
                assert(i + ps@.len() <= cs@.len());
            }
            let mut r = string_of(&cs, 0, i);
            crate::util::push_str(&mut r, with);
            let rest = string_of(&cs, i + ps.len(), n);
            crate::util::push_str(&mut r, rest.as_str());
            r
        },
        None => s.to_owned(),
    }
}

proof fn lemma_find_from_occurs(s: Seq<char>, pattern: Seq<char>, from: int)
    ensures
        find_from(s, pattern, from) matches Some(i) ==> occurs_at(s, pattern, i) && from <= i,
    decreases s.len() + 1 - from,
{
    if !(from < 0 || from + pattern.len() > s.len()) && !occurs_at(s, pattern, from) {
        lemma_find_from_occurs(s, pattern, from + 1);
    }
}

proof fn lemma_digits_value_grows(s: Seq<char>, k: int)
    requires
        0 <= k <= s.len(),
        all_digits(s),
    ensures
        digits_value(s.subrange(0, k)) <= digits_value(s),
    decreases s.len() - k,
{
    if k < s.len() {
        lemma_digits_value_grows(s.drop_last(), k);
        assert(s.drop_last().subrange(0, k) =~= s.subrange(0, k));
        assert(all_digits(s.drop_last()));
    } else {
        assert(s.subrange(0, k) =~= s);
    }
}

/// Reads `cs[from..]` as ASCII digits, giving up once the value passes
/// `limit`: `Some(value)` when every character is a digit and the value is
/// at most `limit`.
fn read_digits(cs: &Vec<char>, from: usize, limit: u64) -> (r: Option<u64>)
    requires
        from <= cs@.len(),
        limit >= 9,
    ensures
        ({
            let body = cs@.subrange(from as int, cs@.len() as int);
            match r {
                Some(v) => all_digits(body) && v == digits_value(body) && v <= limit,
                None => !all_digits(body) || digits_value(body) > limit,
            }
        }),
{
    let ghost body = cs@.subrange(from as int, cs@.len() as int);
    let mut i = from;
    while i < cs.len()
        invariant
            from <= i <= cs@.len(),
            body == cs@.subrange(from as int, cs@.len() as int),
            forall|j: int| from <= j < i ==> is_digit(#[trigger] cs@[j]),
        decreases cs@.len() - i,
    {
        let c = cs[i];
        if !('0' <= c && c <= '9') {
            proof {
                assert(body[i - from] == c);
            }
            return None;
        }
        i = i + 1;
    }
    proof {
        assert forall|j: int| 0 <= j < body.len() implies is_digit(#[trigger] body[j]) by {
            assert(body[j] == cs@[from + j]);
        }
    }
    let mut v: u64 = 0;
    let mut i = from;
    while i < cs.len()
        invariant
            from <= i <= cs@.len(),
            body == cs@.subrange(from as int, cs@.len() as int),
            all_digits(body),
            v == digits_value(body.subrange(0, i - from)),
            v <= limit,
            limit >= 9,
        decreases cs@.len() - i,
    {
        proof {
            assert(body.subrange(0, i - from + 1).drop_last() =~= body.subrange(0, i - from));
            assert(body.subrange(0, i - from + 1).last() == cs@[i as int]);
            assert(is_digit(body[i - from]));
            assert(body[i - from] == cs@[i as int]);
        }
        let c = cs[i];
        assert('0' as u32 <= c as u32 <= '9' as u32);
        let d: u64 = (c as u32 - '0' as u32) as u64;
        assert(d <= 9);
        if v > (limit - d) / 10 {
            proof {
                assert(v * 10 + d > limit) by (nonlinear_arith)
                    requires
                        v > (limit - d) / 10,
                        d <= limit || d > limit,
                ;
                lemma_digits_value_grows(body, i - from + 1);
            }
            return None;
        }
        proof {
            assert(v * 10 + d <= limit) by (nonlinear_arith)
                requires
                    v <= (limit - d) / 10,
                    d <= 9,
                    limit >= d,
            ;
        }
        v = v * 10 + d;
        i = i + 1;
    }
    proof {
        assert(body.subrange(0, cs@.len() - from) =~= body);
    }
    Some(v)
}

/// `s.parse::<i64>().ok()`.
pub fn parse_i64(s: &str) -> (r: Option<i64>)
    ensures
        r == parse_i64_spec(s@),
{
    let cs = chars_of(s);
    let neg = cs.len() > 0 && cs[0] == '-';
    let plus = cs.len() > 0 && cs[0] == '+';
    let from: usize = if neg || plus {
        1
    } else {
        0
    };
    let ghost body = cs@.subrange(from as int, cs@.len() as int);
    proof {
        if !neg && !plus {
            assert(body =~= s@);
        }
    }
    if from == cs.len() {
        return None;
    }
    let limit: u64 = if neg {
        0x8000_0000_0000_0000
    } else {
        0x7fff_ffff_ffff_ffff
    };
    match read_digits(&cs, from, limit) {
        None => None,
        Some(v) => {
            if neg {
                if v == 0x8000_0000_0000_0000 {
                    Some(i64::MIN)
                } else {
                    Some(0i64 - v as i64)
                }
            } else {
                Some(v as i64)
            }
        },
    }
}

/// `s.parse::<usize>().ok()`.
pub fn parse_usize(s: &str) -> (r: Option<usize>)
    ensures
        r == parse_usize_spec(s@),
{
    let cs = chars_of(s);
    let from: usize = if cs.len() > 0 && cs[0] == '+' {
        1
    } else {
        0
    };
    proof {
        if from == 0 {
            assert(cs@.subrange(0, cs@.len() as int) =~= s@);
        }
    }
    if from == cs.len() {
        return None;
    }
    match read_digits(&cs, from, usize::MAX as u64) {
        None => None,
        Some(v) => Some(v as usize),
    }
}

/// Appends `n` as `Display` prints it.
pub fn push_i64(s: &mut String, n: i64)
    ensures
        final(s)@ == old(s)@ + i64_text(n),
{
    if n < 0 {
        push_char(s, '-');
        let m: u64 = if n == i64::MIN {
            0x8000_0000_0000_0000
        } else {
            (0i64 - n) as u64
        };
        push_decimal(s, m);
        proof {
            assert(final(s)@ =~= old(s)@ + (seq!['-'] + decimal((-(n as int)) as nat)));
        }
    } else {
        push_decimal(s, n as u64);
    }
}

/// `char::is_whitespace`: the Unicode `White_Space` property.
pub open spec fn is_space(c: char) -> bool {
    ('\u{9}' <= c && c <= '\u{d}') || c == ' ' || c == '\u{85}' || c == '\u{a0}' || c == '\u{1680}'
        || ('\u{2000}' <= c && c <= '\u{200a}') || c == '\u{2028}' || c == '\u{2029}' || c == '\u{202f}'
        || c == '\u{205f}' || c == '\u{3000}'
}

/// First position from `from` on that is not whitespace (or the end).
pub open spec fn skip_space(s: Seq<char>, from: int) -> int
    decreases s.len() - from,
{
    if from < 0 || from >= s.len() || !is_space(s[from]) {
        from
    } else {
        skip_space(s, from + 1)
    }
}

/// One past the last position before `to` that is not whitespace, not below `from`.
pub open spec fn skip_space_back(s: Seq<char>, from: int, to: int) -> int
    decreases to - from,
{
    if to <= from || !is_space(s[to - 1]) {
        to
    } else {
        skip_space_back(s, from, to - 1)
    }
}

/// `str::trim`.
pub open spec fn trim_spec(s: Seq<char>) -> Seq<char> {
    let a = skip_space(s, 0);
    s.subrange(a, skip_space_back(s, a, s.len() as int))
}

proof fn lemma_skip_space_range(s: Seq<char>, from: int)
    requires
        0 <= from <= s.len(),
    ensures
        from <= skip_space(s, from) <= s.len(),
    decreases s.len() - from,
{
    if from < s.len() && is_space(s[from]) {
        lemma_skip_space_range(s, from + 1);
    }
}

proof fn lemma_skip_space_back_range(s: Seq<char>, from: int, to: int)
    requires
        0 <= from <= to <= s.len(),
    ensures
        from <= skip_space_back(s, from, to) <= to,
    decreases to - from,
{
    if to > from && is_space(s[to - 1]) {
        lemma_skip_space_back_range(s, from, to - 1);
    }
}

fn space(c: char) -> (r: bool)
    ensures
        r == is_space(c),
{
    ('\u{9}' <= c && c <= '\u{d}') || c == ' ' || c == '\u{85}' || c == '\u{a0}' || c == '\u{1680}'
        || ('\u{2000}' <= c && c <= '\u{200a}') || c == '\u{2028}' || c == '\u{2029}' || c == '\u{202f}'
        || c == '\u{205f}' || c == '\u{3000}'
}

/// `str::trim`: leading and trailing whitespace removed.
pub fn trim(s: &str) -> (r: String)
    ensures
        r@ == trim_spec(s@),
{
    let cs = chars_of(s);
    let mut a: usize = 0;
    while a < cs.len() && space(cs[a])
        invariant
            a <= cs@.len(),
            cs@ == s@,
            skip_space(s@, 0) == skip_space(s@, a as int),
        decreases cs@.len() - a,
    {
        a = a + 1;
    }
    let mut b: usize = cs.len();
    while b > a && space(cs[b - 1])
        invariant
            a <= b <= cs@.len(),
            cs@ == s@,
            a == skip_space(s@, 0),
            skip_space_back(s@, a as int, s@.len() as int) == skip_space_back(s@, a as int, b as int),
        decreases b - a,
    {
        b = b - 1;
    }
    string_of(&cs, a, b)
}

/// Whether two strings hold the same characters.
pub fn same_text(a: &str, b: &str) -> (r: bool)
    ensures
        r == (a@ == b@),
{
    let x = crate::text::chars_of(a);
    let y = crate::text::chars_of(b);
    if x.len() != y.len() {
        return false;
    }
    let mut i: usize = 0;
    while i < x.len()
        invariant
            x@ == a@,
            y@ == b@,
            x@.len() == y@.len(),
            i <= x@.len(),
            forall|j: int| 0 <= j < i ==> x@[j] == y@[j],
        decreases x@.len() - i,
    {
        if x[i] != y[i] {
            return false;
        }
        i = i + 1;
    }
    proof {
        assert(x@ =~= y@);
    }
    true
}

} // verus!
