//! Username handling and small shared helpers.
use vstd::prelude::*;

verus! {

/// A letter of `[a-z]`, either case: what a login letter is (ASCII only,
/// as on Twitch).
pub open spec fn ascii_letter(c: char) -> bool {
    ('a' <= c && c <= 'z') || ('A' <= c && c <= 'Z')
}

pub open spec fn ascii_digit(c: char) -> bool {
    '0' <= c && c <= '9'
}

/// First character of a login: `[a-z0-9]`, either case.
pub open spec fn login_head(c: char) -> bool {
    ascii_letter(c) || ascii_digit(c)
}

/// Later characters of a login: `[a-z0-9_]`, either case.
pub open spec fn login_tail(c: char) -> bool {
    login_head(c) || c == '_'
}

/// A login of 1 to 25 ASCII characters: `[a-z0-9][a-z0-9_]{0,24}`, either
/// case.
pub open spec fn is_login_like(s: Seq<char>) -> bool {
    &&& 1 <= s.len() <= 25
    &&& login_head(s[0])
    &&& forall|j: int| 1 <= j < s.len() ==> login_tail(#[trigger] s[j])
}

/// `(?i)^id:([0-9]+)$`: an `id:`-prefixed numeric Twitch id.
pub open spec fn is_id_ref(s: Seq<char>) -> bool {
    &&& s.len() >= 4
    &&& (s[0] == 'i' || s[0] == 'I')
    &&& (s[1] == 'd' || s[1] == 'D')
    &&& s[2] == ':'
    &&& forall|j: int| 3 <= j < s.len() ==> ascii_digit(#[trigger] s[j])
}

/// What `is_user_or_channel` accepts: a login, or an `id:` reference.
pub open spec fn is_user_or_channel_spec(s: Seq<char>) -> bool {
    is_login_like(s) || is_id_ref(s)
}

/// A letter of `[a-z]` under the regex engine's case-insensitive matching,
/// which folds Unicode simple case: `A`-`Z` too, and `ſ` (folds to `s`) and
/// the Kelvin sign `K` (folds to `k`).
pub open spec fn folded_letter(c: char) -> bool {
    ascii_letter(c) || c == '\u{17F}' || c == '\u{212A}'
}

/// `(?i)^[a-z0-9][a-z0-9_]{0,24}$` as the regex engine matches it.
pub open spec fn folded_login(s: Seq<char>) -> bool {
    &&& 1 <= s.len() <= 25
    &&& (folded_letter(s[0]) || ascii_digit(s[0]))
    &&& forall|j: int| 1 <= j < s.len() ==> (folded_letter(#[trigger] s[j]) || ascii_digit(s[j]) || s[j] == '_')
}

/// What the login pattern matches, alternatives and folding included.
pub open spec fn user_chan_match(s: Seq<char>) -> bool {
    folded_login(s) || is_id_ref(s)
}

/// The characters `format_username` strips.
pub open spec fn is_mark(c: char) -> bool {
    c == '@' || c == '#' || c == ','
}

/// `s` without `@`, `#` and `,`.
pub open spec fn strip_marks(s: Seq<char>) -> Seq<char>
    decreases s.len(),
{
    if s.len() == 0 {
        s
    } else if is_mark(s.last()) {
        strip_marks(s.drop_last())
    } else {
        strip_marks(s.drop_last()).push(s.last())
    }
}

/// `str::to_lowercase` of a string: Unicode's lowercase mapping, a name for
/// the table-driven result.
pub uninterp spec fn lowercase(s: Seq<char>) -> Seq<char>;

/// `str::to_lowercase`: the result is `lowercase` of the input.
#[verifier::external_body]
pub(crate) fn str_to_lowercase(s: &str) -> (r: String)
    ensures
        r@ == lowercase(s@),
{
    s.to_lowercase()
}

/// `String::push`: appends one character.
#[verifier::external_body]
pub(crate) fn push_char(s: &mut String, c: char)
    ensures
        final(s)@ == old(s)@.push(c),
{
    s.push(c)
}

/// Appends all of `t` to `s`.
pub fn push_str(s: &mut String, t: &str)
    ensures
        final(s)@ == old(s)@ + t@,
{
    let ghost start = s@;
    for c in it: t.chars()
        invariant
            it.seq() == t@,
            s@ == start + t@.subrange(0, it.index() as int),
    {
        proof {
            let k = it.index() as int;
            assert(t@.subrange(0, k + 1) =~= t@.subrange(0, k).push(c));
        }
        push_char(s, c);
    }
    proof {
        assert(t@.subrange(0, t@.len() as int) =~= t@);
    }
}

/// `str::strip_prefix`: the rest of `s` when it begins with `prefix`.
#[verifier::external_body]
pub(crate) fn strip_prefix<'a>(s: &'a str, prefix: &str) -> (r: Option<&'a str>)
    ensures
        r is Some <==> starts_with_chars(s@, prefix@),
        r matches Some(t) ==> t@ == s@.subrange(prefix@.len() as int, s@.len() as int),
{
    s.strip_prefix(prefix)
}

/// `s` begins with `p`.
pub open spec fn starts_with_chars(s: Seq<char>, p: Seq<char>) -> bool {
    p.len() <= s.len() && s.subrange(0, p.len() as int) == p
}

/// `regex::Regex::is_match` with the pattern
/// `(?i)^[a-z0-9][a-z0-9_]{0,24}$|^id:([0-9]+)$`, compiled on the spot (the
/// pattern is fixed and valid, so compiling it cannot fail). Claims that the
/// match is `user_chan_match`: under `(?i)` the engine folds Unicode simple
/// case, so the letter class also takes `A`-`Z`, `ſ` and `K`.
#[verifier::external_body]
fn user_chan_regex_is_match(input: &str) -> (r: bool)
    ensures
        r == user_chan_match(input@),
{
    regex::Regex::new(r"(?i)^[a-z0-9][a-z0-9_]{0,24}$|^id:([0-9]+)$").unwrap().is_match(input)
}

/// `regex::Regex::is_match` with the pattern `(?i)^id:([0-9]+)$`, compiled
/// on the spot (fixed and valid). Claims that the match is `is_id_ref`.
#[verifier::external_body]
fn user_id_regex_is_match(input: &str) -> (r: bool)
    ensures
        r == is_id_ref(input@),
{
    regex::Regex::new(r"(?i)^id:([0-9]+)$").unwrap().is_match(input)
}

/// Strips `@`, `#` and `,` and lowercases: the normalization every
/// user/channel parameter goes through.
pub fn format_username(input: &str) -> (r: String)
    ensures
        r@ == lowercase(strip_marks(input@)),
{
    let mut kept = String::new();
    for c in it: input.chars()
        invariant
            it.seq() == input@,
            kept@ == strip_marks(input@.subrange(0, it.index() as int)),
    {
        proof {
            let k = it.index() as int;
            assert(input@.subrange(0, k + 1).drop_last() =~= input@.subrange(0, k));
            assert(input@.subrange(0, k + 1).last() == c);
        }
        if !(c == '@' || c == '#' || c == ',') {
            push_char(&mut kept, c);
        }
    }
    proof {
        assert(input@.subrange(0, input@.len() as int) =~= input@);
    }
    str_to_lowercase(kept.as_str())
}

/// Whether `input` is a login or an `id:` reference. Logins are ASCII, so
/// text outside ASCII is refused before the pattern (whose case folding
/// would let `ſ` and the Kelvin sign through) is asked.
pub fn is_user_or_channel(input: &str) -> (r: bool)
    ensures
        r == is_user_or_channel_spec(input@),
{
    if !input.is_ascii() {
        proof {
            let s = input@;
            if is_login_like(s) {
                assert forall|i: int| 0 <= i < s.len() implies '\0' <= #[trigger] s[i] <= '\u{7f}' by {
                    if i >= 1 {
                        assert(login_tail(s[i]));
                    }
                }
            }
            if is_id_ref(s) {
                assert forall|i: int| 0 <= i < s.len() implies '\0' <= #[trigger] s[i] <= '\u{7f}' by {
                    if i >= 3 {
                        assert(ascii_digit(s[i]));
                    }
                }
            }
        }
        return false;
    }
    let r = user_chan_regex_is_match(input);
    proof {
        let s = input@;
        assert(vstd::utf8::is_ascii_chars(s));
        if folded_login(s) {
            assert(s[0] <= '\u{7f}');
            assert forall|j: int| 1 <= j < s.len() implies login_tail(#[trigger] s[j]) by {
                assert(s[j] <= '\u{7f}');
                assert(folded_letter(s[j]) || ascii_digit(s[j]) || s[j] == '_');
            }
        }
    }
    r
}

/// Whether `input` is an `id:` reference.
pub fn is_user_id(input: &str) -> (r: bool)
    ensures
        r == is_id_ref(input@),
{
    user_id_regex_is_match(input)
}

/// `input` without a leading `id:`.
pub fn strip_id_prefix(input: &str) -> (r: &str)
    ensures
        r@ == if starts_with_chars(input@, "id:"@) {
            input@.subrange(3, input@.len() as int)
        } else {
            input@
        },
{
    proof {
        reveal_strlit("id:");
    }
    match strip_prefix(input, "id:") {
        Some(rest) => rest,
        None => input,
    }
}

/// `s` with its first `id:` turned into `id-`, the shape cache keys use.
pub open spec fn id_dash(s: Seq<char>) -> Seq<char>
    decreases s.len(),
{
    if s.len() < 3 {
        s
    } else if s[0] == 'i' && s[1] == 'd' && s[2] == ':' {
        seq!['i', 'd', '-'] + s.subrange(3, s.len() as int)
    } else {
        seq![s[0]] + id_dash(s.subrange(1, s.len() as int))
    }
}

/// `str::replacen(s, "id:", "id-", 1)`: the first `id:` becomes `id-`.
pub fn id_dash_key(s: &str) -> (r: String)
    ensures
        r@ == id_dash(s@),
{
    let mut out = String::new();
    let mut done = false;
    let mut i: usize = 0;
    let n = s.unicode_len();
    let ghost v = s@;
    proof {
        assert(v.subrange(0, n as int) =~= v);
        assert(out@ + v =~= v);
    }
    while i < n
        invariant
            n == v.len(),
            v == s@,
            i <= n,
            !done ==> out@ + id_dash(v.subrange(i as int, n as int)) == id_dash(v),
            done ==> out@ + v.subrange(i as int, n as int) == id_dash(v),
        decreases n - i,
    {
        let c = s.get_char(i);
        let ghost rest = v.subrange(i as int, n as int);
        let ghost old_out = out@;
        if !done && n - i > 2 && c == 'i' && s.get_char(i + 1) == 'd' && s.get_char(i + 2) == ':' {
            push_char(&mut out, 'i');
            push_char(&mut out, 'd');
            push_char(&mut out, '-');
            proof {
                assert(rest[0] == 'i' && rest[1] == 'd' && rest[2] == ':');
                assert(rest.subrange(3, rest.len() as int) =~= v.subrange(i + 3, n as int));
                assert(out@ =~= old_out + seq!['i', 'd', '-']);
                assert(id_dash(rest) == seq!['i', 'd', '-'] + rest.subrange(3, rest.len() as int));
                assert(out@ + v.subrange(i + 3, n as int) =~= old_out + id_dash(rest));
            }
            done = true;
            i = i + 3;
        } else {
            push_char(&mut out, c);
            proof {
                assert(rest[0] == c);
                assert(rest.subrange(1, rest.len() as int) =~= v.subrange(i + 1, n as int));
                if !done {
                    if rest.len() >= 3 {
                        assert(!(rest[0] == 'i' && rest[1] == 'd' && rest[2] == ':'));
                    }
                    assert(id_dash(rest) == if rest.len() < 3 { rest } else { seq![rest[0]] + id_dash(rest.subrange(1, rest.len() as int)) });
                    if rest.len() < 3 {
                        lemma_id_dash_short(rest.subrange(1, rest.len() as int));
                        assert(rest =~= seq![c] + rest.subrange(1, rest.len() as int));
                    }
                }
                assert(v.subrange(i as int, n as int) =~= seq![c] + v.subrange(i + 1, n as int));
            }
            i = i + 1;
        }
    }
    proof {
        assert(v.subrange(n as int, n as int) =~= Seq::<char>::empty());
        assert(out@ + Seq::<char>::empty() =~= out@);
    }
    out
}

proof fn lemma_id_dash_short(s: Seq<char>)
    requires
        s.len() < 3,
    ensures
        id_dash(s) == s,
{
}

/// `std::time::SystemTime::now()` as milliseconds since the Unix epoch
/// (`duration_since(UNIX_EPOCH)` then `as_millis`), `None` when the clock
/// reads before the epoch. Nothing is claimed of the value: it is the clock.
#[verifier::external_body]
fn system_millis() -> (r: Option<u128>) {
    std::time::SystemTime::now().duration_since(std::time::UNIX_EPOCH).ok().map(|d| d.as_millis())
}

/// Milliseconds since the Unix epoch as an `i64` (truncating, as `as` does),
/// or 0 when the clock reads before the epoch.
pub fn millis_to_i64(ms: Option<u128>) -> (r: i64)
    ensures
        r == match ms {
            Some(m) => m as i64,
            None => 0,
        },
{
    match ms {
        Some(m) => m as i64,
        None => 0,
    }
}

/// The current time in milliseconds since the Unix epoch (0 if the clock
/// reads before it).
pub fn now_ms() -> (r: i64) {
    millis_to_i64(system_millis())
}

/// `Date.prototype.toUTCString()`-style rendering of a millisecond
/// timestamp, a name for what `chrono` formats.
pub uninterp spec fn utc_string(ms: i64) -> Seq<char>;

/// `chrono::DateTime::from_timestamp_millis(ms)` (the epoch when out of
/// range, as `unwrap_or_default` gives) formatted with
/// `"%a, %d %b %Y %H:%M:%S GMT"`. The result is `utc_string(ms)`.
#[verifier::external_body]
fn chrono_utc_string(ms: i64) -> (r: String)
    ensures
        r@ == utc_string(ms),
{
    chrono::DateTime::from_timestamp_millis(ms).unwrap_or_default().format("%a, %d %b %Y %H:%M:%S GMT").to_string()
}

/// Matches JS `Date.prototype.toUTCString()`, e.g. "Thu, 01 Jan 1970 00:00:00 GMT".
pub fn to_utc_string(ms: i64) -> (r: String)
    ensures
        r@ == utc_string(ms),
{
    chrono_utc_string(ms)
}

/// Decimal digits of `n`, without leading zeros: what `Display` prints for an unsigned integer.
pub open spec fn decimal(n: nat) -> Seq<char>
    decreases n,
{
    if n < 10 {
        seq![digit_char(n)]
    } else {
        decimal(n / 10).push(digit_char(n % 10))
    }
}

pub open spec fn digit_char(d: nat) -> char {
    if d == 0 { '0' } else if d == 1 { '1' } else if d == 2 { '2' } else if d == 3 { '3' } else if d
        == 4 { '4' } else if d == 5 { '5' } else if d == 6 { '6' } else if d == 7 { '7' } else if d
        == 8 { '8' } else { '9' }
}

fn digit(d: u64) -> (c: char)
    requires
        d < 10,
    ensures
        c == digit_char(d as nat),
{
    if d == 0 { '0' } else if d == 1 { '1' } else if d == 2 { '2' } else if d == 3 { '3' } else if d
        == 4 { '4' } else if d == 5 { '5' } else if d == 6 { '6' } else if d == 7 { '7' } else if d
        == 8 { '8' } else { '9' }
}

/// Appends the decimal rendering of `n` to `s`.
pub fn push_decimal(s: &mut String, n: u64)
    ensures
        final(s)@ == old(s)@ + decimal(n as nat),
    decreases n,
{
    if n >= 10 {
        push_decimal(s, n / 10);
    }
    push_char(s, digit(n % 10));
}

} // verus!
