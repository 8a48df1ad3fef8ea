//! What the meta endpoints decide: the search query and instance status.
use vstd::prelude::*;
use vstd::string::StringSliceAdditionalSpecFns;
use crate::logs::search::MAX_QUERY_LEN;
use crate::text::{chars_of, string_of, trim, trim_spec};
use crate::web::api::{ascii_lower, lower};
use crate::util::push_char;

verus! {

/// Query of `/meta/search`.
pub struct SearchQuery {
    pub q: Option<String>,
}

/// `s` without its leading `#`s.
pub open spec fn without_hashes(s: Seq<char>) -> Seq<char>
    decreases s.len(),
{
    if s.len() > 0 && s[0] == '#' {
        without_hashes(s.subrange(1, s.len() as int))
    } else {
        s
    }
}

/// `str::to_ascii_lowercase`.
pub open spec fn ascii_lowercase(s: Seq<char>) -> Seq<char> {
    Seq::new(s.len(), |i: int| ascii_lower(s[i]))
}

/// The search term of a query: trimmed, without leading `#`, ASCII-lowercased.
pub open spec fn search_term(q: Seq<char>) -> Seq<char> {
    ascii_lowercase(without_hashes(trim_spec(q)))
}

fn strip_hashes(s: &str) -> (r: String)
    ensures
        r@ == without_hashes(s@),
{
    let cs = chars_of(s);
    let mut i: usize = 0;
    proof {
        assert(cs@.subrange(0, cs@.len() as int) =~= cs@);
    }
    while i < cs.len() && cs[i] == '#'
        invariant
            i <= cs@.len(),
            cs@ == s@,
            without_hashes(s@) == without_hashes(cs@.subrange(i as int, cs@.len() as int)),
        decreases cs@.len() - i,
    {
        proof {
            let rest = cs@.subrange(i as int, cs@.len() as int);
            assert(rest.subrange(1, rest.len() as int) =~= cs@.subrange(i + 1, cs@.len() as int));
        }
        i = i + 1;
    }
    string_of(&cs, i, cs.len())
}

fn to_ascii_lowercase(s: &str) -> (r: String)
    ensures
        r@ == ascii_lowercase(s@),
{
    let mut r = String::new();
    for c in it: s.chars()
        invariant
            it.seq() == s@,
            r@ == ascii_lowercase(s@.subrange(0, it.index() as int)),
    {
        proof {
            let k = it.index() as int;
            assert(ascii_lowercase(s@.subrange(0, k + 1)) =~= ascii_lowercase(s@.subrange(0, k)).push(ascii_lower(c)));
        }
        push_char(&mut r, lower(c));
    }
    proof {
        assert(s@.subrange(0, s@.len() as int) =~= s@);
    }
    r
}

/// The search term of `/meta/search`, or the message of the 400 answer: an
/// empty term is missing, one longer than `MAX_QUERY_LEN` bytes too long.
pub fn normalize_search(q: Option<String>) -> (r: Result<String, String>)
    ensures
        ({
            let term = search_term(
                match q {
                    Some(s) => s@,
                    None => Seq::<char>::empty(),
                },
            );
            if term.len() == 0 {
                r matches Err(m) && m@ == "Missing search query"@
            } else if vstd::utf8::encode_utf8(term).len() > MAX_QUERY_LEN {
                r matches Err(m) && m@ == "Search query too long"@
            } else {
                r matches Ok(t) && t@ == term
            }
        }),
{
    let raw = match q {
        Some(s) => s,
        None => String::new(),
    };
    let trimmed = trim(raw.as_str());
    let unhashed = strip_hashes(trimmed.as_str());
    let term = to_ascii_lowercase(unhashed.as_str());
    if term.as_str().unicode_len() == 0 {
        return Err("Missing search query".to_owned());
    }
    if term.as_str().as_bytes().len() > MAX_QUERY_LEN {
        return Err("Search query too long".to_owned());
    }
    Ok(term)
}

/// `/meta/status` of an instance: its channel count and whether it is up,
/// from the length of its last loaded channel list, if any.
pub fn instance_status(loaded: Option<usize>) -> (r: (usize, bool))
    ensures
        r == match loaded {
            Some(n) => (n, n > 0),
            None => (0usize, false),
        },
{
    match loaded {
        Some(n) => (n, n > 0),
        None => (0, false),
    }
}

} // verus!
