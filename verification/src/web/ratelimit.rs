//! Which address a request is charged to.
use vstd::prelude::*;
use crate::text::{chars_of, string_of, trim, trim_spec};

verus! {

/// `s` up to its first `,` (all of it without one): the first item of a
/// comma-separated chain.
pub open spec fn first_item(s: Seq<char>) -> Seq<char>
    decreases s.len(),
{
    if s.len() == 0 {
        s
    } else if s[0] == ',' {
        Seq::empty()
    } else {
        seq![s[0]] + first_item(s.subrange(1, s.len() as int))
    }
}

fn first_of_chain(s: &str) -> (r: String)
    ensures
        r@ == first_item(s@),
{
    let cs = chars_of(s);
    let mut i: usize = 0;
    proof {
        assert(cs@.subrange(0, cs@.len() as int) =~= cs@);
        assert(cs@.subrange(0, 0) + first_item(cs@) =~= first_item(cs@));
    }
    while i < cs.len() && cs[i] != ','
        invariant
            i <= cs@.len(),
            cs@ == s@,
            first_item(s@) == cs@.subrange(0, i as int) + first_item(cs@.subrange(i as int, cs@.len() as int)),
        decreases cs@.len() - i,
    {
        proof {
            let rest = cs@.subrange(i as int, cs@.len() as int);
            assert(rest.subrange(1, rest.len() as int) =~= cs@.subrange(i + 1, cs@.len() as int));
            assert(cs@.subrange(0, i + 1) =~= cs@.subrange(0, i as int) + seq![cs@[i as int]]);
        }
        i = i + 1;
    }
    proof {
        assert(first_item(cs@.subrange(i as int, cs@.len() as int)) =~= Seq::<char>::empty());
    }
    string_of(&cs, 0, i)
}

/// The forwarded client address a proxy reports, before parsing:
/// `X-Forwarded-For` as a whole, else `X-Real-IP`, else the first entry of
/// `CF-Connecting-IP`; trimmed.
pub open spec fn forwarded_spec(xff: Option<Seq<char>>, real_ip: Option<Seq<char>>, cf: Option<Seq<char>>) -> Option<Seq<char>> {
    match xff {
        Some(v) => Some(trim_spec(v)),
        None => match real_ip {
            Some(v) => Some(trim_spec(v)),
            None => match cf {
                Some(v) => Some(trim_spec(first_item(v))),
                None => None,
            },
        },
    }
}

/// The forwarded client address text (see `forwarded_spec`).
pub fn forwarded_candidate(xff: Option<&str>, real_ip: Option<&str>, cf: Option<&str>) -> (r: Option<String>)
    ensures
        crate::logs::instance::opt_chars(r) == forwarded_spec(
            match xff {
                Some(v) => Some(v@),
                None => None,
            },
            match real_ip {
                Some(v) => Some(v@),
                None => None,
            },
            match cf {
                Some(v) => Some(v@),
                None => None,
            },
        ),
{
    match xff {
        Some(v) => Some(trim(v)),
        None => match real_ip {
            Some(v) => Some(trim(v)),
            None => match cf {
                Some(v) => {
                    let first = first_of_chain(v);
                    Some(trim(first.as_str()))
                },
                None => None,
            },
        },
    }
}

} // verus!
