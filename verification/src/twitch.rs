//! Twitch user resolution through api.ivr.fi.
use vstd::prelude::*;
use crate::util::{lowercase, str_to_lowercase, is_id_ref, is_user_id, strip_id_prefix, starts_with_chars, id_dash, id_dash_key};

verus! {

#[derive(Debug, Clone)]
pub struct TwitchUser {
    pub name: String,
    pub login: String,
    pub avatar: String,
    pub id: String,
    pub banned: bool,
}

/// The cache key a lookup is stored under: the first `id:` becomes `id-`.
pub fn info_cache_key(user: &str) -> (r: String)
    ensures
        r@ == id_dash(user@),
{
    id_dash_key(user)
}

/// The ivr.fi query for a lookup: `("id", n)` for an `id:n` reference,
/// `("login", user)` otherwise (with any `id:` prefix stripped).
pub fn ivr_query(user: &str) -> (r: (bool, &str))
    ensures
        r.0 == is_id_ref(user@),
        r.1@ == if starts_with_chars(user@, "id:"@) {
            user@.subrange(3, user@.len() as int)
        } else {
            user@
        },
{
    (is_user_id(user), strip_id_prefix(user))
}

/// The name shown for a user: the display name when it is only a change of
/// case of the login, the login otherwise (localized display names).
pub fn display_name(shown: String, login: &String) -> (r: String)
    ensures
        r@ == if lowercase(shown@) == login@ {
            shown@
        } else {
            login@
        },
{
    let lowered = str_to_lowercase(shown.as_str());
    if lowered == *login {
        shown
    } else {
        login.clone()
    }
}

/// The user ivr.fi described, named by `display_name`.
pub fn twitch_user(id: String, login: String, display: String, logo: String, banned: bool) -> (r: TwitchUser)
    ensures
        r.name@ == if lowercase(display@) == login@ {
            display@
        } else {
            login@
        },
        r.login == login,
        r.avatar == logo,
        r.id == id,
        r.banned == banned,
{
    let name = display_name(display, &login);
    TwitchUser { name, login, avatar: logo, id, banned }
}

/// A user as api.ivr.fi describes it.
pub struct IvrUser {
    pub id: String,
    pub login: String,
    pub display_name: String,
    pub logo: String,
    pub banned: bool,
}

/// The user an ivr.fi answer describes: its first entry, `None` when it
/// lists nobody.
pub fn user_from_response(body: Vec<IvrUser>) -> (r: Option<TwitchUser>)
    ensures
        match r {
            Some(u) => body@.len() > 0 && u.name@ == (if lowercase(body@[0].display_name@) == body@[0].login@ {
                body@[0].display_name@
            } else {
                body@[0].login@
            }) && u.login == body@[0].login && u.avatar == body@[0].logo && u.id == body@[0].id && u.banned
                == body@[0].banned,
            None => body@.len() == 0,
        },
{
    let mut body = body;
    if body.len() == 0 {
        return None;
    }
    let first = body.swap_remove(0);
    Some(twitch_user(first.id, first.login, first.display_name, first.logo, first.banned))
}

} // verus!
